[package]
name = "mincut_sat"
version = "0.1.0"
edition = "2021"
publish = false

[dependencies]
num = "0.4"
clap = { version = "4", features = ["derive"] }
clio = { version = "0.3", features = ["clap-parse"] }

[dev-dependencies]
rand = "0.8"
varisat = "0.2"
