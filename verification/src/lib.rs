//! A conflict-driven clause-learning SAT solver whose conflict analysis can be
//! swapped between the classical first-UIP resolution walk and a family of
//! schemes that read the learned clause off a minimum cut of the implication
//! graph.
pub mod cdcl;
pub mod counting;
pub mod simple_cdcl;
pub mod sk1flow;
