use mincut_sat::cdcl::decision::DecideFirstVariable;
use mincut_sat::cdcl::first_uip::FirstUIP;
use mincut_sat::cdcl::{is_satisfying, variable_name, Formula, Literal, CDCL};
use rand::{thread_rng, Rng};
use varisat::{ExtendFormula, Lit, Solver};

#[test]
fn varisat() -> Result<(), varisat::solver::SolverError> {
    let n: usize = 30;

    let mut formula: Formula = vec![];

    let mut rng = thread_rng();

    // the oracle holds the formula as it grows, and starts afresh with it
    let mut old = Solver::new();

    for test in 0..1e5 as usize {
        let bnd = n as Literal;

        formula.push((0..3).map(|_| rng.gen_range(-bnd..bnd)).collect());

        let mut incremental = formula.clone();

        let mut alg = CDCL::new(
            n,
            &mut incremental,
            DecideFirstVariable::default(),
            FirstUIP::new(n),
        );

        let new = alg.solve();

        let added: Vec<Lit> = formula[formula.len() - 1]
            .iter()
            .map(|&lit| Lit::from_index(variable_name(lit), lit >= 0))
            .collect();
        old.add_clause(&added);

        assert_eq!(new, old.solve()?);

        if !new {
            println!(
                "ok: {}\tformula size: {}\tlearned: {}",
                test,
                formula.len(),
                incremental.len() - formula.len()
            );
            formula.clear();
            old = Solver::new();
        } else {
            assert!(is_satisfying(&formula, &alg.get_assignment()));
        }
    }

    Ok(())
}
