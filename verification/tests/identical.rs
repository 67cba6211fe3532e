use mincut_sat::cdcl::decision::DecideFirstVariable;
use mincut_sat::cdcl::first_uip::FirstUIP;
use mincut_sat::cdcl::{cdcl_solve, is_satisfying, Formula, Literal};
use mincut_sat::simple_cdcl;
use rand::{thread_rng, Rng};

#[test]
fn identical_to_simple() {
    let n: usize = 30;

    let mut formula: Formula = vec![];

    let mut rng = thread_rng();

    for test in 0..1e5 as usize {
        let bnd = n as Literal;

        formula.push((0..3).map(|_| rng.gen_range(-bnd..bnd)).collect());

        let mut new_formula = formula.clone();
        let mut old_formula = formula.clone();

        let new = cdcl_solve::<DecideFirstVariable, FirstUIP>(n, &mut new_formula);
        let old = simple_cdcl::cdcl_solve(&mut old_formula);

        assert_eq!(new_formula, old_formula);
        assert_eq!(new.is_some(), old.is_some());

        match new {
            None => {
                println!(
                    "ok: {}\tformula size: {}\tlearned: {}",
                    test,
                    formula.len(),
                    new_formula.len() - formula.len()
                );
                formula.clear();
            }
            Some(mut assignment) => {
                assert!(is_satisfying(&formula, &assignment));
                let old_assignment = old.unwrap();
                assignment.truncate(old_assignment.len());
                assert_eq!(assignment, old_assignment);
            }
        }
    }
}
