use mincut_sat::cdcl::decision::DecideFirstVariable;
use mincut_sat::cdcl::first_uip::FirstUIP;
use mincut_sat::cdcl::{cdcl_solve, is_satisfying, Formula};

#[test]
fn single_positive_unit_is_sat() {
    let mut formula: Formula = vec![vec![0]];
    let answer = cdcl_solve::<DecideFirstVariable, FirstUIP>(1, &mut formula);
    assert_eq!(answer, Some(vec![true]));
}

#[test]
fn opposite_units_are_unsat() {
    let mut formula: Formula = vec![vec![0], vec![!0]];
    let answer = cdcl_solve::<DecideFirstVariable, FirstUIP>(1, &mut formula);
    assert_eq!(answer, None);
}

#[test]
fn all_four_binary_clauses_are_unsat() {
    let mut formula: Formula = vec![vec![0, 1], vec![!0, 1], vec![0, !1], vec![!0, !1]];
    let given = formula.clone();
    let answer = cdcl_solve::<DecideFirstVariable, FirstUIP>(2, &mut formula);
    assert_eq!(answer, None);
    assert_eq!(&formula[..given.len()], &given[..]);
}

#[test]
fn satisfiable_formula_gets_a_model() {
    let mut formula: Formula = vec![vec![0, 1], vec![!0, 2], vec![!1, !2], vec![1, 2]];
    let given = formula.clone();
    let answer = cdcl_solve::<DecideFirstVariable, FirstUIP>(3, &mut formula);
    let model = answer.unwrap();
    assert!(is_satisfying(&given, &model));
}
