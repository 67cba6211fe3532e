use mincut_sat::cdcl::decision::DecideFirstVariable;
use mincut_sat::cdcl::dimacs::DimacsError;
use mincut_sat::cdcl::first_uip::FirstUIP;
use mincut_sat::cdcl::mincut::functions::{
    AllUIPFunction, FirstUIPFunction, MinCutFunction, RelSatFunction, SaturatingAllUIPFunction,
    SecondUIPFunction, ThirdUIPFunction,
};
use mincut_sat::cdcl::mincut::heuristic::WeightHeuristic;
use mincut_sat::cdcl::mincut::{
    CutAllUIP, CutFirstUIP, CutMinimal, CutRelSat, CutSatAllUIP, CutSecondUIP, CutThirdUIP,
};
use mincut_sat::cdcl::propagation::{
    classify_clause, deepest, negate, ClauseType, ConflictAnalysis, DecisionHeuristic, Trail,
    VariableState,
};
use mincut_sat::cdcl::{cdcl_solve, is_satisfying, read_dimacs, variable_name, Formula};
use mincut_sat::simple_cdcl;
use num::BigUint;

#[test]
fn literals_are_variables_or_their_complements() {
    assert_eq!(variable_name(0), 0);
    assert_eq!(variable_name(7), 7);
    assert_eq!(variable_name(!0), 0);
    assert_eq!(variable_name(!7), 7);
    assert_eq!(variable_name(-1), 0);
    assert_eq!(negate(0), -1);
    assert_eq!(negate(-8), 7);
    assert_eq!(simple_cdcl::variable_name(!3), 3);
}

#[test]
fn variable_states_answer_for_themselves() {
    assert_eq!(VariableState::from_bool(true, 3), VariableState::True(3));
    assert_eq!(VariableState::from_bool(false, 2), VariableState::False(2));
    assert_eq!(VariableState::True(3).decision_level(), 3);
    assert_eq!(VariableState::False(4).decision_level(), 4);
    assert!(VariableState::True(0).bool_value());
    assert!(!VariableState::False(0).bool_value());
    assert!(VariableState::True(1).is_true());
    assert!(!VariableState::True(1).is_false());
    assert!(VariableState::False(1).is_false());
    assert!(VariableState::Unset.is_unset());
    assert!(!VariableState::Unset.is_true());
    assert_eq!(ClauseType::Watched(1, !2).unwrap_watched(), (1, !2));
}

#[test]
fn trail_records_decisions_and_what_they_force() {
    let mut trail = Trail::new(4, 2);
    assert_eq!(trail.assignment, vec![VariableState::Unset; 4]);
    assert_eq!(trail.levels, vec![vec![]]);
    assert_eq!(trail.clause_types, vec![ClauseType::Unwatched; 2]);
    trail.propagate_literal(!3, 1);
    trail.decide_literal(0);
    trail.propagate_literal(!1, 0);
    trail.decide_variable(2, false);
    assert_eq!(
        trail.assignment,
        vec![
            VariableState::True(1),
            VariableState::False(1),
            VariableState::False(2),
            VariableState::False(0)
        ]
    );
    assert_eq!(
        trail.levels,
        vec![vec![(3, Some(1))], vec![(0, None), (1, Some(0))], vec![(2, None)]]
    );
    assert_eq!(trail.to_literal(0), 0);
    assert_eq!(trail.to_literal(1), !1);
    trail.add_watch(!1, 0);
    trail.add_watch(2, 1);
    trail.add_watch(!1, 1);
    assert_eq!(trail.watches[1][0], vec![0, 1]);
    assert_eq!(trail.watches[2][1], vec![1]);
    assert_eq!(trail.drop_watch(!1, 0), 0);
    assert_eq!(trail.watches[1][0], vec![1]);
}

#[test]
fn backjump_releases_what_lies_above() {
    let mut trail = Trail::new(5, 0);
    trail.propagate_literal(4, 0);
    trail.decide_literal(0);
    trail.propagate_literal(!1, 0);
    trail.decide_literal(2);
    trail.decide_literal(!3);
    trail.backjump(1);
    assert_eq!(trail.levels.len(), 2);
    assert_eq!(trail.levels, vec![vec![(4, Some(0))], vec![(0, None), (1, Some(0))]]);
    assert_eq!(
        trail.assignment,
        vec![
            VariableState::True(1),
            VariableState::False(1),
            VariableState::Unset,
            VariableState::Unset,
            VariableState::True(0)
        ]
    );
    trail.backjump(0);
    assert_eq!(trail.levels, vec![vec![(4, Some(0))]]);
    assert!(trail.assignment[0].is_unset());
    assert!(trail.assignment[4].is_true());
}

#[test]
fn clauses_are_classified_in_one_pass() {
    let mut trail = Trail::new(5, 0);
    trail.decide_literal(0);
    trail.decide_literal(!1);
    assert_eq!(classify_clause(&trail, &vec![!0, 1], None), ClauseType::Falsified);
    assert_eq!(classify_clause(&trail, &vec![!0, 1, 2], None), ClauseType::Unit(2));
    assert_eq!(classify_clause(&trail, &vec![!0, 2, 2], None), ClauseType::Unit(2));
    assert_eq!(classify_clause(&trail, &vec![3, !0, 2, 4], None), ClauseType::Watched(3, 2));
    assert_eq!(classify_clause(&trail, &vec![3, 2, 0], None), ClauseType::Satisfied);
    assert_eq!(classify_clause(&trail, &vec![3, !0, 2, 4], Some(4)), ClauseType::Watched(4, 3));
    assert_eq!(classify_clause(&trail, &vec![1, !0, 4], Some(4)), ClauseType::Unit(4));
    assert_eq!(classify_clause(&trail, &vec![3, 2], Some(!1)), ClauseType::Satisfied);
    assert_eq!(classify_clause(&trail, &vec![3, 2], Some(1)), ClauseType::Watched(3, 2));
    assert_eq!(classify_clause(&trail, &vec![], None), ClauseType::Falsified);
}

#[test]
fn deepest_literal_is_the_last_of_the_highest_level() {
    let mut trail = Trail::new(4, 0);
    trail.decide_literal(0);
    trail.decide_literal(1);
    trail.propagate_literal(2, 0);
    assert_eq!(deepest(&trail, &vec![!0, !1, !2], None), Some(!2));
    assert_eq!(deepest(&trail, &vec![!2, !1, !0], None), Some(!1));
    assert_eq!(deepest(&trail, &vec![!0, !1, !2], Some(!2)), Some(!1));
    assert_eq!(deepest(&trail, &vec![!0], Some(!0)), None);
    assert_eq!(deepest(&trail, &vec![], None), None);
}

fn asserts_one_literal(trail: &Trail, clause: &[isize]) -> bool {
    let top = trail.levels.len() - 1;
    let fails = |literal: isize| match trail.assignment[variable_name(literal)] {
        VariableState::Unset => false,
        VariableState::True(_) => literal < 0,
        VariableState::False(_) => literal >= 0,
    };
    let at_top: Vec<isize> = clause
        .iter()
        .copied()
        .filter(|&literal| trail.assignment[variable_name(literal)].decision_level() == top)
        .collect();
    top >= 1
        && clause.iter().all(|&literal| fails(literal))
        && !at_top.is_empty()
        && at_top.iter().all(|&literal| literal == at_top[0])
}

#[test]
fn first_variable_without_a_value_is_decided() {
    let mut trail = Trail::new(3, 0);
    let formula: Formula = vec![];
    let mut heuristic = DecideFirstVariable::from_formula(3, &formula);
    assert_eq!(heuristic.decide_literal(&formula, &trail), Some(0));
    trail.decide_literal(!0);
    assert_eq!(heuristic.decide_literal(&formula, &trail), Some(1));
    trail.propagate_literal(1, 0);
    trail.propagate_literal(2, 0);
    assert_eq!(heuristic.decide_literal(&formula, &trail), None);
}

fn analyse<C: ConflictAnalysis>() -> Vec<isize> {
    let formula: Formula = vec![vec![!1, 2], vec![3, !2], vec![!3, !2, !0]];
    let mut trail = Trail::new(5, 3);
    let mut analysis = C::from_formula(5, &formula);
    trail.decide_literal(4);
    analysis.decide_literal(&formula, &trail, 4);
    trail.decide_literal(0);
    analysis.decide_literal(&formula, &trail, 0);
    trail.decide_literal(1);
    analysis.decide_literal(&formula, &trail, 1);
    trail.propagate_literal(2, 0);
    analysis.propagate_literal(&formula, &trail, 2, 0);
    trail.propagate_literal(3, 1);
    analysis.propagate_literal(&formula, &trail, 3, 1);
    let mut learned = analysis.analyze_conflict(&formula, &trail, formula[2].clone());
    assert!(asserts_one_literal(&trail, &learned));
    learned.sort();
    learned
}

#[test]
fn analyses_learn_an_asserting_clause() {
    assert_eq!(analyse::<FirstUIP>(), vec![!2, !0]);
    assert_eq!(analyse::<CutFirstUIP>(), vec![!2, !0]);
    assert_eq!(analyse::<CutMinimal>(), vec![!2, !0]);
    assert_eq!(analyse::<CutSecondUIP>(), vec![!2, !0]);
    assert_eq!(analyse::<CutThirdUIP>(), vec![!2, !0]);
    assert_eq!(analyse::<CutSatAllUIP>(), vec![!2, !0]);
    assert_eq!(analyse::<CutAllUIP>(), vec![!2, !0]);
}

#[test]
fn rel_sat_learns_decisions_only() {
    assert_eq!(analyse::<CutRelSat>(), vec![!1, !0]);
}

#[test]
fn cut_analysis_follows_the_trail_back_and_forth() {
    let mut formula: Formula = vec![vec![!0, !1, 2], vec![!0, !1, !2]];
    let mut trail = Trail::new(3, 2);
    let mut analysis = CutFirstUIP::from_formula(3, &formula);
    trail.decide_literal(0);
    analysis.decide_literal(&formula, &trail, 0);
    trail.decide_literal(1);
    analysis.decide_literal(&formula, &trail, 1);
    trail.propagate_literal(2, 0);
    analysis.propagate_literal(&formula, &trail, 2, 0);
    let learned = analysis.analyze_conflict(&formula, &trail, formula[1].clone());
    assert_eq!(learned, vec![!0, !1]);
    trail.backjump(1);
    formula.push(learned);
    analysis.backtrack_and_add_clause(&formula, &trail, 1, 2);
    trail.propagate_literal(!1, 2);
    analysis.propagate_literal(&formula, &trail, !1, 2);
    trail.decide_literal(!2);
    analysis.decide_literal(&formula, &trail, !2);
    assert_eq!(trail.levels, vec![vec![], vec![(0, None), (1, Some(2))], vec![(2, None)]]);
}

#[test]
fn weights_follow_their_rules() {
    let half = usize::MAX / 2;
    let formula: Formula = vec![];
    let minimal = MinCutFunction::from_formula(0, &formula);
    assert_eq!(minimal.source_excess(5), usize::MAX);
    assert_eq!(minimal.gen_vertex_weight(0, 5, false), 0);
    assert_eq!(minimal.gen_vertex_weight(5, 5, true), half);
    assert_eq!(minimal.gen_vertex_weight(2, 5, false), 1);
    let first = FirstUIPFunction::default();
    assert_eq!(first.source_excess(5), usize::MAX);
    assert_eq!(first.gen_vertex_weight(0, 0, true), 0);
    assert_eq!(first.gen_vertex_weight(5, 5, false), half);
    assert_eq!(first.gen_vertex_weight(4, 5, false), 0);
    let second = SecondUIPFunction::default();
    assert_eq!(second.gen_vertex_weight(0, 5, false), 0);
    assert_eq!(second.gen_vertex_weight(5, 5, false), half);
    assert_eq!(second.gen_vertex_weight(4, 5, false), half >> 1);
    assert_eq!(second.gen_vertex_weight(3, 5, false), 0);
    let third = ThirdUIPFunction::default();
    assert_eq!(third.gen_vertex_weight(5, 5, true), half);
    assert_eq!(third.gen_vertex_weight(4, 5, true), half >> 1);
    assert_eq!(third.gen_vertex_weight(3, 5, true), half >> 2);
    assert_eq!(third.gen_vertex_weight(2, 5, true), 0);
    assert_eq!(third.gen_vertex_weight(0, 2, true), 0);
    let saturating = SaturatingAllUIPFunction::default();
    let quarter = usize::MAX / 4;
    assert_eq!(saturating.source_excess(9), usize::MAX);
    assert_eq!(saturating.gen_vertex_weight(0, 5, false), 0);
    assert_eq!(saturating.gen_vertex_weight(5, 5, false), quarter);
    assert_eq!(saturating.gen_vertex_weight(2, 5, false), quarter >> 3);
    assert_eq!(saturating.gen_vertex_weight(1, 200, false), 0);
    assert_eq!(
        saturating.gen_vertex_weight(1, usize::BITS as usize - 2, false),
        quarter >> (usize::BITS - 3)
    );
    let rel_sat = RelSatFunction::default();
    assert_eq!(rel_sat.source_excess(1), usize::MAX);
    assert_eq!(rel_sat.gen_vertex_weight(0, 5, false), 0);
    assert_eq!(rel_sat.gen_vertex_weight(5, 5, false), usize::MAX);
    assert_eq!(rel_sat.gen_vertex_weight(5, 5, true), 0);
    assert_eq!(rel_sat.gen_vertex_weight(4, 5, false), 0);
}

#[test]
fn unbounded_weights_double_with_every_level() {
    let all = AllUIPFunction::default();
    assert_eq!(all.source_excess(0), BigUint::from(4u32));
    assert_eq!(all.source_excess(3), BigUint::from(32u32));
    assert_eq!(all.source_excess(70), BigUint::from(1u32) << 72usize);
    assert_eq!(all.gen_vertex_weight(0, 9, false), BigUint::from(0u32));
    assert_eq!(all.gen_vertex_weight(1, 9, false), BigUint::from(2u32));
    assert_eq!(all.gen_vertex_weight(5, 9, true), BigUint::from(32u32));
    assert_eq!(all.gen_vertex_weight(100, 100, true), BigUint::from(1u32) << 100usize);
}

fn pigeons() -> Formula {
    // pigeon p sits in hole h: variable 2 * p + h
    let mut formula: Formula = vec![];
    for p in 0..3 {
        formula.push(vec![2 * p, 2 * p + 1]);
    }
    for h in 0..2 {
        for p in 0..3 {
            for q in (p + 1)..3 {
                formula.push(vec![!(2 * p + h), !(2 * q + h)]);
            }
        }
    }
    formula
}

fn refutes<C: ConflictAnalysis>(formula: &Formula, n: usize) -> bool {
    let mut working = formula.clone();
    let answer = cdcl_solve::<DecideFirstVariable, C>(n, &mut working);
    assert_eq!(&working[..formula.len()], &formula[..]);
    answer.is_none()
}

#[test]
fn three_pigeons_do_not_fit_two_holes() {
    let formula = pigeons();
    assert!(refutes::<FirstUIP>(&formula, 6));
    assert!(refutes::<CutFirstUIP>(&formula, 6));
    assert!(refutes::<CutSecondUIP>(&formula, 6));
    assert!(refutes::<CutThirdUIP>(&formula, 6));
    assert!(refutes::<CutAllUIP>(&formula, 6));
    assert!(refutes::<CutSatAllUIP>(&formula, 6));
    assert!(refutes::<CutRelSat>(&formula, 6));
    assert!(refutes::<CutMinimal>(&formula, 6));
    let mut plain = formula.clone();
    assert_eq!(simple_cdcl::cdcl_solve(&mut plain), None);
}

#[test]
fn all_analyses_reach_the_same_verdict() {
    let satisfiable: Formula =
        vec![vec![0, 1, !2], vec![!0, 2], vec![!1, 2, 3], vec![!3, !0], vec![1, 3]];
    assert!(!refutes::<FirstUIP>(&satisfiable, 4));
    assert!(!refutes::<CutFirstUIP>(&satisfiable, 4));
    assert!(!refutes::<CutSecondUIP>(&satisfiable, 4));
    assert!(!refutes::<CutThirdUIP>(&satisfiable, 4));
    assert!(!refutes::<CutAllUIP>(&satisfiable, 4));
    assert!(!refutes::<CutSatAllUIP>(&satisfiable, 4));
    assert!(!refutes::<CutRelSat>(&satisfiable, 4));
    assert!(!refutes::<CutMinimal>(&satisfiable, 4));
    let four: Formula = vec![vec![0, 1], vec![!0, 1], vec![0, !1], vec![!0, !1]];
    assert!(refutes::<CutMinimal>(&four, 2));
    assert!(refutes::<CutRelSat>(&four, 2));
    assert!(refutes::<CutAllUIP>(&four, 2));
}

#[test]
fn models_are_checked_clause_by_clause() {
    let formula: Formula = vec![vec![0, !1], vec![1, 2]];
    assert!(is_satisfying(&formula, &vec![true, false, true]));
    assert!(is_satisfying(&formula, &vec![true, true, false]));
    assert!(!is_satisfying(&formula, &vec![false, true, false]));
    assert!(!is_satisfying(&formula, &vec![true, false, false]));
    assert!(is_satisfying(&vec![], &vec![]));
    assert!(!is_satisfying(&vec![vec![]], &vec![true]));
}

#[test]
fn plain_solver_counts_its_variables() {
    let formula: Formula = vec![vec![0, !4], vec![2]];
    assert_eq!(simple_cdcl::variable_count(&formula), 5);
    assert_eq!(simple_cdcl::variable_count(&vec![]), 0);
    let mut working = formula.clone();
    let model = simple_cdcl::cdcl_solve(&mut working).unwrap();
    assert_eq!(model.len(), 5);
    assert!(is_satisfying(&formula, &model));
    assert_eq!(model, vec![true, true, true, true, true]);
    let mut empty_clause: Formula = vec![vec![]];
    assert_eq!(simple_cdcl::cdcl_solve(&mut empty_clause), None);
}

fn read(text: &str) -> Result<(usize, Formula), DimacsError> {
    read_dimacs(&text.as_bytes().to_vec())
}

#[test]
fn dimacs_is_read_line_by_line() {
    let text = "c an example\np cnf 3 2\n1 -3 0\nc between\n  2 3 -1 0  \n";
    assert_eq!(read(text), Ok((3, vec![vec![0, -3], vec![1, 2, -1]])));
    assert_eq!(read("p cnf 0 0"), Ok((0, vec![])));
    assert_eq!(read("p cnf +2 1\r\n-1 +2 0\r\n"), Ok((2, vec![vec![-1, 1]])));
    assert_eq!(read("p cnf 1 1\n0"), Ok((1, vec![vec![]])));
    assert_eq!(read("p cnf 2 1\n1 0 2 0\n"), Ok((2, vec![vec![0, 0, 1]])));
}

#[test]
fn malformed_dimacs_is_told_apart() {
    assert_eq!(read(""), Err(DimacsError::NoHeader));
    assert_eq!(read("c only a comment\n"), Err(DimacsError::NoHeader));
    assert_eq!(read("1 2 0\n"), Err(DimacsError::NoHeader));
    assert_eq!(read("p cnf 3\n"), Err(DimacsError::NoHeader));
    assert_eq!(read("p cnf 3 2 1\n"), Err(DimacsError::NoHeader));
    assert_eq!(read("p cnf x 2\n"), Err(DimacsError::NotANumber));
    assert_eq!(read("p cnf 3 -2\n"), Err(DimacsError::NotANumber));
    assert_eq!(read("p cnf 3 2\n1 two 0\n"), Err(DimacsError::NotANumber));
    assert_eq!(read("p cnf 3 2\n1  2 0\n"), Err(DimacsError::NotANumber));
    assert_eq!(read("p cnf 3 2\n\n1 2 0\n"), Err(DimacsError::NotANumber));
    assert_eq!(
        read("p cnf 3 2\n99999999999999999999999999 0\n"),
        Err(DimacsError::NotANumber)
    );
    assert_eq!(read("p cnf 3 2\n1 2\n"), Err(DimacsError::NoTerminator));
    assert_eq!(read("p cnf 3 2\n1 0\n2 3\n"), Err(DimacsError::NoTerminator));
}

#[test]
fn first_uip_stops_at_the_implication_point_nearest_the_conflict() {
    let formula: Formula = vec![vec![-1, 1], vec![-2, 2], vec![-2, 3], vec![-3, -4]];
    let mut trail = Trail::new(4, 4);
    trail.decide_literal(0);
    trail.propagate_literal(1, 0);
    trail.propagate_literal(2, 1);
    trail.propagate_literal(3, 2);
    let mut analysis = FirstUIP::new(4);
    let learned = analysis.analyze_conflict(&formula, &trail, vec![-3, -4]);
    assert_eq!(learned, vec![-2]);
}

#[test]
fn a_literal_given_twice_is_learned_once() {
    let formula: Formula = vec![vec![-1, 1], vec![-2, -2, -1]];
    let mut trail = Trail::new(2, 2);
    trail.decide_literal(0);
    trail.propagate_literal(1, 0);
    let mut analysis = FirstUIP::new(2);
    let learned = analysis.analyze_conflict(&formula, &trail, vec![-2, -2, -1]);
    assert_eq!(learned, vec![-1]);
}

#[test]
fn learned_clauses_follow_the_given_ones_and_are_not_empty() {
    let given = pigeons();
    let mut formula = given.clone();
    assert_eq!(cdcl_solve::<DecideFirstVariable, FirstUIP>(6, &mut formula), None);
    assert!(formula.len() > given.len());
    assert_eq!(formula[..given.len()], given[..]);
    assert!(formula[given.len()..].iter().all(|clause| !clause.is_empty()));
}
