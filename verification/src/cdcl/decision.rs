//! The default decision heuristic.
use crate::cdcl::propagation::{
    open_in, DecisionHeuristic, Formula, Literal, Trail, VariableState,
};
use vstd::prelude::*;

verus! {

/// Decides the first variable without a value, positively.
#[derive(Debug, Default, Copy, Clone, Ord, PartialOrd, Eq, PartialEq, Hash)]
pub struct DecideFirstVariable {}

impl DecisionHeuristic for DecideFirstVariable {
    fn from_formula(_n: usize, _formula: &Formula) -> Self {
        DecideFirstVariable {  }
    }

    fn backtrack_and_add_clause(
        &mut self,
        _formula: &Formula,
        _trail: &Trail,
        _level: usize,
        _clause_id: usize,
    ) {
    }

    fn propagate_literal(
        &mut self,
        _formula: &Formula,
        _trail: &Trail,
        _literal: Literal,
        _reason_id: usize,
    ) {
    }

    /// The first variable without a value, as a positive literal.
    fn decide_literal(&mut self, _formula: &Formula, trail: &Trail) -> (choice: Option<Literal>)
        ensures
            choice matches Some(l) ==> 0 <= l < trail.assignment.len() && trail.assignment[l as int]
                is Unset && forall|v: int| 0 <= v < l ==> !(#[trigger] trail.assignment[v] is Unset),
    {
        let mut variable: usize = 0;
        while variable < trail.assignment.len()
            invariant
                variable <= trail.assignment.len(),
                trail.assignment.len() <= isize::MAX,
                forall|v: int| 0 <= v < variable ==> !(#[trigger] trail.assignment[v] is Unset),
            decreases trail.assignment.len() - variable,
        {
            if trail.assignment[variable].is_unset() {
                return Some(variable as Literal);
            }
            variable += 1;
        }
        None
    }
}

} // verus!
