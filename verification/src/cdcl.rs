//! The solver: literals and trail, propagation engine, decision and conflict
//! analysis strategies.
pub mod decision;
pub mod dimacs;
pub mod first_uip;
pub mod mincut;
pub mod model;
pub mod propagation;

pub use dimacs::read_dimacs;
pub use propagation::cdcl_solve;
pub use propagation::trail::{variable_name, Clause, Formula, Literal, Variable};
pub use propagation::CDCL;

use crate::cdcl::model::{clauses, in_range, satisfies, satisfies_clause, satisfies_literal};
use crate::cdcl::propagation::trail::variable_of;
use vstd::prelude::*;

verus! {

/// Whether the assignment gives every clause of the formula a satisfied
/// literal.
pub fn is_satisfying(formula: &Formula, assignment: &Vec<bool>) -> (ok: bool)
    requires
        in_range(clauses(*formula), assignment.len() as int),
    ensures
        ok == satisfies(assignment@, clauses(*formula)),
{
    let ghost f = clauses(*formula);
    let mut c: usize = 0;
    while c < formula.len()
        invariant
            c <= formula.len(),
            f == clauses(*formula),
            in_range(f, assignment.len() as int),
            forall|d: int| 0 <= d < c ==> satisfies_clause(assignment@, #[trigger] f[d]),
        decreases formula.len() - c,
    {
        let clause = &formula[c];
        assert(f[c as int] == clause@);
        let mut found = false;
        let mut p: usize = 0;
        while p < clause.len() && !found
            invariant
                p <= clause.len(),
                f[c as int] == clause@,
                c < f.len(),
                in_range(f, assignment.len() as int),
                forall|q: int| 0 <= q < p ==> !satisfies_literal(assignment@, #[trigger] clause[q]),
                found ==> satisfies_clause(assignment@, clause@),
            decreases clause.len() - p + if found { 0int } else { 1int },
        {
            let literal = clause[p];
            assert(variable_of(f[c as int][p as int]) < assignment.len());
            if assignment[variable_name(literal)] == (literal >= 0) {
                assert(satisfies_literal(assignment@, clause[p as int]));
                found = true;
            } else {
                p += 1;
            }
        }
        if !found {
            assert(!satisfies_clause(assignment@, f[c as int]));
            return false;
        }
        c += 1;
    }
    true
}

} // verus!
