//! What it means for an assignment to satisfy a formula, and for a formula to
//! entail a clause.
use crate::cdcl::propagation::trail::{variable_of, Formula, Literal};
use vstd::prelude::*;

verus! {

/// The clauses of a formula as sequences of literals.
pub open spec fn clauses(formula: Formula) -> Seq<Seq<Literal>> {
    Seq::new(formula.len() as nat, |c: int| formula[c]@)
}

/// Every literal of the clause speaks of a variable below `n`.
pub open spec fn clause_in_range(clause: Seq<Literal>, n: int) -> bool {
    forall|p: int| 0 <= p < clause.len() ==> variable_of(#[trigger] clause[p]) < n
}

/// Every literal of the formula speaks of a variable below `n`.
pub open spec fn in_range(formula: Seq<Seq<Literal>>, n: int) -> bool {
    forall|c: int| 0 <= c < formula.len() ==> clause_in_range(#[trigger] formula[c], n)
}

/// The model gives the literal's variable the literal's polarity.
pub open spec fn satisfies_literal(model: Seq<bool>, literal: Literal) -> bool {
    variable_of(literal) < model.len() && model[variable_of(literal)] == (literal >= 0)
}

/// Some literal of the clause is satisfied.
pub open spec fn satisfies_clause(model: Seq<bool>, clause: Seq<Literal>) -> bool {
    exists|p: int| 0 <= p < clause.len() && satisfies_literal(model, #[trigger] clause[p])
}

/// Every clause of the formula is satisfied.
pub open spec fn satisfies(model: Seq<bool>, formula: Seq<Seq<Literal>>) -> bool {
    forall|c: int| 0 <= c < formula.len() ==> satisfies_clause(model, #[trigger] formula[c])
}

/// Every model over `n` variables that satisfies the formula satisfies the
/// clause.
pub open spec fn entails(formula: Seq<Seq<Literal>>, n: nat, clause: Seq<Literal>) -> bool {
    forall|model: Seq<bool>|
        model.len() == n && #[trigger] satisfies(model, formula) ==> satisfies_clause(
            model,
            clause,
        )
}

/// No model over `n` variables satisfies the formula.
pub open spec fn unsatisfiable(formula: Seq<Seq<Literal>>, n: nat) -> bool {
    forall|model: Seq<bool>| model.len() == n ==> !#[trigger] satisfies(model, formula)
}

} // verus!
