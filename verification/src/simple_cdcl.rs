//! The solver in its plainest form: the number of variables is read off the
//! formula, the first variable without a value is decided positively, and
//! conflicts are analysed to the first unique implication point.
mod engine;

use crate::cdcl::model::{clause_in_range, clauses, in_range, satisfies, unsatisfiable};
use crate::cdcl::propagation::trail::variable_of;
use vstd::prelude::*;

verus! {

/// A variable is an index.
pub type Variable = usize;

/// A literal: the variable itself when positive, its bitwise complement when
/// negative.
pub type Literal = isize;

/// A clause keeps its literals in the order they were given.
pub type Clause = Vec<Literal>;

/// A formula is a list of clauses.
pub type Formula = Vec<Clause>;

/// The variable a literal speaks of.
pub fn variable_name(literal: Literal) -> (variable: Variable)
    ensures
        variable == variable_of(literal),
{
    crate::cdcl::variable_name(literal)
}

/// One more than the largest variable the formula speaks of; 0 for a formula
/// without literals.
pub fn variable_count(formula: &Formula) -> (n: usize)
    requires
        in_range(clauses(*formula), usize::MAX as int),
    ensures
        in_range(clauses(*formula), n as int),
        forall|fewer: int| 0 <= fewer < n ==> !in_range(clauses(*formula), fewer),
{
    let ghost f = clauses(*formula);
    let mut n: usize = 0;
    let ghost mut at: (int, int) = (0, 0);
    let mut c: usize = 0;
    while c < formula.len()
        invariant
            c <= formula.len(),
            f == clauses(*formula),
            in_range(f, usize::MAX as int),
            forall|d: int| 0 <= d < c ==> clause_in_range(#[trigger] f[d], n as int),
            n > 0 ==> 0 <= at.0 < f.len() && 0 <= at.1 < f[at.0].len() && variable_of(
                f[at.0][at.1],
            ) == n - 1,
        decreases formula.len() - c,
    {
        let clause = &formula[c];
        assert(f[c as int] == clause@);
        assert(clause_in_range(f[c as int], usize::MAX as int));
        let mut p: usize = 0;
        while p < clause.len()
            invariant
                p <= clause.len(),
                c < f.len(),
                f[c as int] == clause@,
                clause_in_range(clause@, usize::MAX as int),
                forall|d: int| 0 <= d < c ==> clause_in_range(#[trigger] f[d], n as int),
                forall|q: int| 0 <= q < p ==> variable_of(#[trigger] clause[q]) < n,
                n > 0 ==> 0 <= at.0 < f.len() && 0 <= at.1 < f[at.0].len() && variable_of(
                    f[at.0][at.1],
                ) == n - 1,
            decreases clause.len() - p,
        {
            let variable = variable_name(clause[p]);
            assert(variable_of(clause[p as int]) < usize::MAX);
            if variable + 1 > n {
                n = variable + 1;
                proof {
                    at = (c as int, p as int);
                }
            }
            p += 1;
        }
        c += 1;
    }
    proof {
        assert forall|fewer: int| 0 <= fewer < n implies !in_range(f, fewer) by {
            if in_range(f, fewer) {
                assert(clause_in_range(f[at.0], fewer));
                assert(variable_of(f[at.0][at.1]) < fewer);
            }
        }
    }
    n
}

/// Solves `formula` over as many variables as it speaks of. `Some` holds a
/// satisfying assignment; `None` says there is none. The clauses learned on
/// the way are left appended to `formula`.
pub fn cdcl_solve(formula: &mut Formula) -> (answer: Option<Vec<bool>>)
    requires
        in_range(clauses(*old(formula)), isize::MAX - 1),
    ensures
        answer matches Some(model) ==> in_range(clauses(*old(formula)), model.len() as int)
            && satisfies(model@, clauses(*old(formula))),
        answer is None ==> forall|n: nat|
            in_range(clauses(*old(formula)), n as int) && n < isize::MAX ==> unsatisfiable(
                clauses(*old(formula)),
                n,
            ),
        old(formula).len() <= final(formula).len(),
        forall|c: int| 0 <= c < old(formula).len() ==> (#[trigger] final(formula)[c])@ == old(formula)[c]@,
{
    let ghost f = clauses(*formula);
    assert(in_range(f, usize::MAX as int)) by {
        assert forall|c: int| 0 <= c < f.len() implies clause_in_range(
            #[trigger] f[c],
            usize::MAX as int,
        ) by {
            assert(clause_in_range(f[c], isize::MAX - 1));
        }
    }
    let n = variable_count(&*formula);
    proof {
        if n >= isize::MAX {
            assert(!in_range(f, isize::MAX - 1));
        }
    }
    let answer = engine::search(n, formula);
    proof {
        if answer is None {
            assert forall|m: nat| in_range(f, m as int) && m < isize::MAX implies unsatisfiable(
                f,
                m,
            ) by {
                lemma_unsatisfiable_over_more(f, n as nat, m);
            }
        }
    }
    answer
}

/// A formula without a model over the variables it speaks of has none over
/// more variables either.
pub proof fn lemma_unsatisfiable_over_more(f: Seq<Seq<Literal>>, n: nat, m: nat)
    requires
        in_range(f, n as int),
        forall|fewer: int| 0 <= fewer < n ==> !in_range(f, fewer),
        in_range(f, m as int),
        unsatisfiable(f, n),
    ensures
        unsatisfiable(f, m),
{
    assert(m >= n);
    assert forall|model: Seq<bool>| model.len() == m implies !#[trigger] satisfies(model, f) by {
        if satisfies(model, f) {
            let short = model.take(n as int);
            assert forall|c: int| 0 <= c < f.len() implies crate::cdcl::model::satisfies_clause(
                short,
                #[trigger] f[c],
            ) by {
                assert(crate::cdcl::model::satisfies_clause(model, f[c]));
                let p = choose|p: int|
                    0 <= p < f[c].len() && crate::cdcl::model::satisfies_literal(
                        model,
                        #[trigger] f[c][p],
                    );
                assert(clause_in_range(f[c], n as int));
                assert(variable_of(f[c][p]) < n);
                assert(crate::cdcl::model::satisfies_literal(short, f[c][p]));
            }
            assert(satisfies(short, f));
        }
    }
}

} // verus!
