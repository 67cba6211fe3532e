//! The classical conflict analysis: resolve the failing clause with the
//! reasons of the top level, latest first, until a single literal of that
//! level is left.
use crate::cdcl::model::{
    clause_in_range, clauses, entails, satisfies, satisfies_clause, satisfies_literal,
};
use crate::cdcl::propagation::soundness::{
    lemma_same_variable, reason_ok, sound, trail_literal, Entries,
};
use crate::cdcl::propagation::trail::{each_once, listed_from, well_formed};
use crate::cdcl::propagation::{
    fails, holds, level_of, variable_name, variable_of, Clause, ConflictAnalysis, Formula, Literal,
    Reason, Trail, Variable, VariableState,
};
use vstd::prelude::*;

verus! {

/// First-UIP analysis. It keeps one mark per variable, all clear between
/// conflicts.
#[derive(Debug, Default, Clone, Ord, PartialOrd, Eq, PartialEq, Hash)]
pub struct FirstUIP {
    pub conflict_assignment: Vec<bool>,
}

/// Some literal of the clause speaks of `v`.
pub open spec fn mentions(clause: Seq<Literal>, v: int) -> bool {
    exists|p: int| 0 <= p < clause.len() && variable_of(#[trigger] clause[p]) == v
}

/// The model satisfies a literal of the clause whose variable is marked.
pub open spec fn working_sat(model: Seq<bool>, clause: Seq<Literal>, seen: Seq<bool>) -> bool {
    exists|p: int|
        0 <= p < clause.len() && seen[variable_of(#[trigger] clause[p])] && satisfies_literal(
            model,
            clause[p],
        )
}

/// The formula entails the marked part of the clause.
pub open spec fn working_entailed(
    f: Seq<Seq<Literal>>,
    n: nat,
    clause: Seq<Literal>,
    seen: Seq<bool>,
) -> bool {
    forall|model: Seq<bool>|
        model.len() == n && #[trigger] satisfies(model, f) ==> working_sat(model, clause, seen)
}

/// Of the first `upto` literals of the clause, in order, those whose
/// variable is not marked and not spoken of earlier in the clause.
pub open spec fn fresh_upto(clause: Seq<Literal>, seen: Seq<bool>, upto: int) -> Seq<Literal>
    decreases upto,
{
    if upto <= 0 {
        Seq::empty()
    } else {
        let before = fresh_upto(clause, seen, upto - 1);
        let literal = clause[upto - 1];
        if seen[variable_of(literal)] || mentions(clause.take(upto - 1), variable_of(literal)) {
            before
        } else {
            before.push(literal)
        }
    }
}

/// Of the first `upto` literals of the clause, in order, the first literal of
/// every marked variable.
pub open spec fn kept_upto(clause: Seq<Literal>, seen: Seq<bool>, upto: int) -> Seq<Literal>
    decreases upto,
{
    if upto <= 0 {
        Seq::empty()
    } else {
        let before = kept_upto(clause, seen, upto - 1);
        let literal = clause[upto - 1];
        if seen[variable_of(literal)] && !mentions(clause.take(upto - 1), variable_of(literal)) {
            before.push(literal)
        } else {
            before
        }
    }
}

/// Some entry of the level before `position` has a marked variable.
pub open spec fn earlier_marked(level: Seq<(Variable, Reason)>, seen: Seq<bool>, position: int) -> bool {
    exists|i: int| 0 <= i < position && seen[(#[trigger] level[i]).0 as int]
}

/// The marks after `v` has been resolved away with `reason`: the variables of
/// `reason` are marked too, and `v` no longer.
pub open spec fn marks_after(seen: Seq<bool>, reason: Seq<Literal>, v: int) -> Seq<bool> {
    Seq::new(seen.len(), |u: int| u != v && (seen[u] || mentions(reason, u)))
}

/// The clause that the walk backwards from `position` comes to, with
/// `clause` collected and `seen` marked so far. An entry whose variable is
/// not marked is passed. A marked entry with a marked entry before it is
/// resolved away: the literals of its reason whose variables are not marked
/// yet join the clause. At the marked entry with none before it the walk
/// ends, and the clause keeps the first literal of every marked variable.
pub open spec fn walked(
    f: Seq<Seq<Literal>>,
    level: Seq<(Variable, Reason)>,
    clause: Seq<Literal>,
    seen: Seq<bool>,
    position: int,
) -> Seq<Literal>
    decreases position,
{
    if position <= 0 {
        kept_upto(clause, seen, clause.len() as int)
    } else {
        let (v, reason) = level[position - 1];
        if !seen[v as int] {
            walked(f, level, clause, seen, position - 1)
        } else if earlier_marked(level, seen, position - 1) {
            walked(
                f,
                level,
                clause + fresh_upto(f[reason->0 as int], seen, f[reason->0 as int].len() as int),
                marks_after(seen, f[reason->0 as int], v as int),
                position - 1,
            )
        } else {
            kept_upto(clause, seen, clause.len() as int)
        }
    }
}

/// The clause learned from `conflict`: the walk starts at the end of the top
/// level with the variables of `conflict` marked.
pub open spec fn first_uip_clause(
    f: Seq<Seq<Literal>>,
    a: Seq<VariableState>,
    e: Entries,
    conflict: Seq<Literal>,
) -> Seq<Literal> {
    walked(
        f,
        e.last(),
        conflict,
        Seq::new(a.len(), |v: int| mentions(conflict, v)),
        e.last().len() as int,
    )
}

/// What holds while the top level is walked backwards: every literal
/// collected fails, every marked variable has a literal among them, the
/// marked variables of the top level stand before `position`, and there is
/// one.
pub open spec fn walk_inv(
    a: Seq<VariableState>,
    e: Entries,
    clause: Seq<Literal>,
    seen: Seq<bool>,
    position: int,
) -> bool {
    &&& seen.len() == a.len()
    &&& forall|p: int| 0 <= p < clause.len() ==> fails(a, #[trigger] clause[p])
    &&& forall|v: int| 0 <= v < seen.len() && #[trigger] seen[v] ==> mentions(clause, v)
    &&& forall|v: int|
        0 <= v < seen.len() && #[trigger] seen[v] && a[v].level() == e.len() - 1 ==> !listed_from(
            e.last(),
            position,
            v,
        )
    &&& exists|v: int| 0 <= v < seen.len() && #[trigger] seen[v] && a[v].level() == e.len() - 1
}

/// Resolving on the pivot keeps the marked part of the clause entailed.
pub proof fn lemma_resolve(
    f: Seq<Seq<Literal>>,
    n: nat,
    a: Seq<VariableState>,
    before: Seq<Literal>,
    seen: Seq<bool>,
    reason: Seq<Literal>,
    pivot: Literal,
    after: Seq<Literal>,
    seen2: Seq<bool>,
)
    requires
        a.len() == n,
        seen.len() == n,
        seen2.len() == n,
        working_entailed(f, n, before, seen),
        entails(f, n, reason),
        holds(a, pivot),
        forall|p: int| 0 <= p < before.len() ==> fails(a, #[trigger] before[p]),
        forall|q: int|
            0 <= q < reason.len() && #[trigger] reason[q] != pivot ==> after.contains(reason[q])
                && variable_of(reason[q]) != variable_of(pivot) && variable_of(reason[q]) < n,
        forall|p: int| 0 <= p < before.len() ==> after.contains(#[trigger] before[p]),
        forall|v: int|
            0 <= v < n ==> (#[trigger] seen2[v] <==> v != variable_of(pivot) && (seen[v]
                || mentions(reason, v))),
    ensures
        working_entailed(f, n, after, seen2),
{
    assert forall|model: Seq<bool>|
        model.len() == n && #[trigger] satisfies(model, f) implies working_sat(
        model,
        after,
        seen2,
    ) by {
        assert(working_sat(model, before, seen));
        let p = choose|p: int|
            0 <= p < before.len() && seen[variable_of(#[trigger] before[p])] && satisfies_literal(
                model,
                before[p],
            );
        let x = before[p];
        assert(fails(a, x));
        if variable_of(x) != variable_of(pivot) {
            assert(after.contains(before[p]));
            let p2 = choose|p2: int| 0 <= p2 < after.len() && after[p2] == x;
            assert(seen2[variable_of(after[p2])]);
        } else {
            assert(!satisfies_literal(model, pivot));
            assert(satisfies_clause(model, reason));
            let q = choose|q: int|
                0 <= q < reason.len() && satisfies_literal(model, #[trigger] reason[q]);
            let y = reason[q];
            assert(y != pivot);
            assert(after.contains(reason[q]));
            let p2 = choose|p2: int| 0 <= p2 < after.len() && after[p2] == y;
            assert(mentions(reason, variable_of(y)));
            assert(seen2[variable_of(after[p2])]);
        }
    }
}

impl FirstUIP {
    /// The analysis is between conflicts: one mark per variable, all clear.
    pub open spec fn idle(&self, n: nat) -> bool {
        &&& self.conflict_assignment.len() == n
        &&& forall|v: int| 0 <= v < n ==> !#[trigger] self.conflict_assignment[v]
    }

    /// An analysis for `n` variables.
    pub fn new(n: usize) -> (analysis: Self)
        ensures
            analysis.idle(n as nat),
    {
        let mut conflict_assignment: Vec<bool> = Vec::new();
        let mut v: usize = 0;
        while v < n
            invariant
                v <= n,
                conflict_assignment.len() == v,
                forall|u: int| 0 <= u < v ==> !#[trigger] conflict_assignment[u],
            decreases n - v,
        {
            conflict_assignment.push(false);
            v += 1;
        }
        FirstUIP { conflict_assignment }
    }

    /// Marks the variable of every literal of the clause.
    pub(crate) fn mark(&mut self, clause: &Clause)
        requires
            clause_in_range(clause@, old(self).conflict_assignment.len() as int),
            forall|v: int|
                0 <= v < old(self).conflict_assignment.len() ==> !#[trigger] old(self).conflict_assignment[v],
        ensures
            final(self).conflict_assignment.len() == old(self).conflict_assignment.len(),
            forall|v: int|
                0 <= v < final(self).conflict_assignment.len() ==> (#[trigger] final(self).conflict_assignment[v] <==> mentions(clause@, v)),
    {
        let mut i: usize = 0;
        while i < clause.len()
            invariant
                i <= clause.len(),
                self.conflict_assignment.len() == old(self).conflict_assignment.len(),
                clause_in_range(clause@, self.conflict_assignment.len() as int),
                forall|v: int|
                    0 <= v < self.conflict_assignment.len() ==> (
                    #[trigger] self.conflict_assignment[v] <==> mentions(clause@.take(i as int), v)),
            decreases clause.len() - i,
        {
            let variable = variable_name(clause[i]);
            self.conflict_assignment[variable] = true;
            proof {
                let before = clause@.take(i as int);
                let after = clause@.take(i + 1);
                assert forall|v: int| 0 <= v < self.conflict_assignment.len() implies (
                #[trigger] self.conflict_assignment[v] <==> mentions(after, v)) by {
                    if mentions(before, v) {
                        let p = choose|p: int|
                            0 <= p < before.len() && variable_of(#[trigger] before[p]) == v;
                        assert(after[p] == before[p]);
                    }
                    if v == variable {
                        assert(after[i as int] == clause[i as int]);
                    }
                    if mentions(after, v) {
                        let p = choose|p: int|
                            0 <= p < after.len() && variable_of(#[trigger] after[p]) == v;
                        if p < i {
                            assert(before[p] == after[p]);
                        }
                    }
                }
            }
            i += 1;
        }
        assert(clause@.take(clause.len() as int) == clause@);
    }

    /// Adds to `conflict` the literals of `clause` whose variables are not
    /// marked yet, and marks them.
    pub(crate) fn absorb(
        &mut self,
        clause: &Clause,
        conflict: &mut Clause,
        Ghost(a): Ghost<Seq<VariableState>>,
        Ghost(pivot): Ghost<Literal>,
    )
        requires
            old(self).conflict_assignment.len() == a.len(),
            clause_in_range(clause@, a.len() as int),
            forall|p: int| 0 <= p < old(conflict).len() ==> fails(a, #[trigger] old(conflict)[p]),
            forall|v: int|
                0 <= v < a.len() && #[trigger] old(self).conflict_assignment[v] ==> mentions(
                    old(conflict)@,
                    v,
                ),
            old(self).conflict_assignment[variable_of(pivot)],
            variable_of(pivot) < a.len(),
            forall|q: int|
                0 <= q < clause.len() && #[trigger] clause[q] != pivot ==> fails(a, clause[q])
                    && variable_of(clause[q]) != variable_of(pivot),
        ensures
            final(self).conflict_assignment.len() == a.len(),
            forall|v: int|
                0 <= v < a.len() ==> (#[trigger] final(self).conflict_assignment[v] <==> old(self).conflict_assignment[v] || mentions(clause@, v)),
            final(conflict)@ == old(conflict)@ + fresh_upto(
                clause@,
                old(self).conflict_assignment@,
                clause.len() as int,
            ),
            final(conflict).len() >= old(conflict).len(),
            forall|p: int|
                0 <= p < old(conflict).len() ==> #[trigger] final(conflict)[p] == old(conflict)[p],
            forall|p: int|
                old(conflict).len() <= p < final(conflict).len() ==> clause@.contains(
                    #[trigger] final(conflict)[p],
                ) && final(conflict)[p] != pivot,
            forall|q: int|
                0 <= q < clause.len() && #[trigger] clause[q] != pivot ==> final(conflict)@.contains(clause[q]),
            forall|p: int|
                0 <= p < final(conflict).len() ==> fails(a, #[trigger] final(conflict)[p]),
            forall|v: int|
                0 <= v < a.len() && #[trigger] final(self).conflict_assignment[v] ==> mentions(
                    final(conflict)@,
                    v,
                ),
    {
        let mut q: usize = 0;
        assert(conflict@ =~= old(conflict)@ + fresh_upto(
            clause@,
            old(self).conflict_assignment@,
            0,
        ));
        while q < clause.len()
            invariant
                q <= clause.len(),
                self.conflict_assignment.len() == a.len(),
                clause_in_range(clause@, a.len() as int),
                self.conflict_assignment[variable_of(pivot)],
                variable_of(pivot) < a.len(),
                forall|r: int|
                    0 <= r < clause.len() && #[trigger] clause[r] != pivot ==> fails(a, clause[r])
                        && variable_of(clause[r]) != variable_of(pivot),
                forall|v: int|
                    0 <= v < a.len() ==> (#[trigger] self.conflict_assignment[v] <==> old(self).conflict_assignment[v] || mentions(clause@.take(q as int), v)),
                conflict@ == old(conflict)@ + fresh_upto(
                    clause@,
                    old(self).conflict_assignment@,
                    q as int,
                ),
                conflict.len() >= old(conflict).len(),
                forall|p: int|
                    0 <= p < old(conflict).len() ==> #[trigger] conflict[p] == old(conflict)[p],
                forall|p: int|
                    old(conflict).len() <= p < conflict.len() ==> clause@.contains(
                        #[trigger] conflict[p],
                    ) && conflict[p] != pivot,
                forall|r: int|
                    0 <= r < q && #[trigger] clause[r] != pivot ==> conflict@.contains(clause[r]),
                forall|p: int| 0 <= p < conflict.len() ==> fails(a, #[trigger] conflict[p]),
                forall|v: int|
                    0 <= v < a.len() && #[trigger] self.conflict_assignment[v] ==> mentions(
                        conflict@,
                        v,
                    ),
            decreases clause.len() - q,
        {
            let literal = clause[q];
            let variable = variable_name(literal);
            let ghost before = clause@.take(q as int);
            let ghost after = clause@.take(q + 1);
            let ghost marks = self.conflict_assignment@;
            let ghost collected = conflict@;
            proof {
                assert(marks[variable as int] <==> old(self).conflict_assignment[variable as int]
                    || mentions(before, variable as int));
            }
            if !self.conflict_assignment[variable] {
                self.conflict_assignment[variable] = true;
                conflict.push(literal);
                proof {
                    assert(conflict@ =~= old(conflict)@ + fresh_upto(
                        clause@,
                        old(self).conflict_assignment@,
                        q + 1,
                    ));
                    assert(literal != pivot);
                    assert(clause@.contains(literal));
                    assert forall|p: int| 0 <= p < collected.len() implies conflict[p]
                        == collected[p] by {}
                    assert(conflict[collected.len() as int] == literal);
                    assert forall|r: int|
                        0 <= r < q + 1 && #[trigger] clause[r] != pivot implies conflict@.contains(
                        clause[r],
                    ) by {
                        if r < q {
                            let p = choose|p: int|
                                0 <= p < collected.len() && collected[p] == clause[r];
                            assert(conflict[p] == clause[r]);
                        }
                    }
                    assert forall|v: int|
                        0 <= v < a.len() && #[trigger] self.conflict_assignment[v] implies mentions(
                        conflict@,
                        v,
                    ) by {
                        if v != variable {
                            assert(marks[v]);
                            let p = choose|p: int|
                                0 <= p < collected.len() && variable_of(#[trigger] collected[p])
                                    == v;
                            assert(conflict[p] == collected[p]);
                        }
                    }
                }
            } else {
                proof {
                    if literal != pivot {
                        assert(marks[variable as int]);
                        let p = choose|p: int|
                            0 <= p < collected.len() && variable_of(#[trigger] collected[p])
                                == variable;
                        lemma_same_variable(a, collected[p], literal);
                    }
                }
            }
            proof {
                assert forall|v: int| 0 <= v < a.len() implies (
                #[trigger] self.conflict_assignment[v] <==> old(self).conflict_assignment[v]
                    || mentions(after, v)) by {
                    if mentions(before, v) {
                        let p = choose|p: int|
                            0 <= p < before.len() && variable_of(#[trigger] before[p]) == v;
                        assert(after[p] == before[p]);
                    }
                    if v == variable {
                        assert(after[q as int] == clause[q as int]);
                    }
                    if mentions(after, v) {
                        let p = choose|p: int|
                            0 <= p < after.len() && variable_of(#[trigger] after[p]) == v;
                        if p < q {
                            assert(before[p] == after[p]);
                        }
                    }
                }
            }
            q += 1;
        }
        assert(clause@.take(clause.len() as int) == clause@);
    }

    /// Keeps of `conflict` the first literal of every marked variable, and
    /// clears the marks.
    pub(crate) fn sweep(&mut self, conflict: &Clause, Ghost(a): Ghost<Seq<VariableState>>) -> (kept: Clause)
        requires
            old(self).conflict_assignment.len() == a.len(),
            forall|p: int| 0 <= p < conflict.len() ==> fails(a, #[trigger] conflict[p]),
            forall|v: int|
                0 <= v < a.len() && #[trigger] old(self).conflict_assignment[v] ==> mentions(
                    conflict@,
                    v,
                ),
        ensures
            final(self).idle(a.len()),
            kept@ == kept_upto(conflict@, old(self).conflict_assignment@, conflict.len() as int),
            each_once(kept@),
            forall|p: int|
                0 <= p < kept.len() ==> conflict@.contains(#[trigger] kept[p]) && old(self).conflict_assignment[variable_of(kept[p])],
            forall|p: int|
                0 <= p < conflict.len() && old(self).conflict_assignment[variable_of(
                    #[trigger] conflict[p],
                )] ==> kept@.contains(conflict[p]),
    {
        let mut kept: Vec<Literal> = Vec::new();
        let mut q: usize = 0;
        while q < conflict.len()
            invariant
                q <= conflict.len(),
                self.conflict_assignment.len() == a.len(),
                forall|p: int| 0 <= p < conflict.len() ==> fails(a, #[trigger] conflict[p]),
                forall|v: int|
                    0 <= v < a.len() && #[trigger] self.conflict_assignment[v] ==> old(self).conflict_assignment[v] && exists|p: int|
                        q <= p < conflict.len() && variable_of(#[trigger] conflict[p]) == v,
                forall|p: int|
                    0 <= p < kept.len() ==> conflict@.contains(#[trigger] kept[p]) && old(self).conflict_assignment[variable_of(kept[p])],
                forall|p: int|
                    0 <= p < q && old(self).conflict_assignment[variable_of(
                        #[trigger] conflict[p],
                    )] ==> kept@.contains(conflict[p]),
                forall|v: int|
                    0 <= v < a.len() && old(self).conflict_assignment[v]
                        && !#[trigger] self.conflict_assignment[v] ==> mentions(kept@, v),
                kept@ == kept_upto(conflict@, old(self).conflict_assignment@, q as int),
                each_once(kept@),
                forall|v: int|
                    0 <= v < a.len() ==> (#[trigger] self.conflict_assignment[v] <==> old(
                        self,
                    ).conflict_assignment[v] && !mentions(conflict@.take(q as int), v)),
                forall|p: int|
                    0 <= p < kept.len() ==> !self.conflict_assignment[variable_of(
                        #[trigger] kept[p],
                    )],
            decreases conflict.len() - q,
        {
            let literal = conflict[q];
            let variable = variable_name(literal);
            let ghost marks = self.conflict_assignment@;
            let ghost so_far = kept@;
            proof {
                assert(variable_of(literal) < a.len());
                let before = conflict@.take(q as int);
                let after = conflict@.take(q + 1);
                assert forall|v: int| 0 <= v < a.len() implies (mentions(after, v) <==> mentions(
                    before,
                    v,
                ) || v == variable) by {
                    if mentions(before, v) {
                        let p = choose|p: int|
                            0 <= p < before.len() && variable_of(#[trigger] before[p]) == v;
                        assert(after[p] == before[p]);
                    }
                    if v == variable {
                        assert(after[q as int] == conflict[q as int]);
                    }
                    if mentions(after, v) {
                        let p = choose|p: int|
                            0 <= p < after.len() && variable_of(#[trigger] after[p]) == v;
                        if p < q {
                            assert(before[p] == after[p]);
                        }
                    }
                }
            }
            if self.conflict_assignment[variable] {
                self.conflict_assignment[variable] = false;
                kept.push(literal);
                proof {
                    assert(conflict@.contains(literal));
                    assert(kept[so_far.len() as int] == literal);
                    assert forall|p: int| 0 <= p < so_far.len() implies kept[p] == so_far[p] by {}
                    assert forall|p: int|
                        0 <= p < q + 1 && old(self).conflict_assignment[variable_of(
                            #[trigger] conflict[p],
                        )] implies kept@.contains(conflict[p]) by {
                        if p < q {
                            let r = choose|r: int| 0 <= r < so_far.len() && so_far[r] == conflict[p];
                            assert(kept[r] == conflict[p]);
                        }
                    }
                    assert forall|v: int|
                        0 <= v < a.len() && old(self).conflict_assignment[v]
                            && !#[trigger] self.conflict_assignment[v] implies mentions(
                        kept@,
                        v,
                    ) by {
                        if v != variable {
                            let r = choose|r: int|
                                0 <= r < so_far.len() && variable_of(#[trigger] so_far[r]) == v;
                            assert(kept[r] == so_far[r]);
                        }
                    }
                }
            } else {
                proof {
                    if old(self).conflict_assignment[variable as int] {
                        assert(mentions(so_far, variable as int));
                        let r = choose|r: int|
                            0 <= r < so_far.len() && variable_of(#[trigger] so_far[r]) == variable;
                        assert(conflict@.contains(so_far[r]));
                        let p = choose|p: int| 0 <= p < conflict.len() && conflict[p] == so_far[r];
                        lemma_same_variable(a, conflict[p], literal);
                    }
                }
            }
            proof {
                assert forall|v: int|
                    0 <= v < a.len() && #[trigger] self.conflict_assignment[v] implies exists|p: int|
                    q + 1 <= p < conflict.len() && variable_of(#[trigger] conflict[p]) == v by {
                    assert(marks[v]);
                    let p = choose|p: int|
                        q <= p < conflict.len() && variable_of(#[trigger] conflict[p]) == v;
                    assert(p != q);
                }
            }
            q += 1;
        }
        kept
    }
}

impl ConflictAnalysis for FirstUIP {
    open spec fn tracks(&self, f: Seq<Seq<Literal>>, a: Seq<VariableState>, e: Entries) -> bool {
        self.idle(a.len())
    }

    open spec fn analysed(&self, f: Seq<Seq<Literal>>, a: Seq<VariableState>, e: Entries) -> bool {
        self.idle(a.len())
    }

    fn from_formula(n: usize, _formula: &Formula) -> (analysis: Self) {
        Self::new(n)
    }

    /// Walks the top level backwards. An entry whose variable is marked while
    /// an earlier one is marked too is resolved away: the other literals of
    /// its reason join the clause. The clause is done at the marked entry
    /// before which none is marked.
    fn analyze_conflict(&mut self, formula: &Formula, trail: &Trail, conflict: Clause) -> (learned:
        Clause)
        ensures
            learned@ == first_uip_clause(
                clauses(*formula),
                trail.assignment@,
                trail.entries(),
                conflict@,
            ),
    {
        let ghost f = clauses(*formula);
        let ghost given = conflict@;
        let ghost a = trail.assignment@;
        let ghost e = trail.entries();
        let ghost n = a.len();
        let mut working = conflict;
        proof {
            assert forall|p: int| 0 <= p < working.len() implies variable_of(
                #[trigger] working[p],
            ) < n by {
                assert(fails(a, working[p]));
            }
        }
        self.mark(&working);
        assert(self.conflict_assignment@ =~= Seq::new(a.len(), |v: int| mentions(given, v)));
        let top = trail.levels.len() - 1;
        assert(e.last() == trail.levels[top as int]@);
        let mut position = trail.levels[top].len();
        proof {
            let p = choose|p: int|
                0 <= p < working.len() && level_of(a, #[trigger] working[p]) == e.len() - 1;
            assert(mentions(working@, variable_of(working[p])));
            assert(self.conflict_assignment[variable_of(working[p])]);
            assert forall|model: Seq<bool>|
                model.len() == n && #[trigger] satisfies(model, f) implies working_sat(
                model,
                working@,
                self.conflict_assignment@,
            ) by {
                assert(satisfies_clause(model, working@));
                let q = choose|q: int|
                    0 <= q < working.len() && satisfies_literal(model, #[trigger] working[q]);
                assert(mentions(working@, variable_of(working[q])));
            }
        }
        loop
            invariant
                sound(n, f, a, e),
                f == clauses(*formula),
                a == trail.assignment@,
                e == trail.entries(),
                e.len() >= 2,
                top == e.len() - 1,
                e.last() == trail.levels[top as int]@,
                position <= e.last().len(),
                walk_inv(a, e, working@, self.conflict_assignment@, position as int),
                working_entailed(f, n, working@, self.conflict_assignment@),
                given == conflict@,
                walked(f, e.last(), working@, self.conflict_assignment@, position as int)
                    == first_uip_clause(f, a, e, given),
            decreases position,
        {
            let ghost seen = self.conflict_assignment@;
            let ghost collected = working@;
            proof {
                let v = choose|v: int|
                    0 <= v < seen.len() && #[trigger] seen[v] && a[v].level() == e.len() - 1;
                assert(listed_from(e[a[v].level() as int], 0, v));
                let i = choose|i: int| 0 <= i < e.last().len() && (#[trigger] e.last()[i]).0 == v;
                if i >= position {
                    assert(listed_from(e.last(), position as int, v));
                }
            }
            position -= 1;
            let (uip, reason) = trail.levels[top][position];
            assert(e[top as int][position as int] == (uip, reason));
            proof {
                assert forall|v: int|
                    0 <= v < seen.len() && #[trigger] seen[v] && a[v].level() == e.len() - 1
                        && v != uip implies !listed_from(e.last(), position as int, v) by {
                    if listed_from(e.last(), position as int, v) {
                        let j = choose|j: int|
                            position <= j < e.last().len() && (#[trigger] e.last()[j]).0 == v;
                        assert(j != position);
                        assert(listed_from(e.last(), position + 1, v));
                    }
                }
            }
            if self.conflict_assignment[uip] {
                let mut earlier = false;
                let mut j: usize = 0;
                while j < position && !earlier
                    invariant
                        j <= position,
                        position < e.last().len(),
                        e.last() == trail.levels[top as int]@,
                        top == trail.levels.len() - 1,
                        self.conflict_assignment@ == seen,
                        seen.len() == a.len(),
                        well_formed(a, e),
                        top == e.len() - 1,
                        forall|i: int| 0 <= i < j ==> !seen[(#[trigger] e.last()[i]).0 as int],
                        earlier ==> j < position && seen[e.last()[j as int].0 as int],
                    decreases position - j + if earlier { 0int } else { 1int },
                {
                    assert(e[top as int][j as int].0 < a.len());
                    if self.conflict_assignment[trail.levels[top][j].0] {
                        earlier = true;
                    } else {
                        j += 1;
                    }
                }
                proof {
                    if earlier {
                        assert(seen[(e.last()[j as int]).0 as int]);
                    }
                    assert(earlier == earlier_marked(e.last(), seen, position as int));
                }
                if earlier {
                    let ghost pivot = trail_literal(a, uip as int);
                    proof {
                        assert(reason_ok(f, a, e, top as int, position as int));
                        assert(reason is Some);
                        assert(e[top as int][position as int].0 < a.len());
                    }
                    let reason_id = match reason {
                        Some(r) => r,
                        None => 0,
                    };
                    let ghost before = working@;
                    proof {
                        assert(f[reason_id as int] == formula[reason_id as int]@);
                        assert(clause_in_range(f[reason_id as int], n as int));
                        assert forall|q: int|
                            0 <= q < f[reason_id as int].len()
                                && #[trigger] f[reason_id as int][q] != pivot implies fails(
                            a,
                            f[reason_id as int][q],
                        ) && variable_of(f[reason_id as int][q]) != variable_of(pivot) by {
                            if variable_of(f[reason_id as int][q]) == uip {
                                assert(listed_from(e[top as int], position as int, uip as int));
                            }
                        }
                    }
                    self.absorb(&formula[reason_id], &mut working, Ghost(a), Ghost(pivot));
                    let ghost absorbed = self.conflict_assignment@;
                    self.conflict_assignment[uip] = false;
                    proof {
                        let reason_clause = f[reason_id as int];
                        let seen2 = self.conflict_assignment@;
                        assert(seen2 =~= marks_after(seen, reason_clause, uip as int));
                        assert(working@ == collected + fresh_upto(
                            reason_clause,
                            seen,
                            reason_clause.len() as int,
                        ));
                        assert forall|p: int| 0 <= p < before.len() implies working@.contains(
                            #[trigger] before[p],
                        ) by {
                            assert(working[p] == before[p]);
                        }
                        assert forall|model: Seq<bool>|
                            model.len() == n && #[trigger] satisfies(
                                model,
                                f,
                            ) implies satisfies_clause(model, reason_clause) by {}
                        lemma_resolve(
                            f,
                            n,
                            a,
                            before,
                            seen,
                            reason_clause,
                            pivot,
                            working@,
                            seen2,
                        );
                        let other = e.last()[j as int].0 as int;
                        assert(e[top as int][j as int].0 != e[top as int][position as int].0);
                        assert(a[other].level() == top);
                        assert(seen2[other]);
                        assert forall|v: int|
                            0 <= v < seen2.len() && #[trigger] seen2[v] implies mentions(
                            working@,
                            v,
                        ) by {
                            assert(absorbed[v]);
                        }
                        assert forall|v: int|
                            0 <= v < seen2.len() && #[trigger] seen2[v] && a[v].level() == e.len()
                                - 1 implies !listed_from(e.last(), position as int, v) by {
                            assert(absorbed[v]);
                            if !seen[v] {
                                assert(mentions(reason_clause, v));
                                let q = choose|q: int|
                                    0 <= q < reason_clause.len() && variable_of(
                                        #[trigger] reason_clause[q],
                                    ) == v;
                                assert(reason_clause[q] != pivot);
                            }
                        }
                    }
                } else {
                    let learned = self.sweep(&working, Ghost(a));
                    proof {
                        let c = working@;
                        let lc = learned@;
                        assert(e.last()[position as int] == (uip, reason));
                        assert(walked(f, e.last(), c, seen, position + 1) == kept_upto(
                            c,
                            seen,
                            c.len() as int,
                        ));
                        assert(mentions(c, uip as int));
                        let pu = choose|p: int|
                            0 <= p < c.len() && variable_of(#[trigger] c[p]) == uip;
                        assert(lc.contains(c[pu]));
                        let qu = choose|q: int| 0 <= q < lc.len() && lc[q] == c[pu];
                        assert(e[top as int][position as int].0 < a.len());
                        assert(level_of(a, lc[qu]) == e.len() - 1);
                        assert forall|p: int| 0 <= p < lc.len() implies fails(
                            a,
                            #[trigger] lc[p],
                        ) by {
                            assert(c.contains(lc[p]));
                        }
                        assert forall|p: int|
                            0 <= p < lc.len() && level_of(a, #[trigger] lc[p]) == e.len()
                                - 1 implies variable_of(lc[p]) == uip by {
                            let v = variable_of(lc[p]);
                            assert(seen[v]);
                            assert(listed_from(e[a[v].level() as int], 0, v));
                            let i = choose|i: int|
                                0 <= i < e.last().len() && (#[trigger] e.last()[i]).0 == v;
                            if i > position {
                                assert(listed_from(e.last(), position + 1, v));
                            }
                            if i < position {
                                assert(!seen[e.last()[i].0 as int]);
                            }
                        }
                        assert forall|p: int, q: int|
                            0 <= p < lc.len() && 0 <= q < lc.len() && level_of(a, #[trigger] lc[p])
                                == e.len() - 1 && level_of(a, #[trigger] lc[q]) == e.len()
                                - 1 implies lc[p] == lc[q] by {
                            lemma_same_variable(a, lc[p], lc[q]);
                        }
                        assert forall|model: Seq<bool>|
                            model.len() == n && #[trigger] satisfies(
                                model,
                                f,
                            ) implies satisfies_clause(model, lc) by {
                            assert(working_sat(model, c, seen));
                            let p = choose|p: int|
                                0 <= p < c.len() && seen[variable_of(#[trigger] c[p])]
                                    && satisfies_literal(model, c[p]);
                            assert(lc.contains(c[p]));
                            let q = choose|q: int| 0 <= q < lc.len() && lc[q] == c[p];
                            assert(satisfies_literal(model, lc[q]));
                        }
                    }
                    return learned;
                }
            }
        }
    }

    fn backtrack_and_add_clause(
        &mut self,
        _formula: &Formula,
        _trail: &Trail,
        _level: usize,
        _clause_id: usize,
    ) {
    }

    fn propagate_literal(
        &mut self,
        _formula: &Formula,
        _trail: &Trail,
        _literal: Literal,
        _reason_id: usize,
    ) {
    }

    fn decide_literal(&mut self, _formula: &Formula, _trail: &Trail, _literal: Literal) {
    }
}

} // verus!
