//! Two-watched-literal propagation and the learning loop.
pub mod soundness;
pub mod steps;
pub mod progress;
pub mod trail;
pub mod watching;

pub use trail::{
    each_once, fails, holds, level_of, literal_of, negate, negation, open_in, variable_name,
    variable_of, Clause, ClauseType, Formula, Literal, Reason, Trail, Variable, VariableState,
};

use crate::cdcl::model::{clause_in_range, clauses, entails, in_range, satisfies, unsatisfiable};
use crate::cdcl::propagation::progress::{
    horizon, lemma_progress_bounded, lemma_progress_grows, lemma_trail_bounds, progress,
};
use crate::cdcl::propagation::soundness::{
    anchored, assign, asserting, backed, coherent, conflicting, derived, forced, ground_forced,
    lemma_coherent_unlisted, lemma_trail_literal, lemma_watch_coherent, lemma_derived_push,
    lemma_ground_after_propagate, lemma_ground_conflict, lemma_ground_frame,
    lemma_sound_after_backjump, lemma_sound_after_decide, lemma_sound_after_propagate,
    lemma_sound_with_clause, opened, released, sound, status_ok, watch_inv, Entries,
};
use crate::cdcl::propagation::steps::{
    examined, extended, failing, fails_at_first, fails_outright, finished, first_look, in_hand,
    journey, learnt, prepared, lemma_extended_on, lemma_journey_on, moved_lists, other_watch,
    refuted, stale, verdict, whole_fails, Moment,
};
use crate::cdcl::propagation::trail::{lemma_other_watch, slot, state_for, well_formed};
use crate::cdcl::propagation::watching::{
    lemma_assign_keeps, lemma_backed_keeps, lemma_grown_by_watch, lemma_slot, lemma_watch_advance,
    lemma_watch_after_decide, lemma_watch_after_learning, learned_kind, learned_lists,
    lemma_watch_after_propagate, lemma_watch_dropped, lemma_watch_set, with_watch, without_watch,
};
use vstd::prelude::*;

verus! {

/// Some literal of the clause holds under the assignment.
pub open spec fn some_holds(assignment: Seq<VariableState>, clause: Seq<Literal>) -> bool {
    exists|p: int| 0 <= p < clause.len() && holds(assignment, #[trigger] clause[p])
}

/// The first literal of `clause[from..]` that has no value yet and differs
/// from `skip`.
pub open spec fn first_open(
    assignment: Seq<VariableState>,
    clause: Seq<Literal>,
    skip: Option<Literal>,
    from: int,
) -> Option<Literal>
    decreases clause.len() - from,
{
    if from < 0 || from >= clause.len() {
        None
    } else if open_in(assignment, clause[from]) && skip != Some(clause[from]) {
        Some(clause[from])
    } else {
        first_open(assignment, clause, skip, from + 1)
    }
}

/// The state of a clause under an assignment. A literal that holds makes it
/// `Satisfied`, and so does a hint that holds. Otherwise the first open
/// literal is the hint, if it is open, and else the first open literal of the
/// clause; with none the clause is `Falsified`. The second is the first open
/// literal of the clause that differs from the first; with none the clause is
/// `Unit`, else `Watched`.
pub open spec fn classification(
    assignment: Seq<VariableState>,
    clause: Seq<Literal>,
    hint: Option<Literal>,
) -> ClauseType {
    if (hint is Some && holds(assignment, hint->0)) || some_holds(assignment, clause) {
        ClauseType::Satisfied
    } else {
        let first = if hint is Some && open_in(assignment, hint->0) {
            hint
        } else {
            first_open(assignment, clause, None, 0)
        };
        match first {
            None => ClauseType::Falsified,
            Some(x) => match first_open(assignment, clause, Some(x), 0) {
                None => ClauseType::Unit(x),
                Some(y) => ClauseType::Watched(x, y),
            },
        }
    }
}

/// What `first_open` returns is an open literal of the clause other than
/// `skip`, and when it returns nothing there is none.
pub proof fn lemma_first_open(
    assignment: Seq<VariableState>,
    clause: Seq<Literal>,
    skip: Option<Literal>,
    from: int,
)
    requires
        0 <= from,
    ensures
        first_open(assignment, clause, skip, from) matches Some(y) ==> open_in(assignment, y)
            && skip != Some(y) && exists|p: int|
            from <= p < clause.len() && #[trigger] clause[p] == y,
        first_open(assignment, clause, skip, from) is None ==> forall|p: int|
            from <= p < clause.len() ==> !open_in(assignment, #[trigger] clause[p]) || skip
                == Some(clause[p]),
    decreases clause.len() - from,
{
    if from < clause.len() {
        if open_in(assignment, clause[from]) && skip != Some(clause[from]) {
            assert(clause[from] == clause[from]);
        } else {
            lemma_first_open(assignment, clause, skip, from + 1);
        }
    }
}

/// What each classification says of the clause's literals.
pub proof fn lemma_classification(
    assignment: Seq<VariableState>,
    clause: Seq<Literal>,
    hint: Option<Literal>,
)
    requires
        clause_in_range(clause, assignment.len() as int),
        hint is Some ==> variable_of(hint->0) < assignment.len(),
    ensures
        !(classification(assignment, clause, hint) is Unwatched),
        classification(assignment, clause, hint) is Satisfied ==> (hint is Some && holds(
            assignment,
            hint->0,
        )) || some_holds(assignment, clause),
        classification(assignment, clause, hint) is Falsified ==> forall|p: int|
            0 <= p < clause.len() ==> fails(assignment, #[trigger] clause[p]),
        classification(assignment, clause, hint) matches ClauseType::Unit(x) ==> open_in(
            assignment,
            x,
        ) && (hint == Some(x) || clause.contains(x)) && forall|p: int|
            0 <= p < clause.len() && #[trigger] clause[p] != x ==> fails(assignment, clause[p]),
        classification(assignment, clause, hint) matches ClauseType::Watched(x, y) ==> x != y
            && open_in(assignment, x) && open_in(assignment, y) && (hint == Some(x)
            || clause.contains(x)) && clause.contains(y),
{
    let first = if hint is Some && open_in(assignment, hint->0) {
        hint
    } else {
        first_open(assignment, clause, None, 0)
    };
    lemma_first_open(assignment, clause, None, 0);
    if first is Some {
        lemma_first_open(assignment, clause, first, 0);
    }
    if !((hint is Some && holds(assignment, hint->0)) || some_holds(assignment, clause)) {
        assert forall|p: int| 0 <= p < clause.len() implies !holds(
            assignment,
            #[trigger] clause[p],
        ) by {}
        assert forall|p: int|
            0 <= p < clause.len() && !open_in(assignment, #[trigger] clause[p]) implies fails(
            assignment,
            clause[p],
        ) by {
            assert(!holds(assignment, clause[p]));
            assert(variable_of(clause[p]) < assignment.len());
        }
    }
}

/// Classifies `clause` under the trail's assignment in one pass over its
/// literals. `hint`, when given, is looked at first.
pub fn classify_clause(trail: &Trail, clause: &Clause, hint: Option<Literal>) -> (kind: ClauseType)
    requires
        clause_in_range(clause@, trail.assignment.len() as int),
        hint is Some ==> variable_of(hint->0) < trail.assignment.len(),
    ensures
        kind == classification(trail.assignment@, clause@, hint),
{
    let ghost a = trail.assignment@;
    let mut ans = ClauseType::Falsified;
    if let Some(literal) = hint {
        let state = trail.assignment[variable_name(literal)];
        if state.is_unset() {
            ans = ClauseType::Unit(literal);
        } else if state.bool_value() == (literal >= 0) {
            return ClauseType::Satisfied;
        }
    }
    let ghost first0 = if hint is Some && open_in(a, hint->0) {
        hint
    } else {
        None
    };
    let mut i: usize = 0;
    while i < clause.len()
        invariant
            i <= clause.len(),
            a == trail.assignment@,
            clause_in_range(clause@, a.len() as int),
            !(hint is Some && holds(a, hint->0)),
            forall|p: int| 0 <= p < i ==> !holds(a, #[trigger] clause[p]),
            first0 == (if hint is Some && open_in(a, hint->0) {
                hint
            } else {
                None
            }),
            match ans {
                ClauseType::Falsified => first0 is None && first_open(a, clause@, None, 0)
                    == first_open(a, clause@, None, i as int) && forall|p: int|
                    0 <= p < i ==> !open_in(a, #[trigger] clause[p]),
                ClauseType::Unit(x) => (first0 == Some(x) || (first0 is None && first_open(
                    a,
                    clause@,
                    None,
                    0,
                ) == Some(x))) && first_open(a, clause@, Some(x), 0) == first_open(
                    a,
                    clause@,
                    Some(x),
                    i as int,
                ),
                ClauseType::Watched(x, y) => (first0 == Some(x) || (first0 is None && first_open(
                    a,
                    clause@,
                    None,
                    0,
                ) == Some(x))) && first_open(a, clause@, Some(x), 0) == Some(y),
                _ => false,
            },
        decreases clause.len() - i,
    {
        let literal = clause[i];
        let state = trail.assignment[variable_name(literal)];
        match state {
            VariableState::Unset => match ans {
                ClauseType::Falsified => {
                    proof {
                        lemma_first_open_skips(a, clause@, Some(literal), 0, i as int);
                    }
                    ans = ClauseType::Unit(literal);
                },
                ClauseType::Unit(known) => {
                    if literal != known {
                        ans = ClauseType::Watched(known, literal);
                    }
                },
                _ => {},
            },
            VariableState::False(_) => {
                if literal < 0 {
                    assert(holds(a, clause[i as int]));
                    assert(some_holds(a, clause@));
                    return ClauseType::Satisfied;
                }
            },
            VariableState::True(_) => {
                if literal >= 0 {
                    assert(holds(a, clause[i as int]));
                    assert(some_holds(a, clause@));
                    return ClauseType::Satisfied;
                }
            },
        }
        i += 1;
    }
    assert(!some_holds(a, clause@));
    ans
}

/// When nothing in `clause[from..to]` is open, or it is what is skipped, the
/// search may start at `to`.
pub proof fn lemma_first_open_skips(
    assignment: Seq<VariableState>,
    clause: Seq<Literal>,
    skip: Option<Literal>,
    from: int,
    to: int,
)
    requires
        0 <= from <= to <= clause.len(),
        forall|p: int|
            from <= p < to ==> !open_in(assignment, #[trigger] clause[p]) || skip == Some(
                clause[p],
            ),
    ensures
        first_open(assignment, clause, skip, from) == first_open(assignment, clause, skip, to),
    decreases to - from,
{
    if from < to {
        lemma_first_open_skips(assignment, clause, skip, from + 1, to);
    }
}

/// Chooses the next literal to try.
pub trait DecisionHeuristic: Sized {
    /// A heuristic for `formula` over `n` variables.
    fn from_formula(n: usize, formula: &Formula) -> Self;

    /// Told after the engine has jumped back to `level` and appended the
    /// learned clause as `clause_id`.
    fn backtrack_and_add_clause(
        &mut self,
        formula: &Formula,
        trail: &Trail,
        level: usize,
        clause_id: usize,
    );

    /// Told after `literal` was forced by clause `reason_id`.
    fn propagate_literal(
        &mut self,
        formula: &Formula,
        trail: &Trail,
        literal: Literal,
        reason_id: usize,
    );

    /// A literal whose variable has no value yet, or `None` once every
    /// variable has one.
    fn decide_literal(&mut self, formula: &Formula, trail: &Trail) -> (choice: Option<Literal>)
        requires
            trail.assignment.len() <= isize::MAX,
        ensures
            choice matches Some(l) ==> open_in(trail.assignment@, l),
            choice is None ==> forall|v: int|
                0 <= v < trail.assignment.len() ==> !(#[trigger] trail.assignment[v] is Unset),
    ;
}

/// The trail `(a, e)` is what remains of `(a0, e0)` after a backjump below
/// its top level.
pub open spec fn rewinds(
    a0: Seq<VariableState>,
    e0: Entries,
    a: Seq<VariableState>,
    e: Entries,
) -> bool {
    &&& 1 <= e.len() < e0.len()
    &&& e == e0.take(e.len() as int)
    &&& a == released(a0, e.len() - 1)
}

/// Turns a conflict into a clause to learn. The engine tells the analysis of
/// every step it takes on the trail, so that the analysis can keep a state of
/// its own in step with it.
pub trait ConflictAnalysis: Sized {
    /// The state of the analysis fits the trail.
    spec fn tracks(&self, f: Seq<Seq<Literal>>, a: Seq<VariableState>, e: Entries) -> bool;

    /// The state of the analysis after a conflict on this trail, until the
    /// engine reports the backjump.
    spec fn analysed(&self, f: Seq<Seq<Literal>>, a: Seq<VariableState>, e: Entries) -> bool;

    /// An analysis for `formula` over `n` variables, in step with a trail on
    /// which nothing is assigned.
    fn from_formula(n: usize, formula: &Formula) -> (analysis: Self)
        requires
            n < isize::MAX,
            in_range(clauses(*formula), n as int),
        ensures
            analysis.tracks(
                clauses(*formula),
                Seq::new(n as nat, |v: int| VariableState::Unset),
                seq![Seq::<(Variable, Reason)>::empty()],
            ),
    ;

    /// The clause to learn from a clause that fails under the trail: one
    /// that follows from the formula, fails too, and has a single literal
    /// from the top level.
    fn analyze_conflict(&mut self, formula: &Formula, trail: &Trail, conflict: Clause) -> (learned:
        Clause)
        requires
            sound(
                trail.assignment.len() as nat,
                clauses(*formula),
                trail.assignment@,
                trail.entries(),
            ),
            old(self).tracks(clauses(*formula), trail.assignment@, trail.entries()),
            conflicting(trail.assignment@, trail.entries(), conflict@),
            entails(
                clauses(*formula),
                trail.assignment.len() as nat,
                conflict@,
            ),
        ensures
            asserting(trail.assignment@, trail.entries(), learned@),
            each_once(learned@),
            entails(
                clauses(*formula),
                trail.assignment.len() as nat,
                learned@,
            ),
            final(self).analysed(clauses(*formula), trail.assignment@, trail.entries()),
    ;

    /// Told after the engine has jumped back to `level` and appended the
    /// learned clause as `clause_id`.
    fn backtrack_and_add_clause(
        &mut self,
        formula: &Formula,
        trail: &Trail,
        level: usize,
        clause_id: usize,
    )
        requires
            sound(
                trail.assignment.len() as nat,
                clauses(*formula),
                trail.assignment@,
                trail.entries(),
            ),
            clause_id + 1 == formula.len(),
            level + 1 == trail.levels.len(),
            exists|a0: Seq<VariableState>, e0: Entries| #[trigger]
                rewinds(a0, e0, trail.assignment@, trail.entries()) && sound(
                    trail.assignment.len() as nat,
                    clauses(*formula).drop_last(),
                    a0,
                    e0,
                ) && old(self).analysed(clauses(*formula).drop_last(), a0, e0),
        ensures
            final(self).tracks(clauses(*formula), trail.assignment@, trail.entries()),
    ;

    /// Told after `literal` was forced by clause `reason_id` and appended to
    /// the top level.
    fn propagate_literal(
        &mut self,
        formula: &Formula,
        trail: &Trail,
        literal: Literal,
        reason_id: usize,
    )
        requires
            sound(
                trail.assignment.len() as nat,
                clauses(*formula),
                trail.assignment@,
                trail.entries(),
            ),
            holds(trail.assignment@, literal),
            trail.entries().last().len() >= 1,
            trail.entries().last().last() == (variable_of(literal) as usize, Some(reason_id)),
            old(self).tracks(
                clauses(*formula),
                trail.assignment@.update(variable_of(literal), VariableState::Unset),
                trail.entries().update(
                    trail.entries().len() - 1,
                    trail.entries().last().drop_last(),
                ),
            ),
        ensures
            final(self).tracks(clauses(*formula), trail.assignment@, trail.entries()),
    ;

    /// Told after `literal` was decided and a level opened with it.
    fn decide_literal(&mut self, formula: &Formula, trail: &Trail, literal: Literal)
        requires
            sound(
                trail.assignment.len() as nat,
                clauses(*formula),
                trail.assignment@,
                trail.entries(),
            ),
            holds(trail.assignment@, literal),
            trail.entries().len() >= 2,
            trail.entries().last() == seq![(variable_of(literal) as usize, None::<usize>)],
            old(self).tracks(
                clauses(*formula),
                trail.assignment@.update(variable_of(literal), VariableState::Unset),
                trail.entries().drop_last(),
            ),
        ensures
            final(self).tracks(clauses(*formula), trail.assignment@, trail.entries()),
    ;
}

/// Among the first `upto` literals of the clause other than `skip`, the last
/// of those assigned at the highest level.
pub open spec fn deepest_upto(
    a: Seq<VariableState>,
    clause: Seq<Literal>,
    skip: Option<Literal>,
    upto: int,
) -> Option<Literal>
    decreases upto,
{
    if upto <= 0 {
        None
    } else {
        let before = deepest_upto(a, clause, skip, upto - 1);
        let x = clause[upto - 1];
        if skip == Some(x) {
            before
        } else if before is Some && level_of(a, before->0) > level_of(a, x) {
            before
        } else {
            Some(x)
        }
    }
}

/// What `deepest_upto` finds is a literal of the clause other than `skip`,
/// assigned no lower than any other such literal; it finds none only if there
/// is none.
pub proof fn lemma_deepest(
    a: Seq<VariableState>,
    clause: Seq<Literal>,
    skip: Option<Literal>,
    upto: int,
)
    requires
        0 <= upto <= clause.len(),
    ensures
        match deepest_upto(a, clause, skip, upto) {
            Some(z) => skip != Some(z) && (exists|p: int| 0 <= p < upto && #[trigger] clause[p] == z)
                && forall|p: int|
                0 <= p < upto && skip != Some(#[trigger] clause[p]) ==> level_of(a, clause[p])
                    <= level_of(a, z),
            None => forall|p: int| 0 <= p < upto ==> skip == Some(#[trigger] clause[p]),
        },
    decreases upto,
{
    if upto > 0 {
        lemma_deepest(a, clause, skip, upto - 1);
        let before = deepest_upto(a, clause, skip, upto - 1);
        let x = clause[upto - 1];
        match deepest_upto(a, clause, skip, upto) {
            Some(z) => {
                if before == Some(z) && !(skip != Some(x) && !(before is Some && level_of(
                    a,
                    before->0,
                ) > level_of(a, x))) {
                    let p = choose|p: int| 0 <= p < upto - 1 && #[trigger] clause[p] == z;
                    assert(clause[p] == z);
                } else {
                    assert(clause[upto - 1] == z);
                }
            },
            None => {},
        }
    }
}

/// The literal of the clause, other than `skip`, that was assigned at the
/// highest level; of several, the last.
pub fn deepest(trail: &Trail, clause: &Clause, skip: Option<Literal>) -> (found: Option<Literal>)
    requires
        forall|p: int|
            0 <= p < clause.len() ==> variable_of(#[trigger] clause[p]) < trail.assignment.len()
                && !(trail.assignment[variable_of(clause[p])] is Unset),
    ensures
        found == deepest_upto(trail.assignment@, clause@, skip, clause.len() as int),
{
    let mut best: Option<Literal> = None;
    let mut p: usize = 0;
    while p < clause.len()
        invariant
            p <= clause.len(),
            best == deepest_upto(trail.assignment@, clause@, skip, p as int),
            forall|q: int|
                0 <= q < clause.len() ==> variable_of(#[trigger] clause[q])
                    < trail.assignment.len() && !(trail.assignment[variable_of(clause[q])]
                    is Unset),
            best is Some ==> variable_of(best->0) < trail.assignment.len() && !(
            trail.assignment[variable_of(best->0)] is Unset),
        decreases clause.len() - p,
    {
        let x = clause[p];
        let skipped = match skip {
            Some(s) => s == x,
            None => false,
        };
        if !skipped {
            let level = trail.assignment[variable_name(x)].decision_level();
            match best {
                None => {
                    best = Some(x);
                },
                Some(y) => {
                    if level >= trail.assignment[variable_name(y)].decision_level() {
                        best = Some(x);
                    }
                },
            }
        }
        p += 1;
    }
    best
}

/// Forcing a literal at the top level is progress.
pub proof fn lemma_progress_after_propagate(
    a: Seq<VariableState>,
    e: Entries,
    l: Literal,
    r: usize,
)
    requires
        well_formed(a, e),
        a.len() <= isize::MAX,
        open_in(a, l),
    ensures
        progress(a.len() as int, forced(e, l, r)) > progress(a.len() as int, e),
        progress(a.len() as int, forced(e, l, r)) < horizon(a.len() as int),
{
    lemma_trail_bounds(a, e);
    let a2 = assign(a, l, e.len() - 1);
    let e2 = forced(e, l, r);
    trail::lemma_propagate_keeps_wf(
        a,
        e,
        variable_of(l) as usize,
        state_for(l, (e.len() - 1) as usize),
        r,
    );
    assert(e2[e.len() - 1] == e.last().push((variable_of(l) as usize, Some(r))));
    assert(e.last() == e[e.len() - 1]);
    lemma_progress_grows(a, e, a2, e2);
    lemma_progress_bounded(a2, e2);
}

/// Jumping back below the top level and forcing a literal there is progress.
pub proof fn lemma_progress_after_learning(
    a: Seq<VariableState>,
    e: Entries,
    a1: Seq<VariableState>,
    e1: Entries,
    l: Literal,
    r: usize,
)
    requires
        well_formed(a, e),
        well_formed(a1, e1),
        a.len() == a1.len(),
        a.len() <= isize::MAX,
        1 <= e1.len() < e.len(),
        e1 == e.take(e1.len() as int),
        open_in(a1, l),
    ensures
        progress(a.len() as int, forced(e1, l, r)) > progress(a.len() as int, e),
{
    lemma_trail_bounds(a1, e1);
    let a2 = assign(a1, l, e1.len() - 1);
    let e2 = forced(e1, l, r);
    trail::lemma_propagate_keeps_wf(
        a1,
        e1,
        variable_of(l) as usize,
        state_for(l, (e1.len() - 1) as usize),
        r,
    );
    assert(e2[e1.len() - 1] == e1.last().push((variable_of(l) as usize, Some(r))));
    assert(e1.last() == e[e1.len() - 1]);
    assert forall|k: int| 0 <= k < e2.len() - 1 implies (#[trigger] e2[k]).len() == e[k].len() by {
        assert(e2[k] == e1[k]);
        assert(e1[k] == e[k]);
    }
    lemma_progress_grows(a, e, a2, e2);
}

/// What looking at one entry of a watch list came to.
enum Step {
    /// The entry was stale and has been taken out of the list.
    Dropped,
    /// The entry stays; its clause is satisfied, forced a literal, or moved
    /// its watches.
    Kept,
    /// Its clause failed and the engine learned from it; propagation resumes
    /// at the given position of the top level.
    Resumed(usize),
    /// Its clause failed at the ground level.
    Refuted,
}

/// The engine: a trail, the formula it grows, and the two strategies.
pub struct CDCL<'a, D: DecisionHeuristic, C: ConflictAnalysis> {
    trail: Trail,
    formula: &'a mut Formula,
    decision_heuristic: D,
    conflict_analysis: C,
    base: Ghost<Seq<Seq<Literal>>>,
}

/// The clause in `kinds[c]` watches `w` only if it is backed.
pub open spec fn handled(
    f: Seq<Seq<Literal>>,
    a: Seq<VariableState>,
    kinds: Seq<ClauseType>,
    c: int,
    w: Literal,
) -> bool {
    (kinds[c] matches ClauseType::Watched(x, y) && (x == w || y == w)) ==> backed(a, f[c], w)
}

impl<'a, D: DecisionHeuristic, C: ConflictAnalysis> CDCL<'a, D, C> {
    /// The number of variables.
    pub closed spec fn variables(&self) -> nat {
        self.trail.assignment.len() as nat
    }

    /// The clauses the engine was made with.
    pub closed spec fn given(&self) -> Seq<Seq<Literal>> {
        self.base@
    }

    /// The clauses it holds now: those it was given, then those it learned.
    pub closed spec fn known(&self) -> Seq<Seq<Literal>> {
        clauses(*self.formula)
    }

    /// The assignment it has reached, an unset variable counting as false.
    pub closed spec fn model(&self) -> Seq<bool> {
        Seq::new(self.trail.assignment.len() as nat, |v: int| self.trail.assignment[v] is True)
    }

    /// Every variable has a value.
    pub closed spec fn complete(&self) -> bool {
        forall|v: int|
            0 <= v < self.trail.assignment.len() ==> !(#[trigger] self.trail.assignment[v]
                is Unset)
    }

    /// The number of levels of the trail, the ground level included.
    pub closed spec fn depth(&self) -> nat {
        self.trail.levels.len() as nat
    }

    /// Some clause it holds has every literal failing.
    pub closed spec fn stuck(&self) -> bool {
        fails_outright(clauses(*self.formula), self.trail.assignment@)
    }

    /// Every clause it learned has a literal.
    pub closed spec fn learned_nonempty(&self) -> bool {
        forall|c: int|
            self.base@.len() <= c < self.formula.len() ==> (#[trigger] clauses(
                *self.formula,
            )[c]).len() > 0
    }

    spec fn grounded(&self) -> bool {
        let f = clauses(*self.formula);
        let n = self.trail.assignment.len() as nat;
        &&& sound(n, f, self.trail.assignment@, self.trail.entries())
        &&& self.trail.watches.len() == n
        &&& self.base@.len() <= f.len()
        &&& forall|c: int| 0 <= c < self.base@.len() ==> #[trigger] f[c] == self.base@[c]
        &&& derived(self.base@, n, f) && ground_forced(
            self.base@,
            n,
            self.trail.assignment@,
            self.trail.entries(),
        )
    }

    /// The engine at this moment of propagation, come to entry `done` of the
    /// top level and position `at` of a watch list.
    spec fn moment(&self, done: int, at: int) -> Moment {
        Moment {
            f: clauses(*self.formula),
            a: self.trail.assignment@,
            e: self.trail.entries(),
            kinds: self.trail.clause_types@,
            lists: self.trail.lists(),
            done,
            at,
        }
    }

    spec fn tracking(&self) -> bool {
        self.conflict_analysis.tracks(
            clauses(*self.formula),
            self.trail.assignment@,
            self.trail.entries(),
        )
    }

    spec fn watching(&self, done: int, scanned: int) -> bool {
        watch_inv(
            clauses(*self.formula),
            self.trail.assignment@,
            self.trail.entries(),
            self.trail.clause_types@,
            self.trail.lists(),
            done,
            scanned,
        )
    }

    /// The watch lists and the recorded states of the clauses agree.
    pub closed spec fn watches_coherent(&self) -> bool {
        coherent(clauses(*self.formula), self.trail.clause_types@, self.trail.lists())
    }

    /// The clauses it holds begin with the clauses it was given, in order.
    pub closed spec fn extends_given(&self) -> bool {
        &&& self.base@.len() <= self.formula.len()
        &&& forall|c: int|
            0 <= c < self.base@.len() ==> (#[trigger] self.formula[c])@ == self.base@[c]
    }

    /// The state `new` leaves the engine in: nothing assigned, no clause
    /// looked at.
    pub closed spec fn ready(&self) -> bool {
        &&& self.grounded()
        &&& self.tracking()
        &&& self.watching(0, 0)
        &&& self.trail.levels.len() == 1
        &&& self.base@ == clauses(*self.formula)
    }

    /// An engine for `formula` over `n` variables, with nothing assigned yet.
    pub fn new(
        n: usize,
        formula: &'a mut Formula,
        decision_heuristic: D,
        conflict_analysis: C,
    ) -> (cdcl: CDCL<'a, D, C>)
        requires
            n < isize::MAX,
            in_range(clauses(*old(formula)), n as int),
            conflict_analysis.tracks(
                clauses(*old(formula)),
                Seq::new(n as nat, |v: int| VariableState::Unset),
                seq![Seq::<(Variable, Reason)>::empty()],
            ),
        ensures
            cdcl.ready(),
            cdcl.variables() == n,
            cdcl.given() == clauses(*old(formula)),
            cdcl.known() == clauses(*old(formula)),
    {
        Self::build(n, formula, decision_heuristic, conflict_analysis)
    }

    /// The construction behind `new`.
    fn build(
        n: usize,
        formula: &'a mut Formula,
        decision_heuristic: D,
        conflict_analysis: C,
    ) -> (cdcl: CDCL<'a, D, C>)
        requires
            n < isize::MAX,
            in_range(clauses(*old(formula)), n as int),
            conflict_analysis.tracks(
                clauses(*old(formula)),
                Seq::new(n as nat, |v: int| VariableState::Unset),
                seq![Seq::<(Variable, Reason)>::empty()],
            ),
        ensures
            cdcl.ready(),
            cdcl.variables() == n,
            cdcl.given() == clauses(*old(formula)),
            cdcl.known() == clauses(*old(formula)),
            *final(cdcl.formula) == *final(formula),
    {
        let trail = Trail::new(n, formula.len());
        let ghost f = clauses(*formula);
        let cdcl = CDCL::<'a> {
            trail,
            formula,
            decision_heuristic,
            conflict_analysis,
            base: Ghost(f),
        };
        proof {
            assert(cdcl.trail.assignment@ =~= Seq::new(n as nat, |v: int| VariableState::Unset));
            assert(cdcl.trail.lists().len() == 2 * n);
            assert forall|j: int| 0 <= j < cdcl.trail.lists().len() implies (
            #[trigger] cdcl.trail.lists()[j]).len() == 0 by {
                assert(cdcl.trail.watches[j / 2][j % 2].len() == 0);
            }
        }
        cdcl
    }

    /// The assignment reached, a variable without a value counting as false.
    pub fn get_assignment(&self) -> (assignment: Vec<bool>)
        ensures
            assignment@ == self.model(),
    {
        let mut assignment: Vec<bool> = Vec::new();
        let mut v: usize = 0;
        while v < self.trail.assignment.len()
            invariant
                v <= self.trail.assignment.len(),
                assignment.len() == v,
                forall|u: int| 0 <= u < v ==> assignment[u] == (self.trail.assignment[u] is True),
            decreases self.trail.assignment.len() - v,
        {
            assignment.push(self.trail.assignment[v].is_true());
            v += 1;
        }
        assert(assignment@ =~= self.model());
        assignment
    }

    fn add_learned_clause(&mut self, clause: Clause, clause_type: ClauseType)
        ensures
            clauses(*final(self).formula) == clauses(*old(self).formula).push(clause@),
            final(self).trail.clause_types@ == old(self).trail.clause_types@.push(clause_type),
            *final(final(self).formula) == *final(old(self).formula),
            final(self).trail.assignment == old(self).trail.assignment,
            final(self).trail.levels == old(self).trail.levels,
            final(self).trail.watches == old(self).trail.watches,
            final(self).decision_heuristic == old(self).decision_heuristic,
            final(self).conflict_analysis == old(self).conflict_analysis,
            final(self).base == old(self).base,
    {
        self.formula.push(clause);
        self.trail.clause_types.push(clause_type);
        assert(clauses(*self.formula) =~= clauses(*old(self).formula).push(clause@));
    }

    /// Forces `literal` by clause `reason_id` and tells both strategies.
    fn propagate_literal(&mut self, literal: Literal, reason_id: usize)
        requires
            old(self).grounded(),
            old(self).tracking(),
            open_in(old(self).trail.assignment@, literal),
            reason_id < old(self).formula.len(),
            clauses(*old(self).formula)[reason_id as int].contains(literal),
            forall|p: int|
                0 <= p < clauses(*old(self).formula)[reason_id as int].len() && #[trigger] clauses(
                    *old(self).formula,
                )[reason_id as int][p] != literal ==> fails(
                    old(self).trail.assignment@,
                    clauses(*old(self).formula)[reason_id as int][p],
                ),
            anchored(
                clauses(*old(self).formula)[reason_id as int],
                old(self).trail.assignment@,
                literal,
                old(self).trail.levels.len() - 1,
            ),
        ensures
            final(self).grounded(),
            final(self).tracking(),
            *final(final(self).formula) == *final(old(self).formula),
            final(self).trail.assignment@ == assign(
                old(self).trail.assignment@,
                literal,
                old(self).trail.levels.len() - 1,
            ),
            final(self).trail.entries() == forced(old(self).trail.entries(), literal, reason_id),
            clauses(*final(self).formula) == clauses(*old(self).formula),
            final(self).trail.clause_types == old(self).trail.clause_types,
            final(self).trail.watches == old(self).trail.watches,
            final(self).base == old(self).base,
    {
        let ghost f = clauses(*self.formula);
        let ghost a = self.trail.assignment@;
        let ghost e = self.trail.entries();
        let ghost n = a.len();
        proof {
            lemma_trail_bounds(a, e);
            lemma_sound_after_propagate(n, f, a, e, literal, reason_id);
            if e.len() == 1 {
                lemma_ground_after_propagate(self.base@, n, f, a, e, literal, reason_id);
            } else {
                assert(forced(e, literal, reason_id)[0] == e[0]);
                lemma_ground_frame(
                    self.base@,
                    n,
                    a,
                    e,
                    assign(a, literal, e.len() - 1),
                    forced(e, literal, reason_id),
                );
            }
        }
        self.trail.propagate_literal(literal, reason_id);
        proof {
            assert(self.trail.assignment@ == assign(a, literal, e.len() - 1));
            assert(self.trail.entries() == forced(e, literal, reason_id));
            assert(self.trail.assignment@.update(variable_of(literal), VariableState::Unset) =~= a);
            assert(self.trail.entries().update(
                self.trail.entries().len() - 1,
                self.trail.entries().last().drop_last(),
            ) =~= e) by {
                assert(self.trail.entries().last().drop_last() =~= e.last());
            }
        }
        self.decision_heuristic.propagate_literal(&*self.formula, &self.trail, literal, reason_id);
        self.conflict_analysis.propagate_literal(&*self.formula, &self.trail, literal, reason_id);
    }

    /// Jumps back to the second-highest level of the learned clause, appends
    /// the clause with its watches, and tells both strategies. The clause is
    /// then ready to force `uip`.
    fn backtrack_and_add_uip_clause(&mut self, clause: Clause, uip: Literal) -> (new_clause_id:
        usize)
        requires
            old(self).grounded(),
            old(self).conflict_analysis.analysed(
                clauses(*old(self).formula),
                old(self).trail.assignment@,
                old(self).trail.entries(),
            ),
            asserting(old(self).trail.assignment@, old(self).trail.entries(), clause@),
            clause@.contains(uip),
            level_of(old(self).trail.assignment@, uip) == old(self).trail.levels.len() - 1,
            entails(
                clauses(*old(self).formula),
                old(self).trail.assignment.len() as nat,
                clause@,
            ),
        ensures
            final(self).grounded(),
            final(self).tracking(),
            *final(final(self).formula) == *final(old(self).formula),
            new_clause_id == old(self).formula.len(),
            clauses(*final(self).formula) == clauses(*old(self).formula).push(clause@),
            final(self).trail.levels.len() < old(self).trail.levels.len(),
            final(self).trail.levels.len() - 1 == match deepest_upto(
                old(self).trail.assignment@,
                clause@,
                Some(uip),
                clause.len() as int,
            ) {
                Some(s) => level_of(old(self).trail.assignment@, s),
                None => 0,
            },
            final(self).trail.entries() == old(self).trail.entries().take(
                final(self).trail.levels.len() as int,
            ),
            final(self).trail.assignment@ == released(
                old(self).trail.assignment@,
                final(self).trail.levels.len() - 1,
            ),
            open_in(final(self).trail.assignment@, uip),
            forall|p: int|
                0 <= p < clause.len() && #[trigger] clause[p] != uip ==> fails(
                    final(self).trail.assignment@,
                    clause[p],
                ),
            match deepest_upto(
                old(self).trail.assignment@,
                clause@,
                Some(uip),
                clause.len() as int,
            ) {
                Some(s) => final(self).trail.clause_types@ == old(self).trail.clause_types@.push(
                    ClauseType::Watched(s, uip),
                ) && final(self).trail.lists() == with_watch(
                    with_watch(old(self).trail.lists(), s, new_clause_id),
                    uip,
                    new_clause_id,
                ) && level_of(final(self).trail.assignment@, s) == final(self).trail.levels.len()
                    - 1 && s != uip && clause@.contains(s),
                None => final(self).trail.clause_types@ == old(self).trail.clause_types@.push(
                    ClauseType::Unit(uip),
                ) && final(self).trail.lists() == old(self).trail.lists() && final(self).trail.levels.len() == 1,
            },
            final(self).base == old(self).base,
    {
        let ghost f = clauses(*self.formula);
        let ghost a = self.trail.assignment@;
        let ghost e = self.trail.entries();
        let ghost n = a.len();
        let ghost learned = clause@;
        let ghost top = e.len() - 1;
        proof {
            lemma_trail_bounds(a, e);
            lemma_deepest(a, learned, Some(uip), learned.len() as int);
            assert forall|p: int| 0 <= p < learned.len() implies variable_of(#[trigger] learned[p])
                < n && !(a[variable_of(learned[p])] is Unset) && level_of(a, learned[p]) <= top by {
                assert(fails(a, learned[p]));
            }
        }
        let second_deepest = deepest(&self.trail, &clause, Some(uip));
        let back_level = match second_deepest {
            Some(back) => self.trail.assignment[variable_name(back)].decision_level(),
            None => 0,
        };
        proof {
            if second_deepest is Some {
                let s = second_deepest->0;
                let p = choose|p: int| 0 <= p < learned.len() && #[trigger] learned[p] == s;
                let q = choose|q: int| 0 <= q < learned.len() && learned[q] == uip;
                assert(level_of(a, learned[p]) <= top);
                if level_of(a, learned[p]) == top {
                    assert(learned[p] == learned[q]);
                }
            }
            lemma_sound_after_backjump(n, f, a, e, back_level as int);
            lemma_sound_with_clause(
                n,
                f,
                released(a, back_level as int),
                e.take(back_level + 1),
                learned,
            );
            lemma_derived_push(self.base@, n, f, learned);
            assert(e.take(back_level + 1)[0] == e[0]);
            assert forall|i: int| 0 <= i < e[0].len() implies released(a, back_level as int)[(
            #[trigger] e[0][i]).0 as int] == a[e[0][i].0 as int] by {}
            lemma_ground_frame(
                self.base@,
                n,
                a,
                e,
                released(a, back_level as int),
                e.take(back_level + 1),
            );
        }
        self.trail.backjump(back_level);
        assert(self.trail.assignment@ =~= released(a, back_level as int));
        let new_clause_id = self.formula.len();
        match second_deepest {
            Some(literal) => {
                self.add_learned_clause(clause, ClauseType::Watched(literal, uip));
                self.trail.add_watch(literal, new_clause_id);
                self.trail.add_watch(uip, new_clause_id);
            },
            None => {
                self.add_learned_clause(clause, ClauseType::Unit(uip));
            },
        }
        proof {
            let f2 = clauses(*self.formula);
            assert(f2.drop_last() =~= f);
            assert(rewinds(a, e, self.trail.assignment@, self.trail.entries()));
            assert forall|c: int| 0 <= c < self.base@.len() implies #[trigger] f2[c]
                == self.base@[c] by {
                assert(f2[c] == f[c]);
            }
        }
        self.decision_heuristic.backtrack_and_add_clause(
            &*self.formula,
            &self.trail,
            back_level,
            new_clause_id,
        );
        self.conflict_analysis.backtrack_and_add_clause(
            &*self.formula,
            &self.trail,
            back_level,
            new_clause_id,
        );
        new_clause_id
    }

    /// Gives every clause its first state, in order: forces the literal of a
    /// unit clause and sets up the watches of the others. `false` at the
    /// first clause that fails outright; the clauses after it are not looked
    /// at. All of this happens at the ground level.
    fn preprocess_clauses(&mut self) -> (ok: bool)
        requires
            old(self).ready(),
        ensures
            final(self).base == old(self).base,
            *final(final(self).formula) == *final(old(self).formula),
            final(self).trail.assignment.len() == old(self).trail.assignment.len(),
            clauses(*final(self).formula) == clauses(*old(self).formula),
            final(self).grounded(),
            final(self).watches_coherent(),
            ok ==> final(self).grounded() && final(self).tracking() && final(self).watching(
                0,
                final(self).formula.len() as int,
            ),
            !ok ==> unsatisfiable(
                old(self).base@,
                old(self).trail.assignment.len() as nat,
            ),
            final(self).trail.levels.len() == 1,
            !ok ==> fails_outright(clauses(*final(self).formula), final(self).trail.assignment@),
            ok ==> final(self).moment(0, 0) == prepared(
                old(self).moment(0, 0),
                old(self).formula.len() as int,
            ) && forall|c: int|
                0 <= c < old(self).formula.len() ==> !#[trigger] fails_at_first(
                    old(self).moment(0, 0),
                    c,
                ),
            !ok ==> exists|c: int|
                0 <= c < old(self).formula.len() && #[trigger] fails_at_first(
                    old(self).moment(0, 0),
                    c,
                ) && final(self).moment(0, 0) == first_look(
                    prepared(old(self).moment(0, 0), c),
                    c,
                ) && forall|d: int| 0 <= d < c ==> !#[trigger] fails_at_first(
                    old(self).moment(0, 0),
                    d,
                ),
    {
        let ghost f = clauses(*self.formula);
        let ghost n = self.trail.assignment.len() as nat;
        let ghost m0 = self.moment(0, 0);
        let mut index: usize = 0;
        while index < self.formula.len()
            invariant
                m0 == old(self).moment(0, 0),
                self.moment(0, 0) == prepared(m0, index as int),
                forall|d: int| 0 <= d < index ==> !#[trigger] fails_at_first(m0, d),
                self.grounded(),
                self.tracking(),
                self.watching(0, index as int),
                self.trail.levels.len() == 1,
                self.base == old(self).base,
                *final(self.formula) == *final(old(self).formula),
                self.trail.assignment.len() == n,
                n == old(self).trail.assignment.len(),
                clauses(*self.formula) == f,
                f == clauses(*old(self).formula),
                index <= self.formula.len(),
            decreases self.formula.len() - index,
        {
            let ghost a = self.trail.assignment@;
            let ghost e = self.trail.entries();
            let ghost kinds = self.trail.clause_types@;
            let ghost lists = self.trail.lists();
            assert(f[index as int] == self.formula[index as int]@);
            assert(clause_in_range(f[index as int], n as int));
            let ghost now = self.moment(0, 0);
            let kind = self.get_clause_type(&self.formula[index], None);
            self.trail.clause_types[index] = kind;
            proof {
                lemma_classification(a, f[index as int], None);
                lemma_trail_bounds(a, e);
                assert(now.f == m0.f);
                assert(kind == classification(now.a, m0.f[index as int], None));
                assert(fails_at_first(m0, index as int) == (kind is Falsified));
                assert(prepared(m0, index + 1) == first_look(now, index as int));
            }
            match kind {
                ClauseType::Unwatched => {},
                ClauseType::Satisfied => {
                    proof {
                        let p = choose|p: int|
                            0 <= p < f[index as int].len() && holds(a, #[trigger] f[index as int][p]);
                        assert(a[variable_of(f[index as int][p])].level() < e.len());
                        lemma_watch_set(f, a, e, kinds, lists, 0, index as int, index, kind, lists);
                    }
                },
                ClauseType::Falsified => {
                    proof {
                        assert(whole_fails(a, f[index as int]));
                        lemma_ground_conflict(self.base@, n, f[index as int], a, e);
                        lemma_watch_coherent(f, a, e, kinds, lists, 0, index as int);
                        lemma_coherent_unlisted(f, kinds, lists, index as int, kind);
                        assert(self.moment(0, 0) == first_look(now, index as int));
                    }
                    return false;
                },
                ClauseType::Unit(literal) => {
                    self.propagate_literal(literal, index);
                    proof {
                        lemma_watch_after_propagate(
                            f,
                            a,
                            e,
                            kinds,
                            lists,
                            0,
                            index as int,
                            literal,
                            index,
                        );
                        lemma_watch_set(
                            f,
                            self.trail.assignment@,
                            self.trail.entries(),
                            kinds,
                            lists,
                            0,
                            index as int,
                            index,
                            kind,
                            lists,
                        );
                    }
                },
                ClauseType::Watched(x, y) => {
                    proof {
                        let px = choose|p: int|
                            0 <= p < f[index as int].len() && f[index as int][p] == x;
                        let py = choose|p: int|
                            0 <= p < f[index as int].len() && f[index as int][p] == y;
                        assert(variable_of(f[index as int][px]) < n);
                        assert(variable_of(f[index as int][py]) < n);
                    }
                    self.trail.add_watch(x, index);
                    self.trail.add_watch(y, index);
                    proof {
                        lemma_grown_by_watch(lists, lists, x, index);
                        lemma_grown_by_watch(lists, with_watch(lists, x, index), y, index);
                        lemma_watch_set(
                            f,
                            a,
                            e,
                            kinds,
                            lists,
                            0,
                            index as int,
                            index,
                            kind,
                            self.trail.lists(),
                        );
                    }
                },
            }
            proof {
                assert(self.moment(0, 0) == first_look(now, index as int));
            }
            index += 1;
        }
        proof {
            self.lemma_coherent(0, self.formula.len() as int);
        }
        true
    }

    /// Learns from clause `clause_id`, which fails above the ground level:
    /// analyses the conflict, jumps back, appends the learned clause and forces
    /// the literal it asserts. Returns the position of that literal in the top
    /// level, where propagation resumes.
    fn learn(&mut self, clause_id: usize, Ghost(done): Ghost<int>, Ghost(at): Ghost<int>) -> (resume:
        usize)
        requires
            old(self).grounded(),
            old(self).tracking(),
            old(self).watching(done, old(self).formula.len() as int),
            clause_id < old(self).formula.len(),
            conflicting(
                old(self).trail.assignment@,
                old(self).trail.entries(),
                clauses(*old(self).formula)[clause_id as int],
            ),
        ensures
            final(self).base == old(self).base,
            *final(final(self).formula) == *final(old(self).formula),
            final(self).trail.assignment.len() == old(self).trail.assignment.len(),
            final(self).grounded(),
            final(self).tracking(),
            final(self).watching(resume as int, final(self).formula.len() as int),
            resume < final(self).trail.entries().last().len(),
            progress(old(self).trail.assignment.len() as int, final(self).trail.entries())
                > progress(old(self).trail.assignment.len() as int, old(self).trail.entries()),
            exists|learned: Seq<Literal>|
                asserting(old(self).trail.assignment@, old(self).trail.entries(), learned)
                    && entails(
                    clauses(*old(self).formula),
                    old(self).trail.assignment.len() as nat,
                    learned,
                ) && final(self).moment(resume as int, 0) == #[trigger] learnt(
                    old(self).moment(done, at),
                    learned,
                ),
            clauses(*final(self).formula).drop_last() == clauses(*old(self).formula),
            clauses(*final(self).formula).len() == old(self).formula.len() + 1,
            clauses(*final(self).formula).last().len() > 0,
            final(self).trail.levels.len() < old(self).trail.levels.len(),
    {
        let ghost f = clauses(*self.formula);
        let ghost a = self.trail.assignment@;
        let ghost e = self.trail.entries();
        let ghost n = a.len();
        let ghost kinds = self.trail.clause_types@;
        let ghost lists = self.trail.lists();
        let ghost m = self.moment(done, at);
        let conflict = self.formula[clause_id].clone();
        proof {
            assert(f[clause_id as int] == self.formula[clause_id as int]@);
            assert forall|model: Seq<bool>|
                model.len() == n && #[trigger] satisfies(
                    model,
                    f,
                ) implies crate::cdcl::model::satisfies_clause(model, conflict@) by {
                assert(crate::cdcl::model::satisfies_clause(model, f[clause_id as int]));
            }
        }
        let learned = self.conflict_analysis.analyze_conflict(
            &*self.formula,
            &self.trail,
            conflict,
        );
        let ghost lc = learned@;
        proof {
            lemma_trail_bounds(a, e);
            lemma_deepest(a, lc, None, lc.len() as int);
            assert forall|p: int| 0 <= p < lc.len() implies variable_of(#[trigger] lc[p]) < n && !(
            a[variable_of(lc[p])] is Unset) && level_of(a, lc[p]) < e.len() by {
                assert(fails(a, lc[p]));
            }
        }
        let found = deepest(&self.trail, &learned, None);
        let uip = match found {
            Some(l) => l,
            None => 0,
        };
        proof {
            let pt = choose|p: int|
                0 <= p < lc.len() && level_of(a, #[trigger] lc[p]) == e.len() - 1;
            assert(found is Some);
            let pu = choose|p: int| 0 <= p < lc.len() && #[trigger] lc[p] == uip;
            assert(level_of(a, lc[pu]) < e.len());
            assert(level_of(a, lc[pt]) <= level_of(a, uip));
        }
        let new_clause_id = self.backtrack_and_add_uip_clause(learned, uip);
        let resume = self.trail.levels[self.trail.levels.len() - 1].len();
        let ghost a1 = self.trail.assignment@;
        let ghost e1 = self.trail.entries();
        proof {
            assert(e1.last() == self.trail.levels[self.trail.levels.len() - 1]@);
            assert(clauses(*self.formula)[new_clause_id as int] == lc);
        }
        self.propagate_literal(uip, new_clause_id);
        proof {
            lemma_progress_after_learning(a, e, a1, e1, uip, new_clause_id);
            let second = deepest_upto(a, lc, Some(uip), lc.len() as int);
            let back = e1.len() - 1;
            assert forall|p: int| 0 <= p < lc.len() implies variable_of(#[trigger] lc[p]) < a.len()
                && (lc[p] != uip ==> fails(released(a, back), lc[p])) by {
                assert(fails(a, lc[p]));
            }
            lemma_watch_after_learning(f, a, e, kinds, lists, done, lc, uip, second, back);
            assert(e1.last() == e[back]);
            assert(self.trail.entries().last() == e1.last().push(
                (variable_of(uip) as usize, Some(new_clause_id)),
            ));
            assert(e1 == e.take(back + 1));
            assert(self.trail.lists() == learned_lists(lists, second, uip, new_clause_id));
            assert(self.trail.clause_types@ == kinds.push(learned_kind(second, uip)));
            assert(self.moment(resume as int, 0) == learnt(m, lc));
            assert(clauses(*self.formula).drop_last() =~= f);
        }
        resume
    }

    /// Moves the watches of clause `clause_id` to the open literals `x` and
    /// `y`.
    fn rewatch(
        &mut self,
        clause_id: usize,
        x: Literal,
        y: Literal,
        falsified_literal: Literal,
        Ghost(done): Ghost<int>,
    )
        requires
            old(self).grounded(),
            old(self).watching(done, old(self).formula.len() as int),
            clause_id < old(self).formula.len(),
            x != y,
            open_in(old(self).trail.assignment@, x),
            open_in(old(self).trail.assignment@, y),
            clauses(*old(self).formula)[clause_id as int].contains(x),
            clauses(*old(self).formula)[clause_id as int].contains(y),
            old(self).trail.clause_types[clause_id as int] is Watched,
            fails(old(self).trail.assignment@, falsified_literal),
        ensures
            final(self).watching(done, old(self).formula.len() as int),
            *final(final(self).formula) == *final(old(self).formula),
            final(self).trail.clause_types@ == old(self).trail.clause_types@.update(
                clause_id as int,
                ClauseType::Watched(x, y),
            ),
            final(self).trail.lists()[slot(falsified_literal)] == old(self).trail.lists()[slot(
                falsified_literal,
            )],
            final(self).trail.lists() == if x != falsified_literal {
                with_watch(with_watch(old(self).trail.lists(), x, clause_id), y, clause_id)
            } else {
                with_watch(old(self).trail.lists(), y, clause_id)
            },
            final(self).trail.assignment == old(self).trail.assignment,
            final(self).trail.levels == old(self).trail.levels,
            final(self).trail.watches.len() == old(self).trail.watches.len(),
            *final(self).formula == *old(self).formula,
            final(self).decision_heuristic == old(self).decision_heuristic,
            final(self).conflict_analysis == old(self).conflict_analysis,
            final(self).base == old(self).base,
    {
        let ghost f = clauses(*self.formula);
        let ghost a = self.trail.assignment@;
        let ghost e = self.trail.entries();
        let ghost kinds = self.trail.clause_types@;
        let ghost lists = self.trail.lists();
        let ghost n = a.len();
        proof {
            let px = choose|p: int|
                0 <= p < f[clause_id as int].len() && f[clause_id as int][p] == x;
            let py = choose|p: int|
                0 <= p < f[clause_id as int].len() && f[clause_id as int][p] == y;
            assert(variable_of(f[clause_id as int][px]) < n);
            assert(variable_of(f[clause_id as int][py]) < n);
            lemma_slot(x, falsified_literal);
            lemma_slot(y, falsified_literal);
        }
        self.trail.clause_types[clause_id] = ClauseType::Watched(x, y);
        if x != falsified_literal {
            self.trail.add_watch(x, clause_id);
        }
        self.trail.add_watch(y, clause_id);
        proof {
            lemma_grown_by_watch(lists, lists, x, clause_id);
            lemma_grown_by_watch(lists, with_watch(lists, x, clause_id), y, clause_id);
            lemma_watch_set(
                f,
                a,
                e,
                kinds,
                lists,
                done,
                f.len() as int,
                clause_id,
                ClauseType::Watched(x, y),
                self.trail.lists(),
            );
        }
    }

    /// Looks at entry `watch_index` of the list of `falsified_literal`.
    #[verifier::rlimit(40)]
    fn examine(
        &mut self,
        falsified_literal: Literal,
        watch_index: usize,
        Ghost(done): Ghost<int>,
    ) -> (step: Step)
        requires
            old(self).grounded(),
            old(self).tracking(),
            old(self).watching(done, old(self).formula.len() as int),
            0 <= done < old(self).trail.entries().last().len(),
            old(self).trail.entries().last()[done].0 == variable_of(falsified_literal),
            fails(old(self).trail.assignment@, falsified_literal),
            watch_index < old(self).trail.lists()[slot(falsified_literal)].len(),
            forall|idx: int|
                0 <= idx < watch_index ==> handled(
                    clauses(*old(self).formula),
                    old(self).trail.assignment@,
                    old(self).trail.clause_types@,
                    (#[trigger] old(self).trail.lists()[slot(falsified_literal)][idx]) as int,
                    falsified_literal,
                ),
        ensures
            final(self).base == old(self).base,
            *final(final(self).formula) == *final(old(self).formula),
            final(self).trail.assignment.len() == old(self).trail.assignment.len(),
            final(self).grounded(),
            match step {
                Step::Refuted => final(self).watching(done, final(self).formula.len() as int) && (
                unsatisfiable(
                    old(self).base@,
                    old(self).trail.assignment.len() as nat,
                )),
                Step::Resumed(resume) => {
                    &&& final(self).grounded()
                    &&& final(self).tracking()
                    &&& final(self).watching(resume as int, final(self).formula.len() as int)
                    &&& resume < final(self).trail.entries().last().len()
                    &&& progress(
                        old(self).trail.assignment.len() as int,
                        final(self).trail.entries(),
                    ) > progress(
                        old(self).trail.assignment.len() as int,
                        old(self).trail.entries(),
                    )
                },
                Step::Dropped => {
                    &&& final(self).grounded()
                    &&& final(self).tracking()
                    &&& final(self).watching(done, final(self).formula.len() as int)
                    &&& final(self).trail.entries() == old(self).trail.entries()
                    &&& final(self).trail.assignment == old(self).trail.assignment
                    &&& final(self).trail.lists()[slot(falsified_literal)].len() + 1 == old(self).trail.lists()[slot(falsified_literal)].len()
                    &&& forall|idx: int|
                        0 <= idx < watch_index ==> handled(
                            clauses(*final(self).formula),
                            final(self).trail.assignment@,
                            final(self).trail.clause_types@,
                            (#[trigger] final(self).trail.lists()[slot(falsified_literal)][idx]) as int,
                            falsified_literal,
                        )
                },
                Step::Kept => {
                    &&& final(self).grounded()
                    &&& final(self).tracking()
                    &&& final(self).watching(done, final(self).formula.len() as int)
                    &&& done < final(self).trail.entries().last().len()
                    &&& final(self).trail.entries().last()[done].0 == variable_of(
                        falsified_literal,
                    )
                    &&& fails(final(self).trail.assignment@, falsified_literal)
                    &&& final(self).trail.lists()[slot(falsified_literal)].len() == old(self).trail.lists()[slot(falsified_literal)].len()
                    &&& (final(self).trail.entries() == old(self).trail.entries() || progress(
                        old(self).trail.assignment.len() as int,
                        final(self).trail.entries(),
                    ) > progress(
                        old(self).trail.assignment.len() as int,
                        old(self).trail.entries(),
                    ))
                    &&& forall|idx: int|
                        0 <= idx <= watch_index ==> handled(
                            clauses(*final(self).formula),
                            final(self).trail.assignment@,
                            final(self).trail.clause_types@,
                            (#[trigger] final(self).trail.lists()[slot(falsified_literal)][idx]) as int,
                            falsified_literal,
                        )
                },
            },
            match step {
                Step::Refuted => refuted(old(self).moment(done, watch_index as int))
                    && final(self).moment(done, watch_index as int) == old(self).moment(
                    done,
                    watch_index as int,
                ) && fails_outright(clauses(*final(self).formula), final(self).trail.assignment@),
                Step::Resumed(resume) => examined(
                    old(self).moment(done, watch_index as int),
                    final(self).moment(resume as int, 0),
                ) && clauses(*final(self).formula).drop_last() == clauses(*old(self).formula)
                    && clauses(*final(self).formula).last().len() > 0
                    && final(self).trail.levels.len() < old(self).trail.levels.len(),
                Step::Dropped => examined(
                    old(self).moment(done, watch_index as int),
                    final(self).moment(done, watch_index as int),
                ) && clauses(*final(self).formula) == clauses(*old(self).formula)
                    && final(self).trail.levels.len() == old(self).trail.levels.len(),
                Step::Kept => examined(
                    old(self).moment(done, watch_index as int),
                    final(self).moment(done, watch_index + 1),
                ) && clauses(*final(self).formula) == clauses(*old(self).formula)
                    && final(self).trail.levels.len() == old(self).trail.levels.len(),
            },
    {
        let ghost f = clauses(*self.formula);
        let ghost a = self.trail.assignment@;
        let ghost e = self.trail.entries();
        let ghost kinds = self.trail.clause_types@;
        let ghost lists = self.trail.lists();
        let ghost n = a.len() as int;
        let ghost w = falsified_literal;
        let ghost ws = slot(w);
        let ghost m = self.moment(done, watch_index as int);
        let variable = variable_name(falsified_literal);
        let side: usize = if falsified_literal >= 0 {
            1
        } else {
            0
        };
        proof {
            lemma_trail_bounds(a, e);
            assert(lists[ws] == self.trail.watches[variable as int][side as int]@);
            lemma_trail_literal(a, w);
            assert(failing(m) == w);
        }
        let clause_id = self.trail.watches[variable][side][watch_index];
        assert(clause_id == lists[ws][watch_index as int]);
        let (x, y) = self.trail.clause_types[clause_id].unwrap_watched();
        assert(status_ok(f, a, e, kinds, lists, done, clause_id as int));
        if x != falsified_literal && y != falsified_literal {
            self.trail.drop_watch(falsified_literal, watch_index);
            proof {
                lemma_watch_dropped(
                    f,
                    a,
                    e,
                    kinds,
                    lists,
                    done,
                    f.len() as int,
                    w,
                    watch_index as int,
                );
                assert(self.trail.lists() == without_watch(lists, w, watch_index as int));
                assert forall|idx: int| 0 <= idx < watch_index implies handled(
                    f,
                    a,
                    kinds,
                    (#[trigger] self.trail.lists()[ws][idx]) as int,
                    w,
                ) by {
                    assert(self.trail.lists()[ws][idx] == lists[ws][idx]);
                }
                assert(stale(m));
                assert(self.moment(done, watch_index as int) == (Moment {
                    lists: without_watch(m.lists, failing(m), m.at),
                    ..m
                }));
            }
            return Step::Dropped;
        }
        let other_literal = x ^ y ^ falsified_literal;
        proof {
            lemma_other_watch(x, y);
            assert(other_literal == x || other_literal == y);
            assert(f[clause_id as int] == self.formula[clause_id as int]@);
            assert(clause_in_range(f[clause_id as int], n));
            let po = choose|p: int|
                0 <= p < f[clause_id as int].len() && f[clause_id as int][p] == other_literal;
            assert(variable_of(f[clause_id as int][po]) < n);
            lemma_classification(a, f[clause_id as int], Some(other_literal));
            assert(!stale(m));
            assert(other_watch(m) == other_literal);
            assert(verdict(m) == classification(a, f[clause_id as int], Some(other_literal)));
        }
        let kind = self.get_clause_type(&self.formula[clause_id], Some(other_literal));
        assert(kind == verdict(m));
        match kind {
            ClauseType::Unwatched => Step::Kept,
            ClauseType::Satisfied => {
                proof {
                    if holds(a, other_literal) {
                        let po = choose|p: int|
                            0 <= p < f[clause_id as int].len() && f[clause_id as int][p]
                                == other_literal;
                        assert(holds(a, f[clause_id as int][po]));
                    }
                    let p = choose|p: int|
                        0 <= p < f[clause_id as int].len() && holds(
                            a,
                            #[trigger] f[clause_id as int][p],
                        );
                    assert(a[variable_of(f[clause_id as int][p])].level() < e.len());
                    assert(backed(a, f[clause_id as int], w));
                }
                Step::Kept
            },
            ClauseType::Falsified => {
                if self.trail.levels.len() == 1 {
                    proof {
                        assert(whole_fails(a, f[clause_id as int]));
                        lemma_ground_conflict(
                            self.base@,
                            n as nat,
                            f[clause_id as int],
                            a,
                            e,
                        );
                    }
                    return Step::Refuted;
                }
                proof {
                    let pw = choose|p: int|
                        0 <= p < f[clause_id as int].len() && f[clause_id as int][p] == w;
                    assert(level_of(a, f[clause_id as int][pw]) == e.len() - 1);
                    assert(conflicting(a, e, f[clause_id as int]));
                }
                let resume = self.learn(clause_id, Ghost(done), Ghost(watch_index as int));
                Step::Resumed(resume)
            },
            ClauseType::Unit(new_literal) => {
                self.propagate_literal(new_literal, clause_id);
                proof {
                    lemma_watch_after_propagate(
                        f,
                        a,
                        e,
                        kinds,
                        lists,
                        done,
                        f.len() as int,
                        new_literal,
                        clause_id,
                    );
                    let a2 = self.trail.assignment@;
                    let e2 = self.trail.entries();
                    lemma_progress_after_propagate(a, e, new_literal, clause_id);
                    assert(e2.last() == e.last().push(
                        (variable_of(new_literal) as usize, Some(clause_id)),
                    ));
                    assert(e2.last()[done] == e.last()[done]);
                    lemma_assign_keeps(a, new_literal, e.len() - 1, w);
                    lemma_assign_keeps(a, new_literal, e.len() - 1, new_literal);
                    let pn = choose|p: int|
                        0 <= p < f[clause_id as int].len() && f[clause_id as int][p]
                            == new_literal;
                    assert(holds(a2, f[clause_id as int][pn]));
                    assert(backed(a2, f[clause_id as int], w));
                    assert forall|idx: int| 0 <= idx <= watch_index implies handled(
                        f,
                        a2,
                        kinds,
                        (#[trigger] lists[ws][idx]) as int,
                        w,
                    ) by {
                        let c = lists[ws][idx] as int;
                        if idx < watch_index {
                            assert(handled(f, a, kinds, c, w));
                            if kinds[c] matches ClauseType::Watched(u, v) && (u == w || v == w) {
                                lemma_backed_keeps(a, new_literal, e.len() - 1, f[c], w);
                            }
                        }
                    }
                    assert(self.moment(done, watch_index + 1) == (Moment {
                        a: assign(m.a, new_literal, m.e.len() - 1),
                        e: forced(m.e, new_literal, in_hand(m)),
                        at: m.at + 1,
                        ..m
                    }));
                }
                Step::Kept
            },
            ClauseType::Watched(x2, y2) => {
                self.rewatch(clause_id, x2, y2, falsified_literal, Ghost(done));
                proof {
                    assert forall|idx: int| 0 <= idx <= watch_index implies handled(
                        f,
                        a,
                        self.trail.clause_types@,
                        (#[trigger] self.trail.lists()[ws][idx]) as int,
                        w,
                    ) by {
                        let c = lists[ws][idx] as int;
                        if c != clause_id && idx < watch_index {
                            assert(handled(f, a, kinds, c, w));
                        }
                    }
                    assert(self.trail.entries() == e);
                    assert(self.moment(done, watch_index + 1) == (Moment {
                        kinds: m.kinds.update(in_hand(m) as int, ClauseType::Watched(x2, y2)),
                        lists: moved_lists(m, x2, y2),
                        at: m.at + 1,
                        ..m
                    }));
                }
                Step::Kept
            },
        }
    }

    /// Propagates until nothing is left to force. Each entry of the top level
    /// is looked at in turn: the clauses that watch the literal it falsified
    /// are rewatched, found satisfied, made to force their last open literal,
    /// or found to fail. A failing clause above the ground level is analysed,
    /// and the search resumes below with the learned clause; at the ground
    /// level it ends the search with `false`. What it does is a journey of
    /// single steps from the first entry of the top level to the moment at
    /// which nothing is left to look at, or a clause fails at the ground
    /// level. The clauses held before stay in place; a clause joins them only
    /// after a jump back to a lower level.
    #[verifier::rlimit(40)]
    fn process_unit_clauses(&mut self) -> (ok: bool)
        requires
            old(self).grounded(),
            old(self).tracking(),
            old(self).watching(0, old(self).formula.len() as int),
        ensures
            final(self).base == old(self).base,
            *final(final(self).formula) == *final(old(self).formula),
            final(self).trail.assignment.len() == old(self).trail.assignment.len(),
            final(self).grounded(),
            final(self).watches_coherent(),
            ok ==> final(self).grounded() && final(self).tracking() && final(self).watching(
                final(self).trail.entries().last().len() as int,
                final(self).formula.len() as int,
            ) && progress(
                old(self).trail.assignment.len() as int,
                final(self).trail.entries(),
            ) >= progress(old(self).trail.assignment.len() as int, old(self).trail.entries()),
            !ok ==> unsatisfiable(
                old(self).base@,
                old(self).trail.assignment.len() as nat,
            ),
            exists|path: Seq<Moment>|
                #![trigger journey(path)]
                journey(path) && path[0] == old(self).moment(0, 0) && path.last()
                    == final(self).moment(path.last().done, path.last().at) && if ok {
                    finished(path.last())
                } else {
                    refuted(path.last())
                },
            !ok ==> final(self).trail.levels.len() == 1 && fails_outright(
                clauses(*final(self).formula),
                final(self).trail.assignment@,
            ),
            old(self).formula.len() <= final(self).formula.len(),
            forall|c: int|
                0 <= c < old(self).formula.len() ==> #[trigger] clauses(*final(self).formula)[c]
                    == clauses(*old(self).formula)[c],
            forall|c: int|
                old(self).formula.len() <= c < final(self).formula.len() ==> (#[trigger] clauses(
                    *final(self).formula,
                )[c]).len() > 0,
            final(self).formula.len() == old(self).formula.len() ==> final(self).trail.levels.len()
                == old(self).trail.levels.len(),
            final(self).formula.len() > old(self).formula.len() ==> final(self).trail.levels.len()
                < old(self).trail.levels.len(),
    {
        let ghost n = self.trail.assignment.len() as int;
        let ghost start = progress(n, self.trail.entries());
        let ghost f0 = clauses(*self.formula);
        let ghost path: Seq<Moment> = seq![self.moment(0, 0)];
        proof {
            reveal(extended);
        }
        let mut variable_index: usize = 0;
        while variable_index < self.trail.levels[self.trail.levels.len() - 1].len()
            invariant
                self.grounded(),
                self.tracking(),
                self.watching(variable_index as int, self.formula.len() as int),
                self.base == old(self).base,
                *final(self.formula) == *final(old(self).formula),
                self.trail.assignment.len() == n,
                n == old(self).trail.assignment.len(),
                progress(n, self.trail.entries()) >= start,
                journey(path),
                path[0] == old(self).moment(0, 0),
                path.last() == self.moment(variable_index as int, 0),
                f0 == clauses(*old(self).formula),
                extended(
                    f0,
                    old(self).trail.levels.len() as int,
                    clauses(*self.formula),
                    self.trail.levels.len() as int,
                ),
            decreases
                    horizon(n) - progress(n, self.trail.entries()),
                    self.trail.entries().last().len() - variable_index,
        {
            let ghost e0 = self.trail.entries();
            let ghost p0 = progress(n, e0);
            let ghost done = variable_index as int;
            proof {
                lemma_progress_bounded(self.trail.assignment@, e0);
                lemma_trail_bounds(self.trail.assignment@, e0);
            }
            let top = self.trail.levels.len() - 1;
            assert(e0.last() == self.trail.levels[top as int]@);
            let variable = self.trail.levels[top][variable_index].0;
            assert(e0[top as int][done].0 == variable);
            variable_index += 1;
            let value = self.trail.assignment[variable].bool_value();
            let falsified_literal = negate(self.trail.to_literal(variable));
            let side: usize = if value {
                0
            } else {
                1
            };
            let ghost w = falsified_literal;
            let ghost ws = slot(w);
            assert(ws == 2 * variable + side);
            let mut watch_index: usize = 0;
            let mut restarted = false;
            while !restarted && watch_index < self.trail.watches[variable as usize][side].len()
                invariant
                    self.grounded(),
                    self.tracking(),
                    self.base == old(self).base,
                    *final(self.formula) == *final(old(self).formula),
                    self.trail.assignment.len() == n,
                    n == old(self).trail.assignment.len(),
                    variable < n,
                    side < 2,
                    w == falsified_literal,
                    ws == slot(w),
                    ws == 2 * variable + side,
                    variable_of(w) == variable,
                    p0 < horizon(n),
                    done + 1 == variable_index || restarted,
                    progress(n, self.trail.entries()) >= p0,
                    journey(path),
                    path[0] == old(self).moment(0, 0),
                    path.last() == if restarted {
                        self.moment(variable_index as int, 0)
                    } else {
                        self.moment(done, watch_index as int)
                    },
                    f0 == clauses(*old(self).formula),
                    extended(
                        f0,
                        old(self).trail.levels.len() as int,
                        clauses(*self.formula),
                        self.trail.levels.len() as int,
                    ),
                    restarted ==> self.watching(variable_index as int, self.formula.len() as int)
                        && progress(n, self.trail.entries()) > p0 && variable_index
                        < self.trail.entries().last().len(),
                    !restarted ==> {
                        &&& self.watching(done, self.formula.len() as int)
                        &&& done < self.trail.entries().last().len()
                        &&& self.trail.entries().last()[done].0 == variable
                        &&& fails(self.trail.assignment@, w)
                        &&& watch_index <= self.trail.lists()[ws].len()
                        &&& (progress(n, self.trail.entries()) > p0 || self.trail.entries() == e0)
                        &&& forall|idx: int|
                            0 <= idx < watch_index ==> handled(
                                clauses(*self.formula),
                                self.trail.assignment@,
                                self.trail.clause_types@,
                                (#[trigger] self.trail.lists()[ws][idx]) as int,
                                w,
                            )
                    },
                decreases
                        horizon(n) - progress(n, self.trail.entries()),
                        if restarted {
                            0
                        } else {
                            self.trail.lists()[ws].len() - watch_index + 1
                        },
            {
                proof {
                    lemma_progress_bounded(self.trail.assignment@, self.trail.entries());
                    assert(self.trail.lists()[ws] == self.trail.watches[variable as int][side as int]@);
                }
                let ghost held = clauses(*self.formula);
                let ghost deep = self.trail.levels.len() as int;
                match self.examine(falsified_literal, watch_index, Ghost(done)) {
                    Step::Refuted => {
                        proof {
                            self.lemma_coherent(done, self.formula.len() as int);
                            assert(self.trail.entries().len() == self.trail.levels.len());
                            assert(clauses(*self.formula) == held);
                            assert(self.trail.levels.len() == deep);
                            reveal(extended);
                        }
                        return false;
                    },
                    Step::Resumed(resume) => {
                        variable_index = resume;
                        restarted = true;
                        proof {
                            lemma_journey_on(path, self.moment(resume as int, 0));
                            path = path.push(self.moment(resume as int, 0));
                            lemma_extended_on(
                                f0,
                                old(self).trail.levels.len() as int,
                                held,
                                deep,
                                clauses(*self.formula),
                                self.trail.levels.len() as int,
                            );
                        }
                    },
                    Step::Dropped => {
                        proof {
                            lemma_journey_on(path, self.moment(done, watch_index as int));
                            path = path.push(self.moment(done, watch_index as int));
                        }
                    },
                    Step::Kept => {
                        watch_index += 1;
                        proof {
                            lemma_journey_on(path, self.moment(done, watch_index as int));
                            path = path.push(self.moment(done, watch_index as int));
                        }
                    },
                }
                proof {
                    lemma_progress_bounded(self.trail.assignment@, self.trail.entries());
                }
            }
            proof {
                if !restarted {
                    let f = clauses(*self.formula);
                    let a = self.trail.assignment@;
                    let e = self.trail.entries();
                    let kinds = self.trail.clause_types@;
                    let lists = self.trail.lists();
                    assert(lists[ws] == self.trail.watches[variable as int][side as int]@);
                    assert forall|c: int|
                        0 <= c < f.len() && (#[trigger] kinds[c] matches ClauseType::Watched(u, v)
                            && (u == w || v == w)) implies backed(a, f[c], w) by {
                        assert(status_ok(f, a, e, kinds, lists, done, c));
                        assert(lists[ws].contains(c as usize));
                        let idx = choose|idx: int|
                            0 <= idx < lists[ws].len() && lists[ws][idx] == c as usize;
                        assert(handled(f, a, kinds, lists[ws][idx] as int, w));
                    }
                    lemma_watch_advance(f, a, e, kinds, lists, done, f.len() as int, w);
                    lemma_trail_literal(a, w);
                    assert(failing(path.last()) == w);
                    lemma_journey_on(path, self.moment(variable_index as int, 0));
                    path = path.push(self.moment(variable_index as int, 0));
                }
                lemma_progress_bounded(self.trail.assignment@, self.trail.entries());
            }
        }
        proof {
            self.lemma_coherent(variable_index as int, self.formula.len() as int);
            assert(self.trail.entries().last() == self.trail.levels[self.trail.levels.len() - 1]@);
            assert(finished(path.last()));
            reveal(extended);
        }
        true
    }

    /// Runs the search: `true` when every variable has a value and no clause
    /// fails, `false` when a clause fails at the ground level.
    pub fn solve(&mut self) -> (sat: bool)
        requires
            old(self).ready(),
        ensures
            final(self).given() == old(self).given(),
            final(self).variables() == old(self).variables(),
            final(self).model().len() == final(self).variables(),
            final(self).extends_given(),
            final(self).watches_coherent(),
            forall|c: int|
                0 <= c < final(self).known().len() ==> entails(
                    final(self).given(),
                    final(self).variables(),
                    #[trigger] final(self).known()[c],
                ),
            sat ==> satisfies(final(self).model(), final(self).given()),
            !sat ==> unsatisfiable(
                final(self).given(),
                final(self).variables(),
            ),
            sat ==> final(self).complete(),
            !sat ==> final(self).depth() == 1 && final(self).stuck(),
            final(self).learned_nonempty(),
    {
        self.run()
    }

    /// The search behind `solve`.
    fn run(&mut self) -> (sat: bool)
        requires
            old(self).ready(),
        ensures
            final(self).given() == old(self).given(),
            final(self).variables() == old(self).variables(),
            final(self).model().len() == final(self).variables(),
            final(self).extends_given(),
            final(self).watches_coherent(),
            forall|c: int|
                0 <= c < final(self).known().len() ==> entails(
                    final(self).given(),
                    final(self).variables(),
                    #[trigger] final(self).known()[c],
                ),
            *final(final(self).formula) == *final(old(self).formula),
            sat ==> satisfies(final(self).model(), final(self).given()),
            !sat ==> unsatisfiable(
                final(self).given(),
                final(self).variables(),
            ),
            sat ==> final(self).complete(),
            !sat ==> final(self).depth() == 1 && final(self).stuck(),
            final(self).learned_nonempty(),
    {
        if !self.preprocess_clauses() {
            proof {
                self.lemma_extends();
            }
            return false;
        }
        let ghost n = self.trail.assignment.len() as int;
        loop
            invariant
                self.grounded(),
                self.tracking(),
                self.watching(0, self.formula.len() as int),
                self.base == old(self).base,
                *final(self.formula) == *final(old(self).formula),
                self.trail.assignment.len() == n,
                n == old(self).trail.assignment.len(),
                self.learned_nonempty(),
            decreases horizon(n) - progress(n, self.trail.entries()),
        {
            proof {
                lemma_progress_bounded(self.trail.assignment@, self.trail.entries());
            }
            let ghost before = progress(n, self.trail.entries());
            if !self.process_unit_clauses() {
                proof {
                    self.lemma_extends();
                }
                return false;
            }
            match self.decision_heuristic.decide_literal(&*self.formula, &self.trail) {
                None => {
                    proof {
                        self.lemma_model_satisfies();
                        self.lemma_extends();
                    }
                    return true;
                },
                Some(literal) => {
                    let ghost f = clauses(*self.formula);
                    let ghost a = self.trail.assignment@;
                    let ghost e = self.trail.entries();
                    proof {
                        lemma_trail_bounds(a, e);
                        lemma_sound_after_decide(n as nat, f, a, e, literal);
                        lemma_watch_after_decide(
                            f,
                            a,
                            e,
                            self.trail.clause_types@,
                            self.trail.lists(),
                            f.len() as int,
                            literal,
                        );
                        assert(opened(e, literal)[0] == e[0]);
                        lemma_ground_frame(
                            self.base@,
                            n as nat,
                            a,
                            e,
                            assign(a, literal, e.len() as int),
                            opened(e, literal),
                        );
                        lemma_progress_grows(
                            a,
                            e,
                            assign(a, literal, e.len() as int),
                            opened(e, literal),
                        );
                        lemma_progress_bounded(
                            assign(a, literal, e.len() as int),
                            opened(e, literal),
                        );
                    }
                    self.trail.decide_literal(literal);
                    proof {
                        assert(self.trail.assignment@ == assign(a, literal, e.len() as int));
                        assert(self.trail.entries() == opened(e, literal));
                        assert(self.trail.assignment@.update(
                            variable_of(literal),
                            VariableState::Unset,
                        ) =~= a);
                        assert(self.trail.entries().drop_last() =~= e);
                    }
                    self.conflict_analysis.decide_literal(&*self.formula, &self.trail, literal);
                },
            }
        }
    }

    /// A coherent watch scheme has coherent lists.
    proof fn lemma_coherent(&self, done: int, scanned: int)
        requires
            self.watching(done, scanned),
        ensures
            self.watches_coherent(),
    {
        lemma_watch_coherent(
            clauses(*self.formula),
            self.trail.assignment@,
            self.trail.entries(),
            self.trail.clause_types@,
            self.trail.lists(),
            done,
            scanned,
        );
    }

    /// The clauses the engine was given stay at the head of what it holds.
    proof fn lemma_extends(&self)
        requires
            self.grounded(),
        ensures
            self.extends_given(),
            forall|c: int|
                0 <= c < self.known().len() ==> entails(
                    self.given(),
                    self.variables(),
                    #[trigger] self.known()[c],
                ),
    {
        let f = clauses(*self.formula);
        assert forall|c: int| 0 <= c < self.base@.len() implies (#[trigger] self.formula[c])@
            == self.base@[c] by {
            assert(f[c] == self.base@[c]);
        }
    }

    /// Once every variable has a value and every entry of the trail has been
    /// looked at, the assignment satisfies every clause the engine was given.
    proof fn lemma_model_satisfies(&self)
        requires
            self.grounded(),
            self.watching(
                self.trail.entries().last().len() as int,
                self.formula.len() as int,
            ),
            forall|v: int|
                0 <= v < self.trail.assignment.len() ==> !(#[trigger] self.trail.assignment[v]
                    is Unset),
        ensures
            satisfies(self.model(), self.base@),
    {
        let f = clauses(*self.formula);
        let a = self.trail.assignment@;
        let e = self.trail.entries();
        let kinds = self.trail.clause_types@;
        let lists = self.trail.lists();
        let done = e.last().len() as int;
        let m = self.model();
        assert forall|l: Literal| holds(a, l) implies crate::cdcl::model::satisfies_literal(
            m,
            l,
        ) by {}
        assert forall|c: int| 0 <= c < self.base@.len() implies crate::cdcl::model::satisfies_clause(
        m, #[trigger] self.base@[c]) by {
            assert(f[c] == self.base@[c]);
            assert(status_ok(f, a, e, kinds, lists, done, c));
            assert(clause_in_range(f[c], a.len() as int));
            match kinds[c] {
                ClauseType::Satisfied => {
                    let p = choose|p: int|
                        0 <= p < f[c].len() && holds(a, #[trigger] f[c][p]) && level_of(a, f[c][p])
                            == 0;
                    assert(crate::cdcl::model::satisfies_literal(m, f[c][p]));
                },
                ClauseType::Unit(l) => {
                    let p = choose|p: int| 0 <= p < f[c].len() && f[c][p] == l;
                    assert(crate::cdcl::model::satisfies_literal(m, f[c][p]));
                },
                ClauseType::Watched(x, y) => {
                    let px = choose|p: int| 0 <= p < f[c].len() && f[c][p] == x;
                    assert(variable_of(f[c][px]) < a.len());
                    if holds(a, x) {
                        assert(crate::cdcl::model::satisfies_literal(m, f[c][px]));
                    } else {
                        assert(fails(a, x));
                        assert(backed(a, f[c], x));
                        let p = choose|p: int|
                            0 <= p < f[c].len() && holds(a, #[trigger] f[c][p]) && level_of(
                                a,
                                f[c][p],
                            ) <= level_of(a, x);
                        assert(crate::cdcl::model::satisfies_literal(m, f[c][p]));
                    }
                },
                _ => {},
            }
        }
    }

    fn get_clause_type(&self, clause: &Clause, unit: Option<Literal>) -> (kind: ClauseType)
        requires
            clause_in_range(clause@, self.trail.assignment.len() as int),
            unit is Some ==> variable_of(unit->0) < self.trail.assignment.len(),
        ensures
            kind == classification(self.trail.assignment@, clause@, unit),
    {
        classify_clause(&self.trail, clause, unit)
    }
}

/// Solves `formula` over `n` variables with the given strategies. `Some` holds
/// a satisfying assignment; `None` says there is none. The clauses learned on
/// the way are left appended to `formula`.
pub fn cdcl_solve<D: DecisionHeuristic, C: ConflictAnalysis>(n: usize, formula: &mut Formula) -> (answer:
    Option<Vec<bool>>)
    requires
        n < isize::MAX,
        in_range(clauses(*old(formula)), n as int),
    ensures
        answer matches Some(model) ==> model.len() == n && satisfies(
            model@,
            clauses(*old(formula)),
        ),
        answer is None ==> unsatisfiable(
            clauses(*old(formula)),
            n as nat,
        ),
        old(formula).len() <= final(formula).len(),
        forall|c: int| 0 <= c < old(formula).len() ==> (#[trigger] final(formula)[c])@ == old(formula)[c]@,
        forall|c: int|
            0 <= c < final(formula).len() ==> entails(
                clauses(*old(formula)),
                n as nat,
                (#[trigger] final(formula)[c])@,
            ),
        forall|c: int|
            old(formula).len() <= c < final(formula).len() ==> (#[trigger] final(formula)[c]).len()
                > 0,
{
    let d = D::from_formula(n, &*formula);
    let c = C::from_formula(n, &*formula);
    let mut cdcl = CDCL::build(n, formula, d, c);
    let sat = cdcl.run();
    proof {
        assert forall|c: int| 0 <= c < cdcl.formula.len() implies entails(
            cdcl.given(),
            cdcl.variables(),
            (#[trigger] cdcl.formula[c])@,
        ) by {
            assert(cdcl.known()[c] == cdcl.formula[c]@);
        }
        assert forall|c: int| cdcl.given().len() <= c < cdcl.formula.len() implies (
        #[trigger] cdcl.formula[c]).len() > 0 by {
            assert(clauses(*cdcl.formula)[c] == cdcl.formula[c]@);
        }
    }
    if sat {
        Some(cdcl.get_assignment())
    } else {
        None
    }
}

/// Two searches on one formula answer alike, whatever their strategies: if
/// one finds a model the other does not find the formula unsatisfiable.
pub proof fn lemma_verdicts_agree(
    given: Seq<Seq<Literal>>,
    n: nat,
    first: Option<Vec<bool>>,
    second: Option<Vec<bool>>,
)
    requires
        first matches Some(model) ==> model.len() == n && satisfies(model@, given),
        first is None ==> unsatisfiable(given, n),
        second matches Some(model) ==> model.len() == n && satisfies(model@, given),
        second is None ==> unsatisfiable(given, n),
    ensures
        first is Some <==> second is Some,
{
}

} // verus!
