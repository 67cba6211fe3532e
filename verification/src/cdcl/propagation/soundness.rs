//! What the engine keeps true of formula, trail and watch lists, and why each
//! step keeps it.
use crate::cdcl::model::{
    clause_in_range, entails, in_range, satisfies, satisfies_clause, satisfies_literal,
    unsatisfiable,
};
use crate::cdcl::propagation::trail::{
    fails, holds, lemma_backjump_keeps_wf, lemma_decide_keeps_wf, lemma_propagate_keeps_wf,
    level_of, listed_from, negation, open_in, slot, state_after_backjump, state_for, variable_of,
    well_formed, ClauseType, Literal, Reason, Variable, VariableState,
};
use crate::cdcl::propagation::progress::lemma_trail_bounds;
use vstd::prelude::*;

verus! {

/// The levels of a trail.
pub type Entries = Seq<Seq<(Variable, Reason)>>;

/// The literal of `v` that holds under the assignment.
pub open spec fn trail_literal(a: Seq<VariableState>, v: int) -> Literal {
    if a[v] is True {
        v as isize
    } else {
        (-1 - v) as isize
    }
}

/// Above the ground level, some other literal of the clause was assigned at
/// level `k`.
pub open spec fn anchored(clause: Seq<Literal>, a: Seq<VariableState>, lit: Literal, k: int) -> bool {
    k >= 1 ==> exists|p: int|
        0 <= p < clause.len() && #[trigger] clause[p] != lit && level_of(a, clause[p]) == k
}

/// The entry at position `i` of level `k` is justified: a forced variable
/// names a clause that holds its literal, all of whose other literals fail
/// and were assigned before it, one of them at the same level unless that is
/// the ground level.
pub open spec fn reason_ok(
    f: Seq<Seq<Literal>>,
    a: Seq<VariableState>,
    e: Entries,
    k: int,
    i: int,
) -> bool {
    let v = e[k][i].0 as int;
    e[k][i].1 is Some ==> {
        let r = e[k][i].1->0 as int;
        &&& r < f.len()
        &&& f[r].contains(trail_literal(a, v))
        &&& forall|p: int|
            0 <= p < f[r].len() && #[trigger] f[r][p] != trail_literal(a, v) ==> fails(a, f[r][p])
                && level_of(a, f[r][p]) <= k && !listed_from(e[k], i, variable_of(f[r][p]))
        &&& anchored(f[r], a, trail_literal(a, v), k)
    }
}

/// The trail is valid for a formula over `n` variables and every forced
/// entry is justified.
pub open spec fn sound(n: nat, f: Seq<Seq<Literal>>, a: Seq<VariableState>, e: Entries) -> bool {
    &&& well_formed(a, e)
    &&& a.len() == n
    &&& n < isize::MAX
    &&& in_range(f, n as int)
    &&& forall|k: int, i: int|
        0 <= k < e.len() && 0 <= i < e[k].len() ==> #[trigger] reason_ok(f, a, e, k, i)
}

/// Every literal of the clause fails, and one of them was assigned at the top
/// level, which is not the ground level.
pub open spec fn conflicting(a: Seq<VariableState>, e: Entries, clause: Seq<Literal>) -> bool {
    &&& e.len() >= 2
    &&& forall|p: int| 0 <= p < clause.len() ==> fails(a, #[trigger] clause[p])
    &&& exists|p: int| 0 <= p < clause.len() && level_of(a, #[trigger] clause[p]) == e.len() - 1
}

/// A conflicting clause with a single literal from the top level: after a
/// backjump it forces that literal.
pub open spec fn asserting(a: Seq<VariableState>, e: Entries, clause: Seq<Literal>) -> bool {
    &&& conflicting(a, e, clause)
    &&& forall|p: int, q: int|
        0 <= p < clause.len() && 0 <= q < clause.len() && level_of(a, #[trigger] clause[p])
            == e.len() - 1 && level_of(a, #[trigger] clause[q]) == e.len() - 1 ==> clause[p]
            == clause[q]
}

/// `w` fails and the entry of its variable has been looked at: it is not
/// among the entries of the top level from `done` on.
pub open spec fn settled(a: Seq<VariableState>, e: Entries, done: int, w: Literal) -> bool {
    fails(a, w) && !listed_from(e.last(), done, variable_of(w))
}

/// Some literal of the clause holds, assigned no later than `w`'s level.
pub open spec fn backed(a: Seq<VariableState>, clause: Seq<Literal>, w: Literal) -> bool {
    exists|p: int|
        0 <= p < clause.len() && holds(a, #[trigger] clause[p]) && level_of(a, clause[p])
            <= level_of(a, w)
}

/// The recorded state of clause `c` fits the clause. A satisfied or unit
/// clause holds at the ground level. A watched clause is in the lists of both
/// its watched literals, and once a watched literal is settled the clause
/// holds by a literal that no backjump releases before it.
pub open spec fn status_ok(
    f: Seq<Seq<Literal>>,
    a: Seq<VariableState>,
    e: Entries,
    kinds: Seq<ClauseType>,
    lists: Seq<Seq<usize>>,
    done: int,
    c: int,
) -> bool {
    match kinds[c] {
        ClauseType::Unwatched => false,
        ClauseType::Falsified => false,
        ClauseType::Satisfied => exists|p: int|
            0 <= p < f[c].len() && holds(a, #[trigger] f[c][p]) && level_of(a, f[c][p]) == 0,
        ClauseType::Unit(l) => f[c].contains(l) && holds(a, l) && level_of(a, l) == 0,
        ClauseType::Watched(x, y) => {
            &&& x != y
            &&& f[c].contains(x)
            &&& f[c].contains(y)
            &&& lists[slot(x)].contains(c as usize)
            &&& lists[slot(y)].contains(c as usize)
            &&& settled(a, e, done, x) ==> backed(a, f[c], x)
            &&& settled(a, e, done, y) ==> backed(a, f[c], y)
        },
    }
}

/// Every entry of every watch list names a watched clause.
pub open spec fn lists_ok(
    f: Seq<Seq<Literal>>,
    kinds: Seq<ClauseType>,
    lists: Seq<Seq<usize>>,
) -> bool {
    forall|j: int, x: int|
        0 <= j < lists.len() && 0 <= x < lists[j].len() ==> (#[trigger] lists[j][x]) < f.len()
            && kinds[lists[j][x] as int] is Watched
}

/// The watch scheme is coherent: the first `scanned` clauses have a fitting
/// state and the others none yet.
pub open spec fn watch_inv(
    f: Seq<Seq<Literal>>,
    a: Seq<VariableState>,
    e: Entries,
    kinds: Seq<ClauseType>,
    lists: Seq<Seq<usize>>,
    done: int,
    scanned: int,
) -> bool {
    &&& kinds.len() == f.len()
    &&& f.len() <= usize::MAX
    &&& lists.len() == 2 * a.len()
    &&& 0 <= done <= e.last().len()
    &&& 0 <= scanned <= f.len()
    &&& forall|c: int| 0 <= c < scanned ==> #[trigger] status_ok(f, a, e, kinds, lists, done, c)
    &&& forall|c: int| scanned <= c < f.len() ==> #[trigger] kinds[c] is Unwatched
    &&& lists_ok(f, kinds, lists)
}

/// Clause `c`, if it is recorded as watched, stands in the lists of both
/// literals it watches.
pub open spec fn covered_at(kinds: Seq<ClauseType>, lists: Seq<Seq<usize>>, c: int) -> bool {
    kinds[c] matches ClauseType::Watched(x, y) ==> lists[slot(x)].contains(c as usize)
        && lists[slot(y)].contains(c as usize)
}

/// The watch lists and the recorded states of the clauses agree: a clause
/// recorded as watching two literals stands in the lists of both, and a list
/// holds nothing but clauses recorded as watched.
pub open spec fn coherent(
    f: Seq<Seq<Literal>>,
    kinds: Seq<ClauseType>,
    lists: Seq<Seq<usize>>,
) -> bool {
    &&& kinds.len() == f.len()
    &&& forall|c: int| 0 <= c < kinds.len() ==> #[trigger] covered_at(kinds, lists, c)
    &&& lists_ok(f, kinds, lists)
}

/// A coherent watch scheme has coherent lists.
pub proof fn lemma_watch_coherent(
    f: Seq<Seq<Literal>>,
    a: Seq<VariableState>,
    e: Entries,
    kinds: Seq<ClauseType>,
    lists: Seq<Seq<usize>>,
    done: int,
    scanned: int,
)
    requires
        watch_inv(f, a, e, kinds, lists, done, scanned),
    ensures
        coherent(f, kinds, lists),
{
    assert forall|c: int| 0 <= c < kinds.len() implies #[trigger] covered_at(kinds, lists, c) by {
        if c < scanned {
            assert(status_ok(f, a, e, kinds, lists, done, c));
        } else {
            assert(kinds[c] is Unwatched);
        }
    }
}

/// Recording that a clause nobody lists fails keeps the lists coherent.
pub proof fn lemma_coherent_unlisted(
    f: Seq<Seq<Literal>>,
    kinds: Seq<ClauseType>,
    lists: Seq<Seq<usize>>,
    c: int,
    kind: ClauseType,
)
    requires
        coherent(f, kinds, lists),
        0 <= c < kinds.len(),
        kinds[c] is Unwatched,
        !(kind is Watched),
    ensures
        coherent(f, kinds.update(c, kind), lists),
{
    let kinds2 = kinds.update(c, kind);
    assert forall|d: int| 0 <= d < kinds2.len() implies #[trigger] covered_at(kinds2, lists, d) by {
        assert(covered_at(kinds, lists, d));
    }
    assert forall|j: int, x: int| 0 <= j < lists.len() && 0 <= x < lists[j].len() implies (
    #[trigger] lists[j][x]) < f.len() && kinds2[lists[j][x] as int] is Watched by {
        assert(kinds[lists[j][x] as int] is Watched);
    }
}

/// The formula `f` extends `given` by clauses that `given` entails.
pub open spec fn derived(given: Seq<Seq<Literal>>, n: nat, f: Seq<Seq<Literal>>) -> bool {
    &&& given.len() <= f.len()
    &&& forall|c: int| 0 <= c < given.len() ==> #[trigger] f[c] == given[c]
    &&& forall|c: int| 0 <= c < f.len() ==> entails(given, n, #[trigger] f[c])
}

/// A model agrees with the trail on every variable of the ground level.
pub open spec fn agrees_at_ground(model: Seq<bool>, a: Seq<VariableState>, e: Entries) -> bool {
    forall|i: int|
        0 <= i < e[0].len() ==> satisfies_literal(
            model,
            trail_literal(a, (#[trigger] e[0][i]).0 as int),
        )
}

/// Every model of `given` agrees with the ground level.
pub open spec fn ground_forced(
    given: Seq<Seq<Literal>>,
    n: nat,
    a: Seq<VariableState>,
    e: Entries,
) -> bool {
    forall|model: Seq<bool>|
        model.len() == n && #[trigger] satisfies(model, given) ==> agrees_at_ground(model, a, e)
}

/// The assignment with the variable of `l` made to satisfy it at `level`.
pub open spec fn assign(a: Seq<VariableState>, l: Literal, level: int) -> Seq<VariableState> {
    a.update(variable_of(l), state_for(l, level as usize))
}

/// The levels with the variable of `l` appended to the top level.
pub open spec fn forced(e: Entries, l: Literal, r: usize) -> Entries {
    e.update(e.len() - 1, e.last().push((variable_of(l) as usize, Some(r))))
}

/// The levels with a new level opened by the variable of `l`.
pub open spec fn opened(e: Entries, l: Literal) -> Entries {
    e.push(seq![(variable_of(l) as usize, None::<usize>)])
}

/// The assignment after the levels above `level` are dropped.
pub open spec fn released(a: Seq<VariableState>, level: int) -> Seq<VariableState> {
    Seq::new(a.len(), |v: int| state_after_backjump(a, level, v))
}

/// The literal of a variable that holds is the trail's literal of it, and the
/// one that fails is the other.
pub proof fn lemma_trail_literal(a: Seq<VariableState>, l: Literal)
    requires
        a.len() <= isize::MAX,
    ensures
        holds(a, l) ==> trail_literal(a, variable_of(l)) == l,
        fails(a, l) ==> trail_literal(a, variable_of(l)) != l && variable_of(
            trail_literal(a, variable_of(l)),
        ) == variable_of(l) && holds(a, trail_literal(a, variable_of(l))),
{
}

/// Literals of one variable that both fail are the same literal.
pub proof fn lemma_same_variable(a: Seq<VariableState>, x: Literal, y: Literal)
    requires
        variable_of(x) == variable_of(y),
    ensures
        fails(a, x) && fails(a, y) ==> x == y,
        holds(a, x) && holds(a, y) ==> x == y,
        x != y ==> (x >= 0) != (y >= 0),
{
}

/// Forcing an open literal by a clause whose other literals all fail keeps
/// the trail sound.
pub proof fn lemma_sound_after_propagate(
    n: nat,
    f: Seq<Seq<Literal>>,
    a: Seq<VariableState>,
    e: Entries,
    l: Literal,
    r: usize,
)
    requires
        sound(n, f, a, e),
        open_in(a, l),
        r < f.len(),
        f[r as int].contains(l),
        forall|p: int|
            0 <= p < f[r as int].len() && #[trigger] f[r as int][p] != l ==> fails(
                a,
                f[r as int][p],
            ),
        anchored(f[r as int], a, l, e.len() - 1),
    ensures
        sound(n, f, assign(a, l, e.len() - 1), forced(e, l, r)),
{
    let top = e.len() - 1;
    let v = variable_of(l);
    let a2 = assign(a, l, top);
    let e2 = forced(e, l, r);
    let last = e[top].len() as int;
    lemma_trail_bounds(a, e);
    lemma_propagate_keeps_wf(a, e, v as usize, state_for(l, top as usize), r);
    assert(e.last() == e[top]);
    assert(e2[top] == e[top].push((v as usize, Some(r))));
    assert(trail_literal(a2, v) == l);
    assert forall|k: int, i: int| 0 <= k < e2.len() && 0 <= i < e2[k].len() implies #[trigger] reason_ok(
        f,
        a2,
        e2,
        k,
        i,
    ) by {
        if k == top && i == last {
            assert forall|p: int|
                0 <= p < f[r as int].len() && #[trigger] f[r as int][p] != l implies fails(
                a2,
                f[r as int][p],
            ) && level_of(a2, f[r as int][p]) <= k && !listed_from(
                e2[k],
                i,
                variable_of(f[r as int][p]),
            ) by {
                let x = f[r as int][p];
                assert(fails(a, x));
                assert(variable_of(x) != v);
                assert(a[variable_of(x)].level() < e.len());
            }
        } else {
            assert(e2[k][i] == e[k][i]);
            assert(reason_ok(f, a, e, k, i));
            let u = e[k][i].0 as int;
            assert(u != v);
            if e[k][i].1 is Some {
                let rr = e[k][i].1->0 as int;
                assert(trail_literal(a2, u) == trail_literal(a, u));
                assert forall|p: int|
                    0 <= p < f[rr].len() && #[trigger] f[rr][p] != trail_literal(
                        a2,
                        u,
                    ) implies fails(a2, f[rr][p]) && level_of(a2, f[rr][p]) <= k && !listed_from(
                    e2[k],
                    i,
                    variable_of(f[rr][p]),
                ) by {
                    let x = f[rr][p];
                    assert(fails(a, x));
                    assert(variable_of(x) != v);
                    assert(!listed_from(e[k], i, variable_of(x)));
                    if listed_from(e2[k], i, variable_of(x)) {
                        let j = choose|j: int|
                            i <= j < e2[k].len() && (#[trigger] e2[k][j]).0 == variable_of(x);
                        if k == top && j == last {
                        } else {
                            assert(e2[k][j] == e[k][j]);
                            assert(listed_from(e[k], i, variable_of(x)));
                        }
                    }
                }
            }
        }
    }
}

/// Opening a level with a decision keeps the trail sound.
pub proof fn lemma_sound_after_decide(
    n: nat,
    f: Seq<Seq<Literal>>,
    a: Seq<VariableState>,
    e: Entries,
    l: Literal,
)
    requires
        sound(n, f, a, e),
        open_in(a, l),
    ensures
        sound(n, f, assign(a, l, e.len() as int), opened(e, l)),
{
    let top = e.len() as int;
    let v = variable_of(l);
    let a2 = assign(a, l, top);
    let e2 = opened(e, l);
    lemma_trail_bounds(a, e);
    lemma_decide_keeps_wf(a, e, v as usize, state_for(l, top as usize));
    assert forall|k: int, i: int| 0 <= k < e2.len() && 0 <= i < e2[k].len() implies #[trigger] reason_ok(
        f,
        a2,
        e2,
        k,
        i,
    ) by {
        if k < top {
            assert(e2[k][i] == e[k][i]);
            assert(reason_ok(f, a, e, k, i));
            let u = e[k][i].0 as int;
            assert(u != v);
            if e[k][i].1 is Some {
                let rr = e[k][i].1->0 as int;
                assert(trail_literal(a2, u) == trail_literal(a, u));
                assert forall|p: int|
                    0 <= p < f[rr].len() && #[trigger] f[rr][p] != trail_literal(
                        a2,
                        u,
                    ) implies fails(a2, f[rr][p]) && level_of(a2, f[rr][p]) <= k && !listed_from(
                    e2[k],
                    i,
                    variable_of(f[rr][p]),
                ) by {
                    let x = f[rr][p];
                    assert(fails(a, x));
                    assert(variable_of(x) != v);
                }
            }
        }
    }
}

/// Dropping levels keeps the trail sound.
pub proof fn lemma_sound_after_backjump(
    n: nat,
    f: Seq<Seq<Literal>>,
    a: Seq<VariableState>,
    e: Entries,
    level: int,
)
    requires
        sound(n, f, a, e),
        0 <= level < e.len(),
    ensures
        sound(n, f, released(a, level), e.take(level + 1)),
{
    let a2 = released(a, level);
    let e2 = e.take(level + 1);
    lemma_backjump_keeps_wf(a, e, a2, level);
    assert forall|k: int, i: int| 0 <= k < e2.len() && 0 <= i < e2[k].len() implies #[trigger] reason_ok(
        f,
        a2,
        e2,
        k,
        i,
    ) by {
        assert(e2[k][i] == e[k][i]);
        assert(reason_ok(f, a, e, k, i));
        let u = e[k][i].0 as int;
        assert(a2[u] == a[u]);
        if e[k][i].1 is Some {
            let rr = e[k][i].1->0 as int;
            assert forall|p: int|
                0 <= p < f[rr].len() && #[trigger] f[rr][p] != trail_literal(a2, u) implies fails(
                a2,
                f[rr][p],
            ) && level_of(a2, f[rr][p]) <= k && !listed_from(e2[k], i, variable_of(f[rr][p])) by {
                let x = f[rr][p];
                assert(fails(a, x));
                assert(level_of(a, x) <= k);
                assert(a2[variable_of(x)] == a[variable_of(x)]);
            }
        }
    }
}

/// A new clause over the same variables keeps the trail sound.
pub proof fn lemma_sound_with_clause(
    n: nat,
    f: Seq<Seq<Literal>>,
    a: Seq<VariableState>,
    e: Entries,
    clause: Seq<Literal>,
)
    requires
        sound(n, f, a, e),
        clause_in_range(clause, n as int),
    ensures
        sound(n, f.push(clause), a, e),
{
    let f2 = f.push(clause);
    assert forall|c: int| 0 <= c < f2.len() implies clause_in_range(#[trigger] f2[c], n as int) by {
        if c < f.len() {
            assert(f2[c] == f[c]);
        }
    }
    assert forall|k: int, i: int| 0 <= k < e.len() && 0 <= i < e[k].len() implies #[trigger] reason_ok(
        f2,
        a,
        e,
        k,
        i,
    ) by {
        assert(reason_ok(f, a, e, k, i));
        if e[k][i].1 is Some {
            let rr = e[k][i].1->0 as int;
            assert(f2[rr] == f[rr]);
        }
    }
}

/// A clause entailed by a formula whose clauses all follow from `given`
/// follows from `given`.
pub proof fn lemma_derived_push(
    given: Seq<Seq<Literal>>,
    n: nat,
    f: Seq<Seq<Literal>>,
    clause: Seq<Literal>,
)
    requires
        derived(given, n, f),
        entails(f, n, clause),
    ensures
        derived(given, n, f.push(clause)),
{
    let f2 = f.push(clause);
    assert forall|model: Seq<bool>|
        model.len() == n && #[trigger] satisfies(model, given) implies satisfies_clause(
        model,
        clause,
    ) by {
        assert forall|c: int| 0 <= c < f.len() implies satisfies_clause(model, #[trigger] f[c]) by {
            assert(entails(given, n, f[c]));
        }
        assert(satisfies(model, f));
    }
    assert forall|c: int| 0 <= c < f2.len() implies entails(given, n, #[trigger] f2[c]) by {
        if c < f.len() {
            assert(f2[c] == f[c]);
        }
    }
}

/// What the ground level is forced to stays forced when the ground level and
/// its variables' values stay.
pub proof fn lemma_ground_frame(
    given: Seq<Seq<Literal>>,
    n: nat,
    a: Seq<VariableState>,
    e: Entries,
    a2: Seq<VariableState>,
    e2: Entries,
)
    requires
        ground_forced(given, n, a, e),
        e2[0] == e[0],
        forall|i: int| 0 <= i < e[0].len() ==> a2[(#[trigger] e[0][i]).0 as int] == a[e[0][i].0 as int],
    ensures
        ground_forced(given, n, a2, e2),
{
    assert forall|model: Seq<bool>|
        model.len() == n && #[trigger] satisfies(model, given) implies agrees_at_ground(
        model,
        a2,
        e2,
    ) by {
        assert(agrees_at_ground(model, a, e));
        assert forall|i: int| 0 <= i < e2[0].len() implies satisfies_literal(
            model,
            trail_literal(a2, (#[trigger] e2[0][i]).0 as int),
        ) by {
            assert(satisfies_literal(model, trail_literal(a, e[0][i].0 as int)));
        }
    }
}

/// A model that agrees with the ground level satisfies no literal that fails
/// at the ground level.
pub proof fn lemma_ground_refutes(
    model: Seq<bool>,
    a: Seq<VariableState>,
    e: Entries,
    x: Literal,
)
    requires
        well_formed(a, e),
        a.len() <= isize::MAX,
        model.len() == a.len(),
        agrees_at_ground(model, a, e),
        fails(a, x),
        level_of(a, x) == 0,
    ensures
        !satisfies_literal(model, x),
{
    let v = variable_of(x);
    assert(listed_from(e[0], 0, v));
    let i = choose|i: int| 0 <= i < e[0].len() && (#[trigger] e[0][i]).0 == v;
    assert(satisfies_literal(model, trail_literal(a, e[0][i].0 as int)));
}

/// A literal forced at the ground level by a clause that follows from `given`
/// holds in every model of `given`.
pub proof fn lemma_ground_after_propagate(
    given: Seq<Seq<Literal>>,
    n: nat,
    f: Seq<Seq<Literal>>,
    a: Seq<VariableState>,
    e: Entries,
    l: Literal,
    r: usize,
)
    requires
        sound(n, f, a, e),
        ground_forced(given, n, a, e),
        e.len() == 1,
        open_in(a, l),
        r < f.len(),
        entails(given, n, f[r as int]),
        forall|p: int|
            0 <= p < f[r as int].len() && #[trigger] f[r as int][p] != l ==> fails(
                a,
                f[r as int][p],
            ),
    ensures
        ground_forced(given, n, assign(a, l, 0), forced(e, l, r)),
{
    let a2 = assign(a, l, 0);
    let e2 = forced(e, l, r);
    let last = e[0].len() as int;
    assert(e.last() == e[0]);
    assert(e2[0] == e[0].push((variable_of(l) as usize, Some(r))));
    assert forall|model: Seq<bool>|
        model.len() == n && #[trigger] satisfies(model, given) implies agrees_at_ground(
        model,
        a2,
        e2,
    ) by {
        assert(agrees_at_ground(model, a, e));
        assert(satisfies_clause(model, f[r as int]));
        let p = choose|p: int|
            0 <= p < f[r as int].len() && satisfies_literal(model, #[trigger] f[r as int][p]);
        if f[r as int][p] != l {
            assert(a[variable_of(f[r as int][p])].level() < e.len());
            lemma_ground_refutes(model, a, e, f[r as int][p]);
        }
        assert forall|i: int| 0 <= i < e2[0].len() implies satisfies_literal(
            model,
            trail_literal(a2, (#[trigger] e2[0][i]).0 as int),
        ) by {
            if i < last {
                assert(e2[0][i] == e[0][i]);
                assert(satisfies_literal(model, trail_literal(a, e[0][i].0 as int)));
                assert(e[0][i].0 != variable_of(l));
            } else {
                assert(trail_literal(a2, variable_of(l)) == l);
            }
        }
    }
}

/// A clause that follows from `given` and fails at the ground level shows
/// that `given` has no model.
pub proof fn lemma_ground_conflict(
    given: Seq<Seq<Literal>>,
    n: nat,
    clause: Seq<Literal>,
    a: Seq<VariableState>,
    e: Entries,
)
    requires
        well_formed(a, e),
        a.len() == n,
        n <= isize::MAX,
        ground_forced(given, n, a, e),
        e.len() == 1,
        entails(given, n, clause),
        forall|p: int| 0 <= p < clause.len() ==> fails(a, #[trigger] clause[p]),
    ensures
        unsatisfiable(given, n),
{
    assert forall|model: Seq<bool>| model.len() == n implies !#[trigger] satisfies(
        model,
        given,
    ) by {
        if satisfies(model, given) {
            assert(agrees_at_ground(model, a, e));
            assert(satisfies_clause(model, clause));
            let p = choose|p: int|
                0 <= p < clause.len() && satisfies_literal(model, #[trigger] clause[p]);
            assert(a[variable_of(clause[p])].level() < e.len());
            lemma_ground_refutes(model, a, e, clause[p]);
        }
    }
}

/// What a model has to own up to for the variables in `need`: every decision
/// among them holds in the model, and every forced one holds in it or was
/// forced by a clause all of whose other variables are in `need` too.
pub open spec fn answerable(
    f: Seq<Seq<Literal>>,
    a: Seq<VariableState>,
    e: Entries,
    model: Seq<bool>,
    need: Set<int>,
) -> bool {
    forall|k: int, i: int|
        0 <= k < e.len() && 0 <= i < e[k].len() && need.contains((#[trigger] e[k][i]).0 as int)
            ==> satisfies_literal(model, trail_literal(a, e[k][i].0 as int)) || (e[k][i].1 is Some
            && forall|p: int|
            0 <= p < f[e[k][i].1->0 as int].len() && #[trigger] f[e[k][i].1->0 as int][p]
                != trail_literal(a, e[k][i].0 as int) ==> need.contains(
                variable_of(f[e[k][i].1->0 as int][p]),
            ))
}

/// A model of the formula that owns up to `need` agrees with the trail on
/// every variable in `need`: what forced a variable was itself forced or
/// decided before it.
pub proof fn lemma_closure(
    f: Seq<Seq<Literal>>,
    n: nat,
    a: Seq<VariableState>,
    e: Entries,
    model: Seq<bool>,
    need: Set<int>,
    k: int,
    i: int,
)
    requires
        sound(n, f, a, e),
        model.len() == n,
        satisfies(model, f),
        answerable(f, a, e, model, need),
        0 <= k < e.len(),
        0 <= i < e[k].len(),
        need.contains(e[k][i].0 as int),
    ensures
        satisfies_literal(model, trail_literal(a, e[k][i].0 as int)),
    decreases k, i,
{
    let v = e[k][i].0 as int;
    let lit = trail_literal(a, v);
    if !satisfies_literal(model, lit) {
        assert(reason_ok(f, a, e, k, i));
        let r = e[k][i].1->0 as int;
        assert(satisfies_clause(model, f[r]));
        let p = choose|p: int| 0 <= p < f[r].len() && satisfies_literal(model, #[trigger] f[r][p]);
        let other = f[r][p];
        assert(other != lit);
        let u = variable_of(other);
        assert(fails(a, other));
        assert(need.contains(u));
        let k2 = a[u].level() as int;
        assert(listed_from(e[k2], 0, u));
        let i2 = choose|i2: int| 0 <= i2 < e[k2].len() && (#[trigger] e[k2][i2]).0 == u;
        if k2 == k && i2 >= i {
            assert(listed_from(e[k], i, u));
        }
        lemma_closure(f, n, a, e, model, need, k2, i2);
        lemma_trail_literal(a, other);
    }
}

/// A model of the formula that owns up to `need` satisfies no clause that
/// fails under the trail and speaks of variables in `need` only.
pub proof fn lemma_closure_refutes(
    f: Seq<Seq<Literal>>,
    n: nat,
    a: Seq<VariableState>,
    e: Entries,
    model: Seq<bool>,
    need: Set<int>,
    clause: Seq<Literal>,
)
    requires
        sound(n, f, a, e),
        model.len() == n,
        satisfies(model, f),
        answerable(f, a, e, model, need),
        forall|p: int|
            0 <= p < clause.len() ==> fails(a, #[trigger] clause[p]) && need.contains(
                variable_of(clause[p]),
            ),
    ensures
        !satisfies_clause(model, clause),
{
    if satisfies_clause(model, clause) {
        let p = choose|p: int| 0 <= p < clause.len() && satisfies_literal(model, #[trigger] clause[p]);
        let u = variable_of(clause[p]);
        assert(fails(a, clause[p]));
        let k = a[u].level() as int;
        assert(listed_from(e[k], 0, u));
        let i = choose|i: int| 0 <= i < e[k].len() && (#[trigger] e[k][i]).0 == u;
        lemma_closure(f, n, a, e, model, need, k, i);
        lemma_trail_literal(a, clause[p]);
    }
}

} // verus!
