//! Why each step of the engine keeps the watch scheme coherent.
use crate::cdcl::model::in_range;
use crate::cdcl::propagation::progress::lemma_trail_bounds;
use crate::cdcl::propagation::soundness::{
    lemma_sound_after_backjump, lemma_sound_with_clause, sound,
    assign, backed, forced, lists_ok, opened, released, settled, status_ok, trail_literal,
    watch_inv, Entries,
};
use crate::cdcl::propagation::trail::{
    fails, holds, level_of, listed_from, negation, open_in, slot, variable_of, well_formed,
    ClauseType, Literal, VariableState,
};
use vstd::prelude::*;

verus! {

/// Two literals share a watch list only if they are the same literal.
pub proof fn lemma_slot(x: Literal, y: Literal)
    ensures
        slot(x) == slot(y) <==> x == y,
        0 <= slot(x) < 2 * (variable_of(x) + 1),
{
}

/// A new assignment leaves untouched what was known of assigned literals.
pub proof fn lemma_assign_keeps(a: Seq<VariableState>, l: Literal, level: int, x: Literal)
    requires
        open_in(a, l),
        0 <= level <= usize::MAX,
        variable_of(x) < a.len(),
    ensures
        holds(a, x) ==> holds(assign(a, l, level), x) && level_of(assign(a, l, level), x)
            == level_of(a, x),
        fails(a, x) ==> fails(assign(a, l, level), x) && level_of(assign(a, l, level), x)
            == level_of(a, x),
        variable_of(x) != variable_of(l) ==> (holds(assign(a, l, level), x) <==> holds(a, x))
            && (fails(assign(a, l, level), x) <==> fails(a, x)) && level_of(
            assign(a, l, level),
            x,
        ) == level_of(a, x),
        holds(assign(a, l, level), l),
        level_of(assign(a, l, level), l) == level,
{
}

/// What backs a watched literal keeps backing it after a new assignment.
pub proof fn lemma_backed_keeps(
    a: Seq<VariableState>,
    l: Literal,
    level: int,
    clause: Seq<Literal>,
    w: Literal,
)
    requires
        open_in(a, l),
        0 <= level <= usize::MAX,
        backed(a, clause, w),
        fails(a, w),
    ensures
        backed(assign(a, l, level), clause, w),
{
    let p = choose|p: int|
        0 <= p < clause.len() && holds(a, #[trigger] clause[p]) && level_of(a, clause[p])
            <= level_of(a, w);
    lemma_assign_keeps(a, l, level, clause[p]);
    lemma_assign_keeps(a, l, level, w);
}

/// Forcing an open literal at the top level keeps the watch scheme coherent.
pub proof fn lemma_watch_after_propagate(
    f: Seq<Seq<Literal>>,
    a: Seq<VariableState>,
    e: Entries,
    kinds: Seq<ClauseType>,
    lists: Seq<Seq<usize>>,
    done: int,
    scanned: int,
    l: Literal,
    r: usize,
)
    requires
        watch_inv(f, a, e, kinds, lists, done, scanned),
        sound(a.len(), f, a, e),
        open_in(a, l),
    ensures
        watch_inv(
            f,
            assign(a, l, e.len() - 1),
            forced(e, l, r),
            kinds,
            lists,
            done,
            scanned,
        ),
{
    let top = e.len() - 1;
    let a2 = assign(a, l, top);
    let e2 = forced(e, l, r);
    lemma_trail_bounds(a, e);
    assert(e2.last() == e.last().push((variable_of(l) as usize, Some(r))));
    assert forall|c: int| 0 <= c < scanned implies #[trigger] status_ok(
        f,
        a2,
        e2,
        kinds,
        lists,
        done,
        c,
    ) by {
        assert(status_ok(f, a, e, kinds, lists, done, c));
        match kinds[c] {
            ClauseType::Satisfied => {
                let p = choose|p: int|
                    0 <= p < f[c].len() && holds(a, #[trigger] f[c][p]) && level_of(a, f[c][p])
                        == 0;
                lemma_assign_keeps(a, l, top, f[c][p]);
            },
            ClauseType::Unit(x) => {
                lemma_assign_keeps(a, l, top, x);
            },
            ClauseType::Watched(x, y) => {
                lemma_settled_before(a, e, done, l, r, x);
                lemma_settled_before(a, e, done, l, r, y);
                if settled(a2, e2, done, x) {
                    lemma_backed_keeps(a, l, top, f[c], x);
                }
                if settled(a2, e2, done, y) {
                    lemma_backed_keeps(a, l, top, f[c], y);
                }
            },
            _ => {},
        }
    }
}

/// A literal settled after a propagation was settled before it.
pub proof fn lemma_settled_before(
    a: Seq<VariableState>,
    e: Entries,
    done: int,
    l: Literal,
    r: usize,
    w: Literal,
)
    requires
        1 <= e.len() <= usize::MAX,
        open_in(a, l),
        0 <= done <= e.last().len(),
    ensures
        settled(assign(a, l, e.len() - 1), forced(e, l, r), done, w) ==> settled(a, e, done, w),
{
    let e2 = forced(e, l, r);
    let last = e.last().len() as int;
    assert(e2.last() == e.last().push((variable_of(l) as usize, Some(r))));
    if variable_of(w) == variable_of(l) {
        assert(e2.last()[last].0 == variable_of(w));
        assert(listed_from(e2.last(), done, variable_of(w)));
    }
    if listed_from(e.last(), done, variable_of(w)) {
        let j = choose|j: int|
            done <= j < e.last().len() && (#[trigger] e.last()[j]).0 == variable_of(w);
        assert(e2.last()[j] == e.last()[j]);
        assert(listed_from(e2.last(), done, variable_of(w)));
    }
}

/// Opening a level keeps the watch scheme coherent, with nothing of the new
/// level looked at yet.
pub proof fn lemma_watch_after_decide(
    f: Seq<Seq<Literal>>,
    a: Seq<VariableState>,
    e: Entries,
    kinds: Seq<ClauseType>,
    lists: Seq<Seq<usize>>,
    scanned: int,
    l: Literal,
)
    requires
        watch_inv(f, a, e, kinds, lists, e.last().len() as int, scanned),
        sound(a.len(), f, a, e),
        open_in(a, l),
    ensures
        watch_inv(f, assign(a, l, e.len() as int), opened(e, l), kinds, lists, 0, scanned),
{
    let a2 = assign(a, l, e.len() as int);
    let e2 = opened(e, l);
    let done = e.last().len() as int;
    lemma_trail_bounds(a, e);
    assert(e2.last() == seq![(variable_of(l) as usize, None::<usize>)]);
    assert forall|w: Literal| settled(a2, e2, 0, w) implies settled(a, e, done, w) by {
        if variable_of(w) == variable_of(l) {
            assert(e2.last()[0].0 == variable_of(w));
            assert(listed_from(e2.last(), 0, variable_of(w)));
        }
    }
    assert forall|c: int| 0 <= c < scanned implies #[trigger] status_ok(
        f,
        a2,
        e2,
        kinds,
        lists,
        0,
        c,
    ) by {
        assert(status_ok(f, a, e, kinds, lists, done, c));
        match kinds[c] {
            ClauseType::Satisfied => {
                let p = choose|p: int|
                    0 <= p < f[c].len() && holds(a, #[trigger] f[c][p]) && level_of(a, f[c][p])
                        == 0;
                lemma_assign_keeps(a, l, e.len() as int, f[c][p]);
            },
            ClauseType::Unit(x) => {
                lemma_assign_keeps(a, l, e.len() as int, x);
            },
            ClauseType::Watched(x, y) => {
                if settled(a2, e2, 0, x) {
                    lemma_backed_keeps(a, l, e.len() as int, f[c], x);
                }
                if settled(a2, e2, 0, y) {
                    lemma_backed_keeps(a, l, e.len() as int, f[c], y);
                }
            },
            _ => {},
        }
    }
}

/// Dropping the levels above `level`, which is below the top, keeps the watch
/// scheme coherent, with all of the new top level looked at.
pub proof fn lemma_watch_after_backjump(
    f: Seq<Seq<Literal>>,
    a: Seq<VariableState>,
    e: Entries,
    kinds: Seq<ClauseType>,
    lists: Seq<Seq<usize>>,
    done: int,
    scanned: int,
    level: int,
)
    requires
        watch_inv(f, a, e, kinds, lists, done, scanned),
        sound(a.len(), f, a, e),
        0 <= level < e.len() - 1,
    ensures
        watch_inv(
            f,
            released(a, level),
            e.take(level + 1),
            kinds,
            lists,
            e[level].len() as int,
            scanned,
        ),
{
    let a2 = released(a, level);
    let e2 = e.take(level + 1);
    assert(e2.last() == e[level]);
    assert forall|x: Literal| holds(a, x) && level_of(a, x) <= level implies holds(a2, x)
        && level_of(a2, x) == level_of(a, x) by {}
    assert forall|w: Literal| fails(a2, w) implies settled(a, e, done, w) && level_of(a, w)
        <= level && level_of(a2, w) == level_of(a, w) by {
        if listed_from(e.last(), done, variable_of(w)) {
            let j = choose|j: int|
                done <= j < e.last().len() && (#[trigger] e.last()[j]).0 == variable_of(w);
            assert(e[e.len() - 1][j].0 == variable_of(w));
        }
    }
    assert forall|c: int| 0 <= c < scanned implies #[trigger] status_ok(
        f,
        a2,
        e2,
        kinds,
        lists,
        e[level].len() as int,
        c,
    ) by {
        assert(status_ok(f, a, e, kinds, lists, done, c));
        match kinds[c] {
            ClauseType::Satisfied => {
                let p = choose|p: int|
                    0 <= p < f[c].len() && holds(a, #[trigger] f[c][p]) && level_of(a, f[c][p])
                        == 0;
                assert(holds(a2, f[c][p]));
            },
            ClauseType::Unit(x) => {},
            ClauseType::Watched(x, y) => {
                if fails(a2, x) {
                    let p = choose|p: int|
                        0 <= p < f[c].len() && holds(a, #[trigger] f[c][p]) && level_of(
                            a,
                            f[c][p],
                        ) <= level_of(a, x);
                    assert(holds(a2, f[c][p]));
                }
                if fails(a2, y) {
                    let p = choose|p: int|
                        0 <= p < f[c].len() && holds(a, #[trigger] f[c][p]) && level_of(
                            a,
                            f[c][p],
                        ) <= level_of(a, y);
                    assert(holds(a2, f[c][p]));
                }
            },
            _ => {},
        }
    }
}

/// The lists after clause `c` was added to the list of `x`.
pub open spec fn with_watch(lists: Seq<Seq<usize>>, x: Literal, c: usize) -> Seq<Seq<usize>> {
    lists.update(slot(x), lists[slot(x)].push(c))
}

/// Adding a watched clause to a list keeps every membership.
pub proof fn lemma_with_watch(lists: Seq<Seq<usize>>, x: Literal, c: usize, j: int, d: usize)
    requires
        0 <= slot(x) < lists.len(),
        0 <= j < lists.len(),
    ensures
        lists[j].contains(d) ==> with_watch(lists, x, c)[j].contains(d),
        with_watch(lists, x, c)[slot(x)].contains(c),
        with_watch(lists, x, c).len() == lists.len(),
{
    let l2 = with_watch(lists, x, c);
    if lists[j].contains(d) {
        let i = choose|i: int| 0 <= i < lists[j].len() && lists[j][i] == d;
        assert(l2[j][i] == d);
    }
    assert(l2[slot(x)][lists[slot(x)].len() as int] == c);
}

/// The lists `after` hold all that `before` held, and beyond that only `c`.
pub open spec fn grown_by(before: Seq<Seq<usize>>, after: Seq<Seq<usize>>, c: usize) -> bool {
    &&& after.len() == before.len()
    &&& forall|j: int, d: usize|
        0 <= j < before.len() && before[j].contains(d) ==> #[trigger] after[j].contains(d)
    &&& forall|j: int, i: int|
        0 <= j < after.len() && 0 <= i < after[j].len() ==> (#[trigger] after[j][i]) == c
            || before[j].contains(after[j][i])
}

/// Listing `c` once more keeps the lists grown by nothing but `c`.
pub proof fn lemma_grown_by_watch(
    before: Seq<Seq<usize>>,
    mid: Seq<Seq<usize>>,
    x: Literal,
    c: usize,
)
    requires
        grown_by(before, mid, c),
        0 <= slot(x) < mid.len(),
    ensures
        grown_by(before, with_watch(mid, x, c), c),
        with_watch(mid, x, c)[slot(x)].contains(c),
        forall|j: int| 0 <= j < mid.len() && mid[j].contains(c) ==> #[trigger] with_watch(mid, x, c)[j].contains(c),
{
    let after = with_watch(mid, x, c);
    assert forall|j: int, d: usize| 0 <= j < mid.len() && mid[j].contains(d) implies #[trigger] after[j].contains(
        d,
    ) by {
        lemma_with_watch(mid, x, c, j, d);
    }
    lemma_with_watch(mid, x, c, slot(x), c);
    assert forall|j: int, i: int| 0 <= j < after.len() && 0 <= i < after[j].len() implies (
    #[trigger] after[j][i]) == c || before[j].contains(after[j][i]) by {
        if j == slot(x) && i == mid[j].len() {
        } else {
            assert(after[j][i] == mid[j][i]);
        }
    }
}

/// Recording a fitting state for clause `c`, which is one already scanned or
/// the next to scan, and listing it with what it watches, keeps the watch
/// scheme coherent.
pub proof fn lemma_watch_set(
    f: Seq<Seq<Literal>>,
    a: Seq<VariableState>,
    e: Entries,
    kinds: Seq<ClauseType>,
    lists: Seq<Seq<usize>>,
    done: int,
    scanned: int,
    c: usize,
    kind: ClauseType,
    lists2: Seq<Seq<usize>>,
)
    requires
        watch_inv(f, a, e, kinds, lists, done, scanned),
        in_range(f, a.len() as int),
        c <= scanned,
        c < f.len(),
        c == scanned || kind is Watched,
        grown_by(lists, lists2, c),
        kind is Watched || lists2 == lists,
        status_ok(f, a, e, kinds.update(c as int, kind), lists2, done, c as int),
    ensures
        watch_inv(
            f,
            a,
            e,
            kinds.update(c as int, kind),
            lists2,
            done,
            if c == scanned {
                scanned + 1
            } else {
                scanned
            },
        ),
{
    let kinds2 = kinds.update(c as int, kind);
    let scanned2 = if c == scanned {
        scanned + 1
    } else {
        scanned
    };
    assert forall|d: int| 0 <= d < scanned2 implies #[trigger] status_ok(
        f,
        a,
        e,
        kinds2,
        lists2,
        done,
        d,
    ) by {
        if d != c {
            assert(status_ok(f, a, e, kinds, lists, done, d));
            match kinds[d] {
                ClauseType::Watched(u, v) => {
                    let pu = choose|p: int| 0 <= p < f[d].len() && f[d][p] == u;
                    let pv = choose|p: int| 0 <= p < f[d].len() && f[d][p] == v;
                    assert(variable_of(f[d][pu]) < a.len());
                    assert(variable_of(f[d][pv]) < a.len());
                    assert(lists2[slot(u)].contains(d as usize));
                    assert(lists2[slot(v)].contains(d as usize));
                },
                _ => {},
            }
        }
    }
    assert(lists_ok(f, kinds2, lists2)) by {
        assert forall|j: int, i: int| 0 <= j < lists2.len() && 0 <= i < lists2[j].len() implies (
        #[trigger] lists2[j][i]) < f.len() && kinds2[lists2[j][i] as int] is Watched by {
            let d = lists2[j][i];
            if d != c {
                assert(lists[j].contains(d));
                let q = choose|q: int| 0 <= q < lists[j].len() && lists[j][q] == d;
                assert(lists[j][q] < f.len());
            } else if !(kind is Watched) {
                assert(lists[j][i] == c);
                assert(kinds[lists[j][i] as int] is Watched);
            }
        }
    }
}

/// A new clause without a state yet keeps the watch scheme coherent.
pub proof fn lemma_watch_with_clause(
    f: Seq<Seq<Literal>>,
    a: Seq<VariableState>,
    e: Entries,
    kinds: Seq<ClauseType>,
    lists: Seq<Seq<usize>>,
    done: int,
    clause: Seq<Literal>,
)
    requires
        watch_inv(f, a, e, kinds, lists, done, f.len() as int),
        f.len() < usize::MAX,
    ensures
        watch_inv(
            f.push(clause),
            a,
            e,
            kinds.push(ClauseType::Unwatched),
            lists,
            done,
            f.len() as int,
        ),
{
    let f2 = f.push(clause);
    let kinds2 = kinds.push(ClauseType::Unwatched);
    assert forall|d: int| 0 <= d < f.len() implies #[trigger] status_ok(
        f2,
        a,
        e,
        kinds2,
        lists,
        done,
        d,
    ) by {
        assert(status_ok(f, a, e, kinds, lists, done, d));
        assert(f2[d] == f[d]);
    }
    assert(lists_ok(f2, kinds2, lists)) by {
        assert forall|j: int, i: int| 0 <= j < lists.len() && 0 <= i < lists[j].len() implies (
        #[trigger] lists[j][i]) < f2.len() && kinds2[lists[j][i] as int] is Watched by {
            assert(lists[j][i] < f.len());
        }
    }
}

/// The lists after entry `i` was taken out of the list of `w` by moving the
/// last entry into its place.
pub open spec fn without_watch(lists: Seq<Seq<usize>>, w: Literal, i: int) -> Seq<Seq<usize>> {
    lists.update(slot(w), lists[slot(w)].update(i, lists[slot(w)].last()).drop_last())
}

/// Taking a clause that no longer watches `w` out of the list of `w` keeps
/// the watch scheme coherent.
pub proof fn lemma_watch_dropped(
    f: Seq<Seq<Literal>>,
    a: Seq<VariableState>,
    e: Entries,
    kinds: Seq<ClauseType>,
    lists: Seq<Seq<usize>>,
    done: int,
    scanned: int,
    w: Literal,
    i: int,
)
    requires
        watch_inv(f, a, e, kinds, lists, done, scanned),
        in_range(f, a.len() as int),
        0 <= slot(w) < lists.len(),
        0 <= i < lists[slot(w)].len(),
        kinds[lists[slot(w)][i] as int] matches ClauseType::Watched(x, y) && x != w && y != w,
    ensures
        watch_inv(f, a, e, kinds, without_watch(lists, w, i), done, scanned),
{
    let l2 = without_watch(lists, w, i);
    let old_list = lists[slot(w)];
    let gone = old_list[i];
    assert forall|d: usize| old_list.contains(d) && d != gone implies l2[slot(w)].contains(d) by {
        let q = choose|q: int| 0 <= q < old_list.len() && old_list[q] == d;
        if q == old_list.len() - 1 {
            assert(l2[slot(w)][i] == d);
        } else {
            assert(l2[slot(w)][q] == d);
        }
    }
    assert forall|d: int| 0 <= d < scanned implies #[trigger] status_ok(
        f,
        a,
        e,
        kinds,
        l2,
        done,
        d,
    ) by {
        assert(status_ok(f, a, e, kinds, lists, done, d));
        match kinds[d] {
            ClauseType::Watched(u, v) => {
                lemma_slot(u, w);
                lemma_slot(v, w);
                if u == w {
                    assert(old_list.contains(d as usize));
                    assert(d as usize != gone);
                    assert(l2[slot(w)].contains(d as usize));
                } else {
                    assert(l2[slot(u)] == lists[slot(u)]);
                }
                if v == w {
                    assert(old_list.contains(d as usize));
                    assert(d as usize != gone);
                    assert(l2[slot(w)].contains(d as usize));
                } else {
                    assert(l2[slot(v)] == lists[slot(v)]);
                }
            },
            _ => {},
        }
    }
    assert(lists_ok(f, kinds, l2)) by {
        assert forall|j: int, q: int| 0 <= j < l2.len() && 0 <= q < l2[j].len() implies (
        #[trigger] l2[j][q]) < f.len() && kinds[l2[j][q] as int] is Watched by {
            if j == slot(w) {
                if q == i {
                    assert(l2[j][q] == lists[j][old_list.len() - 1]);
                } else {
                    assert(l2[j][q] == lists[j][q]);
                }
            } else {
                assert(l2[j][q] == lists[j][q]);
            }
        }
    }
}

/// Once every clause that watches the literal falsified by the entry at
/// `done` is backed, that entry counts as looked at.
pub proof fn lemma_watch_advance(
    f: Seq<Seq<Literal>>,
    a: Seq<VariableState>,
    e: Entries,
    kinds: Seq<ClauseType>,
    lists: Seq<Seq<usize>>,
    done: int,
    scanned: int,
    w: Literal,
)
    requires
        watch_inv(f, a, e, kinds, lists, done, scanned),
        sound(a.len(), f, a, e),
        a.len() <= isize::MAX,
        done < e.last().len(),
        variable_of(w) == e.last()[done].0,
        fails(a, w),
        forall|c: int|
            0 <= c < scanned && (#[trigger] kinds[c] matches ClauseType::Watched(x, y) && (x == w
                || y == w)) ==> backed(a, f[c], w),
    ensures
        watch_inv(f, a, e, kinds, lists, done + 1, scanned),
{
    assert forall|z: Literal| settled(a, e, done + 1, z) && z != w implies settled(
        a,
        e,
        done,
        z,
    ) by {
        if listed_from(e.last(), done, variable_of(z)) {
            let j = choose|j: int|
                done <= j < e.last().len() && (#[trigger] e.last()[j]).0 == variable_of(z);
            if j == done {
            } else {
                assert(listed_from(e.last(), done + 1, variable_of(z)));
            }
        }
    }
    assert forall|c: int| 0 <= c < scanned implies #[trigger] status_ok(
        f,
        a,
        e,
        kinds,
        lists,
        done + 1,
        c,
    ) by {
        assert(status_ok(f, a, e, kinds, lists, done, c));
    }
}

/// The state recorded for a learned clause: it watches its second-deepest
/// literal and the one it asserts, or is a unit.
pub open spec fn learned_kind(second: Option<Literal>, uip: Literal) -> ClauseType {
    match second {
        Some(s) => ClauseType::Watched(s, uip),
        None => ClauseType::Unit(uip),
    }
}

/// The lists after a learned clause was listed with what it watches.
pub open spec fn learned_lists(
    lists: Seq<Seq<usize>>,
    second: Option<Literal>,
    uip: Literal,
    c: usize,
) -> Seq<Seq<usize>> {
    match second {
        Some(s) => with_watch(with_watch(lists, s, c), uip, c),
        None => lists,
    }
}

/// Jumping back to `back`, appending the learned clause and forcing the
/// literal it asserts keeps the watch scheme coherent, with the forced
/// literal the next entry to look at.
pub proof fn lemma_watch_after_learning(
    f: Seq<Seq<Literal>>,
    a: Seq<VariableState>,
    e: Entries,
    kinds: Seq<ClauseType>,
    lists: Seq<Seq<usize>>,
    done: int,
    clause: Seq<Literal>,
    uip: Literal,
    second: Option<Literal>,
    back: int,
)
    requires
        watch_inv(f, a, e, kinds, lists, done, f.len() as int),
        sound(a.len(), f, a, e),
        0 <= back < e.len() - 1,
        f.len() < usize::MAX,
        open_in(released(a, back), uip),
        clause.contains(uip),
        forall|p: int|
            0 <= p < clause.len() ==> variable_of(#[trigger] clause[p]) < a.len() && (clause[p]
                != uip ==> fails(released(a, back), clause[p])),
        second matches Some(s) ==> s != uip && clause.contains(s) && level_of(
            released(a, back),
            s,
        ) == back,
        second is None ==> back == 0,
    ensures
        watch_inv(
            f.push(clause),
            assign(released(a, back), uip, back),
            forced(e.take(back + 1), uip, f.len() as usize),
            kinds.push(learned_kind(second, uip)),
            learned_lists(lists, second, uip, f.len() as usize),
            e[back].len() as int,
            f.len() as int + 1,
        ),
{
    let a1 = released(a, back);
    let e1 = e.take(back + 1);
    let id = f.len() as usize;
    let f2 = f.push(clause);
    let k1 = kinds.push(ClauseType::Unwatched);
    let done1 = e[back].len() as int;
    assert(e1.last() == e[back]);
    lemma_trail_bounds(a, e);
    lemma_watch_after_backjump(f, a, e, kinds, lists, done, f.len() as int, back);
    lemma_sound_after_backjump(a.len(), f, a, e, back);
    lemma_watch_with_clause(f, a1, e1, kinds, lists, done1, clause);
    lemma_sound_with_clause(a.len(), f, a1, e1, clause);
    lemma_watch_after_propagate(f2, a1, e1, k1, lists, done1, f.len() as int, uip, id);
    let a3 = assign(a1, uip, back);
    let e3 = forced(e1, uip, id);
    let kind = learned_kind(second, uip);
    let lists2 = learned_lists(lists, second, uip, id);
    lemma_assign_keeps(a1, uip, back, uip);
    let pu = choose|p: int| 0 <= p < clause.len() && clause[p] == uip;
    assert(f2[id as int] == clause);
    match second {
        Some(s) => {
            lemma_grown_by_watch(lists, lists, s, id);
            lemma_grown_by_watch(lists, with_watch(lists, s, id), uip, id);
            let ps = choose|p: int| 0 <= p < clause.len() && clause[p] == s;
            assert(variable_of(clause[ps]) < a.len());
            assert(fails(a1, clause[ps]));
            lemma_assign_keeps(a1, uip, back, s);
            assert(holds(a3, clause[pu]));
            assert(backed(a3, clause, s));
            assert(!fails(a3, uip));
            assert(status_ok(f2, a3, e3, k1.update(id as int, kind), lists2, done1, id as int));
        },
        None => {
            assert(status_ok(f2, a3, e3, k1.update(id as int, kind), lists2, done1, id as int));
            assert(grown_by(lists, lists, id));
        },
    }
    lemma_watch_set(f2, a3, e3, k1, lists, done1, f.len() as int, id, kind, lists2);
    assert(k1.update(id as int, kind) =~= kinds.push(kind));
}

} // verus!
