//! Propagation, step by step: what looking at one entry of a watch list does
//! to the trail, the clause states and the watch lists.
use crate::cdcl::model::entails;
use crate::cdcl::propagation::soundness::{
    assign, asserting, forced, released, trail_literal, Entries,
};
use crate::cdcl::propagation::trail::{
    fails, level_of, negation, slot, ClauseType, Literal, VariableState,
};
use crate::cdcl::propagation::watching::{learned_kind, learned_lists, with_watch, without_watch};
use crate::cdcl::propagation::{classification, deepest_upto};
use vstd::prelude::*;

verus! {

/// The engine at one moment of propagation: the clauses, the assignment, the
/// levels, the states of the clauses and the watch lists, and the place
/// propagation has come to, which is entry `done` of the top level and
/// position `at` of the watch list of the literal that this entry made fail.
pub struct Moment {
    pub f: Seq<Seq<Literal>>,
    pub a: Seq<VariableState>,
    pub e: Entries,
    pub kinds: Seq<ClauseType>,
    pub lists: Seq<Seq<usize>>,
    pub done: int,
    pub at: int,
}

/// The moment after clause `c` has been looked at for the first time: it
/// gets its state; a clause with one open literal forces it; a clause with
/// two or more joins the lists of the first two.
pub open spec fn first_look(m: Moment, c: int) -> Moment {
    let kind = classification(m.a, m.f[c], None);
    let kinds = m.kinds.update(c, kind);
    match kind {
        ClauseType::Unit(forced_literal) => Moment {
            kinds,
            a: assign(m.a, forced_literal, m.e.len() - 1),
            e: forced(m.e, forced_literal, c as usize),
            ..m
        },
        ClauseType::Watched(x, y) => Moment {
            kinds,
            lists: with_watch(with_watch(m.lists, x, c as usize), y, c as usize),
            ..m
        },
        _ => Moment { kinds, ..m },
    }
}

/// The moment after the first `upto` clauses have been looked at for the
/// first time, in order.
pub open spec fn prepared(m: Moment, upto: int) -> Moment
    decreases upto,
{
    if upto <= 0 {
        m
    } else {
        first_look(prepared(m, upto - 1), upto - 1)
    }
}

/// Clause `c` fails when it is looked at for the first time, after the
/// clauses before it.
pub open spec fn fails_at_first(m: Moment, c: int) -> bool {
    classification(prepared(m, c).a, m.f[c], None) is Falsified
}

/// The literal that the entry being looked at made fail.
pub open spec fn failing(m: Moment) -> Literal {
    negation(trail_literal(m.a, m.e.last()[m.done].0 as int))
}

/// The clause at the position being looked at.
pub open spec fn in_hand(m: Moment) -> usize {
    m.lists[slot(failing(m))][m.at]
}

/// Of the two literals that the clause in hand watches, the one that is not
/// the failing literal.
pub open spec fn other_watch(m: Moment) -> Literal {
    match m.kinds[in_hand(m) as int] {
        ClauseType::Watched(x, y) => if x == failing(m) {
            y
        } else {
            x
        },
        _ => 0,
    }
}

/// The clause in hand no longer watches the failing literal.
pub open spec fn stale(m: Moment) -> bool {
    m.kinds[in_hand(m) as int] matches ClauseType::Watched(x, y) && x != failing(m) && y
        != failing(m)
}

/// What the clause in hand has come to, its other watch looked at first.
pub open spec fn verdict(m: Moment) -> ClauseType {
    classification(m.a, m.f[in_hand(m) as int], Some(other_watch(m)))
}

/// Nothing is left to look at.
pub open spec fn finished(m: Moment) -> bool {
    m.done == m.e.last().len() && m.at == 0
}

/// The clause in hand fails at the ground level.
pub open spec fn refuted(m: Moment) -> bool {
    &&& 0 <= m.done < m.e.last().len()
    &&& 0 <= m.at < m.lists[slot(failing(m))].len()
    &&& !stale(m)
    &&& verdict(m) is Falsified
    &&& m.e.len() == 1
}

/// Some clause has every literal failing.
pub open spec fn fails_outright(f: Seq<Seq<Literal>>, a: Seq<VariableState>) -> bool {
    exists|c: int| 0 <= c < f.len() && whole_fails(a, #[trigger] f[c])
}

/// Every literal of the clause fails.
pub open spec fn whole_fails(a: Seq<VariableState>, clause: Seq<Literal>) -> bool {
    forall|p: int| 0 <= p < clause.len() ==> fails(a, #[trigger] clause[p])
}

/// The lists after the clause in hand has moved its watches to `x` and `y`:
/// it joins the list of `y`, and that of `x` unless `x` is the failing
/// literal, whose list keeps it.
pub open spec fn moved_lists(m: Moment, x: Literal, y: Literal) -> Seq<Seq<usize>> {
    if x != failing(m) {
        with_watch(with_watch(m.lists, x, in_hand(m)), y, in_hand(m))
    } else {
        with_watch(m.lists, y, in_hand(m))
    }
}

/// The moment after `learned` has been learned from a clause that failed
/// above the ground level: the trail is cut back to the highest level of the
/// other literals of `learned`, the clause is appended, watching its two
/// deepest literals, and forces the literal it asserts, which is looked at
/// next.
pub open spec fn learnt(m: Moment, learned: Seq<Literal>) -> Moment {
    let uip = deepest_upto(m.a, learned, None, learned.len() as int)->0;
    let second = deepest_upto(m.a, learned, Some(uip), learned.len() as int);
    let back = match second {
        Some(s) => level_of(m.a, s),
        None => 0,
    };
    let id = m.f.len() as usize;
    Moment {
        f: m.f.push(learned),
        a: assign(released(m.a, back), uip, back),
        e: forced(m.e.take(back + 1), uip, id),
        kinds: m.kinds.push(learned_kind(second, uip)),
        lists: learned_lists(m.lists, second, uip, id),
        done: m.e[back].len() as int,
        at: 0,
    }
}

/// One step of propagation leads from `m` to `t`.
///
/// At the end of a watch list the next entry of the top level is taken up.
/// A clause that no longer watches the failing literal leaves the list, the
/// last clause of the list taking its place. Any other clause is classified
/// with its other watch first: a satisfied clause is passed over; a clause
/// with one open literal forces it; a clause with two open literals watches
/// these from now on; a clause that fails above the ground level is learned
/// from.
pub open spec fn examined(m: Moment, t: Moment) -> bool {
    &&& 0 <= m.done < m.e.last().len()
    &&& 0 <= m.at <= m.lists[slot(failing(m))].len()
    &&& if m.at == m.lists[slot(failing(m))].len() {
        t == (Moment { done: m.done + 1, at: 0, ..m })
    } else if stale(m) {
        t == (Moment { lists: without_watch(m.lists, failing(m), m.at), ..m })
    } else {
        match verdict(m) {
            ClauseType::Unwatched | ClauseType::Satisfied => t == (Moment { at: m.at + 1, ..m }),
            ClauseType::Unit(forced_literal) => t == (Moment {
                a: assign(m.a, forced_literal, m.e.len() - 1),
                e: forced(m.e, forced_literal, in_hand(m)),
                at: m.at + 1,
                ..m
            }),
            ClauseType::Watched(x, y) => t == (Moment {
                kinds: m.kinds.update(in_hand(m) as int, ClauseType::Watched(x, y)),
                lists: moved_lists(m, x, y),
                at: m.at + 1,
                ..m
            }),
            ClauseType::Falsified => m.e.len() >= 2 && exists|learned: Seq<Literal>|
                asserting(m.a, m.e, learned) && entails(m.f, m.a.len(), learned) && t
                    == #[trigger] learnt(m, learned),
        }
    }
}

/// The clauses `f` begin with the clauses `f0`, in order; what follows them
/// are clauses with a literal; and the trail, `d0` levels deep at first, is
/// as deep as it was if no clause has joined, and less deep if one has.
#[verifier::opaque]
pub open spec fn extended(f0: Seq<Seq<Literal>>, d0: int, f: Seq<Seq<Literal>>, d: int) -> bool {
    &&& f0.len() <= f.len()
    &&& forall|c: int| 0 <= c < f0.len() ==> #[trigger] f[c] == f0[c]
    &&& forall|c: int| f0.len() <= c < f.len() ==> (#[trigger] f[c]).len() > 0
    &&& f.len() == f0.len() ==> d == d0
    &&& f.len() > f0.len() ==> d < d0
}

/// One more clause learned, after a jump back, extends what was extended.
pub proof fn lemma_extended_on(
    f0: Seq<Seq<Literal>>,
    d0: int,
    f: Seq<Seq<Literal>>,
    d: int,
    f2: Seq<Seq<Literal>>,
    d2: int,
)
    requires
        extended(f0, d0, f, d),
        f2.len() == f.len() + 1,
        f2.drop_last() == f,
        f2.last().len() > 0,
        d2 < d,
    ensures
        extended(f0, d0, f2, d2),
{
    reveal(extended);
    assert forall|c: int| 0 <= c < f.len() implies f2[c] == f[c] by {
        assert(f2.drop_last()[c] == f2[c]);
    }
}

/// Each moment of the path leads to the next by one step of propagation.
pub open spec fn journey(path: Seq<Moment>) -> bool {
    &&& path.len() >= 1
    &&& forall|i: int| 0 <= i < path.len() - 1 ==> examined(#[trigger] path[i], path[i + 1])
}

/// A journey goes on by one more step.
pub proof fn lemma_journey_on(path: Seq<Moment>, next: Moment)
    requires
        journey(path),
        examined(path.last(), next),
    ensures
        journey(path.push(next)),
        path.push(next)[0] == path[0],
        path.push(next).last() == next,
{
    let longer = path.push(next);
    assert forall|i: int| 0 <= i < longer.len() - 1 implies examined(
        #[trigger] longer[i],
        longer[i + 1],
    ) by {
        if i < path.len() - 1 {
            assert(longer[i] == path[i]);
            assert(longer[i + 1] == path[i + 1]);
        }
    }
}

} // verus!
