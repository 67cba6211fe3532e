//! The trail read as one sequence, oldest entry first.
use crate::cdcl::propagation::soundness::{forced, opened, released, Entries};
use crate::cdcl::propagation::trail::{
    listed_from, state_after_backjump, variable_of, well_formed, Literal, Reason, Variable,
    VariableState,
};
use vstd::prelude::*;

verus! {

/// The number of entries in the first `k` levels.
pub open spec fn offset(e: Entries, k: int) -> int
    decreases k,
{
    if k <= 0 {
        0
    } else {
        offset(e, k - 1) + e[k - 1].len()
    }
}

/// All entries, level after level.
pub open spec fn flat(e: Entries) -> Seq<(Variable, Reason)>
    decreases e.len(),
{
    if e.len() == 0 {
        Seq::empty()
    } else {
        flat(e.drop_last()) + e.last()
    }
}

/// Trails whose first `k` levels are as long have as many entries in them.
pub proof fn lemma_offset_agrees(e: Entries, other: Entries, k: int)
    requires
        0 <= k <= e.len(),
        k <= other.len(),
        forall|j: int| 0 <= j < k ==> e[j].len() == other[j].len(),
    ensures
        offset(e, k) == offset(other, k),
    decreases k,
{
    if k > 0 {
        lemma_offset_agrees(e, other, k - 1);
    }
}

/// More levels hold no fewer entries.
pub proof fn lemma_offset_grows(e: Entries, j: int, k: int)
    requires
        0 <= j <= k,
    ensures
        0 <= offset(e, j) <= offset(e, k),
    decreases k,
{
    if j < k {
        lemma_offset_grows(e, j, k - 1);
    } else if k > 0 {
        lemma_offset_grows(e, j - 1, k - 1);
        lemma_offset_grows(e, 0, k - 1);
    }
}

/// The entry at place `i` of level `k` stands at `offset(e, k) + i`.
pub proof fn lemma_flat_at(e: Entries, k: int, i: int)
    requires
        0 <= k < e.len(),
        0 <= i < e[k].len(),
    ensures
        flat(e).len() == offset(e, e.len() as int),
        0 <= offset(e, k) + i < flat(e).len(),
        flat(e)[offset(e, k) + i] == e[k][i],
    decreases e.len(),
{
    let shorter = e.drop_last();
    lemma_flat_len(e);
    lemma_flat_len(shorter);
    lemma_offset_agrees(e, shorter, e.len() - 1);
    lemma_offset_grows(e, 0, k);
    if k < e.len() - 1 {
        lemma_flat_at(shorter, k, i);
        lemma_offset_agrees(e, shorter, k);
    }
}

/// The flat trail has as many entries as all levels together.
pub proof fn lemma_flat_len(e: Entries)
    ensures
        flat(e).len() == offset(e, e.len() as int),
    decreases e.len(),
{
    if e.len() > 0 {
        lemma_flat_len(e.drop_last());
        lemma_offset_agrees(e, e.drop_last(), e.len() - 1);
    }
}

/// Every place of the flat trail is a place of some level.
pub proof fn lemma_flat_find(e: Entries, p: int) -> (place: (int, int))
    requires
        0 <= p < flat(e).len(),
    ensures
        0 <= place.0 < e.len(),
        0 <= place.1 < e[place.0].len(),
        p == offset(e, place.0) + place.1,
        flat(e)[p] == e[place.0][place.1],
    decreases e.len(),
{
    let shorter = e.drop_last();
    lemma_flat_len(shorter);
    lemma_offset_agrees(e, shorter, e.len() - 1);
    if p < flat(shorter).len() {
        let place = lemma_flat_find(shorter, p);
        lemma_offset_agrees(e, shorter, place.0);
        place
    } else {
        (e.len() - 1, p - flat(shorter).len())
    }
}

/// Dropping levels keeps the head of the flat trail.
pub proof fn lemma_flat_take(e: Entries, levels: int)
    requires
        0 <= levels <= e.len(),
    ensures
        flat(e.take(levels)) == flat(e).take(offset(e, levels)),
        0 <= offset(e, levels) <= flat(e).len(),
    decreases e.len() - levels,
{
    lemma_flat_len(e);
    lemma_offset_grows(e, levels, e.len() as int);
    if levels == e.len() {
        assert(e.take(levels) =~= e);
        assert(flat(e).take(flat(e).len() as int) =~= flat(e));
    } else {
        lemma_flat_take(e, levels + 1);
        let longer = e.take(levels + 1);
        assert(longer.drop_last() =~= e.take(levels));
        assert(longer.last() == e[levels]);
        lemma_flat_len(e.take(levels));
        lemma_offset_agrees(e, e.take(levels), levels);
        assert(flat(longer) == flat(e.take(levels)) + e[levels]);
        assert(flat(e.take(levels)) =~= flat(longer).take(offset(e, levels)));
        assert(flat(longer).take(offset(e, levels)) =~= flat(e).take(offset(e, levels)));
    }
}

/// Every entry of the flat trail is a variable with a value, and no variable
/// has two entries.
pub proof fn lemma_flat_entries(a: Seq<VariableState>, e: Entries)
    requires
        well_formed(a, e),
    ensures
        forall|p: int|
            0 <= p < flat(e).len() ==> (#[trigger] flat(e)[p]).0 < a.len() && !(a[flat(
                e,
            )[p].0 as int] is Unset),
        forall|p: int, q: int|
            0 <= p < q < flat(e).len() ==> (#[trigger] flat(e)[p]).0 != (#[trigger] flat(e)[q]).0,
{
    assert forall|p: int| 0 <= p < flat(e).len() implies (#[trigger] flat(e)[p]).0 < a.len() && !(
    a[flat(e)[p].0 as int] is Unset) by {
        let place = lemma_flat_find(e, p);
        assert(e[place.0][place.1].0 < a.len());
    }
    assert forall|p: int, q: int| 0 <= p < q < flat(e).len() implies (#[trigger] flat(e)[p]).0 != (
    #[trigger] flat(e)[q]).0 by {
        let first = lemma_flat_find(e, p);
        let second = lemma_flat_find(e, q);
        assert(a[e[first.0][first.1].0 as int].level() == first.0);
        assert(a[e[second.0][second.1].0 as int].level() == second.0);
        if first.0 == second.0 {
            assert(first.1 < second.1);
            assert(e[first.0][first.1].0 != e[first.0][second.1].0);
        }
    }
}

/// A variable with a value has an entry in the flat trail.
pub proof fn lemma_flat_has(a: Seq<VariableState>, e: Entries, v: int) -> (p: int)
    requires
        well_formed(a, e),
        0 <= v < a.len(),
        !(a[v] is Unset),
    ensures
        0 <= p < flat(e).len(),
        flat(e)[p].0 == v,
{
    let k = a[v].level() as int;
    assert(listed_from(e[k], 0, v));
    let i = choose|i: int| 0 <= i < e[k].len() && (#[trigger] e[k][i]).0 == v;
    lemma_flat_at(e, k, i);
    offset(e, k) + i
}

/// After a backjump the variables at the head of the flat trail keep their
/// values and those behind it have none.
pub proof fn lemma_flat_released(a: Seq<VariableState>, e: Entries, level: int)
    requires
        well_formed(a, e),
        0 <= level < e.len(),
    ensures
        forall|p: int|
            0 <= p < offset(e, level + 1) && p < flat(e).len() ==> released(a, level)[(
            #[trigger] flat(e)[p]).0 as int] == a[flat(e)[p].0 as int],
        forall|p: int|
            offset(e, level + 1) <= p < flat(e).len() ==> released(a, level)[(#[trigger] flat(
                e,
            )[p]).0 as int] is Unset,
{
    lemma_offset_grows(e, 0, level + 1);
    assert forall|p: int| 0 <= p < offset(e, level + 1) && p < flat(e).len() implies released(
        a,
        level,
    )[(#[trigger] flat(e)[p]).0 as int] == a[flat(e)[p].0 as int] by {
        let place = lemma_flat_find(e, p);
        if place.0 > level {
            lemma_offset_grows(e, level + 1, place.0);
        }
        assert(a[e[place.0][place.1].0 as int].level() == place.0);
    }
    assert forall|p: int| offset(e, level + 1) <= p < flat(e).len() implies released(a, level)[(
    #[trigger] flat(e)[p]).0 as int] is Unset by {
        let place = lemma_flat_find(e, p);
        if place.0 <= level {
            lemma_offset_grows(e, place.0 + 1, level + 1);
        }
        assert(a[e[place.0][place.1].0 as int].level() == place.0);
    }
}

/// The flat trail has no more entries than there are variables.
pub proof fn lemma_flat_bound(a: Seq<VariableState>, e: Entries)
    requires
        well_formed(a, e),
    ensures
        flat(e).len() <= a.len(),
{
    lemma_flat_entries(a, e);
    let vars = Seq::new(flat(e).len(), |p: int| flat(e)[p].0 as int);
    assert(vars.no_duplicates()) by {
        assert forall|p: int, q: int|
            0 <= p < vars.len() && 0 <= q < vars.len() && p != q implies vars[p] != vars[q] by {
            if p < q {
                assert(flat(e)[p].0 != flat(e)[q].0);
            } else {
                assert(flat(e)[q].0 != flat(e)[p].0);
            }
        }
    }
    assert forall|p: int| 0 <= p < vars.len() implies 0 <= #[trigger] vars[p] < a.len() by {
        assert(flat(e)[p].0 < a.len());
    }
    crate::counting::lemma_distinct_below(vars, a.len() as int);
}

} // verus!
