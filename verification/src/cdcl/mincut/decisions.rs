//! The cut that severs every decision, and what it costs: no flow through
//! the implication graph can be worth more.
use crate::cdcl::mincut::chronology::{
    flat, lemma_flat_at, lemma_flat_len, lemma_offset_grows, offset,
};
use crate::cdcl::mincut::heuristic::{
    at_source, decisions_cost, entry_weight, network, paired, sourced, MinCutWeight,
    WeightHeuristic,
};
use crate::cdcl::propagation::soundness::Entries;
use crate::cdcl::propagation::trail::{well_formed, Reason, Variable, VariableState};
use crate::sk1flow::network::{
    crossing, cut_capacity, flowed, held, inside, lemma_flow_is_cut, Net,
};
use crate::sk1flow::{lemma_rows_entering, lemma_with_rows_len, row_entering, rows_entering};
use vstd::prelude::*;

verus! {

/// The sink's side of the cut that severs every decision: every vertex but
/// the source and the entry sides of the decisions.
pub open spec fn beyond_decisions(entries: Seq<(Variable, Reason)>, len: int) -> Set<int> {
    Set::new(
        |v: int| 1 <= v < len && !(v >= 2 && v % 2 == 0 && entries[(v - 2) / 2].1 is None),
    )
}

/// What it costs to sever the decisions among the first `p` entries of the
/// trail.
pub open spec fn flat_cost(weights: Seq<Seq<nat>>, entries: Seq<(Variable, Reason)>, p: int) -> int
    decreases p,
{
    if p <= 0 {
        0
    } else {
        flat_cost(weights, entries, p - 1) + if entries[p - 1].1 is None {
            weights[2 + 2 * (p - 1)][0] as int
        } else {
            0
        }
    }
}

/// A row whose origin lies in the side carries nothing into it.
pub proof fn lemma_row_inside(side: Set<int>, from: int, row: Seq<(int, nat)>, k: int)
    requires
        side.contains(from),
    ensures
        row_entering(side, from, row, k) == 0,
    decreases k,
{
    if k > 0 {
        lemma_row_inside(side, from, row, k - 1);
    }
}

/// A row none of whose edges leads into the side carries nothing into it.
pub proof fn lemma_row_outside(side: Set<int>, from: int, row: Seq<(int, nat)>, k: int)
    requires
        0 <= k <= row.len(),
        forall|j: int| 0 <= j < k ==> !side.contains((#[trigger] row[j]).0),
    ensures
        row_entering(side, from, row, k) == 0,
    decreases k,
{
    if k > 0 {
        lemma_row_outside(side, from, row, k - 1);
    }
}

/// The rows up to the vertices of entry `p` carry into the far side of the
/// decisions what it costs to sever the decisions before `p`.
pub proof fn lemma_rows_cost(
    targets: Seq<Seq<int>>,
    weights: Seq<Seq<nat>>,
    entries: Seq<(Variable, Reason)>,
    p: int,
)
    requires
        0 <= p <= entries.len(),
        targets.len() == 2 + 2 * entries.len(),
        weights.len() == targets.len(),
        forall|v: int| 0 <= v < targets.len() ==> (#[trigger] weights[v]).len() == targets[v].len(),
        forall|q: int| 2 <= q < targets.len() && q % 2 == 0 ==> #[trigger] targets[q] == seq![q + 1],
        sourced(targets, entries),
    ensures
        rows_entering(
            beyond_decisions(entries, targets.len() as int),
            paired(targets, weights),
            2 + 2 * p,
        ) == flat_cost(weights, entries, p),
    decreases p,
{
    let len = targets.len() as int;
    let side = beyond_decisions(entries, len);
    let rows = paired(targets, weights);
    if p == 0 {
        assert(rows_entering(side, rows, 0) == 0);
        assert forall|j: int| 0 <= j < rows[0].len() implies !side.contains(
            (#[trigger] rows[0][j]).0,
        ) by {
            assert(rows[0][j].0 == targets[0][j]);
            assert(targets[0][j] % 2 == 0);
        }
        lemma_row_outside(side, 0, rows[0], rows[0].len() as int);
        assert(rows_entering(side, rows, 1) == 0);
        lemma_row_inside(side, 1, rows[1], rows[1].len() as int);
        assert(rows_entering(side, rows, 2) == 0);
    } else {
        lemma_rows_cost(targets, weights, entries, p - 1);
        let entry = 2 + 2 * (p - 1);
        assert(targets[entry] == seq![entry + 1]);
        assert(rows[entry].len() == 1);
        assert(rows[entry][0] == (entry + 1, weights[entry][0]));
        if entries[p - 1].1 is None {
            assert(!side.contains(entry));
            assert(side.contains(entry + 1));
            assert(row_entering(side, entry, rows[entry], 0) == 0);
            assert(row_entering(side, entry, rows[entry], 1) == weights[entry][0]);
        } else {
            assert(side.contains(entry));
            lemma_row_inside(side, entry, rows[entry], 1);
        }
        assert(rows_entering(side, rows, entry + 1) == rows_entering(side, rows, entry)
            + row_entering(side, entry, rows[entry], rows[entry].len() as int));
        assert(side.contains(entry + 1));
        lemma_row_inside(side, entry + 1, rows[entry + 1], rows[entry + 1].len() as int);
        assert(rows_entering(side, rows, entry + 2) == rows_entering(side, rows, entry + 1)
            + row_entering(side, entry + 1, rows[entry + 1], rows[entry + 1].len() as int));
    }
}

/// A side that the source lies outside of holds nothing to begin with.
pub proof fn lemma_holds_nothing(side: Set<int>, len: int, bar: nat, k: int)
    requires
        0 <= k <= len,
        !side.contains(0),
    ensures
        inside(side, at_source(len, bar), k) == 0,
    decreases k,
{
    if k > 0 {
        lemma_holds_nothing(side, len, bar, k - 1);
    }
}

/// Within level `k`, the first `i` entries cost what its decision costs, if
/// the level has one and `i` reaches it.
pub proof fn lemma_level_cost<W: MinCutWeight, T: WeightHeuristic<W>>(
    rule: T,
    a: Seq<VariableState>,
    e: Entries,
    weights: Seq<Seq<nat>>,
    k: int,
    i: int,
)
    requires
        well_formed(a, e),
        0 <= k < e.len(),
        0 <= i <= e[k].len(),
        e.len() - 1 <= usize::MAX,
        forall|p: int|
            0 <= p < flat(e).len() ==> (#[trigger] weights[2 + 2 * p]) == seq![
                entry_weight(rule, a, e, flat(e)[p].0 as int),
            ],
    ensures
        flat_cost(weights, flat(e), offset(e, k) + i) == flat_cost(
            weights,
            flat(e),
            offset(e, k),
        ) + if k >= 1 && i >= 1 {
            rule.weight_at(k as usize, (e.len() - 1) as usize, true) as int
        } else {
            0
        },
    decreases i,
{
    if i > 0 {
        lemma_level_cost(rule, a, e, weights, k, i - 1);
        lemma_flat_at(e, k, i - 1);
        lemma_offset_grows(e, 0, k);
        let p = offset(e, k) + i - 1;
        assert(flat(e)[p] == e[k][i - 1]);
        let variable = e[k][i - 1].0 as int;
        assert(a[variable].level() == k);
        if k >= 1 && i == 1 {
            assert(e[k][0].1 is None);
            assert(weights[2 + 2 * p] == seq![entry_weight(rule, a, e, flat(e)[p].0 as int)]);
        } else {
            assert(e[k][i - 1].1 is Some);
        }
    }
}

/// The decisions of the levels up to `k` cost what the rule says of them.
pub proof fn lemma_levels_cost<W: MinCutWeight, T: WeightHeuristic<W>>(
    rule: T,
    a: Seq<VariableState>,
    e: Entries,
    weights: Seq<Seq<nat>>,
    k: int,
)
    requires
        well_formed(a, e),
        0 <= k < e.len(),
        e.len() - 1 <= usize::MAX,
        forall|p: int|
            0 <= p < flat(e).len() ==> (#[trigger] weights[2 + 2 * p]) == seq![
                entry_weight(rule, a, e, flat(e)[p].0 as int),
            ],
    ensures
        flat_cost(weights, flat(e), offset(e, k + 1)) == decisions_cost(
            rule,
            (e.len() - 1) as usize,
            k,
        ),
    decreases k,
{
    lemma_level_cost(rule, a, e, weights, k, e[k].len() as int);
    if k > 0 {
        lemma_levels_cost(rule, a, e, weights, k - 1);
        assert(e[k].len() >= 1);
    } else {
        assert(offset(e, 0) == 0);
    }
}

/// No more reaches the sink than it costs to sever every decision.
pub proof fn lemma_flow_bounded<W: MinCutWeight, T: WeightHeuristic<W>>(
    rule: T,
    a: Seq<VariableState>,
    e: Entries,
    targets: Seq<Seq<int>>,
    weights: Seq<Seq<nat>>,
    bar: nat,
    after: Net,
    value: nat,
)
    requires
        well_formed(a, e),
        e.len() - 1 <= usize::MAX,
        targets.len() == 2 + 2 * flat(e).len(),
        weights.len() == targets.len(),
        forall|v: int| 0 <= v < targets.len() ==> (#[trigger] weights[v]).len() == targets[v].len(),
        forall|q: int| 2 <= q < targets.len() && q % 2 == 0 ==> #[trigger] targets[q] == seq![q + 1],
        sourced(targets, flat(e)),
        forall|p: int|
            0 <= p < flat(e).len() ==> (#[trigger] weights[2 + 2 * p]) == seq![
                entry_weight(rule, a, e, flat(e)[p].0 as int),
            ],
        network(targets, weights, bar).shaped(),
        flowed(network(targets, weights, bar), after, 1, value),
    ensures
        value <= decisions_cost(rule, (e.len() - 1) as usize, e.len() - 1),
{
    let entries = flat(e);
    let len = targets.len() as int;
    let before = network(targets, weights, bar);
    let side = beyond_decisions(entries, len);
    let bare = Net { to: Seq::empty(), cap: Seq::empty(), ex: at_source(len, bar) };
    lemma_with_rows_len(bare, paired(targets, weights), len);
    lemma_flow_is_cut(before, after, 1, value);
    assert(side.contains(1));
    assert(value <= cut_capacity(side, before) + held(side, before));
    lemma_holds_nothing(side, len, bar, len);
    lemma_rows_entering(side, bare, paired(targets, weights), len);
    lemma_rows_cost(targets, weights, entries, entries.len() as int);
    lemma_flat_len(e);
    lemma_levels_cost(rule, a, e, weights, e.len() - 1);
}

} // verus!
