//! The implication graph kept in step with the trail, and the analysis that
//! cuts it.
use crate::cdcl::mincut::asserting::{lemma_cut_asserting, lemma_severed_once};
use crate::cdcl::mincut::decisions::lemma_flow_bounded;
use crate::cdcl::mincut::chronology::{
    flat, lemma_flat_entries, lemma_flat_has, lemma_flat_released, lemma_flat_take,
    lemma_offset_grows, offset,
};
use crate::cdcl::mincut::wiring::{
    lemma_row_below, lemma_sunk_add, lemma_sunk_done, lemma_sunk_facts, lemma_sunk_pop,
    lemma_sunk_start, lemma_wired_edge, lemma_wired_entry_parent, lemma_wired_facts,
    lemma_wired_pair, lemma_wired_parents, lemma_wired_shrink, lemma_wired_start, sunk, trimmed,
    wired, with_pair, with_pair_parents,
};
use crate::cdcl::model::{clauses, entails};
use crate::cdcl::model::{satisfies, satisfies_clause, satisfies_literal};
use crate::cdcl::propagation::soundness::{
    lemma_closure_refutes, lemma_trail_literal, reason_ok, released, sound, trail_literal, Entries,
};
use crate::cdcl::propagation::trail::{listed_from, well_formed};
use crate::cdcl::propagation::{
    fails, holds, negate, negation, open_in, rewinds, variable_name, variable_of, Clause,
    ConflictAnalysis, Formula, Literal, Reason, Trail, Variable, VariableState,
};
use crate::sk1flow::capacity::Capacity;
use crate::sk1flow::graph::{Edge, WeightedEdge};
use crate::sk1flow::network::{
    enters, flowed, lemma_flow_below, mate, sink_side, sum, total, Net,
};
use crate::sk1flow::{
    edges_before, lemma_total_push, lemma_with_rows, rows, values, with_rows, SK1Flow,
};
use vstd::prelude::*;

verus! {

/// What the analysis needs of a weight: the arithmetic of a capacity.
pub trait MinCutWeight: Capacity {

}

impl<W: Capacity> MinCutWeight for W {

}

/// A rule that weighs the vertices of the implication graph for a conflict.
pub trait WeightHeuristic<W: MinCutWeight>: Sized {
    /// What the source holds: more than any cut should cost.
    spec fn excess_at(&self, conflict_level: usize) -> nat;

    /// What it costs to cut the vertex of a literal assigned at `level`,
    /// decided or forced, when the conflict is at `conflict_level`.
    spec fn weight_at(&self, level: usize, conflict_level: usize, is_decision: bool) -> nat;

    /// The weights are calibrated. With `costs[k]` what it costs to sever the
    /// decisions of levels 1 to `k`: to sever every decision costs less than
    /// the source holds, so that some cut is cheaper than any that severs an
    /// edge meant never to be severed; and to sever two literals of the
    /// conflict level costs more than to sever every decision, so that a
    /// smallest cut severs one of them only.
    proof fn lemma_calibrated(&self, conflict_level: usize, costs: Seq<nat>)
        requires
            1 <= conflict_level < isize::MAX,
            costs.len() == conflict_level + 1,
            costs[0] == 0,
            forall|k: int|
                1 <= k <= conflict_level ==> #[trigger] costs[k] == costs[k - 1] + self.weight_at(
                    k as usize,
                    conflict_level,
                    true,
                ),
        ensures
            costs[conflict_level as int] < self.excess_at(conflict_level),
            self.weight_at(conflict_level, conflict_level, true) + self.weight_at(
                conflict_level,
                conflict_level,
                false,
            ) > costs[conflict_level as int],
            2 * self.weight_at(conflict_level, conflict_level, false)
                > costs[conflict_level as int],
    ;

    /// A rule for `formula` over `n` variables.
    fn from_formula(n: usize, formula: &Formula) -> Self;

    /// What the source holds for a conflict at `conflict_level`.
    fn source_excess(&self, conflict_level: usize) -> (excess: W)
        ensures
            excess.value() == self.excess_at(conflict_level),
    ;

    /// What it costs to cut the vertex of a literal assigned at `level`.
    fn gen_vertex_weight(&self, level: usize, conflict_level: usize, is_decision: bool) -> (weight:
        W)
        requires
            level <= conflict_level,
        ensures
            weight.value() == self.weight_at(level, conflict_level, is_decision),
    ;
}

/// What it costs to sever the decisions of levels 1 to `upto`, for a
/// conflict at `conflict_level`.
pub open spec fn decisions_cost<W: MinCutWeight, T: WeightHeuristic<W>>(
    rule: T,
    conflict_level: usize,
    upto: int,
) -> nat
    decreases upto,
{
    if upto <= 0 {
        0
    } else {
        decisions_cost(rule, conflict_level, upto - 1) + rule.weight_at(
            upto as usize,
            conflict_level,
            true,
        )
    }
}

/// The implication graph as a flow network in the making. Vertex 0 is the
/// source and vertex 1 the sink; every literal on the trail has two
/// vertices, an entry side and an exit side, joined by the edge that carries
/// the literal's weight.
pub struct MinCutConflict<W: MinCutWeight, T: WeightHeuristic<W>> {
    graph: Vec<Vec<(usize, W)>>,
    parents: Vec<Vec<usize>>,
    labels: Vec<Literal>,
    indices: Vec<usize>,
    weight_heuristic: T,
}

/// Labels and indices fit the trail: its entries, oldest first, own the
/// pairs of vertices from 2 on, each pair is labelled with the literal of
/// its entry, and each variable on the trail knows its entry side.
pub open spec fn framed(
    labels: Seq<Literal>,
    indices: Seq<usize>,
    a: Seq<VariableState>,
    entries: Seq<(Variable, Reason)>,
) -> bool {
    &&& labels.len() == 2 + 2 * entries.len()
    &&& labels.len() < usize::MAX
    &&& indices.len() == a.len()
    &&& a.len() <= isize::MAX
    &&& forall|p: int|
        0 <= p < entries.len() ==> (#[trigger] entries[p]).0 < a.len() && labels[2 + 2 * p]
            == trail_literal(a, entries[p].0 as int) && labels[3 + 2 * p] == trail_literal(
            a,
            entries[p].0 as int,
        ) && indices[entries[p].0 as int] == 2 + 2 * p
}

/// The targets of the edges, without their weights.
pub open spec fn targets_of<W>(graph: Seq<Vec<(usize, W)>>) -> Seq<Seq<int>> {
    Seq::new(graph.len(), |v: int| Seq::new(graph[v].len() as nat, |k: int| graph[v][k].0 as int))
}

/// The weights of the edges, without their targets.
pub open spec fn weights_of<W: Capacity>(graph: Seq<Vec<(usize, W)>>) -> Seq<Seq<nat>> {
    Seq::new(graph.len(), |v: int| Seq::new(graph[v].len() as nat, |k: int| graph[v][k].1.value()))
}

/// The parents of every vertex.
pub open spec fn parents_of(parents: Seq<Vec<usize>>) -> Seq<Seq<usize>> {
    Seq::new(parents.len(), |v: int| parents[v]@)
}

/// The edges into the entry side of entry `p` of the trail are there: from
/// the source for a decision, and else from the exit side of every other
/// literal of the clause that forced it.
pub open spec fn linked_at(
    targets: Seq<Seq<int>>,
    indices: Seq<usize>,
    f: Seq<Seq<Literal>>,
    a: Seq<VariableState>,
    entries: Seq<(Variable, Reason)>,
    p: int,
) -> bool {
    match entries[p].1 {
        None => targets.len() > 0 && targets[0].contains(2 + 2 * p),
        Some(r) => r < f.len() && forall|q: int|
            0 <= q < f[r as int].len() && #[trigger] f[r as int][q] != trail_literal(
                a,
                entries[p].0 as int,
            ) ==> variable_of(f[r as int][q]) < indices.len() && indices[variable_of(
                f[r as int][q],
            )] + 1 < targets.len() && targets[indices[variable_of(f[r as int][q])] + 1].contains(
                2 + 2 * p,
            ),
    }
}

/// The edges into the entry side of every entry of the trail are there.
pub open spec fn linked(
    targets: Seq<Seq<int>>,
    indices: Seq<usize>,
    f: Seq<Seq<Literal>>,
    a: Seq<VariableState>,
    entries: Seq<(Variable, Reason)>,
) -> bool {
    forall|p: int| 0 <= p < entries.len() ==> #[trigger] linked_at(targets, indices, f, a, entries, p)
}

/// Edges that are there stay there when rows only gain.
pub proof fn lemma_linked_kept(
    before: Seq<Seq<int>>,
    after: Seq<Seq<int>>,
    indices: Seq<usize>,
    f: Seq<Seq<Literal>>,
    a: Seq<VariableState>,
    entries: Seq<(Variable, Reason)>,
)
    requires
        linked(before, indices, f, a, entries),
        kept(before, after),
    ensures
        linked(after, indices, f, a, entries),
{
    assert forall|p: int| 0 <= p < entries.len() implies #[trigger] linked_at(
        after,
        indices,
        f,
        a,
        entries,
        p,
    ) by {
        assert(linked_at(before, indices, f, a, entries, p));
        match entries[p].1 {
            None => {
                assert(before[0].contains(2 + 2 * p));
            },
            Some(r) => {
                assert forall|q: int|
                    0 <= q < f[r as int].len() && #[trigger] f[r as int][q] != trail_literal(
                        a,
                        entries[p].0 as int,
                    ) implies variable_of(f[r as int][q]) < indices.len() && indices[variable_of(
                    f[r as int][q],
                )] + 1 < after.len() && after[indices[variable_of(f[r as int][q])] + 1].contains(
                    2 + 2 * p,
                ) by {
                    let u = variable_of(f[r as int][q]);
                    assert(before[indices[u] + 1].contains(2 + 2 * p));
                }
            },
        }
    }
}

/// The clauses that forced the older entries of the trail speak of no
/// variable that only now gets its value.
pub proof fn lemma_old_reasons_at(
    f: Seq<Seq<Literal>>,
    a1: Seq<VariableState>,
    e1: Entries,
    literal: Literal,
    p: int,
    q: int,
)
    requires
        sound(a1.len(), f, a1, e1),
        e1.last().len() >= 1,
        e1.last().last().0 == variable_of(literal),
        holds(a1, literal),
        0 <= p < flat(e1).len() - 1,
        flat(e1)[p].1 is Some,
        0 <= q < f[flat(e1)[p].1->0 as int].len(),
        f[flat(e1)[p].1->0 as int][q] != trail_literal(a1, flat(e1)[p].0 as int),
    ensures
        variable_of(f[flat(e1)[p].1->0 as int][q]) != variable_of(literal),
        variable_of(f[flat(e1)[p].1->0 as int][q]) < a1.len(),
        fails(a1, f[flat(e1)[p].1->0 as int][q]),
{
    let place = crate::cdcl::mincut::chronology::lemma_flat_find(e1, p);
    let k = place.0;
    let i = place.1;
    assert(reason_ok(f, a1, e1, k, i));
    let other = f[flat(e1)[p].1->0 as int][q];
    assert(fails(a1, other));
    let top = e1.len() - 1;
    let last = e1[top].len() - 1;
    crate::cdcl::mincut::chronology::lemma_flat_at(e1, top, last);
    crate::cdcl::mincut::chronology::lemma_flat_len(e1);
    assert(offset(e1, top + 1) == offset(e1, top) + e1[top].len());
    if variable_of(other) == variable_of(literal) {
        assert(e1[top][last].0 == variable_of(other));
        assert(a1[variable_of(other)].level() == top);
        assert(k == top);
        assert(i < last) by {
            if i >= last {
                assert(p == offset(e1, top) + last);
            }
        }
        assert(listed_from(e1[k], i, variable_of(other)));
    }
}

/// The clauses that forced the older entries of the trail speak of no
/// variable that is the newest on the trail.
pub proof fn lemma_old_reasons(
    f: Seq<Seq<Literal>>,
    a1: Seq<VariableState>,
    e1: Entries,
    a0: Seq<VariableState>,
    e0: Entries,
    literal: Literal,
)
    requires
        sound(a1.len(), f, a1, e1),
        e1.last().len() >= 1,
        e1.last().last().0 == variable_of(literal),
        holds(a1, literal),
        a0 == a1.update(variable_of(literal), VariableState::Unset),
        flat(e1) == flat(e0).push(e1.last().last()),
    ensures
        forall|p: int, q: int|
            0 <= p < flat(e0).len() && (#[trigger] flat(e0)[p]).1 is Some && 0 <= q
                < f[flat(e0)[p].1->0 as int].len() && #[trigger] f[flat(e0)[p].1->0 as int][q]
                != trail_literal(a0, flat(e0)[p].0 as int) ==> variable_of(
                f[flat(e0)[p].1->0 as int][q],
            ) != variable_of(literal) && variable_of(f[flat(e0)[p].1->0 as int][q]) < a0.len(),
{
    let before = flat(e0);
    lemma_flat_entries(a1, e1);
    assert forall|p: int, q: int|
        0 <= p < before.len() && (#[trigger] before[p]).1 is Some && 0 <= q
            < f[before[p].1->0 as int].len() && #[trigger] f[before[p].1->0 as int][q]
            != trail_literal(a0, before[p].0 as int) implies variable_of(
        f[before[p].1->0 as int][q],
    ) != variable_of(literal) && variable_of(f[before[p].1->0 as int][q]) < a0.len() by {
        assert(flat(e1)[p] == before[p]);
        assert(flat(e1)[before.len() as int].0 == variable_of(literal));
        assert(flat(e1)[p].0 != flat(e1)[before.len() as int].0);
        assert(trail_literal(a0, before[p].0 as int) == trail_literal(a1, before[p].0 as int));
        lemma_old_reasons_at(f, a1, e1, literal, p, q);
    }
}

/// The first `rows` rows of `after` hold every target from `low` up to
/// `high` that the matching rows of `before` held.
pub open spec fn kept_in(
    before: Seq<Seq<int>>,
    after: Seq<Seq<int>>,
    rows: int,
    low: int,
    high: int,
) -> bool {
    &&& rows <= before.len()
    &&& rows <= after.len()
    &&& forall|v: int, x: int|
        0 <= v < rows && low <= x < high && before[v].contains(x) ==> #[trigger] after[v].contains(
            x,
        )
}

/// What is kept twice over is kept.
pub proof fn lemma_kept_in_chain(
    first: Seq<Seq<int>>,
    second: Seq<Seq<int>>,
    third: Seq<Seq<int>>,
    rows: int,
    low: int,
    high: int,
)
    requires
        kept_in(first, second, rows, low, high),
        kept_in(second, third, rows, low, high),
    ensures
        kept_in(first, third, rows, low, high),
{
    assert forall|v: int, x: int|
        0 <= v < rows && low <= x < high && first[v].contains(x) implies #[trigger] third[v].contains(
        x,
    ) by {
        assert(second[v].contains(x));
    }
}

/// A head of a row that lost only targets from `bound` on holds every
/// target below `bound` that the row held.
pub proof fn lemma_head_keeps(row: Seq<int>, head: Seq<int>, low: int, bound: int, x: int)
    requires
        head.len() <= row.len(),
        head == row.take(head.len() as int),
        forall|k: int| head.len() <= k < row.len() ==> #[trigger] row[k] >= bound || row[k] < low,
        low <= x < bound,
        row.contains(x),
    ensures
        head.contains(x),
{
    let k = choose|k: int| 0 <= k < row.len() && row[k] == x;
    assert(k < head.len());
    assert(head[k] == x);
}

/// What forced an entry that a backjump keeps was assigned no later than
/// the entry, and is kept too.
pub proof fn lemma_reason_stays(
    f: Seq<Seq<Literal>>,
    a: Seq<VariableState>,
    e: Entries,
    level: int,
    p: int,
    q: int,
)
    requires
        sound(a.len(), f, a, e),
        0 <= level < e.len(),
        0 <= p < offset(e, level + 1),
        p < flat(e).len(),
        flat(e)[p].1 is Some,
        0 <= q < f[flat(e)[p].1->0 as int].len(),
        f[flat(e)[p].1->0 as int][q] != trail_literal(a, flat(e)[p].0 as int),
    ensures
        fails(a, f[flat(e)[p].1->0 as int][q]),
        variable_of(f[flat(e)[p].1->0 as int][q]) < a.len(),
        released(a, level)[variable_of(f[flat(e)[p].1->0 as int][q])] == a[variable_of(
            f[flat(e)[p].1->0 as int][q],
        )],
        !(a[variable_of(f[flat(e)[p].1->0 as int][q])] is Unset),
{
    let place = crate::cdcl::mincut::chronology::lemma_flat_find(e, p);
    let k = place.0;
    let i = place.1;
    assert(reason_ok(f, a, e, k, i));
    if k > level {
        lemma_offset_grows(e, level + 1, k);
    }
}

/// What the heuristic says of the weight of the literal of `variable`, for a
/// conflict at the top level of the trail.
pub open spec fn entry_weight<W: MinCutWeight, T: WeightHeuristic<W>>(
    rule: T,
    a: Seq<VariableState>,
    e: Entries,
    variable: int,
) -> nat {
    rule.weight_at(
        a[variable].level(),
        (e.len() - 1) as usize,
        e[a[variable].level() as int][0].0 == variable,
    )
}

/// Every edge out of the source and out of an exit side weighs `bar`.
pub open spec fn loaded(weights: Seq<Seq<nat>>, bar: nat) -> bool {
    &&& forall|k: int| 0 <= k < weights[0].len() ==> #[trigger] weights[0][k] == bar
    &&& forall|v: int, k: int|
        3 <= v < weights.len() && v % 2 == 1 && 0 <= k < weights[v].len()
            ==> #[trigger] weights[v][k] == bar
}

/// The excess before any flow: all of it at the source.
pub open spec fn at_source(vertices: int, bar: nat) -> Seq<nat> {
    Seq::new(vertices as nat, |v: int| if v == 0 {
        bar
    } else {
        0nat
    })
}

/// Edges as pairs of target and weight.
pub open spec fn paired(targets: Seq<Seq<int>>, weights: Seq<Seq<nat>>) -> Seq<Seq<(int, nat)>> {
    Seq::new(
        targets.len(),
        |v: int| Seq::new(targets[v].len(), |k: int| (targets[v][k], weights[v][k])),
    )
}

/// The flow network of a graph whose source holds `bar`.
pub open spec fn network(targets: Seq<Seq<int>>, weights: Seq<Seq<nat>>, bar: nat) -> Net {
    with_rows(
        Net { to: Seq::empty(), cap: Seq::empty(), ex: at_source(targets.len() as int, bar) },
        paired(targets, weights),
        targets.len() as int,
    )
}

/// Which of the first `vertices` vertices lie on the source's side once the
/// flow has come to rest in `after`: those from which no more could reach
/// the sink.
pub open spec fn source_side(after: Net, vertices: int) -> Seq<bool> {
    Seq::new(vertices as nat, |v: int| !sink_side(after, 1).contains(v))
}

/// The network holds an edge from `from` to `to` that could carry `weight`.
pub open spec fn carries(net: Net, from: int, to: int, weight: nat) -> bool {
    exists|id: int|
        0 <= id < net.cap.len() && #[trigger] net.to[id] == to && net.origin(id) == from
            && net.cap[id] == weight
}

/// The network holds every edge of the graph with its weight.
pub open spec fn embedded(net: Net, targets: Seq<Seq<int>>, weights: Seq<Seq<nat>>) -> bool {
    forall|v: int, k: int|
        0 <= v < targets.len() && 0 <= k < targets[v].len() ==> #[trigger] carries(
            net,
            v,
            targets[v][k],
            weights[v][k],
        )
}

/// The clause read off a cut holds the negation of every literal that the
/// cut severs.
pub proof fn lemma_severed_has(labels: Seq<Literal>, cut: Seq<bool>, upto: int, p: int)
    requires
        0 <= p,
        3 + 2 * p < upto,
        cut[2 + 2 * p],
        !cut[3 + 2 * p],
    ensures
        severed(labels, cut, upto).contains(negation(labels[2 + 2 * p])),
    decreases upto,
{
    if upto % 2 == 1 {
        lemma_severed_has(labels, cut, upto - 1, p);
    } else if upto - 2 == 2 + 2 * p {
        let shorter = severed(labels, cut, upto - 2);
        let longer = severed(labels, cut, upto);
        assert(longer == shorter.push(negation(labels[upto - 2])));
        assert(longer[shorter.len() as int] == negation(labels[2 + 2 * p]));
    } else {
        lemma_severed_has(labels, cut, upto - 2, p);
        let shorter = severed(labels, cut, upto - 2);
        let k = choose|k: int| 0 <= k < shorter.len() && shorter[k] == negation(labels[2 + 2 * p]);
        let longer = severed(labels, cut, upto);
        if cut[upto - 2] && !cut[upto - 1] {
            assert(longer == shorter.push(negation(labels[upto - 2])));
            assert(longer[k] == shorter[k]);
        }
    }
}

/// An edge that weighs what the source held and leads to the sink's side
/// starts on the sink's side.
pub proof fn lemma_not_cut(
    before: Net,
    after: Net,
    targets: Seq<Seq<int>>,
    weights: Seq<Seq<nat>>,
    bar: nat,
    cut: Seq<bool>,
    v: int,
    x: int,
)
    requires
        embedded(before, targets, weights),
        loaded(weights, bar),
        weights.len() == targets.len(),
        forall|u: int| 0 <= u < targets.len() ==> (#[trigger] weights[u]).len() == targets[u].len(),
        forall|id: int|
            0 <= id < before.cap.len() && #[trigger] before.cap[id] >= bar ==> !enters(
                sink_side(after, 1),
                before.to,
                id,
            ),
        cut.len() == targets.len(),
        forall|u: int| 0 <= u < cut.len() ==> #[trigger] cut[u] == !sink_side(after, 1).contains(u),
        0 <= v < targets.len(),
        v == 0 || (v >= 3 && v % 2 == 1),
        targets[v].contains(x),
        0 <= x < cut.len(),
        !cut[x],
    ensures
        !cut[v],
{
    let k = choose|k: int| 0 <= k < targets[v].len() && targets[v][k] == x;
    assert(carries(before, v, targets[v][k], weights[v][k]));
    let id = choose|id: int|
        0 <= id < before.cap.len() && #[trigger] before.to[id] == x && before.origin(id) == v
            && before.cap[id] == weights[v][k];
    assert(weights[v][k] == bar);
    assert(before.cap[id] >= bar);
    assert(!enters(sink_side(after, 1), before.to, id));
}

/// The clause read off the cut follows from the formula, provided less has
/// reached the sink than the source held. Then no edge that weighs what the
/// source held is cut, so that whatever lies on the sink's side was forced
/// by what lies there too or is severed from its entry side; and a model
/// that denied every severed literal would have to agree with the trail on
/// all of the failing clause.
pub proof fn lemma_cut_entailed(
    f: Seq<Seq<Literal>>,
    a: Seq<VariableState>,
    e: Entries,
    conflict: Seq<Literal>,
    labels: Seq<Literal>,
    indices: Seq<usize>,
    targets: Seq<Seq<int>>,
    weights: Seq<Seq<nat>>,
    before: Net,
    after: Net,
    value: nat,
    bar: nat,
    cut: Seq<bool>,
)
    requires
        sound(a.len(), f, a, e),
        entails(f, a.len(), conflict),
        forall|q: int| 0 <= q < conflict.len() ==> fails(a, #[trigger] conflict[q]),
        framed(labels, indices, a, flat(e)),
        linked(targets, indices, f, a, flat(e)),
        targets.len() == labels.len(),
        weights.len() == targets.len(),
        forall|v: int| 0 <= v < targets.len() ==> (#[trigger] weights[v]).len() == targets[v].len(),
        forall|q: int|
            0 <= q < conflict.len() ==> targets[indices[variable_of(#[trigger] conflict[q])]
                + 1].contains(1),
        embedded(before, targets, weights),
        loaded(weights, bar),
        before.shaped(),
        before.ex.len() == labels.len(),
        before.ex[0] >= bar,
        flowed(before, after, 1, value),
        value < bar,
        cut.len() == labels.len(),
        forall|v: int| 0 <= v < cut.len() ==> #[trigger] cut[v] == !sink_side(after, 1).contains(v),
    ensures
        entails(f, a.len(), severed(labels, cut, labels.len() as int)),
{
    let n = a.len();
    let entries = flat(e);
    let learned = severed(labels, cut, labels.len() as int);
    let side = sink_side(after, 1);
    lemma_flow_below(before, after, 1, value, bar);
    lemma_flat_entries(a, e);
    assert(cut[0]);
    assert(!cut[1]);
    assert forall|model: Seq<bool>|
        model.len() == n && #[trigger] satisfies(model, f) implies satisfies_clause(
        model,
        learned,
    ) by {
        if !satisfies_clause(model, learned) {
            let need = Set::new(
                |v: int| 0 <= v < n && !(a[v] is Unset) && !cut[indices[v] + 1],
            );
            assert forall|k: int, i: int|
                0 <= k < e.len() && 0 <= i < e[k].len() && need.contains(
                    (#[trigger] e[k][i]).0 as int,
                ) implies satisfies_literal(model, trail_literal(a, e[k][i].0 as int)) || (
            e[k][i].1 is Some && forall|p: int|
                0 <= p < f[e[k][i].1->0 as int].len() && #[trigger] f[e[k][i].1->0 as int][p]
                    != trail_literal(a, e[k][i].0 as int) ==> need.contains(
                    variable_of(f[e[k][i].1->0 as int][p]),
                )) by {
                let v = e[k][i].0 as int;
                crate::cdcl::mincut::chronology::lemma_flat_at(e, k, i);
                let p = offset(e, k) + i;
                assert(entries[p] == e[k][i]);
                assert(indices[entries[p].0 as int] == 2 + 2 * p);
                assert(!cut[3 + 2 * p]);
                if cut[2 + 2 * p] {
                    lemma_severed_has(labels, cut, labels.len() as int, p);
                    let denial = negation(labels[2 + 2 * p]);
                    let j = choose|j: int| 0 <= j < learned.len() && learned[j] == denial;
                    assert(!satisfies_literal(model, learned[j]));
                    assert(labels[2 + 2 * p] == trail_literal(a, v));
                } else {
                    assert(linked_at(targets, indices, f, a, entries, p));
                    if e[k][i].1 is None {
                        assert(targets[0].contains(2 + 2 * p));
                        lemma_not_cut(before, after, targets, weights, bar, cut, 0, 2 + 2 * p);
                        assert(!cut[0]);
                    } else {
                        let r = e[k][i].1->0 as int;
                        assert(reason_ok(f, a, e, k, i));
                        assert forall|q: int|
                            0 <= q < f[r].len() && #[trigger] f[r][q] != trail_literal(
                                a,
                                v,
                            ) implies need.contains(variable_of(f[r][q])) by {
                            let u = variable_of(f[r][q]);
                            assert(fails(a, f[r][q]));
                            let o = lemma_flat_has(a, e, u);
                            assert(indices[entries[o].0 as int] == 2 + 2 * o);
                            let row = indices[u] + 1;
                            assert(targets[row].contains(2 + 2 * p));
                            lemma_not_cut(
                                before,
                                after,
                                targets,
                                weights,
                                bar,
                                cut,
                                row,
                                2 + 2 * p,
                            );
                            assert(!cut[row]);
                        }
                    }
                }
            }
            assert forall|q: int| 0 <= q < conflict.len() implies fails(a, #[trigger] conflict[q])
                && need.contains(variable_of(conflict[q])) by {
                let u = variable_of(conflict[q]);
                assert(fails(a, conflict[q]));
                let o = lemma_flat_has(a, e, u);
                assert(indices[entries[o].0 as int] == 2 + 2 * o);
                let row = indices[u] + 1;
                assert(targets[row].contains(1));
                lemma_not_cut(before, after, targets, weights, bar, cut, row, 1);
                assert(!cut[row]);
            }
            lemma_closure_refutes(f, n, a, e, model, need, conflict);
            assert(satisfies_clause(model, conflict));
        }
    }
}

/// Every target of `row` is a target of `of`.
pub open spec fn within(row: Seq<int>, of: Seq<int>) -> bool {
    forall|k: int| 0 <= k < row.len() ==> of.contains(#[trigger] row[k])
}

/// Every edge out of the source leads to the entry side of a decision.
pub open spec fn sourced(targets: Seq<Seq<int>>, entries: Seq<(Variable, Reason)>) -> bool {
    targets.len() > 0 && forall|k: int|
        0 <= k < targets[0].len() ==> (#[trigger] targets[0][k]) % 2 == 0 && 2 <= targets[0][k]
            < 2 + 2 * entries.len() && entries[(targets[0][k] - 2) / 2].1 is None
}

/// The rows of `after` hold all that the rows of `before` held.
pub open spec fn kept(before: Seq<Seq<int>>, after: Seq<Seq<int>>) -> bool {
    &&& after.len() >= before.len()
    &&& forall|v: int, x: int|
        0 <= v < before.len() && before[v].contains(x) ==> #[trigger] after[v].contains(x)
}

/// Every vertex from 2 on is labelled with a literal of a variable below
/// the number of variables, and that variable has no value exactly if the
/// vertex lies at `bound` or beyond.
pub open spec fn labelled(labels: Seq<Literal>, a: Seq<VariableState>, bound: int) -> bool {
    forall|u: int|
        2 <= u < labels.len() ==> variable_of(#[trigger] labels[u]) < a.len() && ((
        a[variable_of(labels[u])] is Unset) <==> u >= bound)
}

/// The negations of the literals among the first `upto` vertices that the
/// cut severs: the entry side lies on the source side, the exit side does
/// not.
pub open spec fn severed(labels: Seq<Literal>, cut: Seq<bool>, upto: int) -> Seq<Literal>
    decreases upto,
{
    if upto < 4 {
        Seq::empty()
    } else if upto % 2 == 1 {
        severed(labels, cut, upto - 1)
    } else if cut[upto - 2] && !cut[upto - 1] {
        severed(labels, cut, upto - 2).push(negation(labels[upto - 2]))
    } else {
        severed(labels, cut, upto - 2)
    }
}

/// An odd vertex left over at the end adds nothing.
pub proof fn lemma_severed_tail(labels: Seq<Literal>, cut: Seq<bool>, v: int, len: int)
    requires
        2 <= v <= len,
        v % 2 == 0,
        v + 1 >= len,
    ensures
        severed(labels, cut, v) == severed(labels, cut, len),
{
}

impl<W: MinCutWeight, T: WeightHeuristic<W>> MinCutConflict<W, T> {
    /// The targets of the edges out of every vertex.
    pub closed spec fn targets(&self) -> Seq<Seq<int>> {
        targets_of(self.graph@)
    }

    /// The literal that labels every vertex.
    pub closed spec fn marks(&self) -> Seq<Literal> {
        self.labels@
    }

    /// The rule that weighs the vertices.
    pub closed spec fn rule(&self) -> T {
        self.weight_heuristic
    }

    /// The weights of the edges out of every vertex.
    pub closed spec fn weights(&self) -> Seq<Seq<nat>> {
        weights_of(self.graph@)
    }

    /// The parents listed for every vertex.
    pub closed spec fn parent_lists(&self) -> Seq<Seq<usize>> {
        parents_of(self.parents@)
    }

    /// The graph mirrors the trail `(a, e)` of a search on `f`.
    pub closed spec fn mirrors(
        &self,
        f: Seq<Seq<Literal>>,
        a: Seq<VariableState>,
        e: Entries,
    ) -> bool {
        &&& framed(self.labels@, self.indices@, a, flat(e))
        &&& self.graph.len() == self.labels.len()
        &&& wired(self.targets(), self.parent_lists())
        &&& linked(self.targets(), self.indices@, f, a, flat(e))
        &&& sourced(self.targets(), flat(e))
    }

    /// The graph mirrors the trail `(a, e)` and leads on to the sink from
    /// the literals of a failing clause.
    pub closed spec fn drained(
        &self,
        f: Seq<Seq<Literal>>,
        a: Seq<VariableState>,
        e: Entries,
    ) -> bool {
        &&& framed(self.labels@, self.indices@, a, flat(e))
        &&& self.graph.len() == self.labels.len()
        &&& self.parents.len() == self.graph.len()
        &&& linked(self.targets(), self.indices@, f, a, flat(e))
        &&& sourced(self.targets(), flat(e))
        &&& sunk(
            self.targets(),
            self.parent_lists().update(1, Seq::empty()),
            self.parents[1]@,
            0,
        )
    }

    const SINK: usize = 1;

    const SOURCE: usize = 0;

    fn add_edge(&mut self, from: usize, to: usize)
        requires
            from < old(self).graph.len(),
            to < old(self).parents.len(),
        ensures
            final(self).targets() == old(self).targets().update(
                from as int,
                old(self).targets()[from as int].push(to as int),
            ),
            final(self).parent_lists() == old(self).parent_lists().update(
                to as int,
                old(self).parent_lists()[to as int].push(from),
            ),
            final(self).graph.len() == old(self).graph.len(),
            final(self).parents.len() == old(self).parents.len(),
            final(self).labels == old(self).labels,
            final(self).indices == old(self).indices,
            final(self).weight_heuristic == old(self).weight_heuristic,
            kept(old(self).targets(), final(self).targets()),
            final(self).targets()[from as int].contains(to as int),
    {
        self.graph[from].push((to, W::zero()));
        self.parents[to].push(from);
        proof {
            let before = old(self).targets();
            let after = before.update(from as int, before[from as int].push(to as int));
            assert forall|v: int, x: int|
                0 <= v < before.len() && before[v].contains(x) implies #[trigger] after[v].contains(
                x,
            ) by {
                let k = choose|k: int| 0 <= k < before[v].len() && before[v][k] == x;
                if v == from {
                    assert(after[v][k] == x);
                }
            }
            assert(after[from as int][before[from as int].len() as int] == to as int);
            let target = old(self).targets().update(
                from as int,
                old(self).targets()[from as int].push(to as int),
            );
            assert forall|v: int| 0 <= v < self.graph.len() implies #[trigger] self.targets()[v]
                == target[v] by {
                if v == from {
                    assert(self.targets()[v] =~= old(self).targets()[from as int].push(to as int));
                } else {
                    assert(self.graph[v] == old(self).graph[v]);
                    assert(self.targets()[v] =~= old(self).targets()[v]);
                }
            }
            assert(self.targets() =~= target);
            assert(self.parent_lists() =~= old(self).parent_lists().update(
                to as int,
                old(self).parent_lists()[to as int].push(from),
            ));
        }
    }

    /// Gives `literal`, new on the trail, its two vertices, and leads into
    /// its entry side from the source for a decision, and else from the exit
    /// sides of the other literals of the clause that forced it.
    fn add_literal(
        &mut self,
        literal: Literal,
        reason: Option<&Clause>,
        Ghost(a0): Ghost<Seq<VariableState>>,
        Ghost(a1): Ghost<Seq<VariableState>>,
        Ghost(before): Ghost<Seq<(Variable, Reason)>>,
        Ghost(entry): Ghost<(Variable, Reason)>,
        Ghost(f): Ghost<Seq<Seq<Literal>>>,
    )
        requires
            framed(old(self).labels@, old(self).indices@, a0, before),
            old(self).graph.len() == old(self).labels.len(),
            wired(old(self).targets(), old(self).parent_lists()),
            before.len() < a0.len(),
            a0.len() < isize::MAX,
            a1.len() == a0.len(),
            open_in(a0, literal),
            holds(a1, literal),
            forall|v: int| 0 <= v < a0.len() && v != variable_of(literal) ==> a1[v] == a0[v],
            entry.0 == variable_of(literal),
            forall|p: int| 0 <= p < before.len() ==> !(a0[(#[trigger] before[p]).0 as int] is Unset),
            reason matches Some(clause) ==> forall|q: int|
                0 <= q < clause.len() && #[trigger] clause[q] != literal ==> fails(a0, clause[q])
                    && exists|p: int|
                    0 <= p < before.len() && (#[trigger] before[p]).0 == variable_of(clause[q]),
            linked(old(self).targets(), old(self).indices@, f, a0, before),
            sourced(old(self).targets(), before),
            forall|p: int, q: int|
                0 <= p < before.len() && (#[trigger] before[p]).1 is Some && 0 <= q
                    < f[before[p].1->0 as int].len() && #[trigger] f[before[p].1->0 as int][q]
                    != trail_literal(a0, before[p].0 as int) ==> variable_of(
                    f[before[p].1->0 as int][q],
                ) != variable_of(literal) && variable_of(f[before[p].1->0 as int][q]) < a0.len(),
            match reason {
                None => entry.1 is None,
                Some(clause) => entry.1 is Some && entry.1->0 < f.len() && f[entry.1->0 as int]
                    == clause@,
            },
        ensures
            framed(final(self).labels@, final(self).indices@, a1, before.push(entry)),
            final(self).graph.len() == final(self).labels.len(),
            wired(final(self).targets(), final(self).parent_lists()),
            linked(final(self).targets(), final(self).indices@, f, a1, before.push(entry)),
            sourced(final(self).targets(), before.push(entry)),
            final(self).weight_heuristic == old(self).weight_heuristic,
    {
        let ghost g0 = self.targets();
        let ghost p0 = self.parent_lists();
        let in_id = self.graph.len();
        let out_id = in_id + 1;
        let mut first: Vec<(usize, W)> = Vec::new();
        first.push((out_id, W::zero()));
        self.graph.push(first);
        self.parents.push(Vec::new());
        self.labels.push(literal);
        self.graph.push(Vec::new());
        let mut above: Vec<usize> = Vec::new();
        above.push(in_id);
        self.parents.push(above);
        self.labels.push(literal);
        let variable = variable_name(literal);
        self.indices[variable] = in_id;
        proof {
            lemma_wired_facts(g0, p0);
            assert(self.targets() =~= with_pair(g0)) by {
                assert forall|v: int| 0 <= v < self.graph.len() implies #[trigger] self.targets()[v]
                    == with_pair(g0)[v] by {
                    if v < in_id {
                        assert(self.graph[v] == old(self).graph[v]);
                        assert(self.targets()[v] =~= g0[v]);
                    } else if v == in_id {
                        assert(self.targets()[v] =~= seq![in_id as int + 1]);
                    } else {
                        assert(self.targets()[v] =~= Seq::<int>::empty());
                    }
                }
            }
            assert(self.parent_lists() =~= with_pair_parents(p0)) by {
                assert forall|v: int| 0 <= v < self.parents.len() implies #[trigger] self.parent_lists()[v]
                    == with_pair_parents(p0)[v] by {
                    if v < in_id {
                        assert(self.parents[v] == old(self).parents[v]);
                    } else if v == in_id {
                        assert(self.parent_lists()[v] =~= Seq::<usize>::empty());
                    } else {
                        assert(self.parent_lists()[v] =~= seq![in_id]);
                    }
                }
            }
            lemma_wired_pair(g0, p0);
            lemma_trail_literal(a1, literal);
            let after = before.push(entry);
            assert forall|p: int| 0 <= p < before.len() implies #[trigger] linked_at(
                self.targets(),
                self.indices@,
                f,
                a1,
                before,
                p,
            ) by {
                assert(linked_at(g0, old(self).indices@, f, a0, before, p));
                assert(!(a0[before[p].0 as int] is Unset));
                assert(trail_literal(a1, before[p].0 as int) == trail_literal(
                    a0,
                    before[p].0 as int,
                ));
                match before[p].1 {
                    None => {
                        let k = choose|k: int| 0 <= k < g0[0].len() && g0[0][k] == 2 + 2 * p;
                        assert(self.targets()[0][k] == 2 + 2 * p);
                    },
                    Some(r) => {
                        assert forall|q: int|
                            0 <= q < f[r as int].len() && #[trigger] f[r as int][q]
                                != trail_literal(a1, before[p].0 as int) implies variable_of(
                            f[r as int][q],
                        ) < self.indices.len() && self.indices[variable_of(f[r as int][q])] + 1
                            < self.targets().len() && self.targets()[self.indices[variable_of(
                            f[r as int][q],
                        )] + 1].contains(2 + 2 * p) by {
                            let u = variable_of(f[r as int][q]);
                            assert(u != variable_of(literal));
                            let row = old(self).indices[u] + 1;
                            assert(g0[row].contains(2 + 2 * p));
                            let k = choose|k: int| 0 <= k < g0[row].len() && g0[row][k] == 2 + 2 * p;
                            assert(self.targets()[row][k] == 2 + 2 * p);
                        }
                    },
                }
            }
        }
        let ghost g1 = self.targets();
        let ghost after = before.push(entry);
        proof {
            assert(kept(g1, g1));
            assert(linked(g1, self.indices@, f, a1, before));
            assert(g1[0] == g0[0]);
        }
        let ghost idx = self.indices@;
        match reason {
            None => {
                proof {
                    lemma_wired_facts(self.targets(), self.parent_lists());
                    assert forall|k: int| 0 <= k < self.targets()[0].len() implies (
                    #[trigger] self.targets()[0][k]) <= self.targets().len() - 2 by {}
                    lemma_wired_edge(self.targets(), self.parent_lists(), 0);
                }
                self.add_edge(Self::SOURCE, in_id);
            },
            Some(clause) => {
                let mut q: usize = 0;
                while q < clause.len()
                    invariant
                        q <= clause.len(),
                        in_id + 2 == self.graph.len(),
                        in_id >= 2,
                        in_id % 2 == 0,
                        in_id == 2 + 2 * before.len(),
                        self.graph.len() == self.labels.len(),
                        self.parents.len() == self.graph.len(),
                        self.graph.len() < usize::MAX,
                        self.weight_heuristic == old(self).weight_heuristic,
                        wired(self.targets(), self.parent_lists()),
                        forall|v: int, k: int|
                            0 <= v < in_id && 0 <= k < self.targets()[v].len() ==> (
                            #[trigger] self.targets()[v][k]) <= in_id,
                        framed(self.labels@, self.indices@, a1, before.push(entry)),
                        a1.len() == a0.len(),
                        a0.len() < isize::MAX,
                        open_in(a0, literal),
                        forall|r: int|
                            0 <= r < clause.len() && #[trigger] clause[r] != literal ==> fails(
                                a0,
                                clause[r],
                            ) && exists|p: int|
                                0 <= p < before.len() && (#[trigger] before[p]).0 == variable_of(
                                    clause[r],
                                ),
                        kept(g1, self.targets()),
                        g1.len() == self.graph.len(),
                        self.indices@ == idx,
                        linked(g1, idx, f, a1, before),
                        self.targets()[0] == g1[0],
                        forall|r: int|
                            0 <= r < q && #[trigger] clause[r] != literal ==> self.targets()[self.indices[variable_of(
                                clause[r],
                            )] + 1].contains(in_id as int),
                    decreases clause.len() - q,
                {
                    let other = clause[q];
                    if other != literal {
                        let ghost p = choose|p: int|
                            0 <= p < before.len() && (#[trigger] before[p]).0 == variable_of(
                                clause[q as int],
                            );
                        proof {
                            assert(before.push(entry)[p] == before[p]);
                            assert(self.indices[before[p].0 as int] == 2 + 2 * p);
                        }
                        let from = self.indices[variable_name(other)] + 1;
                        let ghost g = self.targets();
                        proof {
                            lemma_wired_edge(self.targets(), self.parent_lists(), from as int);
                        }
                        self.add_edge(from, in_id);
                        proof {
                            assert forall|r: int|
                                0 <= r < q + 1 && #[trigger] clause[r] != literal implies self.targets()[self.indices[variable_of(
                                clause[r],
                            )] + 1].contains(in_id as int) by {
                                if r < q {
                                    let pr = choose|pr: int|
                                        0 <= pr < before.len() && (#[trigger] before[pr]).0
                                            == variable_of(clause[r]);
                                    assert(before.push(entry)[pr] == before[pr]);
                                    let row = self.indices[variable_of(clause[r])] + 1;
                                    assert(g[row].contains(in_id as int));
                                }
                            }
                        }
                    }
                    q += 1;
                }
            },
        }
        proof {
            let g2 = self.targets();
            assert forall|k: int| 0 <= k < g2[0].len() implies (#[trigger] g2[0][k]) % 2 == 0 && 2
                <= g2[0][k] < 2 + 2 * after.len() && after[(g2[0][k] - 2) / 2].1 is None by {
                if k < g0[0].len() {
                    assert(g2[0][k] == g0[0][k]);
                    assert(after[(g0[0][k] - 2) / 2] == before[(g0[0][k] - 2) / 2]);
                } else {
                    assert(g2[0][k] == in_id);
                    assert(after[before.len() as int] == entry);
                }
            }
            assert(linked(g1, self.indices@, f, a1, before));
            lemma_linked_kept(g1, g2, self.indices@, f, a1, before);
            assert forall|p: int| 0 <= p < after.len() implies #[trigger] linked_at(
                g2,
                self.indices@,
                f,
                a1,
                after,
                p,
            ) by {
                if p < before.len() {
                    assert(after[p] == before[p]);
                    assert(linked_at(g2, self.indices@, f, a1, before, p));
                } else {
                    assert(after[p] == entry);
                    assert(trail_literal(a1, entry.0 as int) == literal);
                    match reason {
                        None => {},
                        Some(clause) => {
                            let r = entry.1->0;
                            assert forall|q: int|
                                0 <= q < f[r as int].len() && #[trigger] f[r as int][q]
                                    != literal implies variable_of(f[r as int][q])
                                < self.indices.len() && self.indices[variable_of(f[r as int][q])]
                                + 1 < g2.len() && g2[self.indices[variable_of(f[r as int][q])]
                                + 1].contains(2 + 2 * p) by {
                                assert(clause[q] == f[r as int][q]);
                                let u = variable_of(clause[q]);
                                let pu = choose|pu: int|
                                    0 <= pu < before.len() && (#[trigger] before[pu]).0 == u;
                                assert(after[pu] == before[pu]);
                                assert(self.indices[after[pu].0 as int] == 2 + 2 * pu);
                            }
                        },
                    }
                }
            }
        }
    }

    /// Gives edge `k` out of vertex `v` the weight `weight`.
    fn set_weight(&mut self, v: usize, k: usize, weight: W)
        requires
            v < old(self).graph.len(),
            k < old(self).graph[v as int].len(),
        ensures
            final(self).targets() == old(self).targets(),
            final(self).graph.len() == old(self).graph.len(),
            final(self).parents == old(self).parents,
            final(self).labels == old(self).labels,
            final(self).indices == old(self).indices,
            final(self).weight_heuristic == old(self).weight_heuristic,
            final(self).graph[v as int][k as int].1 == weight,
            final(self).weights() == old(self).weights().update(
                v as int,
                old(self).weights()[v as int].update(k as int, weight.value()),
            ),
            forall|u: int, j: int|
                0 <= u < old(self).graph.len() && 0 <= j < old(self).graph[u].len() && (u != v
                    || j != k) ==> final(self).graph[u].len() == old(self).graph[u].len()
                    && #[trigger] final(self).graph[u][j] == old(self).graph[u][j],
            final(self).graph[v as int].len() == old(self).graph[v as int].len(),
    {
        let target = self.graph[v][k].0;
        let ghost number = weight.value();
        self.graph[v][k] = (target, weight);
        proof {
            assert forall|u: int| 0 <= u < self.graph.len() implies #[trigger] self.targets()[u]
                == old(self).targets()[u] by {
                assert(self.targets()[u] =~= old(self).targets()[u]);
            }
            assert(self.targets() =~= old(self).targets());
            let wanted = old(self).weights().update(
                v as int,
                old(self).weights()[v as int].update(k as int, number),
            );
            assert forall|u: int| 0 <= u < self.graph.len() implies #[trigger] self.weights()[u]
                == wanted[u] by {
                assert(self.weights()[u] =~= wanted[u]);
            }
            assert(self.weights() =~= wanted);
        }
    }

    /// Leads from the exit side of every literal of the failing clause to
    /// the sink.
    fn lead_to_sink(&mut self, trail: &Trail, conflict: &Clause, Ghost(f): Ghost<Seq<Seq<Literal>>>)
        requires
            old(self).mirrors(f, trail.assignment@, trail.entries()),
            well_formed(trail.assignment@, trail.entries()),
            forall|q: int| 0 <= q < conflict.len() ==> fails(trail.assignment@, #[trigger] conflict[q]),
        ensures
            final(self).drained(f, trail.assignment@, trail.entries()),
            final(self).weight_heuristic == old(self).weight_heuristic,
            final(self).indices == old(self).indices,
            final(self).labels == old(self).labels,
            forall|q: int|
                0 <= q < conflict.len() ==> final(self).targets()[final(self).indices[variable_of(
                    #[trigger] conflict[q],
                )] + 1].contains(1),
    {
        let ghost a = trail.assignment@;
        let ghost e = trail.entries();
        let ghost clean = self.parent_lists();
        proof {
            lemma_wired_facts(self.targets(), clean);
            lemma_sunk_start(self.targets(), clean);
            assert(clean[1] =~= Seq::<usize>::empty());
            assert(clean.update(1, Seq::empty()) =~= clean);
            assert(self.parents[1]@ =~= Seq::<usize>::empty());
            lemma_flat_entries(a, e);
        }
        let mut q: usize = 0;
        while q < conflict.len()
            invariant
                q <= conflict.len(),
                a == trail.assignment@,
                e == trail.entries(),
                well_formed(a, e),
                forall|r: int| 0 <= r < conflict.len() ==> fails(a, #[trigger] conflict[r]),
                framed(self.labels@, self.indices@, a, flat(e)),
                self.graph.len() == self.labels.len(),
                self.parents.len() == self.graph.len(),
                self.weight_heuristic == old(self).weight_heuristic,
                self.indices == old(self).indices,
                self.labels == old(self).labels,
                self.parent_lists().update(1, Seq::empty()) == clean,
                sunk(self.targets(), clean, self.parents[1]@, 0),
                linked(self.targets(), self.indices@, f, a, flat(e)),
                sourced(self.targets(), flat(e)),
                forall|r: int|
                    0 <= r < q ==> self.targets()[self.indices[variable_of(#[trigger] conflict[r])]
                        + 1].contains(1),
            decreases conflict.len() - q,
        {
            let variable = variable_name(conflict[q]);
            proof {
                assert(fails(a, conflict[q as int]));
                let p = lemma_flat_has(a, e, variable as int);
                assert(self.indices[flat(e)[p].0 as int] == 2 + 2 * p);
                lemma_sunk_add(
                    self.targets(),
                    clean,
                    self.parents[1]@,
                    (self.indices[variable as int] + 1) as usize,
                );
            }
            let from = self.indices[variable] + 1;
            let ghost lists = self.parent_lists();
            let ghost g = self.targets();
            self.add_edge(from, Self::SINK);
            proof {
                assert(self.targets()[0] == g[0]);
                lemma_linked_kept(g, self.targets(), self.indices@, f, a, flat(e));
                assert forall|r: int| 0 <= r < q + 1 implies self.targets()[self.indices[variable_of(
                    #[trigger] conflict[r],
                )] + 1].contains(1) by {
                    if r < q {
                        assert(fails(a, conflict[r]));
                        let pr = lemma_flat_has(a, e, variable_of(conflict[r]));
                        assert(self.indices[flat(e)[pr].0 as int] == 2 + 2 * pr);
                        let row = self.indices[variable_of(conflict[r])] + 1;
                        assert(g[row].contains(1));
                    }
                }
                assert(self.parent_lists()[1] == self.parents[1]@);
                assert(self.parents[1]@ == lists[1].push(from));
                assert(self.parent_lists().update(1, Seq::empty()) =~= lists.update(
                    1,
                    Seq::empty(),
                ));
            }
            q += 1;
        }
    }

    /// Sets the weights for a conflict at the top level of the trail: the
    /// edge from entry side to exit side of every literal gets what the
    /// heuristic says of it, every other edge what the source holds.
    fn weigh(&mut self, trail: &Trail, source_excess: &W, Ghost(f): Ghost<Seq<Seq<Literal>>>)
        requires
            old(self).drained(f, trail.assignment@, trail.entries()),
            well_formed(trail.assignment@, trail.entries()),
        ensures
            final(self).drained(f, trail.assignment@, trail.entries()),
            final(self).weight_heuristic == old(self).weight_heuristic,
            final(self).targets() == old(self).targets(),
            final(self).indices == old(self).indices,
            final(self).labels == old(self).labels,
            loaded(final(self).weights(), source_excess.value()),
            forall|p: int|
                0 <= p < flat(trail.entries()).len() ==> (#[trigger] final(self).weights()[2 + 2
                    * p]) == seq![
                    entry_weight(
                        final(self).weight_heuristic,
                        trail.assignment@,
                        trail.entries(),
                        flat(trail.entries())[p].0 as int,
                    ),
                ],
    {
        let ghost a = trail.assignment@;
        let ghost e = trail.entries();
        let ghost g = self.targets();
        let ghost bar = source_excess.value();
        let ghost rule = self.weight_heuristic;
        let conflict_level = trail.levels.len() - 1;
        proof {
            lemma_sunk_facts(g, self.parent_lists().update(1, Seq::empty()), self.parents[1]@);
            lemma_flat_entries(a, e);
        }
        let mut v: usize = 2;
        while v < self.graph.len()
            invariant
                2 <= v <= self.graph.len() + 1,
                v % 2 == 0,
                a == trail.assignment@,
                e == trail.entries(),
                well_formed(a, e),
                conflict_level == e.len() - 1,
                self.targets() == g,
                self.parents == old(self).parents,
                self.labels == old(self).labels,
                self.indices == old(self).indices,
                self.weight_heuristic == rule,
                self.graph.len() == self.labels.len(),
                self.graph.len() < usize::MAX,
                framed(self.labels@, self.indices@, a, flat(e)),
                forall|q: int| 2 <= q < g.len() && q % 2 == 0 ==> #[trigger] g[q] == seq![q + 1],
                forall|p: int|
                    0 <= p < flat(e).len() ==> (#[trigger] flat(e)[p]).0 < a.len() && !(a[flat(
                        e,
                    )[p].0 as int] is Unset),
                forall|p: int|
                    0 <= p && 2 + 2 * p < v ==> (#[trigger] self.weights()[2 + 2 * p]) == seq![
                        entry_weight(rule, a, e, flat(e)[p].0 as int),
                    ],
            decreases self.graph.len() + 1 - v,
        {
            let ghost p = (v - 2) / 2;
            let ghost w0 = self.weights();
            proof {
                assert(v == 2 + 2 * p);
                assert(flat(e)[p].0 < a.len());
                assert(self.labels[2 + 2 * p] == trail_literal(a, flat(e)[p].0 as int));
                assert(variable_of(self.labels[v as int]) == flat(e)[p].0);
                let var = flat(e)[p].0 as int;
                assert(listed_from(e[a[var].level() as int], 0, var));
                assert(e[a[var].level() as int] == trail.levels[a[var].level() as int]@);
                assert(g[v as int] == seq![v + 1]);
                assert(self.targets()[v as int].len() == self.graph[v as int].len());
                assert(w0[v as int].len() == self.graph[v as int].len());
            }
            let variable = variable_name(self.labels[v]);
            let level = trail.assignment[variable].decision_level();
            let weight = self.weight_heuristic.gen_vertex_weight(
                level,
                conflict_level,
                trail.levels[level][0].0 == variable,
            );
            self.set_weight(v, 0, weight);
            proof {
                assert(self.weights()[v as int] =~= seq![
                    entry_weight(rule, a, e, flat(e)[p].0 as int),
                ]);
                assert forall|o: int| 0 <= o && 2 + 2 * o < v + 2 implies (
                #[trigger] self.weights()[2 + 2 * o]) == seq![
                    entry_weight(rule, a, e, flat(e)[o].0 as int),
                ] by {
                    if o != p {
                        assert(self.weights()[2 + 2 * o] == w0[2 + 2 * o]);
                    }
                }
            }
            v += 2;
        }
        let ghost w1 = self.weights();
        let mut k: usize = 0;
        while k < self.graph[0].len()
            invariant
                self.targets() == g,
                self.parents == old(self).parents,
                self.labels == old(self).labels,
                self.indices == old(self).indices,
                self.weight_heuristic == rule,
                self.graph.len() == self.labels.len(),
                self.graph.len() >= 2,
                bar == source_excess.value(),
                self.weights().len() == w1.len(),
                w1.len() == self.graph.len(),
                forall|u: int| 1 <= u < w1.len() ==> #[trigger] self.weights()[u] == w1[u],
                k <= self.graph[0].len(),
                self.weights()[0].len() == self.graph[0].len(),
                forall|j: int| 0 <= j < k ==> #[trigger] self.weights()[0][j] == bar,
            decreases self.graph[0].len() - k,
        {
            self.set_weight(0, k, source_excess.duplicate());
            k += 1;
        }
        let ghost w2 = self.weights();
        let mut v: usize = 3;
        while v < self.graph.len()
            invariant
                self.targets() == g,
                self.parents == old(self).parents,
                self.labels == old(self).labels,
                self.indices == old(self).indices,
                self.weight_heuristic == rule,
                self.graph.len() == self.labels.len(),
                self.graph.len() < usize::MAX,
                3 <= v <= self.graph.len() + 1,
                v % 2 == 1,
                bar == source_excess.value(),
                self.weights().len() == w2.len(),
                w2.len() == self.graph.len(),
                forall|u: int|
                    0 <= u < w2.len() && (u % 2 == 0 || u == 1 || u >= v)
                        ==> #[trigger] self.weights()[u] == w2[u],
                forall|u: int, j: int|
                    3 <= u < v && u < w2.len() && u % 2 == 1 && 0 <= j < self.weights()[u].len()
                        ==> #[trigger] self.weights()[u][j] == bar,
            decreases self.graph.len() + 1 - v,
        {
            let ghost w3 = self.weights();
            let mut k: usize = 0;
            while k < self.graph[v].len()
                invariant
                    self.targets() == g,
                    self.parents == old(self).parents,
                    self.labels == old(self).labels,
                    self.indices == old(self).indices,
                    self.weight_heuristic == rule,
                    self.graph.len() == self.labels.len(),
                    self.graph.len() < usize::MAX,
                    v < self.graph.len(),
                    bar == source_excess.value(),
                    self.weights().len() == w3.len(),
                    w3.len() == self.graph.len(),
                    forall|u: int| 0 <= u < w3.len() && u != v ==> #[trigger] self.weights()[u] == w3[u],
                    k <= self.graph[v as int].len(),
                    self.weights()[v as int].len() == self.graph[v as int].len(),
                    forall|j: int| 0 <= j < k ==> #[trigger] self.weights()[v as int][j] == bar,
                decreases self.graph[v as int].len() - k,
            {
                self.set_weight(v, k, source_excess.duplicate());
                k += 1;
            }
            v += 2;
        }
        proof {
            assert forall|p: int| 0 <= p < flat(e).len() implies (#[trigger] self.weights()[2 + 2
                * p]) == seq![entry_weight(rule, a, e, flat(e)[p].0 as int)] by {
                assert(self.weights()[2 + 2 * p] == w2[2 + 2 * p]);
                assert(w2[2 + 2 * p] == w1[2 + 2 * p]);
            }
            assert(self.weights()[0] == w2[0]);
        }
    }

    /// The excess before any flow: the source holds `source_excess`, every
    /// other vertex nothing.
    fn excess_at_source(vertices: usize, source_excess: &W) -> (excess: Vec<W>)
        requires
            vertices >= 1,
        ensures
            excess.len() == vertices,
            total(values(excess@)) == source_excess.value(),
            values(excess@) == at_source(vertices as int, source_excess.value()),
    {
        let mut excess: Vec<W> = Vec::new();
        excess.push(source_excess.duplicate());
        proof {
            assert(values(excess@) =~= Seq::<nat>::empty().push(source_excess.value()));
            lemma_total_push(Seq::<nat>::empty(), source_excess.value());
            assert(crate::sk1flow::network::as_terms(Seq::<nat>::empty()) =~= Seq::<int>::empty());
            assert(values(excess@) =~= at_source(1, source_excess.value()));
        }
        while excess.len() < vertices
            invariant
                1 <= excess.len() <= vertices,
                total(values(excess@)) == source_excess.value(),
                values(excess@) == at_source(excess.len() as int, source_excess.value()),
            decreases vertices - excess.len(),
        {
            let ghost before = values(excess@);
            excess.push(W::zero());
            proof {
                assert(values(excess@) =~= before.push(0nat));
                lemma_total_push(before, 0nat);
                assert(values(excess@) =~= at_source(excess.len() as int, source_excess.value()));
            }
        }
        excess
    }

    /// The negation of every literal that the cut severs: whose entry side
    /// lies on the source side and whose exit side does not.
    fn read_cut(&self, cut: &Vec<bool>) -> (clause: Clause)
        requires
            cut.len() == self.labels.len(),
            2 <= self.labels.len() < usize::MAX,
        ensures
            clause@ == severed(self.labels@, cut@, self.labels.len() as int),
    {
        let mut clause: Vec<Literal> = Vec::new();
        let mut v: usize = 2;
        while v + 1 < cut.len()
            invariant
                2 <= v <= cut.len(),
                v % 2 == 0,
                cut.len() == self.labels.len(),
                cut.len() < usize::MAX,
                clause@ == severed(self.labels@, cut@, v as int),
            decreases cut.len() + 1 - v,
        {
            if cut[v] && !cut[v + 1] {
                clause.push(negate(self.labels[v]));
            }
            v += 2;
        }
        proof {
            lemma_severed_tail(self.labels@, cut@, v as int, self.labels.len() as int);
        }
        clause
    }

    /// Takes out the edges to the sink, one for every time a vertex is
    /// named among the sink's parents.
    fn unsink(&mut self)
        requires
            old(self).parents.len() == old(self).graph.len(),
            old(self).graph.len() >= 2,
            sunk(
                old(self).targets(),
                old(self).parent_lists().update(1, Seq::empty()),
                old(self).parents[1]@,
                0,
            ),
        ensures
            wired(final(self).targets(), final(self).parent_lists()),
            final(self).graph.len() == old(self).graph.len(),
            final(self).parents.len() == old(self).parents.len(),
            final(self).labels == old(self).labels,
            final(self).indices == old(self).indices,
            final(self).weight_heuristic == old(self).weight_heuristic,
            kept_in(
                old(self).targets(),
                final(self).targets(),
                old(self).graph.len() as int,
                2,
                old(self).graph.len() as int,
            ),
            final(self).targets()[0] == old(self).targets()[0],
    {
        let ghost clean = self.parent_lists().update(1, Seq::empty());
        let ghost g_first = self.targets();
        let ghost rows = self.graph.len() as int;
        let mut sinks: Vec<usize> = Vec::new();
        std::mem::swap(&mut self.parents[1], &mut sinks);
        proof {
            assert(self.parent_lists() =~= clean);
        }
        let mut i: usize = 0;
        while i < sinks.len()
            invariant
                i <= sinks.len(),
                self.parent_lists() == clean,
                self.graph.len() == old(self).graph.len(),
                self.parents.len() == old(self).parents.len(),
                self.labels == old(self).labels,
                self.indices == old(self).indices,
                self.weight_heuristic == old(self).weight_heuristic,
                sunk(self.targets(), clean, sinks@, i as int),
                rows == self.graph.len(),
                g_first.len() == rows,
                kept_in(g_first, self.targets(), rows, 2, rows),
                self.targets()[0] == g_first[0],
            decreases sinks.len() - i,
        {
            let v = sinks[i];
            let ghost g = self.targets();
            proof {
                lemma_sunk_pop(g, clean, sinks@, i as int);
                assert(g[v as int].len() == self.graph[v as int].len());
            }
            self.graph[v].pop();
            proof {
                assert forall|u: int| 0 <= u < self.graph.len() implies #[trigger] self.targets()[u]
                    == g.update(v as int, g[v as int].drop_last())[u] by {
                    if u == v {
                        assert(self.targets()[u] =~= g[v as int].drop_last());
                    } else {
                        assert(self.targets()[u] =~= g[u]);
                    }
                }
                assert(self.targets() =~= g.update(v as int, g[v as int].drop_last()));
                let g2 = self.targets();
                assert forall|u: int, x: int|
                    0 <= u < rows && 2 <= x < rows && g[u].contains(x) implies #[trigger] g2[u].contains(
                    x,
                ) by {
                    if u == v {
                        let k = choose|k: int| 0 <= k < g[u].len() && g[u][k] == x;
                        assert(g[u].last() == 1);
                        assert(g2[u][k] == x);
                    }
                }
                lemma_kept_in_chain(g_first, g, g2, rows, 2, rows);
            }
            i += 1;
        }
        proof {
            lemma_sunk_done(self.targets(), clean, sinks@);
        }
    }

    /// Takes from the end of the edges of `v` those that lead to vertices
    /// whose variable has no value any more.
    fn pop_redundant_edges(&mut self, v: usize, trail: &Trail, Ghost(bound): Ghost<int>)
        requires
            old(self).graph.len() <= old(self).labels.len(),
            labelled(old(self).labels@, trail.assignment@, bound),
            v < old(self).graph.len() ==> forall|k: int|
                0 <= k < old(self).targets()[v as int].len() ==> 2 <= #[trigger] old(self).targets()[v as int][k] < old(self).labels.len(),
        ensures
            trimmed(old(self).targets(), final(self).targets()),
            forall|u: int|
                0 <= u < old(self).graph.len() && u != v ==> #[trigger] final(self).targets()[u]
                    == old(self).targets()[u],
            v < old(self).graph.len() && final(self).targets()[v as int].len() > 0 ==> final(self).targets()[v as int].last() < bound,
            kept_in(
                old(self).targets(),
                final(self).targets(),
                old(self).graph.len() as int,
                2,
                bound,
            ),
            final(self).graph.len() == old(self).graph.len(),
            final(self).parents == old(self).parents,
            final(self).labels == old(self).labels,
            final(self).indices == old(self).indices,
            final(self).weight_heuristic == old(self).weight_heuristic,
    {
        let ghost g0 = self.targets();
        if v >= self.graph.len() {
            proof {
                assert forall|u: int| 0 <= u < g0.len() implies (#[trigger] self.targets()[u]).len()
                    <= g0[u].len() && self.targets()[u] == g0[u].take(
                    self.targets()[u].len() as int,
                ) by {
                    assert(g0[u].take(g0[u].len() as int) =~= g0[u]);
                }
            }
            return ;
        }
        let mut done = false;
        while !done && self.graph[v].len() > 0
            invariant
                v < self.graph.len(),
                self.graph.len() == old(self).graph.len(),
                self.graph.len() <= self.labels.len(),
                self.parents == old(self).parents,
                self.labels == old(self).labels,
                self.indices == old(self).indices,
                self.weight_heuristic == old(self).weight_heuristic,
                labelled(self.labels@, trail.assignment@, bound),
                g0 == old(self).targets(),
                self.targets()[v as int].len() <= g0[v as int].len(),
                self.targets()[v as int] == g0[v as int].take(
                    self.targets()[v as int].len() as int,
                ),
                forall|u: int|
                    0 <= u < self.graph.len() && u != v ==> #[trigger] self.targets()[u] == g0[u],
                forall|k: int|
                    0 <= k < g0[v as int].len() ==> 2 <= #[trigger] g0[v as int][k]
                        < self.labels.len(),
                forall|k: int|
                    self.targets()[v as int].len() <= k < g0[v as int].len()
                        ==> #[trigger] g0[v as int][k] >= bound,
                done ==> self.targets()[v as int].len() > 0 && self.targets()[v as int].last()
                    < bound,
            decreases self.graph[v as int].len() + if done { 0int } else { 1int },
        {
            let ghost g = self.targets();
            let last = self.graph[v].len() - 1;
            assert(g[v as int].len() == self.graph[v as int].len());
            let u = self.graph[v][last].0;
            proof {
                assert(g[v as int][last as int] == u);
                assert(g[v as int][last as int] == g0[v as int][last as int]);
                assert(variable_of(self.labels[u as int]) < trail.assignment.len());
            }
            if trail.assignment[variable_name(self.labels[u])].is_unset() {
                self.graph[v].pop();
                proof {
                    assert(self.targets()[v as int] =~= g[v as int].drop_last());
                    assert(self.targets()[v as int] =~= g0[v as int].take(
                        self.targets()[v as int].len() as int,
                    ));
                    assert forall|w: int|
                        0 <= w < self.graph.len() && w != v implies #[trigger] self.targets()[w]
                        == g0[w] by {
                        assert(self.targets()[w] =~= g[w]);
                    }
                }
            } else {
                done = true;
            }
        }
        proof {
            assert forall|u: int| 0 <= u < g0.len() implies (#[trigger] self.targets()[u]).len()
                <= g0[u].len() && self.targets()[u] == g0[u].take(
                self.targets()[u].len() as int,
            ) by {
                if u != v {
                    assert(g0[u].take(g0[u].len() as int) =~= g0[u]);
                }
            }
            let g2 = self.targets();
            assert forall|u: int, x: int|
                0 <= u < g0.len() && 2 <= x < bound && g0[u].contains(x) implies #[trigger] g2[u].contains(
                x,
            ) by {
                if u == v {
                    lemma_head_keeps(g0[u], g2[u], 2, bound, x);
                }
            }
        }
    }

    /// Takes the last vertex out of the graph, with the edges that led to it.
    fn pop_redundant_vertex(&mut self, trail: &Trail, Ghost(bound): Ghost<int>)
        requires
            wired(old(self).targets(), old(self).parent_lists()),
            old(self).graph.len() == old(self).parents.len(),
            old(self).graph.len() <= old(self).labels.len(),
            2 <= bound < old(self).graph.len(),
            labelled(old(self).labels@, trail.assignment@, bound),
        ensures
            wired(final(self).targets(), final(self).parent_lists()),
            final(self).graph.len() == old(self).graph.len() - 1,
            final(self).parents.len() == final(self).graph.len(),
            final(self).labels == old(self).labels,
            final(self).indices == old(self).indices,
            final(self).weight_heuristic == old(self).weight_heuristic,
            kept_in(old(self).targets(), final(self).targets(), bound, 2, bound),
            within(final(self).targets()[0], old(self).targets()[0]),
    {
        let ghost g0 = self.targets();
        let ghost p0 = self.parent_lists();
        let ghost t = self.graph.len() - 1;
        proof {
            assert(kept_in(g0, g0, t + 1, 2, bound));
        }
        proof {
            lemma_wired_facts(g0, p0);
        }
        let plist = self.parents.pop().unwrap();
        proof {
            assert(plist@ == p0[t]);
            assert(self.parent_lists() =~= p0.drop_last());
            assert forall|u: int| 0 <= u < g0.len() implies (#[trigger] g0[u]).len() <= g0[u].len()
                && g0[u] == g0[u].take(g0[u].len() as int) by {
                assert(g0[u].take(g0[u].len() as int) =~= g0[u]);
            }
        }
        let mut j: usize = 0;
        while j < plist.len()
            invariant
                j <= plist.len(),
                plist@ == p0[t],
                t == g0.len() - 1,
                wired(g0, p0),
                self.graph.len() == t + 1,
                self.graph.len() <= self.labels.len(),
                self.parent_lists() == p0.drop_last(),
                self.parents.len() == t,
                self.labels == old(self).labels,
                self.indices == old(self).indices,
                self.weight_heuristic == old(self).weight_heuristic,
                2 <= bound <= t,
                labelled(self.labels@, trail.assignment@, bound),
                trimmed(g0, self.targets()),
                kept_in(g0, self.targets(), t + 1, 2, bound),
                forall|idx: int, k: int|
                    0 <= idx < j && plist[idx] <= t && 0 <= k < self.targets()[plist[idx] as int].len()
                        ==> (#[trigger] self.targets()[plist[idx] as int][k]) < bound,
                forall|u: int|
                    0 <= u <= t && !plist@.contains(u as usize) ==> #[trigger] self.targets()[u]
                        == g0[u],
            decreases plist.len() - j,
        {
            let v = plist[j];
            let ghost g = self.targets();
            proof {
                lemma_wired_facts(g0, p0);
                if v <= t {
                    assert forall|k: int| 0 <= k < g[v as int].len() implies 2 <= #[trigger] g[v as int][k]
                        < self.labels.len() by {
                        assert(g[v as int] == g0[v as int].take(g[v as int].len() as int));
                        assert(g[v as int][k] == g0[v as int][k]);
                    }
                }
            }
            self.pop_redundant_edges(v, trail, Ghost(bound));
            proof {
                lemma_kept_in_chain(g0, g, self.targets(), t + 1, 2, bound);
                let g2 = self.targets();
                assert forall|u: int| 0 <= u < g0.len() implies (#[trigger] g2[u]).len()
                    <= g0[u].len() && g2[u] == g0[u].take(g2[u].len() as int) by {
                    assert(g2[u] == g[u].take(g2[u].len() as int));
                    assert(g[u] == g0[u].take(g[u].len() as int));
                    assert(g2[u] =~= g0[u].take(g2[u].len() as int));
                }
                if v <= t {
                    lemma_row_below(g0, p0, g2[v as int], v as int, bound);
                }
                assert forall|idx: int, k: int|
                    0 <= idx < j + 1 && plist[idx] <= t && 0 <= k
                        < g2[plist[idx] as int].len() implies (#[trigger] g2[plist[idx] as int][k])
                    < bound by {
                    if plist[idx] == v {
                    } else {
                        assert(g2[plist[idx] as int] == g[plist[idx] as int]);
                        assert(g[plist[idx] as int][k] < bound);
                    }
                }
                assert forall|u: int|
                    0 <= u <= t && !plist@.contains(u as usize) implies #[trigger] g2[u]
                    == g0[u] by {
                    assert(u != v) by {
                        if u == v {
                            assert(plist@[j as int] == u as usize);
                        }
                    }
                    assert(g[u] == g0[u]);
                }
            }
            j += 1;
        }
        let ghost g2 = self.targets();
        self.graph.pop();
        proof {
            assert(self.targets() =~= g2.drop_last());
            assert forall|v: int, x: int|
                0 <= v < bound && 2 <= x < bound && g0[v].contains(x) implies #[trigger] self.targets()[v].contains(
                x,
            ) by {
                assert(g2[v].contains(x));
                assert(self.targets()[v] == g2[v]);
            }
            assert(self.targets()[0] == g2[0]);
            assert forall|k: int| 0 <= k < g2[0].len() implies g0[0].contains(
                #[trigger] g2[0][k],
            ) by {
                assert(g2[0] == g0[0].take(g2[0].len() as int));
                assert(g0[0][k] == g2[0][k]);
            }
            assert forall|v: int, k: int|
                0 <= v < g0.len() - 1 && 0 <= k < g2[v].len() implies #[trigger] g2[v][k] < g0.len()
                - 1 by {
                if plist@.contains(v as usize) {
                    let idx = choose|idx: int| 0 <= idx < plist.len() && plist[idx] == v as usize;
                    assert(g2[plist[idx] as int][k] < bound);
                } else {
                    assert(g2[v] == g0[v]);
                    lemma_wired_parents(g0, p0, v, k);
                    if g0[v][k] == t {
                        assert(p0[t].contains(v as usize));
                    }
                }
            }
            assert forall|q: int| 2 <= q && q % 2 == 0 && q + 1 < g0.len() - 1 implies #[trigger] g2[q]
                == g0[q] by {
                if plist@.contains(q as usize) {
                    let idx = choose|idx: int| 0 <= idx < plist.len() && plist[idx] == q as usize;
                    lemma_wired_entry_parent(g0, p0, t, idx);
                }
            }
            lemma_wired_shrink(g0, p0, g2);
        }
    }
}

impl<W: MinCutWeight, T: WeightHeuristic<W>> ConflictAnalysis for MinCutConflict<W, T> {
    open spec fn tracks(&self, f: Seq<Seq<Literal>>, a: Seq<VariableState>, e: Entries) -> bool {
        self.mirrors(f, a, e)
    }

    open spec fn analysed(&self, f: Seq<Seq<Literal>>, a: Seq<VariableState>, e: Entries) -> bool {
        self.drained(f, a, e)
    }

    fn from_formula(n: usize, formula: &Formula) -> (analysis: Self) {
        let mut graph: Vec<Vec<(usize, W)>> = Vec::new();
        graph.push(Vec::new());
        graph.push(Vec::new());
        let mut parents: Vec<Vec<usize>> = Vec::new();
        parents.push(Vec::new());
        parents.push(Vec::new());
        let mut labels: Vec<Literal> = Vec::new();
        labels.push(0);
        labels.push(0);
        let mut indices: Vec<usize> = Vec::new();
        let mut v: usize = 0;
        while v < n
            invariant
                v <= n,
                indices.len() == v,
            decreases n - v,
        {
            indices.push(0);
            v += 1;
        }
        let analysis = MinCutConflict {
            graph,
            parents,
            labels,
            indices,
            weight_heuristic: T::from_formula(n, formula),
        };
        proof {
            lemma_wired_start();
            assert(analysis.targets()[0] =~= Seq::<int>::empty());
            assert(analysis.targets()[1] =~= Seq::<int>::empty());
            assert(analysis.targets() =~= seq![Seq::<int>::empty(), Seq::<int>::empty()]);
            assert(analysis.parent_lists()[0] =~= Seq::<usize>::empty());
            assert(analysis.parent_lists()[1] =~= Seq::<usize>::empty());
            assert(analysis.parent_lists() =~= seq![
                Seq::<usize>::empty(),
                Seq::<usize>::empty(),
            ]);
            let e = seq![Seq::<(Variable, Reason)>::empty()];
            assert(e.drop_last() =~= Seq::<Seq<(Variable, Reason)>>::empty());
            assert(flat(e.drop_last()) =~= Seq::<(Variable, Reason)>::empty());
            assert(flat(e) =~= Seq::<(Variable, Reason)>::empty());
        }
        analysis
    }

    fn propagate_literal(
        &mut self,
        formula: &Formula,
        trail: &Trail,
        literal: Literal,
        reason_id: usize,
    ) {
        let ghost f = clauses(*formula);
        let ghost a1 = trail.assignment@;
        let ghost e1 = trail.entries();
        let ghost a0 = a1.update(variable_of(literal), VariableState::Unset);
        let ghost e0 = e1.update(e1.len() - 1, e1.last().drop_last());
        let ghost before = flat(e0);
        let ghost entry = (variable_of(literal) as usize, Some(reason_id));
        proof {
            assert(e0.len() == e1.len());
            assert(e0.drop_last() =~= e1.drop_last());
            assert(e0.last() == e1.last().drop_last());
            assert(e1.last() =~= e0.last().push(entry));
            assert(flat(e1) =~= flat(e0).push(entry));
            crate::cdcl::mincut::chronology::lemma_flat_bound(a1, e1);
            let top = e1.len() - 1;
            let i = e1.last().len() - 1;
            assert(e1[top][i] == entry);
            assert(reason_ok(f, a1, e1, top, i));
            assert(trail_literal(a1, variable_of(literal)) == literal);
            lemma_flat_entries(a1, e1);
            assert forall|p: int| 0 <= p < before.len() implies !(a0[(#[trigger] before[p]).0 as int]
                is Unset) by {
                assert(flat(e1)[p] == before[p]);
                assert(flat(e1)[before.len() as int] == entry);
                assert(flat(e1)[p].0 != flat(e1)[before.len() as int].0);
            }
            let clause = f[reason_id as int];
            assert(clause == formula[reason_id as int]@);
            assert forall|q: int| 0 <= q < clause.len() && #[trigger] clause[q] != literal implies fails(
                a0,
                clause[q],
            ) && exists|p: int|
                0 <= p < before.len() && (#[trigger] before[p]).0 == variable_of(clause[q]) by {
                assert(fails(a1, clause[q]));
                assert(!listed_from(e1[top], i, variable_of(clause[q])));
                assert(variable_of(clause[q]) != variable_of(literal)) by {
                    if variable_of(clause[q]) == variable_of(literal) {
                        assert(e1[top][i].0 == variable_of(clause[q]));
                    }
                }
                let p = lemma_flat_has(a1, e1, variable_of(clause[q]));
                assert(p != before.len());
                assert(flat(e1)[p] == before[p]);
            }
        }
        proof {
            lemma_old_reasons(f, a1, e1, a0, e0, literal);
        }
        self.add_literal(
            literal,
            Some(&formula[reason_id]),
            Ghost(a0),
            Ghost(a1),
            Ghost(before),
            Ghost(entry),
            Ghost(f),
        );
    }

    fn decide_literal(&mut self, formula: &Formula, trail: &Trail, literal: Literal) {
        let ghost f = clauses(*formula);
        let ghost a1 = trail.assignment@;
        let ghost e1 = trail.entries();
        let ghost a0 = a1.update(variable_of(literal), VariableState::Unset);
        let ghost e0 = e1.drop_last();
        let ghost before = flat(e0);
        let ghost entry = (variable_of(literal) as usize, None::<usize>);
        proof {
            assert(e1.last() =~= seq![entry]);
            assert(flat(e1) =~= flat(e0) + seq![entry]);
            assert(flat(e1) =~= flat(e0).push(entry));
            crate::cdcl::mincut::chronology::lemma_flat_bound(a1, e1);
            lemma_flat_entries(a1, e1);
            assert forall|p: int| 0 <= p < before.len() implies !(a0[(#[trigger] before[p]).0 as int]
                is Unset) by {
                assert(flat(e1)[p] == before[p]);
                assert(flat(e1)[before.len() as int] == entry);
                assert(flat(e1)[p].0 != flat(e1)[before.len() as int].0);
            }
        }
        proof {
            assert(e1 =~= e0.push(seq![entry]));
            lemma_old_reasons(f, a1, e1, a0, e0, literal);
        }
        self.add_literal(
            literal,
            None,
            Ghost(a0),
            Ghost(a1),
            Ghost(before),
            Ghost(entry),
            Ghost(f),
        );
    }

    /// Leads on to the sink from the literals of the failing clause, weighs
    /// the graph for this conflict, lets the excess of the source flow, and
    /// reads the clause off the cut: the negation of every literal whose entry
    /// side lies on the source side and whose exit side does not.
    fn analyze_conflict(&mut self, formula: &Formula, trail: &Trail, conflict: Clause) -> (learned:
        Clause)
        ensures
            final(self).marks() == old(self).marks(),
            final(self).targets().len() == final(self).marks().len(),
            loaded(
                final(self).weights(),
                final(self).rule().excess_at((trail.levels.len() - 1) as usize),
            ),
            forall|p: int|
                0 <= p < flat(trail.entries()).len() ==> (#[trigger] final(self).weights()[2 + 2
                    * p]) == seq![
                    entry_weight(
                        final(self).rule(),
                        trail.assignment@,
                        trail.entries(),
                        flat(trail.entries())[p].0 as int,
                    ),
                ],
            exists|after: Net, value: nat| #[trigger]
                flowed(
                    network(
                        final(self).targets(),
                        final(self).weights(),
                        final(self).rule().excess_at((trail.levels.len() - 1) as usize),
                    ),
                    after,
                    1,
                    value,
                ) && learned@ == severed(
                    final(self).marks(),
                    source_side(after, final(self).marks().len() as int),
                    final(self).marks().len() as int,
                ),
    {
        let ghost f = clauses(*formula);
        let ghost a = trail.assignment@;
        let ghost e = trail.entries();
        let ghost n = a.len();
        let total_levels = trail.levels.len();
        let conflict_level = total_levels - 1;
        self.lead_to_sink(trail, &conflict, Ghost(f));
        let source_excess = self.weight_heuristic.source_excess(conflict_level);
        let ghost bar = source_excess.value();
        self.weigh(trail, &source_excess, Ghost(f));
        let excess = Self::excess_at_source(self.graph.len(), &source_excess);
        let ghost targets = self.targets();
        let ghost weights = self.weights();
        let ghost before = network(targets, weights, bar);
        proof {
            lemma_sunk_facts(
                self.targets(),
                self.parent_lists().update(1, Seq::empty()),
                self.parents[1]@,
            );
            source_excess.lemma_value_fits();
            assert forall|v: int, k: int|
                0 <= v < self.graph.len() && 0 <= k < self.graph[v].len() implies (
            #[trigger] self.graph[v][k]).target() < excess.len() by {
                assert(self.targets()[v][k] == self.graph[v][k].0);
            }
            assert(rows(self.graph@) =~= paired(targets, weights)) by {
                assert forall|v: int| 0 <= v < self.graph.len() implies #[trigger] rows(
                    self.graph@,
                )[v] == paired(targets, weights)[v] by {
                    assert(rows(self.graph@)[v] =~= paired(targets, weights)[v]);
                }
            }
        }
        let mut flow = SK1Flow::from_graph(&self.graph, excess);
        proof {
            flow.lemma_net_shaped();
            assert(flow.net() == before);
            assert forall|v: int, k: int|
                0 <= v < targets.len() && 0 <= k < targets[v].len() implies #[trigger] carries(
                before,
                v,
                targets[v][k],
                weights[v][k],
            ) by {
                let bare = Net {
                    to: Seq::empty(),
                    cap: Seq::empty(),
                    ex: at_source(targets.len() as int, bar),
                };
                lemma_with_rows(bare, paired(targets, weights), targets.len() as int, v, k);
                let id = edges_before(paired(targets, weights), v) + 2 * k;
                assert(mate(id) == id + 1);
                assert(before.to[id] == targets[v][k]);
                assert(before.origin(id) == v);
            }
        }
        let value = flow.flow(Self::SINK);
        let ghost after = flow.net();
        let cut = flow.cut(Self::SINK);
        let clause = self.read_cut(&cut);
        proof {
            assert(cut@ =~= source_side(after, self.labels.len() as int));
            let rule = self.weight_heuristic;
            crate::cdcl::propagation::progress::lemma_trail_bounds(a, e);
            let costs = Seq::new(
                (conflict_level + 1) as nat,
                |k: int| decisions_cost(rule, conflict_level, k),
            );
            assert forall|k: int| 1 <= k <= conflict_level implies #[trigger] costs[k] == costs[k
                - 1] + rule.weight_at(k as usize, conflict_level, true) by {}
            rule.lemma_calibrated(conflict_level, costs);
            assert forall|v: int| 0 <= v < targets.len() implies (#[trigger] weights[v]).len()
                == targets[v].len() by {}
            lemma_flow_bounded(rule, a, e, targets, weights, bar, after, value.value());
            lemma_cut_entailed(
                f,
                a,
                e,
                conflict@,
                self.labels@,
                self.indices@,
                targets,
                weights,
                before,
                after,
                value.value(),
                bar,
                cut@,
            );
            lemma_cut_asserting(
                rule,
                f,
                a,
                e,
                conflict@,
                self.labels@,
                self.indices@,
                targets,
                weights,
                before,
                after,
                value.value(),
                bar,
                cut@,
                costs[conflict_level as int],
            );
            lemma_severed_once(
                self.labels@,
                self.indices@,
                a,
                flat(e),
                cut@,
                self.labels.len() as int,
            );
            assert(flowed(
                network(
                    self.targets(),
                    self.weights(),
                    self.rule().excess_at((trail.levels.len() - 1) as usize),
                ),
                after,
                1,
                value.value(),
            ));
        }
        clause
    }

    /// Takes the edges to the sink out again, and then every vertex whose
    /// variable the backjump has released, with the edges that led to it.
    fn backtrack_and_add_clause(
        &mut self,
        formula: &Formula,
        trail: &Trail,
        _level: usize,
        _clause_id: usize,
    ) {
        let ghost a = trail.assignment@;
        let ghost e = trail.entries();
        let ghost n = a.len();
        let ghost f0 = clauses(*formula).drop_last();
        let ghost (a0, e0) = choose|a0: Seq<VariableState>, e0: Entries| #[trigger]
            rewinds(a0, e0, a, e) && sound(n as nat, f0, a0, e0) && old(self).drained(f0, a0, e0);
        let ghost bound: int = 2 + 2 * (flat(e).len() as int);
        let ghost all = self.labels@;
        proof {
            let level = e.len() - 1;
            lemma_flat_take(e0, level + 1);
            lemma_flat_released(a0, e0, level);
            lemma_flat_entries(a0, e0);
            crate::cdcl::mincut::chronology::lemma_flat_len(e0);
            let old_flat = flat(e0);
            assert(flat(e) == old_flat.take(offset(e0, level + 1)));
            assert forall|u: int| 2 <= u < all.len() implies variable_of(#[trigger] all[u]) < n && ((
            a[variable_of(all[u])] is Unset) <==> u >= bound) by {
                let p = (u - 2) / 2;
                assert(0 <= p < old_flat.len());
                assert(u == 2 + 2 * p || u == 3 + 2 * p);
                assert(old_flat[p].0 < n);
                assert(all[u] == trail_literal(a0, old_flat[p].0 as int));
                assert(variable_of(all[u]) == old_flat[p].0);
                assert(a[old_flat[p].0 as int] == released(a0, level)[old_flat[p].0 as int]);
            }
        }
        let ghost g_old = self.targets();
        self.unsink();
        let ghost g_clean = self.targets();
        proof {
            assert(kept_in(g_old, g_clean, bound, 2, bound));
        }
        while self.graph.len() > 2 && trail.assignment[variable_name(
            self.labels[self.graph.len() - 1],
        )].is_unset()
            invariant
                wired(self.targets(), self.parent_lists()),
                self.graph.len() == self.parents.len(),
                self.labels@ == all,
                self.indices == old(self).indices,
                2 <= bound <= self.graph.len() <= all.len(),
                a == trail.assignment@,
                n == a.len(),
                labelled(all, a, bound),
                kept_in(g_old, self.targets(), bound, 2, bound),
                within(self.targets()[0], g_old[0]),
            decreases self.graph.len(),
        {
            let ghost g = self.targets();
            self.pop_redundant_vertex(trail, Ghost(bound));
            proof {
                lemma_kept_in_chain(g_old, g, self.targets(), bound, 2, bound);
                assert forall|k: int| 0 <= k < self.targets()[0].len() implies g_old[0].contains(
                    #[trigger] self.targets()[0][k],
                ) by {
                    assert(g[0].contains(self.targets()[0][k]));
                    let j = choose|j: int| 0 <= j < g[0].len() && g[0][j] == self.targets()[0][k];
                    assert(g_old[0].contains(g[0][j]));
                }
            }
        }
        proof {
            if self.graph.len() > bound {
                assert(variable_of(all[self.graph.len() - 1]) < n);
                assert(a[variable_of(all[self.graph.len() - 1])] is Unset);
            }
            assert(self.graph.len() == bound);
        }
        let ghost lists = self.parent_lists();
        self.labels.truncate(self.graph.len());
        self.parents.truncate(self.graph.len());
        proof {
            assert(self.parents@ =~= self.parents@.take(self.graph.len() as int));
            assert(self.parent_lists() =~= lists);
            assert(self.labels@ =~= all.take(bound));
            let level = e.len() - 1;
            let old_flat = flat(e0);
            let new_flat = flat(e);
            assert forall|p: int| 0 <= p < new_flat.len() implies (#[trigger] new_flat[p]).0 < a.len()
                && self.labels[2 + 2 * p] == trail_literal(a, new_flat[p].0 as int)
                && self.labels[3 + 2 * p] == trail_literal(a, new_flat[p].0 as int)
                && self.indices[new_flat[p].0 as int] == 2 + 2 * p by {
                assert(new_flat[p] == old_flat[p]);
                assert(a[old_flat[p].0 as int] == released(a0, level)[old_flat[p].0 as int]);
                assert(released(a0, level)[old_flat[p].0 as int] == a0[old_flat[p].0 as int]);
                assert(self.labels[2 + 2 * p] == all[2 + 2 * p]);
                assert(self.labels[3 + 2 * p] == all[3 + 2 * p]);
            }
            let g_new = self.targets();
            let f = clauses(*formula);
            lemma_wired_facts(g_new, self.parent_lists());
            assert forall|k: int| 0 <= k < g_new[0].len() implies (#[trigger] g_new[0][k]) % 2 == 0
                && 2 <= g_new[0][k] < 2 + 2 * new_flat.len() && new_flat[(g_new[0][k] - 2) / 2].1
                is None by {
                assert(g_old[0].contains(g_new[0][k]));
                let j = choose|j: int| 0 <= j < g_old[0].len() && g_old[0][j] == g_new[0][k];
                assert(g_old[0][j] % 2 == 0);
                assert(new_flat[(g_new[0][k] - 2) / 2] == old_flat[(g_new[0][k] - 2) / 2]);
            }
            assert forall|p: int| 0 <= p < new_flat.len() implies #[trigger] linked_at(
                g_new,
                self.indices@,
                f,
                a,
                new_flat,
                p,
            ) by {
                assert(new_flat[p] == old_flat[p]);
                assert(linked_at(g_old, self.indices@, f0, a0, old_flat, p));
                let var = old_flat[p].0 as int;
                assert(a[var] == released(a0, level)[var]);
                assert(released(a0, level)[var] == a0[var]);
                match old_flat[p].1 {
                    None => {
                        assert(g_old[0].contains(2 + 2 * p));
                    },
                    Some(r) => {
                        assert(f[r as int] == f0[r as int]);
                        assert forall|q: int|
                            0 <= q < f[r as int].len() && #[trigger] f[r as int][q]
                                != trail_literal(a, var) implies variable_of(f[r as int][q])
                            < self.indices.len() && self.indices[variable_of(f[r as int][q])] + 1
                            < g_new.len() && g_new[self.indices[variable_of(f[r as int][q])]
                            + 1].contains(2 + 2 * p) by {
                            let other = f0[r as int][q];
                            let u = variable_of(other);
                            lemma_reason_stays(f0, a0, e0, level, p, q);
                            let o = lemma_flat_has(a0, e0, u);
                            assert(self.indices[old_flat[o].0 as int] == 2 + 2 * o);
                            assert(o < offset(e0, level + 1)) by {
                                if o >= offset(e0, level + 1) {
                                    assert(released(a0, level)[old_flat[o].0 as int] is Unset);
                                }
                            }
                            assert(g_old[3 + 2 * o].contains(2 + 2 * p));
                        }
                    },
                }
            }
        }
    }
}

} // verus!
