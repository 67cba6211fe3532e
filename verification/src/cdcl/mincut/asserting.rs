//! Why the clause read off a smallest cut asserts a single literal of the
//! conflict level, when the weights are calibrated.
use crate::cdcl::mincut::chronology::{
    flat, lemma_flat_at, lemma_flat_find, lemma_offset_grows, offset,
};
use crate::cdcl::mincut::heuristic::{
    carries, embedded, entry_weight, framed, lemma_not_cut, linked, linked_at, loaded, severed,
    MinCutWeight, WeightHeuristic,
};
use crate::cdcl::propagation::soundness::{
    anchored, asserting, conflicting, reason_ok, sound, trail_literal, Entries,
};
use crate::cdcl::propagation::trail::{
    each_once, fails, lemma_complement, level_of, listed_from, negation, variable_of, well_formed,
    Literal, Reason, Variable, VariableState,
};
use crate::sk1flow::network::{
    crossing, cut_capacity, enters, flowed, held, lemma_crossing_covers_two, lemma_flow_below,
    lemma_flow_is_cut, lemma_inside_nonnegative, sink_side, Net,
};
use vstd::prelude::*;

verus! {

/// The cut severs entry `p` of the trail: its entry side lies on the
/// source's side and its exit side does not.
pub open spec fn severs(cut: Seq<bool>, p: int) -> bool {
    cut[2 + 2 * p] && !cut[3 + 2 * p]
}

/// Every literal of the clause read off a cut is the negation of a literal
/// that the cut severs.
pub proof fn lemma_severed_only(labels: Seq<Literal>, cut: Seq<bool>, upto: int, j: int)
    requires
        0 <= j < severed(labels, cut, upto).len(),
    ensures
        exists|p: int|
            0 <= p && 3 + 2 * p < upto && #[trigger] severs(cut, p) && severed(labels, cut, upto)[j]
                == negation(labels[2 + 2 * p]),
    decreases upto,
{
    if upto >= 4 {
        if upto % 2 == 1 {
            lemma_severed_only(labels, cut, upto - 1, j);
        } else {
            let shorter = severed(labels, cut, upto - 2);
            if cut[upto - 2] && !cut[upto - 1] {
                if j < shorter.len() {
                    lemma_severed_only(labels, cut, upto - 2, j);
                } else {
                    let p = (upto - 4) / 2;
                    assert(severs(cut, p));
                }
            } else {
                lemma_severed_only(labels, cut, upto - 2, j);
            }
        }
    }
}

/// What the flow and the graph have to do with each other for the cut to be
/// read: the graph mirrors the trail and leads on to the sink from the
/// failing clause, its edges are in the network with their weights, the
/// edges that are not to be severed weigh what the source holds, the flow
/// has come to rest below that, and the cut is the side of the source.
pub open spec fn cut_read(
    f: Seq<Seq<Literal>>,
    a: Seq<VariableState>,
    e: Entries,
    conflict: Seq<Literal>,
    labels: Seq<Literal>,
    indices: Seq<usize>,
    targets: Seq<Seq<int>>,
    weights: Seq<Seq<nat>>,
    before: Net,
    after: Net,
    value: nat,
    bar: nat,
    cut: Seq<bool>,
) -> bool {
    &&& sound(a.len(), f, a, e)
    &&& conflicting(a, e, conflict)
    &&& framed(labels, indices, a, flat(e))
    &&& linked(targets, indices, f, a, flat(e))
    &&& targets.len() == labels.len()
    &&& weights.len() == targets.len()
    &&& forall|v: int| 0 <= v < targets.len() ==> (#[trigger] weights[v]).len() == targets[v].len()
    &&& forall|q: int|
        0 <= q < conflict.len() ==> targets[indices[variable_of(#[trigger] conflict[q])]
            + 1].contains(1)
    &&& forall|q: int| 2 <= q < targets.len() && q % 2 == 0 ==> #[trigger] targets[q] == seq![q + 1]
    &&& embedded(before, targets, weights)
    &&& loaded(weights, bar)
    &&& before.shaped()
    &&& before.ex.len() == labels.len()
    &&& before.ex[0] >= bar
    &&& flowed(before, after, 1, value)
    &&& value < bar
    &&& cut.len() == labels.len()
    &&& forall|v: int| 0 <= v < cut.len() ==> #[trigger] cut[v] == !sink_side(after, 1).contains(v)
}

/// Below an entry of the top level whose exit side lies on the sink's side,
/// or at it, the cut severs an entry of the top level.
pub proof fn lemma_top_severed(
    f: Seq<Seq<Literal>>,
    a: Seq<VariableState>,
    e: Entries,
    conflict: Seq<Literal>,
    labels: Seq<Literal>,
    indices: Seq<usize>,
    targets: Seq<Seq<int>>,
    weights: Seq<Seq<nat>>,
    before: Net,
    after: Net,
    value: nat,
    bar: nat,
    cut: Seq<bool>,
    i: int,
) -> (j: int)
    requires
        cut_read(
            f,
            a,
            e,
            conflict,
            labels,
            indices,
            targets,
            weights,
            before,
            after,
            value,
            bar,
            cut,
        ),
        0 <= i < e.last().len(),
        !cut[3 + 2 * (offset(e, e.len() - 1) + i)],
    ensures
        0 <= j <= i,
        severs(cut, offset(e, e.len() - 1) + j),
    decreases i,
{
    let top = e.len() - 1;
    let entries = flat(e);
    lemma_flat_at(e, top, i);
    lemma_offset_grows(e, 0, top);
    let p = offset(e, top) + i;
    lemma_flow_below(before, after, 1, value, bar);
    assert(cut[0]);
    if cut[2 + 2 * p] {
        i
    } else {
        assert(linked_at(targets, indices, f, a, entries, p));
        assert(entries[p] == e[top][i]);
        if e[top][i].1 is None {
            assert(targets[0].contains(2 + 2 * p));
            lemma_not_cut(before, after, targets, weights, bar, cut, 0, 2 + 2 * p);
            assert(false);
            i
        } else {
            let r = e[top][i].1->0 as int;
            let v = e[top][i].0 as int;
            assert(reason_ok(f, a, e, top, i));
            assert(anchored(f[r], a, trail_literal(a, v), top));
            let q = choose|q: int|
                0 <= q < f[r].len() && #[trigger] f[r][q] != trail_literal(a, v) && level_of(
                    a,
                    f[r][q],
                ) == top;
            let u = variable_of(f[r][q]);
            assert(fails(a, f[r][q]));
            assert(listed_from(e[top], 0, u));
            let i2 = choose|i2: int| 0 <= i2 < e[top].len() && (#[trigger] e[top][i2]).0 == u;
            if i2 >= i {
                assert(listed_from(e[top], i, u));
            }
            lemma_flat_at(e, top, i2);
            let p2 = offset(e, top) + i2;
            assert(entries[p2] == e[top][i2]);
            assert(indices[entries[p2].0 as int] == 2 + 2 * p2);
            assert(targets[3 + 2 * p2].contains(2 + 2 * p));
            lemma_not_cut(before, after, targets, weights, bar, cut, 3 + 2 * p2, 2 + 2 * p);
            lemma_top_severed(
                f,
                a,
                e,
                conflict,
                labels,
                indices,
                targets,
                weights,
                before,
                after,
                value,
                bar,
                cut,
                i2,
            )
        }
    }
}

/// A cut that severs two entries lets through at least what both weigh.
pub proof fn lemma_two_severed(
    targets: Seq<Seq<int>>,
    weights: Seq<Seq<nat>>,
    before: Net,
    after: Net,
    value: nat,
    cut: Seq<bool>,
    p: int,
    q: int,
)
    requires
        before.shaped(),
        flowed(before, after, 1, value),
        1 < before.ex.len(),
        embedded(before, targets, weights),
        weights.len() == targets.len(),
        forall|v: int| 0 <= v < targets.len() ==> (#[trigger] weights[v]).len() == targets[v].len(),
        forall|o: int| 2 <= o < targets.len() && o % 2 == 0 ==> #[trigger] targets[o] == seq![o + 1],
        cut.len() == targets.len(),
        forall|v: int| 0 <= v < cut.len() ==> #[trigger] cut[v] == !sink_side(after, 1).contains(v),
        0 <= p < q,
        3 + 2 * q < targets.len(),
        severs(cut, p),
        severs(cut, q),
    ensures
        value >= weights[2 + 2 * p][0] + weights[2 + 2 * q][0],
{
    let side = sink_side(after, 1);
    lemma_flow_is_cut(before, after, 1, value);
    lemma_inside_nonnegative(side, before.ex, before.ex.len() as int);
    assert(targets[2 + 2 * p] == seq![3 + 2 * p]);
    assert(targets[2 + 2 * q] == seq![3 + 2 * q]);
    assert(carries(before, 2 + 2 * p, targets[2 + 2 * p][0], weights[2 + 2 * p][0]));
    assert(carries(before, 2 + 2 * q, targets[2 + 2 * q][0], weights[2 + 2 * q][0]));
    let first = choose|id: int|
        0 <= id < before.cap.len() && #[trigger] before.to[id] == 3 + 2 * p && before.origin(id)
            == 2 + 2 * p && before.cap[id] == weights[2 + 2 * p][0];
    let second = choose|id: int|
        0 <= id < before.cap.len() && #[trigger] before.to[id] == 3 + 2 * q && before.origin(id)
            == 2 + 2 * q && before.cap[id] == weights[2 + 2 * q][0];
    assert(enters(side, before.to, first));
    assert(enters(side, before.to, second));
    assert(first != second);
    if first < second {
        lemma_crossing_covers_two(
            side,
            before.to,
            before.cap,
            first,
            second,
            before.cap.len() as int,
        );
    } else {
        lemma_crossing_covers_two(
            side,
            before.to,
            before.cap,
            second,
            first,
            before.cap.len() as int,
        );
    }
}

/// The clause read off the cut asserts a single literal of the top level:
/// the cut severs an entry of the top level, since what leads to the sink
/// was forced by what lies at its level; and it severs no second, since two
/// cost more than every decision together, which no flow is worth.
pub proof fn lemma_cut_asserting<W: MinCutWeight, T: WeightHeuristic<W>>(
    rule: T,
    f: Seq<Seq<Literal>>,
    a: Seq<VariableState>,
    e: Entries,
    conflict: Seq<Literal>,
    labels: Seq<Literal>,
    indices: Seq<usize>,
    targets: Seq<Seq<int>>,
    weights: Seq<Seq<nat>>,
    before: Net,
    after: Net,
    value: nat,
    bar: nat,
    cut: Seq<bool>,
    cost: nat,
)
    requires
        cut_read(
            f,
            a,
            e,
            conflict,
            labels,
            indices,
            targets,
            weights,
            before,
            after,
            value,
            bar,
            cut,
        ),
        e.len() - 1 <= usize::MAX,
        forall|p: int|
            0 <= p < flat(e).len() ==> (#[trigger] weights[2 + 2 * p]) == seq![
                entry_weight(rule, a, e, flat(e)[p].0 as int),
            ],
        value <= cost,
        rule.weight_at((e.len() - 1) as usize, (e.len() - 1) as usize, true) + rule.weight_at(
            (e.len() - 1) as usize,
            (e.len() - 1) as usize,
            false,
        ) > cost,
        2 * rule.weight_at((e.len() - 1) as usize, (e.len() - 1) as usize, false) > cost,
    ensures
        asserting(a, e, severed(labels, cut, labels.len() as int)),
{
    let top = e.len() - 1;
    let entries = flat(e);
    let learned = severed(labels, cut, labels.len() as int);
    let len = labels.len() as int;
    crate::cdcl::mincut::chronology::lemma_flat_entries(a, e);
    crate::cdcl::mincut::chronology::lemma_flat_len(e);
    lemma_flow_below(before, after, 1, value, bar);
    // every literal read off the cut fails, and those of the top level are one
    assert forall|j: int| 0 <= j < learned.len() implies fails(a, #[trigger] learned[j]) by {
        lemma_severed_only(labels, cut, len, j);
        let p = choose|p: int|
            0 <= p && 3 + 2 * p < len && #[trigger] severs(cut, p) && learned[j] == negation(
                labels[2 + 2 * p],
            );
        assert(entries[p].0 < a.len());
        assert(labels[2 + 2 * p] == trail_literal(a, entries[p].0 as int));
    }
    assert forall|i: int, j: int|
        0 <= i < learned.len() && 0 <= j < learned.len() && level_of(a, #[trigger] learned[i])
            == top && level_of(a, #[trigger] learned[j]) == top implies learned[i]
        == learned[j] by {
        lemma_severed_only(labels, cut, len, i);
        lemma_severed_only(labels, cut, len, j);
        let p = choose|p: int|
            0 <= p && 3 + 2 * p < len && #[trigger] severs(cut, p) && learned[i] == negation(
                labels[2 + 2 * p],
            );
        let q = choose|q: int|
            0 <= q && 3 + 2 * q < len && #[trigger] severs(cut, q) && learned[j] == negation(
                labels[2 + 2 * q],
            );
        assert(entries[p].0 < a.len());
        assert(entries[q].0 < a.len());
        assert(labels[2 + 2 * p] == trail_literal(a, entries[p].0 as int));
        assert(labels[2 + 2 * q] == trail_literal(a, entries[q].0 as int));
        if p != q {
            if p < q {
                lemma_two_severed(targets, weights, before, after, value, cut, p, q);
            } else {
                lemma_two_severed(targets, weights, before, after, value, cut, q, p);
            }
            lemma_top_weight(rule, a, e, weights, p);
            lemma_top_weight(rule, a, e, weights, q);
            let place_p = lemma_flat_find(e, p);
            let place_q = lemma_flat_find(e, q);
            assert(place_p.0 == top && place_q.0 == top);
            assert(place_p.1 != place_q.1);
            assert(false);
        }
    }
    // the failing clause has a literal of the top level, which leads to the sink
    let q0 = choose|q0: int|
        0 <= q0 < conflict.len() && level_of(a, #[trigger] conflict[q0]) == top;
    let u = variable_of(conflict[q0]);
    assert(fails(a, conflict[q0]));
    assert(listed_from(e[top], 0, u));
    let i0 = choose|i0: int| 0 <= i0 < e[top].len() && (#[trigger] e[top][i0]).0 == u;
    lemma_flat_at(e, top, i0);
    lemma_offset_grows(e, 0, top);
    let p0 = offset(e, top) + i0;
    assert(entries[p0] == e[top][i0]);
    assert(indices[entries[p0].0 as int] == 2 + 2 * p0);
    assert(targets[3 + 2 * p0].contains(1));
    lemma_not_cut(before, after, targets, weights, bar, cut, 3 + 2 * p0, 1);
    let j = lemma_top_severed(
        f,
        a,
        e,
        conflict,
        labels,
        indices,
        targets,
        weights,
        before,
        after,
        value,
        bar,
        cut,
        i0,
    );
    lemma_flat_at(e, top, j);
    let p = offset(e, top) + j;
    assert(entries[p] == e[top][j]);
    crate::cdcl::mincut::heuristic::lemma_severed_has(labels, cut, len, p);
    let denial = negation(labels[2 + 2 * p]);
    let at = choose|at: int| 0 <= at < learned.len() && learned[at] == denial;
    assert(labels[2 + 2 * p] == trail_literal(a, entries[p].0 as int));
    assert(level_of(a, learned[at]) == top);
}

/// An entry of the top level weighs what the rule says of the top level.
pub proof fn lemma_top_weight<W: MinCutWeight, T: WeightHeuristic<W>>(
    rule: T,
    a: Seq<VariableState>,
    e: Entries,
    weights: Seq<Seq<nat>>,
    p: int,
)
    requires
        well_formed(a, e),
        e.len() - 1 <= usize::MAX,
        0 <= p < flat(e).len(),
        a[flat(e)[p].0 as int].level() == e.len() - 1,
        weights[2 + 2 * p] == seq![entry_weight(rule, a, e, flat(e)[p].0 as int)],
    ensures
        weights[2 + 2 * p][0] == rule.weight_at(
            (e.len() - 1) as usize,
            (e.len() - 1) as usize,
            e[e.len() - 1][0].0 == flat(e)[p].0,
        ),
{
}

/// No variable occurs twice in the clause read off a cut: every entry of
/// the trail has a variable of its own.
pub proof fn lemma_severed_once(
    labels: Seq<Literal>,
    indices: Seq<usize>,
    a: Seq<VariableState>,
    entries: Seq<(Variable, Reason)>,
    cut: Seq<bool>,
    upto: int,
)
    requires
        framed(labels, indices, a, entries),
        0 <= upto <= labels.len(),
    ensures
        each_once(severed(labels, cut, upto)),
    decreases upto,
{
    if upto >= 4 {
        if upto % 2 == 1 {
            lemma_severed_once(labels, indices, a, entries, cut, upto - 1);
        } else {
            lemma_severed_once(labels, indices, a, entries, cut, upto - 2);
            let shorter = severed(labels, cut, upto - 2);
            if cut[upto - 2] && !cut[upto - 1] {
                let longer = shorter.push(negation(labels[upto - 2]));
                let last = (upto - 4) / 2;
                assert forall|p: int, q: int| 0 <= p < q < longer.len() implies variable_of(
                    #[trigger] longer[p],
                ) != variable_of(#[trigger] longer[q]) by {
                    if q == shorter.len() {
                        lemma_severed_only(labels, cut, upto - 2, p);
                        let early = choose|early: int|
                            0 <= early && 3 + 2 * early < upto - 2 && #[trigger] severs(cut, early)
                                && shorter[p] == negation(labels[2 + 2 * early]);
                        assert(entries[early].0 < a.len());
                        assert(entries[last].0 < a.len());
                        assert(indices[entries[early].0 as int] != indices[entries[last].0 as int]);
                        lemma_complement(labels[2 + 2 * early]);
                        lemma_complement(labels[2 + 2 * last]);
                        assert(longer[p] == shorter[p]);
                    } else {
                        assert(longer[p] == shorter[p]);
                        assert(longer[q] == shorter[q]);
                    }
                }
            }
        }
    }
}

} // verus!
