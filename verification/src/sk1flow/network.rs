//! The flow network as mathematics: edges in pairs, what lies on one side of
//! a cut and what crosses it, and residual paths.
use vstd::prelude::*;

verus! {

/// A network: the target and remaining capacity of every edge, and the
/// excess of every vertex. Edges come in pairs, `2k` and `2k + 1`, each the
/// reverse of the other.
pub struct Net {
    pub to: Seq<int>,
    pub cap: Seq<nat>,
    pub ex: Seq<nat>,
}

/// The other edge of the pair.
pub open spec fn mate(id: int) -> int {
    if id % 2 == 0 {
        id + 1
    } else {
        id - 1
    }
}

/// Exclusive-or with 1 gives the other edge of the pair.
pub proof fn lemma_mate(id: usize)
    ensures
        (id ^ 1) == mate(id as int),
{
    assert(id % 2 == 0 ==> (id ^ 1) == id + 1) by (bit_vector);
    assert(id % 2 != 0 ==> (id ^ 1) == id - 1) by (bit_vector);
}

impl Net {
    /// Where edge `id` starts: the target of its mate.
    pub open spec fn origin(self, id: int) -> int {
        self.to[mate(id)]
    }

    /// Edges are paired and end at vertices.
    pub open spec fn shaped(self) -> bool {
        &&& self.to.len() == self.cap.len()
        &&& self.to.len() % 2 == 0
        &&& forall|id: int| 0 <= id < self.to.len() ==> 0 <= #[trigger] self.to[id] < self.ex.len()
    }

    /// The network after `amount` is pushed along edge `id`: the edge loses
    /// the capacity and its mate gains it, the origin loses the excess and
    /// the target gains it.
    pub open spec fn pushed(self, id: int, amount: nat) -> Net {
        let cap1 = self.cap.update(id, (self.cap[id] - amount) as nat);
        let cap2 = cap1.update(mate(id), cap1[mate(id)] + amount);
        let ex1 = self.ex.update(self.origin(id), (self.ex[self.origin(id)] - amount) as nat);
        let ex2 = ex1.update(self.to[id], ex1[self.to[id]] + amount);
        Net { to: self.to, cap: cap2, ex: ex2 }
    }

    /// The network with the excess of `v` set to `amount`.
    pub open spec fn with_excess(self, v: int, amount: nat) -> Net {
        Net { to: self.to, cap: self.cap, ex: self.ex.update(v, amount) }
    }
}

/// The excess of the first `k` vertices that lie in `side`.
pub open spec fn inside(side: Set<int>, ex: Seq<nat>, k: int) -> int
    decreases k,
{
    if k <= 0 {
        0
    } else {
        inside(side, ex, k - 1) + if side.contains(k - 1) {
            ex[k - 1] as int
        } else {
            0
        }
    }
}

/// Whether edge `id` leads into `side` from outside it.
pub open spec fn enters(side: Set<int>, to: Seq<int>, id: int) -> bool {
    !side.contains(to[mate(id)]) && side.contains(to[id])
}

/// The capacity of the first `k` edges that lead into `side` from outside.
pub open spec fn crossing(side: Set<int>, to: Seq<int>, cap: Seq<nat>, k: int) -> int
    decreases k,
{
    if k <= 0 {
        0
    } else {
        crossing(side, to, cap, k - 1) + if enters(side, to, k - 1) {
            cap[k - 1] as int
        } else {
            0
        }
    }
}

/// What `side` holds and what can still enter it.
pub open spec fn potential(side: Set<int>, net: Net) -> int {
    inside(side, net.ex, net.ex.len() as int) + crossing(
        side,
        net.to,
        net.cap,
        net.cap.len() as int,
    )
}

/// What a side holds changes with the excess of one vertex by what that
/// vertex gains, if it lies in the side.
pub proof fn lemma_inside_update(side: Set<int>, ex: Seq<nat>, v: int, amount: nat, k: int)
    requires
        0 <= v < ex.len(),
        0 <= k <= ex.len(),
    ensures
        inside(side, ex.update(v, amount), k) == inside(side, ex, k) + if v < k && side.contains(
            v,
        ) {
            amount - ex[v]
        } else {
            0
        },
    decreases k,
{
    if k > 0 {
        lemma_inside_update(side, ex, v, amount, k - 1);
    }
}

/// What can enter a side changes with the capacity of one edge by what that
/// edge gains, if it enters the side.
pub proof fn lemma_crossing_update(
    side: Set<int>,
    to: Seq<int>,
    cap: Seq<nat>,
    id: int,
    amount: nat,
    k: int,
)
    requires
        0 <= id < cap.len(),
        0 <= k <= cap.len(),
    ensures
        crossing(side, to, cap.update(id, amount), k) == crossing(side, to, cap, k) + if id < k
            && enters(side, to, id) {
            amount - cap[id]
        } else {
            0
        },
    decreases k,
{
    if k > 0 {
        lemma_crossing_update(side, to, cap, id, amount, k - 1);
    }
}

/// A push moves between a side and its complement exactly what the edge
/// loses or its mate gains: the potential of every side stays.
pub proof fn lemma_push_keeps_potential(side: Set<int>, net: Net, id: int, amount: nat)
    requires
        net.shaped(),
        0 <= id < net.cap.len(),
        amount <= net.cap[id],
        amount <= net.ex[net.origin(id)],
    ensures
        potential(side, net.pushed(id, amount)) == potential(side, net),
        net.pushed(id, amount).shaped(),
{
    let m = mate(id);
    let o = net.origin(id);
    let t = net.to[id];
    assert(0 <= m < net.to.len());
    assert(mate(m) == id);
    assert(0 <= net.to[m] < net.ex.len());
    let cap1 = net.cap.update(id, (net.cap[id] - amount) as nat);
    let cap2 = cap1.update(m, cap1[m] + amount);
    let ex1 = net.ex.update(o, (net.ex[o] - amount) as nat);
    let ex2 = ex1.update(t, ex1[t] + amount);
    let n = net.ex.len() as int;
    let k = net.cap.len() as int;
    lemma_inside_update(side, net.ex, o, (net.ex[o] - amount) as nat, n);
    lemma_inside_update(side, ex1, t, ex1[t] + amount, n);
    lemma_crossing_update(side, net.to, net.cap, id, (net.cap[id] - amount) as nat, k);
    lemma_crossing_update(side, net.to, cap1, m, cap1[m] + amount, k);
}

/// The sum of the first `k` terms.
pub open spec fn sum(terms: Seq<int>, k: int) -> int
    decreases k,
{
    if k <= 0 {
        0
    } else {
        sum(terms, k - 1) + terms[k - 1]
    }
}

/// A sum changes with one term by what the term gains.
pub proof fn lemma_sum_update(terms: Seq<int>, v: int, term: int, k: int)
    requires
        0 <= v < terms.len(),
        0 <= k <= terms.len(),
    ensures
        sum(terms.update(v, term), k) == sum(terms, k) + if v < k {
            term - terms[v]
        } else {
            0
        },
    decreases k,
{
    if k > 0 {
        lemma_sum_update(terms, v, term, k - 1);
    }
}

/// A sum of terms none of which is larger than the matching term of another
/// sum is not larger than that sum.
pub proof fn lemma_sum_at_most(small: Seq<int>, large: Seq<int>, k: int)
    requires
        0 <= k <= small.len(),
        small.len() == large.len(),
        forall|v: int| 0 <= v < small.len() ==> #[trigger] small[v] <= large[v],
    ensures
        sum(small, k) <= sum(large, k),
    decreases k,
{
    if k > 0 {
        lemma_sum_at_most(small, large, k - 1);
    }
}

/// A sum of terms that are not negative is at least any one of them, and at
/// least any two.
pub proof fn lemma_sum_covers(terms: Seq<int>, k: int, u: int, w: int)
    requires
        0 <= k <= terms.len(),
        forall|v: int| 0 <= v < terms.len() ==> #[trigger] terms[v] >= 0,
        0 <= u < k,
        0 <= w < k,
    ensures
        sum(terms, k) >= 0,
        sum(terms, k) >= terms[u],
        u != w ==> sum(terms, k) >= terms[u] + terms[w],
    decreases k,
{
    lemma_sum_nonnegative(terms, k - 1);
    if u < k - 1 && w < k - 1 {
        lemma_sum_covers(terms, k - 1, u, w);
    } else if u < k - 1 {
        lemma_sum_covers(terms, k - 1, u, u);
    } else if w < k - 1 {
        lemma_sum_covers(terms, k - 1, w, w);
    }
}

/// A sum of terms that are not negative is not negative.
pub proof fn lemma_sum_nonnegative(terms: Seq<int>, k: int)
    requires
        k <= terms.len(),
        forall|v: int| 0 <= v < terms.len() ==> #[trigger] terms[v] >= 0,
    ensures
        sum(terms, k) >= 0,
    decreases k,
{
    if k > 0 {
        lemma_sum_nonnegative(terms, k - 1);
    }
}

/// The excesses as terms of a sum.
pub open spec fn as_terms(ex: Seq<nat>) -> Seq<int> {
    Seq::new(ex.len(), |v: int| ex[v] as int)
}

/// All the excess there is.
pub open spec fn total(ex: Seq<nat>) -> int {
    sum(as_terms(ex), ex.len() as int)
}

/// A sequence of edges, each with capacity left and each starting where the
/// one before ends, that leads from `v` to `sink`.
pub open spec fn is_path(net: Net, path: Seq<int>, v: int, sink: int) -> bool
    decreases path.len(),
{
    if path.len() == 0 {
        v == sink
    } else {
        &&& 0 <= path[0] < net.cap.len()
        &&& net.origin(path[0]) == v
        &&& net.cap[path[0]] > 0
        &&& is_path(net, path.drop_first(), net.to[path[0]], sink)
    }
}

/// Whether more flow could still go from `v` to `sink`.
pub open spec fn can_reach(net: Net, v: int, sink: int) -> bool {
    exists|path: Seq<int>| is_path(net, path, v, sink)
}

/// The vertices from which more flow could still go to `sink`.
pub open spec fn sink_side(net: Net, sink: int) -> Set<int> {
    Set::new(|v: int| 0 <= v < net.ex.len() && can_reach(net, v, sink))
}

/// An edge with capacity left extends reachability to its origin.
pub proof fn lemma_reach_step(net: Net, id: int, sink: int)
    requires
        0 <= id < net.cap.len(),
        net.cap[id] > 0,
        can_reach(net, net.to[id], sink),
    ensures
        can_reach(net, net.origin(id), sink),
{
    let rest = choose|path: Seq<int>| is_path(net, path, net.to[id], sink);
    let path = seq![id] + rest;
    assert(path.drop_first() =~= rest);
    assert(is_path(net, path, net.origin(id), sink));
}

/// The sink reaches itself.
pub proof fn lemma_reach_self(net: Net, sink: int)
    ensures
        can_reach(net, sink, sink),
{
    assert(is_path(net, Seq::<int>::empty(), sink, sink));
}

/// Paths do not depend on the excess.
pub proof fn lemma_path_ignores_excess(net: Net, other: Net, path: Seq<int>, v: int, sink: int)
    requires
        net.to == other.to,
        net.cap == other.cap,
        is_path(net, path, v, sink),
    ensures
        is_path(other, path, v, sink),
    decreases path.len(),
{
    if path.len() > 0 {
        lemma_path_ignores_excess(net, other, path.drop_first(), net.to[path[0]], sink);
    }
}

/// What a side holds when only `special` holds any excess in it.
pub proof fn lemma_inside_single(side: Set<int>, ex: Seq<nat>, special: int, k: int)
    requires
        0 <= k <= ex.len(),
        0 <= special < ex.len(),
        side.contains(special),
        forall|v: int| 0 <= v < ex.len() && side.contains(v) && v != special ==> #[trigger] ex[v] == 0,
    ensures
        inside(side, ex, k) == if special < k {
            ex[special] as int
        } else {
            0
        },
    decreases k,
{
    if k > 0 {
        lemma_inside_single(side, ex, special, k - 1);
    }
}

/// A side holds at least what any one of its vertices holds.
pub proof fn lemma_inside_covers(side: Set<int>, ex: Seq<nat>, v: int, k: int)
    requires
        0 <= k <= ex.len(),
        0 <= v < k,
        side.contains(v),
    ensures
        inside(side, ex, k) >= ex[v],
        inside(side, ex, k) >= 0,
    decreases k,
{
    if v < k - 1 {
        lemma_inside_covers(side, ex, v, k - 1);
    } else {
        lemma_inside_nonnegative(side, ex, k - 1);
    }
}

/// What a side holds is not negative.
pub proof fn lemma_inside_nonnegative(side: Set<int>, ex: Seq<nat>, k: int)
    ensures
        inside(side, ex, k) >= 0,
    decreases k,
{
    if k > 0 {
        lemma_inside_nonnegative(side, ex, k - 1);
    }
}

/// What can enter a side is not negative.
pub proof fn lemma_crossing_nonnegative(side: Set<int>, to: Seq<int>, cap: Seq<nat>, k: int)
    ensures
        crossing(side, to, cap, k) >= 0,
    decreases k,
{
    if k > 0 {
        lemma_crossing_nonnegative(side, to, cap, k - 1);
    }
}

/// Nothing can enter a side all of whose entering edges are full.
pub proof fn lemma_crossing_closed(side: Set<int>, to: Seq<int>, cap: Seq<nat>, k: int)
    requires
        0 <= k <= cap.len(),
        forall|id: int| 0 <= id < cap.len() && enters(side, to, id) ==> #[trigger] cap[id] == 0,
    ensures
        crossing(side, to, cap, k) == 0,
    decreases k,
{
    if k > 0 {
        lemma_crossing_closed(side, to, cap, k - 1);
    }
}

/// `after` is `before` with flow moved about: the same edges and vertices,
/// the same potential of every side, the same capacity of every pair of
/// edges, the same excess in all.
#[verifier::opaque]
pub open spec fn rerouted(before: Net, after: Net) -> bool {
    &&& after.to == before.to
    &&& after.cap.len() == before.cap.len()
    &&& after.ex.len() == before.ex.len()
    &&& forall|side: Set<int>| #[trigger] potential(side, after) == potential(side, before)
    &&& forall|id: int|
        0 <= id < before.cap.len() ==> #[trigger] after.cap[id] + after.cap[mate(id)]
            == before.cap[id] + before.cap[mate(id)]
    &&& total(after.ex) == total(before.ex)
}

/// A push reroutes.
pub proof fn lemma_push_reroutes(before: Net, net: Net, id: int, amount: nat)
    requires
        net.shaped(),
        rerouted(before, net),
        0 <= id < net.cap.len(),
        amount <= net.cap[id],
        amount <= net.ex[net.origin(id)],
    ensures
        rerouted(before, net.pushed(id, amount)),
        net.pushed(id, amount).shaped(),
{
    let after = net.pushed(id, amount);
    reveal(rerouted);
    assert forall|side: Set<int>| #[trigger] potential(side, after) == potential(side, before) by {
        lemma_push_keeps_potential(side, net, id, amount);
        assert(potential(side, net) == potential(side, before));
    }
    lemma_push_keeps_potential(Set::empty(), net, id, amount);
    assert(0 <= mate(id) < net.cap.len());
    assert forall|e: int| 0 <= e < before.cap.len() implies #[trigger] after.cap[e]
        + after.cap[mate(e)] == before.cap[e] + before.cap[mate(e)] by {
        assert(net.cap[e] + net.cap[mate(e)] == before.cap[e] + before.cap[mate(e)]);
        assert(0 <= mate(e) < net.cap.len());
        assert(mate(mate(e)) == e);
    }
    let o = net.origin(id);
    let t = net.to[id];
    assert(0 <= net.to[mate(id)] < net.ex.len());
    let ex1 = net.ex.update(o, (net.ex[o] - amount) as nat);
    let ex2 = ex1.update(t, ex1[t] + amount);
    let n = net.ex.len() as int;
    assert(as_terms(ex1) =~= as_terms(net.ex).update(o, net.ex[o] - amount));
    assert(as_terms(ex2) =~= as_terms(ex1).update(t, (ex1[t] + amount) as int));
    lemma_sum_update(as_terms(net.ex), o, net.ex[o] - amount, n);
    lemma_sum_update(as_terms(ex1), t, (ex1[t] + amount) as int, n);
}

/// The network is at rest: no excess lies on the sink, nor on any vertex from
/// which more of it could still go to the sink.
pub open spec fn at_rest(net: Net, sink: int) -> bool {
    &&& net.ex[sink] == 0
    &&& forall|v: int|
        0 <= v < net.ex.len() && v != sink && #[trigger] can_reach(net, v, sink) ==> net.ex[v]
            == 0
}

/// What `flow` leaves behind: the flow rerouted, the excess that reached the
/// sink taken out as `value`, and no excess left on any vertex from which
/// more could still go to the sink.
pub open spec fn flowed(before: Net, after: Net, sink: int, value: nat) -> bool {
    &&& after.ex.len() == before.ex.len()
    &&& rerouted(before, after.with_excess(sink, value))
    &&& after.ex[sink] == 0
    &&& forall|v: int|
        0 <= v < after.ex.len() && v != sink && #[trigger] can_reach(after, v, sink)
            ==> after.ex[v] == 0
}

/// The capacity of the cut around `side`: the capacity of the edges that
/// lead into it from outside.
pub open spec fn cut_capacity(side: Set<int>, net: Net) -> int {
    crossing(side, net.to, net.cap, net.cap.len() as int)
}

/// The excess that lies in `side`.
pub open spec fn held(side: Set<int>, net: Net) -> int {
    inside(side, net.ex, net.ex.len() as int)
}

/// Max-flow and min-cut. What `flow` returns is the capacity, in the network
/// as it was before, of the cut around the vertices from which more flow
/// could still go to the sink afterwards, together with the excess that lay
/// on that side to begin with. The sink lies on that side. No side that
/// holds the sink has less capacity and excess to offer.
pub proof fn lemma_flow_is_cut(before: Net, after: Net, sink: int, value: nat)
    requires
        before.shaped(),
        0 <= sink < before.ex.len(),
        flowed(before, after, sink, value),
    ensures
        sink_side(after, sink).contains(sink),
        value == cut_capacity(sink_side(after, sink), before) + held(
            sink_side(after, sink),
            before,
        ),
        held(sink_side(after, sink), before) == 0 ==> value == cut_capacity(
            sink_side(after, sink),
            before,
        ),
        forall|other: Set<int>|
            other.contains(sink) ==> value <= #[trigger] cut_capacity(other, before) + held(
                other,
                before,
            ),
{
    let side = sink_side(after, sink);
    let full = after.with_excess(sink, value);
    reveal(rerouted);
    let n = before.ex.len() as int;
    let m = before.cap.len() as int;
    lemma_reach_self(after, sink);
    assert(full.ex.len() == after.ex.len());
    assert(after.ex.len() == n);
    assert(full.to == after.to && full.cap == after.cap);
    assert(after.cap.len() == m);
    assert(side.contains(sink));
    assert(potential(side, full) == potential(side, before));
    assert forall|id: int| 0 <= id < full.cap.len() && enters(side, full.to, id) implies #[trigger] full.cap[id]
        == 0 by {
        if full.cap[id] > 0 {
            assert(0 <= before.to[id] < n);
            assert(0 <= mate(id) < m);
            assert(0 <= before.to[mate(id)] < n);
            assert(can_reach(after, after.to[id], sink));
            lemma_reach_step(after, id, sink);
            assert(side.contains(after.origin(id)));
        }
    }
    lemma_crossing_closed(side, full.to, full.cap, m);
    assert forall|v: int| 0 <= v < full.ex.len() && side.contains(v) && v != sink implies #[trigger] full.ex[v]
        == 0 by {
        assert(can_reach(after, v, sink));
        assert(after.ex[v] == 0);
    }
    lemma_inside_single(side, full.ex, sink, n);
    assert(full.ex[sink] == value);
    assert forall|other: Set<int>| other.contains(sink) implies value <= #[trigger] cut_capacity(
        other,
        before,
    ) + held(other, before) by {
        assert(potential(other, full) == potential(other, before));
        lemma_inside_covers(other, full.ex, sink, n);
        lemma_crossing_nonnegative(other, full.to, full.cap, m);
    }
}

/// What can enter a side is at least what any one entering edge can carry.
pub proof fn lemma_crossing_covers(side: Set<int>, to: Seq<int>, cap: Seq<nat>, id: int, k: int)
    requires
        0 <= id < k <= cap.len(),
        enters(side, to, id),
    ensures
        crossing(side, to, cap, k) >= cap[id],
    decreases k,
{
    if id < k - 1 {
        lemma_crossing_covers(side, to, cap, id, k - 1);
    } else {
        lemma_crossing_nonnegative(side, to, cap, k - 1);
    }
}

/// When less has reached the sink than `bar`, no edge that could carry `bar`
/// leads into the sink's side from outside, and no vertex that held `bar`
/// to begin with lies on the sink's side.
pub proof fn lemma_flow_below(before: Net, after: Net, sink: int, value: nat, bar: nat)
    requires
        before.shaped(),
        0 <= sink < before.ex.len(),
        flowed(before, after, sink, value),
        value < bar,
    ensures
        forall|id: int|
            0 <= id < before.cap.len() && #[trigger] before.cap[id] >= bar ==> !enters(
                sink_side(after, sink),
                before.to,
                id,
            ),
        forall|v: int|
            0 <= v < before.ex.len() && #[trigger] before.ex[v] >= bar ==> !sink_side(
                after,
                sink,
            ).contains(v),
        sink_side(after, sink).contains(sink),
{
    let side = sink_side(after, sink);
    lemma_flow_is_cut(before, after, sink, value);
    lemma_inside_nonnegative(side, before.ex, before.ex.len() as int);
    lemma_crossing_nonnegative(side, before.to, before.cap, before.cap.len() as int);
    assert forall|id: int|
        0 <= id < before.cap.len() && #[trigger] before.cap[id] >= bar implies !enters(
        side,
        before.to,
        id,
    ) by {
        if enters(side, before.to, id) {
            lemma_crossing_covers(side, before.to, before.cap, id, before.cap.len() as int);
        }
    }
    assert forall|v: int|
        0 <= v < before.ex.len() && #[trigger] before.ex[v] >= bar implies !side.contains(v) by {
        if side.contains(v) {
            lemma_inside_covers(side, before.ex, v, before.ex.len() as int);
        }
    }
}

/// What can enter a side is at least what any two entering edges can carry
/// together.
pub proof fn lemma_crossing_covers_two(
    side: Set<int>,
    to: Seq<int>,
    cap: Seq<nat>,
    first: int,
    second: int,
    k: int,
)
    requires
        0 <= first < second < k <= cap.len(),
        enters(side, to, first),
        enters(side, to, second),
    ensures
        crossing(side, to, cap, k) >= cap[first] + cap[second],
    decreases k,
{
    if second < k - 1 {
        lemma_crossing_covers_two(side, to, cap, first, second, k - 1);
    } else {
        lemma_crossing_covers(side, to, cap, first, k - 1);
    }
}

} // verus!
