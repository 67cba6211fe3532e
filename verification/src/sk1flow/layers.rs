//! Layers: the distance of every vertex from the sink along edges that have
//! capacity left, and the measure by which pushing along layers comes to an
//! end.
use crate::sk1flow::network::{
    as_terms, can_reach, is_path, lemma_reach_self, lemma_reach_step, lemma_sum_at_most,
    lemma_sum_covers, lemma_sum_nonnegative, lemma_sum_update, mate, sum, total, Net,
};
use vstd::prelude::*;

verus! {

/// The layer a stored value stands for: a vertex out of reach lies beyond
/// all `n` layers.
pub open spec fn grade_of(n: int, stored: usize) -> int {
    if stored == usize::MAX {
        n + 1
    } else {
        stored as int
    }
}

/// The layers behind the stored values.
pub open spec fn grades(layers: Seq<usize>) -> Seq<int> {
    Seq::new(layers.len(), |v: int| grade_of(layers.len() as int, layers[v]))
}

/// No edge with capacity left descends more than one layer.
#[verifier::opaque]
pub open spec fn graded(net: Net, grade: Seq<int>) -> bool {
    forall|id: int|
        0 <= id < net.cap.len() && #[trigger] net.cap[id] > 0 ==> grade[net.origin(id)]
            <= grade[net.to[id]] + 1
}

/// Every layer lies between 1 and `n + 1`, and the sink in layer 1.
pub open spec fn grade_bounds(grade: Seq<int>, n: int, sink: int) -> bool {
    &&& grade.len() == n
    &&& forall|v: int| 0 <= v < n ==> 1 <= #[trigger] grade[v] <= n + 1
    &&& grade[sink] == 1
}

/// What a breadth-first search from the sink leaves behind: `order` lists
/// the vertices reached, the sink first; each has a layer; each but the sink
/// has an edge with capacity left into the layer below; and the origin of
/// every edge with capacity left into a vertex reached is reached too, at
/// most one layer above.
#[verifier::opaque]
pub open spec fn layered(net: Net, sink: int, order: Seq<usize>, layers: Seq<usize>) -> bool {
    let n = net.ex.len() as int;
    &&& layers.len() == n
    &&& order.len() >= 1
    &&& order[0] == sink
    &&& layers[sink] == 1
    &&& forall|i: int|
        0 <= i < order.len() ==> (#[trigger] order[i]) < n && 1 <= layers[order[i] as int] <= n
    &&& forall|v: int|
        0 <= v < n && #[trigger] layers[v] != usize::MAX ==> order.contains(v as usize)
            && 1 <= layers[v] <= n
    &&& forall|v: int|
        0 <= v < n && #[trigger] layers[v] != usize::MAX && v != sink ==> descends(net, layers, v)
    &&& forall|id: int|
        0 <= id < net.cap.len() && #[trigger] net.cap[id] > 0 && layers[net.to[id]] != usize::MAX
            ==> layers[net.origin(id)] != usize::MAX && layers[net.origin(id)]
            <= layers[net.to[id]] + 1
}

/// A vertex from which a path leads to the sink was reached.
pub proof fn lemma_path_reached(
    net: Net,
    sink: int,
    order: Seq<usize>,
    layers: Seq<usize>,
    path: Seq<int>,
    v: int,
)
    requires
        net.shaped(),
        0 <= sink < net.ex.len(),
        layered(net, sink, order, layers),
        is_path(net, path, v, sink),
    ensures
        layers[v] != usize::MAX,
        0 <= v < net.ex.len(),
    decreases path.len(),
{
    reveal(layered);
    if path.len() > 0 {
        let id = path[0];
        lemma_path_reached(net, sink, order, layers, path.drop_first(), net.to[id]);
        assert(net.cap[id] > 0);
        assert(0 <= mate(id) < net.to.len());
    }
}

/// From a vertex that was reached a path leads to the sink.
pub proof fn lemma_reached_has_path(
    net: Net,
    sink: int,
    order: Seq<usize>,
    layers: Seq<usize>,
    v: int,
)
    requires
        net.shaped(),
        0 <= sink < net.ex.len(),
        layered(net, sink, order, layers),
        0 <= v < net.ex.len(),
        layers[v] != usize::MAX,
    ensures
        can_reach(net, v, sink),
    decreases layers[v],
{
    reveal(layered);
    if v == sink {
        lemma_reach_self(net, sink);
    } else {
        reveal(descends);
        assert(descends(net, layers, v));
        let id = choose|id: int|
            0 <= id < net.cap.len() && net.origin(id) == v && #[trigger] net.cap[id] > 0
                && layers[net.to[id]] + 1 == layers[v];
        lemma_reached_has_path(net, sink, order, layers, net.to[id]);
        lemma_reach_step(net, id, sink);
    }
}

/// The vertices the search reached are those from which more flow could
/// still go to the sink.
pub proof fn lemma_reached_iff(net: Net, sink: int, order: Seq<usize>, layers: Seq<usize>)
    requires
        net.shaped(),
        0 <= sink < net.ex.len(),
        layered(net, sink, order, layers),
    ensures
        forall|v: int|
            0 <= v < net.ex.len() ==> (#[trigger] layers[v] != usize::MAX <==> can_reach(
                net,
                v,
                sink,
            )),
{
    assert forall|v: int| 0 <= v < net.ex.len() implies (#[trigger] layers[v] != usize::MAX
        <==> can_reach(net, v, sink)) by {
        if layers[v] != usize::MAX {
            lemma_reached_has_path(net, sink, order, layers, v);
        }
        if can_reach(net, v, sink) {
            let path = choose|path: Seq<int>| is_path(net, path, v, sink);
            lemma_path_reached(net, sink, order, layers, path, v);
        }
    }
}

/// The layers a search left behind grade the network.
pub proof fn lemma_layered_graded(net: Net, sink: int, order: Seq<usize>, layers: Seq<usize>)
    requires
        net.shaped(),
        0 <= sink < net.ex.len(),
        net.ex.len() < usize::MAX,
        layered(net, sink, order, layers),
    ensures
        graded(net, grades(layers)),
        grade_bounds(grades(layers), net.ex.len() as int, sink),
{
    reveal(layered);
    reveal(graded);
    let n = net.ex.len() as int;
    let g = grades(layers);
    assert forall|id: int| 0 <= id < net.cap.len() && #[trigger] net.cap[id] > 0 implies g[net.origin(
        id,
    )] <= g[net.to[id]] + 1 by {
        assert(0 <= mate(id) < net.to.len());
        assert(0 <= net.to[mate(id)] < n);
        assert(0 <= net.to[id] < n);
        if layers[net.to[id]] != usize::MAX {
        } else {
            let o = net.origin(id);
            if layers[o] != usize::MAX {
                assert(1 <= layers[o] <= n);
            }
        }
    }
    assert forall|v: int| 0 <= v < n implies 1 <= #[trigger] g[v] <= n + 1 by {
        if layers[v] != usize::MAX {
            assert(1 <= layers[v] <= n);
        }
    }
}

/// Every edge with capacity left into `v` starts at a vertex that has a
/// layer, at most one above that of `v`.
pub open spec fn closed_at(net: Net, layers: Seq<usize>, v: int) -> bool {
    forall|id: int|
        0 <= id < net.cap.len() && #[trigger] net.cap[id] > 0 && net.to[id] == v
            ==> layers[net.origin(id)] != usize::MAX && layers[net.origin(id)] <= layers[v] + 1
}

/// A vertex other than the sink that has a layer has an edge with capacity
/// left into the layer below.
#[verifier::opaque]
pub open spec fn descends(net: Net, layers: Seq<usize>, v: int) -> bool {
    exists|id: int|
        0 <= id < net.cap.len() && net.origin(id) == v && #[trigger] net.cap[id] > 0
            && layers[net.to[id]] + 1 == layers[v]
}

/// What holds of a search whatever it has looked at: the order lists
/// distinct vertices, the sink first, exactly those that have a layer; the
/// layer of a vertex is at most its place in the order; each but the sink
/// descends; and no layer is below the one before the search.
#[verifier::opaque]
pub open spec fn search_base(
    net: Net,
    sink: int,
    order: Seq<usize>,
    layers: Seq<usize>,
    prev: Seq<int>,
) -> bool {
    let n = net.ex.len() as int;
    &&& layers.len() == n
    &&& 0 <= sink < n
    &&& order.len() <= n
    &&& order.len() >= 1
    &&& order[0] == sink
    &&& layers[sink] == 1
    &&& forall|i: int|
        0 <= i < order.len() ==> (#[trigger] order[i]) < n && 1 <= layers[order[i] as int] <= i
            + 1
    &&& forall|i: int, j: int| 0 <= i < j < order.len() ==> #[trigger] order[i] != #[trigger] order[j]
    &&& forall|v: int| 0 <= v < n && #[trigger] layers[v] != usize::MAX ==> order.contains(v as usize)
    &&& forall|v: int|
        0 <= v < n && #[trigger] layers[v] != usize::MAX && v != sink ==> descends(net, layers, v)
    &&& forall|v: int| 0 <= v < n && #[trigger] layers[v] != usize::MAX ==> layers[v] >= prev[v]
}

/// Layers do not fall along the order.
#[verifier::opaque]
pub open spec fn sorted_layers(order: Seq<usize>, layers: Seq<usize>) -> bool {
    forall|i: int, j: int|
        0 <= i <= j < order.len() ==> layers[(#[trigger] order[i]) as int] <= layers[(
        #[trigger] order[j]) as int]
}

/// No vertex of the order lies more than one layer above the one at `head`.
pub open spec fn within_one(order: Seq<usize>, layers: Seq<usize>, head: int) -> bool {
    head < order.len() ==> forall|i: int|
        0 <= i < order.len() ==> layers[(#[trigger] order[i]) as int] <= layers[order[head] as int]
            + 1
}

/// The state of a search that has looked at the first `head` vertices of
/// `order`.
pub open spec fn searching(
    net: Net,
    sink: int,
    order: Seq<usize>,
    layers: Seq<usize>,
    head: int,
    prev: Seq<int>,
) -> bool {
    &&& search_base(net, sink, order, layers, prev)
    &&& sorted_layers(order, layers)
    &&& 0 <= head <= order.len()
    &&& within_one(order, layers, head)
    &&& forall|i: int| 0 <= i < head ==> closed_at(net, layers, (#[trigger] order[i]) as int)
}

/// The edge `eid` out of the vertex being looked at has been dealt with: if
/// its mate has capacity left, its target has a layer.
pub open spec fn dealt_with(net: Net, layers: Seq<usize>, eid: int, v: int) -> bool {
    net.cap[mate(eid)] > 0 ==> layers[net.to[eid]] != usize::MAX && layers[net.to[eid]]
        <= layers[v] + 1
}

/// The search starts with the sink alone, in layer 1.
pub proof fn lemma_search_starts(net: Net, sink: int, prev: Seq<int>)
    requires
        net.shaped(),
        0 <= sink < net.ex.len(),
        net.ex.len() < usize::MAX,
        grade_bounds(prev, net.ex.len() as int, sink),
    ensures
        searching(
            net,
            sink,
            seq![sink as usize],
            Seq::new(net.ex.len(), |v: int| usize::MAX).update(sink, 1usize),
            0,
            prev,
        ),
{
    let order = seq![sink as usize];
    let layers = Seq::new(net.ex.len(), |v: int| usize::MAX).update(sink, 1usize);
    reveal(search_base);
    reveal(sorted_layers);
    assert forall|v: int|
        0 <= v < net.ex.len() && #[trigger] layers[v] != usize::MAX implies order.contains(
        v as usize,
    ) by {
        assert(order[0] == sink);
    }
}

/// What the base of a search says in plain terms.
pub proof fn lemma_search_base(
    net: Net,
    sink: int,
    order: Seq<usize>,
    layers: Seq<usize>,
    prev: Seq<int>,
)
    requires
        search_base(net, sink, order, layers, prev),
    ensures
        layers.len() == net.ex.len(),
        0 <= sink < net.ex.len(),
        1 <= order.len() <= net.ex.len(),
        forall|i: int|
            0 <= i < order.len() ==> (#[trigger] order[i]) < net.ex.len() && 1
                <= layers[order[i] as int] <= i + 1,
        forall|i: int, j: int| 0 <= i < j < order.len() ==> #[trigger] order[i] != #[trigger] order[j],
        forall|v: int|
            0 <= v < net.ex.len() && #[trigger] layers[v] != usize::MAX ==> order.contains(
                v as usize,
            ),
{
    reveal(search_base);
}

/// The order with one more vertex, which had no layer, is still within the
/// number of vertices.
pub proof fn lemma_order_grows(order: Seq<usize>, u: usize, n: int)
    requires
        0 <= n,
        forall|i: int| 0 <= i < order.len() ==> (#[trigger] order[i]) < n,
        forall|i: int, j: int| 0 <= i < j < order.len() ==> #[trigger] order[i] != #[trigger] order[j],
        !order.contains(u),
        u < n,
    ensures
        order.len() + 1 <= n,
{
    let order2 = order.push(u);
    let ints = Seq::new(order2.len(), |i: int| order2[i] as int);
    assert(ints.no_duplicates()) by {
        assert forall|i: int, j: int|
            0 <= i < ints.len() && 0 <= j < ints.len() && i != j implies ints[i] != ints[j] by {
            if i < order.len() && j < order.len() {
                if i < j {
                    assert(order[i] != order[j]);
                } else {
                    assert(order[j] != order[i]);
                }
            } else if i < order.len() {
                assert(order[i] == order2[i]);
            } else {
                assert(order[j] == order2[j]);
            }
        }
    }
    assert forall|i: int| 0 <= i < ints.len() implies 0 <= #[trigger] ints[i] < n by {
        if i < order.len() {
            assert(order[i] < n);
        }
    }
    crate::counting::lemma_distinct_below(ints, n);
}

/// Giving a vertex without a layer the layer above that of the vertex at
/// `head` keeps the base of the search.
pub proof fn lemma_discover_base(
    net: Net,
    sink: int,
    order: Seq<usize>,
    layers: Seq<usize>,
    head: int,
    prev: Seq<int>,
    eid: int,
)
    requires
        net.shaped(),
        net.ex.len() < usize::MAX,
        search_base(net, sink, order, layers, prev),
        0 <= head < order.len(),
        0 <= eid < net.cap.len(),
        net.origin(eid) == order[head],
        net.cap[mate(eid)] > 0,
        layers[net.to[eid]] == usize::MAX,
        graded(net, prev),
        grade_bounds(prev, net.ex.len() as int, sink),
    ensures
        search_base(
            net,
            sink,
            order.push(net.to[eid] as usize),
            layers.update(net.to[eid], (layers[order[head] as int] + 1) as usize),
            prev,
        ),
        layers[order[head] as int] + 1 <= net.ex.len(),
        !order.contains(net.to[eid] as usize),
{
    let n = net.ex.len() as int;
    let v = order[head] as int;
    let u = net.to[eid];
    let id = mate(eid);
    lemma_search_base(net, sink, order, layers, prev);
    assert(0 <= id < net.cap.len());
    assert(mate(id) == eid);
    assert(net.origin(id) == u);
    assert(net.to[id] == v);
    let order2 = order.push(u as usize);
    let layers2 = layers.update(u, (layers[v] + 1) as usize);
    assert(!order.contains(u as usize)) by {
        if order.contains(u as usize) {
            let i = choose|i: int| 0 <= i < order.len() && order[i] == u as usize;
            assert(1 <= layers[order[i] as int]);
        }
    }
    lemma_order_grows(order, u as usize, n);
    assert(layers[v] <= head + 1);
    reveal(search_base);
    assert forall|i: int| 0 <= i < order2.len() implies (#[trigger] order2[i]) < n && 1
        <= layers2[order2[i] as int] <= i + 1 by {
        if i < order.len() {
            assert(order2[i] == order[i]);
            assert(order[i] < n && 1 <= layers[order[i] as int] <= i + 1);
        }
    }
    assert forall|i: int, j: int| 0 <= i < j < order2.len() implies #[trigger] order2[i]
        != #[trigger] order2[j] by {
        if j < order.len() {
            assert(order[i] != order[j]);
        } else {
            assert(order2[i] == order[i]);
        }
    }
    assert forall|w: int|
        0 <= w < n && #[trigger] layers2[w] != usize::MAX implies order2.contains(w as usize) by {
        if w == u {
            assert(order2[order.len() as int] == u as usize);
        } else {
            assert(layers[w] != usize::MAX);
            let i = choose|i: int| 0 <= i < order.len() && order[i] == w as usize;
            assert(order2[i] == w as usize);
        }
    }
    assert forall|w: int|
        0 <= w < n && #[trigger] layers2[w] != usize::MAX && w != sink implies descends(
        net,
        layers2,
        w,
    ) by {
        reveal(descends);
        if w == u {
            assert(net.cap[id] > 0 && layers2[net.to[id]] + 1 == layers2[u]);
        } else {
            assert(descends(net, layers, w));
            let d = choose|d: int|
                0 <= d < net.cap.len() && net.origin(d) == w && #[trigger] net.cap[d] > 0
                    && layers[net.to[d]] + 1 == layers[w];
            assert(net.cap[d] > 0 && layers2[net.to[d]] + 1 == layers2[w]);
        }
    }
    assert forall|w: int| 0 <= w < n && #[trigger] layers2[w] != usize::MAX implies layers2[w]
        >= prev[w] by {
        if w == u {
            reveal(graded);
            assert(net.cap[id] > 0);
            assert(prev[net.origin(id)] <= prev[net.to[id]] + 1);
            assert(layers[v] >= prev[v]);
        }
    }
}

/// Giving the target of an edge out of the vertex at `head` the next layer
/// and appending it to the order keeps the search's state.
pub proof fn lemma_search_discovers(
    net: Net,
    sink: int,
    order: Seq<usize>,
    layers: Seq<usize>,
    head: int,
    prev: Seq<int>,
    eid: int,
)
    requires
        net.shaped(),
        net.ex.len() < usize::MAX,
        searching(net, sink, order, layers, head, prev),
        head < order.len(),
        0 <= eid < net.cap.len(),
        net.origin(eid) == order[head],
        net.cap[mate(eid)] > 0,
        layers[net.to[eid]] == usize::MAX,
        graded(net, prev),
        grade_bounds(prev, net.ex.len() as int, sink),
    ensures
        searching(
            net,
            sink,
            order.push(net.to[eid] as usize),
            layers.update(net.to[eid], (layers[order[head] as int] + 1) as usize),
            head,
            prev,
        ),
        layers[order[head] as int] + 1 <= net.ex.len(),
{
    let v = order[head] as int;
    let u = net.to[eid];
    let order2 = order.push(u as usize);
    let layers2 = layers.update(u, (layers[v] + 1) as usize);
    lemma_discover_base(net, sink, order, layers, head, prev, eid);
    lemma_search_base(net, sink, order, layers, prev);
    assert(sorted_layers(order2, layers2) && within_one(order2, layers2, head)) by {
        reveal(sorted_layers);
        assert forall|i: int| 0 <= i < order.len() implies order2[i] == order[i] && layers2[(
        #[trigger] order2[i]) as int] == layers[order[i] as int] by {
            assert(order[i] as int != u);
        }
        assert forall|i: int, j: int| 0 <= i <= j < order2.len() implies layers2[(
        #[trigger] order2[i]) as int] <= layers2[(#[trigger] order2[j]) as int] by {
            if j < order.len() {
                assert(layers[order[i] as int] <= layers[order[j] as int]);
            } else if i < order.len() {
                assert(layers[order[i] as int] <= layers[order[head] as int] + 1);
            }
        }
        assert forall|i: int| 0 <= i < order2.len() implies layers2[(#[trigger] order2[i]) as int]
            <= layers2[order2[head] as int] + 1 by {
            if i < order.len() {
                assert(layers[order[i] as int] <= layers[order[head] as int] + 1);
            }
        }
    }
    assert forall|i: int| 0 <= i < head implies closed_at(
        net,
        layers2,
        (#[trigger] order2[i]) as int,
    ) by {
        assert(order2[i] == order[i]);
        assert(closed_at(net, layers, order[i] as int));
        assert(1 <= layers[order[i] as int]);
    }
}

/// Once every edge out of the vertex at `head` has been dealt with, the
/// search may go on to the next.
pub proof fn lemma_search_advances(
    net: Net,
    sink: int,
    order: Seq<usize>,
    layers: Seq<usize>,
    head: int,
    prev: Seq<int>,
    row: Seq<usize>,
)
    requires
        net.shaped(),
        searching(net, sink, order, layers, head, prev),
        head < order.len(),
        forall|id: int|
            0 <= id < net.cap.len() && net.origin(id) == order[head] ==> exists|k: int|
                0 <= k < row.len() && #[trigger] row[k] == id,
        forall|k: int|
            0 <= k < row.len() ==> dealt_with(net, layers, (#[trigger] row[k]) as int, order[head] as int),
    ensures
        searching(net, sink, order, layers, head + 1, prev),
{
    let v = order[head] as int;
    assert(closed_at(net, layers, v)) by {
        assert forall|id: int|
            0 <= id < net.cap.len() && #[trigger] net.cap[id] > 0 && net.to[id]
                == v implies layers[net.origin(id)] != usize::MAX && layers[net.origin(id)]
            <= layers[v] + 1 by {
            let eid = mate(id);
            assert(0 <= eid < net.cap.len());
            assert(mate(eid) == id);
            assert(net.origin(eid) == v);
            let k = choose|k: int| 0 <= k < row.len() && #[trigger] row[k] == eid;
            assert(dealt_with(net, layers, row[k] as int, v));
        }
    }
    if head + 1 < order.len() {
        assert(layers[order[head] as int] <= layers[order[head + 1] as int]) by {
            reveal(sorted_layers);
        }
        assert forall|i: int| 0 <= i < order.len() implies layers[(#[trigger] order[i]) as int]
            <= layers[order[head + 1] as int] + 1 by {
            assert(layers[order[i] as int] <= layers[order[head] as int] + 1);
        }
    }
}

/// A finished search leaves the network layered, with no layer below the
/// one before.
pub proof fn lemma_search_ends(
    net: Net,
    sink: int,
    order: Seq<usize>,
    layers: Seq<usize>,
    prev: Seq<int>,
)
    requires
        net.shaped(),
        net.ex.len() < usize::MAX,
        searching(net, sink, order, layers, order.len() as int, prev),
        grade_bounds(prev, net.ex.len() as int, sink),
    ensures
        layered(net, sink, order, layers),
        forall|v: int| 0 <= v < net.ex.len() ==> #[trigger] grades(layers)[v] >= prev[v],
{
    reveal(layered);
    let n = net.ex.len() as int;
    reveal(search_base);
    assert forall|v: int|
        0 <= v < n && #[trigger] layers[v] != usize::MAX implies order.contains(v as usize) && 1
        <= layers[v] <= n by {
        let i = choose|i: int| 0 <= i < order.len() && order[i] == v as usize;
        assert(1 <= layers[order[i] as int] <= i + 1);
    }
    assert forall|id: int|
        0 <= id < net.cap.len() && #[trigger] net.cap[id] > 0 && layers[net.to[id]]
            != usize::MAX implies layers[net.origin(id)] != usize::MAX && layers[net.origin(id)]
        <= layers[net.to[id]] + 1 by {
        let v = net.to[id];
        assert(order.contains(v as usize));
        let i = choose|i: int| 0 <= i < order.len() && order[i] == v as usize;
        assert(closed_at(net, layers, order[i] as int));
    }
    assert forall|i: int| 0 <= i < order.len() implies (#[trigger] order[i]) < n && 1
        <= layers[order[i] as int] <= n by {
        assert(1 <= layers[order[i] as int] <= i + 1);
    }
}

/// One term of the measure: every layer a vertex has still to climb counts
/// for more than all the excess there is, and the excess it holds counts by
/// its layer.
pub open spec fn term(most: int, n: int, excess: int, grade: int) -> int {
    (most + 1) * (n + 1 - grade) + excess * grade
}

/// The terms of all vertices.
pub open spec fn terms(ex: Seq<nat>, grade: Seq<int>, most: int) -> Seq<int> {
    Seq::new(ex.len(), |v: int| term(most, ex.len() as int, ex[v] as int, grade[v]))
}

/// The measure: it falls with every push down a layer, and does not rise
/// when layers rise.
pub open spec fn measure(ex: Seq<nat>, grade: Seq<int>, most: int) -> int {
    sum(terms(ex, grade, most), ex.len() as int)
}

/// A term does not grow with the layer, and is never negative.
pub proof fn lemma_term(most: int, n: int, excess: int, low: int, high: int)
    requires
        0 <= excess <= most,
        1 <= low <= high <= n + 1,
    ensures
        term(most, n, excess, high) <= term(most, n, excess, low),
        term(most, n, excess, low) >= 0,
{
    assert((most + 1) * (n + 1 - high) + excess * high <= (most + 1) * (n + 1 - low) + excess
        * low) by (nonlinear_arith)
        requires
            0 <= excess <= most,
            1 <= low <= high <= n + 1,
    ;
    assert((most + 1) * (n + 1 - low) + excess * low >= 0) by (nonlinear_arith)
        requires
            0 <= excess <= most,
            1 <= low <= n + 1,
    ;
}

/// The measure is never negative.
pub proof fn lemma_measure_nonnegative(ex: Seq<nat>, grade: Seq<int>, sink: int)
    requires
        grade_bounds(grade, ex.len() as int, sink),
    ensures
        measure(ex, grade, total(ex)) >= 0,
{
    let most = total(ex);
    let n = ex.len() as int;
    let t = terms(ex, grade, most);
    assert forall|v: int| 0 <= v < t.len() implies #[trigger] t[v] >= 0 by {
        lemma_sum_covers(as_terms(ex), n, v, v);
        lemma_term(most, n, ex[v] as int, grade[v], grade[v]);
    }
    lemma_sum_nonnegative(t, n);
}

/// Raising layers does not raise the measure.
pub proof fn lemma_measure_regrade(ex: Seq<nat>, low: Seq<int>, high: Seq<int>, sink: int)
    requires
        grade_bounds(low, ex.len() as int, sink),
        grade_bounds(high, ex.len() as int, sink),
        forall|v: int| 0 <= v < ex.len() ==> #[trigger] low[v] <= high[v],
    ensures
        measure(ex, high, total(ex)) <= measure(ex, low, total(ex)),
{
    let most = total(ex);
    let n = ex.len() as int;
    let t_low = terms(ex, low, most);
    let t_high = terms(ex, high, most);
    assert forall|v: int| 0 <= v < t_high.len() implies #[trigger] t_high[v] <= t_low[v] by {
        lemma_sum_covers(as_terms(ex), n, v, v);
        lemma_term(most, n, ex[v] as int, low[v], high[v]);
    }
    lemma_sum_at_most(t_high, t_low, n);
}

/// Pushing `amount` down one layer lowers the measure by `amount`.
pub proof fn lemma_measure_push(net: Net, grade: Seq<int>, id: int, amount: nat, most: int)
    requires
        net.shaped(),
        grade.len() == net.ex.len(),
        0 <= id < net.cap.len(),
        amount <= net.cap[id],
        amount <= net.ex[net.origin(id)],
        grade[net.to[id]] + 1 == grade[net.origin(id)],
    ensures
        measure(net.pushed(id, amount).ex, grade, most) == measure(net.ex, grade, most) - amount,
{
    let o = net.origin(id);
    let t = net.to[id];
    let n = net.ex.len() as int;
    assert(0 <= mate(id) < net.to.len());
    assert(0 <= net.to[mate(id)] < n);
    assert(o != t);
    let ex1 = net.ex.update(o, (net.ex[o] - amount) as nat);
    let ex2 = ex1.update(t, ex1[t] + amount);
    let t0 = terms(net.ex, grade, most);
    let t1 = terms(ex1, grade, most);
    let t2 = terms(ex2, grade, most);
    assert(t1 =~= t0.update(o, term(most, n, net.ex[o] - amount, grade[o])));
    assert(t2 =~= t1.update(t, term(most, n, (net.ex[t] + amount) as int, grade[t])));
    lemma_sum_update(t0, o, term(most, n, net.ex[o] - amount, grade[o]), n);
    lemma_sum_update(t1, t, term(most, n, (net.ex[t] + amount) as int, grade[t]), n);
    let g = grade[t];
    assert(term(most, n, net.ex[o] - amount, g + 1) - term(most, n, net.ex[o] as int, g + 1)
        + term(most, n, (net.ex[t] + amount) as int, g) - term(most, n, net.ex[t] as int, g)
        == -(amount as int)) by (nonlinear_arith);
}

/// A push down one layer keeps the grading.
pub proof fn lemma_push_keeps_graded(net: Net, grade: Seq<int>, id: int, amount: nat)
    requires
        net.shaped(),
        graded(net, grade),
        0 <= id < net.cap.len(),
        amount <= net.cap[id],
        amount <= net.ex[net.origin(id)],
        grade[net.to[id]] + 1 == grade[net.origin(id)],
    ensures
        graded(net.pushed(id, amount), grade),
{
    reveal(graded);
    let after = net.pushed(id, amount);
    assert(0 <= mate(id) < net.cap.len());
    assert(mate(mate(id)) == id);
    assert forall|e: int| 0 <= e < after.cap.len() && #[trigger] after.cap[e] > 0 implies grade[after.origin(
        e,
    )] <= grade[after.to[e]] + 1 by {
        if e == id {
            assert(net.cap[id] > 0);
        } else if e == mate(id) {
        } else {
            assert(net.cap[e] > 0);
        }
    }
}

} // verus!
