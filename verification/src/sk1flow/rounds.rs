//! What the solver does, round by round: a search from the sink gives every
//! vertex reached a layer, and the vertices reached hand their excess down
//! to the layer below, the deepest first.
use crate::sk1flow::layers::layered;
use crate::sk1flow::network::{mate, Net};
use vstd::prelude::*;

verus! {

/// The smaller of two numbers.
pub open spec fn least(x: nat, y: nat) -> nat {
    if x <= y {
        x
    } else {
        y
    }
}

/// The network after `v` has pushed along the first `upto` edges of `row`:
/// along each edge that leads into the layer below goes as much of the
/// excess of `v` as the edge has capacity for.
pub open spec fn relieved(net: Net, row: Seq<usize>, layers: Seq<usize>, v: int, upto: int) -> Net
    decreases upto,
{
    if upto <= 0 {
        net
    } else {
        let before = relieved(net, row, layers, v, upto - 1);
        let id = row[upto - 1] as int;
        if layers[before.to[id]] + 1 == layers[v] {
            before.pushed(id, least(before.ex[v], before.cap[id]))
        } else {
            before
        }
    }
}

/// The network after the vertices of `order` from place `from` on have
/// pushed their excess down, the last of them first.
pub open spec fn drained(
    net: Net,
    leaving: Seq<Seq<usize>>,
    layers: Seq<usize>,
    order: Seq<usize>,
    from: int,
) -> Net
    decreases order.len() - from,
{
    if from >= order.len() {
        net
    } else {
        let v = order[from] as int;
        relieved(
            drained(net, leaving, layers, order, from + 1),
            leaving[v],
            layers,
            v,
            leaving[v].len() as int,
        )
    }
}

/// One round: the order in which a search from the sink reached the
/// vertices, and the layer it gave each.
pub struct Round {
    pub order: Seq<usize>,
    pub layers: Seq<usize>,
}

/// The search of a round fits the network: it is layered, no vertex is
/// listed twice, and the layers do not fall along the order.
pub open spec fn searched(net: Net, sink: int, round: Round) -> bool {
    &&& layered(net, sink, round.order, round.layers)
    &&& forall|i: int, j: int|
        0 <= i < j < round.order.len() ==> #[trigger] round.order[i] != #[trigger] round.order[j]
    &&& forall|i: int, j: int|
        0 <= i <= j < round.order.len() ==> round.layers[(#[trigger] round.order[i]) as int]
            <= round.layers[(#[trigger] round.order[j]) as int]
}

/// The network after the first `upto` rounds.
pub open spec fn after_rounds(net: Net, leaving: Seq<Seq<usize>>, rounds: Seq<Round>, upto: int) -> Net
    decreases upto,
{
    if upto <= 0 {
        net
    } else {
        drained(
            after_rounds(net, leaving, rounds, upto - 1),
            leaving,
            rounds[upto - 1].layers,
            rounds[upto - 1].order,
            0,
        )
    }
}

/// Each search fits the network as the rounds before left it, and each of
/// the first `moving` rounds moves something.
pub open spec fn rounds_fit(
    net: Net,
    leaving: Seq<Seq<usize>>,
    sink: int,
    rounds: Seq<Round>,
    moving: int,
) -> bool {
    &&& forall|i: int|
        0 <= i < rounds.len() ==> searched(
            after_rounds(net, leaving, rounds, i),
            sink,
            #[trigger] rounds[i],
        )
    &&& forall|i: int|
        0 <= i < moving ==> #[trigger] after_rounds(net, leaving, rounds, i + 1) != after_rounds(
            net,
            leaving,
            rounds,
            i,
        )
}

/// The rounds are those of a run on `net`: each search fits the network as
/// the rounds before left it, every round but the last moves something, and
/// the last moves nothing.
pub open spec fn run_of(net: Net, leaving: Seq<Seq<usize>>, sink: int, rounds: Seq<Round>) -> bool {
    &&& rounds.len() >= 1
    &&& rounds_fit(net, leaving, sink, rounds, rounds.len() - 1)
    &&& after_rounds(net, leaving, rounds, rounds.len() as int) == after_rounds(
        net,
        leaving,
        rounds,
        rounds.len() - 1,
    )
}

/// Pushing nothing changes nothing.
pub proof fn lemma_push_nothing(net: Net, id: int)
    requires
        net.shaped(),
        0 <= id < net.cap.len(),
    ensures
        net.pushed(id, 0) == net,
{
    assert(0 <= mate(id) < net.cap.len());
    let after = net.pushed(id, 0);
    assert(after.cap =~= net.cap);
    assert(after.ex =~= net.ex);
}

/// A vertex without excess pushes nothing along the rest of its edges.
pub proof fn lemma_relieved_rest(
    net: Net,
    row: Seq<usize>,
    layers: Seq<usize>,
    v: int,
    from: int,
    upto: int,
)
    requires
        0 <= from <= upto <= row.len(),
        relieved(net, row, layers, v, from).shaped(),
        relieved(net, row, layers, v, from).ex[v] == 0,
        forall|k: int| 0 <= k < row.len() ==> (#[trigger] row[k]) < net.cap.len(),
        relieved(net, row, layers, v, from).cap.len() == net.cap.len(),
    ensures
        relieved(net, row, layers, v, upto) == relieved(net, row, layers, v, from),
    decreases upto - from,
{
    if upto > from {
        lemma_relieved_rest(net, row, layers, v, from, upto - 1);
        let before = relieved(net, row, layers, v, upto - 1);
        lemma_push_nothing(before, row[upto - 1] as int);
    }
}

/// Rounds that agree on the first `upto` lead to the same network.
pub proof fn lemma_after_rounds_same(
    net: Net,
    leaving: Seq<Seq<usize>>,
    one: Seq<Round>,
    other: Seq<Round>,
    upto: int,
)
    requires
        0 <= upto <= one.len(),
        upto <= other.len(),
        forall|i: int| 0 <= i < upto ==> one[i] == other[i],
    ensures
        after_rounds(net, leaving, one, upto) == after_rounds(net, leaving, other, upto),
    decreases upto,
{
    if upto > 0 {
        lemma_after_rounds_same(net, leaving, one, other, upto - 1);
    }
}

/// One more round after rounds that all moved something.
pub proof fn lemma_round_on(
    net: Net,
    leaving: Seq<Seq<usize>>,
    sink: int,
    rounds: Seq<Round>,
    next: Round,
)
    requires
        rounds_fit(net, leaving, sink, rounds, rounds.len() as int),
        searched(after_rounds(net, leaving, rounds, rounds.len() as int), sink, next),
    ensures
        after_rounds(net, leaving, rounds.push(next), rounds.len() as int) == after_rounds(
            net,
            leaving,
            rounds,
            rounds.len() as int,
        ),
        after_rounds(net, leaving, rounds.push(next), rounds.len() as int + 1) == drained(
            after_rounds(net, leaving, rounds, rounds.len() as int),
            leaving,
            next.layers,
            next.order,
            0,
        ),
        rounds_fit(net, leaving, sink, rounds.push(next), rounds.len() as int),
        after_rounds(net, leaving, rounds.push(next), rounds.len() as int + 1) != after_rounds(
            net,
            leaving,
            rounds,
            rounds.len() as int,
        ) ==> rounds_fit(net, leaving, sink, rounds.push(next), rounds.len() as int + 1),
{
    let longer = rounds.push(next);
    assert forall|i: int| 0 <= i <= rounds.len() implies after_rounds(net, leaving, longer, i)
        == after_rounds(net, leaving, rounds, i) by {
        lemma_after_rounds_same(net, leaving, longer, rounds, i);
    }
    assert(longer[rounds.len() as int] == next);
    assert forall|i: int| 0 <= i < longer.len() implies searched(
        after_rounds(net, leaving, longer, i),
        sink,
        #[trigger] longer[i],
    ) by {
        if i < rounds.len() {
            assert(longer[i] == rounds[i]);
        }
    }
    assert forall|i: int| 0 <= i < rounds.len() implies #[trigger] after_rounds(
        net,
        leaving,
        longer,
        i + 1,
    ) != after_rounds(net, leaving, longer, i) by {
        assert(after_rounds(net, leaving, rounds, i + 1) != after_rounds(net, leaving, rounds, i));
    }
}

} // verus!
