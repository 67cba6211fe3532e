//! A push-style maximum-flow solver over paired edges with layering by
//! breadth-first search from the sink.
pub mod capacity;
pub mod graph;
pub mod layers;
pub mod network;
pub mod rounds;

use crate::sk1flow::capacity::Capacity;
use crate::sk1flow::graph::{Edge, WeightedEdge};
use crate::sk1flow::layers::{
    dealt_with, descends, grade_bounds, grade_of, graded, grades, layered, lemma_layered_graded,
    lemma_push_keeps_graded,
    lemma_measure_nonnegative, lemma_measure_push, lemma_measure_regrade, lemma_reached_iff,
    lemma_search_advances, lemma_search_discovers, lemma_search_ends, lemma_search_starts,
    measure, search_base, searching, sorted_layers, within_one,
};
use crate::sk1flow::rounds::{
    after_rounds, drained, lemma_relieved_rest, lemma_round_on, relieved, rounds_fit, run_of,
    searched, Round,
};
use crate::sk1flow::network::{
    at_rest,
    as_terms, can_reach, crossing, enters, inside, is_path, lemma_crossing_closed,
    lemma_crossing_nonnegative, lemma_inside_covers, lemma_inside_single, lemma_mate,
    lemma_path_ignores_excess, lemma_push_keeps_potential, lemma_push_reroutes, lemma_reach_self,
    lemma_reach_step, lemma_sum_covers, lemma_sum_update, mate, potential, rerouted, sink_side,
    sum, total, flowed, Net,
};
use vstd::prelude::*;

verus! {

/// The solver's state: every edge with its target and the capacity it has
/// left, the edges that leave each vertex, and the excess of each vertex.
pub struct SK1Flow<T: Capacity> {
    edges: Vec<(usize, T)>,
    graph: Vec<Vec<usize>>,
    excess: Vec<T>,
}

/// The network with one more pair of edges between `from` and `to`.
pub open spec fn with_edge(net: Net, from: int, to: int, capacity: nat, back: nat) -> Net {
    Net { to: net.to.push(to).push(from), cap: net.cap.push(capacity).push(back), ex: net.ex }
}

/// The lists with edge `id` added to the list of `from`, and then its reverse,
/// the edge after it, to the list of `to`.
pub open spec fn listed(lists: Seq<Seq<usize>>, from: int, to: int, id: usize) -> Seq<Seq<usize>> {
    let first = lists.update(from, lists[from].push(id));
    first.update(to, first[to].push((id + 1) as usize))
}

/// The lists after the first `k` edges of `row` have been added to `net`.
pub open spec fn listed_row(
    lists: Seq<Seq<usize>>,
    net: Net,
    from: int,
    row: Seq<(int, nat)>,
    k: int,
) -> Seq<Seq<usize>>
    decreases k,
{
    if k <= 0 {
        lists
    } else {
        listed(
            listed_row(lists, net, from, row, k - 1),
            from,
            row[k - 1].0,
            with_row(net, from, row, k - 1).to.len() as usize,
        )
    }
}

/// The lists after the edges of the first `v` vertices of `rows` have been
/// added to `net`.
pub open spec fn listed_rows(
    lists: Seq<Seq<usize>>,
    net: Net,
    rows: Seq<Seq<(int, nat)>>,
    v: int,
) -> Seq<Seq<usize>>
    decreases v,
{
    if v <= 0 {
        lists
    } else {
        listed_row(
            listed_rows(lists, net, rows, v - 1),
            with_rows(net, rows, v - 1),
            v - 1,
            rows[v - 1],
            rows[v - 1].len() as int,
        )
    }
}

/// The network with the first `k` edges of `row` added, all leaving `from`,
/// each with a reverse edge of capacity 0.
pub open spec fn with_row(net: Net, from: int, row: Seq<(int, nat)>, k: int) -> Net
    decreases k,
{
    if k <= 0 {
        net
    } else {
        with_edge(with_row(net, from, row, k - 1), from, row[k - 1].0, row[k - 1].1, 0)
    }
}

/// The network with the edges of the first `v` vertices of `rows` added.
pub open spec fn with_rows(net: Net, rows: Seq<Seq<(int, nat)>>, v: int) -> Net
    decreases v,
{
    if v <= 0 {
        net
    } else {
        with_row(with_rows(net, rows, v - 1), v - 1, rows[v - 1], rows[v - 1].len() as int)
    }
}

/// The numbers behind a sequence of capacities.
pub open spec fn values<T: Capacity>(all: Seq<T>) -> Seq<nat> {
    Seq::new(all.len(), |v: int| all[v].value())
}

/// The input graph as targets and capacities.
pub open spec fn rows<T: Capacity, E: WeightedEdge<T>>(graph: Seq<Vec<E>>) -> Seq<Seq<(int, nat)>> {
    Seq::new(
        graph.len(),
        |v: int|
            Seq::new(
                graph[v].len() as nat,
                |k: int| (graph[v][k].target() as int, graph[v][k].load().value()),
            ),
    )
}

/// The number of edges that the first `v` rows add to a network, reverse
/// edges counted.
pub open spec fn edges_before(rows: Seq<Seq<(int, nat)>>, v: int) -> int
    decreases v,
{
    if v <= 0 {
        0
    } else {
        edges_before(rows, v - 1) + 2 * rows[v - 1].len()
    }
}

/// Adding a row keeps the edges that were there, and adds the edges of the
/// row in order, each before its reverse.
pub proof fn lemma_with_row(net: Net, from: int, row: Seq<(int, nat)>, k: int)
    requires
        0 <= k <= row.len(),
        net.to.len() == net.cap.len(),
    ensures
        with_row(net, from, row, k).to.len() == net.to.len() + 2 * k,
        with_row(net, from, row, k).cap.len() == net.cap.len() + 2 * k,
        with_row(net, from, row, k).ex == net.ex,
        forall|id: int|
            0 <= id < net.to.len() ==> #[trigger] with_row(net, from, row, k).to[id] == net.to[id],
        forall|id: int|
            0 <= id < net.to.len() ==> #[trigger] with_row(net, from, row, k).cap[id]
                == net.cap[id],
        forall|j: int|
            0 <= j < k ==> with_row(net, from, row, k).to[net.to.len() + 2 * j] == (
            #[trigger] row[j]).0 && with_row(net, from, row, k).cap[net.to.len() + 2 * j]
                == row[j].1 && with_row(net, from, row, k).to[net.to.len() + 2 * j + 1] == from,
    decreases k,
{
    if k > 0 {
        lemma_with_row(net, from, row, k - 1);
        let shorter = with_row(net, from, row, k - 1);
        let longer = with_row(net, from, row, k);
        assert(longer == with_edge(shorter, from, row[k - 1].0, row[k - 1].1, 0));
        assert(shorter.to.len() == net.to.len() + 2 * (k - 1));
        assert(shorter.cap.len() == net.cap.len() + 2 * (k - 1));
        assert forall|id: int| 0 <= id < net.to.len() implies #[trigger] longer.to[id]
            == net.to[id] by {
            assert(shorter.to[id] == net.to[id]);
            assert(longer.to[id] == shorter.to[id]);
        }
        assert forall|id: int| 0 <= id < net.to.len() implies #[trigger] longer.cap[id]
            == net.cap[id] by {
            assert(shorter.cap[id] == net.cap[id]);
            assert(longer.cap[id] == shorter.cap[id]);
        }
        assert forall|j: int| 0 <= j < k implies longer.to[net.to.len() + 2 * j] == (
        #[trigger] row[j]).0 && longer.cap[net.to.len() + 2 * j] == row[j].1
            && longer.to[net.to.len() + 2 * j + 1] == from by {
            if j < k - 1 {
                assert(shorter.to[net.to.len() + 2 * j] == row[j].0);
                assert(shorter.cap[net.to.len() + 2 * j] == row[j].1);
                assert(shorter.to[net.to.len() + 2 * j + 1] == from);
                assert(longer.to[net.to.len() + 2 * j] == shorter.to[net.to.len() + 2 * j]);
                assert(longer.cap[net.to.len() + 2 * j] == shorter.cap[net.to.len() + 2 * j]);
                assert(longer.to[net.to.len() + 2 * j + 1] == shorter.to[net.to.len() + 2 * j
                    + 1]);
            }
        }
    }
}

/// The network built from rows holds, for edge `k` of row `v`, an edge to
/// its target with its weight, followed by its reverse.
pub proof fn lemma_with_rows(net: Net, rows: Seq<Seq<(int, nat)>>, n: int, v: int, k: int)
    requires
        net.to.len() == 0,
        net.cap.len() == 0,
        0 <= v < n <= rows.len(),
        0 <= k < rows[v].len(),
    ensures
        with_rows(net, rows, n).to.len() == edges_before(rows, n),
        with_rows(net, rows, n).cap.len() == edges_before(rows, n),
        with_rows(net, rows, n).ex == net.ex,
        0 <= edges_before(rows, v) + 2 * k,
        edges_before(rows, v) + 2 * k + 1 < edges_before(rows, n),
        edges_before(rows, v) % 2 == 0,
        with_rows(net, rows, n).to[edges_before(rows, v) + 2 * k] == rows[v][k].0,
        with_rows(net, rows, n).cap[edges_before(rows, v) + 2 * k] == rows[v][k].1,
        with_rows(net, rows, n).to[edges_before(rows, v) + 2 * k + 1] == v,
    decreases n,
{
    lemma_with_rows_len(net, rows, n - 1);
    let shorter = with_rows(net, rows, n - 1);
    lemma_with_row(shorter, n - 1, rows[n - 1], rows[n - 1].len() as int);
    let full = with_rows(net, rows, n);
    assert(full == with_row(shorter, n - 1, rows[n - 1], rows[n - 1].len() as int));
    let id = edges_before(rows, v) + 2 * k;
    if v < n - 1 {
        lemma_with_rows(net, rows, n - 1, v, k);
        assert(full.to[id] == shorter.to[id] && full.cap[id] == shorter.cap[id]);
        assert(full.to[id + 1] == shorter.to[id + 1] && full.cap[id + 1] == shorter.cap[id + 1]);
    } else {
        lemma_edges_before_even(rows, v);
        let row = rows[n - 1];
        assert(id == shorter.to.len() + 2 * k);
        assert(full.to[shorter.to.len() + 2 * k] == row[k].0 && full.cap[shorter.to.len() + 2
            * k] == row[k].1 && full.to[shorter.to.len() + 2 * k + 1] == n - 1);
    }
}

/// The edges that rows add come in pairs.
pub proof fn lemma_edges_before_even(rows: Seq<Seq<(int, nat)>>, v: int)
    ensures
        edges_before(rows, v) % 2 == 0,
        edges_before(rows, v) >= 0,
    decreases v,
{
    if v > 0 {
        lemma_edges_before_even(rows, v - 1);
    }
}

/// The network built from rows has the edges of the rows and their reverses,
/// and the excess it began with.
pub proof fn lemma_with_rows_len(net: Net, rows: Seq<Seq<(int, nat)>>, n: int)
    requires
        net.to.len() == 0,
        net.cap.len() == 0,
        n <= rows.len(),
    ensures
        with_rows(net, rows, n).to.len() == edges_before(rows, n),
        with_rows(net, rows, n).cap.len() == edges_before(rows, n),
        with_rows(net, rows, n).ex == net.ex,
    decreases n,
{
    if n > 0 {
        lemma_with_rows_len(net, rows, n - 1);
        lemma_with_row(with_rows(net, rows, n - 1), n - 1, rows[n - 1], rows[n - 1].len() as int);
    }
}

/// What the first `k` edges of a row out of `from` can carry into `side`
/// from outside.
pub open spec fn row_entering(side: Set<int>, from: int, row: Seq<(int, nat)>, k: int) -> int
    decreases k,
{
    if k <= 0 {
        0
    } else {
        row_entering(side, from, row, k - 1) + if !side.contains(from) && side.contains(
            row[k - 1].0,
        ) {
            row[k - 1].1 as int
        } else {
            0
        }
    }
}

/// What the first `v` rows can carry into `side` from outside.
pub open spec fn rows_entering(side: Set<int>, rows: Seq<Seq<(int, nat)>>, v: int) -> int
    decreases v,
{
    if v <= 0 {
        0
    } else {
        rows_entering(side, rows, v - 1) + row_entering(
            side,
            v - 1,
            rows[v - 1],
            rows[v - 1].len() as int,
        )
    }
}

/// What a pair of edges adds to what can enter a side.
pub proof fn lemma_crossing_pair(side: Set<int>, to: Seq<int>, cap: Seq<nat>, k: int)
    requires
        k >= 2,
    ensures
        crossing(side, to, cap, k) == crossing(side, to, cap, k - 2) + (if enters(
            side,
            to,
            k - 2,
        ) {
            cap[k - 2] as int
        } else {
            0
        }) + (if enters(side, to, k - 1) {
            cap[k - 1] as int
        } else {
            0
        }),
{
    reveal_with_fuel(crossing, 3);
}

/// What can enter a side depends on the edges counted only.
pub proof fn lemma_crossing_agrees(
    side: Set<int>,
    to: Seq<int>,
    cap: Seq<nat>,
    to2: Seq<int>,
    cap2: Seq<nat>,
    k: int,
)
    requires
        0 <= k <= to.len(),
        k <= to2.len(),
        k <= cap.len(),
        k <= cap2.len(),
        k % 2 == 0,
        forall|id: int| 0 <= id < k ==> to[id] == to2[id] && cap[id] == cap2[id],
    ensures
        crossing(side, to, cap, k) == crossing(side, to2, cap2, k),
    decreases k,
{
    if k > 0 {
        lemma_crossing_agrees(side, to, cap, to2, cap2, k - 2);
        assert(mate(k - 1) == k - 2);
        assert(mate(k - 2) == k - 1);
        lemma_crossing_pair(side, to, cap, k);
        lemma_crossing_pair(side, to2, cap2, k);
    }
}

/// A row adds to what can enter a side what its own edges can carry into
/// it.
pub proof fn lemma_row_entering(side: Set<int>, net: Net, from: int, row: Seq<(int, nat)>, k: int)
    requires
        0 <= k <= row.len(),
        net.to.len() == net.cap.len(),
        net.to.len() % 2 == 0,
    ensures
        crossing(
            side,
            with_row(net, from, row, k).to,
            with_row(net, from, row, k).cap,
            net.to.len() + 2 * k,
        ) == crossing(side, net.to, net.cap, net.to.len() as int) + row_entering(
            side,
            from,
            row,
            k,
        ),
    decreases k,
{
    lemma_with_row(net, from, row, k);
    let m = net.to.len() as int;
    if k == 0 {
    } else {
        lemma_row_entering(side, net, from, row, k - 1);
        lemma_with_row(net, from, row, k - 1);
        let shorter = with_row(net, from, row, k - 1);
        let longer = with_row(net, from, row, k);
        let at = m + 2 * (k - 1);
        assert(longer == with_edge(shorter, from, row[k - 1].0, row[k - 1].1, 0));
        lemma_crossing_agrees(side, longer.to, longer.cap, shorter.to, shorter.cap, at);
        assert(mate(at) == at + 1);
        assert(mate(at + 1) == at);
        assert(longer.to[at] == row[k - 1].0);
        assert(longer.to[at + 1] == from);
        assert(longer.cap[at] == row[k - 1].1);
        assert(longer.cap[at + 1] == 0);
        lemma_crossing_pair(side, longer.to, longer.cap, at + 2);
    }
}

/// What can enter a side of the network built from rows is what the rows
/// can carry into it.
pub proof fn lemma_rows_entering(side: Set<int>, net: Net, rows: Seq<Seq<(int, nat)>>, n: int)
    requires
        net.to.len() == 0,
        net.cap.len() == 0,
        0 <= n <= rows.len(),
    ensures
        crossing(
            side,
            with_rows(net, rows, n).to,
            with_rows(net, rows, n).cap,
            with_rows(net, rows, n).cap.len() as int,
        ) == rows_entering(side, rows, n),
    decreases n,
{
    if n > 0 {
        lemma_rows_entering(side, net, rows, n - 1);
        lemma_with_rows_len(net, rows, n - 1);
        lemma_with_rows_len(net, rows, n);
        lemma_edges_before_even(rows, n - 1);
        lemma_row_entering(
            side,
            with_rows(net, rows, n - 1),
            n - 1,
            rows[n - 1],
            rows[n - 1].len() as int,
        );
    }
}

/// Whether `id` is among the edges listed.
pub open spec fn lists(row: Seq<usize>, id: int) -> bool {
    exists|k: int| 0 <= k < row.len() && #[trigger] row[k] == id
}

impl<T: Capacity> SK1Flow<T> {
    /// The network the solver holds.
    pub closed spec fn net(&self) -> Net {
        Net {
            to: Seq::new(self.edges.len() as nat, |id: int| self.edges[id].0 as int),
            cap: Seq::new(self.edges.len() as nat, |id: int| self.edges[id].1.value()),
            ex: Seq::new(self.excess.len() as nat, |v: int| self.excess[v].value()),
        }
    }

    /// The edges that leave each vertex, in the order they were added.
    pub closed spec fn leaving(&self) -> Seq<Seq<usize>> {
        Seq::new(self.graph.len() as nat, |v: int| self.graph[v]@)
    }

    /// The state is coherent: edges are paired and end at vertices, each
    /// vertex lists exactly the edges that leave it, and the type can hold
    /// the capacity of every pair and all the excess together.
    #[verifier::opaque]
    pub closed spec fn wf(&self) -> bool {
        let net = self.net();
        &&& net.shaped()
        &&& self.graph.len() == self.excess.len()
        &&& self.excess.len() < usize::MAX
        &&& forall|v: int, k: int|
            0 <= v < self.graph.len() && 0 <= k < self.graph[v].len() ==> (
            #[trigger] self.graph[v][k]) < self.edges.len() && net.origin(
                self.graph[v][k] as int,
            ) == v
        &&& forall|id: int|
            0 <= id < self.edges.len() ==> lists(self.graph[#[trigger] net.origin(id)]@, id)
        &&& forall|id: int|
            0 <= id < self.edges.len() ==> T::fits(#[trigger] net.cap[id] + net.cap[mate(id)])
        &&& T::fits(total(net.ex) as nat)
    }

    /// A solver without vertices or edges.
    pub fn new() -> (solver: Self)
        ensures
            solver.wf(),
            solver.net() == (Net { to: Seq::empty(), cap: Seq::empty(), ex: Seq::empty() }),
            solver.leaving() == Seq::<Seq<usize>>::empty(),
    {
        let solver = SK1Flow { edges: Vec::new(), graph: Vec::new(), excess: Vec::new() };
        proof {
            assert(solver.leaving() =~= Seq::<Seq<usize>>::empty());
            reveal(SK1Flow::wf);
            assert(solver.net().to =~= Seq::<int>::empty());
            assert(solver.net().cap =~= Seq::<nat>::empty());
            assert(solver.net().ex =~= Seq::<nat>::empty());
            assert(as_terms(solver.net().ex) =~= Seq::<int>::empty());
            T::lemma_zero_fits();
        }
        solver
    }

    /// The solver for the given graph: vertex `v` starts with `excess[v]`
    /// and has the edges `input_graph[v]`, each paired with a reverse edge
    /// of capacity 0.
    pub fn from_graph<E: WeightedEdge<T>>(input_graph: &Vec<Vec<E>>, excess: Vec<T>) -> (solver:
        Self)
        requires
            input_graph.len() == excess.len(),
            excess.len() < usize::MAX,
            forall|v: int, k: int|
                0 <= v < input_graph.len() && 0 <= k < input_graph[v].len() ==> (
                #[trigger] input_graph[v][k]).target() < excess.len(),
            T::fits(total(values(excess@)) as nat),
        ensures
            solver.wf(),
            solver.net() == with_rows(
                Net { to: Seq::empty(), cap: Seq::empty(), ex: values(excess@) },
                rows(input_graph@),
                input_graph.len() as int,
            ),
            solver.net().ex == values(excess@),
            solver.leaving() == listed_rows(
                Seq::new(input_graph.len() as nat, |v: int| Seq::<usize>::empty()),
                Net { to: Seq::empty(), cap: Seq::empty(), ex: values(excess@) },
                rows(input_graph@),
                input_graph.len() as int,
            ),
    {
        let n = input_graph.len();
        let ghost none = Seq::new(input_graph.len() as nat, |v: int| Seq::<usize>::empty());
        let ghost bare = Net { to: Seq::empty(), cap: Seq::empty(), ex: values(excess@) };
        let ghost wanted = rows(input_graph@);
        let mut graph: Vec<Vec<usize>> = Vec::new();
        let mut v: usize = 0;
        while v < n
            invariant
                v <= n,
                graph.len() == v,
                forall|u: int| 0 <= u < v ==> (#[trigger] graph[u]).len() == 0,
            decreases n - v,
        {
            graph.push(Vec::new());
            v += 1;
        }
        let mut ans = SK1Flow { edges: Vec::new(), graph, excess };
        proof {
            reveal(SK1Flow::wf);
            assert(ans.net().to =~= bare.to);
            assert(ans.net().cap =~= bare.cap);
            assert(ans.net().ex =~= bare.ex);
            assert(ans.leaving() =~= none) by {
                assert forall|u: int| 0 <= u < n implies #[trigger] ans.leaving()[u] =~= none[u] by {
                    assert(ans.graph[u].len() == 0);
                }
            }
        }
        let mut v: usize = 0;
        while v < n
            invariant
                v <= n,
                n == input_graph.len(),
                ans.leaving() == listed_rows(none, bare, wanted, v as int),
                ans.wf(),
                ans.net().ex.len() == n,
                ans.net().ex == bare.ex,
                wanted == rows(input_graph@),
                forall|u: int, k: int|
                    0 <= u < input_graph.len() && 0 <= k < input_graph[u].len() ==> (
                    #[trigger] input_graph[u][k]).target() < n,
                ans.net() == with_rows(bare, wanted, v as int),
            decreases n - v,
        {
            let ghost row_start = ans.net();
            let ghost lists_start = ans.leaving();
            let mut k: usize = 0;
            while k < input_graph[v].len()
                invariant
                    v < n,
                    n == input_graph.len(),
                    ans.leaving() == listed_row(
                        lists_start,
                        row_start,
                        v as int,
                        wanted[v as int],
                        k as int,
                    ),
                    k <= input_graph[v as int].len(),
                    ans.wf(),
                    ans.net().ex.len() == n,
                    ans.net().ex == bare.ex,
                    wanted == rows(input_graph@),
                    forall|u: int, j: int|
                        0 <= u < input_graph.len() && 0 <= j < input_graph[u].len() ==> (
                        #[trigger] input_graph[u][j]).target() < n,
                    ans.net() == with_row(row_start, v as int, wanted[v as int], k as int),
                decreases input_graph[v as int].len() - k,
            {
                let edge = &input_graph[v][k];
                assert(input_graph[v as int][k as int].target() < n);
                ans.add_edge(v, edge.to(), edge.weight().duplicate());
                k += 1;
            }
            v += 1;
        }
        ans
    }

    /// A new vertex, without edges, that holds `excess`.
    pub fn add_vertex(&mut self, excess: T)
        requires
            old(self).wf(),
            old(self).net().ex.len() + 1 < usize::MAX,
            T::fits((total(old(self).net().ex) + excess.value()) as nat),
        ensures
            final(self).wf(),
            final(self).net() == (Net {
                to: old(self).net().to,
                cap: old(self).net().cap,
                ex: old(self).net().ex.push(excess.value()),
            }),
            final(self).leaving() == old(self).leaving().push(Seq::empty()),
    {
        let ghost before = self.net();
        proof {
            reveal(SK1Flow::wf);
        }
        self.excess.push(excess);
        self.graph.push(Vec::new());
        proof {
            let after = self.net();
            assert(self.leaving() =~= old(self).leaving().push(Seq::empty()));
            assert(after.ex =~= before.ex.push(excess.value()));
            assert(after.to =~= before.to);
            assert(after.cap =~= before.cap);
            lemma_total_push(before.ex, excess.value());
            assert forall|v: int, k: int|
                0 <= v < self.graph.len() && 0 <= k < self.graph[v].len() implies (
            #[trigger] self.graph[v][k]) < self.edges.len() && after.origin(
                self.graph[v][k] as int,
            ) == v by {
                assert(self.graph[v] == old(self).graph[v]);
                assert(before.origin(old(self).graph[v][k] as int) == v);
            }
            assert forall|id: int| 0 <= id < self.edges.len() implies lists(
                self.graph[#[trigger] after.origin(id)]@,
                id,
            ) by {
                assert(lists(old(self).graph[before.origin(id)]@, id));
                assert(self.graph[before.origin(id)] == old(self).graph[before.origin(id)]);
            }
            assert forall|id: int| 0 <= id < self.edges.len() implies T::fits(
                #[trigger] after.cap[id] + after.cap[mate(id)],
            ) by {
                assert(T::fits(before.cap[id] + before.cap[mate(id)]));
            }
        }
    }

    /// A new pair of edges between `from` and `to`: one from `from` to `to` that
    /// can carry `capacity`, and its reverse that can carry `reverse_capacity`.
    pub fn add_double_edge(&mut self, from: usize, to: usize, capacity: T, reverse_capacity: T)
        requires
            old(self).wf(),
            from < old(self).net().ex.len(),
            to < old(self).net().ex.len(),
            T::fits(capacity.value() + reverse_capacity.value()),
        ensures
            final(self).wf(),
            final(self).net() == with_edge(
                old(self).net(),
                from as int,
                to as int,
                capacity.value(),
                reverse_capacity.value(),
            ),
            final(self).leaving() == listed(
                old(self).leaving(),
                from as int,
                to as int,
                old(self).net().to.len() as usize,
            ),
    {
        let ghost before = self.net();
        let ghost m = self.edges.len() as int;
        proof {
            reveal(SK1Flow::wf);
        }
        let first = self.edges.len();
        self.graph[from].push(first);
        self.edges.push((to, capacity));
        let second = self.edges.len();
        self.graph[to].push(second);
        self.edges.push((from, reverse_capacity));
        proof {
            let after = self.net();
            let target = with_edge(
                before,
                from as int,
                to as int,
                capacity.value(),
                reverse_capacity.value(),
            );
            assert(after.to =~= target.to);
            assert(after.cap =~= target.cap);
            assert(after.ex =~= target.ex);
            assert(before.to.len() == m);
            assert(self.leaving() =~= listed(old(self).leaving(), from as int, to as int, first)) by {
                let wanted = listed(old(self).leaving(), from as int, to as int, first);
                assert forall|v: int| 0 <= v < self.graph.len() implies #[trigger] self.leaving()[v]
                    =~= wanted[v] by {}
            }
            assert(mate(m) == m + 1 && mate(m + 1) == m);
            assert forall|id: int| 0 <= id < m implies after.origin(id) == before.origin(id)
                && 0 <= mate(id) < m by {}
            assert forall|v: int, k: int|
                0 <= v < self.graph.len() && 0 <= k < self.graph[v].len() implies (
            #[trigger] self.graph[v][k]) < self.edges.len() && after.origin(
                self.graph[v][k] as int,
            ) == v by {
                if k < old(self).graph[v].len() {
                    assert(self.graph[v][k] == old(self).graph[v][k]);
                    assert(before.origin(old(self).graph[v][k] as int) == v);
                }
            }
            assert forall|id: int| 0 <= id < self.edges.len() implies lists(
                self.graph[#[trigger] after.origin(id)]@,
                id,
            ) by {
                if id < m {
                    let o = before.origin(id);
                    assert(lists(old(self).graph[o]@, id));
                    let k = choose|k: int|
                        0 <= k < old(self).graph[o].len() && #[trigger] old(self).graph[o][k]
                            == id;
                    assert(self.graph[o][k] == id);
                } else if id == m {
                    if from == to {
                        assert(self.graph[from as int][old(self).graph[from as int].len() as int]
                            == m);
                    } else {
                        assert(self.graph[from as int][old(self).graph[from as int].len() as int]
                            == m);
                    }
                } else {
                    assert(self.graph[to as int][self.graph[to as int].len() - 1] == m + 1);
                }
            }
            assert forall|id: int| 0 <= id < self.edges.len() implies T::fits(
                #[trigger] after.cap[id] + after.cap[mate(id)],
            ) by {
                if id < m {
                    assert(T::fits(before.cap[id] + before.cap[mate(id)]));
                }
            }
        }
    }

    /// A new edge from `from` to `to` that can carry `capacity`, with a reverse
    /// edge that can carry nothing yet.
    pub fn add_edge(&mut self, from: usize, to: usize, capacity: T)
        requires
            old(self).wf(),
            from < old(self).net().ex.len(),
            to < old(self).net().ex.len(),
        ensures
            final(self).wf(),
            final(self).net() == with_edge(
                old(self).net(),
                from as int,
                to as int,
                capacity.value(),
                0,
            ),
            final(self).leaving() == listed(
                old(self).leaving(),
                from as int,
                to as int,
                old(self).net().to.len() as usize,
            ),
    {
        proof {
            capacity.lemma_value_fits();
        }
        self.add_double_edge(from, to, capacity, T::zero());
    }

    /// Every edge with its target and the capacity it has left.
    pub fn edges(&self) -> (all: &Vec<(usize, T)>)
        ensures
            all.len() == self.net().to.len(),
            forall|id: int|
                0 <= id < all.len() ==> (#[trigger] all[id]).0 == self.net().to[id]
                    && all[id].1.value() == self.net().cap[id],
    {
        &self.edges
    }

    /// The excess of every vertex.
    pub fn excess(&self) -> (all: &Vec<T>)
        ensures
            all.len() == self.net().ex.len(),
            forall|v: int| 0 <= v < all.len() ==> (#[trigger] all[v]).value() == self.net().ex[v],
    {
        &self.excess
    }

    /// Pushes along edge `id` as much as its origin has and the edge can
    /// take, and returns the amount.
    fn push_edge(&mut self, id: usize) -> (value: T)
        requires
            old(self).wf(),
            id < old(self).edges.len(),
        ensures
            final(self).wf(),
            final(self).graph == old(self).graph,
            final(self).net() == old(self).net().pushed(id as int, value.value()),
            value.value() == if old(self).net().ex[old(self).net().origin(id as int)] <= old(self).net().cap[id as int] {
                old(self).net().ex[old(self).net().origin(id as int)]
            } else {
                old(self).net().cap[id as int]
            },
    {
        let ghost before = self.net();
        proof {
            reveal(SK1Flow::wf);
            lemma_mate(id);
            assert(0 <= mate(id as int) < before.to.len());
            assert(mate(mate(id as int)) == id);
            assert(0 <= before.to[mate(id as int)] < before.ex.len());
            assert(0 <= before.to[id as int] < before.ex.len());
        }
        let v = self.edges[id ^ 1].0;
        let u = self.edges[id].0;
        let value = self.excess[v].smaller(&self.edges[id].1);
        let ghost x = value.value();
        proof {
            assert(T::fits(before.cap[id as int] + before.cap[mate(id as int)]));
            T::lemma_fits_less(before.cap[mate(id as int)] + x, before.cap[id as int] + before.cap[mate(id as int)]);
            let terms = as_terms(before.ex);
            lemma_sum_covers(terms, terms.len() as int, v as int, u as int);
            if u != v {
                T::lemma_fits_less(before.ex[u as int] + x, total(before.ex) as nat);
            } else {
                T::lemma_fits_less(before.ex[u as int], total(before.ex) as nat);
            }
        }
        self.edges[id].1.decrease(&value);
        self.edges[id ^ 1].1.increase(&value);
        self.excess[v].decrease(&value);
        self.excess[u].increase(&value);
        proof {
            let after = self.net();
            let target = before.pushed(id as int, x);
            assert(after.to =~= target.to);
            assert(after.cap =~= target.cap);
            assert(after.ex =~= target.ex);
            lemma_push_keeps_potential(Set::empty(), before, id as int, x);
            lemma_push_keeps_total(before, id as int, x);
            assert forall|w: int, k: int|
                0 <= w < self.graph.len() && 0 <= k < self.graph[w].len() implies (
            #[trigger] self.graph[w][k]) < self.edges.len() && after.origin(
                self.graph[w][k] as int,
            ) == w by {
                assert(before.origin(old(self).graph[w][k] as int) == w);
            }
            assert forall|e: int| 0 <= e < self.edges.len() implies lists(
                self.graph[#[trigger] after.origin(e)]@,
                e,
            ) by {
                assert(lists(old(self).graph[before.origin(e)]@, e));
            }
            assert forall|e: int| 0 <= e < self.edges.len() implies T::fits(
                #[trigger] after.cap[e] + after.cap[mate(e)],
            ) by {
                assert(T::fits(before.cap[e] + before.cap[mate(e)]));
                assert(0 <= mate(e) < before.to.len());
                if e == id || e == mate(id as int) {
                    assert(after.cap[e] + after.cap[mate(e)] == before.cap[e] + before.cap[mate(
                        e,
                    )]);
                } else {
                    assert(mate(e) != id && mate(e) != mate(id as int));
                }
            }
        }
        value
    }

    /// The network of a coherent state is well shaped.
    pub proof fn lemma_net_shaped(&self)
        requires
            self.wf(),
        ensures
            self.net().shaped(),
    {
        reveal(SK1Flow::wf);
    }

    /// The sizes of a coherent state.
    proof fn lemma_sizes(&self)
        requires
            self.wf(),
        ensures
            self.net().shaped(),
            self.net().cap.len() == self.edges.len(),
            self.net().ex.len() == self.excess.len(),
            self.graph.len() == self.excess.len(),
            self.excess.len() < usize::MAX,
            T::fits(total(self.net().ex) as nat),
    {
        reveal(SK1Flow::wf);
    }

    /// What the state says of the `k`-th edge out of `v`.
    proof fn lemma_edge(&self, v: int, k: int)
        requires
            self.wf(),
            0 <= v < self.graph.len(),
            0 <= k < self.graph[v].len(),
        ensures
            self.graph[v][k] < self.edges.len(),
            self.net().origin(self.graph[v][k] as int) == v,
            0 <= mate(self.graph[v][k] as int) < self.edges.len(),
            0 <= self.net().to[self.graph[v][k] as int] < self.excess.len(),
            self.net().to[self.graph[v][k] as int] == self.edges[self.graph[v][k] as int].0,
            self.net().cap[mate(self.graph[v][k] as int)] == self.edges[mate(
                self.graph[v][k] as int,
            )].1.value(),
            self.net().cap[self.graph[v][k] as int]
                == self.edges[self.graph[v][k] as int].1.value(),
            self.net().cap.len() == self.edges.len(),
            self.net().ex.len() == self.excess.len(),
            self.net().shaped(),
            self.excess.len() < usize::MAX,
    {
        reveal(SK1Flow::wf);
    }

    /// Every edge that leaves `v` is among those listed for `v`.
    proof fn lemma_row(&self, v: int)
        requires
            self.wf(),
            0 <= v < self.graph.len(),
        ensures
            forall|id: int|
                0 <= id < self.net().cap.len() && self.net().origin(id) == v ==> exists|j: int|
                    0 <= j < self.graph[v]@.len() && #[trigger] self.graph[v]@[j] == id,
    {
        reveal(SK1Flow::wf);
        assert forall|id: int|
            0 <= id < self.net().cap.len() && self.net().origin(id) == v implies exists|j: int|
            0 <= j < self.graph[v]@.len() && #[trigger] self.graph[v]@[j] == id by {
            assert(lists(self.graph[self.net().origin(id)]@, id));
        }
    }

    /// Looks at the `k`-th edge out of `v`, the vertex at `head`: if its mate
    /// has capacity left and its target has no layer yet, the target gets the
    /// layer above that of `v` and joins the order.
    fn visit(
        &self,
        sink: usize,
        v: usize,
        k: usize,
        head: usize,
        order: &mut Vec<usize>,
        layers: &mut Vec<usize>,
        Ghost(prev): Ghost<Seq<int>>,
    )
        requires
            self.wf(),
            sink < self.excess.len(),
            grade_bounds(prev, self.excess.len() as int, sink as int),
            graded(self.net(), prev),
            searching(self.net(), sink as int, old(order)@, old(layers)@, head as int, prev),
            head < old(order).len(),
            v == old(order)[head as int],
            v < self.excess.len(),
            old(layers).len() == self.excess.len(),
            old(layers)[v as int] != usize::MAX,
            k < self.graph[v as int].len(),
        ensures
            searching(self.net(), sink as int, final(order)@, final(layers)@, head as int, prev),
            final(order).len() >= old(order).len(),
            final(order).len() <= self.excess.len(),
            final(order)[head as int] == v,
            final(layers).len() == old(layers).len(),
            forall|u: int|
                0 <= u < old(layers).len() && old(layers)[u] != usize::MAX ==> #[trigger] final(layers)[u] == old(layers)[u],
            dealt_with(
                self.net(),
                final(layers)@,
                self.graph[v as int][k as int] as int,
                v as int,
            ),
    {
        let ghost net = self.net();
        proof {
            self.lemma_sizes();
        }
        let edge_id = self.graph[v][k];
        proof {
            lemma_mate(edge_id);
            self.lemma_edge(v as int, k as int);
            reveal(search_base);
        }
        if !self.edges[edge_id ^ 1].1.is_zero() {
            let u = self.edges[edge_id].0;
            if layers[u] == usize::MAX {
                proof {
                    lemma_search_discovers(
                        net,
                        sink as int,
                        order@,
                        layers@,
                        head as int,
                        prev,
                        edge_id as int,
                    );
                }
                layers[u] = layers[v] + 1;
                order.push(u);
            } else {
                proof {
                    assert(order@.contains(u));
                    let i = choose|i: int| 0 <= i < order.len() && order[i] == u;
                    assert(layers[order[i] as int] <= layers[order[head as int] as int] + 1);
                }
            }
        }
    }

    /// The search before it has looked at anything: the sink alone, in
    /// layer 1.
    fn start_search(n: usize, sink: usize, Ghost(net): Ghost<Net>, Ghost(prev): Ghost<Seq<int>>) -> (found:
        (Vec<usize>, Vec<usize>))
        requires
            net.shaped(),
            net.ex.len() == n,
            n < usize::MAX,
            sink < n,
            grade_bounds(prev, n as int, sink as int),
        ensures
            searching(net, sink as int, found.0@, found.1@, 0, prev),
            found.0.len() <= n,
            found.1.len() == n,
    {
        let mut layers: Vec<usize> = Vec::new();
        let mut v: usize = 0;
        while v < n
            invariant
                v <= n,
                layers.len() == v,
                forall|u: int| 0 <= u < v ==> layers[u] == usize::MAX,
            decreases n - v,
        {
            layers.push(usize::MAX);
            v += 1;
        }
        layers[sink] = 1;
        let mut order: Vec<usize> = Vec::new();
        order.push(sink);
        proof {
            lemma_search_starts(net, sink as int, prev);
            assert(order@ =~= seq![sink]);
            assert(layers@ =~= Seq::new(net.ex.len(), |v: int| usize::MAX).update(
                sink as int,
                1usize,
            ));
        }
        (order, layers)
    }

    /// Searches breadth-first from the sink, against the edges that have
    /// capacity left. Returns the vertices reached, in the order they were
    /// reached, and the layer of every vertex, `usize::MAX` for one out of
    /// reach.
    fn layering(&self, sink: usize, Ghost(prev): Ghost<Seq<int>>) -> (found: (
        Vec<usize>,
        Vec<usize>,
    ))
        requires
            self.wf(),
            sink < self.excess.len(),
            grade_bounds(prev, self.excess.len() as int, sink as int),
            graded(self.net(), prev),
        ensures
            layered(self.net(), sink as int, found.0@, found.1@),
            searched(self.net(), sink as int, (Round { order: found.0@, layers: found.1@ })),
            forall|v: int| 0 <= v < self.excess.len() ==> #[trigger] grades(found.1@)[v] >= prev[v],
    {
        let n = self.excess.len();
        let ghost net = self.net();
        proof {
            self.lemma_sizes();
        }
        let (mut order, mut layers) = Self::start_search(n, sink, Ghost(net), Ghost(prev));
        let mut head: usize = 0;
        while head < order.len()
            invariant
                self.wf(),
                net == self.net(),
                net.shaped(),
                net.ex.len() == n,
                n < usize::MAX,
                n == self.excess.len(),
                n == self.graph.len(),
                sink < n,
                grade_bounds(prev, n as int, sink as int),
                graded(net, prev),
                searching(net, sink as int, order@, layers@, head as int, prev),
                order.len() <= n,
            decreases n - head,
        {
            let v = order[head];
            proof {
                reveal(search_base);
                assert(order[head as int] < n);
                assert(1 <= layers[order[head as int] as int]);
            }
            let mut k: usize = 0;
            while k < self.graph[v].len()
                invariant
                    self.wf(),
                    net == self.net(),
                    net.shaped(),
                    net.ex.len() == n,
                    n == self.excess.len(),
                    n == self.graph.len(),
                    sink < n,
                    grade_bounds(prev, n as int, sink as int),
                    graded(net, prev),
                    searching(net, sink as int, order@, layers@, head as int, prev),
                    order.len() <= n,
                    head < order.len(),
                    v == order[head as int],
                    v < n,
                    layers.len() == n,
                    layers[v as int] != usize::MAX,
                    k <= self.graph[v as int].len(),
                    forall|j: int|
                        0 <= j < k ==> dealt_with(
                            net,
                            layers@,
                            (#[trigger] self.graph[v as int][j]) as int,
                            v as int,
                        ),
                decreases self.graph[v as int].len() - k,
            {
                let ghost before = layers@;
                self.visit(sink, v, k, head, &mut order, &mut layers, Ghost(prev));
                proof {
                    assert forall|j: int| 0 <= j < k implies dealt_with(
                        net,
                        layers@,
                        (#[trigger] self.graph[v as int][j]) as int,
                        v as int,
                    ) by {
                        self.lemma_edge(v as int, j);
                        assert(dealt_with(net, before, self.graph[v as int][j] as int, v as int));
                    }
                }
                k += 1;
            }
            proof {
                self.lemma_row(v as int);
                lemma_search_advances(
                    net,
                    sink as int,
                    order@,
                    layers@,
                    head as int,
                    prev,
                    self.graph[v as int]@,
                );
            }
            head += 1;
        }
        proof {
            lemma_search_ends(net, sink as int, order@, layers@, prev);
            reveal(search_base);
            reveal(sorted_layers);
        }
        (order, layers)
    }

    /// Pushes the excess of `v` along its edges into the layer below, edge by
    /// edge, until none is left. Says whether anything moved.
    fn relieve(&mut self, v: usize, layers: &Vec<usize>, Ghost(most): Ghost<int>) -> (changed:
        bool)
        requires
            old(self).wf(),
            v < old(self).excess.len(),
            layers.len() == old(self).excess.len(),
            1 <= layers[v as int] <= old(self).excess.len(),
            graded(old(self).net(), grades(layers@)),
        ensures
            final(self).wf(),
            final(self).graph == old(self).graph,
            rerouted(old(self).net(), final(self).net()),
            graded(final(self).net(), grades(layers@)),
            changed ==> measure(final(self).net().ex, grades(layers@), most) < measure(
                old(self).net().ex,
                grades(layers@),
                most,
            ),
            old(self).net().ex[v as int] == 0 ==> !changed,
            final(self).net() == relieved(
                old(self).net(),
                old(self).graph[v as int]@,
                layers@,
                v as int,
                old(self).graph[v as int].len() as int,
            ),
            !changed ==> final(self).net() == old(self).net() && (final(self).net().ex[v as int]
                == 0 || forall|j: int|
                0 <= j < old(self).graph[v as int].len() ==> !(final(self).net().cap[(
                #[trigger] old(self).graph[v as int][j]) as int] > 0 && layers[final(self).net().to[old(self).graph[v as int][j] as int]] + 1 == layers[v as int])),
    {
        let ghost start = self.net();
        let ghost grade = grades(layers@);
        let ghost n = self.excess.len();
        proof {
            self.lemma_sizes();
            lemma_rerouted_self(start);
        }
        let mut changed = false;
        let mut done = false;
        let mut k: usize = 0;
        while k < self.graph[v].len() && !done
            invariant
                self.wf(),
                self.graph == old(self).graph,
                self.excess.len() == n,
                self.graph.len() == n,
                n < usize::MAX,
                v < n,
                layers.len() == n,
                1 <= layers[v as int] <= n,
                grade == grades(layers@),
                start == old(self).net(),
                start.shaped(),
                start.ex.len() == n,
                rerouted(start, self.net()),
                graded(self.net(), grade),
                k <= self.graph[v as int].len(),
                changed ==> measure(self.net().ex, grade, most) < measure(start.ex, grade, most),
                !changed ==> self.net() == start,
                start.ex[v as int] == 0 ==> !changed,
                self.net() == relieved(start, self.graph[v as int]@, layers@, v as int, k as int),
                done ==> self.net().ex[v as int] == 0,
                !changed && !done ==> forall|j: int|
                    0 <= j < k ==> !(start.cap[(#[trigger] self.graph[v as int][j]) as int] > 0
                        && layers[start.to[self.graph[v as int][j] as int]] + 1
                        == layers[v as int]),
            decreases self.graph[v as int].len() - k + if done { 0int } else { 1int },
        {
            let ghost net = self.net();
            proof {
                self.lemma_sizes();
                self.lemma_edge(v as int, k as int);
                lemma_rerouted_shape(start, net);
            }
            if self.excess[v].is_zero() {
                done = true;
            } else {
                let edge_id = self.graph[v][k];
                let target = self.edges[edge_id].0;
                proof {
                    assert(self.graph[v as int]@[k as int] == edge_id);
                    assert(target == net.to[edge_id as int]);
                    assert(net.origin(edge_id as int) == v);
                }
                if layers[target] == layers[v] - 1 {
                    let pushed = self.push_edge(edge_id);
                    proof {
                        assert(grade[target as int] == layers[target as int]);
                        assert(grade[v as int] == layers[v as int]);
                        lemma_push_reroutes(start, net, edge_id as int, pushed.value());
                        lemma_push_keeps_graded(net, grade, edge_id as int, pushed.value());
                        lemma_measure_push(net, grade, edge_id as int, pushed.value(), most);
                    }
                    if !pushed.is_zero() {
                        changed = true;
                    } else {
                        proof {
                            assert(self.net().cap =~= net.cap);
                            assert(self.net().ex =~= net.ex);
                        }
                    }
                }
                k += 1;
            }
        }
        proof {
            let row = self.graph[v as int]@;
            self.lemma_sizes();
            lemma_rerouted_shape(start, self.net());
            if k < row.len() {
                assert forall|j: int| 0 <= j < row.len() implies (#[trigger] row[j])
                    < start.cap.len() by {
                    self.lemma_edge(v as int, j);
                }
                lemma_relieved_rest(start, row, layers@, v as int, k as int, row.len() as int);
            }
        }
        changed
    }

    /// Takes the vertices reached, deepest first, and for each pushes what it
    /// holds into the layer below. Says whether anything moved.
    fn drain(
        &mut self,
        sink: usize,
        order: Vec<usize>,
        layers: &Vec<usize>,
        Ghost(most): Ghost<int>,
    ) -> (change: bool)
        requires
            old(self).wf(),
            sink < old(self).excess.len(),
            layered(old(self).net(), sink as int, order@, layers@),
        ensures
            final(self).wf(),
            final(self).graph == old(self).graph,
            rerouted(old(self).net(), final(self).net()),
            graded(final(self).net(), grades(layers@)),
            change ==> measure(final(self).net().ex, grades(layers@), most) < measure(
                old(self).net().ex,
                grades(layers@),
                most,
            ),
            !change ==> final(self).net() == old(self).net() && forall|v: int|
                0 <= v < layers.len() && v != sink && #[trigger] layers[v] != usize::MAX
                    ==> final(self).net().ex[v] == 0,
            (forall|i: int|
                0 <= i < order.len() ==> old(self).net().ex[(#[trigger] order[i]) as int] == 0)
                ==> !change,
            final(self).net() == drained(old(self).net(), old(self).leaving(), layers@, order@, 0),
    {
        let ghost start = self.net();
        let ghost grade = grades(layers@);
        let ghost order0 = order@;
        let ghost n = self.excess.len();
        proof {
            self.lemma_sizes();
            lemma_rerouted_self(start);
            lemma_layered_graded(start, sink as int, order@, layers@);
        }
        let mut order = order;
        let mut change = false;
        while order.len() > 0
            invariant
                self.wf(),
                self.graph == old(self).graph,
                self.excess.len() == n,
                n < usize::MAX,
                sink < n,
                layers.len() == n,
                grade == grades(layers@),
                start == old(self).net(),
                start.shaped(),
                start.ex.len() == n,
                layered(start, sink as int, order0, layers@),
                order@ == order0.take(order.len() as int),
                order.len() <= order0.len(),
                rerouted(start, self.net()),
                graded(self.net(), grade),
                change ==> measure(self.net().ex, grade, most) < measure(start.ex, grade, most),
                !change ==> self.net() == start && forall|i: int|
                    order.len() <= i < order0.len() && (#[trigger] order0[i]) != sink
                        ==> start.ex[order0[i] as int] == 0,
                (forall|i: int|
                    0 <= i < order0.len() ==> start.ex[(#[trigger] order0[i]) as int] == 0)
                    ==> !change,
                self.net() == drained(
                    start,
                    old(self).leaving(),
                    layers@,
                    order0,
                    order.len() as int,
                ),
            decreases order.len(),
        {
            let ghost net = self.net();
            let ghost at = order.len() - 1;
            let v = order.pop().unwrap();
            proof {
                reveal(layered);
                assert(v == order0[at]);
                assert(order0[at] < n && 1 <= layers[order0[at] as int] <= n);
                assert(order@ =~= order0.take(order.len() as int));
            }
            proof {
                self.lemma_sizes();
            }
            let moved = self.relieve(v, layers, Ghost(most));
            proof {
                assert(old(self).leaving()[v as int] == self.graph[v as int]@);
                assert(self.net() == drained(start, old(self).leaving(), layers@, order0, at));
                lemma_rerouted_chain(start, net, self.net());
                self.lemma_sizes();
                lemma_rerouted_shape(net, self.net());
                if !moved && !change {
                    if v != sink && net.ex[v as int] != 0 {
                        reveal(descends);
                        reveal(layered);
                        assert(descends(start, layers@, v as int));
                        let id = choose|id: int|
                            0 <= id < start.cap.len() && start.origin(id) == v
                                && #[trigger] start.cap[id] > 0 && layers[start.to[id]] + 1
                                == layers[v as int];
                        self.lemma_row(v as int);
                        let j = choose|j: int|
                            0 <= j < self.graph[v as int]@.len()
                                && #[trigger] self.graph[v as int]@[j] == id;
                        assert(self.graph[v as int][j] == id);
                        assert(false);
                    }
                }
            }
            if moved {
                change = true;
            }
        }
        proof {
            if !change {
                assert forall|v: int|
                    0 <= v < layers.len() && v != sink && #[trigger] layers[v]
                        != usize::MAX implies self.net().ex[v] == 0 by {
                    reveal(layered);
                    assert(order0.contains(v as usize));
                    let i = choose|i: int| 0 <= i < order0.len() && order0[i] == v as usize;
                    assert(order0[i] != sink);
                }
            }
        }
        change
    }

    /// Moves the excess through the network until no more of it can reach
    /// the sink, and returns what has reached it. The sink is left without
    /// excess; what could not reach it stays where it got stuck. The work is
    /// done in rounds: a search from the sink layers the vertices, and each
    /// vertex reached, the deepest first, pushes what it holds along its
    /// edges into the layer below. The round that moves nothing is the last.
    /// A network at rest is left as it is.
    pub fn flow(&mut self, sink: usize) -> (value: T)
        requires
            old(self).wf(),
            sink < old(self).net().ex.len(),
        ensures
            final(self).wf(),
            final(self).leaving() == old(self).leaving(),
            flowed(old(self).net(), final(self).net(), sink as int, value.value()),
            at_rest(final(self).net(), sink as int),
            at_rest(old(self).net(), sink as int) ==> final(self).net() == old(self).net()
                && value.value() == 0,
            exists|rounds: Seq<Round>|
                #![trigger run_of(old(self).net(), old(self).leaving(), sink as int, rounds)]
                run_of(old(self).net(), old(self).leaving(), sink as int, rounds)
                    && final(self).net() == after_rounds(
                    old(self).net(),
                    old(self).leaving(),
                    rounds,
                    rounds.len() as int,
                ).with_excess(sink as int, 0) && value.value() == after_rounds(
                    old(self).net(),
                    old(self).leaving(),
                    rounds,
                    rounds.len() as int,
                ).ex[sink as int],
    {
        let ghost rounds: Seq<Round> = Seq::empty();
        let ghost rows = self.leaving();
        let ghost init = self.net();
        let ghost most = total(init.ex);
        let ghost n = self.excess.len();
        let ghost mut prev: Seq<int> = Seq::new(n as nat, |v: int| 1int);
        proof {
            self.lemma_sizes();
            lemma_rerouted_self(init);
            reveal(graded);
        }
        let mut stable = false;
        while !stable
            invariant
                self.wf(),
                self.graph == old(self).graph,
                self.excess.len() == n,
                n < usize::MAX,
                sink < n,
                init == old(self).net(),
                init.shaped(),
                init.ex.len() == n,
                most == total(init.ex),
                rerouted(init, self.net()),
                graded(self.net(), prev),
                grade_bounds(prev, n as int, sink as int),
                stable ==> forall|v: int|
                    0 <= v < n && v != sink && #[trigger] can_reach(self.net(), v, sink as int)
                        ==> self.net().ex[v] == 0,
                at_rest(init, sink as int) ==> self.net() == init,
                rows == old(self).leaving(),
                rows == self.leaving(),
                self.net() == after_rounds(init, rows, rounds, rounds.len() as int),
                !stable ==> rounds_fit(init, rows, sink as int, rounds, rounds.len() as int),
                stable ==> run_of(init, rows, sink as int, rounds),
            decreases
                    if stable {
                        0int
                    } else {
                        1int
                    },
                    measure(self.net().ex, prev, most),
        {
            let ghost net = self.net();
            proof {
                self.lemma_sizes();
                lemma_rerouted_shape(init, net);
                lemma_measure_nonnegative(net.ex, prev, sink as int);
            }
            let (order, layers) = self.layering(sink, Ghost(prev));
            let ghost grade = grades(layers@);
            proof {
                lemma_layered_graded(net, sink as int, order@, layers@);
                lemma_measure_regrade(net.ex, prev, grade, sink as int);
                lemma_measure_nonnegative(net.ex, grade, sink as int);
                lemma_reached_iff(net, sink as int, order@, layers@);
                if at_rest(init, sink as int) {
                    assert forall|i: int| 0 <= i < order.len() implies net.ex[(
                    #[trigger] order[i]) as int] == 0 by {
                        reveal(layered);
                        assert(layers[order[i] as int] != usize::MAX);
                    }
                }
            }
            let ghost round = Round { order: order@, layers: layers@ };
            let change = self.drain(sink, order, &layers, Ghost(most));
            proof {
                lemma_round_on(init, rows, sink as int, rounds, round);
                assert(self.leaving() =~= rows);
                if change {
                    assert(self.net() != net);
                }
                rounds = rounds.push(round);
                lemma_rerouted_chain(init, net, self.net());
                self.lemma_sizes();
                lemma_rerouted_shape(init, self.net());
                lemma_measure_nonnegative(self.net().ex, grade, sink as int);
                prev = grade;
                if !change {
                    reveal(layered);
                    assert forall|v: int|
                        0 <= v < n && v != sink && #[trigger] can_reach(
                            self.net(),
                            v,
                            sink as int,
                        ) implies self.net().ex[v] == 0 by {
                        assert(layers[v] != usize::MAX);
                    }
                }
            }
            if !change {
                stable = true;
            }
        }
        let ghost settled = self.net();
        let ghost prior = *self;
        proof {
            self.lemma_sizes();
            lemma_rerouted_shape(init, settled);
        }
        let mut value = T::zero();
        std::mem::swap(&mut self.excess[sink], &mut value);
        proof {
            let after = self.net();
            assert(after.to =~= settled.to);
            assert(after.cap =~= settled.cap);
            assert(after.ex =~= settled.ex.update(sink as int, 0nat));
            assert(after.with_excess(sink as int, value.value()).ex =~= settled.ex);
            assert(after.with_excess(sink as int, value.value()) == settled);
            assert forall|v: int|
                0 <= v < after.ex.len() && v != sink && #[trigger] can_reach(
                    after,
                    v,
                    sink as int,
                ) implies after.ex[v] == 0 by {
                let path = choose|path: Seq<int>| is_path(after, path, v, sink as int);
                lemma_path_ignores_excess(after, settled, path, v, sink as int);
                assert(can_reach(settled, v, sink as int));
            }
            self.lemma_zeroed(prior, sink as int);
            assert(self.leaving() =~= old(self).leaving());
            if at_rest(init, sink as int) {
                assert(after.ex =~= init.ex);
                assert(after == init);
            }
        }
        value
    }

    /// Taking the excess off one vertex keeps the state coherent.
    proof fn lemma_zeroed(&self, prior: Self, sink: int)
        requires
            prior.wf(),
            0 <= sink < prior.excess.len(),
            self.graph == prior.graph,
            self.edges == prior.edges,
            self.excess.len() == prior.excess.len(),
            self.net().ex == prior.net().ex.update(sink, 0nat),
        ensures
            self.wf(),
    {
        reveal(SK1Flow::wf);
        let net = self.net();
        let settled = prior.net();
        assert(net.to =~= settled.to);
        assert(net.cap =~= settled.cap);
        assert(as_terms(net.ex) =~= as_terms(settled.ex).update(sink, 0int));
        lemma_sum_update(as_terms(settled.ex), sink, 0int, settled.ex.len() as int);
        crate::sk1flow::network::lemma_sum_nonnegative(as_terms(net.ex), net.ex.len() as int);
        T::lemma_fits_less(total(net.ex) as nat, total(settled.ex) as nat);
        assert forall|id: int| 0 <= id < self.edges.len() implies lists(
            self.graph[#[trigger] net.origin(id)]@,
            id,
        ) by {
            assert(lists(prior.graph[settled.origin(id)]@, id));
        }
        assert forall|v: int, k: int|
            0 <= v < self.graph.len() && 0 <= k < self.graph[v].len() implies (
        #[trigger] self.graph[v][k]) < self.edges.len() && net.origin(self.graph[v][k] as int)
            == v by {
            assert(settled.origin(prior.graph[v][k] as int) == v);
        }
        assert forall|id: int| 0 <= id < self.edges.len() implies T::fits(
            #[trigger] net.cap[id] + net.cap[mate(id)],
        ) by {
            assert(T::fits(settled.cap[id] + settled.cap[mate(id)]));
        }
    }

    /// On which side of the cut each vertex lies once no more flow can reach
    /// the sink: `true` for the source side, from where no edge with capacity
    /// left leads on towards the sink.
    pub fn cut(&self, sink: usize) -> (side: Vec<bool>)
        requires
            self.wf(),
            sink < self.net().ex.len(),
        ensures
            side.len() == self.net().ex.len(),
            forall|v: int|
                0 <= v < side.len() ==> #[trigger] side[v] == !sink_side(
                    self.net(),
                    sink as int,
                ).contains(v),
            !side[sink as int],
    {
        let n = self.excess.len();
        let ghost net = self.net();
        let ghost prev = Seq::new(n as nat, |v: int| 1int);
        proof {
            self.lemma_sizes();
            reveal(graded);
        }
        let (order, layers) = self.layering(sink, Ghost(prev));
        proof {
            lemma_reached_iff(net, sink as int, order@, layers@);
            lemma_reach_self(net, sink as int);
            reveal(layered);
        }
        let mut side: Vec<bool> = Vec::new();
        let mut v: usize = 0;
        while v < n
            invariant
                v <= n,
                n == net.ex.len(),
                layers.len() == n,
                side.len() == v,
                forall|u: int|
                    0 <= u < n ==> (#[trigger] layers[u] != usize::MAX <==> can_reach(
                        net,
                        u,
                        sink as int,
                    )),
                forall|u: int|
                    0 <= u < v ==> #[trigger] side[u] == !sink_side(net, sink as int).contains(u),
            decreases n - v,
        {
            side.push(layers[v] == usize::MAX);
            v += 1;
        }
        side
    }
}

/// Nothing moved is a rerouting.
pub proof fn lemma_rerouted_self(net: Net)
    ensures
        rerouted(net, net),
{
    reveal(rerouted);
}

/// What a rerouting keeps in plain sight.
pub proof fn lemma_rerouted_shape(before: Net, after: Net)
    requires
        rerouted(before, after),
    ensures
        after.to == before.to,
        after.cap.len() == before.cap.len(),
        after.ex.len() == before.ex.len(),
        total(after.ex) == total(before.ex),
{
    reveal(rerouted);
}

/// Reroutings chain.
pub proof fn lemma_rerouted_chain(first: Net, second: Net, third: Net)
    requires
        rerouted(first, second),
        rerouted(second, third),
    ensures
        rerouted(first, third),
{
    reveal(rerouted);
    assert forall|side: Set<int>| #[trigger] potential(side, third) == potential(side, first) by {
        assert(potential(side, third) == potential(side, second));
        assert(potential(side, second) == potential(side, first));
    }
    assert forall|id: int| 0 <= id < first.cap.len() implies #[trigger] third.cap[id]
        + third.cap[mate(id)] == first.cap[id] + first.cap[mate(id)] by {
        assert(third.cap[id] + third.cap[mate(id)] == second.cap[id] + second.cap[mate(id)]);
        assert(second.cap[id] + second.cap[mate(id)] == first.cap[id] + first.cap[mate(id)]);
    }
}

/// One more vertex adds its excess to the total.
pub proof fn lemma_total_push(ex: Seq<nat>, amount: nat)
    ensures
        total(ex.push(amount)) == total(ex) + amount,
{
    let t1 = as_terms(ex);
    let t2 = as_terms(ex.push(amount));
    assert(t2 =~= t1.push(amount as int));
    lemma_sum_prefix(t1, t2, t1.len() as int);
}

/// Sums over sequences that agree on the first `k` terms agree.
pub proof fn lemma_sum_prefix(a: Seq<int>, b: Seq<int>, k: int)
    requires
        0 <= k <= a.len(),
        k <= b.len(),
        forall|i: int| 0 <= i < k ==> a[i] == b[i],
    ensures
        sum(a, k) == sum(b, k),
    decreases k,
{
    if k > 0 {
        lemma_sum_prefix(a, b, k - 1);
    }
}

/// A push moves excess from one vertex to another: the total stays.
pub proof fn lemma_push_keeps_total(net: Net, id: int, amount: nat)
    requires
        net.shaped(),
        0 <= id < net.cap.len(),
        amount <= net.cap[id],
        amount <= net.ex[net.origin(id)],
    ensures
        total(net.pushed(id, amount).ex) == total(net.ex),
{
    let o = net.origin(id);
    let t = net.to[id];
    assert(0 <= mate(id) < net.to.len());
    assert(0 <= net.to[mate(id)] < net.ex.len());
    let ex1 = net.ex.update(o, (net.ex[o] - amount) as nat);
    let ex2 = ex1.update(t, ex1[t] + amount);
    let n = net.ex.len() as int;
    assert(as_terms(ex1) =~= as_terms(net.ex).update(o, net.ex[o] - amount));
    assert(as_terms(ex2) =~= as_terms(ex1).update(t, (ex1[t] + amount) as int));
    lemma_sum_update(as_terms(net.ex), o, net.ex[o] - amount, n);
    lemma_sum_update(as_terms(ex1), t, (ex1[t] + amount) as int, n);
}

} // verus!
