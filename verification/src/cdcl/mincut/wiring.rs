//! The shape of the implication graph: which vertex leads to which, and who
//! the parents of a vertex are.
use vstd::prelude::*;

verus! {

/// The graph is wired soundly. Every edge leads forward, to a vertex from 2
/// on that lists the edge's origin among its parents; the edges of a vertex
/// are in the order of their targets; every parent comes before its child;
/// an even vertex from 2 on, the entry side of a literal, leads to the exit
/// side of that literal and nowhere else; and the sink has no parents.
#[verifier::opaque]
pub open spec fn wired(g: Seq<Seq<int>>, p: Seq<Seq<usize>>) -> bool {
    &&& g.len() >= 2
    &&& p.len() == g.len()
    &&& forall|v: int, k: int|
        0 <= v < g.len() && 0 <= k < g[v].len() ==> v < #[trigger] g[v][k] < g.len() && g[v][k]
            >= 2 && p[g[v][k]].contains(v as usize)
    &&& forall|v: int, j: int, k: int|
        0 <= v < g.len() && 0 <= j <= k < g[v].len() ==> #[trigger] g[v][j] <= #[trigger] g[v][k]
    &&& forall|t: int, j: int|
        0 <= t < p.len() && 0 <= j < p[t].len() ==> (#[trigger] p[t][j]) < t && (p[t][j] >= 2
            && p[t][j] % 2 == 0 ==> t == p[t][j] + 1)
    &&& forall|q: int|
        2 <= q < g.len() && q % 2 == 0 ==> #[trigger] g[q] == (if q + 1 < g.len() {
            seq![q + 1]
        } else {
            Seq::empty()
        })
    &&& p[1].len() == 0
}

/// What follows of a soundly wired graph for its use as a flow network.
pub proof fn lemma_wired_facts(g: Seq<Seq<int>>, p: Seq<Seq<usize>>)
    requires
        wired(g, p),
    ensures
        g.len() >= 2,
        p.len() == g.len(),
        p[1].len() == 0,
        forall|v: int, k: int|
            0 <= v < g.len() && 0 <= k < g[v].len() ==> v < #[trigger] g[v][k] < g.len() && g[v][k]
                >= 2,
        forall|t: int, j: int| 0 <= t < p.len() && 0 <= j < p[t].len() ==> (#[trigger] p[t][j]) < t,
        forall|q: int|
            2 <= q < g.len() && q % 2 == 0 && q + 1 < g.len() ==> #[trigger] g[q] == seq![q + 1],
{
    reveal(wired);
}

/// Source and sink alone are soundly wired.
pub proof fn lemma_wired_start()
    ensures
        wired(
            seq![Seq::<int>::empty(), Seq::<int>::empty()],
            seq![Seq::<usize>::empty(), Seq::<usize>::empty()],
        ),
{
    reveal(wired);
}

/// The graph with the two vertices of a new literal: its entry side, which
/// leads to its exit side.
pub open spec fn with_pair(g: Seq<Seq<int>>) -> Seq<Seq<int>> {
    g.push(seq![g.len() as int + 1]).push(Seq::empty())
}

/// The parents with those of a new literal's vertices.
pub open spec fn with_pair_parents(p: Seq<Seq<usize>>) -> Seq<Seq<usize>> {
    p.push(Seq::empty()).push(seq![p.len() as usize])
}

/// The two vertices of a new literal keep the graph soundly wired, and no
/// older vertex leads to them yet.
pub proof fn lemma_wired_pair(g: Seq<Seq<int>>, p: Seq<Seq<usize>>)
    requires
        wired(g, p),
        g.len() % 2 == 0,
        g.len() + 2 <= usize::MAX,
    ensures
        wired(with_pair(g), with_pair_parents(p)),
        forall|v: int, k: int|
            0 <= v < g.len() && 0 <= k < with_pair(g)[v].len() ==> (#[trigger] with_pair(g)[v][k])
                < g.len(),
{
    reveal(wired);
    let g2 = with_pair(g);
    let p2 = with_pair_parents(p);
    let len = g.len() as int;
    assert forall|v: int, k: int| 0 <= v < g2.len() && 0 <= k < g2[v].len() implies v
        < #[trigger] g2[v][k] < g2.len() && g2[v][k] >= 2 && p2[g2[v][k]].contains(v as usize) by {
        if v < len {
            assert(g2[v] == g[v]);
            assert(v < g[v][k] < len);
            assert(p2[g[v][k]] == p[g[v][k]]);
        } else if v == len {
            assert(p2[len + 1][0] == len as usize);
        }
    }
    assert forall|v: int, j: int, k: int|
        0 <= v < g2.len() && 0 <= j <= k < g2[v].len() implies #[trigger] g2[v][j]
        <= #[trigger] g2[v][k] by {
        if v < len {
            assert(g2[v] == g[v]);
            assert(g[v][j] <= g[v][k]);
        }
    }
    assert forall|t: int, j: int| 0 <= t < p2.len() && 0 <= j < p2[t].len() implies (
    #[trigger] p2[t][j]) < t && (p2[t][j] >= 2 && p2[t][j] % 2 == 0 ==> t == p2[t][j] + 1) by {
        if t < len {
            assert(p2[t] == p[t]);
            assert(p[t][j] < t);
        }
    }
    assert forall|q: int| 2 <= q < g2.len() && q % 2 == 0 implies #[trigger] g2[q] == (if q + 1
        < g2.len() {
        seq![q + 1]
    } else {
        Seq::empty()
    }) by {
        if q < len {
            assert(g2[q] == g[q]);
        }
    }
}

/// One more edge into the entry side of the newest literal keeps the graph
/// soundly wired.
pub proof fn lemma_wired_edge(g: Seq<Seq<int>>, p: Seq<Seq<usize>>, u: int)
    requires
        wired(g, p),
        g.len() >= 4,
        g.len() <= usize::MAX,
        g.len() % 2 == 0,
        0 <= u < g.len() - 2,
        u == 0 || u % 2 == 1,
        u != 1,
        forall|k: int| 0 <= k < g[u].len() ==> #[trigger] g[u][k] <= g.len() - 2,
    ensures
        wired(
            g.update(u, g[u].push(g.len() - 2)),
            p.update(g.len() - 2, p[g.len() - 2].push(u as usize)),
        ),
{
    reveal(wired);
    let t = g.len() - 2;
    let g2 = g.update(u, g[u].push(t));
    let p2 = p.update(t, p[t].push(u as usize));
    assert forall|v: int, k: int| 0 <= v < g2.len() && 0 <= k < g2[v].len() implies v
        < #[trigger] g2[v][k] < g2.len() && g2[v][k] >= 2 && p2[g2[v][k]].contains(v as usize) by {
        if v == u && k == g[u].len() {
            assert(p2[t][p[t].len() as int] == u as usize);
        } else {
            assert(g2[v][k] == g[v][k]);
            assert(p[g[v][k]].contains(v as usize));
            let i = choose|i: int| 0 <= i < p[g[v][k]].len() && p[g[v][k]][i] == v as usize;
            assert(p2[g[v][k]][i] == v as usize);
        }
    }
    assert forall|v: int, j: int, k: int|
        0 <= v < g2.len() && 0 <= j <= k < g2[v].len() implies #[trigger] g2[v][j]
        <= #[trigger] g2[v][k] by {
        if v == u {
            if k < g[u].len() {
                assert(g2[v][j] == g[v][j] && g2[v][k] == g[v][k]);
                assert(g[v][j] <= g[v][k]);
            } else if j < g[u].len() {
                assert(g2[v][j] == g[u][j]);
            }
        } else {
            assert(g[v][j] <= g[v][k]);
        }
    }
    assert forall|s: int, j: int| 0 <= s < p2.len() && 0 <= j < p2[s].len() implies (
    #[trigger] p2[s][j]) < s && (p2[s][j] >= 2 && p2[s][j] % 2 == 0 ==> s == p2[s][j] + 1) by {
        if s == t && j == p[t].len() {
        } else {
            assert(p2[s][j] == p[s][j]);
            assert(p[s][j] < s);
        }
    }
    assert forall|q: int| 2 <= q < g2.len() && q % 2 == 0 implies #[trigger] g2[q] == (if q + 1
        < g2.len() {
        seq![q + 1]
    } else {
        Seq::empty()
    }) by {
        assert(g2[q] == g[q]);
    }
}

/// How often `v` occurs in `sinks` from place `from` on.
pub open spec fn count_from(sinks: Seq<usize>, from: int, v: int) -> int
    decreases sinks.len() - from,
{
    if from < 0 || from >= sinks.len() {
        0
    } else {
        count_from(sinks, from + 1, v) + if sinks[from] == v {
            1int
        } else {
            0int
        }
    }
}

/// One more name at the end counts once more for the vertex named.
pub proof fn lemma_count_push(sinks: Seq<usize>, from: int, u: usize, v: int)
    requires
        0 <= from <= sinks.len(),
    ensures
        count_from(sinks.push(u), from, v) == count_from(sinks, from, v) + if u == v {
            1int
        } else {
            0int
        },
        count_from(sinks, from, v) >= 0,
    decreases sinks.len() - from,
{
    if from < sinks.len() {
        lemma_count_push(sinks, from + 1, u, v);
        assert(sinks.push(u)[from] == sinks[from]);
    } else {
        assert(count_from(sinks.push(u), from + 1, v) == 0);
    }
}

/// The edges of a vertex without the last `count`.
pub open spec fn shorn_row(row: Seq<int>, count: int) -> Seq<int> {
    row.take(row.len() - count)
}

/// The graph without the edges to the sink that `sinks` accounts for from
/// place `from` on.
pub open spec fn shorn(g: Seq<Seq<int>>, sinks: Seq<usize>, from: int) -> Seq<Seq<int>> {
    Seq::new(g.len(), |v: int| shorn_row(g[v], count_from(sinks, from, v)))
}

/// Vertex `v` ends with as many edges to the sink as `sinks` names it from
/// place `from` on.
pub open spec fn accounted(g: Seq<Seq<int>>, sinks: Seq<usize>, from: int, v: int) -> bool {
    &&& 0 <= count_from(sinks, from, v) <= g[v].len()
    &&& forall|k: int|
        g[v].len() - count_from(sinks, from, v) <= k < g[v].len() ==> #[trigger] g[v][k] == 1
}

/// The graph is soundly wired but for edges to the sink: every vertex ends
/// with as many of them as `sinks` names it from place `from` on, and only
/// exit sides are named.
#[verifier::opaque]
pub open spec fn sunk(g: Seq<Seq<int>>, p: Seq<Seq<usize>>, sinks: Seq<usize>, from: int) -> bool {
    &&& 0 <= from <= sinks.len()
    &&& forall|j: int|
        from <= j < sinks.len() ==> 3 <= #[trigger] sinks[j] < g.len() && sinks[j] % 2 == 1
    &&& forall|v: int| 0 <= v < g.len() ==> #[trigger] accounted(g, sinks, from, v)
    &&& wired(shorn(g, sinks, from), p)
}

/// In a graph with edges to the sink no vertex is named more often than it
/// has edges.
pub proof fn lemma_sunk_count(
    g: Seq<Seq<int>>,
    p: Seq<Seq<usize>>,
    sinks: Seq<usize>,
    from: int,
    v: int,
)
    requires
        sunk(g, p, sinks, from),
        0 <= v < g.len(),
    ensures
        0 <= count_from(sinks, from, v) <= g[v].len(),
{
    reveal(sunk);
    assert(accounted(g, sinks, from, v));
}

/// A vertex that is not named counts 0.
pub proof fn lemma_count_zero(sinks: Seq<usize>, from: int, v: int)
    requires
        0 <= from <= sinks.len(),
        forall|j: int| from <= j < sinks.len() ==> #[trigger] sinks[j] != v,
    ensures
        count_from(sinks, from, v) == 0,
    decreases sinks.len() - from,
{
    if from < sinks.len() {
        lemma_count_zero(sinks, from + 1, v);
    }
}

/// A soundly wired graph has no edges to the sink.
pub proof fn lemma_sunk_start(g: Seq<Seq<int>>, p: Seq<Seq<usize>>)
    requires
        wired(g, p),
    ensures
        sunk(g, p, Seq::empty(), 0),
{
    reveal(sunk);
            assert forall|v: int| 0 <= v < g.len() implies #[trigger] shorn(g, Seq::empty(), 0)[v]
            == g[v] by {
            assert(g[v].take(g[v].len() as int) =~= g[v]);
        }
    
    assert(shorn(g, Seq::empty(), 0) =~= g);
}

/// Once every edge to the sink is gone the graph is soundly wired.
pub proof fn lemma_sunk_done(g: Seq<Seq<int>>, p: Seq<Seq<usize>>, sinks: Seq<usize>)
    requires
        sunk(g, p, sinks, sinks.len() as int),
    ensures
        wired(g, p),
{
    reveal(sunk);
            assert forall|v: int| 0 <= v < g.len() implies #[trigger] shorn(
            g,
            sinks,
            sinks.len() as int,
        )[v] == g[v] by {
            assert(g[v].take(g[v].len() as int) =~= g[v]);
        }
    
    assert(shorn(g, sinks, sinks.len() as int) =~= g);
}

/// An edge from an exit side to the sink, accounted for.
pub proof fn lemma_sunk_add(g: Seq<Seq<int>>, p: Seq<Seq<usize>>, sinks: Seq<usize>, u: usize)
    requires
        sunk(g, p, sinks, 0),
        3 <= u < g.len(),
        u % 2 == 1,
    ensures
        sunk(g.update(u as int, g[u as int].push(1)), p, sinks.push(u), 0),
{
    reveal(sunk);
    let g2 = g.update(u as int, g[u as int].push(1));
    let sinks2 = sinks.push(u);
    assert forall|j: int| 0 <= j < sinks2.len() implies 3 <= #[trigger] sinks2[j] < g2.len()
        && sinks2[j] % 2 == 1 by {
        if j < sinks.len() {
            assert(sinks2[j] == sinks[j]);
        }
    }
    assert forall|v: int| 0 <= v < g2.len() implies #[trigger] accounted(g2, sinks2, 0, v) by {
        lemma_count_push(sinks, 0, u, v);
        assert(accounted(g, sinks, 0, v));
        assert forall|k: int|
            g2[v].len() - count_from(sinks2, 0, v) <= k < g2[v].len() implies #[trigger] g2[v][k]
            == 1 by {
            if v == u {
                if k < g[v].len() {
                    assert(g2[v][k] == g[v][k]);
                    assert(g[v][k] == 1);
                }
            } else {
                assert(g[v][k] == 1);
            }
        }
    }
        assert forall|v: int| 0 <= v < g.len() implies #[trigger] shorn(g2, sinks2, 0)[v] == shorn(
            g,
            sinks,
            0,
        )[v] by {
            lemma_count_push(sinks, 0, u, v);
            lemma_sunk_count(g, p, sinks, 0, v);
            assert(shorn_row(g2[v], count_from(sinks2, 0, v)) =~= shorn_row(
                g[v],
                count_from(sinks, 0, v),
            ));
        }
    
    assert(shorn(g2, sinks2, 0) =~= shorn(g, sinks, 0));
}

/// The vertex that `sinks` names at `from` ends with an edge to the sink;
/// without it the account goes on at the next place.
pub proof fn lemma_sunk_pop(g: Seq<Seq<int>>, p: Seq<Seq<usize>>, sinks: Seq<usize>, from: int)
    requires
        sunk(g, p, sinks, from),
        from < sinks.len(),
    ensures
        3 <= sinks[from] < g.len(),
        g[sinks[from] as int].len() >= 1,
        g[sinks[from] as int].last() == 1,
        sunk(
            g.update(sinks[from] as int, g[sinks[from] as int].drop_last()),
            p,
            sinks,
            from + 1,
        ),
{
    reveal(sunk);
    let u = sinks[from] as int;
    let g2 = g.update(u, g[u].drop_last());
    assert(count_from(sinks, from, u) == count_from(sinks, from + 1, u) + 1);
    assert(accounted(g, sinks, from, u));
    lemma_count_nonnegative(sinks, from + 1, u);
    assert(g[u][g[u].len() - 1] == 1);
    assert(count_from(sinks, from + 1, u) >= 0) by {
        lemma_count_nonnegative(sinks, from + 1, u);
    }
    assert forall|v: int| 0 <= v < g2.len() implies #[trigger] accounted(
        g2,
        sinks,
        from + 1,
        v,
    ) by {
        lemma_count_nonnegative(sinks, from + 1, v);
        assert(accounted(g, sinks, from, v));
        assert forall|k: int|
            g2[v].len() - count_from(sinks, from + 1, v) <= k < g2[v].len() implies #[trigger] g2[v][k]
            == 1 by {
            if v == u {
                assert(g2[v][k] == g[v][k]);
                assert(g[v][k] == 1);
            } else {
                assert(count_from(sinks, from, v) == count_from(sinks, from + 1, v));
                assert(g[v][k] == 1);
            }
        }
    }
            assert forall|v: int| 0 <= v < g.len() implies #[trigger] shorn(g2, sinks, from + 1)[v]
            == shorn(g, sinks, from)[v] by {
            lemma_sunk_count(g, p, sinks, from, v);
            lemma_count_nonnegative(sinks, from + 1, v);
            if v != u {
                assert(count_from(sinks, from, v) == count_from(sinks, from + 1, v));
            }
            assert(shorn_row(g2[v], count_from(sinks, from + 1, v)) =~= shorn_row(
                g[v],
                count_from(sinks, from, v),
            ));
        }
    
    assert(shorn(g2, sinks, from + 1) =~= shorn(g, sinks, from));
}

/// No count is negative.
pub proof fn lemma_count_nonnegative(sinks: Seq<usize>, from: int, v: int)
    ensures
        count_from(sinks, from, v) >= 0,
    decreases sinks.len() - from,
{
    if 0 <= from < sinks.len() {
        lemma_count_nonnegative(sinks, from + 1, v);
    }
}

/// What follows of a graph with edges to the sink for its use as a flow
/// network: every edge leads to a vertex, and every entry side has its one
/// edge.
pub proof fn lemma_sunk_facts(g: Seq<Seq<int>>, p: Seq<Seq<usize>>, sinks: Seq<usize>)
    requires
        sunk(g, p, sinks, 0),
        g.len() % 2 == 0,
    ensures
        g.len() >= 2,
        p.len() == g.len(),
        forall|v: int, k: int|
            0 <= v < g.len() && 0 <= k < g[v].len() ==> 1 <= #[trigger] g[v][k] < g.len(),
        forall|q: int| 2 <= q < g.len() && q % 2 == 0 ==> #[trigger] g[q] == seq![q + 1],
        forall|j: int| 0 <= j < sinks.len() ==> 3 <= #[trigger] sinks[j] < g.len(),
{
    reveal(sunk);
    reveal(wired);
    let base = shorn(g, sinks, 0);
    assert forall|v: int, k: int| 0 <= v < g.len() && 0 <= k < g[v].len() implies 1
        <= #[trigger] g[v][k] < g.len() by {
        assert(accounted(g, sinks, 0, v));
        if k < g[v].len() - count_from(sinks, 0, v) {
            assert(base[v][k] == g[v][k]);
            assert(v < base[v][k] < base.len());
        }
    }
    assert forall|q: int| 2 <= q < g.len() && q % 2 == 0 implies #[trigger] g[q] == seq![
        q + 1,
    ] by {
        lemma_count_zero(sinks, 0, q);
        assert(accounted(g, sinks, 0, q));
        assert(base[q] == seq![q + 1]);
        assert(g[q].take(g[q].len() as int) =~= g[q]);
    }
}

/// Every row of `after` is a head of the matching row of `before`.
pub open spec fn trimmed(before: Seq<Seq<int>>, after: Seq<Seq<int>>) -> bool {
    &&& after.len() == before.len()
    &&& forall|v: int|
        0 <= v < before.len() ==> (#[trigger] after[v]).len() <= before[v].len() && after[v]
            == before[v].take(after[v].len() as int)
}

/// Taking the last vertex out of a soundly wired graph leaves it soundly
/// wired, once no edge leads to that vertex any more and the entry sides
/// that stay have kept their edge.
pub proof fn lemma_wired_shrink(g: Seq<Seq<int>>, p: Seq<Seq<usize>>, g2: Seq<Seq<int>>)
    requires
        wired(g, p),
        g.len() >= 3,
        trimmed(g, g2),
        forall|v: int, k: int|
            0 <= v < g.len() - 1 && 0 <= k < g2[v].len() ==> #[trigger] g2[v][k] < g.len() - 1,
        forall|q: int| 2 <= q && q % 2 == 0 && q + 1 < g.len() - 1 ==> #[trigger] g2[q] == g[q],
    ensures
        wired(g2.drop_last(), p.drop_last()),
{
    reveal(wired);
    let t = g.len() - 1;
    let g3 = g2.drop_last();
    let p3 = p.drop_last();
    assert forall|v: int, k: int| 0 <= v < g3.len() && 0 <= k < g3[v].len() implies v
        < #[trigger] g3[v][k] < g3.len() && g3[v][k] >= 2 && p3[g3[v][k]].contains(v as usize) by {
        assert(g3[v] == g2[v]);
        assert(g2[v][k] < t);
        assert(g2[v] == g[v].take(g2[v].len() as int));
        assert(g2[v][k] == g[v][k]);
        assert(p[g[v][k]].contains(v as usize));
        assert(p3[g[v][k]] == p[g[v][k]]);
    }
    assert forall|v: int, j: int, k: int|
        0 <= v < g3.len() && 0 <= j <= k < g3[v].len() implies #[trigger] g3[v][j]
        <= #[trigger] g3[v][k] by {
        assert(g3[v] == g2[v]);
        assert(g2[v] == g[v].take(g2[v].len() as int));
        assert(g2[v][j] == g[v][j] && g2[v][k] == g[v][k]);
        assert(g[v][j] <= g[v][k]);
    }
    assert forall|s: int, j: int| 0 <= s < p3.len() && 0 <= j < p3[s].len() implies (
    #[trigger] p3[s][j]) < s && (p3[s][j] >= 2 && p3[s][j] % 2 == 0 ==> s == p3[s][j] + 1) by {
        assert(p3[s] == p[s]);
        assert(p[s][j] < s);
    }
    assert forall|q: int| 2 <= q < g3.len() && q % 2 == 0 implies #[trigger] g3[q] == (if q + 1
        < g3.len() {
        seq![q + 1]
    } else {
        Seq::empty()
    }) by {
        assert(g3[q] == g2[q]);
        if q + 1 < t {
            assert(g2[q] == g[q]);
        } else {
            assert(g[q] == seq![q + 1]);
            assert(g2[q] == g[q].take(g2[q].len() as int));
            if g2[q].len() > 0 {
                assert(g2[q][0] == g[q][0]);
                assert(g2[q][0] < t);
            }
            assert(g2[q] =~= Seq::<int>::empty());
        }
    }
}

/// In a soundly wired graph, a row whose last edge leads below `bound` leads
/// below `bound` throughout.
pub proof fn lemma_row_below(g: Seq<Seq<int>>, p: Seq<Seq<usize>>, row: Seq<int>, v: int, bound: int)
    requires
        wired(g, p),
        0 <= v < g.len(),
        row.len() <= g[v].len(),
        row == g[v].take(row.len() as int),
        row.len() > 0 ==> row.last() < bound,
    ensures
        forall|k: int| 0 <= k < row.len() ==> #[trigger] row[k] < bound,
{
    reveal(wired);
    assert forall|k: int| 0 <= k < row.len() implies #[trigger] row[k] < bound by {
        assert(row[k] == g[v][k]);
        assert(row[row.len() - 1] == g[v][row.len() - 1]);
        assert(g[v][k] <= g[v][row.len() - 1]);
    }
}

/// Who leads to the last vertex is among its parents, and an entry side is
/// parent of its exit side only.
pub proof fn lemma_wired_parents(g: Seq<Seq<int>>, p: Seq<Seq<usize>>, v: int, k: int)
    requires
        wired(g, p),
        0 <= v < g.len(),
        0 <= k < g[v].len(),
    ensures
        v < g[v][k] < g.len(),
        p[g[v][k]].contains(v as usize),
{
    reveal(wired);
}

/// A parent comes before its child, and an entry side is parent of its exit
/// side only.
pub proof fn lemma_wired_entry_parent(g: Seq<Seq<int>>, p: Seq<Seq<usize>>, t: int, j: int)
    requires
        wired(g, p),
        0 <= t < p.len(),
        0 <= j < p[t].len(),
    ensures
        p[t][j] < t,
        p[t][j] >= 2 && p[t][j] % 2 == 0 ==> t == p[t][j] + 1,
{
    reveal(wired);
}

} // verus!
