//! What the solver reads of an input edge.
use vstd::prelude::*;

verus! {

/// An edge that knows its target.
pub trait Edge {
    /// The vertex the edge leads to.
    spec fn target(&self) -> usize;

    /// The vertex the edge leads to.
    fn to(&self) -> (vertex: usize)
        ensures
            vertex == self.target(),
    ;
}

/// An edge that carries a weight.
pub trait WeightedEdge<T>: Edge {
    /// The weight carried.
    spec fn load(&self) -> T;

    /// The weight carried.
    fn weight(&self) -> (carried: &T)
        ensures
            *carried == self.load(),
    ;

    /// The weight carried, to be changed.
    fn weight_mut(&mut self) -> (carried: &mut T)
        ensures
            *carried == old(self).load(),
            final(self).load() == *final(carried),
            final(self).target() == old(self).target(),
    ;
}

impl Edge for usize {
    open spec fn target(&self) -> usize {
        *self
    }

    fn to(&self) -> (vertex: usize) {
        *self
    }
}

impl Edge for isize {
    open spec fn target(&self) -> usize {
        *self as usize
    }

    fn to(&self) -> (vertex: usize) {
        #[verifier::truncate]
        (*self as usize)
    }
}

impl Edge for u8 {
    open spec fn target(&self) -> usize {
        *self as usize
    }

    fn to(&self) -> (vertex: usize) {
        #[verifier::truncate]
        (*self as usize)
    }
}

impl Edge for i8 {
    open spec fn target(&self) -> usize {
        *self as usize
    }

    fn to(&self) -> (vertex: usize) {
        #[verifier::truncate]
        (*self as usize)
    }
}

impl Edge for u16 {
    open spec fn target(&self) -> usize {
        *self as usize
    }

    fn to(&self) -> (vertex: usize) {
        #[verifier::truncate]
        (*self as usize)
    }
}

impl Edge for i16 {
    open spec fn target(&self) -> usize {
        *self as usize
    }

    fn to(&self) -> (vertex: usize) {
        #[verifier::truncate]
        (*self as usize)
    }
}

impl Edge for u32 {
    open spec fn target(&self) -> usize {
        *self as usize
    }

    fn to(&self) -> (vertex: usize) {
        #[verifier::truncate]
        (*self as usize)
    }
}

impl Edge for i32 {
    open spec fn target(&self) -> usize {
        *self as usize
    }

    fn to(&self) -> (vertex: usize) {
        #[verifier::truncate]
        (*self as usize)
    }
}

impl Edge for u64 {
    open spec fn target(&self) -> usize {
        *self as usize
    }

    fn to(&self) -> (vertex: usize) {
        #[verifier::truncate]
        (*self as usize)
    }
}

impl Edge for i64 {
    open spec fn target(&self) -> usize {
        *self as usize
    }

    fn to(&self) -> (vertex: usize) {
        #[verifier::truncate]
        (*self as usize)
    }
}

impl Edge for u128 {
    open spec fn target(&self) -> usize {
        *self as usize
    }

    fn to(&self) -> (vertex: usize) {
        #[verifier::truncate]
        (*self as usize)
    }
}

impl Edge for i128 {
    open spec fn target(&self) -> usize {
        *self as usize
    }

    fn to(&self) -> (vertex: usize) {
        #[verifier::truncate]
        (*self as usize)
    }
}

impl<E: Edge, W> Edge for (E, W) {
    open spec fn target(&self) -> usize {
        self.0.target()
    }

    fn to(&self) -> (vertex: usize) {
        self.0.to()
    }
}

impl<E: Edge, W> WeightedEdge<W> for (E, W) {
    open spec fn load(&self) -> W {
        self.1
    }

    fn weight(&self) -> (carried: &W) {
        &self.1
    }

    fn weight_mut(&mut self) -> (carried: &mut W) {
        &mut self.1
    }
}

/// The targets of a list of edges.
pub open spec fn targets<E: Edge>(edges: Seq<E>) -> Seq<int> {
    Seq::new(edges.len(), |k: int| edges[k].target() as int)
}

/// The adjacency lists are those of a tree in which `depth` tells how far
/// every vertex is from the root: every edge leads one step deeper or one
/// step back, and a vertex that an edge leads down to has no edge back but
/// to where that edge came from.
pub open spec fn hangs<E: Edge>(tree: Seq<Vec<E>>, depth: Seq<nat>) -> bool {
    &&& depth.len() == tree.len()
    &&& forall|v: int, k: int|
        0 <= v < tree.len() && 0 <= k < tree[v].len() ==> (#[trigger] tree[v][k]).target()
            < tree.len() && (depth[tree[v][k].target() as int] == depth[v] + 1
            || depth[tree[v][k].target() as int] + 1 == depth[v])
    &&& forall|v: int, k: int, u: int, j: int|
        0 <= v < tree.len() && 0 <= k < tree[v].len() && u == (#[trigger] tree[v][k]).target()
            && depth[u] > depth[v] && 0 <= j < tree[u].len() && depth[(
        #[trigger] tree[u][j]).target() as int] < depth[u] ==> tree[u][j].target() == v
}

/// Every edge out of `v` leads deeper.
pub open spec fn downward<E: Edge>(tree: Seq<Vec<E>>, depth: Seq<nat>, v: int) -> bool {
    forall|k: int|
        0 <= k < tree[v].len() ==> depth[(#[trigger] tree[v][k]).target() as int] > depth[v]
}

/// Whether a vertex lies deeper than `v`.
pub open spec fn below(depth: Seq<nat>, v: int) -> spec_fn(int) -> bool {
    |u: int| depth[u] > depth[v]
}

/// The targets of `list` that lie deeper than `v`, in order.
pub open spec fn deeper<E: Edge>(list: Seq<E>, depth: Seq<nat>, v: int) -> Seq<int> {
    targets(list).filter(below(depth, v))
}

/// From `v` on down, every edge leads deeper: `v` is the root of what hangs
/// below it.
pub open spec fn rooted_below<E: Edge>(
    tree: Seq<Vec<E>>,
    depth: Seq<nat>,
    height: nat,
    v: int,
) -> bool
    decreases height - depth[v],
{
    &&& downward(tree, depth, v)
    &&& forall|k: int|
        0 <= k < tree[v].len() && depth[v] < depth[(#[trigger] tree[v][k]).target() as int]
            <= height ==> rooted_below(tree, depth, height, tree[v][k].target() as int)
}

/// Every list of `after` leads where the matching list of `before` led, or
/// only to the deeper of those vertices.
pub open spec fn pruned<E: Edge>(before: Seq<Vec<E>>, after: Seq<Vec<E>>, depth: Seq<nat>) -> bool {
    &&& after.len() == before.len()
    &&& forall|w: int|
        0 <= w < before.len() ==> targets((#[trigger] after[w])@) == targets(before[w]@)
            || targets(after[w]@) == deeper(before[w]@, depth, w)
}

/// Some edge of the list leads to `u`.
pub open spec fn leads<E: Edge>(list: Seq<E>, u: int) -> bool {
    exists|j: int| 0 <= j < list.len() && (#[trigger] list[j]).target() == u
}

/// A sequence whose items all pass a filter passes whole.
pub proof fn lemma_filter_all(items: Seq<int>, passes: spec_fn(int) -> bool)
    requires
        forall|k: int| 0 <= k < items.len() ==> passes(#[trigger] items[k]),
    ensures
        items.filter(passes) == items,
    decreases items.len(),
{
    reveal(Seq::filter);
    if items.len() > 0 {
        lemma_filter_all(items.drop_last(), passes);
        assert(items.drop_last().push(items.last()) =~= items);
    }
}

/// A list that leads only deeper is its own deeper part.
pub proof fn lemma_downward_whole<E: Edge>(tree: Seq<Vec<E>>, depth: Seq<nat>, w: int)
    requires
        downward(tree, depth, w),
    ensures
        deeper(tree[w]@, depth, w) == targets(tree[w]@),
{
    let items = targets(tree[w]@);
    assert forall|k: int| 0 <= k < items.len() implies below(depth, w)(#[trigger] items[k]) by {
        assert(items[k] == tree[w][k].target());
    }
    lemma_filter_all(items, below(depth, w));
}

/// The deeper part of a list leads only deeper, and only where the list led.
pub proof fn lemma_deeper_part<E: Edge>(list: Seq<E>, depth: Seq<nat>, w: int, k: int)
    requires
        0 <= k < deeper(list, depth, w).len(),
    ensures
        depth[deeper(list, depth, w)[k]] > depth[w],
        leads(list, deeper(list, depth, w)[k]),
{
    let items = targets(list);
    let kept = items.filter(below(depth, w));
    items.lemma_filter_pred(below(depth, w), k);
    assert(kept.contains(kept[k]));
    items.lemma_filter_contains_rev(below(depth, w), kept[k]);
    let j = choose|j: int| 0 <= j < items.len() && items[j] == kept[k];
    assert(list[j].target() == kept[k]);
}

/// Every edge of a pruned tree was an edge before, and a list that led only
/// deeper is as it was.
pub proof fn lemma_pruned_edges<E: Edge>(
    before: Seq<Vec<E>>,
    after: Seq<Vec<E>>,
    depth: Seq<nat>,
    w: int,
)
    requires
        pruned(before, after, depth),
        0 <= w < before.len(),
    ensures
        forall|k: int|
            0 <= k < after[w].len() ==> leads(before[w]@, (#[trigger] after[w][k]).target() as int),
        downward(before, depth, w) ==> targets(after[w]@) == targets(before[w]@),
        targets(after[w]@) == deeper(before[w]@, depth, w) ==> downward(after, depth, w),
{
    assert forall|k: int| 0 <= k < after[w].len() implies leads(
        before[w]@,
        (#[trigger] after[w][k]).target() as int,
    ) by {
        assert(targets(after[w]@)[k] == after[w][k].target());
        if targets(after[w]@) == targets(before[w]@) {
            assert(targets(after[w]@).len() == after[w].len());
            assert(targets(before[w]@).len() == before[w].len());
            assert(targets(before[w]@)[k] == before[w][k].target());
        } else {
            lemma_deeper_part(before[w]@, depth, w, k);
        }
    }
    if downward(before, depth, w) {
        lemma_downward_whole(before, depth, w);
    }
    if targets(after[w]@) == deeper(before[w]@, depth, w) {
        assert forall|k: int| 0 <= k < after[w].len() implies depth[(
        #[trigger] after[w][k]).target() as int] > depth[w] by {
            assert(targets(after[w]@)[k] == after[w][k].target());
            lemma_deeper_part(before[w]@, depth, w, k);
        }
    }
}

/// A pruned tree still hangs as the tree did.
pub proof fn lemma_pruned_hangs<E: Edge>(before: Seq<Vec<E>>, after: Seq<Vec<E>>, depth: Seq<nat>)
    requires
        hangs(before, depth),
        pruned(before, after, depth),
    ensures
        hangs(after, depth),
{
    assert forall|v: int, k: int| 0 <= v < after.len() && 0 <= k < after[v].len() implies (
    #[trigger] after[v][k]).target() < after.len() && (depth[after[v][k].target() as int]
        == depth[v] + 1 || depth[after[v][k].target() as int] + 1 == depth[v]) by {
        lemma_pruned_edges(before, after, depth, v);
    }
    assert forall|v: int, k: int, u: int, j: int|
        0 <= v < after.len() && 0 <= k < after[v].len() && u == (#[trigger] after[v][k]).target()
            && depth[u] > depth[v] && 0 <= j < after[u].len() && depth[(
        #[trigger] after[u][j]).target() as int] < depth[u] implies after[u][j].target() == v by {
        lemma_pruned_edges(before, after, depth, v);
        lemma_pruned_edges(before, after, depth, u);
        assert(leads(before[v]@, after[v][k].target() as int));
        assert(leads(before[u]@, after[u][j].target() as int));
        let k0 = choose|k0: int|
            0 <= k0 < before[v].len() && (#[trigger] before[v]@[k0]).target() == after[v][k].target();
        let j0 = choose|j0: int|
            0 <= j0 < before[u].len() && (#[trigger] before[u]@[j0]).target() == after[u][j].target();
        assert(before[u][j0].target() == v);
    }
}

/// Pruning twice is pruning.
pub proof fn lemma_pruned_twice<E: Edge>(
    first: Seq<Vec<E>>,
    second: Seq<Vec<E>>,
    third: Seq<Vec<E>>,
    depth: Seq<nat>,
)
    requires
        pruned(first, second, depth),
        pruned(second, third, depth),
    ensures
        pruned(first, third, depth),
{
    assert forall|w: int| 0 <= w < first.len() implies targets((#[trigger] third[w])@) == targets(
        first[w]@,
    ) || targets(third[w]@) == deeper(first[w]@, depth, w) by {
        assert(targets(second[w]@) == targets(first[w]@) || targets(second[w]@) == deeper(
            first[w]@,
            depth,
            w,
        ));
        assert(deeper(second[w]@, depth, w) == targets(second[w]@).filter(below(depth, w)));
        if targets(second[w]@) == deeper(first[w]@, depth, w) {
            lemma_pruned_edges(first, second, depth, w);
            lemma_pruned_edges(second, third, depth, w);
        }
    }
}

/// What is rooted stays rooted when the tree is pruned.
pub proof fn lemma_rooted_stays<E: Edge>(
    before: Seq<Vec<E>>,
    after: Seq<Vec<E>>,
    depth: Seq<nat>,
    height: nat,
    v: int,
)
    requires
        hangs(before, depth),
        pruned(before, after, depth),
        0 <= v < before.len(),
        rooted_below(before, depth, height, v),
        forall|x: int| 0 <= x < depth.len() ==> depth[x] <= height,
    ensures
        rooted_below(after, depth, height, v),
    decreases height - depth[v],
{
    lemma_pruned_edges(before, after, depth, v);
    assert(targets(after[v]@) == targets(before[v]@));
    assert forall|k: int| 0 <= k < after[v].len() implies depth[(
    #[trigger] after[v][k]).target() as int] > depth[v] && rooted_below(
        after,
        depth,
        height,
        after[v][k].target() as int,
    ) by {
        assert(targets(after[v]@).len() == after[v].len());
        assert(targets(before[v]@).len() == before[v].len());
        assert(targets(after[v]@)[k] == after[v][k].target());
        assert(targets(before[v]@)[k] == before[v][k].target());
        let u = before[v][k].target() as int;
        assert(depth[u] > depth[v]);
        assert(rooted_below(before, depth, height, u));
        lemma_rooted_stays(before, after, depth, height, u);
    }
}

/// Whether a vertex is another one than `p`.
pub open spec fn other_than(p: int) -> spec_fn(int) -> bool {
    |u: int| u != p
}

/// Two filters that agree on every item of a sequence keep the same of it.
pub proof fn lemma_filter_same(
    items: Seq<int>,
    one: spec_fn(int) -> bool,
    other: spec_fn(int) -> bool,
)
    requires
        forall|k: int| 0 <= k < items.len() ==> one(#[trigger] items[k]) == other(items[k]),
    ensures
        items.filter(one) == items.filter(other),
    decreases items.len(),
{
    reveal(Seq::filter);
    if items.len() > 0 {
        lemma_filter_same(items.drop_last(), one, other);
    }
}

/// Takes out of the list of `v` every edge that leads to `p`; the others
/// keep their order.
fn forget<E: Edge>(tree: &mut Vec<Vec<E>>, v: usize, p: usize)
    requires
        v < old(tree).len(),
    ensures
        final(tree).len() == old(tree).len(),
        forall|w: int| 0 <= w < old(tree).len() && w != v ==> final(tree)[w] == old(tree)[w],
        targets(final(tree)[v as int]@) == targets(old(tree)[v as int]@).filter(
            other_than(p as int),
        ),
{
    let ghost before = tree[v as int]@;
    let ghost mut seen: int = 0;
    let mut at: usize = 0;
    proof {
        reveal(Seq::filter);
        assert(targets(before.take(0)) =~= Seq::<int>::empty());
        assert(tree[v as int]@.skip(0) =~= before.skip(0));
    }
    while at < tree[v].len()
        invariant
            tree.len() == old(tree).len(),
            v < tree.len(),
            forall|w: int| 0 <= w < old(tree).len() && w != v ==> tree[w] == old(tree)[w],
            0 <= seen <= before.len(),
            at <= tree[v as int].len(),
            tree[v as int].len() - at == before.len() - seen,
            tree[v as int]@.skip(at as int) == before.skip(seen),
            targets(tree[v as int]@.take(at as int)) == targets(before.take(seen)).filter(
                other_than(p as int),
            ),
        decreases tree[v as int].len() - at,
    {
        let ghost row = tree[v as int]@;
        proof {
            reveal(Seq::filter);
            assert(row[at as int] == row.skip(at as int)[0]);
            assert(before[seen] == before.skip(seen)[0]);
            assert(targets(before.take(seen + 1)).drop_last() =~= targets(before.take(seen)));
            assert(targets(before.take(seen + 1)).last() == before[seen].target());
        }
        if tree[v][at].to() == p {
            tree[v].remove(at);
            proof {
                assert(tree[v as int]@.take(at as int) =~= row.take(at as int));
                assert(tree[v as int]@.skip(at as int) =~= row.skip(at as int).skip(1));
                assert(before.skip(seen + 1) =~= before.skip(seen).skip(1));
            }
        } else {
            proof {
                assert(tree[v as int]@.skip(at + 1) =~= row.skip(at as int).skip(1));
                assert(before.skip(seen + 1) =~= before.skip(seen).skip(1));
                assert(targets(row.take(at + 1)) =~= targets(row.take(at as int)).push(
                    row[at as int].target() as int,
                ));
            }
            at += 1;
        }
        proof {
            seen = seen + 1;
        }
    }
    proof {
        assert(tree[v as int]@.take(at as int) =~= tree[v as int]@);
        assert(before.take(seen) =~= before);
    }
}

/// Roots what hangs below `v`, which was reached from `p`: the edge back to
/// `p` leaves the list of `v`, and so on down.
fn make_rooted_dfs<E: Edge>(
    tree: &mut Vec<Vec<E>>,
    v: usize,
    p: usize,
    Ghost(depth): Ghost<Seq<nat>>,
    Ghost(height): Ghost<nat>,
)
    requires
        hangs(old(tree)@, depth),
        v < old(tree).len(),
        forall|x: int| 0 <= x < depth.len() ==> depth[x] <= height,
        p < old(tree).len() ==> depth[p as int] < depth[v as int],
        forall|k: int|
            0 <= k < old(tree)[v as int].len() && depth[(
            #[trigger] old(tree)[v as int][k]).target() as int] < depth[v as int] ==> old(
                tree,
            )[v as int][k].target() == p,
    ensures
        pruned(old(tree)@, final(tree)@, depth),
        rooted_below(final(tree)@, depth, height, v as int),
    decreases height - depth[v as int],
{
    forget(tree, v, p);
    proof {
        let items = targets(old(tree)[v as int]@);
        assert forall|k: int| 0 <= k < items.len() implies other_than(p as int)(
            #[trigger] items[k],
        ) == below(depth, v as int)(items[k]) by {
            assert(items[k] == old(tree)[v as int][k].target());
        }
        lemma_filter_same(items, other_than(p as int), below(depth, v as int));
        assert(pruned(old(tree)@, tree@, depth));
        lemma_pruned_hangs(old(tree)@, tree@, depth);
        lemma_pruned_edges(old(tree)@, tree@, depth, v as int);
    }
    let mut next: usize = 0;
    while next < tree[v].len()
        invariant
            tree.len() == old(tree).len(),
            v < tree.len(),
            hangs(old(tree)@, depth),
            hangs(tree@, depth),
            pruned(old(tree)@, tree@, depth),
            downward(tree@, depth, v as int),
            forall|x: int| 0 <= x < depth.len() ==> depth[x] <= height,
            forall|k: int|
                0 <= k < next ==> rooted_below(
                    tree@,
                    depth,
                    height,
                    (#[trigger] tree[v as int][k]).target() as int,
                ),
        decreases tree[v as int].len() - next,
    {
        let child = tree[v][next].to();
        let ghost prior = tree@;
        make_rooted_dfs(tree, child, v, Ghost(depth), Ghost(height));
        proof {
            lemma_pruned_twice(old(tree)@, prior, tree@, depth);
            lemma_pruned_hangs(prior, tree@, depth);
            lemma_pruned_edges(prior, tree@, depth, v as int);
            assert(targets(tree[v as int]@).len() == tree[v as int].len());
            assert(targets(prior[v as int]@).len() == prior[v as int].len());
            assert forall|k: int| 0 <= k < tree[v as int].len() implies (
            #[trigger] tree[v as int][k]).target() == prior[v as int][k].target() by {
                assert(targets(tree[v as int]@)[k] == tree[v as int][k].target());
                assert(targets(prior[v as int]@)[k] == prior[v as int][k].target());
            }
            assert forall|k: int| 0 <= k < next + 1 implies rooted_below(
                tree@,
                depth,
                height,
                (#[trigger] tree[v as int][k]).target() as int,
            ) by {
                if k < next {
                    lemma_rooted_stays(
                        prior,
                        tree@,
                        depth,
                        height,
                        prior[v as int][k].target() as int,
                    );
                }
            }
        }
        next += 1;
    }
}

/// `depth` tells how far every vertex of the tree is from `root`.
pub open spec fn rooted_at<E: Edge>(tree: Seq<Vec<E>>, root: int, depth: Seq<nat>) -> bool {
    &&& hangs(tree, depth)
    &&& downward(tree, depth, root)
    &&& forall|x: int| 0 <= x < depth.len() ==> depth[x] <= tree.len()
}

/// How far every vertex of the tree is from `root`.
pub open spec fn levels<E: Edge>(tree: Seq<Vec<E>>, root: int) -> Seq<nat> {
    choose|depth: Seq<nat>| rooted_at(tree, root, depth)
}

/// Turns the adjacency lists of a tree, in which every edge stands in both
/// directions, into those of the tree rooted at `root`: from `root` on down
/// every list keeps the edges that lead away from the root, in their order,
/// and no other.
pub fn make_rooted<E: Edge>(tree: &mut Vec<Vec<E>>, root: usize)
    requires
        root < old(tree).len(),
        exists|depth: Seq<nat>| rooted_at(old(tree)@, root as int, depth),
    ensures
        pruned(old(tree)@, final(tree)@, levels(old(tree)@, root as int)),
        rooted_below(
            final(tree)@,
            levels(old(tree)@, root as int),
            old(tree).len() as nat,
            root as int,
        ),
{
    let ghost depth = levels(tree@, root as int);
    make_rooted_dfs(tree, root, usize::MAX, Ghost(depth), Ghost(tree.len() as nat));
}

} // verus!
