//! A measure of the trail that grows with every decision, propagation and
//! learned clause, and is bounded: the search cannot go on for ever.
use crate::cdcl::propagation::trail::{well_formed, Reason, Variable, VariableState};
use vstd::arithmetic::power::{lemma_pow_positive, pow};
use crate::counting::lemma_distinct_below;
use vstd::prelude::*;

verus! {

/// A valid trail over `n` variables has at most `n + 1` levels, each of at
/// most `n` entries.
pub proof fn lemma_trail_bounds(a: Seq<VariableState>, e: Seq<Seq<(Variable, Reason)>>)
    requires
        well_formed(a, e),
    ensures
        e.len() <= a.len() + 1,
        forall|k: int| 0 <= k < e.len() ==> (#[trigger] e[k]).len() <= a.len(),
{
    let n = a.len() as int;
    assert forall|k: int| 0 <= k < e.len() implies (#[trigger] e[k]).len() <= n by {
        let s = Seq::new(e[k].len(), |i: int| e[k][i].0 as int);
        assert(s.no_duplicates()) by {
            assert forall|i: int, j: int| 0 <= i < s.len() && 0 <= j < s.len() && i != j implies s[i]
                != s[j] by {
                if i < j {
                    assert(e[k][i].0 != e[k][j].0);
                } else {
                    assert(e[k][j].0 != e[k][i].0);
                }
            }
        }
        assert forall|i: int| 0 <= i < s.len() implies 0 <= #[trigger] s[i] < n by {
            assert(e[k][i].0 < n);
        }
        lemma_distinct_below(s, n);
    }
    let d = Seq::new((e.len() - 1) as nat, |j: int| e[j + 1][0].0 as int);
    assert forall|j: int| 0 <= j < d.len() implies 0 <= #[trigger] d[j] < n && a[d[j]].level() == j
        + 1 by {
        assert(e[j + 1].len() >= 1);
        assert(e[j + 1][0].0 < n);
    }
    assert(d.no_duplicates());
    lemma_distinct_below(d, n);
}

/// The number of entries of each level.
pub open spec fn sizes(e: Seq<Seq<(Variable, Reason)>>) -> Seq<int> {
    Seq::new(e.len(), |k: int| e[k].len() as int)
}

/// The levels from `k` on, read as digits of a number in the given base, the
/// lowest level weighing most.
pub open spec fn weight_from(sizes: Seq<int>, base: int, n: int, k: int) -> int
    decreases sizes.len() - k,
{
    if k < 0 || k >= sizes.len() || k > n {
        0
    } else {
        sizes[k] * pow(base, (n - k) as nat) + weight_from(sizes, base, n, k + 1)
    }
}

/// How far a search over `n` variables has come.
pub open spec fn progress(n: int, e: Seq<Seq<(Variable, Reason)>>) -> int {
    weight_from(sizes(e), n + 1, n, 0)
}

/// What `progress` cannot exceed.
pub open spec fn horizon(n: int) -> int {
    pow(n + 1, (n + 1) as nat)
}

proof fn lemma_pow_step(base: int, e: nat)
    ensures
        pow(base, e + 1) == base * pow(base, e),
{
    reveal(pow);
}

/// The levels from `k` on weigh less than one entry at level `k - 1`.
pub proof fn lemma_weight_bound(sizes: Seq<int>, n: int, k: int)
    requires
        0 <= n,
        0 <= k <= sizes.len() <= n + 1,
        forall|j: int| 0 <= j < sizes.len() ==> 0 <= #[trigger] sizes[j] <= n,
    ensures
        0 <= weight_from(sizes, n + 1, n, k) <= pow(n + 1, (n - k + 1) as nat) - 1,
    decreases sizes.len() - k,
{
    lemma_pow_positive(n + 1, (n - k + 1) as nat);
    if k < sizes.len() {
        lemma_weight_bound(sizes, n, k + 1);
        let p = pow(n + 1, (n - k) as nat);
        lemma_pow_positive(n + 1, (n - k) as nat);
        lemma_pow_step(n + 1, (n - k) as nat);
        assert((n - k) as nat + 1 == (n - k + 1) as nat);
        assert(sizes[k] * p <= n * p) by (nonlinear_arith)
            requires
                0 <= sizes[k] <= n,
                p > 0,
        ;
        assert(0 <= sizes[k] * p) by (nonlinear_arith)
            requires
                0 <= sizes[k],
                p > 0,
        ;
        assert(n * p + p == (n + 1) * p) by (nonlinear_arith);
    }
}

/// Dropping the levels from `j` on and adding one entry to level `j - 1`, or
/// opening level `j - 1` with at least one entry, makes the weight grow.
pub proof fn lemma_weight_grows(before: Seq<int>, after: Seq<int>, n: int, k: int)
    requires
        0 <= n,
        before.len() <= n + 1,
        after.len() <= n + 1,
        forall|j: int| 0 <= j < before.len() ==> 0 <= #[trigger] before[j] <= n,
        0 <= k < after.len(),
        forall|j: int| k <= j < after.len() - 1 ==> after[j] == before[j],
        after.len() <= before.len() + 1,
        if after.len() <= before.len() {
            after[after.len() - 1] >= before[after.len() - 1] + 1
        } else {
            after[after.len() - 1] >= 1
        },
    ensures
        weight_from(after, n + 1, n, k) > weight_from(before, n + 1, n, k),
    decreases after.len() - k,
{
    let last = after.len() - 1;
    if k == last {
        let p = pow(n + 1, (n - k) as nat);
        lemma_pow_positive(n + 1, (n - k) as nat);
        assert(weight_from(after, n + 1, n, k + 1) == 0);
        if after.len() <= before.len() {
            lemma_weight_bound(before, n, k + 1);
            assert((n - (k + 1) + 1) as nat == (n - k) as nat);
            assert(after[k] * p >= before[k] * p + p) by (nonlinear_arith)
                requires
                    after[k] >= before[k] + 1,
                    p > 0,
            ;
        } else {
            assert(weight_from(before, n + 1, n, k) == 0);
            assert(after[k] * p >= p) by (nonlinear_arith)
                requires
                    after[k] >= 1,
                    p > 0,
            ;
        }
    } else {
        lemma_weight_grows(before, after, n, k + 1);
    }
}

/// Progress never passes the horizon.
pub proof fn lemma_progress_bounded(a: Seq<VariableState>, e: Seq<Seq<(Variable, Reason)>>)
    requires
        well_formed(a, e),
    ensures
        0 <= progress(a.len() as int, e) < horizon(a.len() as int),
{
    lemma_trail_bounds(a, e);
    lemma_weight_bound(sizes(e), a.len() as int, 0);
}

/// A trail that keeps the levels below its top of another and has one entry
/// more at its top, or that adds a level to the other, has come further.
pub proof fn lemma_progress_grows(
    a: Seq<VariableState>,
    e: Seq<Seq<(Variable, Reason)>>,
    a2: Seq<VariableState>,
    e2: Seq<Seq<(Variable, Reason)>>,
)
    requires
        well_formed(a, e),
        well_formed(a2, e2),
        a.len() == a2.len(),
        e2.len() <= e.len() + 1,
        forall|k: int| 0 <= k < e2.len() - 1 ==> (#[trigger] e2[k]).len() == e[k].len(),
        e2.len() <= e.len() ==> e2[e2.len() - 1].len() >= e[e2.len() - 1].len() + 1,
    ensures
        progress(a.len() as int, e2) > progress(a.len() as int, e),
{
    lemma_trail_bounds(a, e);
    lemma_trail_bounds(a2, e2);
    if e2.len() > e.len() {
        assert(e2[e2.len() - 1].len() >= 1);
    }
    lemma_weight_grows(sizes(e), sizes(e2), a.len() as int, 0);
}

} // verus!
