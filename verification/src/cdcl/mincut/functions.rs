//! The weight rules. Each gives a vertex of the ground level weight 0, so
//! that cutting it costs nothing.
use crate::cdcl::mincut::heuristic::WeightHeuristic;
use crate::cdcl::propagation::Formula;
use crate::sk1flow::capacity::{big_value, Capacity};
use num::BigUint;
use vstd::arithmetic::div_mod::{lemma_basic_div, lemma_div_denominator};
use vstd::arithmetic::power2::{lemma2_to64, lemma2_to64_rest, lemma_pow2_pos, lemma_pow2_unfold, pow2};
use vstd::bits::lemma_usize_shr_is_div;
use vstd::prelude::*;

verus! {

/// The smallest cut: a vertex of the conflict level costs half of all there
/// is, any other above the ground level costs 1.
#[derive(Debug, Default, Copy, Clone, Ord, PartialOrd, Eq, PartialEq, Hash)]
pub struct MinCutFunction {}

impl WeightHeuristic<usize> for MinCutFunction {
    open spec fn excess_at(&self, conflict_level: usize) -> nat {
        usize::MAX as nat
    }

    open spec fn weight_at(&self, level: usize, conflict_level: usize, is_decision: bool) -> nat {
        if level == 0 {
            0
        } else if level == conflict_level {
            (usize::MAX / 2) as nat
        } else {
            1
        }
    }

    proof fn lemma_calibrated(&self, conflict_level: usize, costs: Seq<nat>) {
        lemma_cost_minimal(*self, conflict_level, costs, conflict_level as int);
    }

    fn from_formula(_n: usize, _formula: &Formula) -> Self {
        MinCutFunction {  }
    }

    fn source_excess(&self, _conflict_level: usize) -> (excess: usize) {
        usize::MAX
    }

    fn gen_vertex_weight(&self, level: usize, conflict_level: usize, _is_decision: bool) -> (weight:
        usize) {
        if level == 0 {
            return 0;
        }
        if level == conflict_level {
            usize::MAX / 2
        } else {
            1
        }
    }
}

/// The first unique implication point: only vertices of the conflict level
/// cost anything.
#[derive(Debug, Default, Copy, Clone, Ord, PartialOrd, Eq, PartialEq, Hash)]
pub struct FirstUIPFunction {}

impl WeightHeuristic<usize> for FirstUIPFunction {
    open spec fn excess_at(&self, conflict_level: usize) -> nat {
        usize::MAX as nat
    }

    open spec fn weight_at(&self, level: usize, conflict_level: usize, is_decision: bool) -> nat {
        if level == 0 {
            0
        } else if level == conflict_level {
            (usize::MAX / 2) as nat
        } else {
            0
        }
    }

    proof fn lemma_calibrated(&self, conflict_level: usize, costs: Seq<nat>) {
        lemma_cost_first(*self, conflict_level, costs, conflict_level as int);
    }

    fn from_formula(_n: usize, _formula: &Formula) -> Self {
        FirstUIPFunction {  }
    }

    fn source_excess(&self, _conflict_level: usize) -> (excess: usize) {
        usize::MAX
    }

    fn gen_vertex_weight(&self, level: usize, conflict_level: usize, _is_decision: bool) -> (weight:
        usize) {
        if level == 0 {
            return 0;
        }
        if level == conflict_level {
            usize::MAX / 2
        } else {
            0
        }
    }
}

/// What a vertex costs that lies `diff` levels below the conflict level: half
/// of all there is, halved once more for every level, and nothing from
/// `depth` levels on.
pub open spec fn fading(diff: usize, depth: usize) -> nat {
    if diff < depth {
        ((usize::MAX / 2) >> diff) as nat
    } else {
        0
    }
}

/// Unique implication points of the two highest levels.
#[derive(Debug, Default, Copy, Clone, Ord, PartialOrd, Eq, PartialEq, Hash)]
pub struct SecondUIPFunction {}

impl WeightHeuristic<usize> for SecondUIPFunction {
    open spec fn excess_at(&self, conflict_level: usize) -> nat {
        usize::MAX as nat
    }

    open spec fn weight_at(&self, level: usize, conflict_level: usize, is_decision: bool) -> nat {
        if level == 0 {
            0
        } else {
            fading((conflict_level - level) as usize, 2)
        }
    }

    proof fn lemma_calibrated(&self, conflict_level: usize, costs: Seq<nat>) {
        lemma_cost_second(*self, conflict_level, costs, conflict_level as int);
        lemma_fading(0);
        lemma_fading(1);
    }

    fn from_formula(_n: usize, _formula: &Formula) -> Self {
        SecondUIPFunction {  }
    }

    fn source_excess(&self, _conflict_level: usize) -> (excess: usize) {
        usize::MAX
    }

    fn gen_vertex_weight(&self, level: usize, conflict_level: usize, _is_decision: bool) -> (weight:
        usize) {
        if level == 0 {
            return 0;
        }
        let diff = conflict_level - level;
        if diff < 2 {
            (usize::MAX / 2) >> diff
        } else {
            0
        }
    }
}

/// Unique implication points of the three highest levels.
#[derive(Debug, Default, Copy, Clone, Ord, PartialOrd, Eq, PartialEq, Hash)]
pub struct ThirdUIPFunction {}

impl WeightHeuristic<usize> for ThirdUIPFunction {
    open spec fn excess_at(&self, conflict_level: usize) -> nat {
        usize::MAX as nat
    }

    open spec fn weight_at(&self, level: usize, conflict_level: usize, is_decision: bool) -> nat {
        if level == 0 {
            0
        } else {
            fading((conflict_level - level) as usize, 3)
        }
    }

    proof fn lemma_calibrated(&self, conflict_level: usize, costs: Seq<nat>) {
        lemma_cost_third(*self, conflict_level, costs, conflict_level as int);
        lemma_fading(0);
        lemma_fading(1);
        lemma_fading(2);
    }

    fn from_formula(_n: usize, _formula: &Formula) -> Self {
        ThirdUIPFunction {  }
    }

    fn source_excess(&self, _conflict_level: usize) -> (excess: usize) {
        usize::MAX
    }

    fn gen_vertex_weight(&self, level: usize, conflict_level: usize, _is_decision: bool) -> (weight:
        usize) {
        if level == 0 {
            return 0;
        }
        let diff = conflict_level - level;
        if diff < 3 {
            (usize::MAX / 2) >> diff
        } else {
            0
        }
    }
}

/// The number of levels below the conflict level that still tell a vertex's
/// cost apart: one less than a machine word has bits.
pub open spec fn word_depth() -> usize {
    (usize::BITS - 1) as usize
}

/// Unique implication points of every level, as far as a machine word
/// reaches: a quarter of all there is, halved for every level below the
/// conflict level.
#[derive(Debug, Default, Copy, Clone, Ord, PartialOrd, Eq, PartialEq, Hash)]
pub struct SaturatingAllUIPFunction {}

impl WeightHeuristic<usize> for SaturatingAllUIPFunction {
    open spec fn excess_at(&self, conflict_level: usize) -> nat {
        usize::MAX as nat
    }

    open spec fn weight_at(&self, level: usize, conflict_level: usize, is_decision: bool) -> nat {
        if level == 0 {
            0
        } else if conflict_level - level < word_depth() {
            ((usize::MAX / 4) >> ((conflict_level - level) as usize)) as nat
        } else {
            ((usize::MAX / 4) >> word_depth()) as nat
        }
    }

    proof fn lemma_calibrated(&self, conflict_level: usize, costs: Seq<nat>) {
        lemma_cost_saturating(*self, conflict_level, costs, conflict_level as int);
        lemma_usize_shr_is_div((usize::MAX / 4) as usize, 0);
        lemma2_to64();
    }

    fn from_formula(_n: usize, _formula: &Formula) -> Self {
        SaturatingAllUIPFunction {  }
    }

    fn source_excess(&self, _conflict_level: usize) -> (excess: usize) {
        usize::MAX
    }

    fn gen_vertex_weight(&self, level: usize, conflict_level: usize, _is_decision: bool) -> (weight:
        usize) {
        if level == 0 {
            return 0;
        }
        let diff = conflict_level - level;
        let deepest = (usize::BITS - 1) as usize;
        let shift = if diff < deepest {
            diff
        } else {
            deepest
        };
        (usize::MAX / 4) >> shift
    }
}

/// `BigUint`'s `One::one`: the number 1.
#[verifier::external_body]
fn big_one() -> (one: BigUint)
    ensures
        big_value(one) == 1,
{
    num::One::one()
}

/// `BigUint`'s `From<u32>`: the same number.
#[verifier::external_body]
fn big_from_u32(small: u32) -> (number: BigUint)
    ensures
        big_value(number) == small,
{
    BigUint::from(small)
}

/// `BigUint`'s `<<` by a `usize`: the number times two to that power, exactly.
#[verifier::external_body]
fn big_shift_left(number: BigUint, by: usize) -> (shifted: BigUint)
    ensures
        big_value(shifted) == big_value(number) * pow2(by as nat),
{
    number << by
}

/// Unique implication points of every level, in numbers without bound: a
/// vertex costs two to the power of its level.
#[derive(Debug, Default, Copy, Clone, Ord, PartialOrd, Eq, PartialEq, Hash)]
pub struct AllUIPFunction {}

impl WeightHeuristic<BigUint> for AllUIPFunction {
    open spec fn excess_at(&self, conflict_level: usize) -> nat {
        4 * pow2(conflict_level as nat)
    }

    open spec fn weight_at(&self, level: usize, conflict_level: usize, is_decision: bool) -> nat {
        if level == 0 {
            0
        } else {
            pow2(level as nat)
        }
    }

    proof fn lemma_calibrated(&self, conflict_level: usize, costs: Seq<nat>) {
        lemma_cost_all(*self, conflict_level, costs, conflict_level as int);
        lemma_pow2_unfold((conflict_level + 1) as nat);
        lemma_pow2_pos(conflict_level as nat);
    }

    fn from_formula(_n: usize, _formula: &Formula) -> Self {
        AllUIPFunction {  }
    }

    fn source_excess(&self, conflict_level: usize) -> (excess: BigUint) {
        big_shift_left(big_from_u32(4u32), conflict_level)
    }

    fn gen_vertex_weight(&self, level: usize, _conflict_level: usize, _is_decision: bool) -> (weight:
        BigUint) {
        if level == 0 {
            return <BigUint as Capacity>::zero();
        }
        big_shift_left(big_one(), level)
    }
}

/// The decision scheme: what was forced at the conflict level cannot be cut,
/// everything else is free.
#[derive(Debug, Default, Copy, Clone, Ord, PartialOrd, Eq, PartialEq, Hash)]
pub struct RelSatFunction {}

impl WeightHeuristic<usize> for RelSatFunction {
    open spec fn excess_at(&self, conflict_level: usize) -> nat {
        usize::MAX as nat
    }

    open spec fn weight_at(&self, level: usize, conflict_level: usize, is_decision: bool) -> nat {
        if level == 0 {
            0
        } else if level == conflict_level && !is_decision {
            usize::MAX as nat
        } else {
            0
        }
    }

    proof fn lemma_calibrated(&self, conflict_level: usize, costs: Seq<nat>) {
        lemma_cost_rel_sat(*self, conflict_level, costs, conflict_level as int);
    }

    fn from_formula(_n: usize, _formula: &Formula) -> Self {
        RelSatFunction {  }
    }

    fn source_excess(&self, _conflict_level: usize) -> (excess: usize) {
        usize::MAX
    }

    fn gen_vertex_weight(&self, level: usize, conflict_level: usize, is_decision: bool) -> (weight:
        usize) {
        if level == 0 {
            return 0;
        }
        if (level == conflict_level) && !is_decision {
            usize::MAX
        } else {
            0
        }
    }
}

/// Half of all a word can hold.
pub open spec fn half() -> int {
    (usize::MAX / 2) as int
}

/// A quarter of all a word can hold.
pub open spec fn quarter() -> int {
    (usize::MAX / 4) as int
}

/// Below the conflict level every decision costs 1, at it half of all there
/// is.
proof fn lemma_cost_minimal(rule: MinCutFunction, c: usize, costs: Seq<nat>, upto: int)
    requires
        costs.len() == c + 1,
        costs[0] == 0,
        forall|k: int|
            1 <= k <= c ==> #[trigger] costs[k] == costs[k - 1] + rule.weight_at(k as usize, c, true),
        0 <= upto <= c,
        1 <= c,
    ensures
        costs[upto] == if upto < c {
            upto
        } else {
            upto - 1 + half()
        },
    decreases upto,
{
    if upto > 0 {
        lemma_cost_minimal(rule, c, costs, upto - 1);
    }
}

/// Only the decision of the conflict level costs anything.
proof fn lemma_cost_first(rule: FirstUIPFunction, c: usize, costs: Seq<nat>, upto: int)
    requires
        costs.len() == c + 1,
        costs[0] == 0,
        forall|k: int|
            1 <= k <= c ==> #[trigger] costs[k] == costs[k - 1] + rule.weight_at(k as usize, c, true),
        0 <= upto <= c,
        1 <= c,
    ensures
        costs[upto] == if upto < c {
            0int
        } else {
            half()
        },
    decreases upto,
{
    if upto > 0 {
        lemma_cost_first(rule, c, costs, upto - 1);
    }
}

/// What fades halves with every level.
proof fn lemma_fading(diff: usize)
    requires
        diff < 3,
    ensures
        (((usize::MAX / 2) as usize) >> diff) == half() / (pow2(diff as nat) as int),
        pow2(0) == 1,
        pow2(1) == 2,
        pow2(2) == 4,
{
    lemma_usize_shr_is_div((usize::MAX / 2) as usize, diff);
    lemma2_to64();
}

/// The decisions of the two highest levels cost at most half of all there
/// is and half of that; the others nothing.
proof fn lemma_cost_second(rule: SecondUIPFunction, c: usize, costs: Seq<nat>, upto: int)
    requires
        costs.len() == c + 1,
        costs[0] == 0,
        forall|k: int|
            1 <= k <= c ==> #[trigger] costs[k] == costs[k - 1] + rule.weight_at(k as usize, c, true),
        0 <= upto <= c,
        1 <= c,
    ensures
        costs[upto] <= if c - upto >= 2 {
            0int
        } else if c - upto == 1 {
            half() / 2
        } else {
            half() / 2 + half()
        },
    decreases upto,
{
    if upto > 0 {
        lemma_cost_second(rule, c, costs, upto - 1);
        lemma_fading(0);
        lemma_fading(1);
    }
}

/// The decisions of the three highest levels cost at most half of all there
/// is, half of that and half of that again; the others nothing.
proof fn lemma_cost_third(rule: ThirdUIPFunction, c: usize, costs: Seq<nat>, upto: int)
    requires
        costs.len() == c + 1,
        costs[0] == 0,
        forall|k: int|
            1 <= k <= c ==> #[trigger] costs[k] == costs[k - 1] + rule.weight_at(k as usize, c, true),
        0 <= upto <= c,
        1 <= c,
    ensures
        costs[upto] <= if c - upto >= 3 {
            0int
        } else if c - upto == 2 {
            half() / 4
        } else if c - upto == 1 {
            half() / 4 + half() / 2
        } else {
            half() / 4 + half() / 2 + half()
        },
    decreases upto,
{
    if upto > 0 {
        lemma_cost_third(rule, c, costs, upto - 1);
        lemma_fading(0);
        lemma_fading(1);
        lemma_fading(2);
    }
}

/// A quarter of all there is, shifted as far as a word reaches, is nothing;
/// shifted one place less far, it is twice what it is shifted one place
/// further, or one more.
proof fn lemma_quarter_shifts(shift: usize)
    requires
        shift < word_depth(),
    ensures
        (((usize::MAX / 4) as usize) >> word_depth()) == 0,
        (((usize::MAX / 4) as usize) >> ((shift + 1) as usize)) == (((usize::MAX / 4) as usize)
            >> shift) / 2,
{
    let x = (usize::MAX / 4) as usize;
    lemma2_to64();
    lemma2_to64_rest();
    lemma_usize_shr_is_div(x, word_depth());
    lemma_basic_div(x as int, pow2(word_depth() as nat) as int);
    lemma_usize_shr_is_div(x, shift);
    lemma_usize_shr_is_div(x, (shift + 1) as usize);
    lemma_pow2_unfold((shift + 1) as nat);
    lemma_pow2_pos(shift as nat);
    lemma_div_denominator(x as int, pow2(shift as nat) as int, 2);
}

/// The decisions up to a level cost less than twice what the decision of
/// that level costs.
proof fn lemma_cost_saturating(rule: SaturatingAllUIPFunction, c: usize, costs: Seq<nat>, upto: int)
    requires
        costs.len() == c + 1,
        costs[0] == 0,
        forall|k: int|
            1 <= k <= c ==> #[trigger] costs[k] == costs[k - 1] + rule.weight_at(k as usize, c, true),
        0 <= upto <= c,
        1 <= c,
    ensures
        upto >= 1 ==> costs[upto] <= 2 * rule.weight_at(upto as usize, c, true)
            - if rule.weight_at(upto as usize, c, true) >= 1 {
            1int
        } else {
            0int
        },
        upto == 0 ==> costs[upto] == 0,
    decreases upto,
{
    if upto > 1 {
        lemma_cost_saturating(rule, c, costs, upto - 1);
        let below = (c - (upto - 1)) as usize;
        let here = (c - upto) as usize;
        if here < word_depth() {
            lemma_quarter_shifts(here);
        } else {
            lemma_quarter_shifts(0);
        }
    } else if upto == 1 {

    }
}

/// The decisions up to a level cost two less than twice the power of two of
/// that level.
proof fn lemma_cost_all(rule: AllUIPFunction, c: usize, costs: Seq<nat>, upto: int)
    requires
        costs.len() == c + 1,
        costs[0] == 0,
        forall|k: int|
            1 <= k <= c ==> #[trigger] costs[k] == costs[k - 1] + rule.weight_at(k as usize, c, true),
        0 <= upto <= c,
    ensures
        costs[upto] == pow2((upto + 1) as nat) - 2,
    decreases upto,
{
    if upto > 0 {
        lemma_cost_all(rule, c, costs, upto - 1);
        lemma_pow2_unfold((upto + 1) as nat);
    } else {
        lemma2_to64();
    }
}

/// Decisions cost nothing.
proof fn lemma_cost_rel_sat(rule: RelSatFunction, c: usize, costs: Seq<nat>, upto: int)
    requires
        costs.len() == c + 1,
        costs[0] == 0,
        forall|k: int|
            1 <= k <= c ==> #[trigger] costs[k] == costs[k - 1] + rule.weight_at(k as usize, c, true),
        0 <= upto <= c,
    ensures
        costs[upto] == 0,
    decreases upto,
{
    if upto > 0 {
        lemma_cost_rel_sat(rule, c, costs, upto - 1);
    }
}

} // verus!
