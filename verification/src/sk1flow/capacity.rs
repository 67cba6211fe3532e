//! The arithmetic the flow solver needs of a capacity type.
use num::BigUint;
use vstd::prelude::*;

verus! {

/// A capacity or an excess: a natural number that can be added to, taken
/// from and compared. A type with a largest value says through `fits` which
/// sums it can hold.
pub trait Capacity: Sized {
    /// The number this value stands for.
    spec fn value(&self) -> nat;

    /// Whether the type can hold `amount`.
    spec fn fits(amount: nat) -> bool;

    /// What fits a larger amount fits a smaller one.
    proof fn lemma_fits_less(amount: nat, bound: nat)
        requires
            Self::fits(bound),
            amount <= bound,
        ensures
            Self::fits(amount),
    ;

    /// Every value fits.
    proof fn lemma_value_fits(&self)
        ensures
            Self::fits(self.value()),
    ;

    /// The amount 0 fits.
    proof fn lemma_zero_fits()
        ensures
            Self::fits(0),
    ;

    /// The value 0.
    fn zero() -> (z: Self)
        ensures
            z.value() == 0,
    ;

    /// Whether the value is 0.
    fn is_zero(&self) -> (answer: bool)
        ensures
            answer == (self.value() == 0),
    ;

    /// A copy of the smaller of the two.
    fn smaller(&self, other: &Self) -> (least: Self)
        ensures
            least.value() == if self.value() <= other.value() {
                self.value()
            } else {
                other.value()
            },
    ;

    /// Adds `by`.
    fn increase(&mut self, by: &Self)
        requires
            Self::fits(old(self).value() + by.value()),
        ensures
            final(self).value() == old(self).value() + by.value(),
    ;

    /// Takes `by` away.
    fn decrease(&mut self, by: &Self)
        requires
            by.value() <= old(self).value(),
        ensures
            final(self).value() == old(self).value() - by.value(),
    ;

    /// A copy of the value.
    fn duplicate(&self) -> (copy: Self)
        ensures
            copy.value() == self.value(),
    ;
}

impl Capacity for usize {
    open spec fn value(&self) -> nat {
        *self as nat
    }

    open spec fn fits(amount: nat) -> bool {
        amount <= usize::MAX
    }

    proof fn lemma_fits_less(amount: nat, bound: nat) {
    }

    proof fn lemma_value_fits(&self) {
    }

    proof fn lemma_zero_fits() {
    }

    fn zero() -> (z: Self) {
        0
    }

    fn is_zero(&self) -> (answer: bool) {
        *self == 0
    }

    fn smaller(&self, other: &Self) -> (least: Self) {
        if *self <= *other {
            *self
        } else {
            *other
        }
    }

    fn increase(&mut self, by: &Self) {
        *self = *self + *by;
    }

    fn decrease(&mut self, by: &Self) {
        *self = *self - *by;
    }

    fn duplicate(&self) -> (copy: Self) {
        *self
    }
}

/// `num::BigUint`, a natural number without bound, as a type that contracts
/// can speak of.
#[verifier::external_type_specification]
#[verifier::external_body]
pub struct ExBigUint(BigUint);

/// The natural number a `BigUint` holds.
pub uninterp spec fn big_value(number: BigUint) -> nat;

/// `BigUint`'s `Zero::zero`: the number 0.
#[verifier::external_body]
fn big_zero() -> (z: BigUint)
    ensures
        big_value(z) == 0,
{
    num::Zero::zero()
}

/// `BigUint`'s `Zero::is_zero`: whether the number is 0.
#[verifier::external_body]
fn big_is_zero(number: &BigUint) -> (answer: bool)
    ensures
        answer == (big_value(*number) == 0),
{
    num::Zero::is_zero(number)
}

/// `BigUint`'s `<=`: the numbers compared.
#[verifier::external_body]
fn big_at_most(left: &BigUint, right: &BigUint) -> (answer: bool)
    ensures
        answer == (big_value(*left) <= big_value(*right)),
{
    left <= right
}

/// `BigUint`'s `clone`: the same number.
#[verifier::external_body]
fn big_clone(number: &BigUint) -> (copy: BigUint)
    ensures
        big_value(copy) == big_value(*number),
{
    number.clone()
}

/// `BigUint`'s `+=` with a reference: the exact sum.
#[verifier::external_body]
fn big_add_assign(number: &mut BigUint, by: &BigUint)
    ensures
        big_value(*final(number)) == big_value(*old(number)) + big_value(*by),
{
    *number += by;
}

/// `BigUint`'s `-=` with a reference: the exact difference. It panics when
/// `by` is the larger, which the precondition leaves out.
#[verifier::external_body]
fn big_sub_assign(number: &mut BigUint, by: &BigUint)
    requires
        big_value(*by) <= big_value(*old(number)),
    ensures
        big_value(*final(number)) == big_value(*old(number)) - big_value(*by),
{
    *number -= by;
}

impl Capacity for BigUint {
    open spec fn value(&self) -> nat {
        big_value(*self)
    }

    open spec fn fits(amount: nat) -> bool {
        true
    }

    proof fn lemma_fits_less(amount: nat, bound: nat) {
    }

    proof fn lemma_value_fits(&self) {
    }

    proof fn lemma_zero_fits() {
    }

    fn zero() -> (z: Self) {
        big_zero()
    }

    fn is_zero(&self) -> (answer: bool) {
        big_is_zero(self)
    }

    fn smaller(&self, other: &Self) -> (least: Self) {
        if big_at_most(self, other) {
            big_clone(self)
        } else {
            big_clone(other)
        }
    }

    fn increase(&mut self, by: &Self) {
        big_add_assign(self, by);
    }

    fn decrease(&mut self, by: &Self) {
        big_sub_assign(self, by);
    }

    fn duplicate(&self) -> (copy: Self) {
        big_clone(self)
    }
}

} // verus!
