//! Exact integers and fractions from `num-bigint` and `num-rational`, each
//! carried with the mathematical value it stands for. The value of a
//! fraction is a pair (numerator, positive denominator); the operations
//! below are the ones of `num-rational`, and their results carry the pair
//! that the field operations of `rational` compute.
use num_bigint::BigInt;
use num_rational::{BigRational, Ratio};
use num_traits::{One, ToPrimitive};
use vstd::prelude::*;
use crate::rational::{Frac, q_add, q_div, q_eq, q_mul, q_sub, q_valid};

verus! {

#[verifier::external_type_specification]
#[verifier::external_body]
pub struct ExBigInt(BigInt);

#[verifier::external_type_specification]
#[verifier::external_body]
#[verifier::reject_recursive_types(T)]
pub struct ExRatio<T>(Ratio<T>);

/// An arbitrary-precision integer together with its value.
pub struct ExactInt {
    value: BigInt,
    val: Ghost<int>,
}

impl View for ExactInt {
    type V = int;

    closed spec fn view(&self) -> int {
        self.val@
    }
}

/// An arbitrary-precision fraction together with a numerator and a
/// positive denominator whose quotient it equals.
pub struct ExactRatio {
    value: BigRational,
    frac: Ghost<(int, int)>,
}

impl View for ExactRatio {
    type V = Frac;

    /// The fraction's value as a numerator and a positive denominator.
    closed spec fn view(&self) -> Frac {
        self.frac@
    }
}

impl ExactRatio {
    /// Every fraction's denominator is positive.
    #[verifier::type_invariant]
    pub open spec fn well_formed(self) -> bool {
        q_valid(self@)
    }

    /// The `BigRational` that this fraction holds.
    pub closed spec fn held(&self) -> BigRational {
        self.value
    }

    /// The fraction as a `BigRational`: the one it holds.
    pub fn rational(&self) -> (r: &BigRational)
        ensures
            *r == self.held(),
    {
        &self.value
    }
}

/// `BigInt::from(i64)`: the integer `n`.
#[verifier::external_body]
pub(crate) fn big_from_i64(n: i64) -> (r: ExactInt)
    ensures
        r@ == n as int,
{
    ExactInt { value: BigInt::from(n), val: Ghost(n as int) }
}

/// `BigRational::one()`: the fraction 1/1.
#[verifier::external_body]
pub(crate) fn ratio_one() -> (r: ExactRatio)
    ensures
        r@ == (1int, 1int),
{
    ExactRatio { value: BigRational::one(), frac: Ghost((1int, 1int)) }
}

/// `Ratio::from_integer`: the fraction `n / 1`.
#[verifier::external_body]
pub(crate) fn ratio_from_integer(n: ExactInt) -> (r: ExactRatio)
    ensures
        r@ == (n@, 1int),
{
    ExactRatio { value: Ratio::from_integer(n.value), frac: Ghost((n@, 1int)) }
}

/// `Ratio::new(numer, denom)`: the fraction `numer / denom` (reduced
/// internally); it panics on a zero denominator, and a positive one is
/// asked for.
#[verifier::external_body]
pub(crate) fn ratio_new(numer: ExactInt, denom: ExactInt) -> (r: ExactRatio)
    requires
        denom@ > 0,
    ensures
        r@ == (numer@, denom@),
{
    ExactRatio { value: Ratio::new(numer.value, denom.value), frac: Ghost((numer@, denom@)) }
}

/// `Clone` on a `Ratio`: the same fraction.
#[verifier::external_body]
pub(crate) fn ratio_clone(a: &ExactRatio) -> (r: ExactRatio)
    ensures
        r@ == a@,
{
    ExactRatio { value: a.value.clone(), frac: Ghost(a@) }
}

/// `&Ratio + &Ratio`: the sum.
#[verifier::external_body]
pub(crate) fn ratio_add(a: &ExactRatio, b: &ExactRatio) -> (r: ExactRatio)
    ensures
        r@ == q_add(a@, b@),
{
    ExactRatio { value: &a.value + &b.value, frac: Ghost(q_add(a@, b@)) }
}

/// `&Ratio - &Ratio`: the difference.
#[verifier::external_body]
pub(crate) fn ratio_sub(a: &ExactRatio, b: &ExactRatio) -> (r: ExactRatio)
    ensures
        r@ == q_sub(a@, b@),
{
    ExactRatio { value: &a.value - &b.value, frac: Ghost(q_sub(a@, b@)) }
}

/// `&Ratio * &Ratio`: the product.
#[verifier::external_body]
pub(crate) fn ratio_mul(a: &ExactRatio, b: &ExactRatio) -> (r: ExactRatio)
    ensures
        r@ == q_mul(a@, b@),
{
    ExactRatio { value: &a.value * &b.value, frac: Ghost(q_mul(a@, b@)) }
}

/// `&Ratio / &Ratio`: the quotient; it panics on a zero divisor, which
/// `requires` rules out.
#[verifier::external_body]
pub(crate) fn ratio_div(a: &ExactRatio, b: &ExactRatio) -> (r: ExactRatio)
    requires
        b@.0 != 0,
    ensures
        r@ == q_div(a@, b@),
{
    ExactRatio { value: &a.value / &b.value, frac: Ghost(q_div(a@, b@)) }
}

/// `Ratio == Ratio`: whether the two fractions have the same value.
#[verifier::external_body]
pub(crate) fn ratio_eq(a: &ExactRatio, b: &ExactRatio) -> (r: bool)
    ensures
        r == q_eq(a@, b@),
{
    a.value == b.value
}

/// `Ratio::is_integer`: whether the fraction is a whole number.
#[verifier::external_body]
pub(crate) fn ratio_is_integer(r: &ExactRatio) -> (b: bool)
    ensures
        b == (r@.0 % r@.1 == 0),
{
    r.value.is_integer()
}

/// `Ratio::to_integer` on a whole number: that number.
#[verifier::external_body]
pub(crate) fn ratio_to_integer(r: &ExactRatio) -> (i: ExactInt)
    requires
        r@.0 % r@.1 == 0,
    ensures
        i@ == r@.0 / r@.1,
{
    ExactInt { value: r.value.to_integer(), val: Ghost(r@.0 / r@.1) }
}

/// `ToPrimitive::to_usize` on a `BigInt`: the value when it fits a `usize`.
#[verifier::external_body]
pub(crate) fn big_to_usize(i: &ExactInt) -> (r: Option<usize>)
    ensures
        r is Some <==> 0 <= i@ <= usize::MAX,
        r matches Some(v) ==> v as int == i@,
{
    i.value.to_usize()
}

/// The fraction `numer / denom`, for a positive denominator.
pub fn exact_fraction(numer: i64, denom: i64) -> (r: ExactRatio)
    requires
        denom > 0,
    ensures
        r@ == (numer as int, denom as int),
{
    ratio_new(big_from_i64(numer), big_from_i64(denom))
}

/// The whole number `n` as a fraction.
pub fn exact_integer(n: i64) -> (r: ExactRatio)
    ensures
        r@ == (n as int, 1int),
{
    ratio_from_integer(big_from_i64(n))
}

/// Whether two fractions have the same value.
pub fn same_value(a: &ExactRatio, b: &ExactRatio) -> (r: bool)
    ensures
        r == q_eq(a@, b@),
{
    ratio_eq(a, b)
}

} // verus!
