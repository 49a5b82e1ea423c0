//! The trusted surface over `num-bigint`.
//!
//! A [`num_bigint::BigInt`] is opaque to the verifier; [`big_value`] names the
//! signed integer such a value stands for, and each wrapper below states, over
//! that name, what one operation of the crate returns. Everything else in this
//! library is proved from these contracts.

use vstd::prelude::*;
use vstd::arithmetic::power2::pow2;
use num_bigint::BigInt;

verus! {

#[verifier::external_type_specification]
#[verifier::external_body]
pub struct ExBigInt(BigInt);

/// The signed integer that a `BigInt` stands for.
pub uninterp spec fn big_value(x: BigInt) -> int;

/// Relies on `BigInt::from(i64)`: the result stands for the given integer.
#[verifier::external_body]
pub(crate) fn big_from_i64(x: i64) -> (r: BigInt)
    ensures
        big_value(r) == x as int,
{
    BigInt::from(x)
}

/// Relies on `Clone for BigInt`: the clone stands for the same integer.
#[verifier::external_body]
pub(crate) fn big_clone(a: &BigInt) -> (r: BigInt)
    ensures
        big_value(r) == big_value(*a),
{
    a.clone()
}

/// Relies on `Add for &BigInt`: exact addition.
#[verifier::external_body]
pub(crate) fn big_add(a: &BigInt, b: &BigInt) -> (r: BigInt)
    ensures
        big_value(r) == big_value(*a) + big_value(*b),
{
    a + b
}

/// Relies on `Sub for &BigInt`: exact subtraction.
#[verifier::external_body]
pub(crate) fn big_sub(a: &BigInt, b: &BigInt) -> (r: BigInt)
    ensures
        big_value(r) == big_value(*a) - big_value(*b),
{
    a - b
}

/// Relies on `Mul for &BigInt`: exact multiplication.
#[verifier::external_body]
pub(crate) fn big_mul(a: &BigInt, b: &BigInt) -> (r: BigInt)
    ensures
        big_value(r) == big_value(*a) * big_value(*b),
{
    a * b
}

/// Relies on `Neg for &BigInt`: exact negation.
#[verifier::external_body]
pub(crate) fn big_neg(a: &BigInt) -> (r: BigInt)
    ensures
        big_value(r) == -big_value(*a),
{
    -a
}

/// Relies on `num_traits::Zero::is_zero` for `BigInt`.
#[verifier::external_body]
pub(crate) fn big_is_zero(a: &BigInt) -> (r: bool)
    ensures
        r <==> big_value(*a) == 0,
{
    num_traits::Zero::is_zero(a)
}

/// Relies on `num_traits::Signed::is_negative` for `BigInt`.
#[verifier::external_body]
pub(crate) fn big_is_negative(a: &BigInt) -> (r: bool)
    ensures
        r <==> big_value(*a) < 0,
{
    num_traits::Signed::is_negative(a)
}

/// Relies on `PartialOrd for BigInt`: the order of the integers stood for.
#[verifier::external_body]
pub(crate) fn big_lt(a: &BigInt, b: &BigInt) -> (r: bool)
    ensures
        r <==> big_value(*a) < big_value(*b),
{
    a < b
}

/// Relies on `BigInt::bits`: the fewest bits that express the magnitude,
/// not counting the sign.
#[verifier::external_body]
pub(crate) fn big_bits(a: &BigInt) -> (r: u64)
    requires
        big_value(*a) >= 0,
    ensures
        big_value(*a) == 0 ==> r == 0,
        big_value(*a) > 0 ==> r >= 1 && pow2((r - 1) as nat) <= big_value(*a) < pow2(r as nat),
{
    a.bits()
}

/// Relies on `Shr<u64> for &BigInt`: for a non-negative value, a right shift
/// by `t` is floor division by 2^t.
#[verifier::external_body]
pub(crate) fn big_shr(a: &BigInt, t: u64) -> (r: BigInt)
    requires
        big_value(*a) >= 0,
    ensures
        big_value(r) == big_value(*a) / (pow2(t as nat) as int),
{
    a >> t
}

/// Relies on `num_traits::ToPrimitive::to_i64` for `BigInt`: returns the
/// value whenever it fits in an `i64`; the precondition rules out the
/// overflowing case, so the unwrap cannot fail.
#[verifier::external_body]
pub(crate) fn big_to_i64(a: &BigInt) -> (r: i64)
    requires
        i64::MIN <= big_value(*a) <= i64::MAX,
    ensures
        r as int == big_value(*a),
{
    num_traits::ToPrimitive::to_i64(a).unwrap()
}

/// Relies on `num_integer::Integer::div_floor` for `BigInt`: floor division,
/// which for a positive divisor agrees with Euclidean division.
#[verifier::external_body]
pub(crate) fn big_div_floor(a: &BigInt, b: &BigInt) -> (r: BigInt)
    requires
        big_value(*b) > 0,
    ensures
        big_value(r) == big_value(*a) / big_value(*b),
{
    num_integer::Integer::div_floor(a, b)
}

} // verus!
