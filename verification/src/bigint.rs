//! Arbitrary-precision integers. The arithmetic is that of `num_bigint`; this
//! module gives each operation that the library uses a contract over the
//! mathematical integer that a `BigInt` stands for.

use num_bigint::BigInt;
use num_integer::Integer;
use num_traits::ToPrimitive;
use vstd::prelude::*;

verus! {

/// `num_bigint::BigInt`, of which only the integer it stands for is known.
#[verifier::external_type_specification]
#[verifier::external_body]
pub struct ExBigInt(BigInt);

/// The mathematical integer that a `BigInt` stands for.
pub uninterp spec fn big_value(n: BigInt) -> int;

/// `BigInt::from` on an `i64`: the result stands for `v`.
#[verifier::external_body]
pub(crate) fn big_from_i64(v: i64) -> (r: BigInt)
    ensures
        big_value(r) == v,
{
    BigInt::from(v)
}

/// `BigInt::from` on a `usize`: the result stands for `v`.
#[verifier::external_body]
pub(crate) fn big_from_usize(v: usize) -> (r: BigInt)
    ensures
        big_value(r) == v,
{
    BigInt::from(v)
}

/// `BigInt::clone`: the copy stands for the same integer.
pub assume_specification[ <BigInt as Clone>::clone ](n: &BigInt) -> (r: BigInt)
    ensures
        big_value(r) == big_value(*n),
;

/// `&BigInt + &BigInt`: the sum.
#[verifier::external_body]
pub(crate) fn big_add(a: &BigInt, b: &BigInt) -> (r: BigInt)
    ensures
        big_value(r) == big_value(*a) + big_value(*b),
{
    a + b
}

/// `&BigInt - &BigInt`: the difference.
#[verifier::external_body]
pub(crate) fn big_sub(a: &BigInt, b: &BigInt) -> (r: BigInt)
    ensures
        big_value(r) == big_value(*a) - big_value(*b),
{
    a - b
}

/// `&BigInt * &BigInt`: the product.
#[verifier::external_body]
pub(crate) fn big_mul(a: &BigInt, b: &BigInt) -> (r: BigInt)
    ensures
        big_value(r) == big_value(*a) * big_value(*b),
{
    a * b
}

/// `Integer::div_floor` on `BigInt`: the quotient rounded toward negative
/// infinity. The divisor must not be zero.
#[verifier::external_body]
pub(crate) fn big_div_floor(a: &BigInt, b: &BigInt) -> (r: BigInt)
    requires
        big_value(*b) != 0,
    ensures
        big_value(r) == floor_div(big_value(*a), big_value(*b)),
{
    a.div_floor(b)
}

/// `Integer::mod_floor` on `BigInt`: the remainder that goes with the floored
/// quotient, which has the sign of the divisor. The divisor must not be zero.
#[verifier::external_body]
pub(crate) fn big_mod_floor(a: &BigInt, b: &BigInt) -> (r: BigInt)
    requires
        big_value(*b) != 0,
    ensures
        big_value(r) == floor_mod(big_value(*a), big_value(*b)),
{
    a.mod_floor(b)
}

/// `BigInt::sqrt`: the largest integer whose square does not exceed `n`.
/// `n` must not be negative.
#[verifier::external_body]
pub(crate) fn big_sqrt(n: &BigInt) -> (r: BigInt)
    requires
        big_value(*n) >= 0,
    ensures
        big_value(r) >= 0,
        big_value(r) * big_value(r) <= big_value(*n),
        big_value(*n) < (big_value(r) + 1) * (big_value(r) + 1),
{
    n.sqrt()
}

/// `ToPrimitive::to_u8` on `BigInt`: the value, when it fits in a `u8`.
#[verifier::external_body]
pub(crate) fn big_to_u8(n: &BigInt) -> (r: Option<u8>)
    ensures
        r.is_some() <==> 0 <= big_value(*n) <= u8::MAX,
        r.is_some() ==> r.unwrap() == big_value(*n),
{
    n.to_u8()
}

/// `ToPrimitive::to_u32` on `BigInt`: the value, when it fits in a `u32`.
#[verifier::external_body]
pub(crate) fn big_to_u32(n: &BigInt) -> (r: Option<u32>)
    ensures
        r.is_some() <==> 0 <= big_value(*n) <= u32::MAX,
        r.is_some() ==> r.unwrap() == big_value(*n),
{
    n.to_u32()
}

/// `ToPrimitive::to_usize` on `BigInt`: the value, when it fits in a `usize`.
#[verifier::external_body]
pub(crate) fn big_to_usize(n: &BigInt) -> (r: Option<usize>)
    ensures
        r.is_some() <==> 0 <= big_value(*n) <= usize::MAX,
        r.is_some() ==> r.unwrap() == big_value(*n),
{
    n.to_usize()
}

/// `BigInt::eq`: whether both stand for the same integer.
#[verifier::external_body]
pub(crate) fn big_eq(a: &BigInt, b: &BigInt) -> (r: bool)
    ensures
        r == (big_value(*a) == big_value(*b)),
{
    a == b
}

/// `BigInt::lt`: whether `a` is below `b`.
#[verifier::external_body]
pub(crate) fn big_lt(a: &BigInt, b: &BigInt) -> (r: bool)
    ensures
        r == (big_value(*a) < big_value(*b)),
{
    a < b
}

/// The quotient of `a` by `b` rounded toward negative infinity.
pub open spec fn floor_div(a: int, b: int) -> int
    recommends
        b != 0,
{
    if b > 0 {
        a / b
    } else {
        (-a) / (-b)
    }
}

/// The remainder of `a` by `b` that goes with `floor_div`: zero or of the
/// sign of `b`.
pub open spec fn floor_mod(a: int, b: int) -> int
    recommends
        b != 0,
{
    a - b * floor_div(a, b)
}

/// For a positive divisor the floored quotient and remainder are the
/// Euclidean ones.
pub proof fn lemma_floor_positive(a: int, b: int)
    requires
        b > 0,
    ensures
        floor_div(a, b) == a / b,
        floor_mod(a, b) == a % b,
        0 <= a % b < b,
{
    vstd::arithmetic::div_mod::lemma_fundamental_div_mod(a, b);
    vstd::arithmetic::div_mod::lemma_mod_bound(a, b);
}

} // verus!
