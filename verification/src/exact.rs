//! Whole numbers of any size, held by `num_bigint::BigInt`.
//!
//! The numbers of a heat matrix span more than two hundred binary places.
//! Exact arithmetic on them needs whole numbers of that size. Verus does
//! not look inside a `BigInt`; what it knows of one is its value, and what
//! the functions below state about the `num_bigint` calls they make.

use vstd::prelude::*;
use vstd::arithmetic::power2::{lemma_pow2_unfold, pow2};

verus! {

/// `num_bigint::BigInt`, a whole number of any size.
#[verifier::external_type_specification]
#[verifier::external_body]
pub struct ExBigInt(num_bigint::BigInt);

/// The whole number that a `BigInt` holds.
pub uninterp spec fn big_value(x: num_bigint::BigInt) -> int;

/// `BigInt::from` on an `i128`: the same number.
#[verifier::external_body]
pub(crate) fn big_from(v: i128) -> (r: num_bigint::BigInt)
    ensures
        big_value(r) == v,
{
    num_bigint::BigInt::from(v)
}

/// `<<` on a `BigInt`: the number times two to the power of `k`.
#[verifier::external_body]
pub(crate) fn big_shl(a: &num_bigint::BigInt, k: u32) -> (r: num_bigint::BigInt)
    ensures
        big_value(r) == big_value(*a) * pow2(k as nat),
{
    a << k
}

/// `+` on two `BigInt`: their sum.
#[verifier::external_body]
pub(crate) fn big_add(a: &num_bigint::BigInt, b: &num_bigint::BigInt) -> (r: num_bigint::BigInt)
    ensures
        big_value(r) == big_value(*a) + big_value(*b),
{
    a + b
}

/// `-` on two `BigInt`: their difference.
#[verifier::external_body]
pub(crate) fn big_sub(a: &num_bigint::BigInt, b: &num_bigint::BigInt) -> (r: num_bigint::BigInt)
    ensures
        big_value(r) == big_value(*a) - big_value(*b),
{
    a - b
}

/// `*` on two `BigInt`: their product.
#[verifier::external_body]
pub(crate) fn big_mul(a: &num_bigint::BigInt, b: &num_bigint::BigInt) -> (r: num_bigint::BigInt)
    ensures
        big_value(r) == big_value(*a) * big_value(*b),
{
    a * b
}

/// `/` on two `BigInt`, the first not negative and the second positive:
/// their quotient, rounded down. The operator panics on a divisor of zero
/// and rounds toward zero, which for these operands is down.
#[verifier::external_body]
pub(crate) fn big_div(a: &num_bigint::BigInt, b: &num_bigint::BigInt) -> (r: num_bigint::BigInt)
    requires
        big_value(*a) >= 0,
        big_value(*b) > 0,
    ensures
        big_value(r) == big_value(*a) / big_value(*b),
{
    a / b
}

/// `BigInt::sqrt` on a number that is not negative: its square root,
/// rounded down. The method panics on a negative number.
#[verifier::external_body]
pub(crate) fn big_sqrt(a: &num_bigint::BigInt) -> (r: num_bigint::BigInt)
    requires
        big_value(*a) >= 0,
    ensures
        big_value(r) >= 0,
        big_value(r) * big_value(r) <= big_value(*a),
        big_value(*a) < (big_value(r) + 1) * (big_value(r) + 1),
{
    a.sqrt()
}

/// `<` on two `BigInt`: whether the first number is less than the second.
#[verifier::external_body]
pub(crate) fn big_lt(a: &num_bigint::BigInt, b: &num_bigint::BigInt) -> (r: bool)
    ensures
        r == (big_value(*a) < big_value(*b)),
{
    a < b
}

/// `i128::try_from` on a `BigInt`: the number, where an `i128` holds it.
#[verifier::external_body]
pub(crate) fn big_to_i128(a: &num_bigint::BigInt) -> (r: Option<i128>)
    ensures
        r is Some <==> i128::MIN <= big_value(*a) <= i128::MAX,
        r matches Some(v) ==> v == big_value(*a),
{
    i128::try_from(a).ok()
}

/// The number of binary digits of a number that is not negative: the
/// fewest bits that hold it.
pub open spec fn bit_length(x: int) -> int
    decreases x,
{
    if x <= 0 {
        0
    } else {
        1 + bit_length(x / 2)
    }
}

/// A positive number lies between the powers of two that its length in
/// bits names.
pub proof fn lemma_bit_length(x: int)
    requires
        x > 0,
    ensures
        bit_length(x) >= 1,
        pow2((bit_length(x) - 1) as nat) <= x < pow2(bit_length(x) as nat),
    decreases x,
{
    let h = x / 2;
    vstd::arithmetic::power2::lemma2_to64();
    if h == 0 {
        assert(x == 1);
        assert(bit_length(h) == 0);
    } else {
        lemma_bit_length(h);
        let b = bit_length(h);
        lemma_pow2_unfold(b as nat);
        lemma_pow2_unfold((b + 1) as nat);
    }
}

/// `BigInt::bits` on a number that is not negative: the fewest bits that
/// hold it.
#[verifier::external_body]
pub(crate) fn big_bits(a: &num_bigint::BigInt) -> (r: u64)
    requires
        big_value(*a) >= 0,
    ensures
        r == bit_length(big_value(*a)),
{
    a.bits()
}

} // verus!
