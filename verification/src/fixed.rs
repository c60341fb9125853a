//! Fixed-point samples.
//!
//! A sample is an `i32` that stands for the real number `raw / 65536`:
//! sixteen integer bits and sixteen fractional bits. All arithmetic on
//! samples is exact integer arithmetic with a documented rounding.

use vstd::prelude::*;

verus! {

/// The sample that stands for the real number one.
pub const ONE: i32 = 65536;

/// `value` limited to the unit interval `[0, ONE]`.
pub open spec fn clamp_unit(value: int) -> int {
    if value < 0 {
        0
    } else if value > ONE as int {
        ONE as int
    } else {
        value
    }
}

/// Limits a sample to the unit interval.
pub fn clamp_to_unit(value: i32) -> (r: i32)
    ensures
        r == clamp_unit(value as int),
        0 <= r <= ONE,
{
    if value < 0 {
        0
    } else if value > ONE {
        ONE
    } else {
        value
    }
}

/// The point `num / den` of the way from `from` to `to`, rounded down.
pub open spec fn ramp(from: int, to: int, num: int, den: int) -> int {
    (from * den + (to - from) * num) / den
}

/// For a fraction in `[0, 1]` the ramp stays between its end points.
pub proof fn lemma_ramp_bounds(from: int, to: int, num: int, den: int)
    requires
        0 <= from <= 255,
        0 <= to <= 255,
        0 <= num <= den,
        0 < den,
    ensures
        0 <= from * den + (to - from) * num <= 255 * den,
        0 <= ramp(from, to, num, den) <= 255,
        from <= to ==> from <= ramp(from, to, num, den) <= to,
        to <= from ==> to <= ramp(from, to, num, den) <= from,
{
    let n = from * den + (to - from) * num;
    assert(n == from * (den - num) + to * num) by (nonlinear_arith)
        requires
            n == from * den + (to - from) * num,
    ;
    assert(0 <= from * (den - num) <= 255 * (den - num)) by (nonlinear_arith)
        requires
            0 <= from <= 255,
            0 <= den - num,
    ;
    assert(0 <= to * num <= 255 * num) by (nonlinear_arith)
        requires
            0 <= to <= 255,
            0 <= num,
    ;
    assert(0 <= n <= 255 * den);
    let lo = if from <= to { from } else { to };
    let hi = if from <= to { to } else { from };
    assert(lo * den <= n <= hi * den) by (nonlinear_arith)
        requires
            n == from * (den - num) + to * num,
            0 <= num <= den,
            lo <= from <= hi,
            lo <= to <= hi,
    ;
    assert(lo <= n / den <= hi) by (nonlinear_arith)
        requires
            lo * den <= n <= hi * den,
            0 < den,
    ;
}

/// Two numerators that lie no more than one divisor apart have quotients
/// that lie no more than one apart.
pub proof fn lemma_div_close(a: int, b: int, d: int)
    requires
        d > 0,
        -d <= b - a <= d,
    ensures
        -1 <= b / d - a / d <= 1,
{
    vstd::arithmetic::div_mod::lemma_fundamental_div_mod(a, d);
    vstd::arithmetic::div_mod::lemma_fundamental_div_mod(b, d);
    vstd::arithmetic::div_mod::lemma_mod_bound(a, d);
    vstd::arithmetic::div_mod::lemma_mod_bound(b, d);
    let k = b / d - a / d;
    assert(d * (b / d) - d * (a / d) == d * k) by (nonlinear_arith)
        requires
            k == b / d - a / d,
    ;
    assert(-2 * d < d * k < 2 * d);
    assert(-1 <= k <= 1) by (nonlinear_arith)
        requires
            d > 0,
            -2 * d < d * k < 2 * d,
    ;
}

/// A numerator less than one divisor away from `q * d` has quotient `q`
/// or `q - 1`.
pub proof fn lemma_div_near(n: int, q: int, d: int)
    requires
        d > 0,
        q * d - d < n < q * d + d,
    ensures
        q - 1 <= n / d <= q,
{
    vstd::arithmetic::div_mod::lemma_fundamental_div_mod(n, d);
    vstd::arithmetic::div_mod::lemma_mod_bound(n, d);
    let k = n / d - q;
    assert(d * (n / d) - q * d == d * k) by (nonlinear_arith)
        requires
            k == n / d - q,
    ;
    assert(-2 * d < d * k < d);
    assert(-1 <= k <= 0) by (nonlinear_arith)
        requires
            d > 0,
            -2 * d < d * k < d,
    ;
}

/// Computes a ramp between two channel values.
pub fn ramp_channel(from: u8, to: u8, num: i64, den: i64) -> (r: u8)
    requires
        0 <= num <= den,
        0 < den <= 0x1_0000_0000,
    ensures
        r == ramp(from as int, to as int, num as int, den as int),
{
    proof {
        lemma_ramp_bounds(from as int, to as int, num as int, den as int);
        assert(-255 * den <= (to as int - from as int) * num <= 255 * den) by (nonlinear_arith)
            requires
                -255 <= to as int - from as int <= 255,
                0 <= num <= den,
        ;
        assert(0 <= from as int * den <= 255 * den) by (nonlinear_arith)
            requires
                0 <= from as int <= 255,
                0 < den,
        ;
    }
    let f: i64 = from as i64;
    let t: i64 = to as i64;
    let total: i64 = f * den + (t - f) * num;
    let q: i64 = total / den;
    q as u8
}

} // verus!
