//! Binary floating-point numbers, given by their IEEE 754 bit patterns.
//!
//! A cell of a heat matrix holds the bit pattern of a single-precision
//! number. The value of such a number is a whole number of units of
//! `2^-149`. Its sample is its value times 65536, rounded toward zero and
//! limited to what an `i32` holds; a NaN has the sample zero.

use vstd::prelude::*;
use crate::exact::{big_from, big_shl, big_sub, big_value};
use vstd::arithmetic::power2::{
    lemma_pow2_adds, lemma_pow2_pos, lemma_pow2_strictly_increases, lemma_pow2_unfold, pow2,
};

verus! {

/// `m * 2^k`, rounded down.
pub open spec fn scaled(m: int, k: int) -> int {
    if k >= 0 {
        m * pow2(k as nat)
    } else {
        m / (pow2((-k) as nat) as int)
    }
}

/// The sample with the given sign and magnitude, limited to what an `i32`
/// holds.
pub open spec fn saturated(negative: bool, magnitude: int) -> int {
    if negative {
        if magnitude >= 0x8000_0000 {
            i32::MIN as int
        } else {
            -magnitude
        }
    } else {
        if magnitude > i32::MAX {
            i32::MAX as int
        } else {
            magnitude
        }
    }
}

/// The sample of a single-precision number given by its bit pattern.
pub open spec fn single_sample(bits: u32) -> int {
    let exponent = (bits as int / 0x80_0000) % 256;
    let fraction = bits as int % 0x80_0000;
    let negative = bits >= 0x8000_0000u32;
    if exponent == 255 {
        if fraction != 0 {
            0
        } else {
            saturated(negative, 0x8000_0000)
        }
    } else if exponent == 0 {
        saturated(negative, scaled(fraction, -133))
    } else {
        saturated(negative, scaled(fraction + 0x80_0000, exponent - 134))
    }
}

/// Computes a power of two.
fn power_of_two(k: u32) -> (p: u128)
    requires
        k <= 100,
    ensures
        p == pow2(k as nat),
        p >= 1,
{
    let mut p: u128 = 1;
    let mut i: u32 = 0;
    proof {
        vstd::arithmetic::power2::lemma2_to64();
    }
    while i < k
        invariant
            i <= k <= 100,
            p == pow2(i as nat),
            p >= 1,
        decreases k - i,
    {
        proof {
            lemma_pow2_unfold((i + 1) as nat);
            lemma_pow2_strictly_increases((i + 1) as nat, 101);
            lemma_pow2_101();
        }
        p = p * 2;
        i += 1;
    }
    p
}

proof fn lemma_pow2_101()
    ensures
        pow2(101) == 0x20_0000_0000_0000_0000_0000_0000u128,
{
    vstd::arithmetic::power2::lemma2_to64();
    vstd::arithmetic::power2::lemma_pow2_adds(64, 37);
    vstd::arithmetic::power2::lemma_pow2_adds(32, 5);
    assert(pow2(37) == 0x20_0000_0000) by {
        assert(pow2(32) == 0x1_0000_0000);
        assert(pow2(5) == 32);
        assert(pow2(37) == pow2(32) * pow2(5));
        assert(0x1_0000_0000int * 32 == 0x20_0000_0000);
    }
    assert(pow2(64) == 0x1_0000_0000_0000_0000);
    assert(0x1_0000_0000_0000_0000int * 0x20_0000_0000 == 0x20_0000_0000_0000_0000_0000_0000)
        by (nonlinear_arith);
}

/// Computes `scaled(m, k)`, limited to `2^31`.
fn scaled_capped(m: u64, k: i32) -> (r: u64)
    requires
        -2000 <= k <= 2000,
    ensures
        r == if scaled(m as int, k as int) >= 0x8000_0000 {
            0x8000_0000
        } else {
            scaled(m as int, k as int)
        },
{
    if k >= 0 {
        if m == 0 {
            assert(0 * pow2(k as nat) == 0) by (nonlinear_arith);
            0
        } else if k >= 32 {
            proof {
                vstd::arithmetic::power2::lemma2_to64();
                if k > 32 {
                    lemma_pow2_strictly_increases(32, k as nat);
                }
                assert(m * pow2(k as nat) >= 0x8000_0000) by (nonlinear_arith)
                    requires
                        m >= 1,
                        pow2(k as nat) >= 0x1_0000_0000,
                ;
            }
            0x8000_0000
        } else {
            let p: u128 = power_of_two(k as u32);
            proof {
                vstd::arithmetic::power2::lemma2_to64();
                if k < 32 {
                    lemma_pow2_strictly_increases(k as nat, 32);
                }
                assert((m as int) * (p as int) <= 0xffff_ffff_ffff_ffff * 0x1_0000_0000)
                    by (nonlinear_arith)
                    requires
                        0 <= m <= 0xffff_ffff_ffff_ffff,
                        0 <= p <= 0x1_0000_0000,
                ;
            }
            let product: u128 = (m as u128) * p;
            if product >= 0x8000_0000 {
                0x8000_0000
            } else {
                product as u64
            }
        }
    } else {
        let j: u32 = (-k) as u32;
        if j >= 64 {
            proof {
                vstd::arithmetic::power2::lemma2_to64();
                if j > 64 {
                    lemma_pow2_strictly_increases(64, j as nat);
                }
                let d = pow2(j as nat) as int;
                assert((m as int) / d == 0) by (nonlinear_arith)
                    requires
                        0 <= m < d,
                ;
            }
            0
        } else {
            let p: u128 = power_of_two(j);
            let q: u128 = (m as u128) / p;
            proof {
                assert(q <= m) by (nonlinear_arith)
                    requires
                        q == (m as int) / (p as int),
                        p >= 1,
                        m >= 0,
                ;
            }
            if q >= 0x8000_0000 {
                0x8000_0000
            } else {
                q as u64
            }
        }
    }
}

/// Gives a magnitude of at most `2^31` its sign and its limit.
pub(crate) fn with_sign(negative: bool, magnitude: u64) -> (r: i32)
    requires
        magnitude <= 0x8000_0000,
    ensures
        r == saturated(negative, magnitude as int),
{
    if negative {
        if magnitude >= 0x8000_0000 {
            i32::MIN
        } else {
            (-(magnitude as i64)) as i32
        }
    } else {
        if magnitude > 0x7fff_ffff {
            i32::MAX
        } else {
            magnitude as i32
        }
    }
}

/// Capping a magnitude at `2^31` does not change its sample.
pub proof fn lemma_saturated_cap(negative: bool, magnitude: int)
    ensures
        saturated(negative, magnitude) == saturated(
            negative,
            if magnitude >= 0x8000_0000 {
                0x8000_0000
            } else {
                magnitude
            },
        ),
{
}

/// A saturated magnitude is a sample. A magnitude that is negative counts
/// as it stands.
pub proof fn lemma_saturated_range(negative: bool, magnitude: int)
    requires
        magnitude >= 0,
    ensures
        i32::MIN <= saturated(negative, magnitude) <= i32::MAX,
{
}

/// Reads a single-precision number as a sample.
pub fn sample_from_single(bits: u32) -> (r: i32)
    ensures
        r == single_sample(bits),
{
    let exponent: u32 = (bits / 0x80_0000) % 256;
    let fraction: u32 = bits % 0x80_0000;
    let negative: bool = bits >= 0x8000_0000;
    if exponent == 255 {
        if fraction != 0 {
            0
        } else {
            with_sign(negative, 0x8000_0000)
        }
    } else if exponent == 0 {
        proof {
            lemma_saturated_cap(negative, scaled(fraction as int, -133));
        }
        with_sign(negative, scaled_capped(fraction as u64, -133))
    } else {
        proof {
            lemma_saturated_cap(negative, scaled(fraction + 0x80_0000, exponent - 134));
        }
        with_sign(negative, scaled_capped(fraction as u64 + 0x80_0000, exponent as i32 - 134))
    }
}

/// The bit pattern that a cell of a heat matrix holds: the cell, read as
/// an unsigned number of 32 bits.
pub open spec fn cell_bits(cell: i32) -> u32 {
    if cell >= 0 {
        cell as u32
    } else {
        (cell + 0x1_0000_0000) as u32
    }
}

/// The cell that holds a bit pattern.
pub open spec fn bits_cell(bits: u32) -> i32 {
    if bits < 0x8000_0000 {
        bits as i32
    } else {
        (bits - 0x1_0000_0000) as i32
    }
}

/// A cell holds its bit pattern without loss.
pub proof fn lemma_cell_holds_bits(bits: u32)
    ensures
        cell_bits(bits_cell(bits)) == bits,
{
}

/// Reads the bit pattern of a cell.
pub fn bits_of_cell(cell: i32) -> (r: u32)
    ensures
        r == cell_bits(cell),
        bits_cell(r) == cell,
{
    if cell >= 0 {
        cell as u32
    } else {
        (cell as i64 + 0x1_0000_0000) as u32
    }
}

/// Makes the cell of a bit pattern.
pub fn cell_of_bits(bits: u32) -> (r: i32)
    ensures
        r == bits_cell(bits),
        cell_bits(r) == bits,
{
    if bits < 0x8000_0000 {
        bits as i32
    } else {
        (bits as i64 - 0x1_0000_0000) as i32
    }
}

/// The magnitude of a single-precision number in units of `2^-149`, the
/// smallest step between such numbers: a whole number. An infinity counts
/// as `2^128`, a NaN as zero.
pub open spec fn single_magnitude(bits: u32) -> int {
    let exponent = (bits as int / 0x80_0000) % 256;
    let fraction = bits as int % 0x80_0000;
    if exponent == 255 {
        if fraction != 0 {
            0
        } else {
            pow2(277) as int
        }
    } else if exponent == 0 {
        fraction
    } else {
        (fraction + 0x80_0000) * pow2((exponent - 1) as nat)
    }
}

/// The value of a single-precision number in units of `2^-149`.
pub open spec fn single_units(bits: u32) -> int {
    if bits >= 0x8000_0000u32 {
        -single_magnitude(bits)
    } else {
        single_magnitude(bits)
    }
}

/// Computes the value of a single-precision number in units of `2^-149`.
pub(crate) fn units_of_single(bits: u32) -> (r: num_bigint::BigInt)
    ensures
        big_value(r) == single_units(bits),
{
    let exponent: u32 = (bits / 0x80_0000) % 256;
    let fraction: u32 = bits % 0x80_0000;
    let magnitude = if exponent == 255 {
        if fraction != 0 {
            big_from(0)
        } else {
            let one = big_from(1);
            let r = big_shl(&one, 277);
            assert(1 * pow2(277) == pow2(277));
            r
        }
    } else if exponent == 0 {
        big_from(fraction as i128)
    } else {
        let mantissa = big_from((fraction + 0x80_0000) as i128);
        big_shl(&mantissa, exponent - 1)
    };
    if bits >= 0x8000_0000 {
        let zero = big_from(0);
        big_sub(&zero, &magnitude)
    } else {
        magnitude
    }
}

/// `base`, or one more where what was cut off, `rest` of twice `half`, is
/// more than `half`, or is `half` and `base` is odd.
pub open spec fn round_to_even(base: int, rest: int, half: int) -> int {
    if rest > half || (rest == half && base % 2 == 1) {
        base + 1
    } else {
        base
    }
}

/// The single-precision number nearest to a double-precision number, a tie
/// going to the one with the even fraction, both given by their bit
/// patterns. A number beyond the range becomes an infinity, a NaN becomes
/// the quiet NaN of its sign.
pub open spec fn narrowed(bits: u64) -> u32 {
    let sign: int = if bits >= 0x8000_0000_0000_0000u64 {
        0x8000_0000
    } else {
        0
    };
    let exponent = (bits as int / 0x10_0000_0000_0000) % 2048;
    let fraction = bits as int % 0x10_0000_0000_0000;
    let magnitude: int = if exponent == 2047 {
        if fraction == 0 {
            0x7f80_0000
        } else {
            0x7fc0_0000
        }
    } else if exponent >= 1151 {
        0x7f80_0000
    } else if exponent >= 897 {
        round_to_even(
            (exponent - 896) * 0x80_0000 + fraction / 0x2000_0000,
            fraction % 0x2000_0000,
            0x1000_0000,
        )
    } else if exponent >= 872 {
        let mantissa = fraction + 0x10_0000_0000_0000;
        let cut = pow2((926 - exponent) as nat) as int;
        round_to_even(mantissa / cut, mantissa % cut, cut / 2)
    } else {
        0
    };
    (sign + magnitude) as u32
}

/// Narrows a double-precision number to single precision.
pub fn single_from_double(bits: u64) -> (r: u32)
    ensures
        r == narrowed(bits),
{
    let sign: u32 = if bits >= 0x8000_0000_0000_0000 {
        0x8000_0000
    } else {
        0
    };
    let exponent: u64 = (bits / 0x10_0000_0000_0000) % 2048;
    let fraction: u64 = bits % 0x10_0000_0000_0000;
    let magnitude: u32 = if exponent == 2047 {
        if fraction == 0 {
            0x7f80_0000
        } else {
            0x7fc0_0000
        }
    } else if exponent >= 1151 {
        0x7f80_0000
    } else if exponent >= 897 {
        let base: u64 = (exponent - 896) * 0x80_0000 + fraction / 0x2000_0000;
        let rest: u64 = fraction % 0x2000_0000;
        if rest > 0x1000_0000 || (rest == 0x1000_0000 && base % 2 == 1) {
            (base + 1) as u32
        } else {
            base as u32
        }
    } else if exponent >= 872 {
        let mantissa: u128 = (fraction + 0x10_0000_0000_0000) as u128;
        let cut: u128 = power_of_two((926 - exponent) as u32);
        proof {
            vstd::arithmetic::power2::lemma2_to64();
            lemma_pow2_strictly_increases(29, (926 - exponent) as nat);
            assert(pow2(29) == 0x2000_0000);
        }
        let base: u128 = mantissa / cut;
        let rest: u128 = mantissa % cut;
        let half: u128 = cut / 2;
        assert(base < 0x100_0000) by (nonlinear_arith)
            requires
                base == mantissa / cut,
                mantissa < 0x20_0000_0000_0000,
                cut > 0x2000_0000,
        ;
        if rest > half || (rest == half && base % 2 == 1) {
            (base + 1) as u32
        } else {
            base as u32
        }
    } else {
        0
    };
    sign + magnitude
}

/// The magnitude of a double-precision number in units of `2^-1074`, the
/// smallest step between such numbers: a whole number. An infinity counts
/// as `2^1024`, a NaN as zero.
pub open spec fn double_magnitude(bits: u64) -> int {
    let exponent = (bits as int / 0x10_0000_0000_0000) % 2048;
    let fraction = bits as int % 0x10_0000_0000_0000;
    if exponent == 2047 {
        if fraction != 0 {
            0
        } else {
            pow2(2098) as int
        }
    } else if exponent == 0 {
        fraction
    } else {
        (fraction + 0x10_0000_0000_0000) * pow2((exponent - 1) as nat)
    }
}

/// Narrowing gives the nearest single-precision number: inside the range
/// of the numbers with a full fraction, where no infinity comes of it, the
/// narrowed number differs from the double-precision number by no more
/// than half the step between single-precision numbers at its exponent.
/// In units of `2^-1074` a unit of `2^-149` is `2^925`, and that step is
/// `2^29` steps of the double-precision number.
pub proof fn lemma_narrowed_is_near(bits: u64)
    requires
        897 <= (bits as int / 0x10_0000_0000_0000) % 2048 <= 1150,
        narrowed(bits) % 0x8000_0000 < 0x7f80_0000,
    ensures
        ({
            let exponent = (bits as int / 0x10_0000_0000_0000) % 2048;
            let half = 0x1000_0000 * pow2((exponent - 1) as nat);
            let read = single_magnitude(narrowed(bits)) * pow2(925);
            -half <= read - double_magnitude(bits) <= half
        }),
        narrowed(bits) >= 0x8000_0000u32 <==> bits >= 0x8000_0000_0000_0000u64,
{
    let exponent = (bits as int / 0x10_0000_0000_0000) % 2048;
    let fraction = bits as int % 0x10_0000_0000_0000;
    let base = (exponent - 896) * 0x80_0000 + fraction / 0x2000_0000;
    let rest = fraction % 0x2000_0000;
    let kept = fraction / 0x2000_0000;
    let rounded = round_to_even(base, rest, 0x1000_0000);
    let r = rounded - (exponent - 896) * 0x80_0000;
    assert(0 <= kept < 0x80_0000);
    assert(r == kept || r == kept + 1);
    let sign: int = if bits >= 0x8000_0000_0000_0000u64 {
        0x8000_0000
    } else {
        0
    };
    let pattern = narrowed(bits);
    assert(pattern == sign + rounded);
    assert(pattern as int % 0x8000_0000 == rounded);
    let p = pow2((exponent - 1) as nat) as int;
    let low = pow2((exponent - 897) as nat) as int;
    lemma2_to64_facts();
    lemma_pow2_pos((exponent - 1) as nat);
    lemma_pow2_adds((exponent - 897) as nat, 925);
    lemma_pow2_adds(29, (exponent - 1) as nat);
    assert(pow2((exponent + 28) as nat) == 0x2000_0000 * p);
    // What the pattern stands for.
    assert(single_magnitude(pattern) == (r + 0x80_0000) * low) by {
        let e32 = (pattern as int / 0x80_0000) % 256;
        let f32_ = pattern as int % 0x80_0000;
        if r < 0x80_0000 {
            assert(e32 == exponent - 896);
            assert(f32_ == r);
        } else {
            assert(e32 == exponent - 895);
            assert(f32_ == 0);
            lemma_pow2_unfold((exponent - 896) as nat);
            assert(0x80_0000 * (2 * low) == (0x80_0000 + 0x80_0000) * low) by (nonlinear_arith);
        }
    }
    let read = single_magnitude(pattern) * pow2(925);
    assert(read == (r + 0x80_0000) * (0x2000_0000 * p)) by (nonlinear_arith)
        requires
            read == ((r + 0x80_0000) * low) * pow2(925),
            low * pow2(925) == 0x2000_0000 * p,
    ;
    let written = (fraction + 0x10_0000_0000_0000) * p;
    assert(double_magnitude(bits) == written);
    assert(fraction == 0x2000_0000 * kept + rest);
    assert(read - written == (r * 0x2000_0000 - fraction) * p) by (nonlinear_arith)
        requires
            read == (r + 0x80_0000) * (0x2000_0000 * p),
            written == (fraction + 0x10_0000_0000_0000) * p,
    ;
    let d = r * 0x2000_0000 - fraction;
    assert(-0x1000_0000 <= d <= 0x1000_0000);
    assert(-(0x1000_0000 * p) <= d * p <= 0x1000_0000 * p) by (nonlinear_arith)
        requires
            -0x1000_0000 <= d <= 0x1000_0000,
            p > 0,
    ;
}

proof fn lemma2_to64_facts()
    ensures
        pow2(29) == 0x2000_0000,
        pow2(23) == 0x80_0000,
{
    vstd::arithmetic::power2::lemma2_to64();
}

} // verus!
