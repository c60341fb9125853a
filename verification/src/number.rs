//! Reading decimal numbers as single-precision numbers.
//!
//! A number is written as an optional sign, digits with an optional
//! decimal point among them, and an optional exponent behind the letter
//! `e`; or as an optional sign and one of the words `inf`, `infinity` and
//! `nan`, in any case. These are the texts that the standard library reads
//! as floating-point numbers. What is read is the bit pattern of the
//! single-precision number nearest to the number written, a tie going to
//! the one with the even fraction; the arithmetic is exact.

use vstd::prelude::*;
use vstd::arithmetic::power2::{lemma_pow2_adds, lemma_pow2_pos, pow2};
use vstd::string::StrSliceExecFns;
use crate::exact::{
    big_add, big_bits, big_div, big_from, big_lt, big_mul, big_shl, big_sub, big_to_i128,
    big_value, bit_length, lemma_bit_length,
};
use crate::ieee::single_magnitude;
use crate::text::{lower, lower_char, lowered};

verus! {

/// Whether a character is a decimal digit.
pub open spec fn is_digit(c: char) -> bool {
    '0' <= c && c <= '9'
}

/// The number that a decimal digit stands for.
pub open spec fn digit_value(c: char) -> int {
    c as int - 48
}

/// Where the run of digits that begins at `from` ends.
pub open spec fn digits_end(s: Seq<char>, from: int) -> int
    decreases s.len() - from,
{
    if 0 <= from < s.len() && is_digit(s[from]) {
        digits_end(s, from + 1)
    } else {
        from
    }
}

/// The number that a run of digits stands for.
pub open spec fn digits_value(s: Seq<char>) -> int
    decreases s.len(),
{
    if s.len() == 0 {
        0
    } else {
        10 * digits_value(s.drop_last()) + digit_value(s.last())
    }
}

/// Ten to the power of `k`.
pub open spec fn pow10(k: nat) -> int
    decreases k,
{
    if k == 0 {
        1
    } else {
        10 * pow10((k - 1) as nat)
    }
}

/// A decimal number taken apart: its sign, the digits of its mantissa
/// without the decimal point, the number of those digits that stand before
/// the decimal point, and its exponent.
pub struct Decimal {
    pub negative: bool,
    pub digits: Seq<char>,
    pub point: int,
    pub exponent: int,
}

/// What a text stands for as a number.
pub enum Literal {
    NotANumber,
    Infinite { negative: bool },
    Finite(Decimal),
}

/// Whether a text begins with a sign.
pub open spec fn has_sign(s: Seq<char>) -> bool {
    s.len() > 0 && (s[0] == '+' || s[0] == '-')
}

/// The exponent that is written from `at` on: zero where the text ends
/// there, else the number behind the letter `e` with its sign. `None`
/// where something else is written there.
pub open spec fn exponent_of(s: Seq<char>, at: int) -> Option<int> {
    if at == s.len() {
        Some(0)
    } else if s[at] == 'e' || s[at] == 'E' {
        let signed = at + 1 < s.len() && (s[at + 1] == '+' || s[at + 1] == '-');
        let exp_start = if signed {
            at + 2
        } else {
            at + 1
        };
        let exp_end = digits_end(s, exp_start);
        if exp_end == s.len() && exp_end > exp_start {
            let size = digits_value(s.subrange(exp_start, exp_end));
            if signed && s[at + 1] == '-' {
                Some(-size)
            } else {
                Some(size)
            }
        } else {
            None
        }
    } else {
        None
    }
}

/// What a text stands for as a number, if it is one.
pub open spec fn literal_of(s: Seq<char>) -> Option<Literal> {
    let start: int = if has_sign(s) {
        1
    } else {
        0
    };
    let negative = s.len() > 0 && s[0] == '-';
    let word = lowered(s.subrange(start, s.len() as int));
    if word == lowered("inf"@) || word == lowered("infinity"@) {
        Some(Literal::Infinite { negative })
    } else if word == lowered("nan"@) {
        Some(Literal::NotANumber)
    } else {
        let int_end = digits_end(s, start);
        let frac_start = if int_end < s.len() && s[int_end] == '.' {
            int_end + 1
        } else {
            int_end
        };
        let frac_end = digits_end(s, frac_start);
        let digits = s.subrange(start, int_end) + s.subrange(frac_start, frac_end);
        let point = int_end - start;
        if digits.len() == 0 {
            None
        } else {
            match exponent_of(s, frac_end) {
                Some(exponent) => Some(
                    Literal::Finite(Decimal { negative, digits, point, exponent }),
                ),
                None => None,
            }
        }
    }
}

/// Whether `num / den` is at least two to the power of `e`.
pub open spec fn reaches(num: int, den: int, e: int) -> bool {
    if e >= 0 {
        den * pow2(e as nat) <= num
    } else {
        den <= num * pow2((-e) as nat)
    }
}

/// The binary exponent of `num / den`, both positive: the difference of
/// their lengths in bits, or one less where the quotient does not reach
/// two to that power.
pub open spec fn binary_exponent(num: int, den: int) -> int {
    let e = bit_length(num) - bit_length(den);
    if reaches(num, den, e) {
        e
    } else {
        e - 1
    }
}

/// The bit pattern of the positive single-precision number nearest to
/// `num / den`, both positive, a tie going to the even fraction. The
/// quotient is taken at the binary place of the last bit of the fraction,
/// rounded, and joined with the exponent. What comes to more than the bit
/// pattern of the infinity is the infinity; a quotient far below the range
/// is zero.
pub open spec fn nearest_single(num: int, den: int) -> int {
    let e = binary_exponent(num, den);
    if e > 127 {
        0x7f80_0000
    } else if e < -200 {
        0
    } else {
        let places = if e >= -126 {
            23 - e
        } else {
            149
        };
        let up = if places >= 0 {
            num * pow2(places as nat)
        } else {
            num
        };
        let down = if places >= 0 {
            den
        } else {
            den * pow2((-places) as nat)
        };
        joined_with(up, down, e)
    }
}

/// The bit pattern, without the sign, of the single-precision number
/// nearest to a decimal number. A number below `10^-60` is zero and one
/// from `10^61` on is infinite without further arithmetic.
pub open spec fn decimal_bits(d: Decimal) -> int {
    let value = digits_value(d.digits);
    let power = d.exponent - (d.digits.len() - d.point);
    if value == 0 {
        0
    } else if d.point + d.exponent < -60 {
        0
    } else if power > 60 {
        0x7f80_0000
    } else if power >= 0 {
        nearest_single(value * pow10(power as nat), 1)
    } else {
        nearest_single(value, pow10((-power) as nat))
    }
}

/// The bit pattern of what a text stands for.
pub open spec fn literal_bits(l: Literal) -> int {
    match l {
        Literal::NotANumber => 0x7fc0_0000,
        Literal::Infinite { negative } => (if negative {
            0x8000_0000int
        } else {
            0
        }) + 0x7f80_0000,
        Literal::Finite(d) => (if d.negative {
            0x8000_0000int
        } else {
            0
        }) + decimal_bits(d),
    }
}

/// The bit pattern of the single-precision number that a text stands
/// for, if the text is a number.
pub open spec fn number_bits(s: Seq<char>) -> Option<int> {
    match literal_of(s) {
        Some(l) => Some(literal_bits(l)),
        None => None,
    }
}

/// The characters of a text.
fn chars_of(text: &str) -> (r: Vec<char>)
    ensures
        r@ == text@,
{
    let n: usize = text.unicode_len();
    let mut out: Vec<char> = Vec::new();
    let mut i: usize = 0;
    while i < n
        invariant
            i <= n,
            n == text@.len(),
            out@ == text@.subrange(0, i as int),
        decreases n - i,
    {
        out.push(text.get_char(i));
        assert(out@ =~= text@.subrange(0, i as int + 1));
        i += 1;
    }
    assert(text@.subrange(0, n as int) =~= text@);
    out
}

/// Finds the end of a run of digits.
fn scan_digits(s: &Vec<char>, from: usize) -> (r: usize)
    requires
        from <= s@.len(),
    ensures
        r == digits_end(s@, from as int),
        from <= r <= s@.len(),
        forall|j: int| from <= j < r ==> is_digit(#[trigger] s@[j]),
{
    let mut i: usize = from;
    while i < s.len() && '0' <= s[i] && s[i] <= '9'
        invariant
            from <= i <= s@.len(),
            digits_end(s@, from as int) == digits_end(s@, i as int),
            forall|j: int| from <= j < i ==> is_digit(#[trigger] s@[j]),
        decreases s@.len() - i,
    {
        i += 1;
    }
    i
}

/// Whether the text from `from` on is the given word, whatever the case
/// of its letters.
fn is_word(s: &Vec<char>, from: usize, word: &str) -> (r: bool)
    requires
        from <= s@.len(),
    ensures
        r == (lowered(s@.subrange(from as int, s@.len() as int)) == lowered(word@)),
{
    let ghost rest = s@.subrange(from as int, s@.len() as int);
    let n: usize = word.unicode_len();
    let len: usize = s.len();
    if len - from != n {
        assert(lowered(rest).len() != lowered(word@).len());
        return false;
    }
    let mut i: usize = 0;
    while i < n
        invariant
            i <= n,
            n == word@.len(),
            from + n == len,
            len == s@.len(),
            rest == s@.subrange(from as int, s@.len() as int),
            forall|j: int| 0 <= j < i ==> lower(rest[j]) == lower(word@[j]),
        decreases n - i,
    {
        assert(rest[i as int] == s@[from + i]);
        if lower_char(s[from + i]) != lower_char(word.get_char(i)) {
            assert(lowered(rest)[i as int] != lowered(word@)[i as int]);
            return false;
        }
        i += 1;
    }
    assert(lowered(rest) =~= lowered(word@));
    true
}

const EXPONENT_CAP: i128 = 1_000_000_000_000_000_000_000_000_000_000;

proof fn lemma_digits_value_nonnegative(s: Seq<char>)
    requires
        forall|j: int| 0 <= j < s.len() ==> is_digit(#[trigger] s[j]),
    ensures
        0 <= digits_value(s),
    decreases s.len(),
{
    if s.len() > 0 {
        let t = s.drop_last();
        assert forall|j: int| 0 <= j < t.len() implies is_digit(#[trigger] t[j]) by {
            assert(t[j] == s[j]);
        }
        lemma_digits_value_nonnegative(t);
        assert(is_digit(s[s.len() - 1]));
    }
}

/// Computes the number that a run of digits stands for, as far as it is
/// below the cap.
fn capped_value(s: &Vec<char>, from: usize, to: usize) -> (r: i128)
    requires
        from <= to <= s@.len(),
        forall|j: int| from <= j < to ==> is_digit(#[trigger] s@[j]),
    ensures
        r == if digits_value(s@.subrange(from as int, to as int)) >= EXPONENT_CAP {
            EXPONENT_CAP as int
        } else {
            digits_value(s@.subrange(from as int, to as int))
        },
        0 <= r <= EXPONENT_CAP,
{
    let ghost run = s@.subrange(from as int, to as int);
    let mut value: i128 = 0;
    let mut i: usize = from;
    assert(run.subrange(0, 0) =~= Seq::<char>::empty());
    while i < to
        invariant
            from <= i <= to <= s@.len(),
            run == s@.subrange(from as int, to as int),
            forall|j: int| 0 <= j < run.len() ==> is_digit(#[trigger] run[j]),
            0 <= value <= EXPONENT_CAP,
            value == if digits_value(run.subrange(0, i - from)) >= EXPONENT_CAP {
                EXPONENT_CAP as int
            } else {
                digits_value(run.subrange(0, i - from))
            },
        decreases to - i,
    {
        let c: char = s[i];
        proof {
            let t = run.subrange(0, i - from + 1);
            assert(t.drop_last() =~= run.subrange(0, i - from));
            assert(t.last() == run[i - from]);
            assert(run[i - from] == s@[i as int]);
            assert(is_digit(run[i - from]));
            lemma_digits_value_nonnegative_prefix(run, i - from);
        }
        if value < EXPONENT_CAP {
            let d: i128 = (c as u8 - 48) as i128;
            value = value * 10 + d;
            if value > EXPONENT_CAP {
                value = EXPONENT_CAP;
            }
        }
        i += 1;
    }
    assert(run.subrange(0, to - from) =~= run);
    value
}

proof fn lemma_digits_value_nonnegative_prefix(s: Seq<char>, n: int)
    requires
        0 <= n <= s.len(),
        forall|j: int| 0 <= j < s.len() ==> is_digit(#[trigger] s[j]),
    ensures
        0 <= digits_value(s.subrange(0, n)),
{
    let t = s.subrange(0, n);
    assert forall|j: int| 0 <= j < t.len() implies is_digit(#[trigger] t[j]) by {
        assert(t[j] == s[j]);
    }
    lemma_digits_value_nonnegative(t);
}

/// The weighted sum from which on the magnitude is at least `2^31`.
/// Whether an exponent is the one that a size, told apart up to the cap,
/// and a sign stand for.
spec fn stands_for(size: int, negative: bool, exponent: int) -> bool {
    if size < EXPONENT_CAP {
        exponent == if negative {
            -size
        } else {
            size
        }
    } else if negative {
        exponent <= -EXPONENT_CAP
    } else {
        exponent >= EXPONENT_CAP
    }
}

/// Reads the exponent that is written from `at` on: its size, as far as
/// it is below the cap, and whether it is negative.
fn read_exponent(s: &Vec<char>, at: usize) -> (r: Option<(i128, bool)>)
    requires
        at <= s@.len(),
    ensures
        match exponent_of(s@, at as int) {
            Some(exponent) => r matches Some((size, negative)) && 0 <= size <= EXPONENT_CAP
                && stands_for(size as int, negative, exponent),
            None => r is None,
        },
{
    let n: usize = s.len();
    if at == n {
        return Some((0, false));
    }
    if !(s[at] == 'e' || s[at] == 'E') {
        return None;
    }
    let signed: bool = at + 1 < n && (s[at + 1] == '+' || s[at + 1] == '-');
    let exp_start: usize = if signed {
        at + 2
    } else {
        at + 1
    };
    let exp_end: usize = scan_digits(s, exp_start);
    if !(exp_end == n && exp_end > exp_start) {
        return None;
    }
    let size: i128 = capped_value(s, exp_start, exp_end);
    Some((size, signed && s[at + 1] == '-'))
}

/// Collects the digits of the mantissa that begins at `start`: those
/// before the decimal point, and those behind it. Returns them with the
/// place where the digits before the point end and the place where the
/// mantissa ends.
fn read_mantissa(s: &Vec<char>, start: usize) -> (r: (Vec<char>, usize, usize))
    requires
        start <= s@.len(),
    ensures
        r.1 == digits_end(s@, start as int),
        r.2 == digits_end(
            s@,
            if r.1 < s@.len() && s@[r.1 as int] == '.' {
                r.1 + 1
            } else {
                r.1 as int
            },
        ),
        start <= r.1 <= r.2 <= s@.len(),
        r.0@ == s@.subrange(start as int, r.1 as int) + s@.subrange(
            if r.1 < s@.len() && s@[r.1 as int] == '.' {
                r.1 + 1
            } else {
                r.1 as int
            },
            r.2 as int,
        ),
        forall|j: int| 0 <= j < r.0@.len() ==> is_digit(#[trigger] r.0@[j]),
{
    let n: usize = s.len();
    let int_end: usize = scan_digits(s, start);
    let frac_start: usize = if int_end < n && s[int_end] == '.' {
        int_end + 1
    } else {
        int_end
    };
    let frac_end: usize = scan_digits(s, frac_start);
    let mut digits: Vec<char> = Vec::new();
    let mut i: usize = start;
    while i < int_end
        invariant
            start <= i <= int_end <= s@.len(),
            forall|j: int| start <= j < int_end ==> is_digit(#[trigger] s@[j]),
            digits@ == s@.subrange(start as int, i as int),
        decreases int_end - i,
    {
        digits.push(s[i]);
        assert(digits@ =~= s@.subrange(start as int, i as int + 1));
        i += 1;
    }
    let mut i: usize = frac_start;
    while i < frac_end
        invariant
            frac_start <= i <= frac_end <= s@.len(),
            start <= int_end <= frac_start,
            forall|j: int| frac_start <= j < frac_end ==> is_digit(#[trigger] s@[j]),
            digits@ == s@.subrange(start as int, int_end as int) + s@.subrange(
                frac_start as int,
                i as int,
            ),
        decreases frac_end - i,
    {
        digits.push(s[i]);
        assert(digits@ =~= s@.subrange(start as int, int_end as int) + s@.subrange(
            frac_start as int,
            i as int + 1,
        ));
        i += 1;
    }
    assert forall|j: int| 0 <= j < digits@.len() implies is_digit(#[trigger] digits@[j]) by {
        if j < int_end - start {
            assert(digits@[j] == s@[start + j]);
        } else {
            assert(digits@[j] == s@[frac_start + (j - (int_end - start))]);
        }
    }
    (digits, int_end, frac_end)
}

/// Computes the number that a run of digits stands for.
fn big_digits(digits: &Vec<char>) -> (r: num_bigint::BigInt)
    requires
        forall|j: int| 0 <= j < digits@.len() ==> is_digit(#[trigger] digits@[j]),
    ensures
        big_value(r) == digits_value(digits@),
{
    let ten = big_from(10);
    let mut value = big_from(0);
    let mut i: usize = 0;
    assert(digits@.subrange(0, 0) =~= Seq::<char>::empty());
    while i < digits.len()
        invariant
            i <= digits@.len(),
            forall|j: int| 0 <= j < digits@.len() ==> is_digit(#[trigger] digits@[j]),
            big_value(ten) == 10,
            big_value(value) == digits_value(digits@.subrange(0, i as int)),
        decreases digits@.len() - i,
    {
        let c: char = digits[i];
        proof {
            let t = digits@.subrange(0, i as int + 1);
            assert(t.drop_last() =~= digits@.subrange(0, i as int));
            assert(t.last() == digits@[i as int]);
            assert(is_digit(digits@[i as int]));
        }
        let d = big_from((c as u8 - 48) as i128);
        let shifted = big_mul(&ten, &value);
        value = big_add(&shifted, &d);
        i += 1;
    }
    assert(digits@.subrange(0, i as int) =~= digits@);
    value
}

/// Computes a power of ten.
fn big_pow10(k: u128) -> (r: num_bigint::BigInt)
    ensures
        big_value(r) == pow10(k as nat),
        big_value(r) > 0,
{
    let ten = big_from(10);
    let mut power = big_from(1);
    let mut i: u128 = 0;
    while i < k
        invariant
            i <= k,
            big_value(ten) == 10,
            big_value(power) == pow10(i as nat),
            big_value(power) > 0,
        decreases k - i,
    {
        power = big_mul(&ten, &power);
        i += 1;
    }
    power
}

/// Whether `num / den` reaches two to the power of `e`.
fn reaches_power(num: &num_bigint::BigInt, den: &num_bigint::BigInt, e: i64) -> (r: bool)
    requires
        -300 <= e <= 300,
    ensures
        r == reaches(big_value(*num), big_value(*den), e as int),
{
    if e >= 0 {
        let scaled = big_shl(den, e as u32);
        !big_lt(num, &scaled)
    } else {
        let scaled = big_shl(num, (-e) as u32);
        !big_lt(&scaled, den)
    }
}

/// What the quotient of `up` by `down`, rounded to the nearest whole
/// number, a tie going to the even one, comes to with the exponent `e`.
pub open spec fn joined_with(up: int, down: int, e: int) -> int {
    let quotient = up / down;
    let rest = up - quotient * down;
    let rounded = if 2 * rest > down || (2 * rest == down && quotient % 2 == 1) {
        quotient + 1
    } else {
        quotient
    };
    let joined = if e >= -126 {
        (e + 126) * 0x80_0000 + rounded
    } else {
        rounded
    };
    if quotient > 0x200_0000 || joined > 0x7f80_0000 {
        0x7f80_0000
    } else {
        joined
    }
}

/// Rounds the quotient of `up` by `down` and joins it with the exponent.
fn round_and_join(up: &num_bigint::BigInt, down: &num_bigint::BigInt, e: i64) -> (r: u32)
    requires
        big_value(*up) > 0,
        big_value(*down) > 0,
        -200 <= e <= 127,
    ensures
        r == joined_with(big_value(*up), big_value(*down), e as int),
{
    let quotient = big_div(up, down);
    let product = big_mul(&quotient, down);
    let rest = big_sub(up, &product);
    let twice = big_add(&rest, &rest);
    assert(big_value(quotient) >= 0) by (nonlinear_arith)
        requires
            big_value(quotient) == big_value(*up) / big_value(*down),
            big_value(*up) > 0,
            big_value(*down) > 0,
    ;
    let low: i128 = match big_to_i128(&quotient) {
        Some(q) => q,
        None => {
            return 0x7f80_0000;
        },
    };
    if low > 0x200_0000 {
        return 0x7f80_0000;
    }
    let odd: bool = low % 2 == 1;
    let above: bool = big_lt(down, &twice);
    let tie: bool = !above && !big_lt(&twice, down);
    let rounded: i128 = if above || (tie && odd) {
        low + 1
    } else {
        low
    };
    let joined: i128 = if e >= -126 {
        (e as i128 + 126) * 0x80_0000 + rounded
    } else {
        rounded
    };
    if joined > 0x7f80_0000 {
        return 0x7f80_0000;
    }
    joined as u32
}

/// Rounds `num / den`, both positive, to the nearest single-precision
/// number.
fn round_to_single(num: &num_bigint::BigInt, den: &num_bigint::BigInt) -> (r: u32)
    requires
        big_value(*num) > 0,
        big_value(*den) > 0,
    ensures
        r == nearest_single(big_value(*num), big_value(*den)),
{
    let long: u64 = big_bits(num);
    let short: u64 = big_bits(den);
    let first: i128 = long as i128 - short as i128;
    if first > 250 {
        return 0x7f80_0000;
    }
    if first < -250 {
        return 0;
    }
    let e: i64 = if reaches_power(num, den, first as i64) {
        first as i64
    } else {
        first as i64 - 1
    };
    if e > 127 {
        return 0x7f80_0000;
    }
    if e < -200 {
        return 0;
    }
    let places: i64 = if e >= -126 {
        23 - e
    } else {
        149
    };
    if places >= 0 {
        let up = big_shl(num, places as u32);
        proof {
            vstd::arithmetic::power2::lemma_pow2_pos(places as nat);
            assert(big_value(up) > 0) by (nonlinear_arith)
                requires
                    big_value(up) == big_value(*num) * pow2(places as nat),
                    big_value(*num) > 0,
                    pow2(places as nat) > 0,
            ;
        }
        round_and_join(&up, den, e)
    } else {
        let down = big_shl(den, (-places) as u32);
        proof {
            vstd::arithmetic::power2::lemma_pow2_pos((-places) as nat);
            assert(big_value(down) > 0) by (nonlinear_arith)
                requires
                    big_value(down) == big_value(*den) * pow2((-places) as nat),
                    big_value(*den) > 0,
                    pow2((-places) as nat) > 0,
            ;
        }
        round_and_join(num, &down, e)
    }
}

/// Computes the bit pattern of a decimal number from its parts.
fn finite_bits(
    negative: bool,
    digits: &Vec<char>,
    point: usize,
    size: i128,
    exponent_negative: bool,
    Ghost(exponent): Ghost<int>,
) -> (r: u32)
    requires
        forall|j: int| 0 <= j < digits@.len() ==> is_digit(#[trigger] digits@[j]),
        point <= digits@.len(),
        0 <= size <= EXPONENT_CAP,
        stands_for(size as int, exponent_negative, exponent),
    ensures
        r == (if negative {
            0x8000_0000int
        } else {
            0
        }) + decimal_bits(Decimal { negative, digits: digits@, point: point as int, exponent }),
{
    let sign: u32 = if negative {
        0x8000_0000
    } else {
        0
    };
    let count: usize = digits.len();
    let value = big_digits(digits);
    let zero = big_from(0);
    proof {
        lemma_digits_value_nonnegative(digits@);
    }
    if !big_lt(&zero, &value) {
        return sign;
    }
    if size >= EXPONENT_CAP {
        if exponent_negative {
            return sign;
        } else {
            return sign + 0x7f80_0000;
        }
    }
    let signed: i128 = if exponent_negative {
        -size
    } else {
        size
    };
    let reach: i128 = point as i128 + signed;
    if reach < -60 {
        return sign;
    }
    let power: i128 = signed - (count as i128 - point as i128);
    if power > 60 {
        return sign + 0x7f80_0000;
    }
    let magnitude: u32 = if power >= 0 {
        let factor = big_pow10(power as u128);
        let num = big_mul(&value, &factor);
        let den = big_from(1);
        assert(big_value(num) > 0) by (nonlinear_arith)
            requires
                big_value(num) == big_value(value) * big_value(factor),
                big_value(value) > 0,
                big_value(factor) > 0,
        ;
        round_to_single(&num, &den)
    } else {
        let den = big_pow10((-power) as u128);
        round_to_single(&value, &den)
    };
    sign + magnitude
}

/// Reads a decimal number as the bit pattern of a single-precision
/// number. Fails where the text is no number.
pub fn parse_number(text: &str) -> (r: Option<u32>)
    ensures
        match number_bits(text@) {
            Some(bits) => r == Some(bits as u32) && 0 <= bits <= u32::MAX,
            None => r is None,
        },
{
    let s: Vec<char> = chars_of(text);
    let n: usize = s.len();
    let start: usize = if n > 0 && (s[0] == '+' || s[0] == '-') {
        1
    } else {
        0
    };
    let negative: bool = n > 0 && s[0] == '-';
    let sign: u32 = if negative {
        0x8000_0000
    } else {
        0
    };
    if is_word(&s, start, "inf") || is_word(&s, start, "infinity") {
        return Some(sign + 0x7f80_0000);
    }
    if is_word(&s, start, "nan") {
        return Some(0x7fc0_0000);
    }
    let (digits, int_end, frac_end) = read_mantissa(&s, start);
    if digits.len() == 0 {
        return None;
    }
    match read_exponent(&s, frac_end) {
        None => None,
        Some((size, exponent_negative)) => {
            let ghost exponent = exponent_of(s@, frac_end as int)->Some_0;
            Some(
                finite_bits(
                    negative,
                    &digits,
                    int_end - start,
                    size,
                    exponent_negative,
                    Ghost(exponent),
                ),
            )
        },
    }
}

/// The binary exponent is the right one: the quotient reaches two to its
/// power and does not reach two to the next.
pub proof fn lemma_binary_exponent(num: int, den: int)
    requires
        num > 0,
        den > 0,
    ensures
        reaches(num, den, binary_exponent(num, den)),
        !reaches(num, den, binary_exponent(num, den) + 1),
{
    let long = bit_length(num);
    let short = bit_length(den);
    let first = long - short;
    lemma_bit_length(num);
    lemma_bit_length(den);
    let num_low = pow2((long - 1) as nat) as int;
    let num_high = pow2(long as nat) as int;
    let den_low = pow2((short - 1) as nat) as int;
    let den_high = pow2(short as nat) as int;
    // The quotient does not reach the power after the difference ...
    if first + 1 >= 0 {
        let p = pow2((first + 1) as nat) as int;
        lemma_pow2_adds((short - 1) as nat, (first + 1) as nat);
        lemma_pow2_pos((first + 1) as nat);
        assert(den_low * p <= den * p) by (nonlinear_arith)
            requires
                den_low <= den,
                p > 0,
        ;
        assert(!reaches(num, den, first + 1));
    } else {
        let k = (-(first + 1)) as nat;
        let p = pow2(k) as int;
        lemma_pow2_adds(long as nat, k);
        lemma_pow2_pos(k);
        assert(num * p < num_high * p) by (nonlinear_arith)
            requires
                num < num_high,
                p > 0,
        ;
        assert(!reaches(num, den, first + 1));
    }
    // ... and reaches the power before it.
    if first - 1 >= 0 {
        let p = pow2((first - 1) as nat) as int;
        lemma_pow2_adds(short as nat, (first - 1) as nat);
        lemma_pow2_pos((first - 1) as nat);
        assert(den * p < den_high * p) by (nonlinear_arith)
            requires
                den < den_high,
                p > 0,
        ;
        assert(reaches(num, den, first - 1));
    } else {
        let k = (1 - first) as nat;
        let p = pow2(k) as int;
        lemma_pow2_adds((long - 1) as nat, k);
        lemma_pow2_pos(k);
        assert(num_low * p <= num * p) by (nonlinear_arith)
            requires
                num_low <= num,
                p > 0,
        ;
        assert(reaches(num, den, first - 1));
    }
}

/// The numerator of the quotient that is rounded for the exponent `e`.
pub open spec fn scaled_up(num: int, e: int) -> int {
    if e <= 23 {
        num * pow2((23 - e) as nat)
    } else {
        num
    }
}

/// The denominator of the quotient that is rounded for the exponent `e`.
pub open spec fn scaled_down(den: int, e: int) -> int {
    if e <= 23 {
        den
    } else {
        den * pow2((e - 23) as nat)
    }
}

/// With the right exponent the quotient that is rounded has 24 bits.
proof fn lemma_quotient_range(num: int, den: int, e: int)
    requires
        num > 0,
        den > 0,
        reaches(num, den, e),
        !reaches(num, den, e + 1),
    ensures
        scaled_down(den, e) > 0,
        0x80_0000 * scaled_down(den, e) <= scaled_up(num, e) < 0x100_0000 * scaled_down(den, e),
{
    vstd::arithmetic::power2::lemma2_to64();
    assert(pow2(23) == 0x80_0000);
    assert(pow2(24) == 0x100_0000);
    if e > 23 {
        let p = pow2((e - 23) as nat) as int;
        lemma_pow2_pos((e - 23) as nat);
        lemma_pow2_adds(23, (e - 23) as nat);
        lemma_pow2_adds(24, (e - 23) as nat);
        assert(0x80_0000 * (den * p) == den * (0x80_0000 * p)) by (nonlinear_arith);
        assert(0x100_0000 * (den * p) == den * (0x100_0000 * p)) by (nonlinear_arith);
        assert(den * p > 0) by (nonlinear_arith)
            requires
                den > 0,
                p > 0,
        ;
        assert(0x80_0000 * scaled_down(den, e) <= scaled_up(num, e) < 0x100_0000 * scaled_down(
            den,
            e,
        ));
    } else if e >= 0 {
        let p = pow2((23 - e) as nat) as int;
        let a = pow2(e as nat) as int;
        let b = pow2((e + 1) as nat) as int;
        lemma_pow2_pos((23 - e) as nat);
        lemma_pow2_adds(e as nat, (23 - e) as nat);
        lemma_pow2_adds((e + 1) as nat, (23 - e) as nat);
        assert((den * a) * p <= num * p) by (nonlinear_arith)
            requires
                den * a <= num,
                p > 0,
        ;
        assert(num * p < (den * b) * p) by (nonlinear_arith)
            requires
                num < den * b,
                p > 0,
        ;
        assert((den * a) * p == (a * p) * den) by (nonlinear_arith);
        assert((den * b) * p == (b * p) * den) by (nonlinear_arith);
        assert(0x80_0000 * scaled_down(den, e) <= scaled_up(num, e) < 0x100_0000 * scaled_down(
            den,
            e,
        ));
    } else if e == -1 {
        let p = pow2(24) as int;
        let a = pow2(1) as int;
        assert(a == 2);
        assert(num * p == (num * 2) * 0x80_0000) by (nonlinear_arith)
            requires
                p == 0x100_0000,
        ;
        assert(den * 0x80_0000 <= (num * 2) * 0x80_0000) by (nonlinear_arith)
            requires
                den <= num * 2,
        ;
        assert(pow2(0) == 1);
        assert(den * 1 == den);
        assert(num < den);
        assert(num * p < 0x100_0000 * den) by (nonlinear_arith)
            requires
                num < den,
                p == 0x100_0000,
        ;
        assert(0x80_0000 * den <= num * p) by (nonlinear_arith)
            requires
                den <= num * 2,
                p == 0x100_0000,
        ;
        assert(0x80_0000 * scaled_down(den, e) <= scaled_up(num, e) < 0x100_0000 * scaled_down(
            den,
            e,
        ));
    } else {
        let k = (-e) as nat;
        let p = pow2((23 - e) as nat) as int;
        let a = pow2(k) as int;
        let b = pow2((k - 1) as nat) as int;
        lemma_pow2_adds(k, 23);
        lemma_pow2_adds((k - 1) as nat, 24);
        assert(den * 0x80_0000 <= (num * a) * 0x80_0000) by (nonlinear_arith)
            requires
                den <= num * a,
        ;
        assert((num * b) * 0x100_0000 < den * 0x100_0000) by (nonlinear_arith)
            requires
                num * b < den,
        ;
        assert((num * a) * 0x80_0000 == num * (a * 0x80_0000)) by (nonlinear_arith);
        assert((num * b) * 0x100_0000 == num * (b * 0x100_0000)) by (nonlinear_arith);
    }
}

/// What is read is the single-precision number nearest to the number
/// written: inside the range of the numbers with a full fraction, where no
/// infinity comes of it, the number read differs from the quotient
/// `num / den` by no more than half the step between the numbers at its
/// exponent `e`. In units of `2^-149` that step is `2^(e + 126)`.
pub proof fn lemma_nearest_is_near(num: int, den: int)
    requires
        num > 0,
        den > 0,
        -126 <= binary_exponent(num, den) <= 127,
        nearest_single(num, den) < 0x7f80_0000,
    ensures
        ({
            let e = binary_exponent(num, den);
            let step = pow2((e + 126) as nat) as int;
            let read = single_magnitude(nearest_single(num, den) as u32);
            let up = scaled_up(num, e);
            let down = scaled_down(den, e);
            -(down * step) <= 2 * (read * down - up * step) <= down * step
        }),
{
    let e = binary_exponent(num, den);
    let step = pow2((e + 126) as nat) as int;
    let up = scaled_up(num, e);
    let down = scaled_down(den, e);
    lemma_binary_exponent(num, den);
    lemma_quotient_range(num, den, e);
    lemma_pow2_pos((e + 126) as nat);
    let quotient = up / down;
    let rest = up - quotient * down;
    vstd::arithmetic::div_mod::lemma_fundamental_div_mod(up, down);
    vstd::arithmetic::div_mod::lemma_mod_bound(up, down);
    assert(quotient * down == down * quotient) by (nonlinear_arith);
    assert(0 <= rest < down);
    assert(0x80_0000 <= quotient < 0x100_0000) by (nonlinear_arith)
        requires
            0x80_0000 * down <= up < 0x100_0000 * down,
            up == down * quotient + rest,
            0 <= rest < down,
            down > 0,
    ;
    let rounded = if 2 * rest > down || (2 * rest == down && quotient % 2 == 1) {
        quotient + 1
    } else {
        quotient
    };
    let joined = (e + 126) * 0x80_0000 + rounded;
    assert(nearest_single(num, den) == joined);
    // The rounded quotient, at the step of the exponent, is what the bit
    // pattern stands for.
    let bits = joined as u32;
    assert(single_magnitude(bits) == rounded * step) by {
        let exponent = (bits as int / 0x80_0000) % 256;
        let fraction = bits as int % 0x80_0000;
        if rounded < 0x100_0000 {
            assert(exponent == e + 127);
            assert(fraction == rounded - 0x80_0000);
        } else {
            assert(exponent == e + 128);
            assert(fraction == 0);
            vstd::arithmetic::power2::lemma_pow2_unfold((e + 127) as nat);
            assert(0x80_0000 * (2 * step) == 0x100_0000 * step) by (nonlinear_arith);
        }
    }
    // The rounded quotient is within a half of the quotient.
    assert(-down <= 2 * (rounded * down - up) <= down) by (nonlinear_arith)
        requires
            up == down * quotient + rest,
            0 <= rest < down,
            rounded == quotient && 2 * rest <= down || rounded == quotient + 1 && 2 * rest
                >= down,
    ;
    assert(-(down * step) <= 2 * ((rounded * step) * down - up * step) <= down * step)
        by (nonlinear_arith)
        requires
            -down <= 2 * (rounded * down - up) <= down,
            step > 0,
    ;
}

} // verus!
