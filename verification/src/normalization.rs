//! Normalizing a heat matrix by one of three statistical methods. Each
//! method looks at all cells of the matrix at once.
//!
//! A cell of the matrix that is read holds the bit pattern of a
//! single-precision number. The statistics are taken of the exact values
//! of these numbers, without rounding. A cell of the normalized matrix
//! holds a sample: the exact result times 65536, rounded toward zero.

use vstd::prelude::*;
use vstd::arithmetic::power2::{lemma_pow2_adds, lemma_pow2_pos, lemma_pow2_strictly_increases, pow2};
use vstd::string::StringExecFns;
use crate::exact::{
    big_add, big_div, big_from, big_lt, big_mul, big_sqrt, big_sub, big_to_i128, big_value,
};
use crate::fixed::{clamp_unit, ONE};
use crate::ieee::{
    bits_of_cell, cell_bits, sample_from_single, saturated, single_magnitude, single_sample,
    single_units, units_of_single, with_sign,
};
use crate::matrix::HeatmapMatrix;
use crate::stats::{
    ascending, high_rank, lemma_max_of_unique, lemma_min_of_unique, lemma_rescale, low_rank,
    max_of, min_of, percentile_bounds, rescale,
};
use crate::text::{eq_ignoring_case, lowered};

verus! {

/// The methods by which a heat matrix can be normalized.
#[derive(Debug, Clone, Copy, PartialEq, Eq, Structural)]
pub enum Normalization {
    MinMax,
    ZScore,
    Percentile,
}

/// The method that a name stands for, whatever the case of its letters.
pub open spec fn normalization_named(s: Seq<char>) -> Option<Normalization> {
    let t = lowered(s);
    if t == lowered("minmax"@) {
        Some(Normalization::MinMax)
    } else if t == lowered("zscore"@) {
        Some(Normalization::ZScore)
    } else if t == lowered("percentile"@) {
        Some(Normalization::Percentile)
    } else {
        None
    }
}

/// What is reported for a name that stands for no method.
pub open spec fn unknown_normalization_message(s: Seq<char>) -> Seq<char> {
    "Unknown normalization: "@ + s + ". Available: minmax, zscore, percentile"@
}

impl Normalization {
    /// Reads the name of a method. The error names the rejected text and
    /// lists the names that are accepted.
    pub fn from_str(s: &str) -> (r: Result<Normalization, String>)
        ensures
            match r {
                Ok(method) => normalization_named(s@) == Some(method),
                Err(message) => normalization_named(s@) is None && message@
                    == unknown_normalization_message(s@),
            },
    {
        if eq_ignoring_case(s, "minmax") {
            Ok(Normalization::MinMax)
        } else if eq_ignoring_case(s, "zscore") {
            Ok(Normalization::ZScore)
        } else if eq_ignoring_case(s, "percentile") {
            Ok(Normalization::Percentile)
        } else {
            let message = String::from_str("Unknown normalization: ").concat(s).concat(
                ". Available: minmax, zscore, percentile",
            );
            Err(message)
        }
    }
}

/// The exact value of the number in a cell, in units of `2^-149`.
pub open spec fn cell_units(cell: i32) -> int {
    single_units(cell_bits(cell))
}

/// The sample of the number in a cell.
pub open spec fn cell_sample(cell: i32) -> int {
    single_sample(cell_bits(cell))
}

/// The least value among the cells, which are not none.
pub open spec fn least(s: Seq<i32>) -> int
    decreases s.len(),
{
    if s.len() <= 1 {
        cell_units(s[0])
    } else if cell_units(s.last()) < least(s.drop_last()) {
        cell_units(s.last())
    } else {
        least(s.drop_last())
    }
}

/// The greatest value among the cells, which are not none.
pub open spec fn greatest(s: Seq<i32>) -> int
    decreases s.len(),
{
    if s.len() <= 1 {
        cell_units(s[0])
    } else if cell_units(s.last()) > greatest(s.drop_last()) {
        cell_units(s.last())
    } else {
        greatest(s.drop_last())
    }
}

/// The sum of the values of the cells.
pub open spec fn total(s: Seq<i32>) -> int
    decreases s.len(),
{
    if s.len() == 0 {
        0
    } else {
        total(s.drop_last()) + cell_units(s.last())
    }
}

/// The sum over the cells of `(n * value - t)^2`. With `n` the number of
/// cells and `t` the sum of their values, `value - t / n` is the distance
/// of a value from the mean, and this sum is the population variance times
/// `n^3`.
pub open spec fn spread_sum(s: Seq<i32>, n: int, t: int) -> int
    decreases s.len(),
{
    if s.len() == 0 {
        0
    } else {
        spread_sum(s.drop_last(), n, t) + (n * cell_units(s.last()) - t) * (n * cell_units(
            s.last(),
        ) - t)
    }
}

/// The variance of the cells times the cube of their number.
pub open spec fn spread(s: Seq<i32>) -> int {
    spread_sum(s, s.len() as int, total(s))
}

/// A whole number by which the numbers of cells are ordered as by their
/// values: the bit pattern without its sign bit, taken negative where the
/// sign bit is set.
pub open spec fn order_key(cell: i32) -> int {
    if cell >= 0 {
        cell as int
    } else {
        -(cell + 0x8000_0000)
    }
}

/// The cell with the given key that is not a negative zero.
pub open spec fn key_cell(key: int) -> i32 {
    if key >= 0 {
        key as i32
    } else {
        (-key - 0x8000_0000) as i32
    }
}

/// The keys of the cells.
pub open spec fn keys(s: Seq<i32>) -> Seq<i32> {
    Seq::new(s.len(), |i: int| order_key(s[i]) as i32)
}

/// The value at the fifth percentile, by nearest rank.
pub open spec fn low_percentile(s: Seq<i32>) -> int {
    cell_units(key_cell(ascending(keys(s))[low_rank(s.len() as int)] as int))
}

/// The value at the ninety-fifth percentile, by nearest rank.
pub open spec fn high_percentile(s: Seq<i32>) -> int {
    cell_units(key_cell(ascending(keys(s))[high_rank(s.len() as int)] as int))
}

/// Whether a method leaves the numbers as they are: when there are none,
/// and when the spread that the method divides by is zero.
pub open spec fn passes_through(s: Seq<i32>, method: Normalization) -> bool {
    s.len() == 0 || match method {
        Normalization::MinMax => least(s) == greatest(s),
        Normalization::ZScore => spread(s) == 0,
        Normalization::Percentile => high_percentile(s) <= low_percentile(s),
    }
}

/// Whether `r` is the square root of `x` rounded down.
pub open spec fn is_floor_sqrt(x: int, r: int) -> bool {
    0 <= r && r * r <= x < (r + 1) * (r + 1)
}

/// The square root of `x`, rounded down.
pub open spec fn floor_sqrt(x: int) -> int {
    choose|r: int| is_floor_sqrt(x, r)
}

/// The standard score of a value as a sample: `(value - t / n)` divided by
/// the population standard deviation, times 65536, rounded toward zero and
/// limited to what a sample holds. `n` is the number of cells, `t` the
/// sum of their values and `q` their spread; the square of the score is
/// `(n * value - t)^2 * n / q`.
pub open spec fn standard(value: int, n: int, t: int, q: int) -> int {
    let a = n * value - t;
    saturated(a < 0, floor_sqrt((0x1_0000_0000 * (a * a) * n) / q))
}

/// What a method makes of the number in one cell, where it does not leave
/// the numbers as they are.
pub open spec fn normalized_sample(s: Seq<i32>, method: Normalization, cell: i32) -> int {
    match method {
        Normalization::MinMax => rescale(cell_units(cell), least(s), greatest(s) - least(s)),
        Normalization::ZScore => standard(cell_units(cell), s.len() as int, total(s), spread(s)),
        Normalization::Percentile => clamp_unit(
            rescale(cell_units(cell), low_percentile(s), high_percentile(s) - low_percentile(s)),
        ),
    }
}

/// The samples that the cells `s` are normalized to by `method`. Where the
/// method leaves the numbers as they are, these are their samples.
pub open spec fn normalized(s: Seq<i32>, method: Normalization) -> Seq<i32> {
    if passes_through(s, method) {
        Seq::new(s.len(), |i: int| cell_sample(s[i]) as i32)
    } else {
        Seq::new(s.len(), |i: int| normalized_sample(s, method, s[i]) as i32)
    }
}

/// The least value occurs among the cells, and no value is below it; the
/// same of the greatest.
pub proof fn lemma_least_greatest(s: Seq<i32>)
    requires
        s.len() > 0,
    ensures
        exists|i: int| 0 <= i < s.len() && cell_units(#[trigger] s[i]) == least(s),
        exists|i: int| 0 <= i < s.len() && cell_units(#[trigger] s[i]) == greatest(s),
        forall|i: int| 0 <= i < s.len() ==> least(s) <= cell_units(#[trigger] s[i]) <= greatest(s),
    decreases s.len(),
{
    if s.len() <= 1 {
        assert(cell_units(s[0]) == least(s));
        assert(cell_units(s[0]) == greatest(s));
    } else {
        let t = s.drop_last();
        lemma_least_greatest(t);
        let k = choose|i: int| 0 <= i < t.len() && cell_units(#[trigger] t[i]) == least(t);
        let j = choose|i: int| 0 <= i < t.len() && cell_units(#[trigger] t[i]) == greatest(t);
        assert(s[k] == t[k]);
        assert(s[j] == t[j]);
        let last = s.len() - 1;
        if cell_units(s.last()) < least(t) {
            assert(cell_units(s[last]) == least(s));
        } else {
            assert(cell_units(s[k]) == least(s));
        }
        if cell_units(s.last()) > greatest(t) {
            assert(cell_units(s[last]) == greatest(s));
        } else {
            assert(cell_units(s[j]) == greatest(s));
        }
        assert forall|i: int| 0 <= i < s.len() implies least(s) <= cell_units(#[trigger] s[i])
            <= greatest(s) by {
            if i < t.len() {
                assert(s[i] == t[i]);
            }
        }
    }
}

/// A number that meets the bounds of a rounded-down square root is it.
pub proof fn lemma_floor_sqrt_unique(x: int, r: int)
    requires
        is_floor_sqrt(x, r),
    ensures
        floor_sqrt(x) == r,
{
    let c = floor_sqrt(x);
    assert(is_floor_sqrt(x, c));
    if c < r {
        assert((c + 1) * (c + 1) <= r * r) by (nonlinear_arith)
            requires
                0 <= c + 1 <= r,
        ;
    } else if r < c {
        assert((r + 1) * (r + 1) <= c * c) by (nonlinear_arith)
            requires
                0 <= r + 1 <= c,
        ;
    }
}

/// Rescales a value between `lo` and `lo + range`, limited to the unit
/// interval.
fn exact_rescale(value: &num_bigint::BigInt, lo: &num_bigint::BigInt, range: &num_bigint::BigInt) -> (r: i32)
    requires
        big_value(*range) > 0,
    ensures
        r == clamp_unit(rescale(big_value(*value), big_value(*lo), big_value(*range))),
{
    proof {
        lemma_rescale(big_value(*value), big_value(*lo), big_value(*range));
    }
    let distance = big_sub(value, lo);
    let zero = big_from(0);
    if big_lt(&distance, &zero) {
        return 0;
    }
    let one = big_from(65536);
    let scaled = big_mul(&distance, &one);
    assert(big_value(scaled) >= 0) by (nonlinear_arith)
        requires
            big_value(scaled) == big_value(distance) * 65536,
            big_value(distance) >= 0,
    ;
    let quotient = big_div(&scaled, range);
    if big_lt(&quotient, &one) {
        match big_to_i128(&quotient) {
            Some(q) => q as i32,
            None => 0,
        }
    } else {
        ONE
    }
}

/// Computes the standard score of a value as a sample.
fn exact_standard(
    value: &num_bigint::BigInt,
    n: &num_bigint::BigInt,
    t: &num_bigint::BigInt,
    q: &num_bigint::BigInt,
) -> (r: i32)
    requires
        big_value(*n) > 0,
        big_value(*q) > 0,
    ensures
        r == standard(big_value(*value), big_value(*n), big_value(*t), big_value(*q)),
{
    let scaled = big_mul(n, value);
    let a = big_sub(&scaled, t);
    let zero = big_from(0);
    let negative: bool = big_lt(&a, &zero);
    let square = big_mul(&a, &a);
    let factor = big_from(0x1_0000_0000);
    let wide = big_mul(&factor, &square);
    let numerator = big_mul(&wide, n);
    proof {
        let av = big_value(a);
        let nv = big_value(*n);
        assert(av * av >= 0) by (nonlinear_arith);
        assert(0x1_0000_0000 * (av * av) * nv >= 0) by (nonlinear_arith)
            requires
                av * av >= 0,
                nv > 0,
        ;
    }
    let quotient = big_div(&numerator, q);
    assert(big_value(quotient) >= 0) by (nonlinear_arith)
        requires
            big_value(quotient) == big_value(numerator) / big_value(*q),
            big_value(numerator) >= 0,
            big_value(*q) > 0,
    ;
    let root = big_sqrt(&quotient);
    proof {
        lemma_floor_sqrt_unique(big_value(quotient), big_value(root));
    }
    let cap = big_from(0x8000_0000);
    if big_lt(&root, &cap) {
        match big_to_i128(&root) {
            Some(m) => with_sign(negative, m as u64),
            None => with_sign(negative, 0x8000_0000),
        }
    } else {
        with_sign(negative, 0x8000_0000)
    }
}

/// The samples of the numbers in the cells.
fn samples_of(cells: &Vec<i32>) -> (r: Vec<i32>)
    ensures
        r@ == Seq::new(cells@.len(), |i: int| cell_sample(cells@[i]) as i32),
{
    let mut out: Vec<i32> = Vec::new();
    let mut i: usize = 0;
    while i < cells.len()
        invariant
            i <= cells@.len(),
            out@.len() == i,
            forall|k: int| 0 <= k < i ==> #[trigger] out@[k] == cell_sample(cells@[k]),
        decreases cells@.len() - i,
    {
        out.push(sample_from_single(bits_of_cell(cells[i])));
        i += 1;
    }
    assert(out@ =~= Seq::new(cells@.len(), |i: int| cell_sample(cells@[i]) as i32));
    out
}

/// Min-max normalization of the cells.
fn minmax_samples(cells: &Vec<i32>) -> (r: Vec<i32>)
    requires
        cells@.len() > 0,
    ensures
        r@ == normalized(cells@, Normalization::MinMax),
{
    let ghost s = cells@;
    let mut lo = units_of_single(bits_of_cell(cells[0]));
    let mut hi = units_of_single(bits_of_cell(cells[0]));
    let mut i: usize = 1;
    assert(s.subrange(0, 1).len() == 1);
    assert(s.subrange(0, 1)[0] == s[0]);
    while i < cells.len()
        invariant
            1 <= i <= cells@.len(),
            s == cells@,
            big_value(lo) == least(s.subrange(0, i as int)),
            big_value(hi) == greatest(s.subrange(0, i as int)),
        decreases cells@.len() - i,
    {
        let value = units_of_single(bits_of_cell(cells[i]));
        proof {
            let t = s.subrange(0, i as int + 1);
            assert(t.drop_last() =~= s.subrange(0, i as int));
            assert(t.last() == s[i as int]);
        }
        if big_lt(&value, &lo) {
            lo = units_of_single(bits_of_cell(cells[i]));
        }
        if big_lt(&hi, &value) {
            hi = value;
        }
        i += 1;
    }
    assert(s.subrange(0, i as int) =~= s);
    if !big_lt(&lo, &hi) {
        proof {
            lemma_least_greatest(s);
        }
        return samples_of(cells);
    }
    let range = big_sub(&hi, &lo);
    let mut out: Vec<i32> = Vec::new();
    let mut j: usize = 0;
    proof {
        lemma_least_greatest(s);
    }
    while j < cells.len()
        invariant
            j <= cells@.len(),
            s == cells@,
            big_value(lo) == least(s),
            big_value(range) == greatest(s) - least(s),
            big_value(range) > 0,
            forall|i: int| 0 <= i < s.len() ==> least(s) <= cell_units(#[trigger] s[i]) <= greatest(s),
            out@.len() == j,
            forall|k: int|
                0 <= k < j ==> #[trigger] out@[k] == normalized_sample(
                    s,
                    Normalization::MinMax,
                    s[k],
                ),
        decreases cells@.len() - j,
    {
        let value = units_of_single(bits_of_cell(cells[j]));
        proof {
            assert(least(s) <= cell_units(s[j as int]) <= greatest(s));
            lemma_rescale(cell_units(s[j as int]), least(s), greatest(s) - least(s));
        }
        out.push(exact_rescale(&value, &lo, &range));
        j += 1;
    }
    assert(out@ =~= normalized(s, Normalization::MinMax));
    out
}

/// Z-score normalization of the cells.
fn zscore_samples(cells: &Vec<i32>) -> (r: Vec<i32>)
    requires
        cells@.len() > 0,
    ensures
        r@ == normalized(cells@, Normalization::ZScore),
{
    let ghost s = cells@;
    let count: usize = cells.len();
    let n = big_from(count as i128);
    let mut t = big_from(0);
    let mut i: usize = 0;
    assert(s.subrange(0, 0) =~= Seq::<i32>::empty());
    while i < count
        invariant
            i <= count,
            count == cells@.len(),
            s == cells@,
            big_value(t) == total(s.subrange(0, i as int)),
        decreases count - i,
    {
        let value = units_of_single(bits_of_cell(cells[i]));
        proof {
            let p = s.subrange(0, i as int + 1);
            assert(p.drop_last() =~= s.subrange(0, i as int));
            assert(p.last() == s[i as int]);
        }
        t = big_add(&t, &value);
        i += 1;
    }
    assert(s.subrange(0, count as int) =~= s);
    let mut q = big_from(0);
    let mut i: usize = 0;
    while i < count
        invariant
            i <= count,
            count == cells@.len(),
            s == cells@,
            big_value(n) == count,
            big_value(t) == total(s),
            big_value(q) == spread_sum(s.subrange(0, i as int), count as int, total(s)),
        decreases count - i,
    {
        let value = units_of_single(bits_of_cell(cells[i]));
        proof {
            let p = s.subrange(0, i as int + 1);
            assert(p.drop_last() =~= s.subrange(0, i as int));
            assert(p.last() == s[i as int]);
        }
        let scaled = big_mul(&n, &value);
        let a = big_sub(&scaled, &t);
        let square = big_mul(&a, &a);
        q = big_add(&q, &square);
        i += 1;
    }
    assert(s.subrange(0, count as int) =~= s);
    proof {
        lemma_spread_nonnegative(s, count as int, total(s));
    }
    let zero = big_from(0);
    if !big_lt(&zero, &q) {
        return samples_of(cells);
    }
    let mut out: Vec<i32> = Vec::new();
    let mut j: usize = 0;
    while j < count
        invariant
            j <= count,
            count == cells@.len(),
            s == cells@,
            big_value(n) == count,
            count > 0,
            big_value(t) == total(s),
            big_value(q) == spread(s),
            big_value(q) > 0,
            out@.len() == j,
            forall|k: int|
                0 <= k < j ==> #[trigger] out@[k] == normalized_sample(
                    s,
                    Normalization::ZScore,
                    s[k],
                ),
        decreases count - j,
    {
        let value = units_of_single(bits_of_cell(cells[j]));
        out.push(exact_standard(&value, &n, &t, &q));
        j += 1;
    }
    assert(out@ =~= normalized(s, Normalization::ZScore));
    out
}

/// The spread is not negative.
pub proof fn lemma_spread_nonnegative(s: Seq<i32>, n: int, t: int)
    ensures
        spread_sum(s, n, t) >= 0,
    decreases s.len(),
{
    if s.len() > 0 {
        lemma_spread_nonnegative(s.drop_last(), n, t);
        let a = n * cell_units(s.last()) - t;
        assert(a * a >= 0) by (nonlinear_arith);
    }
}

/// Computes the key of a cell.
fn key_of(cell: i32) -> (r: i32)
    ensures
        r == order_key(cell),
{
    if cell >= 0 {
        cell
    } else {
        (-(cell as i64 + 0x8000_0000)) as i32
    }
}

/// Finds the cell of a key.
fn cell_of_key(key: i32) -> (r: i32)
    ensures
        r == key_cell(key as int),
{
    if key >= 0 {
        key
    } else {
        (-(key as i64) - 0x8000_0000) as i32
    }
}

/// Percentile normalization of the cells.
fn percentile_samples(cells: &Vec<i32>) -> (r: Vec<i32>)
    requires
        cells@.len() > 0,
    ensures
        r@ == normalized(cells@, Normalization::Percentile),
{
    let ghost s = cells@;
    let mut order: Vec<i32> = Vec::new();
    let mut i: usize = 0;
    while i < cells.len()
        invariant
            i <= cells@.len(),
            order@.len() == i,
            forall|k: int| 0 <= k < i ==> #[trigger] order@[k] == order_key(cells@[k]),
        decreases cells@.len() - i,
    {
        order.push(key_of(cells[i]));
        i += 1;
    }
    assert(order@ =~= keys(s));
    let (low_key, high_key) = percentile_bounds(order);
    let lo = units_of_single(bits_of_cell(cell_of_key(low_key)));
    let hi = units_of_single(bits_of_cell(cell_of_key(high_key)));
    if !big_lt(&lo, &hi) {
        return samples_of(cells);
    }
    let range = big_sub(&hi, &lo);
    let mut out: Vec<i32> = Vec::new();
    let mut j: usize = 0;
    while j < cells.len()
        invariant
            j <= cells@.len(),
            s == cells@,
            big_value(lo) == low_percentile(s),
            big_value(range) == high_percentile(s) - low_percentile(s),
            big_value(range) > 0,
            out@.len() == j,
            forall|k: int|
                0 <= k < j ==> #[trigger] out@[k] == normalized_sample(
                    s,
                    Normalization::Percentile,
                    s[k],
                ),
        decreases cells@.len() - j,
    {
        let value = units_of_single(bits_of_cell(cells[j]));
        out.push(exact_rescale(&value, &lo, &range));
        j += 1;
    }
    assert(out@ =~= normalized(s, Normalization::Percentile));
    out
}

/// Normalizes a heat matrix whose cells hold bit patterns. The result is
/// a new matrix of the same shape whose cells hold samples.
pub fn normalize_heatmap(data: &HeatmapMatrix, method: &Normalization) -> (r: HeatmapMatrix)
    ensures
        r@.rows == data@.rows,
        r@.cols == data@.cols,
        r@.data == normalized(data@.data, *method),
{
    let cells: Vec<i32> = data.to_vec();
    let (rows, cols) = data.dim();
    let out: Vec<i32> = if cells.len() == 0 {
        samples_of(&cells)
    } else {
        match method {
            Normalization::MinMax => minmax_samples(&cells),
            Normalization::ZScore => zscore_samples(&cells),
            Normalization::Percentile => percentile_samples(&cells),
        }
    };
    match HeatmapMatrix::from_shape_vec(rows, cols, out) {
        Ok(m) => m,
        Err(_) => data.duplicate(),
    }
}

/// Where the numbers are not all equal, min-max normalization maps the
/// least of them to zero and the greatest to `ONE`: the result spans the
/// unit interval exactly.
pub proof fn lemma_minmax_spans_unit(s: Seq<i32>)
    requires
        s.len() > 0,
        least(s) != greatest(s),
    ensures
        min_of(normalized(s, Normalization::MinMax)) == 0,
        max_of(normalized(s, Normalization::MinMax)) == ONE,
{
    let out = normalized(s, Normalization::MinMax);
    let lo = least(s);
    let hi = greatest(s);
    lemma_least_greatest(s);
    let k = choose|i: int| 0 <= i < s.len() && cell_units(#[trigger] s[i]) == least(s);
    let j = choose|i: int| 0 <= i < s.len() && cell_units(#[trigger] s[i]) == greatest(s);
    assert(lo <= cell_units(s[j]));
    assert forall|i: int| 0 <= i < out.len() implies 0 <= #[trigger] out[i] <= ONE by {
        assert(lo <= cell_units(s[i]) <= hi);
        lemma_rescale(cell_units(s[i]), lo, hi - lo);
    }
    lemma_rescale(cell_units(s[k]), lo, hi - lo);
    lemma_rescale(cell_units(s[j]), lo, hi - lo);
    assert(out[k] == 0);
    assert(out[j] == ONE);
    lemma_min_of_unique(out, 0, k);
    lemma_max_of_unique(out, ONE as int, j);
}

/// Where the spread is zero, every cell lies at `t / n`.
proof fn lemma_spread_zero(s: Seq<i32>, n: int, t: int)
    requires
        spread_sum(s, n, t) == 0,
    ensures
        forall|i: int| 0 <= i < s.len() ==> n * cell_units(#[trigger] s[i]) == t,
    decreases s.len(),
{
    if s.len() > 0 {
        let a = n * cell_units(s.last()) - t;
        assert(a * a >= 0) by (nonlinear_arith);
        lemma_spread_nonnegative(s.drop_last(), n, t);
        assert(a == 0) by (nonlinear_arith)
            requires
                a * a == 0,
        ;
        lemma_spread_zero(s.drop_last(), n, t);
        assert forall|i: int| 0 <= i < s.len() implies n * cell_units(#[trigger] s[i]) == t by {
            if i < s.len() - 1 {
                assert(s[i] == s.drop_last()[i]);
            }
        }
    }
}

/// Where every cell lies at `t / n`, the spread is zero.
proof fn lemma_spread_of_constant(s: Seq<i32>, n: int, t: int)
    requires
        forall|i: int| 0 <= i < s.len() ==> n * cell_units(#[trigger] s[i]) == t,
    ensures
        spread_sum(s, n, t) == 0,
    decreases s.len(),
{
    if s.len() > 0 {
        let p = s.drop_last();
        assert forall|i: int| 0 <= i < p.len() implies n * cell_units(#[trigger] p[i]) == t by {
            assert(p[i] == s[i]);
        }
        lemma_spread_of_constant(p, n, t);
        assert(n * cell_units(s[s.len() - 1]) == t);
        let a = n * cell_units(s.last()) - t;
        assert(a * a == 0) by (nonlinear_arith)
            requires
                a == 0,
        ;
    }
}

/// The sum of cells of one value is that value times their number.
proof fn lemma_total_of_constant(s: Seq<i32>, c: int)
    requires
        forall|i: int| 0 <= i < s.len() ==> cell_units(#[trigger] s[i]) == c,
    ensures
        total(s) == s.len() * c,
    decreases s.len(),
{
    if s.len() > 0 {
        let p = s.drop_last();
        assert forall|i: int| 0 <= i < p.len() implies cell_units(#[trigger] p[i]) == c by {
            assert(p[i] == s[i]);
        }
        lemma_total_of_constant(p, c);
        assert(cell_units(s[s.len() - 1]) == c);
        assert((s.len() - 1) * c + c == s.len() * c) by (nonlinear_arith);
    } else {
        assert(0 * c == 0);
    }
}

/// Z-score normalization leaves a matrix as it is exactly when its
/// standard deviation is zero, and that is exactly when the numbers in all
/// its cells have the same value. Else it gives every cell its standard
/// score, however small the deviation is.
pub proof fn lemma_zscore_passes_iff_constant(s: Seq<i32>)
    requires
        s.len() > 0,
    ensures
        passes_through(s, Normalization::ZScore) <==> spread(s) == 0,
        passes_through(s, Normalization::ZScore) <==> (forall|i: int|
            0 <= i < s.len() ==> cell_units(#[trigger] s[i]) == cell_units(s[0])),
        !passes_through(s, Normalization::ZScore) ==> (forall|i: int|
            0 <= i < s.len() ==> #[trigger] normalized(s, Normalization::ZScore)[i] == standard(
                cell_units(s[i]),
                s.len() as int,
                total(s),
                spread(s),
            )),
{
    let n = s.len() as int;
    let t = total(s);
    if spread(s) == 0 {
        lemma_spread_zero(s, n, t);
        assert forall|i: int| 0 <= i < s.len() implies cell_units(#[trigger] s[i]) == cell_units(
            s[0],
        ) by {
            assert(n * cell_units(s[i]) == t);
            assert(n * cell_units(s[0]) == t);
            assert(cell_units(s[i]) == cell_units(s[0])) by (nonlinear_arith)
                requires
                    n * cell_units(s[i]) == n * cell_units(s[0]),
                    n > 0,
            ;
        }
    }
    if forall|i: int| 0 <= i < s.len() ==> cell_units(#[trigger] s[i]) == cell_units(s[0]) {
        let c = cell_units(s[0]);
        lemma_total_of_constant(s, c);
        assert forall|i: int| 0 <= i < s.len() implies n * cell_units(#[trigger] s[i]) == t by {
            assert(cell_units(s[i]) == c);
        }
        lemma_spread_of_constant(s, n, t);
    }
    if !passes_through(s, Normalization::ZScore) {
        assert forall|i: int| 0 <= i < s.len() implies #[trigger] normalized(
            s,
            Normalization::ZScore,
        )[i] == standard(cell_units(s[i]), n, t, spread(s)) by {
            lemma_spread_nonnegative(s, n, t);
            lemma_standard_is_sample(cell_units(s[i]), n, t, spread(s));
        }
    }
}

spec fn root_witness(x: int) -> int
    decreases x,
{
    if x <= 0 {
        0
    } else {
        let r = root_witness(x - 1);
        if (r + 1) * (r + 1) <= x {
            r + 1
        } else {
            r
        }
    }
}

/// Every number that is not negative has a rounded-down square root.
pub proof fn lemma_floor_sqrt_exists(x: int)
    requires
        x >= 0,
    ensures
        is_floor_sqrt(x, floor_sqrt(x)),
{
    lemma_root_witness(x);
}

proof fn lemma_root_witness(x: int)
    requires
        x >= 0,
    ensures
        is_floor_sqrt(x, root_witness(x)),
    decreases x,
{
    if x > 0 {
        lemma_root_witness(x - 1);
        let r = root_witness(x - 1);
        if (r + 1) * (r + 1) <= x {
            assert((r + 1) * (r + 1) == x);
            assert(x < (r + 2) * (r + 2)) by (nonlinear_arith)
                requires
                    (r + 1) * (r + 1) == x,
                    r >= 0,
            ;
        }
    } else {
        assert(0 * 0 == 0);
    }
}

/// A standard score is a sample.
proof fn lemma_standard_is_sample(value: int, n: int, t: int, q: int)
    requires
        n > 0,
        q > 0,
    ensures
        i32::MIN <= standard(value, n, t, q) <= i32::MAX,
{
    let a = n * value - t;
    let x = (0x1_0000_0000 * (a * a) * n) / q;
    assert(a * a >= 0) by (nonlinear_arith);
    assert(0x1_0000_0000 * (a * a) * n >= 0) by (nonlinear_arith)
        requires
            a * a >= 0,
            n > 0,
    ;
    assert(x >= 0) by (nonlinear_arith)
        requires
            x == (0x1_0000_0000 * (a * a) * n) / q,
            0x1_0000_0000 * (a * a) * n >= 0,
            q > 0,
    ;
    lemma_floor_sqrt_exists(x);
    crate::ieee::lemma_saturated_range(a < 0, floor_sqrt(x));
}

/// Where the two percentiles differ, percentile normalization puts every
/// cell into the unit interval.
pub proof fn lemma_percentile_in_unit(s: Seq<i32>)
    requires
        !passes_through(s, Normalization::Percentile),
    ensures
        forall|i: int|
            0 <= i < s.len() ==> 0 <= #[trigger] normalized(s, Normalization::Percentile)[i]
                <= ONE,
{
}

/// Whether a cell holds a NaN.
pub open spec fn holds_nan(cell: i32) -> bool {
    cell_bits(cell) % 0x8000_0000 > 0x7f80_0000
}

/// Among the numbers that are not negative and no NaN, the greater bit
/// pattern is the greater number.
proof fn lemma_magnitude_grows(a: u32, b: u32)
    requires
        a <= b <= 0x7f80_0000,
    ensures
        0 <= single_magnitude(a) <= single_magnitude(b),
{
    let ea = (a as int / 0x80_0000) % 256;
    let eb = (b as int / 0x80_0000) % 256;
    let fa = a as int % 0x80_0000;
    let fb = b as int % 0x80_0000;
    assert(ea == a as int / 0x80_0000);
    assert(eb == b as int / 0x80_0000);
    assert(ea <= eb);
    vstd::arithmetic::power2::lemma2_to64();
    assert(pow2(23) == 0x80_0000);
    assert(pow2(24) == 0x100_0000);
    if ea >= 1 {
        lemma_pow2_pos((ea - 1) as nat);
    }
    if eb >= 1 {
        lemma_pow2_pos((eb - 1) as nat);
    }
    lemma_pow2_pos(277);
    if ea > 0 && ea < 255 {
        assert(0 <= (fa + 0x80_0000) * pow2((ea - 1) as nat)) by (nonlinear_arith)
            requires
                0 <= fa,
                pow2((ea - 1) as nat) > 0,
        ;
    }
    if ea == eb {
        if ea == 255 {
            assert(fa == 0 && fb == 0);
        } else if ea > 0 {
            let p = pow2((ea - 1) as nat) as int;
            assert((fa + 0x80_0000) * p <= (fb + 0x80_0000) * p) by (nonlinear_arith)
                requires
                    fa <= fb,
                    p > 0,
            ;
        }
    } else {
        // The smaller number lies below two to its exponent and 23 ...
        let top = pow2((ea + 23) as nat) as int;
        if ea == 0 {
            assert(single_magnitude(a) < top);
        } else {
            let p = pow2((ea - 1) as nat) as int;
            lemma_pow2_adds(24, (ea - 1) as nat);
            assert((fa + 0x80_0000) * p < 0x100_0000 * p) by (nonlinear_arith)
                requires
                    fa + 0x80_0000 < 0x100_0000,
                    p > 0,
            ;
            assert(single_magnitude(a) < top);
        }
        // ... and the greater one at or above it.
        if eb == 255 {
            assert(fb == 0);
            if ea + 23 < 277 {
                lemma_pow2_strictly_increases((ea + 23) as nat, 277);
            }
        } else {
            let p = pow2((eb - 1) as nat) as int;
            lemma_pow2_adds(23, (eb - 1) as nat);
            assert(0x80_0000 * p <= (fb + 0x80_0000) * p) by (nonlinear_arith)
                requires
                    0 <= fb,
                    p > 0,
            ;
            if eb + 22 > ea + 23 {
                lemma_pow2_strictly_increases((ea + 23) as nat, (eb + 22) as nat);
            }
        }
    }
}

/// The keys order the cells as their numbers do: of two cells that hold no
/// NaN, the one with the smaller key holds the smaller number, or both
/// hold the same.
pub proof fn lemma_key_orders_by_value(a: i32, b: i32)
    requires
        !holds_nan(a),
        !holds_nan(b),
        order_key(a) <= order_key(b),
    ensures
        cell_units(a) <= cell_units(b),
{
    let x = cell_bits(a);
    let y = cell_bits(b);
    let mx: u32 = (x % 0x8000_0000) as u32;
    let my: u32 = (y % 0x8000_0000) as u32;
    assert(single_magnitude(x) == single_magnitude(mx));
    assert(single_magnitude(y) == single_magnitude(my));
    lemma_magnitude_grows(mx, mx);
    lemma_magnitude_grows(my, my);
    if a >= 0 && b >= 0 {
        lemma_magnitude_grows(mx, my);
    } else if a < 0 && b < 0 {
        lemma_magnitude_grows(my, mx);
    }
}

} // verus!
