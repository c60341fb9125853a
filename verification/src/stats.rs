//! The smallest and the largest of a sequence of samples, the order of
//! samples, and the rescaling of one value.

use vstd::prelude::*;
use vstd::relations::{sorted_by, total_ordering};
use vstd::seq_lib::to_multiset_len;
use crate::fixed::ONE;

verus! {

/// The smallest sample of a sequence that is not empty.
pub open spec fn min_of(s: Seq<i32>) -> int
    decreases s.len(),
{
    if s.len() <= 1 {
        s[0] as int
    } else if s.last() < min_of(s.drop_last()) {
        s.last() as int
    } else {
        min_of(s.drop_last())
    }
}

/// The largest sample of a sequence that is not empty.
pub open spec fn max_of(s: Seq<i32>) -> int
    decreases s.len(),
{
    if s.len() <= 1 {
        s[0] as int
    } else if s.last() > max_of(s.drop_last()) {
        s.last() as int
    } else {
        max_of(s.drop_last())
    }
}

/// The smallest sample occurs in the sequence, and no sample is below it.
pub proof fn lemma_min_of(s: Seq<i32>)
    requires
        s.len() > 0,
    ensures
        exists|i: int| 0 <= i < s.len() && #[trigger] s[i] == min_of(s),
        forall|i: int| 0 <= i < s.len() ==> min_of(s) <= #[trigger] s[i],
    decreases s.len(),
{
    if s.len() <= 1 {
        assert(s[0] == min_of(s));
    } else {
        let t = s.drop_last();
        lemma_min_of(t);
        let k = choose|i: int| 0 <= i < t.len() && #[trigger] t[i] == min_of(t);
        assert(s[k] == t[k]);
        if s.last() < min_of(t) {
            assert(s[s.len() - 1] == min_of(s));
        } else {
            assert(s[k] == min_of(s));
        }
        assert forall|i: int| 0 <= i < s.len() implies min_of(s) <= #[trigger] s[i] by {
            if i < t.len() {
                assert(s[i] == t[i]);
            }
        }
    }
}

/// The largest sample occurs in the sequence, and no sample is above it.
pub proof fn lemma_max_of(s: Seq<i32>)
    requires
        s.len() > 0,
    ensures
        exists|i: int| 0 <= i < s.len() && #[trigger] s[i] == max_of(s),
        forall|i: int| 0 <= i < s.len() ==> max_of(s) >= #[trigger] s[i],
    decreases s.len(),
{
    if s.len() <= 1 {
        assert(s[0] == max_of(s));
    } else {
        let t = s.drop_last();
        lemma_max_of(t);
        let k = choose|i: int| 0 <= i < t.len() && #[trigger] t[i] == max_of(t);
        assert(s[k] == t[k]);
        if s.last() > max_of(t) {
            assert(s[s.len() - 1] == max_of(s));
        } else {
            assert(s[k] == max_of(s));
        }
        assert forall|i: int| 0 <= i < s.len() implies max_of(s) >= #[trigger] s[i] by {
            if i < t.len() {
                assert(s[i] == t[i]);
            }
        }
    }
}

/// A lower bound that occurs in the sequence is its smallest sample.
pub proof fn lemma_min_of_unique(s: Seq<i32>, m: int, k: int)
    requires
        0 <= k < s.len(),
        s[k] == m,
        forall|i: int| 0 <= i < s.len() ==> m <= #[trigger] s[i],
    ensures
        min_of(s) == m,
{
    lemma_min_of(s);
    let j = choose|i: int| 0 <= i < s.len() && #[trigger] s[i] == min_of(s);
    assert(m <= s[j]);
    assert(min_of(s) <= s[k]);
}

/// An upper bound that occurs in the sequence is its largest sample.
pub proof fn lemma_max_of_unique(s: Seq<i32>, m: int, k: int)
    requires
        0 <= k < s.len(),
        s[k] == m,
        forall|i: int| 0 <= i < s.len() ==> m >= #[trigger] s[i],
    ensures
        max_of(s) == m,
{
    lemma_max_of(s);
    let j = choose|i: int| 0 <= i < s.len() && #[trigger] s[i] == max_of(s);
    assert(m >= s[j]);
    assert(max_of(s) >= s[k]);
}

/// A value placed on the scale that maps `lo` to zero and `lo + range` to
/// `ONE`, rounded down.
pub open spec fn rescale(v: int, lo: int, range: int) -> int {
    ((v - lo) * ONE) / range
}

/// Rescaling keeps the order, maps `lo` to zero and `lo + range` to `ONE`.
pub proof fn lemma_rescale(v: int, lo: int, range: int)
    requires
        range > 0,
    ensures
        rescale(lo, lo, range) == 0,
        rescale(lo + range, lo, range) == ONE,
        v <= lo ==> rescale(v, lo, range) <= 0,
        v >= lo ==> rescale(v, lo, range) >= 0,
        v >= lo + range ==> rescale(v, lo, range) >= ONE,
        v <= lo + range ==> rescale(v, lo, range) <= ONE,
{
    let n = (v - lo) * ONE;
    vstd::arithmetic::div_mod::lemma_fundamental_div_mod(n, range);
    vstd::arithmetic::div_mod::lemma_mod_bound(n, range);
    let q = n / range;
    assert((lo - lo) * ONE == 0);
    assert(0int / range == 0) by (nonlinear_arith)
        requires
            range > 0,
    ;
    assert((range * ONE) / range == ONE) by (nonlinear_arith)
        requires
            range > 0,
    ;
    assert(((lo + range) - lo) * ONE == range * ONE);
    if v <= lo {
        assert(q <= 0) by (nonlinear_arith)
            requires
                n <= 0,
                n == range * q + n % range,
                0 <= n % range < range,
                range > 0,
        ;
    }
    if v >= lo {
        assert(q >= 0) by (nonlinear_arith)
            requires
                n >= 0,
                n == range * q + n % range,
                0 <= n % range < range,
                range > 0,
        ;
    }
    if v >= lo + range {
        assert(q >= ONE) by (nonlinear_arith)
            requires
                n >= range * ONE,
                n == range * q + n % range,
                0 <= n % range < range,
                range > 0,
        ;
    }
    if v <= lo + range {
        assert(q <= ONE) by (nonlinear_arith)
            requires
                n <= range * ONE,
                n == range * q + n % range,
                0 <= n % range < range,
                range > 0,
        ;
    }
}

/// The order of samples: at most.
pub open spec fn sample_order() -> spec_fn(i32, i32) -> bool {
    |a: i32, b: i32| a <= b
}

/// The samples in ascending order.
pub open spec fn ascending(s: Seq<i32>) -> Seq<i32> {
    s.sort_by(sample_order())
}

/// The place, in ascending order, of the fifth percentile of `n` samples.
pub open spec fn low_rank(n: int) -> int {
    (5 * n) / 100
}

/// The place, in ascending order, of the ninety-fifth percentile of `n`
/// samples.
pub open spec fn high_rank(n: int) -> int {
    (95 * n) / 100
}

/// `slice::sort` of the standard library: afterwards the vector holds the
/// same elements as before, each as often as before, in ascending order.
#[verifier::external_body]
fn sort_samples(v: &mut Vec<i32>)
    ensures
        final(v)@.to_multiset() == old(v)@.to_multiset(),
        sorted_by(final(v)@, sample_order()),
{
    v.sort();
}

/// Sorting keeps the number of samples, and puts them in ascending order.
pub proof fn lemma_ascending(s: Seq<i32>)
    ensures
        ascending(s).len() == s.len(),
        ascending(s).to_multiset() == s.to_multiset(),
        forall|i: int, j: int|
            0 <= i <= j < s.len() ==> #[trigger] ascending(s)[i] <= #[trigger] ascending(s)[j],
{
    let leq = sample_order();
    assert(total_ordering(leq));
    s.lemma_sort_by_ensures(leq);
    to_multiset_len(s);
    to_multiset_len(ascending(s));
    assert forall|i: int, j: int| 0 <= i <= j < s.len() implies #[trigger] ascending(s)[i]
        <= #[trigger] ascending(s)[j] by {
        if i < j {
            assert(leq(ascending(s)[i], ascending(s)[j]));
        }
    }
}

/// Finds the samples at the fifth and at the ninety-fifth percentile.
pub fn percentile_bounds(v: Vec<i32>) -> (r: (i32, i32))
    requires
        v@.len() > 0,
    ensures
        r.0 == ascending(v@)[low_rank(v@.len() as int)],
        r.1 == ascending(v@)[high_rank(v@.len() as int)],
        r.0 <= r.1,
{
    let ghost before = v@;
    let mut sorted = v;
    sort_samples(&mut sorted);
    proof {
        lemma_ascending(before);
        assert(total_ordering(sample_order()));
        before.lemma_sort_by_ensures(sample_order());
        vstd::seq_lib::lemma_sorted_unique(sorted@, ascending(before), sample_order());
        assert(sorted@ == ascending(before));
    }
    let n: usize = sorted.len();
    let low: usize = ((5 * (n as u128)) / 100) as usize;
    let high: usize = ((95 * (n as u128)) / 100) as usize;
    (sorted[low], sorted[high])
}

} // verus!
