//! Mean, median, sample standard deviation and range of a numeric column.
//!
//! A column is a sequence of fixed-point values (see [`crate::fixed`]). The
//! four functions are independent and pure. Each one rejects an empty column.

use vstd::prelude::*;
use crate::fixed::{
    lemma_round_div_bounds, lemma_round_div_is_nearest, magnitude, round_div, round_div_wide,
};
use crate::root::{floor_sqrt, isqrt, lemma_floor_sqrt};
use crate::sorting::{sort, sorted};

verus! {

/// Why a statistic could not be computed.
#[derive(Debug, Clone, Copy, PartialEq, Eq, Structural)]
pub enum StatsError {
    /// The column has no value.
    EmptyInput,
    /// The column has fewer than two values, and a sample standard deviation
    /// was asked for.
    InsufficientData,
    /// The column has a sample standard deviation of zero, and was to be
    /// standardized.
    DegenerateDistribution,
    /// The statistic, or a quantity on the way to it, does not fit the
    /// machine's integers.
    Overflow,
}

/// Sum of a column.
pub open spec fn sum(v: Seq<i64>) -> int
    decreases v.len(),
{
    if v.len() == 0 {
        0
    } else {
        sum(v.drop_last()) + v.last()
    }
}

/// Arithmetic mean of a non-empty column: its sum divided by its length,
/// rounded to the nearest fixed-point value.
pub open spec fn mean_of(v: Seq<i64>) -> int {
    round_div(sum(v), v.len() as int)
}

/// The sum of a column grows by the value that is appended.
pub proof fn lemma_sum_take(v: Seq<i64>, i: int)
    requires
        0 <= i < v.len(),
    ensures
        sum(v.take(i + 1)) == sum(v.take(i)) + v[i],
{
    assert(v.take(i + 1).drop_last() =~= v.take(i));
}

/// A sum lies between the length times the least and the length times the
/// greatest value that an `i64` can hold.
pub proof fn lemma_sum_bounds(v: Seq<i64>)
    ensures
        v.len() * i64::MIN <= sum(v) <= v.len() * i64::MAX,
    decreases v.len(),
{
    if v.len() > 0 {
        lemma_sum_bounds(v.drop_last());
        assert(v.len() * i64::MIN == (v.len() - 1) * i64::MIN + i64::MIN) by (nonlinear_arith);
        assert(v.len() * i64::MAX == (v.len() - 1) * i64::MAX + i64::MAX) by (nonlinear_arith);
    }
}

/// The mean of a non-empty column is the exact quotient of its sum by its
/// length, up to one half of the smallest fixed-point step.
pub proof fn lemma_mean_is_sum_over_length(v: Seq<i64>)
    requires
        v.len() > 0,
    ensures
        2 * magnitude(sum(v) - mean_of(v) * v.len()) <= v.len(),
        i64::MIN <= mean_of(v) <= i64::MAX,
{
    lemma_round_div_is_nearest(sum(v), v.len() as int);
    lemma_sum_bounds(v);
    assert(i64::MIN * v.len() == v.len() * i64::MIN) by (nonlinear_arith);
    assert(i64::MAX * v.len() == v.len() * i64::MAX) by (nonlinear_arith);
    lemma_round_div_bounds(sum(v), v.len() as int, i64::MIN as int, i64::MAX as int);
}

/// Sum of a column, exactly.
fn total(values: &Vec<i64>) -> (s: i128)
    ensures
        s == sum(values@),
{
    let mut s: i128 = 0;
    let mut i: usize = 0;
    while i < values.len()
        invariant
            i <= values.len(),
            s == sum(values@.take(i as int)),
        decreases values.len() - i,
    {
        proof {
            lemma_sum_take(values@, i as int);
            lemma_sum_bounds(values@.take(i as int));
            lemma_sum_bounds(values@.take(i + 1));
            assert((i + 1) * i64::MAX <= usize::MAX * i64::MAX) by (nonlinear_arith)
                requires
                    i + 1 <= usize::MAX,
            ;
            assert((i + 1) * i64::MIN >= usize::MAX * i64::MIN) by (nonlinear_arith)
                requires
                    i + 1 <= usize::MAX,
            ;
        }
        s = s + values[i] as i128;
        i += 1;
    }
    assert(values@.take(values.len() as int) =~= values@);
    s
}

/// What [`mean`] returns: the mean, or `EmptyInput` for an empty column.
pub open spec fn mean_result(v: Seq<i64>) -> Result<i64, StatsError> {
    if v.len() == 0 {
        Err(StatsError::EmptyInput)
    } else {
        Ok(mean_of(v) as i64)
    }
}

/// Arithmetic mean of a column.
///
/// Fails with `EmptyInput` on an empty column, and on no other.
pub fn mean(values: &Vec<i64>) -> (r: Result<i64, StatsError>)
    ensures
        r == mean_result(values@),
{
    if values.len() == 0 {
        return Err(StatsError::EmptyInput);
    }
    let s = total(values);
    proof {
        lemma_mean_is_sum_over_length(values@);
    }
    Ok(round_div_wide(s, values.len() as u128) as i64)
}

/// Median of a non-empty column: the middle value of the sorted column, or,
/// for an even length, the mean of the two middle values.
pub open spec fn median_of(v: Seq<i64>) -> int {
    middle_of(sorted(v))
}

/// The middle of a column: the value at the middle place, or, for an even
/// length, the mean of the values at the two middle places.
pub open spec fn middle_of(s: Seq<i64>) -> int {
    let n = s.len() as int;
    if n % 2 == 1 {
        s[n / 2] as int
    } else {
        round_div(s[n / 2 - 1] + s[n / 2], 2)
    }
}

/// What [`median`] returns: the median, or `EmptyInput` for an empty column.
pub open spec fn median_result(v: Seq<i64>) -> Result<i64, StatsError> {
    if v.len() == 0 {
        Err(StatsError::EmptyInput)
    } else {
        Ok(median_of(v) as i64)
    }
}

/// The middle of a sorted, non-empty column.
fn middle(ordered: &Vec<i64>) -> (m: i64)
    requires
        ordered@.len() > 0,
    ensures
        m == middle_of(ordered@),
{
    let n = ordered.len();
    if n % 2 == 1 {
        ordered[n / 2]
    } else {
        let low = ordered[n / 2 - 1] as i128;
        let high = ordered[n / 2] as i128;
        proof {
            lemma_round_div_bounds(low + high, 2, i64::MIN as int, i64::MAX as int);
        }
        round_div_wide(low + high, 2u128) as i64
    }
}

/// Median of a column. The column is not reordered: a copy is sorted.
///
/// Fails with `EmptyInput` on an empty column, and on no other.
pub fn median(values: &Vec<i64>) -> (r: Result<i64, StatsError>)
    ensures
        r == median_result(values@),
{
    if values.len() == 0 {
        return Err(StatsError::EmptyInput);
    }
    let ordered = sort(values);
    Ok(middle(&ordered))
}

/// Median of a column, for a caller who can do without the order of the
/// column: the column itself is left sorted.
///
/// Fails with `EmptyInput` on an empty column, and on no other.
pub fn median_in_place(values: &mut Vec<i64>) -> (r: Result<i64, StatsError>)
    ensures
        r == median_result(old(values)@),
        final(values)@ == sorted(old(values)@),
{
    let ordered = sort(values);
    *values = ordered;
    if values.len() == 0 {
        return Err(StatsError::EmptyInput);
    }
    Ok(middle(values))
}

/// Least value of a non-empty column.
pub open spec fn min_of(v: Seq<i64>) -> int
    decreases v.len(),
{
    if v.len() <= 1 {
        v[0] as int
    } else if v.last() < min_of(v.drop_last()) {
        v.last() as int
    } else {
        min_of(v.drop_last())
    }
}

/// Greatest value of a non-empty column.
pub open spec fn max_of(v: Seq<i64>) -> int
    decreases v.len(),
{
    if v.len() <= 1 {
        v[0] as int
    } else if v.last() > max_of(v.drop_last()) {
        v.last() as int
    } else {
        max_of(v.drop_last())
    }
}

/// The least value of a column is one of its values, and none is smaller;
/// the greatest is one of its values, and none is greater.
pub proof fn lemma_min_max(v: Seq<i64>)
    requires
        v.len() > 0,
    ensures
        exists|i: int| 0 <= i < v.len() && v[i] == min_of(v),
        exists|i: int| 0 <= i < v.len() && v[i] == max_of(v),
        forall|i: int| 0 <= i < v.len() ==> min_of(v) <= #[trigger] v[i] <= max_of(v),
    decreases v.len(),
{
    if v.len() > 1 {
        let w = v.drop_last();
        lemma_min_max(w);
        let i = choose|i: int| 0 <= i < w.len() && w[i] == min_of(w);
        let j = choose|j: int| 0 <= j < w.len() && w[j] == max_of(w);
        assert(v[i] == w[i] && v[j] == w[j]);
        let last = v.len() - 1;
        assert(v[last] == v.last());
        assert(v[if v.last() < min_of(w) { last } else { i }] == min_of(v));
        assert(v[if v.last() > max_of(w) { last } else { j }] == max_of(v));
        assert forall|k: int| 0 <= k < v.len() implies min_of(v) <= #[trigger] v[k] <= max_of(v) by {
            if k < w.len() {
                assert(v[k] == w[k]);
            }
        }
    } else {
        assert(v[0] == min_of(v));
        assert(v[0] == max_of(v));
    }
}

/// Range of a non-empty column: its greatest value minus its least.
pub open spec fn range_of(v: Seq<i64>) -> int {
    max_of(v) - min_of(v)
}

/// What [`range`] returns: the range; `EmptyInput` for an empty column;
/// `Overflow` where the range is more than an `i64` can hold.
pub open spec fn range_result(v: Seq<i64>) -> Result<i64, StatsError> {
    if v.len() == 0 {
        Err(StatsError::EmptyInput)
    } else if range_of(v) > i64::MAX {
        Err(StatsError::Overflow)
    } else {
        Ok(range_of(v) as i64)
    }
}

/// Range of a column: the distance from its least to its greatest value.
///
/// Fails with `EmptyInput` on an empty column, and with `Overflow` where the
/// distance is more than an `i64` can hold.
pub fn range(values: &Vec<i64>) -> (r: Result<i64, StatsError>)
    ensures
        r == range_result(values@),
{
    if values.len() == 0 {
        return Err(StatsError::EmptyInput);
    }
    let mut low: i64 = values[0];
    let mut high: i64 = values[0];
    let mut i: usize = 1;
    assert(values@.take(1).len() == 1);
    while i < values.len()
        invariant
            1 <= i <= values.len(),
            low == min_of(values@.take(i as int)),
            high == max_of(values@.take(i as int)),
        decreases values.len() - i,
    {
        assert(values@.take(i + 1).drop_last() =~= values@.take(i as int));
        if values[i] < low {
            low = values[i];
        }
        if values[i] > high {
            high = values[i];
        }
        i += 1;
    }
    assert(values@.take(values.len() as int) =~= values@);
    proof {
        lemma_min_max(values@);
    }
    let spread: i128 = high as i128 - low as i128;
    if spread > i64::MAX as i128 {
        Err(StatsError::Overflow)
    } else {
        Ok(spread as i64)
    }
}

/// Sum of the squared distances of the values of a column from `c`.
pub open spec fn sum_sq_dev(v: Seq<i64>, c: int) -> int
    decreases v.len(),
{
    if v.len() == 0 {
        0
    } else {
        sum_sq_dev(v.drop_last(), c) + (v.last() - c) * (v.last() - c)
    }
}

/// Sample standard deviation of a column of two values or more: the square
/// root of the sum of the squared distances from the mean, divided by one less
/// than the length (Bessel's correction), rounded down to a fixed-point value.
pub open spec fn sample_std_dev_of(v: Seq<i64>) -> int {
    floor_sqrt(sum_sq_dev(v, mean_of(v)) / (v.len() - 1))
}

/// What [`sample_std_dev`] returns: the sample standard deviation;
/// `EmptyInput` for an empty column; `InsufficientData` for a column of one
/// value; `Overflow` where the sum of the squared distances from the mean is
/// more than a `u128` can hold, or the deviation more than an `i64` can.
pub open spec fn sample_std_dev_result(v: Seq<i64>) -> Result<i64, StatsError> {
    if v.len() == 0 {
        Err(StatsError::EmptyInput)
    } else if v.len() == 1 {
        Err(StatsError::InsufficientData)
    } else if sum_sq_dev(v, mean_of(v)) > u128::MAX || sample_std_dev_of(v) > i64::MAX {
        Err(StatsError::Overflow)
    } else {
        Ok(sample_std_dev_of(v) as i64)
    }
}

/// The sum of squared distances grows by the square of the distance of the
/// value that is appended.
pub proof fn lemma_sum_sq_dev_take(v: Seq<i64>, c: int, i: int)
    requires
        0 <= i < v.len(),
    ensures
        sum_sq_dev(v.take(i + 1), c) == sum_sq_dev(v.take(i), c) + (v[i] - c) * (v[i] - c),
{
    assert(v.take(i + 1).drop_last() =~= v.take(i));
}

/// A sum of squared distances is not negative, and that of a leading part of
/// a column is at most that of the column.
pub proof fn lemma_sum_sq_dev_grows(v: Seq<i64>, c: int, i: int)
    requires
        0 <= i <= v.len(),
    ensures
        0 <= sum_sq_dev(v.take(i), c) <= sum_sq_dev(v, c),
    decreases v.len(),
{
    if v.len() == 0 {
        assert(v.take(i) =~= v);
    } else if i == v.len() {
        assert(v.take(i) =~= v);
        lemma_sum_sq_dev_grows(v.drop_last(), c, 0);
        assert((v.last() - c) * (v.last() - c) >= 0) by (nonlinear_arith);
    } else {
        lemma_sum_sq_dev_grows(v.drop_last(), c, i);
        assert(v.drop_last().take(i) =~= v.take(i));
        assert((v.last() - c) * (v.last() - c) >= 0) by (nonlinear_arith);
    }
}

/// No squared distance is more than the sum of them all.
pub proof fn lemma_sum_sq_dev_covers(v: Seq<i64>, c: int, i: int)
    requires
        0 <= i < v.len(),
    ensures
        (v[i] - c) * (v[i] - c) <= sum_sq_dev(v, c),
{
    lemma_sum_sq_dev_take(v, c, i);
    lemma_sum_sq_dev_grows(v, c, i);
    lemma_sum_sq_dev_grows(v, c, i + 1);
}

/// The sample standard deviation is the root, rounded down, of the exact
/// quotient of the sum of squared distances by one less than the length: it
/// is not negative, its square times that divisor is at most the sum, and
/// the same of the next fixed-point value is more than the sum.
pub proof fn lemma_sample_std_dev_is_root(v: Seq<i64>)
    requires
        v.len() >= 2,
    ensures
        0 <= sample_std_dev_of(v),
        sample_std_dev_of(v) * sample_std_dev_of(v) * (v.len() - 1) <= sum_sq_dev(v, mean_of(v)),
        sum_sq_dev(v, mean_of(v)) < (sample_std_dev_of(v) + 1) * (sample_std_dev_of(v) + 1) * (
        v.len() - 1),
{
    let q = sum_sq_dev(v, mean_of(v));
    let k = v.len() - 1;
    let x = q / k;
    let s = sample_std_dev_of(v);
    lemma_sum_sq_dev_grows(v, mean_of(v), 0);
    assert(q == k * x + q % k && 0 <= q % k < k) by {
        vstd::arithmetic::div_mod::lemma_fundamental_div_mod(q, k);
        vstd::arithmetic::div_mod::lemma_mod_bound(q, k);
    }
    assert(0 <= x) by (nonlinear_arith)
        requires
            q == k * x + q % k,
            q % k < k,
            0 <= q,
            0 < k,
    ;
    lemma_floor_sqrt(x);
    assert(s * s * k <= q) by (nonlinear_arith)
        requires
            s * s <= x,
            q == k * x + q % k,
            0 <= q % k,
            0 < k,
    ;
    assert(q < (s + 1) * (s + 1) * k) by (nonlinear_arith)
        requires
            x + 1 <= (s + 1) * (s + 1),
            q == k * x + q % k,
            q % k < k,
            0 < k,
    ;
}

/// Sum of the squared distances of the values from `center`, or `None` where
/// it is more than a `u128` can hold.
fn squared_distances(values: &Vec<i64>, center: i64) -> (r: Option<u128>)
    ensures
        r is None <==> sum_sq_dev(values@, center as int) > u128::MAX,
        r matches Some(total) ==> total == sum_sq_dev(values@, center as int),
{
    let mut acc: u128 = 0;
    let mut i: usize = 0;
    while i < values.len()
        invariant
            i <= values.len(),
            acc == sum_sq_dev(values@.take(i as int), center as int),
        decreases values.len() - i,
    {
        let d: i128 = values[i] as i128 - center as i128;
        let a: u128 = if d < 0 {
            (-d) as u128
        } else {
            d as u128
        };
        assert(a * a <= u128::MAX && a * a == d * d) by (nonlinear_arith)
            requires
                a == d || a == -d,
                0 <= a <= 0xffff_ffff_ffff_ffffu128,
        ;
        let sq: u128 = a * a;
        proof {
            lemma_sum_sq_dev_take(values@, center as int, i as int);
            lemma_sum_sq_dev_grows(values@, center as int, i + 1);
        }
        if sq > u128::MAX - acc {
            return None;
        }
        acc = acc + sq;
        i += 1;
    }
    assert(values@.take(values.len() as int) =~= values@);
    Some(acc)
}

/// Sample standard deviation of a column, with Bessel's correction: the
/// divisor is one less than the number of values.
///
/// Fails with `EmptyInput` on an empty column, with `InsufficientData` on a
/// column of one value, and with `Overflow` where the sum of the squared
/// distances from the mean, or the result, does not fit.
pub fn sample_std_dev(values: &Vec<i64>) -> (r: Result<i64, StatsError>)
    ensures
        r == sample_std_dev_result(values@),
{
    let n = values.len();
    if n == 0 {
        return Err(StatsError::EmptyInput);
    }
    if n == 1 {
        return Err(StatsError::InsufficientData);
    }
    let center = match mean(values) {
        Ok(m) => m,
        Err(e) => {
            return Err(e);
        },
    };
    proof {
        lemma_mean_is_sum_over_length(values@);
    }
    match squared_distances(values, center) {
        None => Err(StatsError::Overflow),
        Some(total) => {
            let spread = isqrt(total / ((n - 1) as u128));
            if spread > i64::MAX as u64 {
                Err(StatsError::Overflow)
            } else {
                Ok(spread as i64)
            }
        },
    }
}

/// Of an empty column no statistic is returned: each of the four functions
/// fails, with `EmptyInput`.
pub proof fn lemma_empty_column_is_rejected()
    ensures
        mean_result(Seq::empty()) == Err::<i64, StatsError>(StatsError::EmptyInput),
        median_result(Seq::empty()) == Err::<i64, StatsError>(StatsError::EmptyInput),
        sample_std_dev_result(Seq::empty()) == Err::<i64, StatsError>(StatsError::EmptyInput),
        range_result(Seq::empty()) == Err::<i64, StatsError>(StatsError::EmptyInput),
{
}

} // verus!
