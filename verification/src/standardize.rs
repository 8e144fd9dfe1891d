//! Rescaling a numeric column to zero mean and unit spread.

use vstd::prelude::*;
use crate::aggregate::{
    StatsError, mean, mean_of, sample_std_dev, sample_std_dev_of, sample_std_dev_result,
    sum_sq_dev, lemma_sum_sq_dev_covers, lemma_mean_is_sum_over_length,
    lemma_sample_std_dev_is_root,
};
use crate::fixed::{round_div, round_div_wide, lemma_round_div_bounds, SCALE};
use crate::root::lemma_floor_sqrt;

verus! {

/// The standard score of `x` in a column with the given mean and spread:
/// its distance from the mean in units of the spread, as a fixed-point value.
pub open spec fn z_score(x: int, center: int, spread: int) -> int {
    round_div((x - center) * SCALE, spread)
}

/// The standard scores of a column, value by value.
pub open spec fn standardized(v: Seq<i64>) -> Seq<i64> {
    Seq::new(v.len(), |i: int| z_score(v[i] as int, mean_of(v), sample_std_dev_of(v)) as i64)
}

/// What [`standardize`] returns: the standard scores of the column; the
/// failure of its sample standard deviation, if that fails;
/// `DegenerateDistribution` where that deviation is zero.
pub open spec fn standardize_result(v: Seq<i64>) -> Result<Seq<i64>, StatsError> {
    match sample_std_dev_result(v) {
        Err(e) => Err(e),
        Ok(spread) => if spread == 0 {
            Err(StatsError::DegenerateDistribution)
        } else {
            Ok(standardized(v))
        },
    }
}

/// The greatest magnitude of a standard score: 2^33, as a fixed-point value.
pub open spec fn z_limit() -> int {
    0x2_0000_0000 * SCALE
}

/// In a column whose sample standard deviation is at least one fixed-point
/// step, no standard score has a magnitude of more than `z_limit()`.
pub proof fn lemma_z_score_bounds(v: Seq<i64>, i: int)
    requires
        2 <= v.len() <= usize::MAX,
        0 <= i < v.len(),
        sample_std_dev_of(v) >= 1,
    ensures
        -z_limit() <= z_score(v[i] as int, mean_of(v), sample_std_dev_of(v)) <= z_limit(),
{
    let c = mean_of(v);
    let q = sum_sq_dev(v, c);
    let k = v.len() - 1;
    let x = q / k;
    let s = sample_std_dev_of(v);
    let d = v[i] - c;
    lemma_sum_sq_dev_covers(v, c, i);
    assert(0 <= q) by (nonlinear_arith)
        requires
            d * d <= q,
    ;
    assert(q == k * x + q % k && 0 <= q % k < k) by {
        vstd::arithmetic::div_mod::lemma_fundamental_div_mod(q, k);
        vstd::arithmetic::div_mod::lemma_mod_bound(q, k);
    }
    assert(0 <= x) by (nonlinear_arith)
        requires
            q == k * x + q % k,
            q % k < k,
            0 <= q,
            0 < k,
    ;
    lemma_floor_sqrt(x);
    let bound = 0x2_0000_0000 * s;
    assert(d * d < bound * bound) by (nonlinear_arith)
        requires
            d * d <= q,
            q == k * x + q % k,
            q % k < k,
            0 < k < 0x1_0000_0000_0000_0000,
            x < (s + 1) * (s + 1),
            1 <= s,
            bound == 0x2_0000_0000 * s,
    {
        assert(q < k * (x + 1));
        assert(k * (x + 1) <= k * ((s + 1) * (s + 1)));
        assert((s + 1) * (s + 1) <= 4 * (s * s));
        assert(k * ((s + 1) * (s + 1)) <= k * (4 * (s * s)));
        assert(k * (4 * (s * s)) <= 0x1_0000_0000_0000_0000 * (4 * (s * s)));
        assert(bound * bound == 0x1_0000_0000_0000_0000 * (4 * (s * s)));
    }
    assert(-bound < d < bound) by (nonlinear_arith)
        requires
            d * d < bound * bound,
            0 < bound,
    ;
    assert((-z_limit()) * s <= d * SCALE <= z_limit() * s) by (nonlinear_arith)
        requires
            -bound < d < bound,
            bound == 0x2_0000_0000 * s,
            z_limit() == 0x2_0000_0000 * SCALE,
            SCALE == 1_000_000,
    ;
    lemma_round_div_bounds(d * SCALE, s, -z_limit(), z_limit());
}

/// Standardizes a column: each value becomes its distance from the mean of
/// the column, in units of the sample standard deviation. The result has the
/// length and the order of the column.
///
/// Fails as [`sample_std_dev`] does on this column, and with
/// `DegenerateDistribution` where the deviation is zero: that of a constant
/// column, and that of a column whose values lie so close that their
/// deviation is less than one fixed-point step.
pub fn standardize(values: &Vec<i64>) -> (r: Result<Vec<i64>, StatsError>)
    ensures
        match r {
            Ok(scores) => standardize_result(values@) == Ok::<Seq<i64>, StatsError>(scores@),
            Err(e) => standardize_result(values@) == Err::<Seq<i64>, StatsError>(e),
        },
{
    let spread = match sample_std_dev(values) {
        Ok(s) => s,
        Err(e) => {
            return Err(e);
        },
    };
    proof {
        lemma_sample_std_dev_is_root(values@);
    }
    if spread == 0 {
        return Err(StatsError::DegenerateDistribution);
    }
    let center = match mean(values) {
        Ok(m) => m,
        Err(e) => {
            return Err(e);
        },
    };
    proof {
        lemma_mean_is_sum_over_length(values@);
    }
    let mut scores: Vec<i64> = Vec::new();
    let mut i: usize = 0;
    while i < values.len()
        invariant
            i <= values.len(),
            2 <= values.len(),
            center == mean_of(values@),
            spread == sample_std_dev_of(values@),
            spread >= 1,
            scores@ == standardized(values@).take(i as int),
        decreases values.len() - i,
    {
        proof {
            lemma_z_score_bounds(values@, i as int);
        }
        let distance: i128 = values[i] as i128 - center as i128;
        let score = round_div_wide(distance * 1_000_000, spread as u128);
        scores.push(score as i64);
        assert(scores@ =~= standardized(values@).take(i + 1));
        i += 1;
    }
    assert(standardized(values@).take(values.len() as int) =~= standardized(values@));
    Ok(scores)
}

} // verus!
