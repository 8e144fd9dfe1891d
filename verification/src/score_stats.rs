//! What holds of the standard scores of a column: their mean is about
//! zero, and their sample standard deviation about one.
//!
//! A score is `(v[i] - c) * SCALE / s`, rounded to a step, where `c` is the
//! mean of the column and `s` its deviation. Three roundings stand between the
//! scores and the exact ones: that of `c`, that of `s`, and that of each
//! score. Each moves a value by at most a step, so the mean and the deviation
//! of the scores miss zero and one by a few steps, and by what a step is worth
//! in units of `s`. To keep quotients out of the way, the proofs compare sums
//! that are multiplied through by `s`.

use vstd::prelude::*;
use crate::aggregate::{
    mean_of, sample_std_dev_of, sample_std_dev_result, sum, sum_sq_dev,
    lemma_mean_is_sum_over_length, lemma_sample_std_dev_is_root, lemma_sum_sq_dev_take,
    lemma_sum_take,
};
use crate::fixed::{magnitude, round_div, lemma_round_div_is_nearest, SCALE};
use crate::standardize::{standardize_result, standardized, lemma_z_score_bounds};

verus! {

/// The scores of the first `i` values add up to what the distances of those
/// values from the mean add up to, in units of the spread, up to half a
/// fixed-point step for each value.
proof fn lemma_score_sum(v: Seq<i64>, i: int)
    requires
        2 <= v.len() <= usize::MAX,
        sample_std_dev_of(v) >= 1,
        0 <= i <= v.len(),
    ensures
        2 * magnitude(
            SCALE * (sum(v.take(i)) - i * mean_of(v)) - sample_std_dev_of(v) * sum(
                standardized(v).take(i),
            ),
        ) <= i * sample_std_dev_of(v),
    decreases i,
{
    let z = standardized(v);
    let c = mean_of(v);
    let s = sample_std_dev_of(v);
    if i == 0 {
        assert(v.take(0) =~= Seq::<i64>::empty());
        assert(z.take(0) =~= Seq::<i64>::empty());
        assert(i * s == 0) by (nonlinear_arith)
            requires
                i == 0,
        ;
    } else {
        let j = i - 1;
        lemma_score_sum(v, j);
        lemma_sum_take(v, j);
        lemma_sum_take(z, j);
        lemma_z_score_bounds(v, j);
        let d = v[j] - c;
        lemma_round_div_is_nearest(d * SCALE, s);
        assert(z[j] == round_div(d * SCALE, s));
        let before = SCALE * (sum(v.take(j)) - j * c) - s * sum(z.take(j));
        let step = d * SCALE - z[j] * s;
        let after = SCALE * (sum(v.take(i)) - i * c) - s * sum(z.take(i));
        assert(after == before + step) by (nonlinear_arith)
            requires
                sum(v.take(i)) == sum(v.take(j)) + v[j],
                sum(z.take(i)) == sum(z.take(j)) + z[j],
                d == v[j] - c,
                i == j + 1,
                before == SCALE * (sum(v.take(j)) - j * c) - s * sum(z.take(j)),
                step == d * SCALE - z[j] * s,
                after == SCALE * (sum(v.take(i)) - i * c) - s * sum(z.take(i)),
        ;
        assert(i * s == j * s + s) by (nonlinear_arith)
            requires
                i == j + 1,
        ;
    }
}

/// The mean of the scores, times twice the spread, is at most one plus
/// twice the spread.
proof fn lemma_score_mean(v: Seq<i64>)
    requires
        2 <= v.len() <= usize::MAX,
        sample_std_dev_of(v) >= 1,
    ensures
        2 * sample_std_dev_of(v) * magnitude(mean_of(standardized(v))) <= SCALE + 2
            * sample_std_dev_of(v),
{
    let z = standardized(v);
    let n = v.len() as int;
    let c = mean_of(v);
    let s = sample_std_dev_of(v);
    lemma_score_sum(v, n);
    assert(v.take(n) =~= v);
    assert(z.take(n) =~= z);
    lemma_mean_is_sum_over_length(v);
    lemma_round_div_is_nearest(sum(z), n);
    let m = mean_of(z);
    let drift = sum(v) - n * c;
    assert(drift == sum(v) - c * n) by (nonlinear_arith)
        requires
            drift == sum(v) - n * c,
    ;
    assert(2 * s * magnitude(sum(z)) <= n * (SCALE + s)) by (nonlinear_arith)
        requires
            2 * magnitude(SCALE * drift - s * sum(z)) <= n * s,
            2 * magnitude(drift) <= n,
            s >= 1,
            SCALE == 1_000_000,
    ;
    assert(2 * s * magnitude(m) <= SCALE + 2 * s) by (nonlinear_arith)
        requires
            2 * s * magnitude(sum(z)) <= n * (SCALE + s),
            2 * magnitude(sum(z) - m * n) <= n,
            s >= 1,
            n >= 2,
    {
        assert(2 * s * magnitude(m * n) <= 2 * s * magnitude(sum(z)) + s * n);
        assert(magnitude(m * n) == magnitude(m) * n);
        assert(2 * s * (magnitude(m) * n) <= n * (SCALE + 2 * s));
        assert((2 * s * magnitude(m)) * n <= (SCALE + 2 * s) * n);
    }
}

/// The standard scores of a column have a mean of about zero: its
/// magnitude is at most one fixed-point step, a millionth, plus half the
/// reciprocal of the deviation of the column counted in steps. For a column
/// whose deviation is at least one, that is one step.
pub proof fn lemma_standardized_mean_is_zero(v: Seq<i64>)
    requires
        v.len() <= usize::MAX,
        standardize_result(v) is Ok,
    ensures
        2 * sample_std_dev_of(v) * magnitude(mean_of(standardized(v))) <= SCALE + 2
            * sample_std_dev_of(v),
        sample_std_dev_of(v) >= SCALE ==> magnitude(mean_of(standardized(v))) <= 1,
{
    let s = sample_std_dev_of(v);
    let m = mean_of(standardized(v));
    lemma_sample_std_dev_is_root(v);
    lemma_score_mean(v);
    if s >= SCALE {
        assert(magnitude(m) <= 1) by (nonlinear_arith)
            requires
                2 * s * magnitude(m) <= SCALE + 2 * s,
                s >= SCALE,
                SCALE == 1_000_000,
        ;
    }
}

/// Four times `s` times the square of `SCALE * d + f`, where twice `f` is at
/// most `SCALE + 3 * s` in magnitude, is that multiple of the square of
/// `SCALE * d` up to a share of `d * d` and of `s * s`.
proof fn lemma_scaled_square(d: int, f: int, s: int)
    requires
        1 <= s,
        2 * magnitude(f) <= SCALE + 3 * s,
    ensures
        4 * s * ((SCALE * d + f) * (SCALE * d + f)) <= (4 * s * (SCALE * SCALE) + 2 * SCALE * (
        SCALE + 3 * s)) * (d * d) + 2 * SCALE * (SCALE + 3 * s) * (s * s) + s * ((SCALE + 3 * s) * (
        SCALE + 3 * s)),
        4 * s * ((SCALE * d + f) * (SCALE * d + f)) >= (4 * s * (SCALE * SCALE) - 2 * SCALE * (
        SCALE + 3 * s)) * (d * d) - 2 * SCALE * (SCALE + 3 * s) * (s * s),
{
    let w = SCALE + 3 * s;
    let t = SCALE * d + f;
    let dd = d * d;
    let ss = s * s;
    let df = d * f;
    let ff = f * f;
    assert(t * t == 1_000_000_000_000 * dd + 2_000_000 * df + ff) by (nonlinear_arith)
        requires
            t == 1_000_000 * d + f,
            dd == d * d,
            df == d * f,
            ff == f * f,
    ;
    assert(4 * ff <= w * w && 0 <= ff) by (nonlinear_arith)
        requires
            2 * magnitude(f) <= w,
            ff == f * f,
    ;
    assert(0 <= dd && 0 <= ss) by (nonlinear_arith)
        requires
            dd == d * d,
            ss == s * s,
    ;
    // Twice `s` times twice `d * f` is at most `w` times `d * d + s * s`.
    assert(-(w * (dd + ss)) <= 4 * (s * df) <= w * (dd + ss)) by (nonlinear_arith)
        requires
            2 * magnitude(f) <= w,
            1 <= s,
            0 <= w,
            dd == d * d,
            ss == s * s,
            df == d * f,
    {
        let a = magnitude(d);
        assert(a * a == dd);
        assert((a - s) * (a - s) >= 0);
        assert(2 * (a * s) <= dd + ss);
        assert(magnitude(df) == a * magnitude(f));
        assert(2 * (a * magnitude(f)) <= a * w);
        assert(magnitude(s * df) == s * magnitude(df));
        assert(4 * (s * magnitude(df)) <= (2 * (a * s)) * w);
        assert((2 * (a * s)) * w <= (dd + ss) * w);
    }
    assert(4 * s * (t * t) == 4_000_000_000_000 * (s * dd) + 2_000_000 * (4 * (s * df)) + s * (4
        * ff)) by (nonlinear_arith)
        requires
            t * t == 1_000_000_000_000 * dd + 2_000_000 * df + ff,
    ;
    assert(s * (4 * ff) <= s * (w * w) && 0 <= s * (4 * ff)) by (nonlinear_arith)
        requires
            4 * ff <= w * w,
            0 <= ff,
            1 <= s,
    ;
    assert((4 * s * (SCALE * SCALE) + 2 * SCALE * w) * dd == 4_000_000_000_000 * (s * dd)
        + 2_000_000 * (w * dd)) by (nonlinear_arith)
        requires
            SCALE == 1_000_000,
    ;
    assert((4 * s * (SCALE * SCALE) - 2 * SCALE * w) * dd == 4_000_000_000_000 * (s * dd)
        - 2_000_000 * (w * dd)) by (nonlinear_arith)
        requires
            SCALE == 1_000_000,
    ;
    assert(2 * SCALE * w * ss == 2_000_000 * (w * ss)) by (nonlinear_arith)
        requires
            SCALE == 1_000_000,
    ;
    assert(w * (dd + ss) == w * dd + w * ss) by (nonlinear_arith);
}

/// The squared distances of the first `i` scores from the mean of the
/// scores add up to what those of the values from their mean add up to, in
/// units of the spread, up to a share of either sum.
proof fn lemma_score_spread(v: Seq<i64>, i: int)
    requires
        2 <= v.len() <= usize::MAX,
        sample_std_dev_of(v) >= 1,
        0 <= i <= v.len(),
    ensures
        ({
            let s = sample_std_dev_of(v);
            let w = SCALE + 3 * s;
            let qz = sum_sq_dev(standardized(v).take(i), mean_of(standardized(v)));
            let qv = sum_sq_dev(v.take(i), mean_of(v));
            &&& 4 * s * (s * s) * qz <= (4 * s * (SCALE * SCALE) + 2 * SCALE * w) * qv + i * (2
                * SCALE * w * (s * s) + s * (w * w))
            &&& 4 * s * (s * s) * qz >= (4 * s * (SCALE * SCALE) - 2 * SCALE * w) * qv - i * (2
                * SCALE * w * (s * s))
        }),
    decreases i,
{
    let z = standardized(v);
    let c = mean_of(v);
    let s = sample_std_dev_of(v);
    let mz = mean_of(z);
    let ss = s * s;
    let w = SCALE + 3 * s;
    let hi = 4 * s * (SCALE * SCALE) + 2 * SCALE * w;
    let lo = 4 * s * (SCALE * SCALE) - 2 * SCALE * w;
    let up = 2 * SCALE * w * ss + s * (w * w);
    let down = 2 * SCALE * w * ss;
    if i == 0 {
        assert(v.take(0) =~= Seq::<i64>::empty());
        assert(z.take(0) =~= Seq::<i64>::empty());
        assert(4 * s * ss * 0 == 0);
        assert(hi * 0 == 0 && lo * 0 == 0);
        assert(i * up == 0 && i * down == 0) by (nonlinear_arith)
            requires
                i == 0,
        ;
    } else {
        let j = i - 1;
        lemma_score_spread(v, j);
        lemma_sum_sq_dev_take(v, c, j);
        lemma_sum_sq_dev_take(z, mz, j);
        lemma_z_score_bounds(v, j);
        lemma_score_mean(v);
        let d = v[j] - c;
        lemma_round_div_is_nearest(d * SCALE, s);
        assert(z[j] == round_div(d * SCALE, s));
        let u = z[j] - mz;
        let f = s * u - SCALE * d;
        assert(2 * magnitude(f) <= w) by (nonlinear_arith)
            requires
                f == s * (z[j] - mz) - SCALE * d,
                2 * magnitude(d * SCALE - z[j] * s) <= s,
                2 * s * magnitude(mz) <= SCALE + 2 * s,
                s >= 1,
                w == SCALE + 3 * s,
        {
            assert(f == (z[j] * s - d * SCALE) - s * mz);
            assert(magnitude(s * mz) == s * magnitude(mz));
        }
        lemma_scaled_square(d, f, s);
        let t = SCALE * d + f;
        assert(t == s * u);
        assert(t * t == ss * (u * u)) by (nonlinear_arith)
            requires
                t == s * u,
                ss == s * s,
        ;
        let qz0 = sum_sq_dev(z.take(j), mz);
        let qv0 = sum_sq_dev(v.take(j), c);
        let qz1 = sum_sq_dev(z.take(i), mz);
        let qv1 = sum_sq_dev(v.take(i), c);
        assert(qz1 == qz0 + u * u);
        assert(qv1 == qv0 + d * d);
        assert(4 * s * ss * qz1 == 4 * s * ss * qz0 + 4 * s * (t * t)) by (nonlinear_arith)
            requires
                qz1 == qz0 + u * u,
                t * t == ss * (u * u),
        ;
        assert(hi * qv1 == hi * qv0 + hi * (d * d)) by (nonlinear_arith)
            requires
                qv1 == qv0 + d * d,
        ;
        assert(lo * qv1 == lo * qv0 + lo * (d * d)) by (nonlinear_arith)
            requires
                qv1 == qv0 + d * d,
        ;
        assert(i * up == j * up + up && i * down == j * down + down) by (nonlinear_arith)
            requires
                i == j + 1,
        ;
    }
}

/// Bounds a root from above. Where `sz` is the root, rounded down, of
/// `qz / k`, and `qz` is bounded from above in terms of `qv` as
/// `lemma_score_spread` shows, with `s` the root, rounded down, of `qv / k`:
/// then `s * sz` is less than `s * (SCALE + 5) + 3 * SCALE`.
proof fn lemma_root_from_above(s: int, k: int, qv: int, qz: int, sz: int)
    requires
        1 <= s,
        1 <= k,
        0 <= sz,
        qv < (s + 1) * (s + 1) * k,
        sz * sz * k <= qz,
        4 * s * (s * s) * qz <= (4 * s * (SCALE * SCALE) + 2 * SCALE * (SCALE + 3 * s)) * qv + (k
            + 1) * (2 * SCALE * (SCALE + 3 * s) * (s * s) + s * ((SCALE + 3 * s) * (SCALE + 3
            * s))),
    ensures
        s * sz < s * SCALE + (3 * SCALE + 5 * s),
        sz < 4_000_005,
        qz < 4_000_005 * 4_000_005 * k,
{
    let w = SCALE + 3 * s;
    let n = k + 1;
    let ss = s * s;
    let s2 = s * s;
    let s3 = s * s2;
    assert(s2 >= s && s3 >= s2) by (nonlinear_arith)
        requires
            s >= 1,
            s2 == s * s,
            s3 == s * s2,
    ;
    let hi = 4 * s * (SCALE * SCALE) + 2 * SCALE * w;
    let up = 2 * SCALE * w * ss + s * (w * w);
    let reach = s * SCALE + (3 * SCALE + 5 * s);
    assert(reach == 1_000_005 * s + 3_000_000) by (nonlinear_arith)
        requires
            reach == s * SCALE + (3 * SCALE + 5 * s),
            SCALE == 1_000_000,
    ;
    assert(hi == 4_000_006_000_000 * s + 2_000_000_000_000) by (nonlinear_arith)
        requires
            hi == 4 * s * (SCALE * SCALE) + 2 * SCALE * w,
            w == SCALE + 3 * s,
            SCALE == 1_000_000,
    ;
    let ww = w * w;
    assert(ww == 1_000_000_000_000 + 6_000_000 * s + 9 * s2) by (nonlinear_arith)
        requires
            ww == w * w,
            w == 1_000_000 + 3 * s,
            s2 == s * s,
    ;
    assert(s * ww == 1_000_000_000_000 * s + 6_000_000 * s2 + 9 * s3) by (nonlinear_arith)
        requires
            ww == 1_000_000_000_000 + 6_000_000 * s + 9 * s2,
            s2 == s * s,
            s3 == s * s2,
    ;
    assert(w * ss == 1_000_000 * s2 + 3 * s3) by (nonlinear_arith)
        requires
            w == 1_000_000 + 3 * s,
            ss == s2,
            s3 == s * s2,
    ;
    assert(up == 6_000_009 * s3 + 2_000_006_000_000 * s2 + 1_000_000_000_000 * s)
        by (nonlinear_arith)
        requires
            up == 2 * SCALE * w * ss + s * (w * w),
            ww == w * w,
            s * ww == 1_000_000_000_000 * s + 6_000_000 * s2 + 9 * s3,
            w * ss == 1_000_000 * s2 + 3 * s3,
            SCALE == 1_000_000,
    ;
    let rr = reach * reach;
    assert(rr == 1_000_010_000_025 * s2 + 6_000_030_000_000 * s + 9_000_000_000_000)
        by (nonlinear_arith)
        requires
            rr == reach * reach,
            reach == 1_000_005 * s + 3_000_000,
            s2 == s * s,
    ;
    assert(4 * s * (reach * reach) == 4_000_040_000_100 * s3 + 24_000_120_000_000 * s2
        + 36_000_000_000_000 * s) by (nonlinear_arith)
        requires
            rr == reach * reach,
            rr == 1_000_010_000_025 * s2 + 6_000_030_000_000 * s + 9_000_000_000_000,
            s2 == s * s,
            s3 == s * s2,
    ;
    assert(hi * s2 == 4_000_006_000_000 * s3 + 2_000_000_000_000 * s2 && hi * s
        == 4_000_006_000_000 * s2 + 2_000_000_000_000 * s) by (nonlinear_arith)
        requires
            hi == 4_000_006_000_000 * s + 2_000_000_000_000,
            s2 == s * s,
            s3 == s * s2,
    ;
    assert(hi * (s2 + 2 * s + 1) == 4_000_006_000_000 * s3 + 10_000_012_000_000 * s2
        + 8_000_006_000_000 * s + 2_000_000_000_000) by (nonlinear_arith)
        requires
            hi == 4_000_006_000_000 * s + 2_000_000_000_000,
            hi * s2 == 4_000_006_000_000 * s3 + 2_000_000_000_000 * s2,
            hi * s == 4_000_006_000_000 * s2 + 2_000_000_000_000 * s,
    ;
    let bound = hi * (s2 + 2 * s + 1) + 2 * up;
    assert(bound <= 4 * s * (reach * reach)) by (nonlinear_arith)
        requires
            bound == hi * (s2 + 2 * s + 1) + 2 * up,
            hi * (s2 + 2 * s + 1) == 4_000_006_000_000 * s3 + 10_000_012_000_000 * s2
                + 8_000_006_000_000 * s + 2_000_000_000_000,
            up == 6_000_009 * s3 + 2_000_006_000_000 * s2 + 1_000_000_000_000 * s,
            4 * s * (reach * reach) == 4_000_040_000_100 * s3 + 24_000_120_000_000 * s2
                + 36_000_000_000_000 * s,
            s3 >= s2,
            s2 >= s,
            s >= 1,
    ;
    assert((s + 1) * (s + 1) == s2 + 2 * s + 1) by (nonlinear_arith)
        requires
            s2 == s * s,
    ;
    assert(4 * s * (ss * qz) < bound * k) by (nonlinear_arith)
        requires
            4 * s * ss * qz <= hi * qv + n * up,
            qv < (s + 1) * (s + 1) * k,
            (s + 1) * (s + 1) == s2 + 2 * s + 1,
            n == k + 1,
            k >= 1,
            hi > 0,
            up >= 0,
            bound == hi * (s2 + 2 * s + 1) + 2 * up,
    {
        assert(hi * qv < hi * ((s2 + 2 * s + 1) * k));
        assert(n * up <= (2 * k) * up);
        assert(hi * ((s2 + 2 * s + 1) * k) + (2 * k) * up == bound * k);
        assert(4 * s * ss * qz == 4 * s * (ss * qz));
    }
    assert(ss * qz < (reach * reach) * k) by (nonlinear_arith)
        requires
            4 * s * (ss * qz) < bound * k,
            bound <= 4 * s * (reach * reach),
            s >= 1,
            k >= 1,
    {
        assert(bound * k <= (4 * s * (reach * reach)) * k);
        assert((4 * s * (reach * reach)) * k == 4 * s * ((reach * reach) * k));
    }
    assert(s * sz < reach) by (nonlinear_arith)
        requires
            sz * sz * k <= qz,
            ss * qz < (reach * reach) * k,
            ss == s * s,
            k >= 1,
            s >= 1,
            sz >= 0,
            reach >= 0,
    {
        if s * sz >= reach {
            assert((s * sz) * (s * sz) >= reach * reach);
            assert((s * sz) * (s * sz) == ss * (sz * sz));
            assert(ss * (sz * sz * k) <= ss * qz);
            assert(ss * (sz * sz * k) == (ss * (sz * sz)) * k);
            assert((ss * (sz * sz)) * k >= (reach * reach) * k);
        }
    }
    assert(reach <= 4_000_005 * s) by (nonlinear_arith)
        requires
            reach == s * SCALE + (3 * SCALE + 5 * s),
            SCALE == 1_000_000,
            s >= 1,
    ;
    assert(sz < 4_000_005) by (nonlinear_arith)
        requires
            s * sz < reach,
            reach <= 4_000_005 * s,
            s >= 1,
    ;
    assert(qz < 4_000_005 * 4_000_005 * k) by (nonlinear_arith)
        requires
            ss * qz < (reach * reach) * k,
            0 <= reach <= 4_000_005 * s,
            ss == s * s,
            s >= 1,
            k >= 1,
    {
        assert(reach * reach <= (4_000_005 * s) * (4_000_005 * s));
        assert((4_000_005 * s) * (4_000_005 * s) == ss * (4_000_005 * 4_000_005));
        assert((reach * reach) * k <= (ss * (4_000_005 * 4_000_005)) * k);
        assert((ss * (4_000_005 * 4_000_005)) * k == ss * (4_000_005 * 4_000_005 * k));
    }
}

/// Bounds a root from below. Where `sz` is the root, rounded down, of
/// `qz / k`, and `qz` is bounded from below in terms of `qv` as
/// `lemma_score_spread` shows, with `s` the root, rounded down, of `qv / k`:
/// then `s * sz` is at least `s * (SCALE - 5) - 3 * SCALE`.
proof fn lemma_root_from_below(s: int, k: int, qv: int, qz: int, sz: int)
    requires
        1 <= s,
        1 <= k,
        0 <= sz,
        s * s * k <= qv,
        qz < (sz + 1) * (sz + 1) * k,
        4 * s * (s * s) * qz >= (4 * s * (SCALE * SCALE) - 2 * SCALE * (SCALE + 3 * s)) * qv - (k
            + 1) * (2 * SCALE * (SCALE + 3 * s) * (s * s)),
    ensures
        s * (SCALE - sz) <= 3 * SCALE + 5 * s,
{
    let w = SCALE + 3 * s;
    let r = 3 * SCALE + 5 * s;
    let n = k + 1;
    let ss = s * s;
    let s2 = s * s;
    let s3 = s * s2;
    if s * SCALE >= r {
        let lo = 4 * s * (SCALE * SCALE) - 2 * SCALE * w;
        let down = 2 * SCALE * w * ss;
        let short = s * SCALE - (3 * SCALE + 4 * s);
        assert(s >= 4 && short >= 0 && short == 999_996 * s - 3_000_000) by (nonlinear_arith)
            requires
                s * SCALE >= r,
                r == 3 * SCALE + 5 * s,
                short == s * SCALE - (3 * SCALE + 4 * s),
                SCALE == 1_000_000,
        ;
        assert(s2 >= 4 * s && s3 >= 4 * s2) by (nonlinear_arith)
            requires
                s >= 4,
                s2 == s * s,
                s3 == s * s2,
        ;
        assert(lo == 3_999_994_000_000 * s - 2_000_000_000_000) by (nonlinear_arith)
            requires
                lo == 4 * s * (SCALE * SCALE) - 2 * SCALE * w,
                w == SCALE + 3 * s,
                SCALE == 1_000_000,
        ;
        assert(w * ss == 1_000_000 * s2 + 3 * s3) by (nonlinear_arith)
            requires
                w == 1_000_000 + 3 * s,
                ss == s2,
                s3 == s * s2,
        ;
        assert(down == 6_000_000 * s3 + 2_000_000_000_000 * s2) by (nonlinear_arith)
            requires
                down == 2 * SCALE * w * ss,
                w * ss == 1_000_000 * s2 + 3 * s3,
                SCALE == 1_000_000,
        ;
        let hh = short * short;
        assert(hh == 999_992_000_016 * s2 - 5_999_976_000_000 * s + 9_000_000_000_000)
            by (nonlinear_arith)
            requires
                hh == short * short,
                short == 999_996 * s - 3_000_000,
                s2 == s * s,
        ;
        assert(4 * s * (short * short) == 3_999_968_000_064 * s3 - 23_999_904_000_000 * s2
            + 36_000_000_000_000 * s) by (nonlinear_arith)
            requires
                hh == short * short,
                hh == 999_992_000_016 * s2 - 5_999_976_000_000 * s + 9_000_000_000_000,
                s2 == s * s,
                s3 == s * s2,
        ;
        assert(lo * s2 == 3_999_994_000_000 * s3 - 2_000_000_000_000 * s2) by (nonlinear_arith)
            requires
                lo == 3_999_994_000_000 * s - 2_000_000_000_000,
                s3 == s * s2,
        ;
        let bound = lo * s2 - 2 * down;
        assert(bound >= 4 * s * (short * short)) by (nonlinear_arith)
            requires
                bound == lo * s2 - 2 * down,
                lo * s2 == 3_999_994_000_000 * s3 - 2_000_000_000_000 * s2,
                down == 6_000_000 * s3 + 2_000_000_000_000 * s2,
                4 * s * (short * short) == 3_999_968_000_064 * s3 - 23_999_904_000_000 * s2
                    + 36_000_000_000_000 * s,
                s3 >= 4 * s2,
                s2 >= 4 * s,
                s >= 4,
        ;
        assert(4 * s * (ss * qz) >= bound * k) by (nonlinear_arith)
            requires
                4 * s * ss * qz >= lo * qv - n * down,
                ss * k <= qv,
                ss == s2,
                n == k + 1,
                k >= 1,
                lo >= 0,
                down >= 0,
                bound == lo * s2 - 2 * down,
        {
            assert(lo * qv >= lo * (s2 * k));
            assert(n * down <= (2 * k) * down);
            assert(lo * (s2 * k) - (2 * k) * down == bound * k);
            assert(4 * s * ss * qz == 4 * s * (ss * qz));
        }
        assert(ss * qz >= (short * short) * k) by (nonlinear_arith)
            requires
                4 * s * (ss * qz) >= bound * k,
                bound >= 4 * s * (short * short),
                s >= 1,
                k >= 1,
        {
            assert(bound * k >= (4 * s * (short * short)) * k);
            assert((4 * s * (short * short)) * k == 4 * s * ((short * short) * k));
        }
        assert(s * (sz + 1) > short) by (nonlinear_arith)
            requires
                qz < (sz + 1) * (sz + 1) * k,
                ss * qz >= (short * short) * k,
                ss == s * s,
                k >= 1,
                s >= 1,
                sz >= 0,
                short >= 0,
        {
            if s * (sz + 1) <= short {
                assert((s * (sz + 1)) * (s * (sz + 1)) <= short * short);
                assert((s * (sz + 1)) * (s * (sz + 1)) == ss * ((sz + 1) * (sz + 1)));
                assert(ss * qz < ss * ((sz + 1) * (sz + 1) * k));
                assert(ss * ((sz + 1) * (sz + 1) * k) == (ss * ((sz + 1) * (sz + 1))) * k);
                assert((ss * ((sz + 1) * (sz + 1))) * k <= (short * short) * k);
            }
        }
        assert(s * (SCALE - sz) <= r) by (nonlinear_arith)
            requires
                s * (sz + 1) > short,
                short == s * SCALE - (3 * SCALE + 4 * s),
                r == 3 * SCALE + 5 * s,
        ;
    } else {
        assert(s * (SCALE - sz) <= r) by (nonlinear_arith)
            requires
                s * SCALE < r,
                sz >= 0,
                s >= 1,
        ;
    }
}

/// The standard scores of a column have a sample standard deviation of
/// about one. It can always be computed, and it differs from one by at most
/// five fixed-point steps, five millionths, plus three times the reciprocal
/// of the deviation of the column counted in steps. For a column whose
/// deviation is at least one, that is eight steps.
pub proof fn lemma_standardized_deviation_is_one(v: Seq<i64>)
    requires
        v.len() <= usize::MAX,
        standardize_result(v) is Ok,
    ensures
        sample_std_dev_result(standardized(v)) is Ok,
        sample_std_dev_of(v) * magnitude(sample_std_dev_of(standardized(v)) - SCALE) <= 3 * SCALE
            + 5 * sample_std_dev_of(v),
        sample_std_dev_of(v) >= SCALE ==> magnitude(sample_std_dev_of(standardized(v)) - SCALE)
            <= 8,
{
    let z = standardized(v);
    let n = v.len() as int;
    let k = n - 1;
    let s = sample_std_dev_of(v);
    let qv = sum_sq_dev(v, mean_of(v));
    let qz = sum_sq_dev(z, mean_of(z));
    let sz = sample_std_dev_of(z);
    lemma_sample_std_dev_is_root(v);
    lemma_sample_std_dev_is_root(z);
    lemma_score_spread(v, n);
    assert(v.take(n) =~= v);
    assert(z.take(n) =~= z);
    lemma_root_from_above(s, k, qv, qz, sz);
    lemma_root_from_below(s, k, qv, qz, sz);
    assert(qz <= u128::MAX) by (nonlinear_arith)
        requires
            qz < 4_000_005 * 4_000_005 * k,
            k < 0x1_0000_0000_0000_0000,
    ;
    assert(s * magnitude(sz - SCALE) <= 3 * SCALE + 5 * s) by (nonlinear_arith)
        requires
            s * sz < s * SCALE + (3 * SCALE + 5 * s),
            s * (SCALE - sz) <= 3 * SCALE + 5 * s,
    ;
    if s >= SCALE {
        assert(magnitude(sz - SCALE) <= 8) by (nonlinear_arith)
            requires
                s * magnitude(sz - SCALE) <= 3 * SCALE + 5 * s,
                s >= SCALE,
                SCALE == 1_000_000,
        ;
    }
}

} // verus!
