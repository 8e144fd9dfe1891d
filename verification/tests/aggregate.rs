use salary_pipeline::aggregate::{
    mean, median, median_in_place, range, sample_std_dev, StatsError,
};
use salary_pipeline::fixed::SCALE;

/// Whole numbers as fixed-point values.
fn column(values: &[i64]) -> Vec<i64> {
    values.iter().map(|x| x * SCALE).collect()
}

fn as_float(x: i64) -> f64 {
    x as f64 / SCALE as f64
}

#[test]
fn mean_is_sum_over_length() {
    assert_eq!(mean(&column(&[1, 2, 3, 4])), Ok(2_500_000));
    assert_eq!(mean(&column(&[10])), Ok(10_000_000));
    assert_eq!(mean(&column(&[-3, 3])), Ok(0));
}

#[test]
fn mean_rounds_to_nearest_step() {
    // 7 / 3 = 2.333..., 8 / 3 = 2.666...
    assert_eq!(mean(&vec![1, 2, 4]), Ok(2));
    assert_eq!(mean(&vec![1, 3, 4]), Ok(3));
    // A tie goes away from zero.
    assert_eq!(mean(&vec![1, 2]), Ok(2));
    assert_eq!(mean(&vec![-1, -2]), Ok(-2));
}

#[test]
fn mean_of_extreme_values_does_not_overflow() {
    assert_eq!(mean(&vec![i64::MAX, i64::MAX, i64::MAX]), Ok(i64::MAX));
    assert_eq!(mean(&vec![i64::MIN, i64::MIN]), Ok(i64::MIN));
    assert_eq!(mean(&vec![i64::MIN, i64::MAX]), Ok(-1));
}

#[test]
fn mean_within_tolerance_of_float_mean() {
    let v = column(&[100_000, 85_000, 120_500, 64_000, 230_000]);
    let expected = (100_000.0 + 85_000.0 + 120_500.0 + 64_000.0 + 230_000.0) / 5.0;
    let got = as_float(mean(&v).unwrap());
    assert!((got - expected).abs() < 1e-6);
}

#[test]
fn median_of_even_column_is_mean_of_middle_values() {
    assert_eq!(median(&column(&[1, 2, 3, 4])), Ok(2_500_000));
    assert_eq!(as_float(median(&column(&[1, 2, 3, 4])).unwrap()), 2.5);
}

#[test]
fn median_of_odd_column_is_middle_value() {
    assert_eq!(median(&column(&[1, 2, 3])), Ok(2_000_000));
    assert_eq!(as_float(median(&column(&[1, 2, 3])).unwrap()), 2.0);
}

#[test]
fn median_sorts_a_copy() {
    let v = column(&[9, 1, 8, 2, 7]);
    let before = v.clone();
    assert_eq!(median(&v), Ok(7_000_000));
    assert_eq!(v, before);
}

#[test]
fn median_of_unsorted_column_with_ties() {
    assert_eq!(median(&column(&[5, 3, 5, 1, 3, 5])), Ok(4_000_000));
    assert_eq!(median(&column(&[4])), Ok(4_000_000));
    assert_eq!(median(&vec![i64::MAX, i64::MAX]), Ok(i64::MAX));
    assert_eq!(median(&vec![-3, -2]), Ok(-3));
}

#[test]
fn sample_std_dev_uses_bessel_correction() {
    let v = column(&[2, 4, 4, 4, 5, 5, 7, 9]);
    let sd = sample_std_dev(&v).unwrap();
    // sqrt(32 / 7) = 2.13808993..., rounded down to a millionth.
    assert_eq!(sd, 2_138_089);
    assert!((as_float(sd) - 2.13809).abs() < 1e-5);
    // The population deviation, with divisor 8, would be 2.0.
    assert!((as_float(sd) - 2.0).abs() > 0.1);
}

#[test]
fn sample_std_dev_of_two_values() {
    // Mean 2, squared distances 1 + 1, divisor 1: sqrt(2) steps, rounded down.
    assert_eq!(sample_std_dev(&vec![1, 3]), Ok(1));
    assert_eq!(sample_std_dev(&column(&[1, 3])), Ok(1_414_213));
}

#[test]
fn sample_std_dev_of_constant_column_is_zero() {
    assert_eq!(sample_std_dev(&column(&[7, 7, 7])), Ok(0));
}

#[test]
fn sample_std_dev_needs_two_values() {
    assert_eq!(sample_std_dev(&column(&[7])), Err(StatsError::InsufficientData));
}

#[test]
fn sample_std_dev_reports_overflow() {
    // The deviation itself is more than an `i64` holds.
    assert_eq!(sample_std_dev(&vec![i64::MIN, i64::MAX]), Err(StatsError::Overflow));
    // The sum of the squared distances is more than a `u128` holds.
    let wide = vec![i64::MIN, i64::MAX, i64::MIN, i64::MAX, i64::MIN, i64::MAX];
    assert_eq!(sample_std_dev(&wide), Err(StatsError::Overflow));
    // The largest deviation that fits.
    assert_eq!(sample_std_dev(&vec![i64::MIN, i64::MAX, 0]), Ok(i64::MAX));
}

#[test]
fn range_is_max_minus_min() {
    assert_eq!(range(&column(&[5, -3, 10])), Ok(13_000_000));
    assert_eq!(range(&column(&[4])), Ok(0));
    assert_eq!(range(&vec![0, i64::MAX]), Ok(i64::MAX));
}

#[test]
fn range_reports_overflow() {
    assert_eq!(range(&vec![i64::MIN, i64::MAX]), Err(StatsError::Overflow));
    assert_eq!(range(&vec![-1, i64::MAX]), Err(StatsError::Overflow));
}

#[test]
fn empty_column_is_rejected_by_every_statistic() {
    let empty: Vec<i64> = Vec::new();
    assert_eq!(mean(&empty), Err(StatsError::EmptyInput));
    assert_eq!(median(&empty), Err(StatsError::EmptyInput));
    assert_eq!(sample_std_dev(&empty), Err(StatsError::EmptyInput));
    assert_eq!(range(&empty), Err(StatsError::EmptyInput));
}

#[test]
fn median_in_place_leaves_the_column_sorted() {
    let mut v = column(&[9, 1, 8, 2]);
    assert_eq!(median_in_place(&mut v), Ok(5_000_000));
    assert_eq!(v, column(&[1, 2, 8, 9]));
    let mut empty: Vec<i64> = Vec::new();
    assert_eq!(median_in_place(&mut empty), Err(StatsError::EmptyInput));
    assert_eq!(empty, Vec::<i64>::new());
}
