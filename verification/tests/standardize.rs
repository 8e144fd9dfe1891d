use salary_pipeline::aggregate::{mean, sample_std_dev, StatsError};
use salary_pipeline::fixed::SCALE;
use salary_pipeline::standardize::standardize;

fn column(values: &[i64]) -> Vec<i64> {
    values.iter().map(|x| x * SCALE).collect()
}

#[test]
fn standardize_keeps_length_and_order() {
    let v = column(&[2, 4, 4, 4, 5, 5, 7, 9]);
    let z = standardize(&v).unwrap();
    // Mean 5, deviation 2.138089: (2 - 5) / 2.138089 = -1.403122...
    assert_eq!(
        z,
        vec![-1_403_122, -467_707, -467_707, -467_707, 0, 0, 935_415, 1_870_830]
    );
}

#[test]
fn standardized_column_has_zero_mean_and_unit_deviation() {
    let v = column(&[100_000, 85_000, 120_500, 64_000, 230_000, 41_000, 99_000]);
    let z = standardize(&v).unwrap();
    assert_eq!(z.len(), v.len());
    let m = mean(&z).unwrap();
    assert!(m.abs() <= 1);
    let sd = sample_std_dev(&z).unwrap();
    assert!((sd - SCALE).abs() <= 8);
}

#[test]
fn standardize_rejects_constant_column() {
    assert_eq!(standardize(&column(&[3, 3, 3])), Err(StatsError::DegenerateDistribution));
}

#[test]
fn standardize_rejects_deviation_below_one_step() {
    // The deviation of 7, 7, 8 millionths is 0.577 millionths: as a
    // fixed-point value it is zero.
    assert_eq!(sample_std_dev(&vec![7, 7, 8]), Ok(0));
    assert_eq!(standardize(&vec![7, 7, 8]), Err(StatsError::DegenerateDistribution));
}

#[test]
fn standardize_rejects_short_columns() {
    assert_eq!(standardize(&Vec::new()), Err(StatsError::EmptyInput));
    assert_eq!(standardize(&column(&[3])), Err(StatsError::InsufficientData));
}

#[test]
fn standardize_passes_overflow_on() {
    assert_eq!(standardize(&vec![i64::MIN, i64::MAX]), Err(StatsError::Overflow));
}

#[test]
fn standardize_leaves_its_input_alone() {
    let v = column(&[1, 2, 3]);
    let before = v.clone();
    assert_eq!(standardize(&v), Ok(vec![-1_000_000, 0, 1_000_000]));
    assert_eq!(v, before);
}
