use salary_pipeline::aggregate::{mean, median, range, sample_std_dev};
use salary_pipeline::category::build_index;
use salary_pipeline::fixed::{round_div_wide, round_to_integer, SCALE};
use salary_pipeline::number::parse_number;
use salary_pipeline::root::isqrt;
use salary_pipeline::sorting::sort;
use salary_pipeline::standardize::standardize;

/// A small generator of repeatable pseudo-random numbers.
struct Lcg(u64);

impl Lcg {
    fn next(&mut self) -> u64 {
        self.0 = self.0.wrapping_mul(6364136223846793005).wrapping_add(1442695040888963407);
        self.0 >> 11
    }

    fn below(&mut self, n: u64) -> u64 {
        self.next() % n
    }

    /// A salary between -1000 and 500000, with six fractional digits.
    fn amount(&mut self) -> i64 {
        self.below(501_000 * SCALE as u64) as i64 - 1_000 * SCALE
    }

    fn column(&mut self, len: usize) -> Vec<i64> {
        (0..len).map(|_| self.amount()).collect()
    }
}

#[test]
fn sort_agrees_with_the_standard_sort() {
    let mut rng = Lcg(1);
    for len in 0..60 {
        let v: Vec<i64> = (0..len).map(|_| rng.below(20) as i64 - 10).collect();
        let mut expected = v.clone();
        expected.sort();
        assert_eq!(sort(&v), expected);
    }
}

#[test]
fn square_root_is_the_largest_whose_square_fits() {
    let mut rng = Lcg(2);
    for _ in 0..2000 {
        let x = ((rng.next() as u128) << 64 | rng.next() as u128) >> rng.below(128);
        let s = isqrt(x) as u128;
        assert!(s * s <= x);
        assert!(s == u64::MAX as u128 || (s + 1) * (s + 1) > x);
    }
}

#[test]
fn rounded_quotient_is_within_half_of_the_exact_one() {
    let mut rng = Lcg(3);
    for _ in 0..2000 {
        let a = (rng.next() as i128 - (1 << 52)) * (rng.below(1000) as i128 + 1);
        let b = rng.below(1_000_000) as u128 + 1;
        let q = round_div_wide(a, b);
        let miss = (a - q * b as i128).abs();
        assert!(2 * miss <= b as i128, "{} / {} gave {}", a, b, q);
        if 2 * miss == b as i128 {
            assert!(q.abs() * b as i128 > a.abs(), "tie {} / {} gave {}", a, b, q);
        }
    }
}

#[test]
fn statistics_agree_with_wide_integer_arithmetic() {
    let mut rng = Lcg(4);
    for len in 1..80 {
        let v = rng.column(len);
        let n = len as i128;
        let total: i128 = v.iter().map(|x| *x as i128).sum();
        let m = mean(&v).unwrap() as i128;
        assert!(2 * (total - m * n).abs() <= n);
        let lo = *v.iter().min().unwrap();
        let hi = *v.iter().max().unwrap();
        assert_eq!(range(&v), Ok(hi - lo));
        let mut ordered = v.clone();
        ordered.sort();
        let middle = if len % 2 == 1 {
            ordered[len / 2] as i128
        } else {
            round_div_wide(ordered[len / 2 - 1] as i128 + ordered[len / 2] as i128, 2)
        };
        assert_eq!(median(&v).unwrap() as i128, middle);
        if len >= 2 {
            let q: i128 = v.iter().map(|x| (*x as i128 - m) * (*x as i128 - m)).sum();
            let s = sample_std_dev(&v).unwrap() as i128;
            assert!(s * s * (n - 1) <= q);
            assert!((s + 1) * (s + 1) * (n - 1) > q);
        }
    }
}

#[test]
fn statistics_agree_with_floating_point() {
    let mut rng = Lcg(5);
    for len in 2..60 {
        let v = rng.column(len);
        let floats: Vec<f64> = v.iter().map(|x| *x as f64 / SCALE as f64).collect();
        let n = len as f64;
        let m = floats.iter().sum::<f64>() / n;
        let sd = (floats.iter().map(|x| (x - m) * (x - m)).sum::<f64>() / (n - 1.0)).sqrt();
        assert!((mean(&v).unwrap() as f64 / SCALE as f64 - m).abs() < 1e-5);
        assert!((sample_std_dev(&v).unwrap() as f64 / SCALE as f64 - sd).abs() < 1e-5);
        let z = standardize(&v).unwrap();
        for (score, x) in z.iter().zip(floats.iter()) {
            assert!((*score as f64 / SCALE as f64 - (x - m) / sd).abs() < 1e-5);
        }
    }
}

#[test]
fn standard_scores_have_zero_mean_and_unit_deviation() {
    let mut rng = Lcg(6);
    for len in 2..60 {
        let v = rng.column(len);
        let s = sample_std_dev(&v).unwrap();
        if s == 0 {
            continue;
        }
        let z = standardize(&v).unwrap();
        assert_eq!(z.len(), v.len());
        let m = mean(&z).unwrap();
        let sz = sample_std_dev(&z).unwrap();
        assert!(2 * s as i128 * m.abs() as i128 <= (SCALE + 2 * s) as i128);
        assert!(s as i128 * (sz - SCALE).abs() as i128 <= (3 * SCALE + 5 * s) as i128);
    }
}

#[test]
fn standard_scores_of_narrow_columns() {
    // Deviations of a few steps: the scores are coarse, and still centred.
    for v in [vec![0, 1], vec![0, 2], vec![0, 1, 1, 1, 5], vec![-3, 3, 0, 1], vec![7, 7, 9]] {
        let s = sample_std_dev(&v).unwrap();
        let z = standardize(&v).unwrap();
        let m = mean(&z).unwrap();
        let sz = sample_std_dev(&z).unwrap();
        assert!(2 * s as i128 * m.abs() as i128 <= (SCALE + 2 * s) as i128, "{:?}", v);
        assert!(
            s as i128 * (sz - SCALE).abs() as i128 <= (3 * SCALE + 5 * s) as i128,
            "{:?}",
            v
        );
    }
}

#[test]
fn numbers_parse_as_floating_point_does() {
    let mut rng = Lcg(7);
    for _ in 0..2000 {
        let whole = rng.below(1_000_000);
        let digits = rng.below(9) as usize;
        let mut text = format!("{}", whole);
        if rng.below(2) == 0 {
            text = format!("-{}", text);
        }
        if digits > 0 || rng.below(2) == 0 {
            text.push('.');
            for _ in 0..digits {
                text.push((b'0' + rng.below(10) as u8) as char);
            }
        }
        let chars: Vec<char> = text.chars().collect();
        let got = parse_number(&chars).unwrap();
        let float: f64 = text.parse().unwrap();
        assert!((got as f64 / SCALE as f64 - float).abs() < 1e-6, "{}", text);
        assert!((got as f64 - float * SCALE as f64).abs() <= 0.5001, "{}", text);
    }
}

#[test]
fn whole_dollars_round_as_floating_point_does() {
    let mut rng = Lcg(8);
    for _ in 0..2000 {
        let x = rng.amount();
        let float = (x as f64 / SCALE as f64).round();
        assert_eq!(round_to_integer(x) as f64, float, "{}", x);
    }
}

#[test]
fn index_map_agrees_with_sorting_and_deduplicating() {
    let mut rng = Lcg(9);
    for len in 1..60 {
        let values: Vec<String> = (0..len)
            .map(|_| {
                let n = rng.below(4) as usize;
                (0..n).map(|_| (b'a' + rng.below(3) as u8) as char).collect()
            })
            .collect();
        let mut expected = values.clone();
        expected.sort();
        expected.dedup();
        let map = build_index(&values).unwrap();
        assert_eq!(map.cardinality(), expected.len());
        for (index, name) in expected.iter().enumerate() {
            assert_eq!(map.index_of(name), Some(index));
            assert_eq!(map.category(index).as_ref(), Some(name));
        }
        assert_eq!(map.index_of("zz"), None);
    }
}
