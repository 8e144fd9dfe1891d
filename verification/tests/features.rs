use salary_pipeline::category::{build_index, EncodeError};
use salary_pipeline::encode::{binary_indicator, one_hot};
use salary_pipeline::fixed::round_to_integer;
use salary_pipeline::pipeline::{
    create_job_title_map, create_us_based_feature, filter_and_convert,
    one_hot_encode_job_titles, standardize_salary,
};
use salary_pipeline::project::filter_project;
use salary_pipeline::record::{category_column, measure_column, Category, Measure, Record};
use salary_pipeline::aggregate::StatsError;

fn record(level: &str, year: i32, title: &str, usd: i64, location: &str) -> Record {
    Record {
        work_year: year,
        experience_level: level.to_string(),
        employment_type: "FT".to_string(),
        job_title: title.to_string(),
        salary: usd,
        salary_currency: "USD".to_string(),
        salary_in_usd: usd,
        employee_residence: location.to_string(),
        remote_ratio: 0,
        company_location: location.to_string(),
        company_size: "M".to_string(),
    }
}

fn levels(values: &[&str]) -> Vec<String> {
    values.iter().map(|v| v.to_string()).collect()
}

#[test]
fn build_index_is_a_bijection_onto_dense_indices() {
    let map = build_index(&levels(&["SE", "MI", "EN"])).unwrap();
    assert_eq!(map.cardinality(), 3);
    let mut indices: Vec<usize> = ["SE", "MI", "EN"]
        .iter()
        .map(|v| map.index_of(v).unwrap())
        .collect();
    indices.sort();
    assert_eq!(indices, vec![0, 1, 2]);
}

#[test]
fn build_index_orders_categories_lexicographically() {
    let map = build_index(&levels(&["SE", "MI", "EN", "SE", "EX", "MI"])).unwrap();
    assert_eq!(map.cardinality(), 4);
    assert_eq!(map.index_of("EN"), Some(0));
    assert_eq!(map.index_of("EX"), Some(1));
    assert_eq!(map.index_of("MI"), Some(2));
    assert_eq!(map.index_of("SE"), Some(3));
    assert_eq!(map.category(0), Some("EN".to_string()));
    assert_eq!(map.category(3), Some("SE".to_string()));
    assert_eq!(map.category(4), None);
    assert_eq!(map.index_of("se"), None);
    assert_eq!(map.index_of(""), None);
    assert_eq!(map.index_of("SEE"), None);
}

#[test]
fn build_index_does_not_depend_on_row_order() {
    let a = build_index(&levels(&["b", "a", "c", "ab", ""])).unwrap();
    let b = build_index(&levels(&["", "c", "ab", "a", "b", "c"])).unwrap();
    for value in ["", "a", "ab", "b", "c"] {
        assert_eq!(a.index_of(value), b.index_of(value));
    }
    assert_eq!(a.index_of(""), Some(0));
    assert_eq!(a.index_of("a"), Some(1));
    assert_eq!(a.index_of("ab"), Some(2));
    assert_eq!(a.index_of("b"), Some(3));
    assert_eq!(a.index_of("c"), Some(4));
}

#[test]
fn build_index_orders_by_code_point() {
    let map = build_index(&levels(&["é", "z", "Z", "e"])).unwrap();
    assert_eq!(map.index_of("Z"), Some(0));
    assert_eq!(map.index_of("e"), Some(1));
    assert_eq!(map.index_of("z"), Some(2));
    assert_eq!(map.index_of("é"), Some(3));
}

#[test]
fn build_index_rejects_empty_column() {
    assert_eq!(build_index(&Vec::new()).err(), Some(EncodeError::EmptyColumn));
}

#[test]
fn one_hot_has_a_single_one_at_the_category_index() {
    let records = vec![
        record("SE", 2022, "X", 1, "US"),
        record("MI", 2022, "Y", 1, "US"),
        record("EN", 2022, "Z", 1, "US"),
    ];
    let map = build_index(&category_column(&records, Category::ExperienceLevel)).unwrap();
    let rows = one_hot(&records, Category::ExperienceLevel, &map).unwrap();
    assert_eq!(rows.len(), 3);
    let mi = map.index_of("MI").unwrap();
    assert_eq!(rows[1].len(), map.cardinality());
    assert_eq!(rows[1].iter().filter(|&&x| x == 1).count(), 1);
    assert_eq!(rows[1].iter().filter(|&&x| x == 0).count(), 2);
    assert_eq!(rows[1][mi], 1);
    assert_eq!(rows, vec![vec![0, 0, 1], vec![0, 1, 0], vec![1, 0, 0]]);
}

#[test]
fn one_hot_rejects_unknown_category() {
    let known = vec![record("SE", 2022, "X", 1, "US"), record("MI", 2022, "Y", 1, "US")];
    let map = build_index(&category_column(&known, Category::ExperienceLevel)).unwrap();
    let records = vec![
        record("SE", 2022, "X", 1, "US"),
        record("EX", 2022, "Y", 1, "US"),
        record("EN", 2022, "Z", 1, "US"),
    ];
    assert_eq!(
        one_hot(&records, Category::ExperienceLevel, &map),
        Err(EncodeError::UnknownCategory { row: 1 })
    );
}

#[test]
fn one_hot_of_no_record_is_empty() {
    let map = build_index(&levels(&["SE"])).unwrap();
    assert_eq!(one_hot(&Vec::new(), Category::ExperienceLevel, &map), Ok(Vec::new()));
}

#[test]
fn binary_indicator_flags_records_in_input_order() {
    let records = vec![record("SE", 2022, "X", 1, "US"), record("SE", 2022, "X", 1, "DE")];
    let flags = binary_indicator(&records, |r: &Record| r.company_location == "US");
    assert_eq!(flags, vec![1, 0]);
}

#[test]
fn filter_project_keeps_matching_rows_and_rounds() {
    let records = vec![
        record("SE", 2022, "X", 100_501_700_000, "US"),
        record("MI", 2021, "Y", 50_000_000_000, "DE"),
        record("SE", 2020, "Z", 99_999_500_000, "US"),
    ];
    let out = filter_project(
        &records,
        |r: &Record| r.experience_level == "SE",
        |r: &Record| (r.work_year, r.job_title.clone(), round_to_integer(r.salary_in_usd)),
    );
    assert_eq!(
        out,
        vec![(2022, "X".to_string(), 100_502), (2020, "Z".to_string(), 100_000)]
    );
}

#[test]
fn filter_project_without_match_is_empty() {
    let records = vec![record("MI", 2021, "Y", 50_000_000_000, "DE")];
    let out = filter_project(
        &records,
        |r: &Record| r.experience_level == "SE",
        |r: &Record| r.work_year,
    );
    assert_eq!(out, Vec::<i32>::new());
}

#[test]
fn round_to_integer_rounds_half_away_from_zero() {
    assert_eq!(round_to_integer(100_501_700_000), 100_502);
    assert_eq!(round_to_integer(2_500_000), 3);
    assert_eq!(round_to_integer(-2_500_000), -3);
    assert_eq!(round_to_integer(2_499_999), 2);
    assert_eq!(round_to_integer(-2_499_999), -2);
    assert_eq!(round_to_integer(0), 0);
    assert_eq!(round_to_integer(499_999), 0);
    assert_eq!(round_to_integer(-500_000), -1);
    assert_eq!(round_to_integer(i64::MAX), 9_223_372_036_855);
    assert_eq!(round_to_integer(i64::MIN), -9_223_372_036_855);
}

#[test]
fn columns_are_extracted_in_record_order() {
    let records = vec![
        record("SE", 2022, "X", 3_000_000, "US"),
        record("MI", 2021, "Y", 1_000_000, "DE"),
    ];
    assert_eq!(measure_column(&records, Measure::SalaryInUsd), vec![3_000_000, 1_000_000]);
    assert_eq!(measure_column(&records, Measure::RemoteRatio), vec![0, 0]);
    assert_eq!(category_column(&records, Category::JobTitle), vec!["X", "Y"]);
    assert_eq!(category_column(&records, Category::CompanyLocation), vec!["US", "DE"]);
}

#[test]
fn survey_features() {
    let records = vec![
        record("SE", 2022, "Data Scientist", 100_501_700_000, "US"),
        record("MI", 2021, "Analyst", 50_000_000_000, "DE"),
        record("SE", 2020, "Data Scientist", 150_000_000_000, "US"),
    ];
    assert_eq!(create_us_based_feature(&records), vec![1, 0, 1]);
    assert_eq!(
        filter_and_convert(&records),
        vec![
            (2022, "Data Scientist".to_string(), 100_502),
            (2020, "Data Scientist".to_string(), 150_000)
        ]
    );
    let map = create_job_title_map(&records).unwrap();
    assert_eq!(map.cardinality(), 2);
    assert_eq!(map.index_of("Analyst"), Some(0));
    assert_eq!(
        one_hot_encode_job_titles(&records, &map),
        Ok(vec![vec![0, 1], vec![1, 0], vec![0, 1]])
    );
    let scores = standardize_salary(&records).unwrap();
    // Mean 100167.233333, deviation 50000.837822.
    assert_eq!(scores, vec![6_689, -1_003_328, 996_639]);
}

#[test]
fn survey_features_of_an_empty_dataset() {
    let records: Vec<Record> = Vec::new();
    assert_eq!(create_us_based_feature(&records), Vec::<usize>::new());
    assert_eq!(filter_and_convert(&records), Vec::new());
    assert_eq!(create_job_title_map(&records).err(), Some(EncodeError::EmptyColumn));
    assert_eq!(standardize_salary(&records), Err(StatsError::EmptyInput));
}
