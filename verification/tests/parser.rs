use salary_pipeline::parser::{parse, ParseError, ParseReason};
use salary_pipeline::record::{Category, Column, Measure, Record};

const HEADER: &str = "work_year,experience_level,employment_type,job_title,salary,salary_currency,salary_in_usd,employee_residence,remote_ratio,company_location,company_size";

fn text_of(lines: &[&str]) -> String {
    let mut text = String::new();
    for line in lines {
        text.push_str(line);
        text.push('\n');
    }
    text
}

fn first_record() -> Record {
    Record {
        work_year: 2022,
        experience_level: "SE".to_string(),
        employment_type: "FT".to_string(),
        job_title: "Data Scientist".to_string(),
        salary: 130_000_000_000,
        salary_currency: "USD".to_string(),
        salary_in_usd: 130_000_000_000,
        employee_residence: "US".to_string(),
        remote_ratio: 100_000_000,
        company_location: "US".to_string(),
        company_size: "M".to_string(),
    }
}

#[test]
fn parses_rows_in_order() {
    let text = text_of(&[
        HEADER,
        "2022,SE,FT,Data Scientist,130000,USD,130000,US,100,US,M",
        "2021,MI,PT,ML Engineer,70000.5,EUR,82528.25,DE,50,DE,L",
    ]);
    let records = parse(&text).unwrap();
    assert_eq!(records.len(), 2);
    assert_eq!(records[0], first_record());
    assert_eq!(
        records[1],
        Record {
            work_year: 2021,
            experience_level: "MI".to_string(),
            employment_type: "PT".to_string(),
            job_title: "ML Engineer".to_string(),
            salary: 70_000_500_000,
            salary_currency: "EUR".to_string(),
            salary_in_usd: 82_528_250_000,
            employee_residence: "DE".to_string(),
            remote_ratio: 50_000_000,
            company_location: "DE".to_string(),
            company_size: "L".to_string(),
        }
    );
}

#[test]
fn header_alone_gives_no_record() {
    assert_eq!(parse(HEADER), Ok(Vec::new()));
    assert_eq!(parse(&text_of(&[HEADER])), Ok(Vec::new()));
}

#[test]
fn last_line_needs_no_line_feed() {
    let text = format!("{}\n{}", HEADER, "2022,SE,FT,Data Scientist,130000,USD,130000,US,100,US,M");
    assert_eq!(parse(&text), Ok(vec![first_record()]));
}

#[test]
fn carriage_returns_are_dropped() {
    let text = format!(
        "{}\r\n{}\r\n",
        HEADER, "2022,SE,FT,Data Scientist,130000,USD,130000,US,100,US,M"
    );
    assert_eq!(parse(&text), Ok(vec![first_record()]));
}

#[test]
fn header_order_decides_where_a_field_goes() {
    let text = text_of(&[
        "company_size,job_title,work_year,salary_in_usd,salary,salary_currency,experience_level,employment_type,employee_residence,company_location,remote_ratio",
        "M,Data Scientist,2022,130000,130000,USD,SE,FT,US,US,100",
    ]);
    assert_eq!(parse(&text), Ok(vec![first_record()]));
}

#[test]
fn columns_beyond_the_schema_are_passed_over() {
    let text = text_of(&[
        &format!(",{},note", HEADER),
        "0,2022,SE,FT,Data Scientist,130000,USD,130000,US,100,US,M,checked",
    ]);
    assert_eq!(parse(&text), Ok(vec![first_record()]));
}

#[test]
fn text_fields_are_taken_as_they_are() {
    let text = text_of(&[HEADER, "2022, SE ,,Köchin & Bäcker,1,,2,,3,\"US\",M"]);
    let records = parse(&text).unwrap();
    assert_eq!(records[0].experience_level, " SE ");
    assert_eq!(records[0].employment_type, "");
    assert_eq!(records[0].job_title, "Köchin & Bäcker");
    assert_eq!(records[0].company_location, "\"US\"");
}

#[test]
fn numbers_are_read_as_fixed_point() {
    let text = text_of(&[
        HEADER,
        "-2022,SE,FT,X,100501.7,USD,-0.5,US,.25,US,M",
        "+2023,SE,FT,X,7.,USD,+12.000001,US,0.0000005,US,M",
        "0,SE,FT,X,0.1234564,USD,0.1234565,US,-0.9999999,US,M",
    ]);
    let records = parse(&text).unwrap();
    assert_eq!(records[0].work_year, -2022);
    assert_eq!(records[0].salary, 100_501_700_000);
    assert_eq!(records[0].salary_in_usd, -500_000);
    assert_eq!(records[0].remote_ratio, 250_000);
    assert_eq!(records[1].work_year, 2023);
    assert_eq!(records[1].salary, 7_000_000);
    assert_eq!(records[1].salary_in_usd, 12_000_001);
    assert_eq!(records[1].remote_ratio, 1);
    assert_eq!(records[2].salary, 123_456);
    assert_eq!(records[2].salary_in_usd, 123_457);
    assert_eq!(records[2].remote_ratio, -1_000_000);
}

#[test]
fn largest_and_smallest_numbers() {
    let text = text_of(&[
        HEADER,
        "2147483647,SE,FT,X,9223372036854.775807,USD,-9223372036854.775808,US,0,US,M",
        "-2147483648,SE,FT,X,0009223372036854.7758070,USD,0,US,0,US,M",
    ]);
    let records = parse(&text).unwrap();
    assert_eq!(records[0].work_year, i32::MAX);
    assert_eq!(records[0].salary, i64::MAX);
    assert_eq!(records[0].salary_in_usd, i64::MIN);
    assert_eq!(records[1].work_year, i32::MIN);
    assert_eq!(records[1].salary, i64::MAX);
}

#[test]
fn missing_column_is_reported_for_the_header() {
    let text = text_of(&[
        "work_year,experience_level,employment_type,job_title,salary,salary_currency,employee_residence,remote_ratio,company_location",
        "2022,SE,FT,Data Scientist,130000,USD,US,100,US",
    ]);
    assert_eq!(
        parse(&text),
        Err(ParseError {
            row: 0,
            column: Some(Column::Measure(Measure::SalaryInUsd)),
            reason: ParseReason::MissingColumn,
        })
    );
}

#[test]
fn empty_text_lacks_the_first_column() {
    assert_eq!(
        parse(""),
        Err(ParseError {
            row: 0,
            column: Some(Column::WorkYear),
            reason: ParseReason::MissingColumn,
        })
    );
}

#[test]
fn header_names_are_matched_exactly() {
    let text = text_of(&[&HEADER.replace("company_size", "Company_Size")]);
    assert_eq!(
        parse(&text),
        Err(ParseError {
            row: 0,
            column: Some(Column::Category(Category::CompanySize)),
            reason: ParseReason::MissingColumn,
        })
    );
}

#[test]
fn wrong_field_count_fails_the_parse() {
    let short = text_of(&[
        HEADER,
        "2022,SE,FT,Data Scientist,130000,USD,130000,US,100,US,M",
        "2022,SE,FT,Data Scientist,130000,USD,130000,US,100,US",
    ]);
    assert_eq!(
        parse(&short),
        Err(ParseError { row: 2, column: None, reason: ParseReason::FieldCount })
    );
    let long = text_of(&[HEADER, "2022,SE,FT,Data Scientist,130000,USD,130000,US,100,US,M,"]);
    assert_eq!(
        parse(&long),
        Err(ParseError { row: 1, column: None, reason: ParseReason::FieldCount })
    );
}

#[test]
fn empty_line_is_a_row_with_one_field() {
    let text = text_of(&[
        HEADER,
        "",
        "2022,SE,FT,Data Scientist,130000,USD,130000,US,100,US,M",
    ]);
    assert_eq!(
        parse(&text),
        Err(ParseError { row: 1, column: None, reason: ParseReason::FieldCount })
    );
}

#[test]
fn comma_in_a_field_changes_the_field_count() {
    let text = text_of(&[HEADER, "2022,SE,FT,\"Scientist, Data\",130000,USD,130000,US,100,US,M"]);
    assert_eq!(
        parse(&text),
        Err(ParseError { row: 1, column: None, reason: ParseReason::FieldCount })
    );
}

#[test]
fn invalid_integer_is_reported_with_row_and_column() {
    for bad in ["", "20x2", "2022.0", "-", "2147483648", "-2147483649", " 2022", "٢٠٢٢"] {
        let text = text_of(&[
            HEADER,
            "2022,SE,FT,Data Scientist,130000,USD,130000,US,100,US,M",
            &format!("{},SE,FT,Data Scientist,130000,USD,130000,US,100,US,M", bad),
        ]);
        assert_eq!(
            parse(&text),
            Err(ParseError {
                row: 2,
                column: Some(Column::WorkYear),
                reason: ParseReason::InvalidInteger,
            }),
            "work_year {:?}",
            bad
        );
    }
}

#[test]
fn invalid_number_is_reported_with_row_and_column() {
    for bad in [
        "", ".", "-", "+.", "1e5", "NaN", "inf", "1.2.3", "12a", "--1", "1 000",
        "9223372036854.775808", "-9223372036854.775809", "9223372036854.7758075",
        "99999999999999999999999999999999999999999999",
    ] {
        let text = text_of(&[
            HEADER,
            &format!("2022,SE,FT,Data Scientist,130000,USD,{},US,100,US,M", bad),
        ]);
        assert_eq!(
            parse(&text),
            Err(ParseError {
                row: 1,
                column: Some(Column::Measure(Measure::SalaryInUsd)),
                reason: ParseReason::InvalidNumber,
            }),
            "salary_in_usd {:?}",
            bad
        );
    }
}

#[test]
fn first_fault_of_a_row_is_reported_in_schema_order() {
    let text = text_of(&[HEADER, "2022,SE,FT,Data Scientist,x,USD,y,US,z,US,M"]);
    assert_eq!(
        parse(&text),
        Err(ParseError {
            row: 1,
            column: Some(Column::Measure(Measure::Salary)),
            reason: ParseReason::InvalidNumber,
        })
    );
    let text = text_of(&[HEADER, "2022,SE,FT,Data Scientist,1,USD,2,US,z,US,M"]);
    assert_eq!(
        parse(&text),
        Err(ParseError {
            row: 1,
            column: Some(Column::Measure(Measure::RemoteRatio)),
            reason: ParseReason::InvalidNumber,
        })
    );
}

#[test]
fn first_row_at_fault_is_reported() {
    let text = text_of(&[
        HEADER,
        "2022,SE,FT,Data Scientist,130000,USD,130000,US,100,US,M",
        "2022,SE,FT,Data Scientist,130000,USD,oops,US,100,US,M",
        "year,SE,FT",
    ]);
    assert_eq!(
        parse(&text),
        Err(ParseError {
            row: 2,
            column: Some(Column::Measure(Measure::SalaryInUsd)),
            reason: ParseReason::InvalidNumber,
        })
    );
}

#[test]
fn column_names_follow_the_schema() {
    let names: Vec<&str> = (0..11).map(|k| Column::at(k).unwrap().name()).collect();
    assert_eq!(names.join(","), HEADER);
    assert_eq!(Column::at(11), None);
}
