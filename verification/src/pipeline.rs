//! The features that the salary survey is turned into.
//!
//! Each function here applies one of the general transforms to the column
//! that the survey's reports use: the salary in US dollars is standardized,
//! job titles are indexed and one-hot encoded, a flag marks the companies
//! based in the United States, and the records of senior employees are
//! projected onto year, title and rounded salary.

use vstd::prelude::*;
use crate::aggregate::StatsError;
use crate::category::{build_index, CategoryIndexMap, EncodeError};
use crate::encode::{binary_indicator, one_hot, one_hot_row};
use crate::fixed::{round_div, round_to_integer, SCALE};
use crate::project::{filter_project, is_selection, lemma_selection_is_filter, pick};
use crate::record::{
    category_column, category_values, measure_column, measure_values, record_views, Category,
    Measure, Record, RecordData,
};
use crate::standardize::{standardize, standardize_result};

verus! {

/// The standard scores of the salaries in US dollars, one for each record
/// and in the order of the records. The column is extracted once, and mean
/// and deviation are computed from that one column.
///
/// Fails as [`standardize`] does on that column.
pub fn standardize_salary(dataset: &Vec<Record>) -> (r: Result<Vec<i64>, StatsError>)
    ensures
        match r {
            Ok(scores) => standardize_result(measure_values(dataset@, Measure::SalaryInUsd)) == Ok::<
                Seq<i64>,
                StatsError,
            >(scores@),
            Err(e) => standardize_result(measure_values(dataset@, Measure::SalaryInUsd)) == Err::<
                Seq<i64>,
                StatsError,
            >(e),
        },
{
    let salaries = measure_column(dataset, Measure::SalaryInUsd);
    standardize(&salaries)
}

/// The index map of the job titles of a dataset.
///
/// Fails with `EmptyColumn` on a dataset without records, and on no other.
pub fn create_job_title_map(dataset: &Vec<Record>) -> (r: Result<CategoryIndexMap, EncodeError>)
    ensures
        dataset@.len() == 0 ==> (r matches Err(e) && e == EncodeError::EmptyColumn),
        dataset@.len() > 0 ==> r is Ok,
        r matches Ok(map) ==> {
            &&& map.wf()
            &&& forall|t: Seq<char>|
                map.categories().contains(t) <==> category_values(
                    dataset@,
                    Category::JobTitle,
                ).contains(t)
        },
{
    let titles = category_column(dataset, Category::JobTitle);
    build_index(&titles)
}

/// The one-hot vectors of the job titles of a dataset, against `mapping`.
///
/// Fails with `UnknownCategory` exactly if some record has a job title that
/// `mapping` does not hold; the error names the first such row.
pub fn one_hot_encode_job_titles(dataset: &Vec<Record>, mapping: &CategoryIndexMap) -> (r: Result<
    Vec<Vec<i32>>,
    EncodeError,
>)
    ensures
        match r {
            Ok(rows) => {
                &&& rows@.len() == dataset@.len()
                &&& forall|i: int|
                    0 <= i < dataset@.len() ==> {
                        &&& mapping.categories().contains(#[trigger] dataset@[i]@.job_title)
                        &&& rows@[i]@ == one_hot_row(
                            mapping.index(dataset@[i]@.job_title),
                            mapping.categories().len(),
                        )
                    }
            },
            Err(e) => {
                &&& e matches EncodeError::UnknownCategory { row }
                &&& row < dataset@.len()
                &&& !mapping.categories().contains(dataset@[row as int]@.job_title)
                &&& forall|k: int|
                    0 <= k < row ==> mapping.categories().contains(#[trigger] dataset@[k]@.job_title)
            },
        },
{
    let r = one_hot(dataset, Category::JobTitle, mapping);
    proof {
        let titles = category_values(dataset@, Category::JobTitle);
        assert forall|i: int| 0 <= i < dataset@.len() implies #[trigger] titles[i]
            == dataset@[i]@.job_title by {}
        match &r {
            Ok(rows) => {
                assert forall|i: int| 0 <= i < dataset@.len() implies {
                    &&& mapping.categories().contains(#[trigger] dataset@[i]@.job_title)
                    &&& rows@[i]@ == one_hot_row(
                        mapping.index(dataset@[i]@.job_title),
                        mapping.categories().len(),
                    )
                } by {
                    assert(titles[i] == dataset@[i]@.job_title);
                }
            },
            Err(e) => {
                let row = e->row;
                assert(titles[row as int] == dataset@[row as int]@.job_title);
                assert forall|k: int| 0 <= k < row implies mapping.categories().contains(
                    #[trigger] dataset@[k]@.job_title,
                ) by {
                    assert(titles[k] == dataset@[k]@.job_title);
                }
            },
        }
    }
    r
}

/// The company of this record is based in the United States.
pub open spec fn is_us_based(record: RecordData) -> bool {
    record.company_location == "US"@
}

/// A flag for each record, in the order of the records: 1 where the company
/// is based in the United States, 0 elsewhere.
pub fn create_us_based_feature(dataset: &Vec<Record>) -> (flags: Vec<usize>)
    ensures
        flags@.len() == dataset@.len(),
        forall|i: int|
            0 <= i < dataset@.len() ==> #[trigger] flags@[i] == if is_us_based(dataset@[i]@) {
                1usize
            } else {
                0usize
            },
{
    let us = String::from_str("US");
    let based_in_us = |record: &Record| -> (b: bool)
        ensures
            b == is_us_based(record@),
        { record.company_location == us };
    binary_indicator(dataset, based_in_us)
}

/// The employee of this record is at the senior level.
pub open spec fn is_senior(record: RecordData) -> bool {
    record.experience_level == "SE"@
}

/// What a record is projected onto: the year, the job title, and the salary
/// in US dollars as a whole number.
pub open spec fn year_title_salary(record: RecordData) -> (int, Seq<char>, int) {
    (record.work_year, record.job_title, round_div(record.salary_in_usd, SCALE as int))
}

/// What a sequence of projected records holds, as mathematical values.
pub open spec fn projected(out: Seq<(i32, String, i64)>) -> Seq<(int, Seq<char>, int)> {
    Seq::new(out.len(), |k: int| (out[k].0 as int, out[k].1@, out[k].2 as int))
}

/// The records of senior employees, in their order, each as year, job title
/// and salary in US dollars rounded to the nearest whole dollar (a tie goes
/// away from zero). Where no record is of a senior employee the result is
/// empty.
pub fn filter_and_convert(dataset: &Vec<Record>) -> (out: Vec<(i32, String, i64)>)
    ensures
        projected(out@) == record_views(dataset@).filter(|r: RecordData| is_senior(r)).map_values(
            |r: RecordData| year_title_salary(r),
        ),
{
    let senior_level = String::from_str("SE");
    let senior = |record: &Record| -> (b: bool)
        ensures
            b == is_senior(record@),
        { record.experience_level == senior_level };
    let convert = |record: &Record| -> (t: (i32, String, i64))
        ensures
            t.0 == record.work_year,
            t.1@ == record.job_title@,
            t.2 == round_div(record.salary_in_usd as int, SCALE as int),
        { (record.work_year, record.job_title.clone(), round_to_integer(record.salary_in_usd)) };
    let out = filter_project(dataset, senior, convert);
    proof {
        let kept = choose|kept: Seq<int>|
            {
                &&& is_selection(dataset@, senior, kept)
                &&& out@.len() == kept.len()
                &&& forall|k: int|
                    0 <= k < kept.len() ==> call_ensures(
                        convert,
                        (&dataset@[kept[k]],),
                        #[trigger] out@[k],
                    )
            };
        let all = record_views(dataset@);
        let holds = |r: RecordData| is_senior(r);
        assert forall|i: int| 0 <= i < all.len() implies kept.contains(i) == holds(
            #[trigger] all[i],
        ) by {
            assert(call_ensures(senior, (&dataset@[i],), kept.contains(i)));
        }
        lemma_selection_is_filter(all, holds, kept);
        assert(projected(out@) =~= pick(all, kept).map_values(
            |r: RecordData| year_title_salary(r),
        ));
    }
    out
}

} // verus!
