//! One row of the survey, and its columns.

use vstd::prelude::*;
use crate::text::texts;

verus! {

/// A categorical column: its values are drawn from a small vocabulary.
#[derive(Debug, Clone, Copy, PartialEq, Eq, Structural)]
pub enum Category {
    ExperienceLevel,
    EmploymentType,
    JobTitle,
    SalaryCurrency,
    EmployeeResidence,
    CompanyLocation,
    CompanySize,
}

/// A numeric column: its values are fixed-point numbers.
#[derive(Debug, Clone, Copy, PartialEq, Eq, Structural)]
pub enum Measure {
    Salary,
    SalaryInUsd,
    RemoteRatio,
}

/// Any of the eleven columns of the survey.
#[derive(Debug, Clone, Copy, PartialEq, Eq, Structural)]
pub enum Column {
    WorkYear,
    Category(Category),
    Measure(Measure),
}

/// The name of a column, as the header row of the input writes it.
pub open spec fn column_name(column: Column) -> Seq<char> {
    match column {
        Column::WorkYear => "work_year"@,
        Column::Category(Category::ExperienceLevel) => "experience_level"@,
        Column::Category(Category::EmploymentType) => "employment_type"@,
        Column::Category(Category::JobTitle) => "job_title"@,
        Column::Measure(Measure::Salary) => "salary"@,
        Column::Category(Category::SalaryCurrency) => "salary_currency"@,
        Column::Measure(Measure::SalaryInUsd) => "salary_in_usd"@,
        Column::Category(Category::EmployeeResidence) => "employee_residence"@,
        Column::Measure(Measure::RemoteRatio) => "remote_ratio"@,
        Column::Category(Category::CompanyLocation) => "company_location"@,
        Column::Category(Category::CompanySize) => "company_size"@,
    }
}

/// The columns in the order in which a record lists them.
pub open spec fn schema() -> Seq<Column> {
    seq![
        Column::WorkYear,
        Column::Category(Category::ExperienceLevel),
        Column::Category(Category::EmploymentType),
        Column::Category(Category::JobTitle),
        Column::Measure(Measure::Salary),
        Column::Category(Category::SalaryCurrency),
        Column::Measure(Measure::SalaryInUsd),
        Column::Category(Category::EmployeeResidence),
        Column::Measure(Measure::RemoteRatio),
        Column::Category(Category::CompanyLocation),
        Column::Category(Category::CompanySize),
    ]
}

impl Column {
    /// The name of the column, as the header row of the input writes it.
    pub fn name(&self) -> (name: &'static str)
        ensures
            name@ == column_name(*self),
    {
        match self {
            Column::WorkYear => "work_year",
            Column::Category(Category::ExperienceLevel) => "experience_level",
            Column::Category(Category::EmploymentType) => "employment_type",
            Column::Category(Category::JobTitle) => "job_title",
            Column::Measure(Measure::Salary) => "salary",
            Column::Category(Category::SalaryCurrency) => "salary_currency",
            Column::Measure(Measure::SalaryInUsd) => "salary_in_usd",
            Column::Category(Category::EmployeeResidence) => "employee_residence",
            Column::Measure(Measure::RemoteRatio) => "remote_ratio",
            Column::Category(Category::CompanyLocation) => "company_location",
            Column::Category(Category::CompanySize) => "company_size",
        }
    }

    /// The column at place `k` of the schema, or `None` where the schema
    /// has no such place.
    pub fn at(k: usize) -> (r: Option<Column>)
        ensures
            match r {
                Some(column) => k < schema().len() && column == schema()[k as int],
                None => k >= schema().len(),
            },
    {
        if k == 0 {
            Some(Column::WorkYear)
        } else if k == 1 {
            Some(Column::Category(Category::ExperienceLevel))
        } else if k == 2 {
            Some(Column::Category(Category::EmploymentType))
        } else if k == 3 {
            Some(Column::Category(Category::JobTitle))
        } else if k == 4 {
            Some(Column::Measure(Measure::Salary))
        } else if k == 5 {
            Some(Column::Category(Category::SalaryCurrency))
        } else if k == 6 {
            Some(Column::Measure(Measure::SalaryInUsd))
        } else if k == 7 {
            Some(Column::Category(Category::EmployeeResidence))
        } else if k == 8 {
            Some(Column::Measure(Measure::RemoteRatio))
        } else if k == 9 {
            Some(Column::Category(Category::CompanyLocation))
        } else if k == 10 {
            Some(Column::Category(Category::CompanySize))
        } else {
            None
        }
    }
}

/// One parsed row. Every field is populated: there is no partial record.
#[derive(Debug, Clone, PartialEq, Eq)]
pub struct Record {
    pub work_year: i32,
    pub experience_level: String,
    pub employment_type: String,
    pub job_title: String,
    /// Salary in the currency it is paid in, fixed-point.
    pub salary: i64,
    pub salary_currency: String,
    /// Salary in US dollars, fixed-point.
    pub salary_in_usd: i64,
    pub employee_residence: String,
    /// Share of remote work, 0 to 100, fixed-point.
    pub remote_ratio: i64,
    pub company_location: String,
    pub company_size: String,
}

/// What a record holds, as mathematical values.
pub struct RecordData {
    pub work_year: int,
    pub experience_level: Seq<char>,
    pub employment_type: Seq<char>,
    pub job_title: Seq<char>,
    pub salary: int,
    pub salary_currency: Seq<char>,
    pub salary_in_usd: int,
    pub employee_residence: Seq<char>,
    pub remote_ratio: int,
    pub company_location: Seq<char>,
    pub company_size: Seq<char>,
}

impl View for Record {
    type V = RecordData;

    open spec fn view(&self) -> RecordData {
        RecordData {
            work_year: self.work_year as int,
            experience_level: self.experience_level@,
            employment_type: self.employment_type@,
            job_title: self.job_title@,
            salary: self.salary as int,
            salary_currency: self.salary_currency@,
            salary_in_usd: self.salary_in_usd as int,
            employee_residence: self.employee_residence@,
            remote_ratio: self.remote_ratio as int,
            company_location: self.company_location@,
            company_size: self.company_size@,
        }
    }
}

impl RecordData {
    /// The value in a categorical column.
    pub open spec fn category(self, column: Category) -> Seq<char> {
        match column {
            Category::ExperienceLevel => self.experience_level,
            Category::EmploymentType => self.employment_type,
            Category::JobTitle => self.job_title,
            Category::SalaryCurrency => self.salary_currency,
            Category::EmployeeResidence => self.employee_residence,
            Category::CompanyLocation => self.company_location,
            Category::CompanySize => self.company_size,
        }
    }

    /// The value in a numeric column.
    pub open spec fn measure(self, column: Measure) -> int {
        match column {
            Measure::Salary => self.salary,
            Measure::SalaryInUsd => self.salary_in_usd,
            Measure::RemoteRatio => self.remote_ratio,
        }
    }
}

impl Record {
    /// The value of this record in a categorical column.
    pub fn category(&self, column: Category) -> (value: &String)
        ensures
            value@ == self@.category(column),
    {
        match column {
            Category::ExperienceLevel => &self.experience_level,
            Category::EmploymentType => &self.employment_type,
            Category::JobTitle => &self.job_title,
            Category::SalaryCurrency => &self.salary_currency,
            Category::EmployeeResidence => &self.employee_residence,
            Category::CompanyLocation => &self.company_location,
            Category::CompanySize => &self.company_size,
        }
    }

    /// The value of this record in a numeric column.
    pub fn measure(&self, column: Measure) -> (value: i64)
        ensures
            value == self@.measure(column),
    {
        match column {
            Measure::Salary => self.salary,
            Measure::SalaryInUsd => self.salary_in_usd,
            Measure::RemoteRatio => self.remote_ratio,
        }
    }
}

/// What each record of a dataset holds, in order.
pub open spec fn record_views(records: Seq<Record>) -> Seq<RecordData> {
    Seq::new(records.len(), |i: int| records[i]@)
}

/// A categorical column of a dataset: the value of each record, in order.
pub open spec fn category_values(records: Seq<Record>, column: Category) -> Seq<Seq<char>> {
    Seq::new(records.len(), |i: int| records[i]@.category(column))
}

/// A numeric column of a dataset: the value of each record, in order.
pub open spec fn measure_values(records: Seq<Record>, column: Measure) -> Seq<i64> {
    Seq::new(records.len(), |i: int| records[i]@.measure(column) as i64)
}

/// Extracts a categorical column, one value per record and in the order of
/// the records.
pub fn category_column(records: &Vec<Record>, column: Category) -> (values: Vec<String>)
    ensures
        values@.len() == records@.len(),
        texts(values@) == category_values(records@, column),
{
    let mut values: Vec<String> = Vec::new();
    let mut i: usize = 0;
    while i < records.len()
        invariant
            i <= records.len(),
            values@.len() == i,
            texts(values@) == category_values(records@, column).take(i as int),
        decreases records.len() - i,
    {
        let ghost before = texts(values@);
        let value = records[i].category(column).clone();
        assert(value@ == category_values(records@, column)[i as int]);
        values.push(value);
        assert(texts(values@) =~= before.push(value@));
        assert(texts(values@) =~= category_values(records@, column).take(i + 1));
        i += 1;
    }
    assert(category_values(records@, column).take(records.len() as int) =~= category_values(
        records@,
        column,
    ));
    values
}

/// Extracts a numeric column, one value per record and in the order of the
/// records.
pub fn measure_column(records: &Vec<Record>, column: Measure) -> (values: Vec<i64>)
    ensures
        values@ == measure_values(records@, column),
{
    let mut values: Vec<i64> = Vec::new();
    let mut i: usize = 0;
    while i < records.len()
        invariant
            i <= records.len(),
            values@ == measure_values(records@, column).take(i as int),
        decreases records.len() - i,
    {
        values.push(records[i].measure(column));
        assert(values@ =~= measure_values(records@, column).take(i + 1));
        i += 1;
    }
    assert(measure_values(records@, column).take(records.len() as int) =~= measure_values(
        records@,
        column,
    ));
    values
}

} // verus!
