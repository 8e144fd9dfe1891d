//! Turning delimited text into records.
//!
//! The input is comma-separated text. Its first line is a header that names
//! the columns; each further line is one row. Lines end with a line feed, with
//! or without a carriage return before it, and the last line may do without.
//! The place of a column in a row is the place of its name in the header,
//! whatever the order of the header; columns that the header names beyond the
//! eleven of the survey are passed over. There is no quoting: a comma always
//! separates two fields.
//!
//! A row is never skipped. The first row that cannot be read fails the whole
//! parse, and no record is returned.

use vstd::prelude::*;
use crate::number::{integer_of, number_of, parse_integer, parse_number};
use crate::record::{
    Category, Column, Measure, Record, RecordData, column_name, record_views, schema,
};
use crate::text::{chars_of, compare_text, split, split_text, string_of, views, Place};

verus! {

/// What is wrong with the input.
#[derive(Debug, Clone, Copy, PartialEq, Eq, Structural)]
pub enum ParseReason {
    /// The header does not name the column.
    MissingColumn,
    /// The row does not have as many fields as the header.
    FieldCount,
    /// The field is not an integer that an `i32` can hold.
    InvalidInteger,
    /// The field is not a number that a fixed-point value can hold.
    InvalidNumber,
}

/// Why the input could not be parsed.
#[derive(Debug, Clone, Copy, PartialEq, Eq)]
pub struct ParseError {
    /// The line at fault, counted from zero: the header is line 0, the first
    /// row line 1.
    pub row: usize,
    /// The column at fault; `None` where the row as a whole is.
    pub column: Option<Column>,
    pub reason: ParseReason,
}

/// `line` without the carriage return at its end, if it has one.
pub open spec fn strip_cr(line: Seq<char>) -> Seq<char> {
    if line.len() > 0 && line.last() == '\r' {
        line.drop_last()
    } else {
        line
    }
}

/// The lines of a text: what stands between its line feeds, each without
/// the carriage return at its end. What follows the last line feed is a line
/// only if it is not empty.
pub open spec fn lines_of(text: Seq<char>) -> Seq<Seq<char>> {
    let raw = split(text, '\n');
    let kept = if raw.last().len() == 0 {
        raw.drop_last()
    } else {
        raw
    };
    Seq::new(kept.len(), |i: int| strip_cr(kept[i]))
}

/// The fields of the header line; none where the text has no line.
pub open spec fn header_of(lines: Seq<Seq<char>>) -> Seq<Seq<char>> {
    if lines.len() == 0 {
        Seq::empty()
    } else {
        split(lines[0], ',')
    }
}

/// `at` is the first place of `cells` that holds `name`.
pub open spec fn is_first_position(cells: Seq<Seq<char>>, name: Seq<char>, at: int) -> bool {
    &&& 0 <= at < cells.len()
    &&& cells[at] == name
    &&& forall|j: int| 0 <= j < at ==> cells[j] != name
}

/// The first place of `cells` that holds `name`.
pub open spec fn first_position(cells: Seq<Seq<char>>, name: Seq<char>) -> int {
    choose|at: int| is_first_position(cells, name, at)
}

/// The first column of the schema, from place `k` on, that the header does
/// not name.
pub open spec fn first_missing(header: Seq<Seq<char>>, k: int) -> Option<Column>
    decreases 11 - k,
{
    if k < 0 || k >= 11 {
        None
    } else if !header.contains(column_name(schema()[k])) {
        Some(schema()[k])
    } else {
        first_missing(header, k + 1)
    }
}

/// The field of a row that belongs to `column`.
pub open spec fn cell_of(header: Seq<Seq<char>>, cells: Seq<Seq<char>>, column: Column) -> Seq<
    char,
> {
    cells[first_position(header, column_name(column))]
}

/// The record that a row gives, or the first thing wrong with it: a field
/// count other than the header's; else, in the order of the schema, a field
/// that cannot be read as what its column holds.
pub open spec fn row_result(header: Seq<Seq<char>>, cells: Seq<Seq<char>>, row: usize) -> Result<
    RecordData,
    ParseError,
> {
    let work_year = integer_of(cell_of(header, cells, Column::WorkYear));
    let salary = number_of(cell_of(header, cells, Column::Measure(Measure::Salary)));
    let salary_in_usd = number_of(cell_of(header, cells, Column::Measure(Measure::SalaryInUsd)));
    let remote_ratio = number_of(cell_of(header, cells, Column::Measure(Measure::RemoteRatio)));
    if cells.len() != header.len() {
        Err(ParseError { row, column: None, reason: ParseReason::FieldCount })
    } else if work_year is None {
        Err(ParseError { row, column: Some(Column::WorkYear), reason: ParseReason::InvalidInteger })
    } else if salary is None {
        Err(
            ParseError {
                row,
                column: Some(Column::Measure(Measure::Salary)),
                reason: ParseReason::InvalidNumber,
            },
        )
    } else if salary_in_usd is None {
        Err(
            ParseError {
                row,
                column: Some(Column::Measure(Measure::SalaryInUsd)),
                reason: ParseReason::InvalidNumber,
            },
        )
    } else if remote_ratio is None {
        Err(
            ParseError {
                row,
                column: Some(Column::Measure(Measure::RemoteRatio)),
                reason: ParseReason::InvalidNumber,
            },
        )
    } else {
        Ok(
            RecordData {
                work_year: work_year.unwrap() as int,
                experience_level: cell_of(header, cells, Column::Category(Category::ExperienceLevel)),
                employment_type: cell_of(header, cells, Column::Category(Category::EmploymentType)),
                job_title: cell_of(header, cells, Column::Category(Category::JobTitle)),
                salary: salary.unwrap() as int,
                salary_currency: cell_of(header, cells, Column::Category(Category::SalaryCurrency)),
                salary_in_usd: salary_in_usd.unwrap() as int,
                employee_residence: cell_of(
                    header,
                    cells,
                    Column::Category(Category::EmployeeResidence),
                ),
                remote_ratio: remote_ratio.unwrap() as int,
                company_location: cell_of(header, cells, Column::Category(Category::CompanyLocation)),
                company_size: cell_of(header, cells, Column::Category(Category::CompanySize)),
            },
        )
    }
}

/// The records of lines 1 to `upto - 1`, in order, or what is wrong with
/// the first of these lines that cannot be read.
pub open spec fn rows_result(header: Seq<Seq<char>>, lines: Seq<Seq<char>>, upto: int) -> Result<
    Seq<RecordData>,
    ParseError,
>
    decreases upto,
{
    if upto <= 1 {
        Ok(Seq::empty())
    } else {
        match rows_result(header, lines, upto - 1) {
            Err(e) => Err(e),
            Ok(records) => match row_result(
                header,
                split(lines[upto - 1], ','),
                (upto - 1) as usize,
            ) {
                Err(e) => Err(e),
                Ok(record) => Ok(records.push(record)),
            },
        }
    }
}

/// What [`parse`] returns: the records of the rows, in the order of the
/// rows; or a missing column of the header, the first in the order of the
/// schema; or what is wrong with the first row that cannot be read.
pub open spec fn parse_result(text: Seq<char>) -> Result<Seq<RecordData>, ParseError> {
    let lines = lines_of(text);
    let header = header_of(lines);
    match first_missing(header, 0) {
        Some(column) => Err(
            ParseError { row: 0, column: Some(column), reason: ParseReason::MissingColumn },
        ),
        None => rows_result(header, lines, lines.len() as int),
    }
}

/// Once a row has failed the parse, further rows do not change the failure.
pub proof fn lemma_rows_result_fails(
    header: Seq<Seq<char>>,
    lines: Seq<Seq<char>>,
    failed: int,
    upto: int,
)
    requires
        failed <= upto,
        rows_result(header, lines, failed) is Err,
    ensures
        rows_result(header, lines, upto) == rows_result(header, lines, failed),
    decreases upto,
{
    if failed < upto {
        lemma_rows_result_fails(header, lines, failed, upto - 1);
    }
}

/// Only one place is the first that holds a name.
pub proof fn lemma_first_position(cells: Seq<Seq<char>>, name: Seq<char>, at: int)
    requires
        is_first_position(cells, name, at),
    ensures
        first_position(cells, name) == at,
        cells.contains(name),
{
    let other = first_position(cells, name);
    assert(is_first_position(cells, name, other));
    if other < at {
        assert(cells[other] != name);
    } else if at < other {
        assert(cells[at] != name);
    }
}

/// Cuts a text into its lines.
fn split_lines(text: &Vec<char>) -> (lines: Vec<Vec<char>>)
    ensures
        views(lines@) == lines_of(text@),
{
    let mut lines: Vec<Vec<char>> = Vec::new();
    let mut current: Vec<char> = Vec::new();
    let mut i: usize = 0;
    proof {
        assert(text@.take(0) =~= Seq::<char>::empty());
        assert(views(lines@) =~= Seq::new(0, |k: int| strip_cr(split(text@.take(0), '\n')[k])));
    }
    while i < text.len()
        invariant
            i <= text.len(),
            split(text@.take(i as int), '\n').len() >= 1,
            current@ == split(text@.take(i as int), '\n').last(),
            views(lines@) == Seq::new(
                (split(text@.take(i as int), '\n').len() - 1) as nat,
                |k: int| strip_cr(split(text@.take(i as int), '\n')[k]),
            ),
        decreases text.len() - i,
    {
        let c = text[i];
        let ghost raw = split(text@.take(i as int), '\n');
        let ghost next = split(text@.take(i + 1), '\n');
        let ghost done = views(lines@);
        proof {
            assert(text@.take(i + 1).drop_last() =~= text@.take(i as int));
            assert(text@.take(i + 1).last() == c);
        }
        if c == '\n' {
            if current.len() > 0 && current[current.len() - 1] == '\r' {
                current.pop();
            }
            lines.push(current);
            current = Vec::new();
            proof {
                assert(next == raw.push(Seq::<char>::empty()));
                assert(views(lines@) =~= done.push(strip_cr(raw.last())));
                assert(views(lines@) =~= Seq::new(
                    (next.len() - 1) as nat,
                    |k: int| strip_cr(next[k]),
                ));
            }
        } else {
            current.push(c);
            proof {
                assert(next == raw.drop_last().push(raw.last().push(c)));
                assert(views(lines@) =~= Seq::new(
                    (next.len() - 1) as nat,
                    |k: int| strip_cr(next[k]),
                ));
            }
        }
        i += 1;
    }
    proof {
        assert(text@.take(text.len() as int) =~= text@);
    }
    let ghost raw = split(text@, '\n');
    let ghost done = views(lines@);
    if current.len() > 0 {
        if current[current.len() - 1] == '\r' {
            current.pop();
        }
        lines.push(current);
        proof {
            assert(views(lines@) =~= done.push(strip_cr(raw.last())));
            assert(views(lines@) =~= lines_of(text@));
        }
    } else {
        proof {
            assert(views(lines@) =~= lines_of(text@));
        }
    }
    lines
}

/// The first place of `cells` that holds `name`, if any does.
fn position_of(cells: &Vec<Vec<char>>, name: &Vec<char>) -> (r: Option<usize>)
    ensures
        match r {
            Some(at) => is_first_position(views(cells@), name@, at as int),
            None => !views(cells@).contains(name@),
        },
{
    let mut at: usize = 0;
    while at < cells.len()
        invariant
            at <= cells.len(),
            forall|j: int| 0 <= j < at ==> views(cells@)[j] != name@,
        decreases cells.len() - at,
    {
        if compare_text(&cells[at], name) == Place::Same {
            return Some(at);
        }
        at += 1;
    }
    None
}

/// Where each column of the schema stands in the header, or the first
/// column that the header does not name.
fn locate(header: &Vec<Vec<char>>) -> (r: Result<Vec<usize>, Column>)
    ensures
        match r {
            Ok(layout) => {
                &&& first_missing(views(header@), 0) is None
                &&& layout@.len() == 11
                &&& forall|k: int|
                    0 <= k < 11 ==> is_first_position(
                        views(header@),
                        column_name(schema()[k]),
                        #[trigger] layout@[k] as int,
                    )
            },
            Err(column) => first_missing(views(header@), 0) == Some(column),
        },
{
    let mut layout: Vec<usize> = Vec::new();
    let mut k: usize = 0;
    while k < 11
        invariant
            k <= 11,
            layout@.len() == k,
            first_missing(views(header@), 0) == first_missing(views(header@), k as int),
            forall|j: int|
                0 <= j < k ==> is_first_position(
                    views(header@),
                    column_name(schema()[j]),
                    #[trigger] layout@[j] as int,
                ),
        decreases 11 - k,
    {
        let column = match Column::at(k) {
            Some(column) => column,
            None => {
                return Ok(layout);
            },
        };
        let name = chars_of(column.name());
        match position_of(header, &name) {
            None => {
                return Err(column);
            },
            Some(at) => {
                proof {
                    lemma_first_position(views(header@), name@, at as int);
                }
                layout.push(at);
            },
        }
        k += 1;
    }
    Ok(layout)
}

/// Reads one row.
fn parse_row(
    cells: &Vec<Vec<char>>,
    layout: &Vec<usize>,
    row: usize,
    Ghost(header): Ghost<Seq<Seq<char>>>,
) -> (r: Result<Record, ParseError>)
    requires
        layout@.len() == 11,
        forall|k: int|
            0 <= k < 11 ==> is_first_position(
                header,
                column_name(schema()[k]),
                #[trigger] layout@[k] as int,
            ),
        cells@.len() == header.len(),
    ensures
        match r {
            Ok(record) => row_result(header, views(cells@), row) == Ok::<RecordData, ParseError>(
                record@,
            ),
            Err(e) => row_result(header, views(cells@), row) == Err::<RecordData, ParseError>(e),
        },
{
    proof {
        assert forall|k: int| 0 <= k < 11 implies #[trigger] layout@[k] < cells@.len()
            && cell_of(header, views(cells@), schema()[k]) == cells@[layout@[k] as int]@ by {
            lemma_first_position(header, column_name(schema()[k]), layout@[k] as int);
        }
        assert(schema()[0] == Column::WorkYear);
        assert(schema()[1] == Column::Category(Category::ExperienceLevel));
        assert(schema()[2] == Column::Category(Category::EmploymentType));
        assert(schema()[3] == Column::Category(Category::JobTitle));
        assert(schema()[4] == Column::Measure(Measure::Salary));
        assert(schema()[5] == Column::Category(Category::SalaryCurrency));
        assert(schema()[6] == Column::Measure(Measure::SalaryInUsd));
        assert(schema()[7] == Column::Category(Category::EmployeeResidence));
        assert(schema()[8] == Column::Measure(Measure::RemoteRatio));
        assert(schema()[9] == Column::Category(Category::CompanyLocation));
        assert(schema()[10] == Column::Category(Category::CompanySize));
    }
    let work_year = match parse_integer(&cells[layout[0]]) {
        Some(n) => n,
        None => {
            return Err(
                ParseError {
                    row,
                    column: Some(Column::WorkYear),
                    reason: ParseReason::InvalidInteger,
                },
            );
        },
    };
    let salary = match parse_number(&cells[layout[4]]) {
        Some(n) => n,
        None => {
            return Err(
                ParseError {
                    row,
                    column: Some(Column::Measure(Measure::Salary)),
                    reason: ParseReason::InvalidNumber,
                },
            );
        },
    };
    let salary_in_usd = match parse_number(&cells[layout[6]]) {
        Some(n) => n,
        None => {
            return Err(
                ParseError {
                    row,
                    column: Some(Column::Measure(Measure::SalaryInUsd)),
                    reason: ParseReason::InvalidNumber,
                },
            );
        },
    };
    let remote_ratio = match parse_number(&cells[layout[8]]) {
        Some(n) => n,
        None => {
            return Err(
                ParseError {
                    row,
                    column: Some(Column::Measure(Measure::RemoteRatio)),
                    reason: ParseReason::InvalidNumber,
                },
            );
        },
    };
    let record = Record {
        work_year,
        experience_level: string_of(&cells[layout[1]]),
        employment_type: string_of(&cells[layout[2]]),
        job_title: string_of(&cells[layout[3]]),
        salary,
        salary_currency: string_of(&cells[layout[5]]),
        salary_in_usd,
        employee_residence: string_of(&cells[layout[7]]),
        remote_ratio,
        company_location: string_of(&cells[layout[9]]),
        company_size: string_of(&cells[layout[10]]),
    };
    Ok(record)
}

/// Parses the text of a survey into records, one for each row and in the
/// order of the rows.
///
/// Fails where the header lacks one of the eleven columns, where a row has
/// another number of fields than the header, and where a field of a numeric
/// column cannot be read. The error names the line and the column; it is that
/// of the first line at fault.
pub fn parse(raw_text: &str) -> (r: Result<Vec<Record>, ParseError>)
    ensures
        match r {
            Ok(records) => parse_result(raw_text@) == Ok::<Seq<RecordData>, ParseError>(
                record_views(records@),
            ),
            Err(e) => parse_result(raw_text@) == Err::<Seq<RecordData>, ParseError>(e),
        },
{
    let text = chars_of(raw_text);
    let lines = split_lines(&text);
    let header: Vec<Vec<char>> = if lines.len() == 0 {
        Vec::new()
    } else {
        split_text(&lines[0], ',')
    };
    proof {
        assert(views(header@) =~= header_of(lines_of(raw_text@)));
    }
    let layout = match locate(&header) {
        Ok(layout) => layout,
        Err(column) => {
            return Err(
                ParseError { row: 0, column: Some(column), reason: ParseReason::MissingColumn },
            );
        },
    };
    let mut records: Vec<Record> = Vec::new();
    let mut i: usize = 1;
    let ghost all = lines_of(raw_text@);
    let ghost head = views(header@);
    proof {
        assert(record_views(records@) =~= Seq::<RecordData>::empty());
    }
    while i < lines.len()
        invariant
            1 <= i,
            i <= lines.len() || lines.len() == 0,
            all == lines_of(raw_text@),
            all == views(lines@),
            head == views(header@),
            head == header_of(all),
            first_missing(head, 0) is None,
            layout@.len() == 11,
            forall|k: int|
                0 <= k < 11 ==> is_first_position(
                    head,
                    column_name(schema()[k]),
                    #[trigger] layout@[k] as int,
                ),
            rows_result(head, all, i as int) == Ok::<Seq<RecordData>, ParseError>(
                record_views(records@),
            ),
        decreases lines.len() - i,
    {
        let cells = split_text(&lines[i], ',');
        proof {
            assert(views(cells@) == split(all[i as int], ','));
        }
        if cells.len() != header.len() {
            proof {
                assert(rows_result(head, all, i + 1) is Err);
                lemma_rows_result_fails(head, all, i + 1, all.len() as int);
            }
            return Err(ParseError { row: i, column: None, reason: ParseReason::FieldCount });
        }
        match parse_row(&cells, &layout, i, Ghost(head)) {
            Err(e) => {
                proof {
                    assert(rows_result(head, all, i + 1) is Err);
                    lemma_rows_result_fails(head, all, i + 1, all.len() as int);
                }
                return Err(e);
            },
            Ok(record) => {
                let ghost before = record_views(records@);
                records.push(record);
                proof {
                    assert(record_views(records@) =~= before.push(record@));
                }
            },
        }
        i += 1;
    }
    proof {
        if lines.len() == 0 {
            assert(record_views(records@) =~= Seq::<RecordData>::empty());
        }
    }
    Ok(records)
}

} // verus!
