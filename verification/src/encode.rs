//! One-hot vectors and binary indicator features.

use vstd::prelude::*;
use crate::category::{CategoryIndexMap, EncodeError};
use crate::record::{Category, Record, category_values};

verus! {

/// A vector of `width` entries that holds a one at `index` and zeros
/// elsewhere.
pub open spec fn one_hot_row(index: int, width: nat) -> Seq<i32> {
    Seq::new(width, |j: int| if j == index { 1i32 } else { 0i32 })
}

/// A one-hot vector for an index within its width has the width as its
/// length, a one at the index, and a zero at every other place.
pub proof fn lemma_one_hot_row(index: int, width: nat)
    requires
        0 <= index < width,
    ensures
        one_hot_row(index, width).len() == width,
        one_hot_row(index, width)[index] == 1,
        forall|j: int| 0 <= j < width && j != index ==> #[trigger] one_hot_row(index, width)[j] == 0,
{
}

/// Builds `one_hot_row(index, width)`.
fn unit_row(index: usize, width: usize) -> (row: Vec<i32>)
    ensures
        row@ == one_hot_row(index as int, width as nat),
{
    let mut row: Vec<i32> = Vec::new();
    let mut j: usize = 0;
    while j < width
        invariant
            j <= width,
            row@ == one_hot_row(index as int, width as nat).take(j as int),
        decreases width - j,
    {
        row.push(if j == index { 1 } else { 0 });
        assert(row@ =~= one_hot_row(index as int, width as nat).take(j + 1));
        j += 1;
    }
    assert(one_hot_row(index as int, width as nat).take(width as int) =~= one_hot_row(
        index as int,
        width as nat,
    ));
    row
}

/// One-hot encodes a categorical column against an index map.
///
/// On success there is one vector for each record, in the order of the
/// records. Each has as many entries as the map has categories: a one at the
/// index of the record's category, and zeros elsewhere.
///
/// Fails with `UnknownCategory` exactly if some record has a value that the
/// map does not hold; the error names the first such row.
pub fn one_hot(records: &Vec<Record>, column: Category, index_map: &CategoryIndexMap) -> (r: Result<
    Vec<Vec<i32>>,
    EncodeError,
>)
    ensures
        match r {
            Ok(rows) => {
                &&& rows@.len() == records@.len()
                &&& forall|i: int|
                    0 <= i < records@.len() ==> {
                        &&& index_map.categories().contains(
                            #[trigger] category_values(records@, column)[i],
                        )
                        &&& rows@[i]@ == one_hot_row(
                            index_map.index(category_values(records@, column)[i]),
                            index_map.categories().len(),
                        )
                    }
            },
            Err(e) => {
                &&& e matches EncodeError::UnknownCategory { row }
                &&& row < records@.len()
                &&& !index_map.categories().contains(category_values(records@, column)[row as int])
                &&& forall|k: int|
                    0 <= k < row ==> index_map.categories().contains(
                        #[trigger] category_values(records@, column)[k],
                    )
            },
        },
{
    let width = index_map.cardinality();
    let mut rows: Vec<Vec<i32>> = Vec::new();
    let mut i: usize = 0;
    let ghost values = category_values(records@, column);
    while i < records.len()
        invariant
            i <= records.len(),
            width == index_map.categories().len(),
            values == category_values(records@, column),
            rows@.len() == i,
            forall|k: int|
                0 <= k < i ==> {
                    &&& index_map.categories().contains(#[trigger] values[k])
                    &&& rows@[k]@ == one_hot_row(index_map.index(values[k]), width as nat)
                },
        decreases records.len() - i,
    {
        let value = records[i].category(column);
        assert(value@ == values[i as int]);
        match index_map.index_of(value.as_str()) {
            None => {
                return Err(EncodeError::UnknownCategory { row: i });
            },
            Some(index) => {
                assert(index_map.categories().contains(values[i as int]));
                rows.push(unit_row(index, width));
            },
        }
        i += 1;
    }
    Ok(rows)
}

/// Derives a binary feature: for each record, in order, 1 if `predicate`
/// holds of it and 0 if not.
pub fn binary_indicator<P: Fn(&Record) -> bool>(records: &Vec<Record>, predicate: P) -> (flags: Vec<
    usize,
>)
    requires
        forall|i: int| 0 <= i < records@.len() ==> call_requires(predicate, (&records@[i],)),
    ensures
        flags@.len() == records@.len(),
        forall|i: int|
            0 <= i < records@.len() ==> (#[trigger] flags@[i] == 0 || flags@[i] == 1)
                && call_ensures(predicate, (&records@[i],), flags@[i] == 1),
{
    let mut flags: Vec<usize> = Vec::new();
    let mut i: usize = 0;
    while i < records.len()
        invariant
            i <= records.len(),
            flags@.len() == i,
            forall|k: int| 0 <= k < records@.len() ==> call_requires(predicate, (&records@[k],)),
            forall|k: int|
                0 <= k < i ==> (#[trigger] flags@[k] == 0 || flags@[k] == 1) && call_ensures(
                    predicate,
                    (&records@[k],),
                    flags@[k] == 1,
                ),
        decreases records.len() - i,
    {
        let holds = predicate(&records[i]);
        flags.push(if holds { 1 } else { 0 });
        i += 1;
    }
    flags
}

} // verus!
