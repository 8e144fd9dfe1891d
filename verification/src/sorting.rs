//! Sorting a numeric column.

use vstd::prelude::*;
use vstd::relations::{sorted_by, total_ordering};
use vstd::seq_lib::{lemma_multiset_commutative, lemma_sorted_unique, to_multiset_build};

verus! {

/// The natural order on values.
pub open spec fn leq() -> spec_fn(i64, i64) -> bool {
    |a: i64, b: i64| a <= b
}

/// No value of the column is followed by a smaller one.
pub open spec fn ascending(s: Seq<i64>) -> bool {
    forall|i: int, j: int| 0 <= i < j < s.len() ==> s[i] <= s[j]
}

/// The values of a column in ascending order.
pub open spec fn sorted(v: Seq<i64>) -> Seq<i64> {
    v.sort_by(leq())
}

/// The ascending rearrangement of a column is unique: whatever is ascending
/// and holds the same values as often is `sorted(v)`. It has the length of
/// the column.
pub proof fn lemma_sorted_is_unique(v: Seq<i64>, s: Seq<i64>)
    requires
        ascending(s),
        s.to_multiset() == v.to_multiset(),
    ensures
        s == sorted(v),
        s.len() == v.len(),
{
    assert(total_ordering(leq()));
    v.lemma_sort_by_ensures(leq());
    assert(sorted_by(s, leq()));
    lemma_sorted_unique(s, sorted(v), leq());
    vstd::seq_lib::to_multiset_len(s);
    vstd::seq_lib::to_multiset_len(v);
}

/// `sorted(v)` is ascending and holds the values of `v`, each as often.
pub proof fn lemma_sorted_properties(v: Seq<i64>)
    ensures
        ascending(sorted(v)),
        sorted(v).to_multiset() == v.to_multiset(),
        sorted(v).len() == v.len(),
{
    assert(total_ordering(leq()));
    v.lemma_sort_by_ensures(leq());
    let s = sorted(v);
    assert forall|i: int, j: int| 0 <= i < j < s.len() implies s[i] <= s[j] by {
        assert(leq()(s[i], s[j]));
    }
    vstd::seq_lib::to_multiset_len(s);
    vstd::seq_lib::to_multiset_len(v);
}

/// Merges two ascending columns into one.
fn merge(a: &Vec<i64>, b: &Vec<i64>) -> (out: Vec<i64>)
    requires
        ascending(a@),
        ascending(b@),
    ensures
        ascending(out@),
        out@.to_multiset() == a@.to_multiset().add(b@.to_multiset()),
{
    broadcast use vstd::multiset::group_multiset_axioms;

    let mut out: Vec<i64> = Vec::new();
    let mut i: usize = 0;
    let mut j: usize = 0;
    proof {
        assert(a@.take(0) =~= out@);
        assert(b@.take(0) =~= out@);
        vstd::seq_lib::to_multiset_len(out@);
        assert(out@.to_multiset() =~= out@.to_multiset().add(out@.to_multiset()));
    }
    while i < a.len() || j < b.len()
        invariant
            i <= a.len(),
            j <= b.len(),
            ascending(a@),
            ascending(b@),
            ascending(out@),
            out@.to_multiset() == a@.take(i as int).to_multiset().add(
                b@.take(j as int).to_multiset(),
            ),
            forall|k: int| 0 <= k < out@.len() && i < a@.len() ==> out@[k] <= a@[i as int],
            forall|k: int| 0 <= k < out@.len() && j < b@.len() ==> out@[k] <= b@[j as int],
        decreases a.len() - i + b.len() - j,
    {
        let from_a = if i == a.len() {
            false
        } else if j == b.len() {
            true
        } else {
            a[i] <= b[j]
        };
        let ghost before = out@;
        if from_a {
            proof {
                assert(a@.take(i + 1) =~= a@.take(i as int).push(a@[i as int]));
                to_multiset_build(a@.take(i as int), a@[i as int]);
                to_multiset_build(before, a@[i as int]);
            }
            out.push(a[i]);
            i += 1;
        } else {
            proof {
                assert(b@.take(j + 1) =~= b@.take(j as int).push(b@[j as int]));
                to_multiset_build(b@.take(j as int), b@[j as int]);
                to_multiset_build(before, b@[j as int]);
            }
            out.push(b[j]);
            j += 1;
        }
    }
    assert(a@.take(a.len() as int) =~= a@);
    assert(b@.take(b.len() as int) =~= b@);
    out
}

/// Sorts the part of `values` from `lo` up to, not including, `hi`.
fn sort_range(values: &Vec<i64>, lo: usize, hi: usize) -> (out: Vec<i64>)
    requires
        lo <= hi <= values.len(),
    ensures
        ascending(out@),
        out@.to_multiset() == values@.subrange(lo as int, hi as int).to_multiset(),
    decreases hi - lo,
{
    broadcast use vstd::multiset::group_multiset_axioms;

    if hi - lo <= 1 {
        let mut out: Vec<i64> = Vec::new();
        if hi - lo == 1 {
            out.push(values[lo]);
        }
        assert(out@ =~= values@.subrange(lo as int, hi as int));
        out
    } else {
        let mid = lo + (hi - lo) / 2;
        let left = sort_range(values, lo, mid);
        let right = sort_range(values, mid, hi);
        proof {
            let l = values@.subrange(lo as int, mid as int);
            let r = values@.subrange(mid as int, hi as int);
            assert(values@.subrange(lo as int, hi as int) =~= l + r);
            lemma_multiset_commutative(l, r);
        }
        merge(&left, &right)
    }
}

/// A sorted copy of `values`; `values` itself is left as it is.
pub fn sort(values: &Vec<i64>) -> (out: Vec<i64>)
    ensures
        out@ == sorted(values@),
        out@.len() == values@.len(),
{
    let out = sort_range(values, 0, values.len());
    proof {
        assert(values@.subrange(0, values.len() as int) =~= values@);
        lemma_sorted_is_unique(values@, out@);
    }
    out
}

} // verus!
