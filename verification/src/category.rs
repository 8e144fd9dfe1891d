//! A stable mapping from the values of a categorical column to dense indices.

use vstd::prelude::*;
use crate::text::{
    chars_of, string_of, compare_text, text_lt, texts, views, Place, lemma_text_lt_irreflexive,
    lemma_text_lt_transitive, lemma_text_lt_total,
};

verus! {

/// Why a column could not be indexed or encoded.
#[derive(Debug, Clone, Copy, PartialEq, Eq, Structural)]
pub enum EncodeError {
    /// The column has no row.
    EmptyColumn,
    /// The value in this row is not in the index map.
    UnknownCategory { row: usize },
}

/// Each text comes before the next: the sequence is in lexicographic order
/// and holds nothing twice.
pub open spec fn strictly_ascending(names: Seq<Seq<char>>) -> bool {
    forall|i: int, j: int| 0 <= i < j < names.len() ==> text_lt(names[i], names[j])
}

/// The categories of a column, each with an index of its own.
///
/// The categories are kept in lexicographic order, and the index of a
/// category is its place in that order, counted from zero. So the indices are
/// exactly `0..cardinality`, and the same column always gives the same map.
/// A map is built once, by [`build_index`], and never changed.
#[derive(Debug)]
pub struct CategoryIndexMap {
    names: Vec<Vec<char>>,
}

impl CategoryIndexMap {
    /// The categories, in the order of their indices.
    pub closed spec fn categories(&self) -> Seq<Seq<char>> {
        views(self.names@)
    }

    /// The map is well formed: its categories are in strictly ascending
    /// order.
    pub open spec fn wf(&self) -> bool {
        strictly_ascending(self.categories())
    }

    #[verifier::type_invariant]
    spec fn inv(&self) -> bool {
        self.wf()
    }

    /// The index of a category, and what the map holds: `value` is a
    /// category exactly if `index(value)` is in `0..cardinality`.
    pub open spec fn index(&self, value: Seq<char>) -> int {
        if self.categories().contains(value) {
            self.categories().index_of(value)
        } else {
            -1
        }
    }

    /// How many categories the map holds.
    pub fn cardinality(&self) -> (n: usize)
        ensures
            n == self.categories().len(),
    {
        self.names.len()
    }

    /// The index of `value`, or `None` where the map does not hold it.
    pub fn index_of(&self, value: &str) -> (r: Option<usize>)
        ensures
            match r {
                Some(i) => i < self.categories().len() && self.categories()[i as int] == value@,
                None => !self.categories().contains(value@),
            },
            r matches Some(i) ==> i == self.index(value@),
            r is None ==> self.index(value@) == -1,
    {
        proof {
            use_type_invariant(self);
        }
        let key = chars_of(value);
        let at = lower_bound(&self.names, &key);
        let found = if at < self.names.len() {
            compare_text(&self.names[at], &key) == Place::Same
        } else {
            false
        };
        if found {
            proof {
                lemma_index_of_place(self.categories(), at as int);
            }
            Some(at)
        } else {
            proof {
                let names = self.categories();
                if names.contains(value@) {
                    let i = choose|i: int| 0 <= i < names.len() && names[i] == value@;
                    lemma_text_lt_irreflexive(value@);
                    if i > at {
                        lemma_text_lt_total(names[at as int], value@);
                    }
                }
            }
            None
        }
    }

    /// The category with the given index, or `None` where the index is not
    /// below the cardinality.
    pub fn category(&self, index: usize) -> (r: Option<String>)
        ensures
            match r {
                Some(name) => index < self.categories().len() && name@
                    == self.categories()[index as int],
                None => index >= self.categories().len(),
            },
    {
        if index < self.names.len() {
            Some(string_of(&self.names[index]))
        } else {
            None
        }
    }
}

/// In a strictly ascending sequence nothing occurs twice, and each text is
/// found at its own place.
pub proof fn lemma_index_of_place(names: Seq<Seq<char>>, i: int)
    requires
        strictly_ascending(names),
        0 <= i < names.len(),
    ensures
        names.contains(names[i]),
        names.index_of(names[i]) == i,
{
    let j = names.index_of(names[i]);
    assert(names.contains(names[i]));
    lemma_text_lt_irreflexive(names[i]);
    if j < i {
        assert(text_lt(names[j], names[i]));
    } else if j > i {
        assert(text_lt(names[i], names[j]));
    }
}

/// The first place in `names` whose text does not come before `value`.
fn lower_bound(names: &Vec<Vec<char>>, value: &Vec<char>) -> (at: usize)
    requires
        strictly_ascending(views(names@)),
    ensures
        at <= names@.len(),
        forall|i: int| 0 <= i < at ==> text_lt(#[trigger] views(names@)[i], value@),
        forall|i: int| at <= i < names@.len() ==> !text_lt(#[trigger] views(names@)[i], value@),
{
    let ghost all = views(names@);
    let mut low: usize = 0;
    let mut high: usize = names.len();
    while low < high
        invariant
            low <= high <= names@.len(),
            all == views(names@),
            strictly_ascending(all),
            forall|i: int| 0 <= i < low ==> text_lt(#[trigger] all[i], value@),
            forall|i: int| high <= i < all.len() ==> !text_lt(#[trigger] all[i], value@),
        decreases high - low,
    {
        let mid = low + (high - low) / 2;
        let place = compare_text(&names[mid], value);
        let ghost pivot = all[mid as int];
        if place == Place::Before {
            proof {
                assert forall|i: int| 0 <= i < mid + 1 implies text_lt(#[trigger] all[i], value@) by {
                    if i < mid {
                        lemma_text_lt_transitive(all[i], pivot, value@);
                    }
                }
            }
            low = mid + 1;
        } else {
            proof {
                lemma_text_lt_irreflexive(value@);
                assert forall|i: int| mid <= i < all.len() implies !text_lt(
                    #[trigger] all[i],
                    value@,
                ) by {
                    if text_lt(all[i], value@) {
                        if i > mid {
                            lemma_text_lt_transitive(pivot, all[i], value@);
                        }
                        if place == Place::After {
                            lemma_text_lt_transitive(value@, pivot, value@);
                        }
                    }
                }
            }
            high = mid;
        }
    }
    low
}

/// A sequence with `k` inserted holds what it held before, and `k`.
pub proof fn lemma_insert_contains<A>(s: Seq<A>, at: int, k: A, t: A)
    requires
        0 <= at <= s.len(),
    ensures
        s.insert(at, k).contains(t) <==> (s.contains(t) || t == k),
{
    let w = s.insert(at, k);
    if w.contains(t) {
        let j = choose|j: int| 0 <= j < w.len() && w[j] == t;
        if j < at {
            assert(s[j] == t);
        } else if j > at {
            assert(s[j - 1] == t);
        }
    }
    if s.contains(t) {
        let j = choose|j: int| 0 <= j < s.len() && s[j] == t;
        if j < at {
            assert(w[j] == t);
        } else {
            assert(w[j + 1] == t);
        }
    }
    if t == k {
        assert(w[at] == t);
    }
}

/// Inserting a new text at its lower bound keeps a sequence strictly
/// ascending.
proof fn lemma_insert_keeps_order(names: Seq<Seq<char>>, at: int, key: Seq<char>)
    requires
        strictly_ascending(names),
        0 <= at <= names.len(),
        forall|i: int| 0 <= i < at ==> text_lt(#[trigger] names[i], key),
        forall|i: int| at <= i < names.len() ==> !text_lt(#[trigger] names[i], key),
        !names.contains(key),
    ensures
        strictly_ascending(names.insert(at, key)),
{
    let w = names.insert(at, key);
    assert forall|i: int, j: int| 0 <= i < j < w.len() implies text_lt(w[i], w[j]) by {
        if j == at {
            assert(w[i] == names[i]);
        } else if i == at {
            assert(w[j] == names[j - 1]);
            assert(names.contains(names[j - 1]));
            lemma_text_lt_total(names[j - 1], key);
        } else {
            let a = if i < at { i } else { i - 1 };
            let b = if j < at { j } else { j - 1 };
            assert(w[i] == names[a] && w[j] == names[b]);
        }
    }
}

/// Builds the index map of a categorical column: collects the distinct
/// values and gives each its place in lexicographic order as its index.
///
/// Fails with `EmptyColumn` on a column without rows, and on no other.
pub fn build_index(categorical_values: &Vec<String>) -> (r: Result<CategoryIndexMap, EncodeError>)
    ensures
        categorical_values@.len() == 0 ==> (r matches Err(e) && e == EncodeError::EmptyColumn),
        categorical_values@.len() > 0 ==> r is Ok,
        r matches Ok(map) ==> {
            &&& map.wf()
            &&& forall|t: Seq<char>|
                map.categories().contains(t) <==> texts(categorical_values@).contains(t)
        },
{
    if categorical_values.len() == 0 {
        return Err(EncodeError::EmptyColumn);
    }
    let mut names: Vec<Vec<char>> = Vec::new();
    let mut i: usize = 0;
    let ghost all = texts(categorical_values@);
    while i < categorical_values.len()
        invariant
            i <= categorical_values.len(),
            all == texts(categorical_values@),
            strictly_ascending(views(names@)),
            forall|t: Seq<char>| views(names@).contains(t) <==> all.take(i as int).contains(t),
        decreases categorical_values.len() - i,
    {
        let key = chars_of(categorical_values[i].as_str());
        let at = lower_bound(&names, &key);
        let present = if at < names.len() {
            compare_text(&names[at], &key) == Place::Same
        } else {
            false
        };
        let ghost before = views(names@);
        proof {
            assert(all.take(i + 1) =~= all.take(i as int).push(key@));
            assert forall|t: Seq<char>|
                all.take(i + 1).contains(t) <==> (all.take(i as int).contains(t) || t == key@) by {
                lemma_insert_contains(all.take(i as int), i as int, key@, t);
                assert(all.take(i as int).insert(i as int, key@) =~= all.take(i as int).push(key@));
            }
        }
        if !present {
            proof {
                if before.contains(key@) {
                    let j = choose|j: int| 0 <= j < before.len() && before[j] == key@;
                    lemma_text_lt_irreflexive(key@);
                    if j >= at {
                        if j > at {
                            assert(text_lt(before[at as int], before[j]));
                        }
                        assert(false);
                    } else {
                        assert(text_lt(before[j], key@));
                    }
                }
                lemma_insert_keeps_order(before, at as int, key@);
            }
            names.insert(at, key);
            proof {
                assert(views(names@) =~= before.insert(at as int, key@));
                assert forall|t: Seq<char>|
                    views(names@).contains(t) <==> all.take(i + 1).contains(t) by {
                    lemma_insert_contains(before, at as int, key@, t);
                }
            }
        } else {
            proof {
                assert(before[at as int] == key@);
                assert(before.contains(key@));
            }
        }
        i += 1;
    }
    proof {
        assert(all.take(categorical_values.len() as int) =~= all);
    }
    Ok(CategoryIndexMap { names })
}

/// The indices of a map are a bijection between its categories and
/// `0..cardinality`: each category has an index in that range, each index
/// in that range belongs to one category, and two categories never share one.
/// What is no category has the index -1.
pub proof fn lemma_index_is_bijection(map: CategoryIndexMap)
    requires
        map.wf(),
    ensures
        forall|i: int|
            0 <= i < map.categories().len() ==> map.index(#[trigger] map.categories()[i]) == i,
        forall|t: Seq<char>|
            map.categories().contains(t) ==> 0 <= #[trigger] map.index(t) < map.categories().len()
                && map.categories()[map.index(t)] == t,
        forall|t: Seq<char>| !map.categories().contains(t) ==> #[trigger] map.index(t) == -1,
        forall|t: Seq<char>, u: Seq<char>|
            map.categories().contains(t) && map.categories().contains(u) && #[trigger] map.index(t)
                == #[trigger] map.index(u) ==> t == u,
{
    let names = map.categories();
    assert forall|i: int| 0 <= i < names.len() implies map.index(#[trigger] names[i]) == i by {
        lemma_index_of_place(names, i);
    }
}

/// Two strictly ascending sequences that hold the same texts are equal.
pub proof fn lemma_ascending_is_unique(x: Seq<Seq<char>>, y: Seq<Seq<char>>)
    requires
        strictly_ascending(x),
        strictly_ascending(y),
        forall|t: Seq<char>| x.contains(t) <==> y.contains(t),
    ensures
        x == y,
    decreases x.len(),
{
    if x.len() == 0 {
        if y.len() > 0 {
            assert(y.contains(y[0]));
        }
        assert(x =~= y);
    } else {
        let top = x.last();
        assert(x.contains(top));
        let at = choose|at: int| 0 <= at < y.len() && y[at] == top;
        let other = y.last();
        assert(y.contains(other));
        let back = choose|back: int| 0 <= back < x.len() && x[back] == other;
        lemma_text_lt_irreflexive(top);
        if at < y.len() - 1 {
            assert(text_lt(y[at], y[y.len() - 1]));
            if back < x.len() - 1 {
                assert(text_lt(x[back], x[x.len() - 1]));
                lemma_text_lt_transitive(top, other, top);
            }
        }
        assert(top == other);
        let xs = x.drop_last();
        let ys = y.drop_last();
        assert forall|t: Seq<char>| xs.contains(t) <==> ys.contains(t) by {
            if xs.contains(t) {
                let i = choose|i: int| 0 <= i < xs.len() && xs[i] == t;
                assert(x[i] == t && text_lt(x[i], x[x.len() - 1]));
                assert(x.contains(t));
                let j = choose|j: int| 0 <= j < y.len() && y[j] == t;
                assert(ys[j] == t);
            }
            if ys.contains(t) {
                let j = choose|j: int| 0 <= j < ys.len() && ys[j] == t;
                assert(y[j] == t && text_lt(y[j], y[y.len() - 1]));
                assert(y.contains(t));
                let i = choose|i: int| 0 <= i < x.len() && x[i] == t;
                assert(xs[i] == t);
            }
        }
        assert(strictly_ascending(xs)) by {
            assert forall|i: int, j: int| 0 <= i < j < xs.len() implies text_lt(xs[i], xs[j]) by {
                assert(xs[i] == x[i] && xs[j] == x[j]);
            }
        }
        assert(strictly_ascending(ys)) by {
            assert forall|i: int, j: int| 0 <= i < j < ys.len() implies text_lt(ys[i], ys[j]) by {
                assert(ys[i] == y[i] && ys[j] == y[j]);
            }
        }
        lemma_ascending_is_unique(xs, ys);
        assert(x =~= xs.push(top));
        assert(y =~= ys.push(other));
    }
}

/// A column determines its map: two maps that hold the same categories give
/// every category the same index.
pub proof fn lemma_index_is_determined(a: CategoryIndexMap, b: CategoryIndexMap)
    requires
        a.wf(),
        b.wf(),
        forall|t: Seq<char>| a.categories().contains(t) <==> b.categories().contains(t),
    ensures
        a.categories() == b.categories(),
        forall|t: Seq<char>| a.index(t) == b.index(t),
{
    lemma_ascending_is_unique(a.categories(), b.categories());
}

} // verus!
