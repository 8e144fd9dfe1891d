//! Selecting records and projecting them onto output values.

use vstd::prelude::*;
use crate::record::Record;

verus! {

/// `kept` lists, in ascending order, exactly the places of the records of
/// which `predicate` holds.
pub open spec fn is_selection<P: Fn(&Record) -> bool>(
    records: Seq<Record>,
    predicate: P,
    kept: Seq<int>,
) -> bool {
    &&& forall|k: int| 0 <= k < kept.len() ==> 0 <= #[trigger] kept[k] < records.len()
    &&& forall|j: int, k: int| 0 <= j < k < kept.len() ==> kept[j] < kept[k]
    &&& forall|i: int|
        0 <= i < records.len() ==> call_ensures(
            predicate,
            (&#[trigger] records[i],),
            kept.contains(i),
        )
}

/// Keeps the records of which `predicate` holds, in their order, and maps
/// each of them through `projection`. Where no record is kept the result is
/// empty: that is no error.
pub fn filter_project<P: Fn(&Record) -> bool, F: Fn(&Record) -> T, T>(
    records: &Vec<Record>,
    predicate: P,
    projection: F,
) -> (out: Vec<T>)
    requires
        forall|i: int| 0 <= i < records@.len() ==> call_requires(predicate, (&records@[i],)),
        forall|i: int|
            0 <= i < records@.len() && call_ensures(predicate, (&records@[i],), true)
                ==> call_requires(projection, (&records@[i],)),
    ensures
        exists|kept: Seq<int>|
            {
                &&& is_selection(records@, predicate, kept)
                &&& out@.len() == kept.len()
                &&& forall|k: int|
                    0 <= k < kept.len() ==> call_ensures(
                        projection,
                        (&records@[kept[k]],),
                        #[trigger] out@[k],
                    )
            },
{
    let mut out: Vec<T> = Vec::new();
    let ghost mut kept: Seq<int> = Seq::empty();
    let mut i: usize = 0;
    while i < records.len()
        invariant
            i <= records.len(),
            forall|k: int| 0 <= k < records@.len() ==> call_requires(predicate, (&records@[k],)),
            forall|k: int|
                0 <= k < records@.len() && call_ensures(predicate, (&records@[k],), true)
                    ==> call_requires(projection, (&records@[k],)),
            out@.len() == kept.len(),
            forall|k: int| 0 <= k < kept.len() ==> 0 <= #[trigger] kept[k] < i,
            forall|j: int, k: int| 0 <= j < k < kept.len() ==> kept[j] < kept[k],
            forall|k: int|
                0 <= k < i ==> call_ensures(
                    predicate,
                    (&#[trigger] records@[k],),
                    kept.contains(k),
                ),
            forall|k: int|
                0 <= k < kept.len() ==> call_ensures(
                    projection,
                    (&records@[kept[k]],),
                    #[trigger] out@[k],
                ),
        decreases records.len() - i,
    {
        let holds = predicate(&records[i]);
        let ghost before = kept;
        if holds {
            let value = projection(&records[i]);
            out.push(value);
            proof {
                kept = kept.push(i as int);
                assert(kept[kept.len() - 1] == i);
                assert forall|k: int| 0 <= k < i + 1 implies call_ensures(
                    predicate,
                    (&#[trigger] records@[k],),
                    kept.contains(k),
                ) by {
                    if k < i {
                        if before.contains(k) {
                            let j = choose|j: int| 0 <= j < before.len() && before[j] == k;
                            assert(kept[j] == k);
                        } else if kept.contains(k) {
                            let j = choose|j: int| 0 <= j < kept.len() && kept[j] == k;
                            assert(before[j] == k);
                        }
                    }
                }
            }
        } else {
            proof {
                assert(!kept.contains(i as int));
            }
        }
        i += 1;
    }
    proof {
        assert(is_selection(records@, predicate, kept));
    }
    out
}

/// The items of `s` at the places that `kept` lists, in that order.
pub open spec fn pick<A>(s: Seq<A>, kept: Seq<int>) -> Seq<A> {
    Seq::new(kept.len(), |k: int| s[kept[k]])
}

/// A selection is a filter: where `kept` lists in ascending order exactly
/// the places of `s` of which `holds` is true, the items at those places are
/// `s.filter(holds)`. So the selection is stable, and nothing is kept twice.
pub proof fn lemma_selection_is_filter<A>(s: Seq<A>, holds: spec_fn(A) -> bool, kept: Seq<int>)
    requires
        forall|k: int| 0 <= k < kept.len() ==> 0 <= #[trigger] kept[k] < s.len(),
        forall|j: int, k: int| 0 <= j < k < kept.len() ==> kept[j] < kept[k],
        forall|i: int| 0 <= i < s.len() ==> kept.contains(i) == holds(#[trigger] s[i]),
    ensures
        pick(s, kept) == s.filter(holds),
    decreases s.len(),
{
    reveal(Seq::filter);
    if s.len() == 0 {
        if kept.len() > 0 {
            assert(0 <= kept[0] < s.len());
        }
        assert(pick(s, kept) =~= s.filter(holds));
    } else {
        let last = s.len() - 1;
        let front = s.drop_last();
        if holds(s.last()) {
            assert(kept.contains(last));
            let at = choose|at: int| 0 <= at < kept.len() && kept[at] == last;
            if at < kept.len() - 1 {
                assert(kept[at] < kept[kept.len() - 1]);
            }
            let rest = kept.drop_last();
            assert forall|i: int| 0 <= i < front.len() implies rest.contains(i) == holds(
                #[trigger] front[i],
            ) by {
                assert(front[i] == s[i]);
                if kept.contains(i) {
                    let j = choose|j: int| 0 <= j < kept.len() && kept[j] == i;
                    assert(rest[j] == i);
                }
                if rest.contains(i) {
                    let j = choose|j: int| 0 <= j < rest.len() && rest[j] == i;
                    assert(kept[j] == i);
                }
            }
            assert forall|k: int| 0 <= k < rest.len() implies 0 <= #[trigger] rest[k]
                < front.len() by {
                assert(kept[k] < kept[kept.len() - 1]);
            }
            lemma_selection_is_filter(front, holds, rest);
            assert(pick(s, kept) =~= pick(front, rest).push(s.last()));
        } else {
            assert forall|k: int| 0 <= k < kept.len() implies 0 <= #[trigger] kept[k]
                < front.len() by {
                if kept[k] == last {
                    assert(kept.contains(last));
                }
            }
            assert forall|i: int| 0 <= i < front.len() implies kept.contains(i) == holds(
                #[trigger] front[i],
            ) by {
                assert(front[i] == s[i]);
            }
            lemma_selection_is_filter(front, holds, kept);
            assert(pick(s, kept) =~= pick(front, kept));
        }
    }
}

} // verus!
