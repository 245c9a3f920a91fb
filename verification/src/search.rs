//! Finding the first item of a sequence that meets a condition.

use vstd::prelude::*;

verus! {

/// Index of the first item that `pred` holds of, if there is one.
pub open spec fn first_index<T>(items: Seq<T>, pred: spec_fn(T) -> bool) -> Option<int>
    decreases items.len(),
{
    if items.len() == 0 {
        None
    } else {
        match first_index(items.drop_last(), pred) {
            Some(i) => Some(i),
            None => if pred(items.last()) {
                Some(items.len() - 1)
            } else {
                None
            },
        }
    }
}

/// `first_index` finds the first item of which `pred` holds, and none where there is none.
pub proof fn lemma_first_index<T>(items: Seq<T>, pred: spec_fn(T) -> bool)
    ensures
        match first_index(items, pred) {
            Some(i) => 0 <= i < items.len() && pred(items[i]) && forall|j: int|
                0 <= j < i ==> !pred(#[trigger] items[j]),
            None => forall|j: int| 0 <= j < items.len() ==> !pred(#[trigger] items[j]),
        },
    decreases items.len(),
{
    if items.len() > 0 {
        let shorter = items.drop_last();
        lemma_first_index(shorter, pred);
        match first_index(shorter, pred) {
            Some(i) => {
                assert(shorter[i] == items[i]);
                assert forall|j: int| 0 <= j < i implies !pred(#[trigger] items[j]) by {
                    assert(shorter[j] == items[j]);
                }
            },
            None => {
                assert forall|j: int| 0 <= j < items.len() - 1 implies !pred(
                    #[trigger] items[j],
                ) by {
                    assert(shorter[j] == items[j]);
                }
            },
        }
    }
}

/// An index that is the first of which `pred` holds is the one that `first_index` gives.
pub proof fn lemma_first_index_is<T>(items: Seq<T>, pred: spec_fn(T) -> bool, i: int)
    requires
        0 <= i < items.len(),
        pred(items[i]),
        forall|j: int| 0 <= j < i ==> !pred(#[trigger] items[j]),
    ensures
        first_index(items, pred) == Some(i),
{
    lemma_first_index(items, pred);
}

} // verus!
