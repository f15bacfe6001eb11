//! The permutation that sorts a slice of keys stably, by a merge sort on
//! indices. The keys themselves stay where they are.

use crate::order::{lemma_trichotomy, less, total_order};
use crate::stable::{ascending, lemma_precedes_transitive, precedes, sorting_permutation};
use vstd::prelude::*;

verus! {

/// The indices that a vector holds, as mathematical integers.
pub open spec fn indices(order: Seq<usize>) -> Seq<int> {
    Seq::new(order.len(), |i: int| order[i] as int)
}

/// Every index listed lies from `lo` up to, not including, `hi`.
pub open spec fn within(order: Seq<usize>, lo: int, hi: int) -> bool {
    forall|i: int| 0 <= i < order.len() ==> lo <= #[trigger] order[i] < hi
}

/// Every index listed goes before `target` in the stable order.
pub open spec fn all_before<K: Ord>(keys: Seq<K>, order: Seq<usize>, target: int) -> bool {
    forall|k: int| 0 <= k < order.len() ==> precedes(keys, #[trigger] order[k] as int, target)
}

/// An ascending list stays ascending when an index that every listed one
/// precedes is put at its end.
proof fn lemma_pushed<K: Ord>(keys: Seq<K>, before: Seq<usize>, next: usize)
    requires
        ascending(keys, indices(before)),
        next < keys.len(),
        all_before(keys, before, next as int),
    ensures
        ascending(keys, indices(before.push(next))),
{
    let after = indices(before.push(next));
    assert forall|i: int, j: int| 0 <= i < j < after.len() implies precedes(
        keys,
        #[trigger] after[i],
        #[trigger] after[j],
    ) by {
        assert(after[i] == indices(before)[i]);
        assert(after[i] == before[i]);
        if j < before.len() {
            assert(after[j] == indices(before)[j]);
        }
    }
    assert forall|i: int| 0 <= i < after.len() implies 0 <= #[trigger] after[i] < keys.len() by {
        if i < before.len() {
            assert(after[i] == indices(before)[i]);
        }
    }
}

/// Where every listed index precedes `next`, and `next` precedes `target`,
/// the list with `next` at its end precedes `target` throughout.
proof fn lemma_all_before_pushed<K: Ord>(
    keys: Seq<K>,
    before: Seq<usize>,
    next: usize,
    target: int,
)
    requires
        total_order::<K>(),
        all_before(keys, before, next as int),
        precedes(keys, next as int, target),
    ensures
        all_before(keys, before.push(next), target),
{
    let after = before.push(next);
    assert forall|k: int| 0 <= k < after.len() implies precedes(
        keys,
        #[trigger] after[k] as int,
        target,
    ) by {
        if k < before.len() {
            assert(precedes(keys, before[k] as int, next as int));
            lemma_precedes_transitive(keys, before[k] as int, next as int, target);
        }
    }
}

/// Merges two ascending lists of indices into one, where every index of
/// `left` is below `mid` and every index of `right` is not. Of two equal
/// keys the one from `left` goes first.
fn merge<K: Ord>(
    keys: &[K],
    left: &Vec<usize>,
    right: &Vec<usize>,
    Ghost(mid): Ghost<int>,
) -> (merged: Vec<usize>)
    requires
        total_order::<K>(),
        ascending(keys@, indices(left@)),
        ascending(keys@, indices(right@)),
        within(left@, 0, mid),
        within(right@, mid, keys.len() as int),
    ensures
        merged.len() == left.len() + right.len(),
        ascending(keys@, indices(merged@)),
        forall|k: int|
            0 <= k < merged.len() ==> left@.contains(#[trigger] merged@[k]) || right@.contains(
                merged@[k],
            ),
{
    let mut merged: Vec<usize> = Vec::new();
    let mut i: usize = 0;
    let mut j: usize = 0;
    while i < left.len() || j < right.len()
        invariant
            total_order::<K>(),
            ascending(keys@, indices(left@)),
            ascending(keys@, indices(right@)),
            within(left@, 0, mid),
            within(right@, mid, keys.len() as int),
            i <= left.len(),
            j <= right.len(),
            merged.len() == i + j,
            ascending(keys@, indices(merged@)),
            forall|k: int|
                0 <= k < merged.len() ==> left@.contains(#[trigger] merged@[k]) || right@.contains(
                    merged@[k],
                ),
            i < left.len() ==> all_before(keys@, merged@, left@[i as int] as int),
            j < right.len() ==> all_before(keys@, merged@, right@[j as int] as int),
        decreases left.len() - i + (right.len() - j),
    {
        let ghost before = merged@;
        let from_left = if i == left.len() {
            false
        } else if j == right.len() {
            true
        } else {
            !less(&keys[right[j]], &keys[left[i]])
        };
        if from_left {
            let next = left[i];
            proof {
                assert(0 <= indices(left@)[i as int] < keys.len());
                lemma_pushed(keys@, before, next);
                if j < right.len() {
                    assert(next < mid <= right@[j as int]);
                    lemma_trichotomy(keys@[next as int], keys@[right@[j as int] as int]);
                    lemma_all_before_pushed(keys@, before, next, right@[j as int] as int);
                }
                if i + 1 < left.len() {
                    assert(precedes(keys@, indices(left@)[i as int], indices(left@)[i + 1]));
                    lemma_all_before_pushed(keys@, before, next, left@[i + 1] as int);
                }
            }
            merged.push(next);
            i += 1;
            assert(left@.contains(next));
        } else {
            let next = right[j];
            proof {
                assert(0 <= indices(right@)[j as int] < keys.len());
                lemma_pushed(keys@, before, next);
                if i < left.len() {
                    lemma_all_before_pushed(keys@, before, next, left@[i as int] as int);
                }
                if j + 1 < right.len() {
                    assert(precedes(keys@, indices(right@)[j as int], indices(right@)[j + 1]));
                    lemma_all_before_pushed(keys@, before, next, right@[j + 1] as int);
                }
            }
            merged.push(next);
            j += 1;
            assert(right@.contains(next));
        }
    }
    merged
}

/// The indices from `lo` up to `hi`, in ascending stable order of their
/// keys.
fn sort_range<K: Ord>(keys: &[K], lo: usize, hi: usize) -> (order: Vec<usize>)
    requires
        total_order::<K>(),
        lo <= hi <= keys.len(),
    ensures
        order.len() == hi - lo,
        ascending(keys@, indices(order@)),
        within(order@, lo as int, hi as int),
    decreases hi - lo,
{
    if hi - lo == 0 {
        Vec::new()
    } else if hi - lo == 1 {
        let mut order: Vec<usize> = Vec::new();
        order.push(lo);
        order
    } else {
        let mid = lo + (hi - lo) / 2;
        let left = sort_range(keys, lo, mid);
        let right = sort_range(keys, mid, hi);
        let order = merge(keys, &left, &right, Ghost(mid as int));
        proof {
            assert forall|k: int| 0 <= k < order.len() implies lo <= #[trigger] order@[k] < hi by {
                if left@.contains(order@[k]) {
                    let at = choose|at: int| 0 <= at < left@.len() && left@[at] == order@[k];
                    assert(lo <= left@[at] < mid);
                } else {
                    let at = choose|at: int| 0 <= at < right@.len() && right@[at] == order@[k];
                    assert(mid <= right@[at] < hi);
                }
            }
        }
        order
    }
}

/// The permutation that sorts `keys` stably: the indices of the keys, those
/// of lower keys first, and of equal keys the earlier index first.
pub fn sorted_indices<K: Ord>(keys: &[K]) -> (order: Vec<usize>)
    requires
        total_order::<K>(),
    ensures
        sorting_permutation(keys@, indices(order@)),
{
    sort_range(keys, 0, keys.len())
}

} // verus!
