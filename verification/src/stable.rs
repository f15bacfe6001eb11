//! Stable sorting, stated as a permutation of indices: which arrangement of
//! the entries a sort owes, and why there is exactly one.

use crate::entries::{keys_of, sorted};
use crate::order::{le, lemma_lt_transitive, lemma_trichotomy, lt, total_order};
use vstd::prelude::*;
use vstd::set_lib::{lemma_int_range, lemma_subset_equality, set_int_range};

verus! {

/// The entry at index `a` goes before the entry at index `b` in a stable
/// sort: its key is below, or the keys are the same and `a` came first.
pub open spec fn precedes<K: Ord>(keys: Seq<K>, a: int, b: int) -> bool {
    lt(keys[a], keys[b]) || (keys[a] == keys[b] && a < b)
}

/// `order` lists indices of `keys`, each before every later one in the
/// stable order.
pub open spec fn ascending<K: Ord>(keys: Seq<K>, order: Seq<int>) -> bool {
    &&& forall|i: int| 0 <= i < order.len() ==> 0 <= #[trigger] order[i] < keys.len()
    &&& forall|i: int, j: int|
        0 <= i < j < order.len() ==> precedes(keys, #[trigger] order[i], #[trigger] order[j])
}

/// `order` is the permutation that sorts `keys` stably: it lists as many
/// indices as there are keys, in ascending stable order.
pub open spec fn sorting_permutation<K: Ord>(keys: Seq<K>, order: Seq<int>) -> bool {
    order.len() == keys.len() && ascending(keys, order)
}

/// The items of `items` in the order that `order` lists their indices.
pub open spec fn permuted<T>(items: Seq<T>, order: Seq<int>) -> Seq<T> {
    Seq::new(order.len(), |i: int| items[order[i]])
}

/// `output` holds the entries of `input` sorted by key, entries with the
/// same key in the order they had.
pub open spec fn stably_sorted<K: Ord, V>(input: Seq<(K, V)>, output: Seq<(K, V)>) -> bool {
    exists|order: Seq<int>|
        sorting_permutation(keys_of(input), order) && output == #[trigger] permuted(input, order)
}

/// No index goes before itself, and of two indices at most one goes before
/// the other.
pub proof fn lemma_precedes_asymmetric<K: Ord>(keys: Seq<K>, a: int, b: int)
    requires
        total_order::<K>(),
        precedes(keys, a, b),
    ensures
        a != b,
        !precedes(keys, b, a),
{
    lemma_trichotomy(keys[a], keys[b]);
}

/// Going before is transitive.
pub proof fn lemma_precedes_transitive<K: Ord>(keys: Seq<K>, a: int, b: int, c: int)
    requires
        total_order::<K>(),
        precedes(keys, a, b),
        precedes(keys, b, c),
    ensures
        precedes(keys, a, c),
{
    if lt(keys[a], keys[b]) && lt(keys[b], keys[c]) {
        lemma_lt_transitive(keys[a], keys[b], keys[c]);
    }
}

/// An ascending list names no index twice.
pub proof fn lemma_ascending_distinct<K: Ord>(keys: Seq<K>, order: Seq<int>)
    requires
        total_order::<K>(),
        ascending(keys, order),
    ensures
        order.no_duplicates(),
{
    assert forall|i: int, j: int|
        0 <= i < order.len() && 0 <= j < order.len() && i != j implies order[i] != order[j] by {
        if i < j {
            lemma_precedes_asymmetric(keys, order[i], order[j]);
        } else {
            lemma_precedes_asymmetric(keys, order[j], order[i]);
        }
    }
}

/// A sorting permutation names every index of the keys.
pub proof fn lemma_permutation_onto<K: Ord>(keys: Seq<K>, order: Seq<int>)
    requires
        total_order::<K>(),
        sorting_permutation(keys, order),
    ensures
        forall|j: int| 0 <= j < keys.len() ==> order.contains(j),
{
    let n = keys.len() as int;
    lemma_ascending_distinct(keys, order);
    order.unique_seq_to_set();
    lemma_int_range(0, n);
    assert(order.to_set().subset_of(set_int_range(0, n))) by {
        assert forall|x: int| order.to_set().contains(x) implies set_int_range(0, n).contains(
            x,
        ) by {
            let i = choose|i: int| 0 <= i < order.len() && order[i] == x;
            assert(0 <= order[i] < n);
        }
    }
    vstd::set_lib::lemma_len_subset(order.to_set(), set_int_range(0, n));
    lemma_subset_equality(order.to_set(), set_int_range(0, n));
    assert forall|j: int| 0 <= j < n implies order.contains(j) by {
        assert(set_int_range(0, n).contains(j));
        assert(order.to_set().contains(j));
    }
}

/// Two sorting permutations of the same keys agree on every position
/// before `upto`.
proof fn lemma_permutations_agree<K: Ord>(
    keys: Seq<K>,
    first: Seq<int>,
    second: Seq<int>,
    upto: int,
)
    requires
        total_order::<K>(),
        sorting_permutation(keys, first),
        sorting_permutation(keys, second),
        0 <= upto <= keys.len(),
    ensures
        forall|k: int| 0 <= k < upto ==> first[k] == second[k],
    decreases upto,
{
    if upto > 0 {
        let at = upto - 1;
        lemma_permutations_agree(keys, first, second, at);
        if first[at] != second[at] {
            lemma_permutation_onto(keys, first);
            lemma_permutation_onto(keys, second);
            lemma_ascending_distinct(keys, first);
            lemma_ascending_distinct(keys, second);
            // Each names the other's index at a later position.
            assert(second.contains(first[at]));
            let j = choose|j: int| 0 <= j < second.len() && second[j] == first[at];
            assert(first.contains(second[at]));
            let i = choose|i: int| 0 <= i < first.len() && first[i] == second[at];
            if j < at {
                assert(first[j] == second[j]);
            }
            if i < at {
                assert(second[i] == first[i]);
            }
            assert(precedes(keys, second[at], second[j]));
            assert(precedes(keys, first[at], first[i]));
            lemma_precedes_asymmetric(keys, first[at], second[at]);
        }
    }
}

/// The keys have one sorting permutation only.
pub proof fn lemma_permutation_unique<K: Ord>(keys: Seq<K>, first: Seq<int>, second: Seq<int>)
    requires
        total_order::<K>(),
        sorting_permutation(keys, first),
        sorting_permutation(keys, second),
    ensures
        first == second,
{
    lemma_permutations_agree(keys, first, second, keys.len() as int);
    assert(first =~= second);
}

/// Keys taken in the order of a sorting permutation are sorted.
pub proof fn lemma_permuted_sorted<K: Ord>(keys: Seq<K>, order: Seq<int>)
    requires
        total_order::<K>(),
        ascending(keys, order),
    ensures
        sorted(permuted(keys, order)),
{
    let out = permuted(keys, order);
    assert forall|i: int, j: int| 0 <= i < j < out.len() implies le(out[i], out[j]) by {
        assert(precedes(keys, order[i], order[j]));
        lemma_trichotomy(keys[order[i]], keys[order[j]]);
    }
}

/// The keys of permuted entries are the permuted keys of the entries.
pub proof fn lemma_keys_of_permuted<K, V>(entries: Seq<(K, V)>, order: Seq<int>)
    requires
        forall|i: int| 0 <= i < order.len() ==> 0 <= #[trigger] order[i] < entries.len(),
    ensures
        keys_of(permuted(entries, order)) == permuted(keys_of(entries), order),
{
    assert(keys_of(permuted(entries, order)) =~= permuted(keys_of(entries), order));
}

/// A stable sort keeps the number of entries and leaves the keys sorted.
pub proof fn lemma_stably_sorted_is_sorted<K: Ord, V>(input: Seq<(K, V)>, output: Seq<(K, V)>)
    requires
        total_order::<K>(),
        stably_sorted(input, output),
    ensures
        output.len() == input.len(),
        sorted(keys_of(output)),
{
    let order = choose|order: Seq<int>|
        sorting_permutation(keys_of(input), order) && output == #[trigger] permuted(input, order);
    lemma_keys_of_permuted(input, order);
    lemma_permuted_sorted(keys_of(input), order);
}

/// The entries have one stable sort only: whatever sorts them stably
/// arranges them as their sorting permutation does.
pub proof fn lemma_stably_sorted_by<K: Ord, V>(
    input: Seq<(K, V)>,
    order: Seq<int>,
    output: Seq<(K, V)>,
)
    requires
        total_order::<K>(),
        sorting_permutation(keys_of(input), order),
        stably_sorted(input, output),
    ensures
        output == permuted(input, order),
{
    let other = choose|other: Seq<int>|
        sorting_permutation(keys_of(input), other) && output == #[trigger] permuted(input, other);
    lemma_permutation_unique(keys_of(input), order, other);
}

} // verus!
