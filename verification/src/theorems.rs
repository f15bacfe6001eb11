//! What holds of the maps whatever they store, proved from the contracts of
//! their operations: of what `from_vecs` and `sort` leave, stated by
//! `stably_sorted`; of what `insert` leaves, stated by `inserted`; and of
//! what `get` returns on sorted entries, stated by `lookup`.

use crate::entries::{
    first_index, has_key, inserted, is_first_at, keys_of, lemma_first_index, lemma_lookup_first,
    lookup, pairs, sorted,
};
use crate::order::{le, lemma_le_lt_transitive, lemma_trichotomy, lt, total_order};
use crate::stable::{
    lemma_permutation_onto, lemma_precedes_asymmetric, lemma_stably_sorted_by,
    lemma_stably_sorted_is_sorted, permuted, precedes, sorting_permutation, stably_sorted,
};
use vstd::prelude::*;

verus! {

/// A stable sort neither drops an entry nor makes one up: each entry of the
/// input stands somewhere in the output, and each entry of the output came
/// from the input.
pub proof fn lemma_sort_keeps_entries<K: Ord, V>(input: Seq<(K, V)>, output: Seq<(K, V)>)
    requires
        total_order::<K>(),
        stably_sorted(input, output),
    ensures
        forall|i: int| 0 <= i < input.len() ==> output.contains(#[trigger] input[i]),
        forall|i: int| 0 <= i < output.len() ==> input.contains(#[trigger] output[i]),
{
    let order = choose|order: Seq<int>|
        sorting_permutation(keys_of(input), order) && output == #[trigger] permuted(input, order);
    lemma_permutation_onto(keys_of(input), order);
    assert forall|i: int| 0 <= i < input.len() implies output.contains(#[trigger] input[i]) by {
        assert(order.contains(i));
        let at = choose|at: int| 0 <= at < order.len() && order[at] == i;
        assert(output[at] == input[i]);
    }
    assert forall|i: int| 0 <= i < output.len() implies input.contains(#[trigger] output[i]) by {
        assert(0 <= order[i] < input.len());
        assert(input[order[i]] == output[i]);
    }
}

/// A stable sort changes no answer: the first entry with a key is the same
/// entry before and after, so a lookup of any key in the sorted entries
/// gives what the first entry with that key held when it was given. Of
/// several values given for one key, the first is the one found.
pub proof fn lemma_sort_keeps_first<K: Ord, V>(input: Seq<(K, V)>, output: Seq<(K, V)>, key: K)
    requires
        total_order::<K>(),
        stably_sorted(input, output),
    ensures
        lookup(output, key) == lookup(input, key),
{
    let order = choose|order: Seq<int>|
        sorting_permutation(keys_of(input), order) && output == #[trigger] permuted(input, order);
    let keys = keys_of(input);
    lemma_sort_keeps_entries(input, output);
    if has_key(output, key) {
        let some = choose|i: int| 0 <= i < output.len() && (#[trigger] output[i]).0 == key;
        lemma_first_index(output, key, some);
        let first = first_index(output, key);
        assert(output[first] == input[order[first]]);
        lemma_first_index(input, key, order[first]);
        let origin = first_index(input, key);
        if origin < order[first] {
            lemma_permutation_onto(keys, order);
            assert(order.contains(origin));
            let at = choose|at: int| 0 <= at < order.len() && order[at] == origin;
            assert(output[at] == input[origin]);
            if at < first {
                assert(output[at].0 != key);
            } else {
                assert(precedes(keys, order[first], order[at]));
                lemma_precedes_asymmetric(keys, order[first], order[at]);
            }
        }
    } else if has_key(input, key) {
        let i = choose|i: int| 0 <= i < input.len() && (#[trigger] input[i]).0 == key;
        assert(output.contains(input[i]));
        let at = choose|at: int| 0 <= at < output.len() && output[at] == input[i];
        assert(output[at].0 == key);
    }
}

/// Round trip: a map built from keys without repetition gives back, for
/// each of the keys, the value that was given with it.
pub proof fn lemma_round_trip<K: Ord, V>(
    keys: Seq<K>,
    values: Seq<V>,
    stored: Seq<(K, V)>,
    i: int,
)
    requires
        total_order::<K>(),
        keys.len() == values.len(),
        keys.no_duplicates(),
        stably_sorted(pairs(keys, values), stored),
        0 <= i < keys.len(),
    ensures
        sorted(keys_of(stored)),
        lookup(stored, keys[i]) == Some(values[i]),
{
    let input = pairs(keys, values);
    lemma_stably_sorted_is_sorted(input, stored);
    lemma_sort_keeps_entries(input, stored);
    assert(stored.contains(input[i]));
    let at = choose|at: int| 0 <= at < stored.len() && stored[at] == input[i];
    lemma_first_index(stored, keys[i], at);
    let first = first_index(stored, keys[i]);
    assert(input.contains(stored[first]));
    let origin = choose|origin: int| 0 <= origin < input.len() && input[origin] == stored[first];
    assert(keys[origin] == keys[i]);
}

/// Absence: on sorted entries, a key that falls strictly between two
/// neighbouring entries is not found. `gap` is the index of the upper
/// neighbour: 0 for a key below every entry, the number of entries for a
/// key above every entry, and so any index at all for a map without
/// entries.
pub proof fn lemma_absent_in_gap<K: Ord, V>(entries: Seq<(K, V)>, key: K, gap: int)
    requires
        total_order::<K>(),
        sorted(keys_of(entries)),
        0 <= gap <= entries.len(),
        gap > 0 ==> lt(entries[gap - 1].0, key),
        gap < entries.len() ==> lt(key, entries[gap].0),
    ensures
        lookup(entries, key) == None::<V>,
{
    let keys = keys_of(entries);
    assert forall|i: int| 0 <= i < entries.len() implies (#[trigger] entries[i]).0 != key by {
        lemma_trichotomy(entries[i].0, key);
        if i < gap {
            if i < gap - 1 {
                assert(le(keys[i], keys[gap - 1]));
                lemma_le_lt_transitive(entries[i].0, entries[gap - 1].0, key);
            }
        } else {
            if gap < i {
                assert(le(keys[gap], keys[i]));
                lemma_le_lt_transitive(key, entries[gap].0, entries[i].0);
            }
        }
    }
}

/// Overwriting: inserting a key that the map holds, and then inserting it
/// again, leaves the keys as they were, so as many and still sorted, and a
/// lookup of the key gives the second value.
pub proof fn lemma_overwrite<K: Ord, V>(entries: Seq<(K, V)>, key: K, first: V, second: V)
    requires
        total_order::<K>(),
        has_key(entries, key),
    ensures
        inserted(inserted(entries, key, first), key, second).len() == entries.len(),
        keys_of(inserted(inserted(entries, key, first), key, second)) == keys_of(entries),
        sorted(keys_of(entries)) ==> sorted(
            keys_of(inserted(inserted(entries, key, first), key, second)),
        ),
        lookup(inserted(inserted(entries, key, first), key, second), key) == Some(second),
{
    let at = choose|at: int| 0 <= at < entries.len() && (#[trigger] entries[at]).0 == key;
    lemma_first_index(entries, key, at);
    let place = first_index(entries, key);
    let once = inserted(entries, key, first);
    assert(once == entries.update(place, (key, first)));
    assert(is_first_at(once, key, place)) by {
        assert forall|j: int| 0 <= j < place implies (#[trigger] once[j]).0 != key by {
            assert(entries[j].0 != key);
        }
    }
    lemma_first_index(once, key, place);
    let twice = inserted(once, key, second);
    assert(twice == once.update(place, (key, second)));
    assert(is_first_at(twice, key, place)) by {
        assert forall|j: int| 0 <= j < place implies (#[trigger] twice[j]).0 != key by {
            assert(once[j].0 != key);
        }
    }
    lemma_lookup_first(twice, key, place);
    assert(keys_of(twice) =~= keys_of(entries));
}

/// Insert, then sort: after a key that the map does not hold was inserted
/// and the map was sorted, the keys are sorted and a lookup of the key gives
/// the value that was inserted. The entries need not have been sorted
/// before.
pub proof fn lemma_insert_then_sort<K: Ord, V>(
    entries: Seq<(K, V)>,
    key: K,
    value: V,
    resorted: Seq<(K, V)>,
)
    requires
        total_order::<K>(),
        !has_key(entries, key),
        stably_sorted(inserted(entries, key, value), resorted),
    ensures
        sorted(keys_of(resorted)),
        resorted.len() == entries.len() + 1,
        lookup(resorted, key) == Some(value),
{
    let grown = inserted(entries, key, value);
    assert(grown == entries.push((key, value)));
    lemma_stably_sorted_is_sorted(grown, resorted);
    lemma_sort_keeps_entries(grown, resorted);
    assert(grown[entries.len() as int] == (key, value));
    assert(resorted.contains(grown[entries.len() as int]));
    let at = choose|at: int| 0 <= at < resorted.len() && resorted[at] == (key, value);
    lemma_first_index(resorted, key, at);
    let first = first_index(resorted, key);
    assert(grown.contains(resorted[first]));
    let origin = choose|origin: int| 0 <= origin < grown.len() && grown[origin] == resorted[first];
    if origin < entries.len() {
        assert(entries[origin].0 == key);
    }
}

/// The map that inserting the entries one after another into an empty map
/// gives, a later value for a key replacing an earlier one.
pub open spec fn reference_map<K, V>(entries: Seq<(K, V)>) -> Map<K, V>
    decreases entries.len(),
{
    if entries.len() == 0 {
        Map::empty()
    } else {
        reference_map(entries.drop_last()).insert(entries.last().0, entries.last().1)
    }
}

/// What a lookup in the reference map gives.
pub open spec fn reference_lookup<K, V>(entries: Seq<(K, V)>, key: K) -> Option<V> {
    if reference_map(entries).dom().contains(key) {
        Some(reference_map(entries)[key])
    } else {
        None
    }
}

/// Where no key repeats, the reference map holds exactly the entries.
proof fn lemma_reference_map<K, V>(entries: Seq<(K, V)>)
    requires
        keys_of(entries).no_duplicates(),
    ensures
        forall|key: K| #[trigger] reference_map(entries).dom().contains(key) <==> has_key(entries, key),
        forall|i: int|
            0 <= i < entries.len() ==> reference_map(entries)[(#[trigger] entries[i]).0]
                == entries[i].1,
    decreases entries.len(),
{
    if entries.len() > 0 {
        let front = entries.drop_last();
        let last = entries.last();
        assert(keys_of(front).no_duplicates()) by {
            assert forall|i: int, j: int|
                0 <= i < front.len() && 0 <= j < front.len() && i != j implies keys_of(front)[i]
                != keys_of(front)[j] by {
                assert(keys_of(entries)[i] != keys_of(entries)[j]);
            }
        }
        lemma_reference_map(front);
        assert(reference_map(entries) == reference_map(front).insert(last.0, last.1));
        assert forall|key: K| #[trigger]
            reference_map(entries).dom().contains(key) <==> has_key(entries, key) by {
            if has_key(entries, key) {
                let i = choose|i: int| 0 <= i < entries.len() && (#[trigger] entries[i]).0 == key;
                if i < front.len() {
                    assert(front[i].0 == key);
                }
            }
            if reference_map(entries).dom().contains(key) {
                if key == last.0 {
                    assert(entries[entries.len() - 1].0 == key);
                } else {
                    assert(reference_map(front).dom().contains(key));
                    let i = choose|i: int| 0 <= i < front.len() && (#[trigger] front[i]).0 == key;
                    assert(entries[i].0 == key);
                }
            }
        }
        assert forall|i: int| 0 <= i < entries.len() implies reference_map(entries)[(
            #[trigger] entries[i]).0] == entries[i].1 by {
            if i < front.len() {
                assert(front[i] == entries[i]);
                assert(keys_of(entries)[i] != keys_of(entries)[entries.len() - 1]);
            }
        }
    }
}

/// Agreement with a reference map: a map built from entries in which no
/// key repeats answers every lookup, of a key it holds or of any other, as
/// the reference map of those entries does.
pub proof fn lemma_agrees_with_reference<K: Ord, V>(
    input: Seq<(K, V)>,
    stored: Seq<(K, V)>,
    key: K,
)
    requires
        total_order::<K>(),
        keys_of(input).no_duplicates(),
        stably_sorted(input, stored),
    ensures
        sorted(keys_of(stored)),
        lookup(stored, key) == reference_lookup(input, key),
{
    lemma_stably_sorted_is_sorted(input, stored);
    lemma_sort_keeps_entries(input, stored);
    lemma_reference_map(input);
    if has_key(stored, key) {
        let at = choose|at: int| 0 <= at < stored.len() && (#[trigger] stored[at]).0 == key;
        lemma_first_index(stored, key, at);
        let first = first_index(stored, key);
        assert(input.contains(stored[first]));
        let origin = choose|origin: int|
            0 <= origin < input.len() && input[origin] == stored[first];
        assert(input[origin].0 == key);
    } else {
        if has_key(input, key) {
            let i = choose|i: int| 0 <= i < input.len() && (#[trigger] input[i]).0 == key;
            assert(stored.contains(input[i]));
            let at = choose|at: int| 0 <= at < stored.len() && stored[at] == input[i];
            assert(stored[at].0 == key);
        }
    }
}

/// Parity: two maps built from the same entries, whatever storage each
/// keeps them in, hold them in the same arrangement and so answer every
/// lookup alike.
pub proof fn lemma_same_arrangement<K: Ord, V>(
    input: Seq<(K, V)>,
    first: Seq<(K, V)>,
    second: Seq<(K, V)>,
)
    requires
        total_order::<K>(),
        stably_sorted(input, first),
        stably_sorted(input, second),
    ensures
        first == second,
        forall|key: K| lookup(first, key) == lookup(second, key),
{
    let order = choose|order: Seq<int>|
        sorting_permutation(keys_of(input), order) && first == #[trigger] permuted(input, order);
    lemma_stably_sorted_by(input, order, second);
}

} // verus!
