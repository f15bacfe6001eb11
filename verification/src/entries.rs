//! The model of a map: a sequence of entries, each a key with its value,
//! and what it means to look a key up in it or to insert one.

use crate::order::le;
use vstd::prelude::*;

verus! {

/// The entries that two parallel sequences stand for: at each index of
/// `keys`, the key there with the value at the same index.
pub open spec fn pairs<K, V>(keys: Seq<K>, values: Seq<V>) -> Seq<(K, V)> {
    Seq::new(keys.len(), |i: int| (keys[i], values[i]))
}

/// The keys of the entries, in their order.
pub open spec fn keys_of<K, V>(entries: Seq<(K, V)>) -> Seq<K> {
    Seq::new(entries.len(), |i: int| entries[i].0)
}

/// The values of the entries, in their order.
pub open spec fn values_of<K, V>(entries: Seq<(K, V)>) -> Seq<V> {
    Seq::new(entries.len(), |i: int| entries[i].1)
}

/// The keys never descend from one index to a later one.
pub open spec fn sorted<K: Ord>(keys: Seq<K>) -> bool {
    forall|i: int, j: int| 0 <= i < j < keys.len() ==> le(#[trigger] keys[i], #[trigger] keys[j])
}

/// Some entry has the key `key`.
pub open spec fn has_key<K, V>(entries: Seq<(K, V)>, key: K) -> bool {
    exists|i: int| 0 <= i < entries.len() && (#[trigger] entries[i]).0 == key
}

/// The entry at index `at` is the first with the key `key`.
pub open spec fn is_first_at<K, V>(entries: Seq<(K, V)>, key: K, at: int) -> bool {
    &&& 0 <= at < entries.len()
    &&& entries[at].0 == key
    &&& forall|j: int| 0 <= j < at ==> (#[trigger] entries[j]).0 != key
}

/// The index of the first entry with the key `key`, where there is one.
pub open spec fn first_index<K, V>(entries: Seq<(K, V)>, key: K) -> int {
    choose|at: int| is_first_at(entries, key, at)
}

/// What a lookup of `key` owes on sorted entries: the value of the first
/// entry with that key, or nothing where no entry has it.
pub open spec fn lookup<K, V>(entries: Seq<(K, V)>, key: K) -> Option<V> {
    if has_key(entries, key) {
        Some(entries[first_index(entries, key)].1)
    } else {
        None
    }
}

/// The entries after `key` was inserted with `value`: the first entry with
/// that key has its value replaced; where there is none, the new entry
/// stands at the end.
pub open spec fn inserted<K, V>(entries: Seq<(K, V)>, key: K, value: V) -> Seq<(K, V)> {
    if has_key(entries, key) {
        entries.update(first_index(entries, key), (key, value))
    } else {
        entries.push((key, value))
    }
}

/// A key that some entry has is the key of a first entry, and of one only,
/// at or before every entry with that key.
pub proof fn lemma_first_index<K, V>(entries: Seq<(K, V)>, key: K, at: int)
    requires
        0 <= at < entries.len(),
        entries[at].0 == key,
    ensures
        has_key(entries, key),
        is_first_at(entries, key, first_index(entries, key)),
        first_index(entries, key) <= at,
        is_first_at(entries, key, at) ==> first_index(entries, key) == at,
    decreases at,
{
    if exists|j: int| 0 <= j < at && (#[trigger] entries[j]).0 == key {
        let j = choose|j: int| 0 <= j < at && (#[trigger] entries[j]).0 == key;
        lemma_first_index(entries, key, j);
    } else {
        assert(is_first_at(entries, key, at));
    }
    let first = first_index(entries, key);
    if is_first_at(entries, key, at) && first < at {
        assert(entries[first].0 != key);
    }
}

/// The lookup of a key gives the value of its first entry.
pub proof fn lemma_lookup_first<K, V>(entries: Seq<(K, V)>, key: K, at: int)
    requires
        is_first_at(entries, key, at),
    ensures
        lookup(entries, key) == Some(entries[at].1),
{
    lemma_first_index(entries, key, at);
}

} // verus!
