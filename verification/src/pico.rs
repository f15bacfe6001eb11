//! The bounded sorted map: the growable map's operations over storage that
//! needs no allocation while the entries are few.

use crate::entries::{
    has_key, inserted, keys_of, lemma_first_index, lookup, pairs, sorted, values_of,
};
use crate::inline::{
    inline_as_slice, inline_from_vec, inline_is_spilled, inline_items, inline_len, inline_new,
    inline_push, inline_set, inline_spilled, InlineVec, INLINE_CAPACITY, MAX_ENTRIES,
};
use crate::search::{binary_search, position};
use crate::sorting::{indices, sorted_indices};
use crate::stable::{lemma_keys_of_permuted, lemma_permuted_sorted, permuted, stably_sorted};
use vstd::prelude::*;

verus! {

/// A map from 64-bit keys to 64-bit values for a small number of entries.
/// Up to `INLINE_CAPACITY` of them are stored in the map itself; beyond
/// that the storage moves to the heap and the map goes on as before.
///
/// Lookups bisect the keys and so are owed only while the keys are sorted.
/// Building the map from vectors sorts it; inserting a key that is not there
/// puts it at the end, after which `sort` must run before the next lookup.
pub struct PicoSortedMap {
    keys: InlineVec,
    values: InlineVec,
}

impl View for PicoSortedMap {
    type V = Seq<(u64, u64)>;

    /// The entries in the order in which they are stored.
    closed spec fn view(&self) -> Seq<(u64, u64)> {
        pairs(inline_items(self.keys), inline_items(self.values))
    }
}

impl PicoSortedMap {
    /// Every key has its value, and the entries are no more than
    /// `MAX_ENTRIES`. The constructors make such a map and every method
    /// keeps it so.
    pub closed spec fn well_formed(&self) -> bool {
        &&& inline_items(self.keys).len() == inline_items(self.values).len()
        &&& inline_items(self.keys).len() <= MAX_ENTRIES
    }

    /// Some of the entries are stored on the heap.
    pub closed spec fn on_heap(&self) -> bool {
        inline_spilled(self.keys) || inline_spilled(self.values)
    }

    /// A map without entries. The room for the first `INLINE_CAPACITY`
    /// entries is part of the map, so there is nothing to reserve.
    pub fn with_capacity() -> (map: Self)
        ensures
            map.well_formed(),
            map@ == Seq::<(u64, u64)>::empty(),
            !map.on_heap(),
    {
        let map = Self { keys: inline_new(), values: inline_new() };
        assert(map@ =~= Seq::<(u64, u64)>::empty());
        map
    }

    /// The map of the given keys, each with the value at its index, sorted
    /// by key. Entries with the same key all stay, in the order given. The
    /// entries are stored on the heap exactly where they are more than
    /// `INLINE_CAPACITY`.
    pub fn from_vecs(keys: Vec<u64>, values: Vec<u64>) -> (map: Self)
        requires
            keys.len() == values.len(),
            keys.len() <= MAX_ENTRIES,
        ensures
            map.well_formed(),
            stably_sorted(pairs(keys@, values@), map@),
            sorted(keys_of(map@)),
            map.on_heap() <==> map@.len() > INLINE_CAPACITY,
    {
        let mut map = Self { keys: inline_from_vec(keys), values: inline_from_vec(values) };
        map.sort();
        map
    }

    /// Gives `key` the value `value`. Where the map holds the key, the first
    /// entry with it gets the value and nothing moves. Where it does not,
    /// the entry goes to the end, behind keys that may be above it, and the
    /// entries move to the heap if the map was full.
    pub fn insert(&mut self, key: u64, value: u64)
        requires
            old(self).well_formed(),
            old(self)@.len() < MAX_ENTRIES,
        ensures
            final(self).well_formed(),
            final(self)@ == inserted(old(self)@, key, value),
            final(self).on_heap() == (old(self).on_heap() || (!has_key(old(self)@, key)
                && old(self)@.len() == INLINE_CAPACITY)),
    {
        let ghost keys = inline_items(self.keys);
        match position(inline_as_slice(&self.keys), &key) {
            Some(at) => {
                proof {
                    assert forall|j: int| 0 <= j < at implies (#[trigger] self@[j]).0 != key by {
                        assert(keys[j] != key);
                    }
                    lemma_first_index(self@, key, at as int);
                }
                inline_set(&mut self.values, at, value);
                assert(self@ =~= inserted(old(self)@, key, value));
            },
            None => {
                proof {
                    assert forall|i: int| 0 <= i < self@.len() implies (#[trigger] self@[i]).0
                        != key by {
                        assert(keys[i] != key);
                    }
                }
                inline_push(&mut self.keys, key);
                inline_push(&mut self.values, value);
                assert(self@ =~= inserted(old(self)@, key, value));
            },
        }
    }

    /// The value of `key`, found by bisection.
    ///
    /// While the keys are sorted, this is the value of the first entry with
    /// that key, and `None` where there is none. While they are not, a value
    /// that comes back still belongs to an entry with that key, but `None`
    /// may come back although the key is there.
    pub fn get(&self, key: &u64) -> (found: Option<u64>)
        requires
            self.well_formed(),
        ensures
            found matches Some(value) ==> self@.contains((*key, value)),
            sorted(keys_of(self@)) ==> found == lookup(self@, *key),
    {
        let keys = inline_as_slice(&self.keys);
        let values = inline_as_slice(&self.values);
        proof {
            assert(keys_of(self@) =~= keys@);
        }
        match binary_search(keys, key) {
            Some(at) => {
                proof {
                    assert(self@[at as int] == (*key, values@[at as int]));
                    if sorted(keys_of(self@)) {
                        assert forall|j: int| 0 <= j < at implies (#[trigger] self@[j]).0
                            != *key by {
                            assert(keys@[j] != *key);
                        }
                        lemma_first_index(self@, *key, at as int);
                    }
                }
                Some(values[at])
            },
            None => {
                proof {
                    if sorted(keys_of(self@)) {
                        assert forall|i: int| 0 <= i < self@.len() implies (#[trigger] self@[i]).0
                            != *key by {
                            assert(keys@[i] != *key);
                        }
                    }
                }
                None
            },
        }
    }

    /// The number of entries.
    pub fn len(&self) -> (n: usize)
        ensures
            n == self@.len(),
    {
        inline_len(&self.keys)
    }

    /// The keys in the order in which they are stored.
    pub fn keys(&self) -> (keys: &[u64])
        ensures
            keys@ == keys_of(self@),
    {
        assert(inline_items(self.keys) =~= keys_of(self@));
        inline_as_slice(&self.keys)
    }

    /// The values in the order in which they are stored, each at the index
    /// of its key.
    pub fn values(&self) -> (values: &[u64])
        requires
            self.well_formed(),
        ensures
            values@ == values_of(self@),
    {
        assert(inline_items(self.values) =~= values_of(self@));
        inline_as_slice(&self.values)
    }

    /// Whether some of the entries are stored on the heap.
    pub fn spilled(&self) -> (on_heap: bool)
        ensures
            on_heap == self.on_heap(),
    {
        inline_is_spilled(&self.keys) || inline_is_spilled(&self.values)
    }

    /// Sorts the entries by key. Entries with the same key keep the order
    /// they had. The sorted entries are stored afresh, on the heap exactly
    /// where they are more than `INLINE_CAPACITY`.
    pub fn sort(&mut self)
        requires
            old(self).well_formed(),
        ensures
            final(self).well_formed(),
            stably_sorted(old(self)@, final(self)@),
            sorted(keys_of(final(self)@)),
            final(self).on_heap() <==> final(self)@.len() > INLINE_CAPACITY,
    {
        let keys = inline_as_slice(&self.keys);
        let values = inline_as_slice(&self.values);
        let order = sorted_indices(keys);
        proof {
            assert(keys_of(self@) =~= keys@);
            assert forall|i: int| 0 <= i < order.len() implies #[trigger] order@[i] < keys.len() by {
                assert(0 <= indices(order@)[i] < keys@.len());
            }
        }
        let mut sorted_keys = inline_new();
        let mut sorted_values = inline_new();
        let mut at: usize = 0;
        while at < order.len()
            invariant
                at <= order.len(),
                order.len() == keys.len(),
                keys.len() == values.len(),
                keys.len() <= MAX_ENTRIES,
                forall|i: int| 0 <= i < order.len() ==> #[trigger] order@[i] < keys.len(),
                inline_items(sorted_keys).len() == at,
                inline_items(sorted_values).len() == at,
                inline_spilled(sorted_keys) <==> at > INLINE_CAPACITY,
                inline_spilled(sorted_values) <==> at > INLINE_CAPACITY,
                forall|i: int|
                    0 <= i < at ==> #[trigger] inline_items(sorted_keys)[i] == keys@[order@[i] as int],
                forall|i: int|
                    0 <= i < at ==> #[trigger] inline_items(sorted_values)[i]
                        == values@[order@[i] as int],
            decreases order.len() - at,
        {
            let index = order[at];
            inline_push(&mut sorted_keys, keys[index]);
            inline_push(&mut sorted_values, values[index]);
            at += 1;
        }
        proof {
            let by = indices(order@);
            assert(pairs(inline_items(sorted_keys), inline_items(sorted_values)) =~= permuted(
                self@,
                by,
            ));
            lemma_keys_of_permuted(self@, by);
            lemma_permuted_sorted(keys_of(self@), by);
        }
        self.keys = sorted_keys;
        self.values = sorted_values;
    }
}

} // verus!
