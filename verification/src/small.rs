//! The growable sorted map: keys and values in two vectors of one length.

use crate::entries::{inserted, keys_of, lemma_first_index, lookup, pairs, sorted, values_of};
use crate::order::total_order;
use crate::search::{binary_search, position};
use crate::sorting::{indices, sorted_indices};
use crate::stable::{lemma_keys_of_permuted, lemma_permuted_sorted, permuted, stably_sorted};
use vstd::prelude::*;

verus! {

/// A map for a small number of entries, held as a vector of keys and a
/// vector of values of the same length.
///
/// Lookups bisect the keys and so are owed only while the keys are sorted.
/// Building the map from vectors sorts it; inserting a key that is not there
/// puts it at the end, after which `sort` must run before the next lookup.
pub struct SmallSortedMap<K: PartialEq + Eq + Ord + Copy, V: Copy> {
    keys: Vec<K>,
    values: Vec<V>,
}

impl<K: PartialEq + Eq + Ord + Copy, V: Copy> View for SmallSortedMap<K, V> {
    type V = Seq<(K, V)>;

    /// The entries in the order in which they are stored.
    closed spec fn view(&self) -> Seq<(K, V)> {
        pairs(self.keys@, self.values@)
    }
}

impl<K: PartialEq + Eq + Ord + Copy, V: Copy> SmallSortedMap<K, V> {
    /// Every key has its value: the two vectors have one length. The
    /// constructors make such a map and every method keeps it so.
    pub closed spec fn well_formed(&self) -> bool {
        self.keys@.len() == self.values@.len()
    }

    /// A map without entries, with room reserved for `capacity` of them.
    pub fn with_capacity(capacity: u8) -> (map: Self)
        ensures
            map.well_formed(),
            map@ == Seq::<(K, V)>::empty(),
    {
        let map = Self {
            keys: Vec::with_capacity(capacity as usize),
            values: Vec::with_capacity(capacity as usize),
        };
        assert(map@ =~= Seq::<(K, V)>::empty());
        map
    }

    /// The map of the given keys, each with the value at its index, sorted
    /// by key. Entries with the same key all stay, in the order given.
    pub fn from_vecs(keys: Vec<K>, values: Vec<V>) -> (map: Self)
        requires
            total_order::<K>(),
            keys.len() == values.len(),
        ensures
            map.well_formed(),
            stably_sorted(pairs(keys@, values@), map@),
            sorted(keys_of(map@)),
    {
        let mut map = Self { keys, values };
        map.sort();
        map
    }

    /// Gives `key` the value `value`. Where the map holds the key, the first
    /// entry with it gets the value and nothing moves. Where it does not,
    /// the entry goes to the end, behind keys that may be above it.
    pub fn insert(&mut self, key: K, value: V)
        requires
            total_order::<K>(),
            old(self).well_formed(),
        ensures
            final(self).well_formed(),
            final(self)@ == inserted(old(self)@, key, value),
    {
        proof {
            assert(keys_of(self@) =~= self.keys@);
        }
        match position(self.keys.as_slice(), &key) {
            Some(at) => {
                proof {
                    assert forall|j: int| 0 <= j < at implies (#[trigger] self@[j]).0 != key by {
                        assert(self.keys@[j] != key);
                    }
                    lemma_first_index(self@, key, at as int);
                }
                self.values[at] = value;
                assert(self@ =~= inserted(old(self)@, key, value));
            },
            None => {
                proof {
                    assert forall|i: int| 0 <= i < self@.len() implies (#[trigger] self@[i]).0
                        != key by {
                        assert(self.keys@[i] != key);
                    }
                }
                self.keys.push(key);
                self.values.push(value);
                assert(self@ =~= inserted(old(self)@, key, value));
            },
        }
    }

    /// The value of `key`, found by bisection.
    ///
    /// While the keys are sorted, this is the value of the first entry with
    /// that key, and `None` where there is none. While they are not, a value
    /// that comes back still belongs to an entry with that key, but `None`
    /// may come back although the key is there.
    pub fn get(&self, key: &K) -> (found: Option<V>)
        requires
            total_order::<K>(),
            self.well_formed(),
        ensures
            found matches Some(value) ==> self@.contains((*key, value)),
            sorted(keys_of(self@)) ==> found == lookup(self@, *key),
    {
        proof {
            assert(keys_of(self@) =~= self.keys@);
        }
        match binary_search(self.keys.as_slice(), key) {
            Some(at) => {
                proof {
                    assert(self@[at as int] == (*key, self.values@[at as int]));
                    if sorted(keys_of(self@)) {
                        assert forall|j: int| 0 <= j < at implies (#[trigger] self@[j]).0
                            != *key by {
                            assert(self.keys@[j] != *key);
                        }
                        lemma_first_index(self@, *key, at as int);
                    }
                }
                Some(self.values[at])
            },
            None => {
                proof {
                    if sorted(keys_of(self@)) {
                        assert forall|i: int| 0 <= i < self@.len() implies (#[trigger] self@[i]).0
                            != *key by {
                            assert(self.keys@[i] != *key);
                        }
                    }
                }
                None
            },
        }
    }

    /// The number of entries.
    pub fn len(&self) -> (n: usize)
        ensures
            n == self@.len(),
    {
        self.keys.len()
    }

    /// The keys in the order in which they are stored.
    pub fn keys(&self) -> (keys: &[K])
        ensures
            keys@ == keys_of(self@),
    {
        assert(self.keys@ =~= keys_of(self@));
        self.keys.as_slice()
    }

    /// The values in the order in which they are stored, each at the index
    /// of its key.
    pub fn values(&self) -> (values: &[V])
        requires
            self.well_formed(),
        ensures
            values@ == values_of(self@),
    {
        assert(self.values@ =~= values_of(self@));
        self.values.as_slice()
    }

    /// Sorts the entries by key. Entries with the same key keep the order
    /// they had.
    pub fn sort(&mut self)
        requires
            total_order::<K>(),
            old(self).well_formed(),
        ensures
            final(self).well_formed(),
            stably_sorted(old(self)@, final(self)@),
            sorted(keys_of(final(self)@)),
    {
        proof {
            assert(keys_of(self@) =~= self.keys@);
        }
        let order = sorted_indices(self.keys.as_slice());
        proof {
            assert forall|i: int| 0 <= i < order.len() implies #[trigger] order@[i]
                < self.keys.len() by {
                assert(0 <= indices(order@)[i] < self.keys@.len());
            }
        }
        let mut sorted_keys: Vec<K> = Vec::with_capacity(self.keys.len());
        let mut sorted_values: Vec<V> = Vec::with_capacity(self.values.len());
        let mut at: usize = 0;
        while at < order.len()
            invariant
                at <= order.len(),
                order.len() == self.keys.len(),
                self.keys.len() == self.values.len(),
                forall|i: int| 0 <= i < order.len() ==> #[trigger] order@[i] < self.keys.len(),
                sorted_keys.len() == at,
                sorted_values.len() == at,
                forall|i: int|
                    0 <= i < at ==> #[trigger] sorted_keys@[i] == self.keys@[order@[i] as int],
                forall|i: int|
                    0 <= i < at ==> #[trigger] sorted_values@[i] == self.values@[order@[i] as int],
            decreases order.len() - at,
        {
            let index = order[at];
            sorted_keys.push(self.keys[index]);
            sorted_values.push(self.values[index]);
            at += 1;
        }
        proof {
            let by = indices(order@);
            assert(pairs(sorted_keys@, sorted_values@) =~= permuted(self@, by));
            lemma_keys_of_permuted(self@, by);
            lemma_permuted_sorted(keys_of(self@), by);
        }
        self.keys = sorted_keys;
        self.values = sorted_values;
    }
}

} // verus!
