//! Finding a key in a slice of keys: by a scan from the front, and by
//! bisection where the keys are sorted.

use crate::entries::sorted;
use crate::order::{equal, le, lemma_le_lt_transitive, lemma_trichotomy, less, lt, same, total_order};
use vstd::prelude::*;

verus! {

/// The first index at which `keys` holds `key`, found by a scan from the
/// front; `None` where no index holds it.
pub fn position<K: Ord>(keys: &[K], key: &K) -> (found: Option<usize>)
    requires
        total_order::<K>(),
    ensures
        match found {
            Some(at) => at < keys.len() && keys@[at as int] == *key && forall|j: int|
                0 <= j < at ==> #[trigger] keys@[j] != *key,
            None => forall|i: int| 0 <= i < keys.len() ==> #[trigger] keys@[i] != *key,
        },
{
    let mut at: usize = 0;
    while at < keys.len()
        invariant
            total_order::<K>(),
            at <= keys.len(),
            forall|j: int| 0 <= j < at ==> #[trigger] keys@[j] != *key,
        decreases keys.len() - at,
    {
        if equal(&keys[at], key) {
            return Some(at);
        }
        at += 1;
    }
    None
}

/// An index at which `keys` holds `key`, found by bisection.
///
/// Whatever the keys, an index that comes back holds the key. Where the
/// keys are sorted, the index is the first that holds the key, and `None`
/// says that no index holds it. Where they are not sorted, `None` may come
/// back although the key is there.
pub fn binary_search<K: Ord>(keys: &[K], key: &K) -> (found: Option<usize>)
    requires
        total_order::<K>(),
    ensures
        found matches Some(at) ==> at < keys.len() && keys@[at as int] == *key,
        sorted(keys@) ==> match found {
            Some(at) => forall|j: int| 0 <= j < at ==> #[trigger] keys@[j] != *key,
            None => forall|i: int| 0 <= i < keys.len() ==> #[trigger] keys@[i] != *key,
        },
{
    let mut lo: usize = 0;
    let mut hi: usize = keys.len();
    while lo < hi
        invariant
            total_order::<K>(),
            lo <= hi <= keys.len(),
            sorted(keys@) ==> forall|i: int| 0 <= i < lo ==> lt(#[trigger] keys@[i], *key),
            sorted(keys@) ==> forall|i: int| hi <= i < keys.len() ==> le(*key, #[trigger] keys@[i]),
        decreases hi - lo,
    {
        let mid = lo + (hi - lo) / 2;
        if less(&keys[mid], key) {
            proof {
                if sorted(keys@) {
                    assert forall|i: int| 0 <= i < mid + 1 implies lt(#[trigger] keys@[i], *key) by {
                        if i < mid {
                            assert(le(keys@[i], keys@[mid as int]));
                            lemma_le_lt_transitive(keys@[i], keys@[mid as int], *key);
                        }
                    }
                }
            }
            lo = mid + 1;
        } else {
            proof {
                if sorted(keys@) {
                    assert forall|i: int| mid <= i < keys.len() implies le(
                        *key,
                        #[trigger] keys@[i],
                    ) by {
                        if mid < i {
                            assert(le(keys@[mid as int], keys@[i]));
                            if lt(keys@[i], *key) {
                                lemma_le_lt_transitive(keys@[mid as int], keys@[i], *key);
                            }
                        }
                    }
                }
            }
            hi = mid;
        }
    }
    if lo < keys.len() && same(&keys[lo], key) {
        proof {
            if sorted(keys@) {
                assert forall|j: int| 0 <= j < lo implies #[trigger] keys@[j] != *key by {
                    lemma_trichotomy(keys@[j], *key);
                }
            }
        }
        Some(lo)
    } else {
        proof {
            if sorted(keys@) {
                assert forall|i: int| 0 <= i < keys.len() implies #[trigger] keys@[i] != *key by {
                    lemma_trichotomy(keys@[i], *key);
                    if lo < i {
                        assert(le(keys@[lo as int], keys@[i]));
                        lemma_trichotomy(keys@[lo as int], *key);
                        if keys@[i] == *key {
                            lemma_trichotomy(keys@[lo as int], keys@[i]);
                        }
                    }
                }
            }
        }
        None
    }
}

} // verus!
