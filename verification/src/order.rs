//! The order on keys: what the containers ask of a key type, and the
//! comparisons they make.

use core::cmp::Ordering;
use vstd::laws_cmp::{
    obeys_cmp, obeys_cmp_ord, obeys_cmp_partial_ord, obeys_partial_cmp_spec_properties,
};
use vstd::laws_eq::obeys_concrete_eq;
use vstd::prelude::*;
use vstd::std_specs::cmp::{OrdSpec, PartialEqSpec, PartialOrdSpec};

verus! {

/// What the containers ask of a key type: its comparison is a total order,
/// two keys compare as equal exactly when they are the same value, and the
/// executable `cmp` and `==` compute what their specifications say.
pub open spec fn total_order<K: Ord>() -> bool {
    obeys_cmp::<K>() && obeys_concrete_eq::<K>()
}

/// `a` is strictly below `b`.
pub open spec fn lt<K: Ord>(a: K, b: K) -> bool {
    a.cmp_spec(&b) == Ordering::Less
}

/// `a` is below `b` or the same key.
pub open spec fn le<K: Ord>(a: K, b: K) -> bool {
    !lt(b, a)
}

/// Of two keys exactly one holds: the first is below, they are the same,
/// or the second is below.
pub proof fn lemma_trichotomy<K: Ord>(a: K, b: K)
    requires
        total_order::<K>(),
    ensures
        lt(a, b) || a == b || lt(b, a),
        !(lt(a, b) && a == b),
        !(lt(b, a) && a == b),
        !(lt(a, b) && lt(b, a)),
{
    reveal(obeys_cmp_ord);
    reveal(obeys_cmp_partial_ord);
    reveal(obeys_partial_cmp_spec_properties);
    reveal(obeys_concrete_eq);
    assert(a.partial_cmp_spec(&b) == Some(a.cmp_spec(&b)));
    assert(b.partial_cmp_spec(&a) == Some(b.cmp_spec(&a)));
    assert(a.eq_spec(&b) <==> a == b);
    assert(b.eq_spec(&a) <==> b == a);
}

/// Strictly below is transitive.
pub proof fn lemma_lt_transitive<K: Ord>(a: K, b: K, c: K)
    requires
        total_order::<K>(),
        lt(a, b),
        lt(b, c),
    ensures
        lt(a, c),
{
    reveal(obeys_cmp_ord);
    reveal(obeys_partial_cmp_spec_properties);
    assert(a.partial_cmp_spec(&b) == Some(a.cmp_spec(&b)));
    assert(b.partial_cmp_spec(&c) == Some(b.cmp_spec(&c)));
    assert(a.partial_cmp_spec(&c) == Some(a.cmp_spec(&c)));
}

/// A key below or equal to one that is strictly below a third is strictly
/// below the third, and the same with the strict step first.
pub proof fn lemma_le_lt_transitive<K: Ord>(a: K, b: K, c: K)
    requires
        total_order::<K>(),
        (le(a, b) && lt(b, c)) || (lt(a, b) && le(b, c)),
    ensures
        lt(a, c),
{
    lemma_trichotomy(a, b);
    lemma_trichotomy(b, c);
    if lt(a, b) && lt(b, c) {
        lemma_lt_transitive(a, b, c);
    }
}

/// Whether `a` is strictly below `b`, by one call of `cmp`.
pub fn less<K: Ord>(a: &K, b: &K) -> (below: bool)
    requires
        total_order::<K>(),
    ensures
        below == lt(*a, *b),
{
    proof {
        reveal(obeys_cmp_ord);
    }
    match a.cmp(b) {
        Ordering::Less => true,
        Ordering::Equal => false,
        Ordering::Greater => false,
    }
}

/// Whether `cmp` finds the two keys equal, which is whether they are the
/// same key.
pub fn same<K: Ord>(a: &K, b: &K) -> (equal: bool)
    requires
        total_order::<K>(),
    ensures
        equal == (*a == *b),
{
    proof {
        reveal(obeys_cmp_ord);
        lemma_trichotomy(*a, *b);
        lemma_equal_keys(*a, *b);
    }
    match a.cmp(b) {
        Ordering::Less => false,
        Ordering::Equal => true,
        Ordering::Greater => false,
    }
}

/// Two keys compare as equal exactly when they are the same key.
pub proof fn lemma_equal_keys<K: Ord>(a: K, b: K)
    requires
        total_order::<K>(),
    ensures
        (a.cmp_spec(&b) == Ordering::Equal) <==> a == b,
{
    reveal(obeys_cmp_ord);
    reveal(obeys_cmp_partial_ord);
    reveal(obeys_concrete_eq);
    assert(a.partial_cmp_spec(&b) == Some(a.cmp_spec(&b)));
    assert(a.eq_spec(&b) <==> a == b);
}

/// Whether `==` finds the two keys equal, which is whether they are the
/// same key.
pub fn equal<K: Ord>(a: &K, b: &K) -> (equal: bool)
    requires
        total_order::<K>(),
    ensures
        equal == (*a == *b),
{
    proof {
        reveal(obeys_concrete_eq);
        assert(a.eq_spec(b) <==> *a == *b);
    }
    *a == *b
}

} // verus!
