//! The storage of the bounded map: a vector of the `smallvec` crate, which
//! keeps a few items inside the value itself and moves them to the heap
//! only when there are more.
//!
//! Verus does not look inside that vector. What this file says of it is
//! taken from the source of `smallvec` and is not proved.

use smallvec::SmallVec;
use vstd::prelude::*;

verus! {

/// The number of items that an `InlineVec` holds without an allocation.
pub const INLINE_CAPACITY: usize = 16;

/// The number of items up to which one more can always be appended. To grow,
/// `smallvec` asks for room for the next power of two above the length and
/// panics where eight times that many bytes do not fit in `isize`; up to
/// this many items they do.
pub const MAX_ENTRIES: usize = usize::MAX / 32;

/// A `SmallVec` of 64-bit integers with room for `INLINE_CAPACITY` of them
/// inline. Its field is hidden from Verus, which knows of such a vector only
/// what the functions of this file say.
#[verifier::external_body]
pub struct InlineVec {
    items: SmallVec<[u64; INLINE_CAPACITY]>,
}

/// The items that the vector holds, from the first to the last.
pub uninterp spec fn inline_items(v: InlineVec) -> Seq<u64>;

/// Whether the vector keeps its items on the heap, as `SmallVec::spilled`
/// tells it.
pub uninterp spec fn inline_spilled(v: InlineVec) -> bool;

/// Calls `SmallVec::new`. It gives a vector that holds nothing and has not
/// spilled.
#[verifier::external_body]
pub(crate) fn inline_new() -> (v: InlineVec)
    ensures
        inline_items(v) == Seq::<u64>::empty(),
        !inline_spilled(v),
{
    InlineVec { items: SmallVec::new() }
}

/// Calls `SmallVec::from_vec`. It gives a vector that holds the items of
/// `items` in their order. Whether they are copied inline or stay in the
/// allocation of `items` goes by the capacity that `items` had, of which
/// nothing is said here.
#[verifier::external_body]
pub(crate) fn inline_from_vec(items: Vec<u64>) -> (v: InlineVec)
    ensures
        inline_items(v) == items@,
{
    InlineVec { items: SmallVec::from_vec(items) }
}

/// Calls `SmallVec::len`. It gives the number of items held.
#[verifier::external_body]
pub(crate) fn inline_len(v: &InlineVec) -> (n: usize)
    ensures
        n == inline_items(*v).len(),
{
    v.items.len()
}

/// Calls `SmallVec::spilled`. It tells whether the items are on the heap.
#[verifier::external_body]
pub(crate) fn inline_is_spilled(v: &InlineVec) -> (spilled: bool)
    ensures
        spilled == inline_spilled(*v),
{
    v.items.spilled()
}

/// Calls `SmallVec::as_slice`. It gives the items held, in their order,
/// wherever they are stored.
#[verifier::external_body]
pub(crate) fn inline_as_slice(v: &InlineVec) -> (items: &[u64])
    ensures
        items@ == inline_items(*v),
{
    v.items.as_slice()
}

/// Calls `SmallVec::push`. It puts `item` behind the last item and leaves
/// the others as they are. A vector that has spilled stays so; one that has
/// not spills exactly when it is full, that is when it holds
/// `INLINE_CAPACITY` items before the call. The call panics where the room
/// it asks for is too large for an allocation, which cannot happen up to
/// `MAX_ENTRIES` items. Where the allocator has no memory left, the process
/// ends, as with any collection that grows.
#[verifier::external_body]
pub(crate) fn inline_push(v: &mut InlineVec, item: u64)
    requires
        inline_items(*old(v)).len() <= MAX_ENTRIES,
    ensures
        inline_items(*final(v)) == inline_items(*old(v)).push(item),
        inline_spilled(*final(v)) == (inline_spilled(*old(v)) || inline_items(*old(v)).len()
            == INLINE_CAPACITY),
{
    v.items.push(item)
}

/// Assigns through `SmallVec`'s `IndexMut`. It replaces the item at index
/// `at` by `item`, leaves the others as they are and moves nothing. It
/// panics where `at` is not an index of the vector.
#[verifier::external_body]
pub(crate) fn inline_set(v: &mut InlineVec, at: usize, item: u64)
    requires
        at < inline_items(*old(v)).len(),
    ensures
        inline_items(*final(v)) == inline_items(*old(v)).update(at as int, item),
        inline_spilled(*final(v)) == inline_spilled(*old(v)),
{
    v.items[at] = item;
}

} // verus!
