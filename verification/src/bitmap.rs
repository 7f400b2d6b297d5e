//! Document-id sets, held in `roaring::RoaringBitmap`.
//!
//! Every operation that the index performs on a bitmap goes through one of the
//! small trusted functions below; each of them makes one call into `roaring`
//! and states, over `bitmap_set`, what that call does to the set of integers.
use roaring::RoaringBitmap;
use vstd::prelude::*;

verus! {

#[verifier::external_type_specification]
#[verifier::external_body]
pub struct ExRoaringBitmap(RoaringBitmap);

/// The set of integers that a bitmap holds.
pub uninterp spec fn bitmap_set(b: RoaringBitmap) -> Set<u32>;

/// `RoaringBitmap::new`: an empty bitmap.
#[verifier::external_body]
pub(crate) fn bitmap_new() -> (b: RoaringBitmap)
    ensures
        bitmap_set(b) == Set::<u32>::empty(),
{
    RoaringBitmap::new()
}

/// `RoaringBitmap::insert`: adds `value`; the result tells whether it was absent.
#[verifier::external_body]
pub(crate) fn bitmap_insert(b: &mut RoaringBitmap, value: u32) -> (was_absent: bool)
    ensures
        bitmap_set(*final(b)) == bitmap_set(*old(b)).insert(value),
        was_absent == !bitmap_set(*old(b)).contains(value),
{
    b.insert(value)
}

/// Every set of `u32` is finite.
pub proof fn lemma_u32_set_finite(s: Set<u32>)
    ensures
        s.finite(),
{
    broadcast use vstd::set_lib::full_set_properties;
    assert(Set::<u32>::full().finite());
    vstd::set_lib::lemma_set_subset_finite(Set::<u32>::full(), s);
}

/// `RoaringBitmap::len`: the number of integers in the bitmap.
#[verifier::external_body]
pub(crate) fn bitmap_len(b: &RoaringBitmap) -> (n: u64)
    ensures
        n as nat == bitmap_set(*b).len(),
{
    b.len()
}

/// `RoaringBitmap::is_empty`: whether the bitmap holds no integer.
#[verifier::external_body]
pub(crate) fn bitmap_is_empty(b: &RoaringBitmap) -> (empty: bool)
    ensures
        empty == (bitmap_set(*b) == Set::<u32>::empty()),
{
    b.is_empty()
}

/// `BitOrAssign<RoaringBitmap>` (`a |= b`): the union, stored in `a`.
#[verifier::external_body]
pub(crate) fn bitmap_union_with(a: &mut RoaringBitmap, b: RoaringBitmap)
    ensures
        bitmap_set(*final(a)) == bitmap_set(*old(a)).union(bitmap_set(b)),
{
    *a |= b;
}

/// `BitAndAssign<RoaringBitmap>` (`a &= b`): the intersection, stored in `a`.
#[verifier::external_body]
pub(crate) fn bitmap_intersect_with(a: &mut RoaringBitmap, b: RoaringBitmap)
    ensures
        bitmap_set(*final(a)) == bitmap_set(*old(a)).intersect(bitmap_set(b)),
{
    *a &= b;
}

/// `Sub<RoaringBitmap> for RoaringBitmap` (`a - b`): the integers of `a` that are not in `b`.
#[verifier::external_body]
pub(crate) fn bitmap_difference(a: RoaringBitmap, b: RoaringBitmap) -> (d: RoaringBitmap)
    ensures
        bitmap_set(d) == bitmap_set(a).difference(bitmap_set(b)),
{
    a - b
}

} // verus!
