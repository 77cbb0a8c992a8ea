//! The set of executed offsets of a module, kept in a `roaring::RoaringBitmap`.

use vstd::prelude::*;

verus! {

#[verifier::external_type_specification]
#[verifier::external_body]
pub struct ExRoaringBitmap(roaring::RoaringBitmap);

/// The integers that a bitmap holds.
pub uninterp spec fn bitmap_contents(bitmap: &roaring::RoaringBitmap) -> Set<u32>;

/// The integers from `first` to `last`, both included; empty where `last < first`.
pub open spec fn closed_range(first: u32, last: u32) -> Set<u32> {
    Set::new(|offset: u32| first <= offset <= last)
}

/// Calls `RoaringBitmap::new`. Trusted: the new bitmap holds nothing.
#[verifier::external_body]
pub(crate) fn empty_bitmap() -> (bitmap: roaring::RoaringBitmap)
    ensures
        bitmap_contents(&bitmap) == Set::<u32>::empty(),
{
    roaring::RoaringBitmap::new()
}

/// Calls `RoaringBitmap::insert_range` with the inclusive range
/// `first..=last`. Trusted: every integer of the range is added and nothing
/// else changes; a range with `last < first` adds nothing.
#[verifier::external_body]
pub(crate) fn insert_closed_range(bitmap: &mut roaring::RoaringBitmap, first: u32, last: u32)
    ensures
        bitmap_contents(final(bitmap)) == bitmap_contents(old(bitmap)).union(
            closed_range(first, last),
        ),
{
    bitmap.insert_range(first..=last);
}

/// Calls `RoaringBitmap::contains`. Trusted: the answer is membership in the
/// bitmap's contents.
#[verifier::external_body]
pub(crate) fn bitmap_contains(bitmap: &roaring::RoaringBitmap, offset: u32) -> (found: bool)
    ensures
        found == bitmap_contents(bitmap).contains(offset),
{
    bitmap.contains(offset)
}

/// Calls `Extend::extend` of `RoaringBitmap` with the integers of `other`.
/// Trusted: afterwards `bitmap` holds what it held before and what `other`
/// holds.
#[verifier::external_body]
pub(crate) fn bitmap_extend(bitmap: &mut roaring::RoaringBitmap, other: &roaring::RoaringBitmap)
    ensures
        bitmap_contents(final(bitmap)) == bitmap_contents(old(bitmap)).union(
            bitmap_contents(other),
        ),
{
    bitmap.extend(other);
}

/// Calls `==` of `RoaringBitmap`. Trusted: two bitmaps are equal exactly when
/// they hold the same integers.
#[verifier::external_body]
pub(crate) fn bitmap_eq(left: &roaring::RoaringBitmap, right: &roaring::RoaringBitmap) -> (same:
    bool)
    ensures
        same == (bitmap_contents(left) == bitmap_contents(right)),
{
    left == right
}

} // verus!
