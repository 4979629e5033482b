//! Compressed sets of 32-bit positions, kept in `roaring` bitmaps.
use vstd::prelude::*;
use roaring::RoaringBitmap;

verus! {

#[verifier::external_type_specification]
#[verifier::external_body]
pub struct ExRoaringBitmap(roaring::RoaringBitmap);

/// The positions a bitmap holds.
pub uninterp spec fn bitmap_set(b: RoaringBitmap) -> Set<u32>;

/// The bytes a bitmap is written as, in the standard Roaring format.
pub uninterp spec fn bitmap_bytes(b: RoaringBitmap) -> Seq<u8>;

/// Calls `RoaringBitmap::new`: an empty bitmap.
#[verifier::external_body]
pub fn bitmap_new() -> (r: RoaringBitmap)
    ensures
        bitmap_set(r) == Set::<u32>::empty(),
{
    RoaringBitmap::new()
}

/// Calls `RoaringBitmap::insert`: adds `v`, and says whether it was new.
#[verifier::external_body]
pub fn bitmap_insert(b: &mut RoaringBitmap, v: u32) -> (r: bool)
    ensures
        bitmap_set(*final(b)) == bitmap_set(*old(b)).insert(v),
        r == !bitmap_set(*old(b)).contains(v),
{
    b.insert(v)
}

/// Calls `RoaringBitmap::contains`.
#[verifier::external_body]
pub fn bitmap_contains(b: &RoaringBitmap, v: u32) -> (r: bool)
    ensures
        r == bitmap_set(*b).contains(v),
{
    b.contains(v)
}

/// Calls `RoaringBitmap::len`: the number of positions held.
#[verifier::external_body]
pub fn bitmap_len(b: &RoaringBitmap) -> (r: u64)
    ensures
        r == bitmap_set(*b).len(),
{
    b.len()
}

/// Calls `RoaringBitmap::iter` and collects the positions, which it yields in increasing order.
#[verifier::external_body]
pub fn bitmap_values(b: &RoaringBitmap) -> (r: Vec<u32>)
    ensures
        r@.to_set() == bitmap_set(*b),
        forall|i: int, j: int| 0 <= i < j < r@.len() ==> r@[i] < r@[j],
{
    b.iter().collect()
}

/// Calls `RoaringBitmap |= &RoaringBitmap`: adds the positions of `other`.
#[verifier::external_body]
pub fn bitmap_union_with(b: &mut RoaringBitmap, other: &RoaringBitmap)
    ensures
        bitmap_set(*final(b)) == bitmap_set(*old(b)).union(bitmap_set(*other)),
{
    *b |= other;
}

/// Calls `RoaringBitmap::insert_range` with `start..end`: adds every position from `start` up
/// to, but not including, `end`; none when `end <= start`.
#[verifier::external_body]
pub fn bitmap_insert_range(b: &mut RoaringBitmap, start: u32, end: u32)
    ensures
        bitmap_set(*final(b)) == bitmap_set(*old(b)).union(Set::new(|p: u32| start <= p < end)),
{
    b.insert_range(start..end);
}

/// Calls `RoaringBitmap::is_disjoint`: whether the two bitmaps hold no position in common.
#[verifier::external_body]
pub fn bitmap_is_disjoint(a: &RoaringBitmap, b: &RoaringBitmap) -> (r: bool)
    ensures
        r == bitmap_set(*a).disjoint(bitmap_set(*b)),
{
    a.is_disjoint(b)
}

/// Calls `RoaringBitmap::serialize_into` on a vector of bytes, which cannot fail.
#[verifier::external_body]
pub fn bitmap_serialize(b: &RoaringBitmap) -> (r: Vec<u8>)
    ensures
        r@ == bitmap_bytes(*b),
{
    let mut out = Vec::new();
    let _ = b.serialize_into(&mut out);
    out
}

/// Calls `RoaringBitmap::deserialize_from` on `bytes`. The crate documents that the bytes a
/// bitmap is written as read back as an equal bitmap; nothing is claimed of other bytes but that
/// they may be refused.
#[verifier::external_body]
pub fn bitmap_deserialize(bytes: &[u8]) -> (r: Option<RoaringBitmap>)
    ensures
        forall|b: RoaringBitmap| bytes@ == bitmap_bytes(b) ==> (r is Some && bitmap_set(r.unwrap()) == bitmap_set(b)),
{
    RoaringBitmap::deserialize_from(bytes).ok()
}

} // verus!
