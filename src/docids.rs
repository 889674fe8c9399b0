//! Sets of document ids, held in roaring bitmaps.

use roaring::RoaringBitmap;
use vstd::prelude::*;

verus! {

#[verifier::external_type_specification]
#[verifier::external_body]
pub struct ExRoaringBitmap(RoaringBitmap);

/// The document ids that a bitmap holds.
pub uninterp spec fn docids_of(b: RoaringBitmap) -> Set<u32>;

/// Relies on `RoaringBitmap::new`: the bitmap it returns is empty.
#[verifier::external_body]
pub(crate) fn empty_docids() -> (r: RoaringBitmap)
    ensures
        docids_of(r) == Set::<u32>::empty(),
{
    RoaringBitmap::new()
}

/// Relies on `RoaringBitmap::clone`: the copy holds the same ids.
#[verifier::external_body]
pub(crate) fn copy_docids(b: &RoaringBitmap) -> (r: RoaringBitmap)
    ensures
        docids_of(r) == docids_of(*b),
{
    b.clone()
}

/// Relies on `RoaringBitmap::is_empty`: whether the bitmap holds no id.
#[verifier::external_body]
pub(crate) fn no_docids(b: &RoaringBitmap) -> (r: bool)
    ensures
        r == (docids_of(*b) == Set::<u32>::empty()),
{
    b.is_empty()
}

/// Relies on `BitOrAssign<&RoaringBitmap>` for `RoaringBitmap`: in-place union.
#[verifier::external_body]
pub(crate) fn union_into(b: &mut RoaringBitmap, other: &RoaringBitmap)
    ensures
        docids_of(*final(b)) == docids_of(*old(b)).union(docids_of(*other)),
{
    *b |= other;
}

/// Relies on `SubAssign<&RoaringBitmap>` for `RoaringBitmap`: in-place difference.
#[verifier::external_body]
pub(crate) fn subtract_from(b: &mut RoaringBitmap, other: &RoaringBitmap)
    ensures
        docids_of(*final(b)) == docids_of(*old(b)).difference(docids_of(*other)),
{
    *b -= other;
}

/// Relies on `BitAnd<&RoaringBitmap>` for `&RoaringBitmap`: the intersection.
#[verifier::external_body]
pub(crate) fn intersect_docids(a: &RoaringBitmap, b: &RoaringBitmap) -> (r: RoaringBitmap)
    ensures
        docids_of(r) == docids_of(*a).intersect(docids_of(*b)),
{
    a & b
}

/// Relies on `RoaringBitmap::len`: the number of ids held.
#[verifier::external_body]
pub(crate) fn docids_len(b: &RoaringBitmap) -> (r: u64)
    ensures
        r as int == docids_of(*b).len(),
{
    b.len()
}

/// Relies on `RoaringBitmap::intersection_len`: the size of the intersection.
#[verifier::external_body]
pub(crate) fn common_count(a: &RoaringBitmap, b: &RoaringBitmap) -> (r: u64)
    ensures
        r as int == docids_of(*a).intersect(docids_of(*b)).len(),
{
    a.intersection_len(b)
}

/// Every set of document ids is finite: it lies within the `u32` range.
pub proof fn lemma_docids_finite(s: Set<u32>)
    ensures
        s.finite(),
{
    let range = vstd::set_lib::set_int_range(0, 0x1_0000_0000);
    vstd::set_lib::lemma_int_range(0, 0x1_0000_0000);
    let all = range.map(|i: int| i as u32);
    range.lemma_map_finite(|i: int| i as u32);
    assert forall|x: u32| s.contains(x) implies all.contains(x) by {
        assert(range.contains(x as int));
        assert((x as int) as u32 == x);
    }
    vstd::set_lib::lemma_set_subset_finite(all, s);
}

} // verus!
