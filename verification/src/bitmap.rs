//! Sets of document ids, kept as roaring bitmaps of the `croaring` crate.

use vstd::prelude::*;
use croaring::{Bitmap, Portable};

verus! {

#[verifier::external_type_specification]
#[verifier::external_body]
pub struct ExBitmap(croaring::Bitmap);

/// The integers that the bitmap holds.
pub uninterp spec fn bitmap_members(b: Bitmap) -> Set<u32>;

/// The set that `Bitmap::deserialize` reads from `bytes` in the portable
/// format; the empty set where the bytes are no valid bitmap.
pub uninterp spec fn roaring_decoded(bytes: Seq<u8>) -> Set<u32>;

/// The bytes that `Bitmap::serialize` gives for the bitmap in the
/// portable format.
pub uninterp spec fn bitmap_portable(b: Bitmap) -> Seq<u8>;

/// Whether `v` is strictly increasing.
pub open spec fn strictly_increasing(v: Seq<u32>) -> bool {
    forall|i: int, j: int| 0 <= i < j < v.len() ==> v[i] < v[j]
}

/// `Bitmap::new` gives a bitmap that holds nothing.
#[verifier::external_body]
pub(crate) fn bitmap_new() -> (b: Bitmap)
    ensures
        bitmap_members(b) == Set::<u32>::empty(),
{
    Bitmap::new()
}

/// `Bitmap::add` puts one integer into the bitmap.
#[verifier::external_body]
pub(crate) fn bitmap_add(b: &mut Bitmap, x: u32)
    ensures
        bitmap_members(*final(b)) == bitmap_members(*old(b)).insert(x),
{
    b.add(x)
}

/// `Bitmap::add_range` with the half-open range `lo..hi` puts every
/// integer of the range into the bitmap; an empty range adds nothing.
#[verifier::external_body]
pub(crate) fn bitmap_add_range(b: &mut Bitmap, lo: u32, hi: u32)
    ensures
        bitmap_members(*final(b)) == bitmap_members(*old(b)).union(
            Set::new(|x: u32| lo <= x < hi),
        ),
{
    b.add_range(lo..hi)
}

/// `Bitmap::and_inplace` keeps what both bitmaps hold.
#[verifier::external_body]
pub(crate) fn bitmap_and(b: &mut Bitmap, other: &Bitmap)
    ensures
        bitmap_members(*final(b)) == bitmap_members(*old(b)).intersect(bitmap_members(*other)),
{
    b.and_inplace(other)
}

/// `Bitmap::or_inplace` adds what the other bitmap holds.
#[verifier::external_body]
pub(crate) fn bitmap_or(b: &mut Bitmap, other: &Bitmap)
    ensures
        bitmap_members(*final(b)) == bitmap_members(*old(b)).union(bitmap_members(*other)),
{
    b.or_inplace(other)
}

/// `Bitmap::andnot_inplace` removes what the other bitmap holds.
#[verifier::external_body]
pub(crate) fn bitmap_andnot(b: &mut Bitmap, other: &Bitmap)
    ensures
        bitmap_members(*final(b)) == bitmap_members(*old(b)).difference(bitmap_members(*other)),
{
    b.andnot_inplace(other)
}

/// `Bitmap::clear` empties the bitmap.
#[verifier::external_body]
pub(crate) fn bitmap_clear(b: &mut Bitmap)
    ensures
        bitmap_members(*final(b)) == Set::<u32>::empty(),
{
    b.clear()
}

/// `Bitmap::to_vec` gives the integers of the bitmap in increasing order.
#[verifier::external_body]
pub(crate) fn bitmap_to_vec(b: &Bitmap) -> (v: Vec<u32>)
    ensures
        strictly_increasing(v@),
        forall|x: u32| v@.contains(x) <==> bitmap_members(*b).contains(x),
{
    b.to_vec()
}

/// `Bitmap::serialize` in the portable format; the bytes it gives are
/// named `bitmap_portable`, and `Bitmap::deserialize` reads the same set
/// back from them.
#[verifier::external_body]
pub(crate) fn bitmap_serialize(b: &Bitmap) -> (bytes: Vec<u8>)
    ensures
        bytes@ == bitmap_portable(*b),
        roaring_decoded(bytes@) == bitmap_members(*b),
{
    b.serialize::<Portable>()
}

/// `Bitmap::deserialize` in the portable format; the set it reads is named
/// `roaring_decoded`.
#[verifier::external_body]
pub(crate) fn bitmap_deserialize(bytes: &[u8]) -> (b: Bitmap)
    ensures
        bitmap_members(b) == roaring_decoded(bytes@),
{
    Bitmap::deserialize::<Portable>(bytes)
}

/// A bitmap that holds the integers of `ids`.
pub fn bitmap_of(ids: &Vec<u32>) -> (b: Bitmap)
    ensures
        bitmap_members(b) == ids@.to_set(),
{
    let mut b = bitmap_new();
    let mut i: usize = 0;
    proof {
        assert(ids@.take(0).to_set() =~= Set::<u32>::empty());
    }
    while i < ids.len()
        invariant
            i <= ids.len(),
            bitmap_members(b) == ids@.take(i as int).to_set(),
        decreases ids.len() - i,
    {
        bitmap_add(&mut b, ids[i]);
        proof {
            let t = ids@.take(i + 1);
            assert(t =~= ids@.take(i as int).push(ids@[i as int]));
            assert forall|x: u32| t.to_set().contains(x) <==> ids@.take(i as int).to_set().insert(
                ids@[i as int],
            ).contains(x) by {
                if t.contains(x) {
                    let k = choose|k: int| 0 <= k < t.len() && t[k] == x;
                    if k < i {
                        assert(ids@.take(i as int)[k] == x);
                    }
                }
                if ids@.take(i as int).contains(x) {
                    let k = choose|k: int| 0 <= k < i && ids@.take(i as int)[k] == x;
                    assert(t[k] == x);
                }
                if x == ids@[i as int] {
                    assert(t[i as int] == x);
                }
            }
            assert(t.to_set() =~= ids@.take(i as int).to_set().insert(ids@[i as int]));
        }
        i += 1;
    }
    proof {
        assert(ids@.take(ids.len() as int) =~= ids@);
    }
    b
}

/// The set of the doc ids below `doc_count`.
pub open spec fn universe(doc_count: u32) -> Set<u32> {
    Set::new(|x: u32| x < doc_count)
}

/// A bitmap that holds every doc id below `doc_count`.
pub fn bitmap_universe(doc_count: u32) -> (b: Bitmap)
    ensures
        bitmap_members(b) == universe(doc_count),
{
    let mut b = bitmap_new();
    bitmap_add_range(&mut b, 0, doc_count);
    proof {
        assert(bitmap_members(b) =~= universe(doc_count));
    }
    b
}

} // verus!
