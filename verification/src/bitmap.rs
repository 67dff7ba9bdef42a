//! Roaring bitmaps, as the sets of bits that they hold.
//!
//! The index keeps its bits in [`roaring::RoaringBitmap`]s. The functions here are
//! the library's only calls into that crate; their contracts are taken on trust.

use roaring::RoaringBitmap;
use vstd::prelude::*;

verus! {

/// `roaring::RoaringBitmap`, opaque: what it holds is named by [`bitmap_bits`].
#[verifier::external_type_specification]
#[verifier::external_body]
pub struct ExRoaringBitmap(RoaringBitmap);

/// `std::io::Error`, opaque: reading a bitmap fails with it.
#[verifier::external_type_specification]
#[verifier::external_body]
pub struct ExIoError(std::io::Error);

/// The bits that a bitmap holds.
pub uninterp spec fn bitmap_bits(bitmap: RoaringBitmap) -> Set<u32>;

/// The bits that `RoaringBitmap::deserialize_from` reads out of a byte string, or
/// `None` where it fails.
pub uninterp spec fn stored_bits(bytes: Seq<u8>) -> Option<Set<u32>>;

/// `RoaringBitmap::new`: a bitmap without bits.
#[verifier::external_body]
pub(crate) fn new_bitmap() -> (bitmap: RoaringBitmap)
    ensures
        bitmap_bits(bitmap) == Set::<u32>::empty(),
{
    RoaringBitmap::new()
}

/// `RoaringBitmap::insert`: sets one bit, and says whether it was clear before.
#[verifier::external_body]
pub(crate) fn set_bit(bitmap: &mut RoaringBitmap, bit: u32) -> (was_clear: bool)
    ensures
        bitmap_bits(*final(bitmap)) == bitmap_bits(*old(bitmap)).insert(bit),
        was_clear == !bitmap_bits(*old(bitmap)).contains(bit),
{
    bitmap.insert(bit)
}

/// `RoaringBitmap`'s `|=` with a borrowed right side: the union of the two.
#[verifier::external_body]
pub(crate) fn or_bits(bitmap: &mut RoaringBitmap, more: &RoaringBitmap)
    ensures
        bitmap_bits(*final(bitmap)) == bitmap_bits(*old(bitmap)).union(bitmap_bits(*more)),
{
    *bitmap |= more;
}

/// `RoaringBitmap::len`: the number of bits that are set.
#[verifier::external_body]
pub(crate) fn count_bits(bitmap: &RoaringBitmap) -> (count: u64)
    ensures
        count == bitmap_bits(*bitmap).len(),
{
    bitmap.len()
}

/// `RoaringBitmap::optimize`: picks the smallest representation, and leaves the
/// bits as they are. What it returns, whether the representation changed, is
/// dropped.
#[verifier::external_body]
pub(crate) fn optimize_bitmap(bitmap: &mut RoaringBitmap)
    ensures
        bitmap_bits(*final(bitmap)) == bitmap_bits(*old(bitmap)),
{
    bitmap.optimize();
}

/// `RoaringBitmap::serialize_into`, into an empty `Vec`, where no write fails. The
/// bytes are such that reading them back gives the bits that were written; which
/// bytes they are depends on how the bitmap represents its bits, and is left open.
#[verifier::external_body]
pub(crate) fn write_bitmap(bitmap: &RoaringBitmap) -> (bytes: Vec<u8>)
    ensures
        stored_bits(bytes@) == Some(bitmap_bits(*bitmap)),
{
    let mut bytes: Vec<u8> = Vec::with_capacity(bitmap.serialized_size());
    bitmap.serialize_into(&mut bytes).expect("serialize into Vec is infallible");
    bytes
}

/// `RoaringBitmap::deserialize_from`, on a byte string: the bits named by
/// [`stored_bits`], or an error where it names none.
#[verifier::external_body]
pub(crate) fn read_bitmap(bytes: &[u8]) -> (bitmap: Result<RoaringBitmap, std::io::Error>)
    ensures
        match bitmap {
            Ok(bitmap) => stored_bits(bytes@) == Some(bitmap_bits(bitmap)),
            Err(_) => stored_bits(bytes@) is None,
        },
{
    RoaringBitmap::deserialize_from(bytes)
}

/// There are finitely many bits.
pub proof fn lemma_bits_are_finite(bits: Set<u32>)
    ensures
        bits.finite(),
{
    let all = vstd::set_lib::set_int_range(0, 0x1_0000_0000);
    vstd::set_lib::lemma_int_range(0, 0x1_0000_0000);
    let to_bit = |i: int| i as u32;
    all.lemma_map_finite(to_bit);
    assert forall|bit: u32| bits.contains(bit) implies all.map(to_bit).contains(bit) by {
        assert(all.contains(bit as int));
        assert(to_bit(bit as int) == bit);
    }
    vstd::set_lib::lemma_set_subset_finite(all.map(to_bit), bits);
}

/// A union has more bits than its left side exactly where the right side brings one.
pub proof fn lemma_union_grows(bits: Set<u32>, more: Set<u32>)
    ensures
        bits.union(more).len() > bits.len() <==> !more.subset_of(bits),
        bits.union(more).len() >= bits.len(),
{
    lemma_bits_are_finite(bits);
    lemma_bits_are_finite(bits.union(more));
    vstd::set_lib::lemma_len_subset(bits, bits.union(more));
    if more.subset_of(bits) {
        assert(bits.union(more) =~= bits);
    } else {
        let bit = choose|bit: u32| more.contains(bit) && !bits.contains(bit);
        assert(bits.insert(bit).subset_of(bits.union(more)));
        vstd::set_lib::lemma_len_subset(bits.insert(bit), bits.union(more));
    }
}

} // verus!
