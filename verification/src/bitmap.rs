//! Trusted surface over `croaring::Bitmap`, the compressed bitmap that backs
//! the boolean bitmap encoding. Every claim below is read off croaring's
//! documented behaviour; the rest of the library is verified against these
//! contracts alone.

use vstd::prelude::*;

verus! {

#[verifier::external_type_specification]
#[verifier::external_body]
pub struct ExBitmap(croaring::Bitmap);

/// The set of positions held by a bitmap value.
pub uninterp spec fn bitmap_elems(b: croaring::Bitmap) -> Set<u32>;

/// The size in bytes of a bitmap's native serialized form.
pub uninterp spec fn bitmap_nbytes(b: croaring::Bitmap) -> usize;

/// The portable serialized form of a bitmap value.
pub uninterp spec fn bitmap_bytes(b: croaring::Bitmap) -> Seq<u8>;

/// Relies on croaring's `Bitmap::new`: creates an empty bitmap.
#[verifier::external_body]
pub fn bitmap_new() -> (r: croaring::Bitmap)
    ensures
        bitmap_elems(r) == Set::<u32>::empty(),
        bitmap_elems(r).finite(),
{
    croaring::Bitmap::new()
}

/// Relies on croaring's `Bitmap::add`: inserts one position.
#[verifier::external_body]
pub fn bitmap_add(b: &mut croaring::Bitmap, e: u32)
    ensures
        bitmap_elems(*final(b)) == bitmap_elems(*old(b)).insert(e),
{
    b.add(e);
}

/// Relies on croaring's `Bitmap::contains`.
#[verifier::external_body]
pub fn bitmap_contains(b: &croaring::Bitmap, e: u32) -> (r: bool)
    ensures
        r == bitmap_elems(*b).contains(e),
{
    b.contains(e)
}

/// Relies on croaring's `Bitmap::cardinality`: the number of positions held.
#[verifier::external_body]
pub fn bitmap_cardinality(b: &croaring::Bitmap) -> (r: u64)
    ensures
        r as nat == bitmap_elems(*b).len(),
{
    b.cardinality()
}

/// Relies on croaring's `Bitmap::and`: set intersection.
#[verifier::external_body]
pub fn bitmap_and(a: &croaring::Bitmap, b: &croaring::Bitmap) -> (r: croaring::Bitmap)
    ensures
        bitmap_elems(r) == bitmap_elems(*a).intersect(bitmap_elems(*b)),
        bitmap_elems(r).finite(),
{
    a.and(b)
}

/// Relies on croaring's `Bitmap::from_range`: the positions of `lo..hi`.
#[verifier::external_body]
pub fn bitmap_from_range(lo: u32, hi: u32) -> (r: croaring::Bitmap)
    ensures
        bitmap_elems(r) == Set::new(|v: u32| lo <= v < hi),
        bitmap_elems(r).finite(),
{
    croaring::Bitmap::from_range(lo..hi)
}

/// Relies on croaring's `Bitmap::add_offset`: shifts every position by
/// `offset`, dropping any that leave the `u32` range.
#[verifier::external_body]
pub fn bitmap_add_offset(b: &croaring::Bitmap, offset: i64) -> (r: croaring::Bitmap)
    ensures
        bitmap_elems(r) == Set::new(
            |v: u32|
                {
                    &&& v as int - offset >= 0
                    &&& v as int - offset <= u32::MAX as int
                    &&& bitmap_elems(*b).contains((v as int - offset) as u32)
                },
        ),
        bitmap_elems(r).finite(),
{
    b.add_offset(offset)
}

/// Relies on croaring's `Bitmap::to_vec`: all positions, in ascending
/// order; a bitmap holds finitely many positions.
#[verifier::external_body]
pub fn bitmap_to_vec(b: &croaring::Bitmap) -> (r: Vec<u32>)
    ensures
        r@.to_set() == bitmap_elems(*b),
        forall|i: int| 0 <= i < r@.len() ==> bitmap_elems(*b).contains(r@[i]),
        forall|i: int, j: int| 0 <= i < j < r@.len() ==> r@[i] < r@[j],
        forall|v: u32| bitmap_elems(*b).contains(v) ==> r@.contains(v),
{
    b.to_vec()
}

/// Relies on croaring's `Bitmap::clone`: copies the bitmap value.
#[verifier::external_body]
pub fn bitmap_clone(b: &croaring::Bitmap) -> (r: croaring::Bitmap)
    ensures
        bitmap_elems(r) == bitmap_elems(*b),
        bitmap_nbytes(r) == bitmap_nbytes(*b),
        bitmap_bytes(r) == bitmap_bytes(*b),
{
    b.clone()
}

/// Relies on croaring's `Bitmap::get_serialized_size_in_bytes` with the
/// native serializer.
#[verifier::external_body]
pub fn bitmap_serialized_size(b: &croaring::Bitmap) -> (r: usize)
    ensures
        r == bitmap_nbytes(*b),
{
    b.get_serialized_size_in_bytes::<croaring::Native>()
}

/// Relies on croaring's `Bitmap::serialize` with the portable serializer.
#[verifier::external_body]
pub fn bitmap_serialize(b: &croaring::Bitmap) -> (r: Vec<u8>)
    ensures
        r@ == bitmap_bytes(*b),
{
    b.serialize::<croaring::Portable>()
}

/// Relies on croaring's `Bitmap::try_deserialize` with the portable
/// serializer: bytes written by `serialize` deserialize to an equal bitmap.
#[verifier::external_body]
pub fn bitmap_try_deserialize(bytes: &Vec<u8>) -> (r: Option<croaring::Bitmap>)
    ensures
        forall|b: croaring::Bitmap|
            bytes@ == bitmap_bytes(b) ==> r is Some && bitmap_elems(r->0) == bitmap_elems(b),
{
    croaring::Bitmap::try_deserialize::<croaring::Portable>(bytes.as_slice())
}

} // verus!
