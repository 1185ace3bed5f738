//! The boolean bitmap encoding: a boolean array stored as a roaring bitmap
//! of its set positions. Its logical type is always non-nullable `Bool`.

use vstd::prelude::*;

use crate::array::{alen, aview, viewable, wf, Array, EncodingKind, RoaringBoolArray};
use crate::bitmap::{bitmap_add, bitmap_contains, bitmap_elems, bitmap_new};
use crate::error::{VortexError, VortexResult};
use crate::scalar::Value;

verus! {

impl RoaringBoolArray {
    /// Wraps a bitmap whose positions are known to lie below `length`.
    pub fn new(bitmap: croaring::Bitmap, length: usize) -> (r: Self)
        requires
            bitmap_elems(bitmap).finite(),
            forall|v: u32| bitmap_elems(bitmap).contains(v) ==> (v as nat) < length,
            length <= u32::MAX,
        ensures
            r.bitmap == bitmap,
            r.length == length,
            wf(Array::RoaringBool(r)),
    {
        Self { bitmap, length }
    }

    /// The underlying bitmap.
    pub fn bitmap(&self) -> (r: &croaring::Bitmap)
        ensures
            r == &self.bitmap,
    {
        &self.bitmap
    }

    /// Encodes a boolean array: position `i` is set exactly when element `i`
    /// holds `true`. Validity is ignored, because the result's logical type
    /// is non-nullable `Bool`; any other encoding is rejected.
    #[verifier::loop_isolation(false)]
    pub fn encode(array: &Array) -> (r: VortexResult<Self>)
        requires
            wf(*array),
        ensures
            match r {
                Result::Ok(rb) => {
                    &&& *array is Bool
                    &&& alen(*array) <= u32::MAX
                    &&& wf(Array::RoaringBool(rb))
                    &&& rb.length as nat == alen(*array)
                    &&& forall|v: u32|
                        #![trigger crate::bitmap::bitmap_elems(rb.bitmap).contains(v)]
                        crate::bitmap::bitmap_elems(rb.bitmap).contains(v) <==> (v as nat) < alen(
                            *array,
                        ) && array->Bool_0.values@[v as int]
                    &&& (array->Bool_0.validity is None ==> aview(Array::RoaringBool(rb))
                        == aview(*array))
                },
                Result::Err(VortexError::InvalidEncoding) => !(*array is Bool),
                Result::Err(VortexError::OutOfBounds(i, l)) => {
                    &&& *array is Bool
                    &&& alen(*array) > u32::MAX
                    &&& l as nat == alen(*array)
                },
                Result::Err(_) => false,
            },
    {
        match array {
            Array::Bool(b) => {
                let n = b.values.len();
                if n > u32::MAX as usize {
                    return Result::Err(VortexError::OutOfBounds(n, n));
                }
                let mut bitmap = bitmap_new();
                for i in 0..n
                    invariant
                        bitmap_elems(bitmap).finite(),
                        forall|v: u32|
                            bitmap_elems(bitmap).contains(v) <==> (v as nat) < i && b.values@[
                                v as int
                            ],
                {
                    if b.values[i] {
                        bitmap_add(&mut bitmap, i as u32);
                    }
                    proof {
                        assert forall|v: u32|
                            bitmap_elems(bitmap).contains(v) <==> (v as nat) < i + 1
                                && b.values@[v as int] by {}
                    }
                }
                let rb = Self { bitmap, length: n };
                proof {
                    if b.validity is None {
                        assert(aview(Array::RoaringBool(rb)) =~= aview(*array));
                    }
                }
                Result::Ok(rb)
            },
            _ => Result::Err(VortexError::InvalidEncoding),
        }
    }
}

/// The compressor entry of the boolean bitmap encoding: applicable exactly
/// to boolean arrays that fit the position range. Validity is ignored, so
/// the result's view equals the input's only when the input is non-nullable.
pub fn roaring_encode(array: &Array) -> (r: VortexResult<RoaringBoolArray>)
    requires
        wf(*array),
    ensures
        match r {
            Result::Ok(rb) => {
                &&& wf(Array::RoaringBool(rb))
                &&& rb.length as nat == alen(*array)
                &&& (*array is Bool && array->Bool_0.validity is None ==> aview(
                    Array::RoaringBool(rb),
                ) == aview(*array))
            },
            Result::Err(_) => true,
        },
{
    RoaringBoolArray::encode(array)
}

/// The process-wide identity of the boolean bitmap encoding.
pub struct RoaringBoolEncoding;

impl RoaringBoolEncoding {
    /// The stable identifier under which this encoding is persisted.
    pub fn id(&self) -> (r: EncodingKind)
        ensures
            r == EncodingKind::RoaringBool,
    {
        EncodingKind::RoaringBool
    }
}

} // verus!
