//! The adaptive lossless float encoding. A float array is stored as an
//! integer child holding `round(value * 10^e * 10^-f)` per element, plus a
//! sparse patches child with the original bit patterns of the few values
//! that do not survive the round trip.
//!
//! The per-element decimal transforms are float arithmetic, which this
//! library leaves to its caller: an [`AlpElem`] carries, for one element,
//! the original bit pattern, the candidate integer under the chosen
//! exponents, and whether the inverse transform returns the original bits
//! exactly. Everything structural — which integers are stored, which
//! positions are patched, and that decoding restores the input — is
//! verified here.

use vstd::pervasive::VecAdditionalExecFns;
use vstd::prelude::*;

use crate::array::{
    alen, alp_child_dtype_ok, aview, find_in, validity_len_ok, validity_nullability, wf,
    ALPArray, Array, EncodingKind, Exponents, PrimitiveArray, SparseArray,
};
use crate::dtype::{clone_vec_copy, DType, Nullability, PType};
use crate::error::{VortexError, VortexResult};

verus! {

/// One element of a float array under fixed exponents, as computed by the
/// caller's decimal transform.
#[derive(Clone, Copy, PartialEq, Eq, Structural, Debug)]
pub struct AlpElem {
    /// The original float's bit pattern.
    pub bits: u64,
    /// `round(value * 10^e * 10^-f)` as an integer.
    pub encoded: i64,
    /// Whether the inverse transform of `encoded` returns `bits` exactly.
    pub exact: bool,
}

/// The integer stored for one element: the candidate where it round-trips,
/// zero where the element is patched.
pub open spec fn alp_stored(e: AlpElem) -> u64 {
    if e.exact {
        e.encoded as u64
    } else {
        0u64
    }
}

/// The patched positions among `elems[..i]`, in ascending order.
pub open spec fn alp_patch_positions(elems: Seq<AlpElem>, i: int) -> Seq<u64>
    decreases i,
{
    if i <= 0 {
        Seq::empty()
    } else if !elems[i - 1].exact {
        alp_patch_positions(elems, i - 1).push((i - 1) as u64)
    } else {
        alp_patch_positions(elems, i - 1)
    }
}

/// The original bit patterns at the patched positions among `elems[..i]`.
pub open spec fn alp_patch_bits(elems: Seq<AlpElem>, i: int) -> Seq<u64>
    decreases i,
{
    if i <= 0 {
        Seq::empty()
    } else if !elems[i - 1].exact {
        alp_patch_bits(elems, i - 1).push(elems[i - 1].bits)
    } else {
        alp_patch_bits(elems, i - 1)
    }
}

/// Every patched position among the first `i` is below `i`, the list is
/// strictly increasing, and it lines up with the patched bits.
pub proof fn lemma_alp_patches_wf(elems: Seq<AlpElem>, i: int)
    requires
        0 <= i <= elems.len(),
        elems.len() <= u64::MAX,
    ensures
        alp_patch_positions(elems, i).len() == alp_patch_bits(elems, i).len(),
        forall|k: int|
            0 <= k < alp_patch_positions(elems, i).len() ==> (#[trigger] alp_patch_positions(
                elems,
                i,
            )[k] as int) < i,
        forall|k: int, l: int|
            0 <= k < l < alp_patch_positions(elems, i).len() ==> alp_patch_positions(elems, i)[k]
                < alp_patch_positions(elems, i)[l],
        forall|k: int|
            0 <= k < alp_patch_positions(elems, i).len() ==> {
                let p = #[trigger] alp_patch_positions(elems, i)[k] as int;
                &&& !elems[p].exact
                &&& alp_patch_bits(elems, i)[k] == elems[p].bits
            },
        forall|p: int|
            0 <= p < i && !elems[p].exact ==> alp_patch_positions(elems, i).contains(p as u64),
    decreases i,
{
    if i > 0 {
        lemma_alp_patches_wf(elems, i - 1);
        let prev = alp_patch_positions(elems, i - 1);
        let prevb = alp_patch_bits(elems, i - 1);
        if !elems[i - 1].exact {
            assert(alp_patch_positions(elems, i) == prev.push((i - 1) as u64));
            assert(alp_patch_bits(elems, i) == prevb.push(elems[i - 1].bits));
            assert(forall|k: int|
                0 <= k < prev.len() ==> #[trigger] alp_patch_positions(elems, i)[k] == prev[k]);
            assert(forall|k: int|
                0 <= k < prevb.len() ==> #[trigger] alp_patch_bits(elems, i)[k] == prevb[k]);
            assert(alp_patch_positions(elems, i)[prev.len() as int] == (i - 1) as u64);
            assert(alp_patch_bits(elems, i)[prevb.len() as int] == elems[i - 1].bits);
        }
        assert forall|p: int|
            0 <= p < i && !elems[p].exact implies alp_patch_positions(elems, i).contains(
            p as u64,
        ) by {
            if p < i - 1 {
                assert(alp_patch_positions(elems, i - 1).contains(p as u64));
                let k = choose|k: int|
                    0 <= k < alp_patch_positions(elems, i - 1).len() && #[trigger] alp_patch_positions(
                        elems,
                        i - 1,
                    )[k] == p as u64;
                assert(alp_patch_positions(elems, i)[k] == p as u64);
            } else {
                assert(!elems[i - 1].exact);
                let s = alp_patch_positions(elems, i);
                assert(s[s.len() - 1] == p as u64);
            }
        }
    }
}

impl ALPArray {
    /// Validates the shape: an integer child of width 32 or 64 decodes to a
    /// float of the same width and nullability; an optional patches child
    /// must be a sparse array of the child's length.
    pub fn try_new(encoded: Array, exponents: Exponents, patches: Option<Array>) -> (r:
        VortexResult<Self>)
        requires
            wf(encoded),
            match patches {
                Option::Some(p) => wf(p),
                Option::None => true,
            },
        ensures
            match r {
                Result::Ok(al) => {
                    &&& al.encoded == encoded
                    &&& al.exponents == exponents
                    &&& alp_child_dtype_ok(encoded, al.dtype)
                    &&& match (al.patches, patches) {
                        (Option::Some(q), Option::Some(p)) => *q == p,
                        (Option::None, Option::None) => true,
                        _ => false,
                    }
                    &&& wf(Array::Alp(al))
                },
                Result::Err(VortexError::InvalidDType(_)) => !(encoded is Primitive
                    && encoded->Primitive_0.ptype.spec_is_alp_child()),
                Result::Err(VortexError::CodecError) => {
                    &&& encoded is Primitive
                    &&& encoded->Primitive_0.ptype.spec_is_alp_child()
                    &&& match patches {
                        Option::Some(p) => !(p is Sparse) || alen(p) != alen(encoded),
                        Option::None => false,
                    }
                },
                Result::Err(_) => false,
            },
    {
        let dtype = match &encoded {
            Array::Primitive(p) => {
                let n = if p.validity.is_some() {
                    Nullability::Nullable
                } else {
                    Nullability::NonNullable
                };
                match p.ptype {
                    PType::I32 | PType::U32 => PType::F32.dtype(n),
                    PType::I64 | PType::U64 => PType::F64.dtype(n),
                    _ => {
                        return Result::Err(VortexError::InvalidDType(encoded.dtype()));
                    },
                }
            },
            _ => {
                return Result::Err(VortexError::InvalidDType(encoded.dtype()));
            },
        };
        let encoded_len = encoded.len();
        match &patches {
            Option::Some(p) => {
                let plen = p.len();
                if !(matches!(p, Array::Sparse(_))) || plen != encoded_len {
                    return Result::Err(VortexError::CodecError);
                }
            },
            Option::None => {},
        }
        let al = ALPArray {
            encoded: Box::new(encoded),
            exponents,
            patches: match patches {
                Option::Some(p) => Option::Some(Box::new(p)),
                Option::None => Option::None,
            },
            dtype,
        };
        Result::Ok(al)
    }

    /// As [`Self::try_new`], for inputs already known to be valid.
    pub fn new(encoded: Array, exponents: Exponents, patches: Option<Array>) -> (r: Self)
        requires
            wf(encoded),
            encoded is Primitive,
            encoded->Primitive_0.ptype.spec_is_alp_child(),
            match patches {
                Option::Some(p) => wf(p) && p is Sparse && alen(p) == alen(encoded),
                Option::None => true,
            },
        ensures
            r.encoded == encoded,
            r.exponents == exponents,
            match (r.patches, patches) {
                (Option::Some(q), Option::Some(p)) => *q == p,
                (Option::None, Option::None) => true,
                _ => false,
            },
            wf(Array::Alp(r)),
    {
        match Self::try_new(encoded, exponents, patches) {
            Result::Ok(al) => al,
            Result::Err(_) => {
                proof {
                    assert(false);
                }
                ALPArray {
                    encoded: Box::new(
                        Array::Primitive(
                            PrimitiveArray {
                                ptype: PType::I64,
                                values: Vec::new(),
                                validity: Option::None,
                            },
                        ),
                    ),
                    exponents,
                    patches: Option::None,
                    dtype: DType::Float(crate::dtype::FloatWidth::W64, Nullability::NonNullable),
                }
            },
        }
    }

    /// The original entry point: a primitive float array goes through
    /// [`alp_encode`] with the caller's decimal transforms.
    pub fn encode(array: &PrimitiveArray, elems: &Vec<AlpElem>, exponents: Exponents) -> (r:
        VortexResult<Array>)
        requires
            wf(Array::Primitive(*array)),
        ensures
        match r {
            Result::Ok(out) => {
                &&& array.ptype == PType::F32 || array.ptype == PType::F64
                &&& elems@.len() == array.values@.len()
                &&& (forall|i: int|
                    0 <= i < elems@.len() ==> (#[trigger] elems@[i]).bits == array.values@[i])
                &&& out is Alp
                &&& wf(out)
                &&& alen(out) == array.values@.len()
                &&& out->Alp_0.exponents == exponents
                &&& *out->Alp_0.encoded is Primitive
                &&& (*out->Alp_0.encoded)->Primitive_0.ptype == (if array.ptype == PType::F32 {
                    PType::I32
                } else {
                    PType::I64
                })
                &&& (*out->Alp_0.encoded)->Primitive_0.values@ == Seq::new(
                    elems@.len(),
                    |i: int| alp_stored(elems@[i]),
                )
                &&& crate::array::same_validity(
                    (*out->Alp_0.encoded)->Primitive_0.validity,
                    array.validity,
                )
                &&& match out->Alp_0.patches {
                    Option::Some(p) => {
                        &&& !(forall|i: int| 0 <= i < elems@.len() ==> (#[trigger] elems@[i]).exact)
                        &&& *p is Sparse
                        &&& (*p)->Sparse_0.indices@ == alp_patch_positions(
                            elems@,
                            elems@.len() as int,
                        )
                        &&& *(*p)->Sparse_0.values is Primitive
                        &&& (*(*p)->Sparse_0.values)->Primitive_0.ptype == array.ptype
                        &&& (*(*p)->Sparse_0.values)->Primitive_0.values@ == alp_patch_bits(
                            elems@,
                            elems@.len() as int,
                        )
                        &&& (*(*p)->Sparse_0.values)->Primitive_0.validity is None
                    },
                    Option::None => forall|i: int|
                        0 <= i < elems@.len() ==> (#[trigger] elems@[i]).exact,
                }
            },
            Result::Err(VortexError::InvalidDType(_)) => !(array.ptype == PType::F32
                || array.ptype == PType::F64),
            Result::Err(VortexError::CodecError) => {
                &&& (array.ptype == PType::F32 || array.ptype == PType::F64)
                &&& !(elems@.len() == array.values@.len() && forall|i: int|
                    0 <= i < elems@.len() ==> (#[trigger] elems@[i]).bits == array.values@[i])
            },
            Result::Err(_) => false,
        },
    {
        alp_encode(array, elems, exponents)
    }

    /// The integer child.
    pub fn encoded(&self) -> (r: &Array)
        ensures
            r == &*self.encoded,
    {
        &self.encoded
    }

    /// The decimal exponent pair.
    pub fn exponents(&self) -> (r: Exponents)
        ensures
            r == self.exponents,
    {
        self.exponents
    }

    /// The sparse patches child, if any element needed one.
    pub fn patches(&self) -> (r: Option<&Array>)
        ensures
            match (r, self.patches) {
                (Option::Some(p), Option::Some(q)) => p == &*q,
                (Option::None, Option::None) => true,
                _ => false,
            },
    {
        match &self.patches {
            Option::Some(p) => Option::Some(p),
            Option::None => Option::None,
        }
    }
}

/// Assembles the encoding from the caller's per-element transforms: the
/// stored integer is the candidate where it round-trips and zero where not;
/// a sparse patches child records the original bits of the others, and is
/// absent exactly when every element round-trips. The element descriptions
/// must belong to the given float array.
#[verifier::loop_isolation(false)]
pub fn alp_encode(parray: &PrimitiveArray, elems: &Vec<AlpElem>, exponents: Exponents) -> (r:
    VortexResult<Array>)
    requires
        wf(Array::Primitive(*parray)),
    ensures
        match r {
            Result::Ok(out) => {
                &&& parray.ptype == PType::F32 || parray.ptype == PType::F64
                &&& elems@.len() == parray.values@.len()
                &&& (forall|i: int|
                    0 <= i < elems@.len() ==> (#[trigger] elems@[i]).bits == parray.values@[i])
                &&& out is Alp
                &&& wf(out)
                &&& alen(out) == parray.values@.len()
                &&& out->Alp_0.exponents == exponents
                &&& *out->Alp_0.encoded is Primitive
                &&& (*out->Alp_0.encoded)->Primitive_0.ptype == (if parray.ptype == PType::F32 {
                    PType::I32
                } else {
                    PType::I64
                })
                &&& (*out->Alp_0.encoded)->Primitive_0.values@ == Seq::new(
                    elems@.len(),
                    |i: int| alp_stored(elems@[i]),
                )
                &&& crate::array::same_validity(
                    (*out->Alp_0.encoded)->Primitive_0.validity,
                    parray.validity,
                )
                &&& match out->Alp_0.patches {
                    Option::Some(p) => {
                        &&& !(forall|i: int| 0 <= i < elems@.len() ==> (#[trigger] elems@[i]).exact)
                        &&& *p is Sparse
                        &&& (*p)->Sparse_0.indices@ == alp_patch_positions(
                            elems@,
                            elems@.len() as int,
                        )
                        &&& *(*p)->Sparse_0.values is Primitive
                        &&& (*(*p)->Sparse_0.values)->Primitive_0.ptype == parray.ptype
                        &&& (*(*p)->Sparse_0.values)->Primitive_0.values@ == alp_patch_bits(
                            elems@,
                            elems@.len() as int,
                        )
                        &&& (*(*p)->Sparse_0.values)->Primitive_0.validity is None
                    },
                    Option::None => forall|i: int|
                        0 <= i < elems@.len() ==> (#[trigger] elems@[i]).exact,
                }
            },
            Result::Err(VortexError::InvalidDType(_)) => !(parray.ptype == PType::F32
                || parray.ptype == PType::F64),
            Result::Err(VortexError::CodecError) => {
                &&& (parray.ptype == PType::F32 || parray.ptype == PType::F64)
                &&& !(elems@.len() == parray.values@.len() && forall|i: int|
                    0 <= i < elems@.len() ==> (#[trigger] elems@[i]).bits == parray.values@[i])
            },
            Result::Err(_) => false,
        },
{
    let int_ptype = match parray.ptype {
        PType::F32 => PType::I32,
        PType::F64 => PType::I64,
        _ => {
            let nl = if parray.validity.is_some() {
                Nullability::Nullable
            } else {
                Nullability::NonNullable
            };
            return Result::Err(VortexError::InvalidDType(parray.ptype.dtype(nl)));
        },
    };
    let n = parray.values.len();
    if elems.len() != n {
        return Result::Err(VortexError::CodecError);
    }
    for i in 0..n
        invariant
            forall|j: int| 0 <= j < i ==> (#[trigger] elems@[j]).bits == parray.values@[j],
    {
        if elems[i].bits != parray.values[i] {
            return Result::Err(VortexError::CodecError);
        }
    }
    let mut stored: Vec<u64> = Vec::new();
    let mut patch_pos: Vec<u64> = Vec::new();
    let mut patch_val: Vec<u64> = Vec::new();
    for i in 0..n
        invariant
            stored@.len() == i,
            forall|j: int| 0 <= j < i ==> stored@[j] == alp_stored(elems@[j]),
            patch_pos@ == alp_patch_positions(elems@, i as int),
            patch_val@ == alp_patch_bits(elems@, i as int),
    {
        let e = elems[i];
        if e.exact {
            stored.push(e.encoded as u64);
        } else {
            stored.push(0u64);
            patch_pos.push(i as u64);
            patch_val.push(e.bits);
        }
    }
    proof {
        assert(stored@ =~= Seq::new(elems@.len(), |i: int| alp_stored(elems@[i])));
    }
    let encoded = Array::Primitive(
        PrimitiveArray {
            ptype: int_ptype,
            values: stored,
            validity: crate::array::clone_validity(&parray.validity),
        },
    );
    proof {
        assert(alen(encoded) == n as nat);
        assert(wf(encoded));
    }
    let patches = if patch_pos.len() == 0 {
        proof {
            lemma_alp_patches_wf(elems@, n as int);
            assert forall|i: int| 0 <= i < elems@.len() implies (#[trigger] elems@[i]).exact by {
                if !elems@[i].exact {
                    assert(alp_patch_positions(elems@, n as int).contains(i as u64));
                }
            }
        }
        Option::None
    } else {
        proof {
            lemma_alp_patches_wf(elems@, n as int);
        }
        let values = Array::Primitive(
            PrimitiveArray { ptype: parray.ptype, values: patch_val, validity: Option::None },
        );
        let sparse = Array::Sparse(
            SparseArray { indices: patch_pos, values: Box::new(values), length: n },
        );
        proof {
            let pos_seq = alp_patch_positions(elems@, n as int);
            assert(sparse->Sparse_0.indices@ == pos_seq);
            assert(alen(*sparse->Sparse_0.values) == sparse->Sparse_0.indices@.len());
            assert forall|ii: int|
                0 <= ii < sparse->Sparse_0.indices@.len() implies (
            #[trigger] sparse->Sparse_0.indices@[ii] as nat) < n as nat by {
                assert((pos_seq[ii] as int) < n as int);
            }
            assert forall|ii: int, jj: int|
                0 <= ii < jj < sparse->Sparse_0.indices@.len() implies sparse->Sparse_0.indices@[ii]
                < sparse->Sparse_0.indices@[jj] by {
                assert(pos_seq[ii] < pos_seq[jj]);
            }
            assert(wf(*sparse->Sparse_0.values));
            assert(sparse->Sparse_0.indices@.len() == alen(*sparse->Sparse_0.values));
            assert(wf(sparse));
            assert(alen(sparse) == n as nat);
            assert(pos_seq.len() > 0);
            assert(!elems@[pos_seq[0] as int].exact);
        }
        Option::Some(sparse)
    };
    let al = ALPArray::new(encoded, exponents, patches);
    Result::Ok(Array::Alp(al))
}

/// The compressor entry: with a previously chosen array as a hint, the
/// caller reuses the hint's exponents and skips the search; the element
/// descriptions are then computed under those exponents.
pub fn alp_compressor(
    parray: &PrimitiveArray,
    elems: &Vec<AlpElem>,
    exponents: Exponents,
    like: Option<&ALPArray>,
) -> (r: VortexResult<Array>)
    requires
        wf(Array::Primitive(*parray)),
        match like {
            Option::Some(al) => exponents == al.exponents,
            Option::None => true,
        },
    ensures
        match r {
            Result::Ok(out) => {
                &&& parray.ptype == PType::F32 || parray.ptype == PType::F64
                &&& elems@.len() == parray.values@.len()
                &&& (forall|i: int|
                    0 <= i < elems@.len() ==> (#[trigger] elems@[i]).bits == parray.values@[i])
                &&& out is Alp
                &&& wf(out)
                &&& alen(out) == parray.values@.len()
                &&& out->Alp_0.exponents == exponents
                &&& *out->Alp_0.encoded is Primitive
                &&& (*out->Alp_0.encoded)->Primitive_0.ptype == (if parray.ptype == PType::F32 {
                    PType::I32
                } else {
                    PType::I64
                })
                &&& (*out->Alp_0.encoded)->Primitive_0.values@ == Seq::new(
                    elems@.len(),
                    |i: int| alp_stored(elems@[i]),
                )
                &&& crate::array::same_validity(
                    (*out->Alp_0.encoded)->Primitive_0.validity,
                    parray.validity,
                )
                &&& match out->Alp_0.patches {
                    Option::Some(p) => {
                        &&& !(forall|i: int| 0 <= i < elems@.len() ==> (#[trigger] elems@[i]).exact)
                        &&& *p is Sparse
                        &&& (*p)->Sparse_0.indices@ == alp_patch_positions(
                            elems@,
                            elems@.len() as int,
                        )
                        &&& *(*p)->Sparse_0.values is Primitive
                        &&& (*(*p)->Sparse_0.values)->Primitive_0.ptype == parray.ptype
                        &&& (*(*p)->Sparse_0.values)->Primitive_0.values@ == alp_patch_bits(
                            elems@,
                            elems@.len() as int,
                        )
                        &&& (*(*p)->Sparse_0.values)->Primitive_0.validity is None
                    },
                    Option::None => forall|i: int|
                        0 <= i < elems@.len() ==> (#[trigger] elems@[i]).exact,
                }
            },
            Result::Err(VortexError::InvalidDType(_)) => !(parray.ptype == PType::F32
                || parray.ptype == PType::F64),
            Result::Err(VortexError::CodecError) => {
                &&& (parray.ptype == PType::F32 || parray.ptype == PType::F64)
                &&& !(elems@.len() == parray.values@.len() && forall|i: int|
                    0 <= i < elems@.len() ==> (#[trigger] elems@[i]).bits == parray.values@[i])
            },
            Result::Err(_) => false,
        },
{
    alp_encode(parray, elems, exponents)
}

/// Decodes an integer child back to floats, given the caller's inverse
/// transform of each stored integer. Patches are overlaid by
/// [`alp_decode_array`].
pub fn alp_decode(parray: &PrimitiveArray, exponents: Exponents, inverse_bits: &Vec<u64>) -> (r:
    VortexResult<PrimitiveArray>)
    requires
        wf(Array::Primitive(*parray)),
    ensures
        match r {
            Result::Ok(out) => {
                &&& (parray.ptype == PType::I32 || parray.ptype == PType::I64)
                &&& inverse_bits@.len() == parray.values@.len()
                &&& out.ptype == (if parray.ptype == PType::I32 {
                    PType::F32
                } else {
                    PType::F64
                })
                &&& out.values@ == inverse_bits@
                &&& crate::array::same_validity(out.validity, parray.validity)
                &&& wf(Array::Primitive(out))
            },
            Result::Err(VortexError::InvalidDType(_)) => !(parray.ptype == PType::I32
                || parray.ptype == PType::I64),
            Result::Err(VortexError::CodecError) => {
                &&& (parray.ptype == PType::I32 || parray.ptype == PType::I64)
                &&& inverse_bits@.len() != parray.values@.len()
            },
            Result::Err(_) => false,
        },
{
    let float_ptype = match parray.ptype {
        PType::I32 => PType::F32,
        PType::I64 => PType::F64,
        _ => {
            let nl = if parray.validity.is_some() {
                Nullability::Nullable
            } else {
                Nullability::NonNullable
            };
            return Result::Err(VortexError::InvalidDType(parray.ptype.dtype(nl)));
        },
    };
    if inverse_bits.len() != parray.values.len() {
        return Result::Err(VortexError::CodecError);
    }
    Result::Ok(
        PrimitiveArray {
            ptype: float_ptype,
            values: clone_vec_copy(inverse_bits),
            validity: crate::array::clone_validity(&parray.validity),
        },
    )
}

/// Overlays the patches of an encoded array onto the caller's inverse
/// transforms: patched positions take their recorded original bits.
#[verifier::loop_isolation(false)]
pub fn alp_decode_array(al: &ALPArray, inverse_bits: &Vec<u64>) -> (r: VortexResult<Vec<u64>>)
    requires
        wf(Array::Alp(*al)),
    ensures
        match r {
            Result::Ok(out) => {
                &&& inverse_bits@.len() == alen(Array::Alp(*al))
                &&& out@.len() == inverse_bits@.len()
                &&& match al.patches {
                    Option::Some(p) => {
                        &&& *p is Sparse
                        &&& *(*p)->Sparse_0.values is Primitive
                        &&& forall|i: int|
                            0 <= i < out@.len() ==> #[trigger] out@[i] == (match find_in(
                                (*p)->Sparse_0.indices@,
                                i,
                            ) {
                                Option::Some(j) => (*(*p)->Sparse_0.values)->Primitive_0.values@[j],
                                Option::None => inverse_bits@[i],
                            })
                    },
                    Option::None => out@ == inverse_bits@,
                }
            },
            Result::Err(VortexError::CodecError) => inverse_bits@.len() != alen(Array::Alp(*al))
                || (match al.patches {
                Option::Some(p) => !(*p is Sparse && *(*p)->Sparse_0.values is Primitive),
                Option::None => false,
            }),
            Result::Err(_) => false,
        },
{
    let n = al.encoded.len();
    if inverse_bits.len() != n {
        return Result::Err(VortexError::CodecError);
    }
    match &al.patches {
        Option::None => Result::Ok(clone_vec_copy(inverse_bits)),
        Option::Some(p) => {
            match &**p {
                Array::Sparse(sp) => {
                    proof {
                        assert(wf(*al.patches->0));
                        assert(*al.patches->0 == Array::Sparse(*sp));
                        assert(wf(Array::Sparse(*sp)));
                    }
                    match &*sp.values {
                        Array::Primitive(pv) => {
                            let mut out = clone_vec_copy(inverse_bits);
                            let m = sp.indices.len();
                            for j in 0..m
                                invariant
                                    out@.len() == inverse_bits@.len(),
                                    forall|i: int|
                                        0 <= i < out@.len() ==> #[trigger] out@[i] == (
                                        match find_in_first(sp.indices@, i, j as int) {
                                            Option::Some(k) => pv.values@[k],
                                            Option::None => inverse_bits@[i],
                                        }),
                            {
                                let pos = sp.indices[j];
                                proof {
                                    assert((sp.indices@[j as int] as nat) < sp.length);
                                    assert(alen(*sp.values) == sp.indices@.len());
                                    assert forall|k: int|
                                        0 <= k < j implies sp.indices@[k] != sp.indices@[
                                        j as int
                                    ] by {
                                        assert(sp.indices@[k] < sp.indices@[j as int]);
                                    }
                                    lemma_find_in_first_none(sp.indices@, pos as int, j as int);
                                }
                                let posu = pos as usize;
                                if posu < out.len() {
                                    out.set(posu, pv.values[j]);
                                }
                                proof {
                                    lemma_find_in_first_step(sp.indices@, j as int);
                                    assert forall|i: int| 0 <= i < out@.len() implies #[trigger] out@[i]
                                        == (match find_in_first(sp.indices@, i, j as int + 1) {
                                        Option::Some(k) => pv.values@[k],
                                        Option::None => inverse_bits@[i],
                                    }) by {
                                        if i == pos as int {
                                            assert(find_in_first(sp.indices@, i, j as int)
                                                is None);
                                            assert(find_in_first(sp.indices@, i, j as int + 1)
                                                == Option::Some(j as int));
                                            assert(out@[i] == pv.values@[j as int]);
                                        } else {
                                            assert(find_in_first(sp.indices@, i, j as int + 1)
                                                == find_in_first(sp.indices@, i, j as int));
                                        }
                                    }
                                }
                            }
                            proof {
                                lemma_find_in_first_full(sp.indices@);
                            }
                            Result::Ok(out)
                        },
                        _ => Result::Err(VortexError::CodecError),
                    }
                },
                _ => Result::Err(VortexError::CodecError),
            }
        },
    }
}

/// The first position of `pos` among `indices[..j]`.
pub open spec fn find_in_first(indices: Seq<u64>, pos: int, j: int) -> Option<int>
    decreases j,
{
    if j <= 0 {
        Option::None
    } else {
        match find_in_first(indices, pos, j - 1) {
            Option::Some(k) => Option::Some(k),
            Option::None => if indices[j - 1] == pos {
                Option::Some(j - 1)
            } else {
                Option::None
            },
        }
    }
}

/// With no match among `indices[..j]`, the bounded search misses.
pub proof fn lemma_find_in_first_none(indices: Seq<u64>, pos: int, j: int)
    requires
        0 <= j <= indices.len(),
        forall|k: int| 0 <= k < j ==> indices[k] != pos,
    ensures
        find_in_first(indices, pos, j) is None,
    decreases j,
{
    if j > 0 {
        lemma_find_in_first_none(indices, pos, j - 1);
    }
}

pub proof fn lemma_find_in_first_step(indices: Seq<u64>, j: int)
    requires
        0 <= j < indices.len(),
    ensures
        forall|pos: int|
            #![trigger find_in_first(indices, pos, j + 1)]
            find_in_first(indices, pos, j + 1) == (if find_in_first(indices, pos, j) is Some {
                find_in_first(indices, pos, j)
            } else if indices[j] == pos {
                Option::Some(j)
            } else {
                Option::<int>::None
            }),
{
}

/// On a strictly increasing list the first match is the match.
pub proof fn lemma_find_in_first_full(indices: Seq<u64>)
    requires
        forall|k: int, l: int| 0 <= k < l < indices.len() ==> indices[k] < indices[l],
    ensures
        forall|pos: int|
            #![trigger find_in(indices, pos)]
            find_in(indices, pos) == find_in_first(indices, pos, indices.len() as int),
{
    assert forall|pos: int| find_in(indices, pos) == find_in_first(
        indices,
        pos,
        indices.len() as int,
    ) by {
        lemma_find_in_vs_first(indices, pos, indices.len() as int);
        if find_in_first(indices, pos, indices.len() as int) is None {
            crate::compute::lemma_find_in_miss(indices, pos);
        }
    }
}

pub proof fn lemma_find_in_vs_first(indices: Seq<u64>, pos: int, j: int)
    requires
        0 <= j <= indices.len(),
        forall|k: int, l: int| 0 <= k < l < indices.len() ==> indices[k] < indices[l],
    ensures
        match find_in_first(indices, pos, j) {
            Option::Some(k) => 0 <= k < j && indices[k] == pos && find_in(indices, pos)
                == Option::Some(k),
            Option::None => forall|k: int| 0 <= k < j ==> indices[k] != pos,
        },
    decreases j,
{
    if j > 0 {
        lemma_find_in_vs_first(indices, pos, j - 1);
        match find_in_first(indices, pos, j) {
            Option::Some(k) => {
                if find_in_first(indices, pos, j - 1) is None {
                    assert(indices[j - 1] == pos);
                    assert(k == j - 1);
                    crate::compute::lemma_find_in_hit(indices, pos, k);
                }
            },
            Option::None => {},
        }
    }
}

/// The round trip of the encoding: where the caller's inverse transforms
/// agree with the original bits on every exact element — which is what
/// `exact` asserts of the decimal transform — overlaying the patches
/// restores the original bit patterns element for element.
pub proof fn lemma_alp_round_trip(elems: Seq<AlpElem>, inverse: Seq<u64>, out: Seq<u64>)
    requires
        elems.len() <= u64::MAX,
        inverse.len() == elems.len(),
        out.len() == elems.len(),
        forall|i: int| 0 <= i < elems.len() && (#[trigger] elems[i]).exact ==> inverse[i] == elems[i].bits,
        forall|i: int|
            0 <= i < out.len() ==> #[trigger] out[i] == (match find_in(
                alp_patch_positions(elems, elems.len() as int),
                i,
            ) {
                Option::Some(j) => alp_patch_bits(elems, elems.len() as int)[j],
                Option::None => inverse[i],
            }),
    ensures
        forall|i: int| 0 <= i < out.len() ==> #[trigger] out[i] == elems[i].bits,
{
    let n = elems.len() as int;
    lemma_alp_patches_wf(elems, n);
    assert forall|i: int| 0 <= i < out.len() implies #[trigger] out[i] == elems[i].bits by {
        let positions = alp_patch_positions(elems, n);
        if elems[i].exact {
            if find_in(positions, i) is Some {
                let j = find_in(positions, i)->0;
                lemma_find_in_gives_match(positions, i);
                assert(!elems[positions[j] as int].exact);
            }
        } else {
            assert(positions.contains(i as u64));
            let k = choose|k: int| 0 <= k < positions.len() && positions[k] == i as u64;
            assert forall|l: int| 0 <= l < k implies positions[l] != i as u64 by {
                assert(positions[l] < positions[k]);
            }
            crate::compute::lemma_find_in_hit(positions, i, k);
        }
    }
}

/// A successful spec-level search returns a true match.
pub proof fn lemma_find_in_gives_match(indices: Seq<u64>, pos: int)
    requires
        find_in(indices, pos) is Some,
    ensures
        ({
            let j = find_in(indices, pos)->0;
            &&& 0 <= j < indices.len()
            &&& indices[j] == pos
        }),
    decreases indices.len(),
{
    if indices.len() > 0 && indices[0] != pos {
        lemma_find_in_gives_match(indices.drop_first(), pos);
    }
}

/// Picks the exponent pair minimizing the caller-computed cost table;
/// ties break toward the lower `e`, then the lower `f`.
#[verifier::loop_isolation(false)]
pub fn alp_choose_exponents(costs: &Vec<Vec<u64>>) -> (r: VortexResult<Exponents>)
    ensures
        match r {
            Result::Ok(exp) => {
                &&& costs@.len() > 0
                &&& (forall|e: int| 0 <= e < costs@.len() ==> (#[trigger] costs@[e])@.len()
                    == costs@[0]@.len())
                &&& costs@[0]@.len() > 0
                &&& (exp.e as int) < costs@.len()
                &&& (exp.f as int) < costs@[0]@.len()
                &&& forall|e: int, f: int|
                    #![trigger costs@[e]@[f]]
                    0 <= e < costs@.len() && 0 <= f < costs@[0]@.len() ==> {
                        let best = costs@[exp.e as int]@[exp.f as int];
                        let cand = costs@[e]@[f];
                        best < cand || (best == cand && ((exp.e as int) < e || (exp.e as int == e
                            && exp.f as int <= f)))
                    }
            },
            Result::Err(VortexError::CodecError) => !(costs@.len() > 0 && costs@.len() <= 256
                && costs@[0]@.len() > 0 && costs@[0]@.len() <= 256 && forall|e: int|
                0 <= e < costs@.len() ==> (#[trigger] costs@[e])@.len() == costs@[0]@.len()),
            Result::Err(_) => false,
        },
{
    let ne = costs.len();
    if ne == 0 || ne > 256 {
        return Result::Err(VortexError::CodecError);
    }
    let nf = costs[0].len();
    if nf == 0 || nf > 256 {
        return Result::Err(VortexError::CodecError);
    }
    for e in 0..ne
        invariant
            forall|k: int| 0 <= k < e ==> (#[trigger] costs@[k])@.len() == costs@[0]@.len(),
    {
        if costs[e].len() != nf {
            return Result::Err(VortexError::CodecError);
        }
    }
    let mut best_e: usize = 0;
    let mut best_f: usize = 0;
    let mut best: u64 = costs[0][0];
    for e in 0..ne
        invariant
            best_e < ne,
            best_f < nf,
            best == costs@[best_e as int]@[best_f as int],
            (best_e as int) < e || (best_e == 0 && best_f == 0),
            forall|k: int, l: int|
                #![trigger costs@[k]@[l]]
                0 <= k < e && 0 <= l < nf ==> {
                    let cand = costs@[k]@[l];
                    best < cand || (best == cand && ((best_e as int) < k || (best_e as int == k
                        && best_f as int <= l)))
                },
    {
        for f in 0..nf
            invariant
                best_e < ne,
                best_f < nf,
                best == costs@[best_e as int]@[best_f as int],
                (best_e as int) < e || (best_e as int == e && (best_f as int) < f) || (best_e
                    == 0 && best_f == 0),
                forall|k: int, l: int|
                    #![trigger costs@[k]@[l]]
                    0 <= k < e && 0 <= l < nf ==> {
                        let cand = costs@[k]@[l];
                        best < cand || (best == cand && ((best_e as int) < k || (best_e as int == k
                            && best_f as int <= l)))
                    },
                forall|l: int|
                    #![trigger costs@[e as int]@[l]]
                    0 <= l < f ==> {
                        let cand = costs@[e as int]@[l];
                        best < cand || (best == cand && ((best_e as int) < e as int || (best_e as int
                            == e as int && best_f as int <= l)))
                    },
        {
            let cand = costs[e][f];
            if cand < best {
                best = cand;
                best_e = e;
                best_f = f;
            }
        }
    }
    Result::Ok(Exponents { e: best_e as u8, f: best_f as u8 })
}

/// The process-wide identity of the adaptive lossless float encoding.
pub struct ALPEncoding;

impl ALPEncoding {
    /// The stable identifier under which this encoding is persisted.
    pub fn id(&self) -> (r: EncodingKind)
        ensures
            r == EncodingKind::Alp,
    {
        EncodingKind::Alp
    }
}

} // verus!
