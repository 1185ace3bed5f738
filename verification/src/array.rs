//! The typed array hierarchy: every encoding is a first-class array that can
//! serve as the child of another encoding. Arrays are immutable once
//! constructed. Each array has a mathematical view: a sequence of [`Value`]s,
//! with `Null` at invalid positions.

use vstd::prelude::*;

use crate::bitmap::{bitmap_elems, bitmap_nbytes};
use crate::bitmap::bitmap_serialized_size;
use crate::dtype::{clone_vec_copy, dtype_clone, dtype_matches, lemma_dtype_matches_trans, DType, Nullability, PType};
use crate::scalar::{Scalar, Value};

verus! {

/// Stable identifier of an encoding.
#[derive(Clone, Copy, PartialEq, Eq, Structural, Debug)]
pub enum EncodingKind {
    Primitive,
    Bool,
    VarBin,
    Struct,
    Chunked,
    Constant,
    Sparse,
    Alp,
    RoaringBool,
}

/// Flat buffer of 64-bit element patterns with an optional validity mask.
pub struct PrimitiveArray {
    pub ptype: PType,
    pub values: Vec<u64>,
    pub validity: Option<Vec<bool>>,
}

/// Packed booleans with an optional validity mask.
pub struct BoolArray {
    pub values: Vec<bool>,
    pub validity: Option<Vec<bool>>,
}

/// Variable-width byte strings: `offsets` has one more entry than there are
/// elements; element `i` is `bytes[offsets[i]..offsets[i+1]]`.
pub struct VarBinArray {
    pub is_utf8: bool,
    pub offsets: Vec<usize>,
    pub bytes: Vec<u8>,
    pub validity: Option<Vec<bool>>,
}

/// Named columns of equal length.
pub struct StructArray {
    pub names: Vec<Vec<u8>>,
    pub fields: Vec<Array>,
    pub length: usize,
}

/// Same-typed chunks concatenated logically.
pub struct ChunkedArray {
    pub chunks: Vec<Array>,
    pub dtype: DType,
}

/// One repeated value.
pub struct ConstantArray {
    pub scalar: Scalar,
    pub length: usize,
}

/// Values at strictly increasing positions; `Null` everywhere else.
pub struct SparseArray {
    pub indices: Vec<u64>,
    pub values: Box<Array>,
    pub length: usize,
}

/// The decimal exponent pair of the adaptive lossless float encoding.
#[derive(Clone, Copy, PartialEq, Eq, Structural, Debug)]
pub struct Exponents {
    pub e: u8,
    pub f: u8,
}

/// Adaptive lossless float encoding: an integer child holding
/// `round(value * 10^e * 10^-f)` per element, plus a sparse patches child
/// holding the original bit patterns of values that do not round-trip.
pub struct ALPArray {
    pub encoded: Box<Array>,
    pub exponents: Exponents,
    pub patches: Option<Box<Array>>,
    pub dtype: DType,
}

/// Booleans as a roaring bitmap of set positions.
pub struct RoaringBoolArray {
    pub bitmap: croaring::Bitmap,
    pub length: usize,
}

/// The closed set of encodings.
pub enum Array {
    Primitive(PrimitiveArray),
    Bool(BoolArray),
    VarBin(VarBinArray),
    Struct(StructArray),
    Chunked(ChunkedArray),
    Constant(ConstantArray),
    Sparse(SparseArray),
    Alp(ALPArray),
    RoaringBool(RoaringBoolArray),
}

/// Validity of position `i` under an optional mask: absent mask means all
/// positions are valid.
pub open spec fn valid_at(validity: Option<Vec<bool>>, i: int) -> bool {
    match validity {
        Option::Some(v) => v@[i],
        Option::None => true,
    }
}

pub open spec fn validity_len_ok(validity: Option<Vec<bool>>, n: int) -> bool {
    match validity {
        Option::Some(v) => v@.len() == n,
        Option::None => true,
    }
}

pub open spec fn validity_nullability(validity: Option<Vec<bool>>) -> Nullability {
    match validity {
        Option::Some(v) => Nullability::Nullable,
        Option::None => Nullability::NonNullable,
    }
}

/// The position of `pos` within a sparse index list, if present.
pub open spec fn find_in(indices: Seq<u64>, pos: int) -> Option<int>
    decreases indices.len(),
{
    if indices.len() == 0 {
        Option::None
    } else if indices[0] == pos {
        Option::Some(0int)
    } else {
        match find_in(indices.drop_first(), pos) {
            Option::Some(j) => Option::Some(j + 1),
            Option::None => Option::None,
        }
    }
}

/// The element of a sparse array at position `pos`.
pub open spec fn sparse_at(indices: Seq<u64>, vals: Seq<Value>, pos: int) -> Value {
    match find_in(indices, pos) {
        Option::Some(j) => vals[j],
        Option::None => Value::Null,
    }
}

impl Array {
    pub open spec fn kind(self) -> EncodingKind {
        match self {
            Array::Primitive(_) => EncodingKind::Primitive,
            Array::Bool(_) => EncodingKind::Bool,
            Array::VarBin(_) => EncodingKind::VarBin,
            Array::Struct(_) => EncodingKind::Struct,
            Array::Chunked(_) => EncodingKind::Chunked,
            Array::Constant(_) => EncodingKind::Constant,
            Array::Sparse(_) => EncodingKind::Sparse,
            Array::Alp(_) => EncodingKind::Alp,
            Array::RoaringBool(_) => EncodingKind::RoaringBool,
        }
    }
}

/// Logical length of an array.
pub open spec fn alen(a: Array) -> nat
    decreases a, 0nat,
{
    match a {
        Array::Primitive(p) => p.values@.len(),
        Array::Bool(b) => b.values@.len(),
        Array::VarBin(v) => (v.offsets@.len() - 1) as nat,
        Array::Struct(s) => s.length as nat,
        Array::Chunked(c) => sum_alens_from(c.chunks@, 0),
        Array::Constant(c) => c.length as nat,
        Array::Sparse(s) => s.length as nat,
        Array::Alp(al) => alen(*al.encoded),
        Array::RoaringBool(r) => r.length as nat,
    }
}

/// Sum of the lengths of `s[i..]`.
pub open spec fn sum_alens_from(s: Seq<Array>, i: int) -> nat
    decreases s, s.len() - i,
{
    if i < 0 || i >= s.len() {
        0nat
    } else {
        alen(s[i]) + sum_alens_from(s, i + 1)
    }
}

/// Well-formedness: the construction invariant of every encoding.
pub open spec fn wf(a: Array) -> bool
    decreases a, 0nat,
{
    match a {
        Array::Primitive(p) => validity_len_ok(p.validity, p.values@.len() as int),
        Array::Bool(b) => validity_len_ok(b.validity, b.values@.len() as int),
        Array::VarBin(v) => {
            &&& v.offsets@.len() >= 1
            &&& v.offsets@[0] == 0
            &&& v.offsets@[v.offsets@.len() - 1] == v.bytes@.len()
            &&& forall|i: int|
                0 <= i < v.offsets@.len() - 1 ==> #[trigger] v.offsets@[i] <= v.offsets@[i + 1]
            &&& validity_len_ok(v.validity, v.offsets@.len() - 1)
        },
        Array::Struct(s) => {
            &&& s.names@.len() == s.fields@.len()
            &&& forall|k: int|
                0 <= k < s.fields@.len() ==> wf(#[trigger] s.fields@[k]) && alen(s.fields@[k])
                    == s.length as nat
        },
        Array::Chunked(c) => {
            &&& forall|i: int|
                0 <= i < c.chunks@.len() ==> wf(#[trigger] c.chunks@[i]) && has_dtype(
                    c.chunks@[i],
                    c.dtype,
                ) && !(c.chunks@[i] is Chunked)
            &&& sum_alens_from(c.chunks@, 0) <= usize::MAX
        },
        Array::Constant(c) => true,
        Array::Sparse(s) => {
            &&& wf(*s.values)
            &&& s.indices@.len() == alen(*s.values)
            &&& forall|i: int| 0 <= i < s.indices@.len() ==> (s.indices@[i] as nat) < s.length
            &&& forall|i: int, j: int|
                0 <= i < j < s.indices@.len() ==> s.indices@[i] < s.indices@[j]
        },
        Array::Alp(al) => {
            &&& wf(*al.encoded)
            &&& alp_child_dtype_ok(*al.encoded, al.dtype)
            &&& match al.patches {
                Option::Some(p) => wf(*p) && *p is Sparse && alen(*p) == alen(*al.encoded),
                Option::None => true,
            }
        },
        Array::RoaringBool(r) => {
            &&& bitmap_elems(r.bitmap).finite()
            &&& forall|v: u32| bitmap_elems(r.bitmap).contains(v) ==> (v as nat) < r.length
            &&& r.length <= u32::MAX
        },
    }
}

/// The float type an integer-encoded child decodes to: any 32- or 64-bit
/// integer child, of either signedness, carries the float of its width.
pub open spec fn alp_child_dtype_ok(encoded: Array, dtype: DType) -> bool {
    match encoded {
        Array::Primitive(p) => match p.ptype {
            PType::I32 | PType::U32 => dtype == PType::F32.spec_dtype(
                validity_nullability(p.validity),
            ),
            PType::I64 | PType::U64 => dtype == PType::F64.spec_dtype(
                validity_nullability(p.validity),
            ),
            _ => false,
        },
        _ => false,
    }
}

/// Whether the element-sequence view below is defined for this array.
/// Struct arrays are viewed column-wise instead; float decoding is the
/// caller's work, so an ALP array is read through its children.
pub open spec fn viewable(a: Array) -> bool
    decreases a, 0nat,
{
    match a {
        Array::Primitive(_) => true,
        Array::Bool(_) => true,
        Array::VarBin(_) => true,
        Array::Struct(_) => false,
        Array::Chunked(c) => forall|i: int|
            0 <= i < c.chunks@.len() ==> viewable(#[trigger] c.chunks@[i]),
        Array::Constant(_) => true,
        Array::Sparse(s) => viewable(*s.values),
        Array::Alp(_) => false,
        Array::RoaringBool(_) => true,
    }
}

/// The view: the sequence of logical element values.
pub open spec fn aview(a: Array) -> Seq<Value>
    decreases a, 0nat,
{
    match a {
        Array::Primitive(p) => Seq::new(
            p.values@.len(),
            |i: int|
                if valid_at(p.validity, i) {
                    Value::Prim(p.ptype, p.values@[i])
                } else {
                    Value::Null
                },
        ),
        Array::Bool(b) => Seq::new(
            b.values@.len(),
            |i: int|
                if valid_at(b.validity, i) {
                    Value::Bool(b.values@[i])
                } else {
                    Value::Null
                },
        ),
        Array::VarBin(v) => Seq::new(
            (v.offsets@.len() - 1) as nat,
            |i: int|
                if valid_at(v.validity, i) {
                    Value::Bytes(v.bytes@.subrange(v.offsets@[i] as int, v.offsets@[i + 1] as int))
                } else {
                    Value::Null
                },
        ),
        Array::Struct(_) => Seq::empty(),
        Array::Chunked(c) => cat_views_from(c.chunks@, 0),
        Array::Constant(c) => Seq::new(c.length as nat, |i: int| c.scalar.value()),
        Array::Sparse(s) => Seq::new(
            s.length as nat,
            |i: int| sparse_at(s.indices@, aview(*s.values), i),
        ),
        Array::Alp(_) => Seq::empty(),
        Array::RoaringBool(r) => Seq::new(
            r.length as nat,
            |i: int| Value::Bool(bitmap_elems(r.bitmap).contains(i as u32)),
        ),
    }
}

/// Concatenation of the views of `s[i..]`.
pub open spec fn cat_views_from(s: Seq<Array>, i: int) -> Seq<Value>
    decreases s, s.len() - i,
{
    if i < 0 || i >= s.len() {
        Seq::empty()
    } else {
        aview(s[i]) + cat_views_from(s, i + 1)
    }
}

/// Whether `d` is a logical type of array `a`.
pub open spec fn has_dtype(a: Array, d: DType) -> bool
    decreases a, 0nat,
{
    match a {
        Array::Primitive(p) => d == p.ptype.spec_dtype(validity_nullability(p.validity)),
        Array::Bool(b) => d == DType::Bool(validity_nullability(b.validity)),
        Array::VarBin(v) => if v.is_utf8 {
            d == DType::Utf8(validity_nullability(v.validity))
        } else {
            d == DType::Binary(validity_nullability(v.validity))
        },
        Array::Struct(s) => match d {
            DType::Struct(names, types, n) => {
                &&& n == Nullability::NonNullable
                &&& names@.len() == s.names@.len()
                &&& types@.len() == s.fields@.len()
                &&& forall|i: int| 0 <= i < names@.len() ==> names@[i]@ == s.names@[i]@
                &&& forall|i: int|
                    0 <= i < types@.len() ==> has_dtype(#[trigger] s.fields@[i], types@[i])
            },
            _ => false,
        },
        Array::Chunked(c) => dtype_matches(c.dtype, d),
        Array::Constant(c) => scalar_has_dtype(c.scalar, d),
        Array::Sparse(s) => match *s.values {
            Array::Primitive(pv) => d == pv.ptype.spec_dtype(Nullability::Nullable),
            _ => has_dtype(*s.values, d),
        },
        Array::Alp(al) => dtype_matches(al.dtype, d),
        Array::RoaringBool(_) => d == DType::Bool(Nullability::NonNullable),
    }
}

/// The logical type of a scalar.
pub open spec fn scalar_has_dtype(s: Scalar, d: DType) -> bool {
    match s {
        Scalar::Null(dt) => dtype_matches(dt, d),
        Scalar::Bool(_) => d == DType::Bool(Nullability::NonNullable),
        Scalar::Prim(p, _) => d == p.spec_dtype(Nullability::NonNullable),
        Scalar::Utf8(_) => d == DType::Utf8(Nullability::NonNullable),
        Scalar::Binary(_) => d == DType::Binary(Nullability::NonNullable),
    }
}

/// Serialized byte count, saturating at `usize::MAX`.
pub open spec fn nbytes_of(a: Array) -> nat
    decreases a, 0nat,
{
    match a {
        Array::Primitive(p) => sat_cap(
            p.values@.len() * p.ptype.spec_byte_width() + validity_bytes(p.validity),
        ),
        Array::Bool(b) => sat_cap(((b.values@.len() + 7) / 8 + validity_bytes(b.validity)) as int),
        Array::VarBin(v) => sat_cap(
            (v.bytes@.len() + v.offsets@.len() * 8 + validity_bytes(v.validity)) as int,
        ),
        Array::Struct(s) => sum_nbytes_from(s.fields@, 0),
        Array::Chunked(c) => sum_nbytes_from(c.chunks@, 0),
        Array::Constant(c) => scalar_nbytes(c.scalar),
        Array::Sparse(s) => sat_cap(s.indices@.len() * 8 + nbytes_of(*s.values) as int),
        Array::Alp(al) => sat_cap(
            nbytes_of(*al.encoded) + (match al.patches {
                Option::Some(p) => nbytes_of(*p),
                Option::None => 0nat,
            }) as int,
        ),
        Array::RoaringBool(r) => bitmap_nbytes(r.bitmap) as nat,
    }
}

pub open spec fn sat_cap(n: int) -> nat {
    if n > usize::MAX {
        usize::MAX as nat
    } else {
        n as nat
    }
}

pub open spec fn validity_bytes(validity: Option<Vec<bool>>) -> nat {
    match validity {
        Option::Some(v) => v@.len(),
        Option::None => 0nat,
    }
}

pub open spec fn scalar_nbytes(s: Scalar) -> nat {
    match s {
        Scalar::Null(_) => 1nat,
        Scalar::Bool(_) => 1nat,
        Scalar::Prim(p, _) => (1 + p.spec_byte_width()) as nat,
        Scalar::Utf8(b) => sat_cap((1 + b@.len()) as int),
        Scalar::Binary(b) => sat_cap((1 + b@.len()) as int),
    }
}

/// Sum of serialized byte counts of `s[i..]`, saturating.
pub open spec fn sum_nbytes_from(s: Seq<Array>, i: int) -> nat
    decreases s, s.len() - i,
{
    if i < 0 || i >= s.len() {
        0nat
    } else {
        sat_cap(nbytes_of(s[i]) + sum_nbytes_from(s, i + 1) as int)
    }
}


/// Two optional validity masks with the same contents.
pub open spec fn same_validity(a: Option<Vec<bool>>, b: Option<Vec<bool>>) -> bool {
    match (a, b) {
        (Option::Some(x), Option::Some(y)) => x@ == y@,
        (Option::None, Option::None) => true,
        _ => false,
    }
}

/// Copies an optional validity mask.
pub fn clone_validity(v: &Option<Vec<bool>>) -> (r: Option<Vec<bool>>)
    ensures
        same_validity(r, *v),
{
    match v {
        Option::Some(m) => Option::Some(clone_vec_copy(m)),
        Option::None => Option::None,
    }
}

impl PrimitiveArray {
    pub fn new(ptype: PType, values: Vec<u64>, validity: Option<Vec<bool>>) -> (r: Self)
        requires
            validity_len_ok(validity, values@.len() as int),
        ensures
            r.ptype == ptype,
            r.values@ == values@,
            same_validity(r.validity, validity),
            wf(Array::Primitive(r)),
    {
        Self { ptype, values, validity }
    }
}

impl BoolArray {
    pub fn new(values: Vec<bool>, validity: Option<Vec<bool>>) -> (r: Self)
        requires
            validity_len_ok(validity, values@.len() as int),
        ensures
            r.values@ == values@,
            same_validity(r.validity, validity),
            wf(Array::Bool(r)),
    {
        Self { values, validity }
    }

    /// Builds a non-nullable boolean array from plain values.
    pub fn from_vec(values: Vec<bool>) -> (r: Self)
        ensures
            r.values@ == values@,
            r.validity is None,
            wf(Array::Bool(r)),
            aview(Array::Bool(r)) == Seq::new(values@.len(), |i: int| Value::Bool(values@[i])),
    {
        let r = Self { values, validity: Option::None };
        proof {
            assert(aview(Array::Bool(r)) =~= Seq::new(
                r.values@.len(),
                |i: int| Value::Bool(r.values@[i]),
            ));
        }
        r
    }
}

impl Array {
    /// Logical length.
    #[verifier::loop_isolation(false)]
    pub fn len(&self) -> (r: usize)
        requires
            wf(*self),
        ensures
            r as nat == alen(*self),
        decreases *self,
    {
        match self {
            Array::Primitive(p) => p.values.len(),
            Array::Bool(b) => b.values.len(),
            Array::VarBin(v) => v.offsets.len() - 1,
            Array::Struct(s) => s.length,
            Array::Chunked(c) => {

                let mut acc: usize = 0;
                let n = c.chunks.len();
                for i in 0..n
                    invariant
                        acc as nat + sum_alens_from(c.chunks@, i as int) == sum_alens_from(
                            c.chunks@,
                            0,
                        ),
                {
                    proof {
                        assert(sum_alens_from(c.chunks@, i as int) == alen(c.chunks@[i as int])
                            + sum_alens_from(c.chunks@, i as int + 1));
                        assert(wf(self->Chunked_0.chunks@[i as int]));
                        assert(wf(c.chunks@[i as int]));
                    }
                    let l = c.chunks[i].len();
                    acc = acc + l;
                }
                acc
            },
            Array::Constant(c) => c.length,
            Array::Sparse(s) => s.length,
            Array::Alp(al) => al.encoded.len(),
            Array::RoaringBool(r) => r.length,
        }
    }

    pub fn is_empty(&self) -> (r: bool)
        requires
            wf(*self),
        ensures
            r == (alen(*self) == 0),
    {
        self.len() == 0
    }

    /// The encoding of this array.
    pub fn encoding(&self) -> (r: EncodingKind)
        ensures
            r == self.kind(),
    {
        match self {
            Array::Primitive(_) => EncodingKind::Primitive,
            Array::Bool(_) => EncodingKind::Bool,
            Array::VarBin(_) => EncodingKind::VarBin,
            Array::Struct(_) => EncodingKind::Struct,
            Array::Chunked(_) => EncodingKind::Chunked,
            Array::Constant(_) => EncodingKind::Constant,
            Array::Sparse(_) => EncodingKind::Sparse,
            Array::Alp(_) => EncodingKind::Alp,
            Array::RoaringBool(_) => EncodingKind::RoaringBool,
        }
    }
}



/// Saturating addition at `usize::MAX`.
pub fn sat_add(a: usize, b: usize) -> (r: usize)
    ensures
        r as nat == sat_cap(a + b),
{
    if a > usize::MAX - b {
        usize::MAX
    } else {
        a + b
    }
}

/// Saturating multiplication by a small element width.
pub fn sat_mul_width(a: usize, w: usize) -> (r: usize)
    requires
        w == 1 || w == 2 || w == 4 || w == 8,
    ensures
        r as nat == sat_cap(a * w),
{
    if w == 1 {
        a
    } else if w == 2 {
        if a <= usize::MAX / 2 {
            a * 2
        } else {
            usize::MAX
        }
    } else if w == 4 {
        if a <= usize::MAX / 4 {
            a * 4
        } else {
            usize::MAX
        }
    } else {
        if a <= usize::MAX / 8 {
            a * 8
        } else {
            usize::MAX
        }
    }
}

/// Number of bytes of a packed bit vector of `n` entries.
pub fn packed_bool_bytes(n: usize) -> (r: usize)
    ensures
        r as nat == (n + 7) / 8,
{
    let q = n / 8;
    let m = n % 8;
    if m == 0 {
        q
    } else {
        proof {
            assert((n + 7) / 8 == n / 8 + 1) by (nonlinear_arith)
                requires
                    n % 8 != 0,
                    n >= 0,
            ;
        }
        q + 1
    }
}

impl Array {
    /// The logical type.
    #[verifier::loop_isolation(false)]
    pub fn dtype(&self) -> (r: DType)
        requires
            wf(*self),
        ensures
            has_dtype(*self, r),
        decreases *self,
    {
        match self {
            Array::Primitive(p) => {
                let n = if p.validity.is_some() {
                    Nullability::Nullable
                } else {
                    Nullability::NonNullable
                };
                p.ptype.dtype(n)
            },
            Array::Bool(b) => {
                let n = if b.validity.is_some() {
                    Nullability::Nullable
                } else {
                    Nullability::NonNullable
                };
                DType::Bool(n)
            },
            Array::VarBin(v) => {
                let n = if v.validity.is_some() {
                    Nullability::Nullable
                } else {
                    Nullability::NonNullable
                };
                if v.is_utf8 {
                    DType::Utf8(n)
                } else {
                    DType::Binary(n)
                }
            },
            Array::Struct(s) => {
                let mut names2: Vec<Vec<u8>> = Vec::new();
                for i in 0..s.names.len()
                    invariant
                        names2@.len() == i,
                        forall|j: int| 0 <= j < i ==> #[trigger] names2@[j]@ == s.names@[j]@,
                {
                    names2.push(clone_vec_copy(&s.names[i]));
                }
                let mut types2: Vec<DType> = Vec::new();
                for i in 0..s.fields.len()
                    invariant
                        types2@.len() == i,
                        forall|j: int| 0 <= j < i ==> has_dtype(s.fields@[j], #[trigger] types2@[j]),
                {
                    proof {
                        assert(decreases_to!(*self => s.fields@[i as int]));
                    }
                    types2.push(s.fields[i].dtype());
                }
                DType::Struct(names2, types2, Nullability::NonNullable)
            },
            Array::Chunked(c) => dtype_clone(&c.dtype),
            Array::Constant(c) => match &c.scalar {
                Scalar::Null(dt) => dtype_clone(dt),
                Scalar::Bool(_) => DType::Bool(Nullability::NonNullable),
                Scalar::Prim(p, _) => p.dtype(Nullability::NonNullable),
                Scalar::Utf8(_) => DType::Utf8(Nullability::NonNullable),
                Scalar::Binary(_) => DType::Binary(Nullability::NonNullable),
            },
            Array::Sparse(s) => match &*s.values {
                Array::Primitive(pv) => pv.ptype.dtype(Nullability::Nullable),
                _ => s.values.dtype(),
            },
            Array::Alp(al) => dtype_clone(&al.dtype),
            Array::RoaringBool(_) => DType::Bool(Nullability::NonNullable),
        }
    }

    /// Serialized byte count, saturating at `usize::MAX`.
    #[verifier::loop_isolation(false)]
    pub fn nbytes(&self) -> (r: usize)
        requires
            wf(*self),
        ensures
            r as nat == nbytes_of(*self),
        decreases *self,
    {
        match self {
            Array::Primitive(p) => {
                let vb = match &p.validity {
                    Option::Some(v) => v.len(),
                    Option::None => 0,
                };
                sat_add(sat_mul_width(p.values.len(), p.ptype.byte_width()), vb)
            },
            Array::Bool(b) => {
                let vb = match &b.validity {
                    Option::Some(v) => v.len(),
                    Option::None => 0,
                };
                sat_add(packed_bool_bytes(b.values.len()), vb)
            },
            Array::VarBin(v) => {
                let vb = match &v.validity {
                    Option::Some(m) => m.len(),
                    Option::None => 0,
                };
                sat_add(sat_add(v.bytes.len(), sat_mul_width(v.offsets.len(), 8)), vb)
            },
            Array::Struct(s) => {
                let mut acc: usize = 0;
                for i in 0..s.fields.len()
                    invariant
                        acc as nat == partial_sum_nbytes(s.fields@, i as int),
                {
                    proof {
                        assert(decreases_to!(*self => s.fields@[i as int]));
                        assert(wf(s.fields@[i as int]));
                    }
                    acc = sat_add(acc, s.fields[i].nbytes());
                    proof {
                        lemma_partial_sum_nbytes_step(s.fields@, i as int);
                    }
                }
                proof {
                    lemma_partial_sum_nbytes_full(s.fields@);
                }
                acc
            },
            Array::Chunked(c) => {
                let mut acc: usize = 0;
                for i in 0..c.chunks.len()
                    invariant
                        acc as nat == partial_sum_nbytes(c.chunks@, i as int),
                {
                    proof {
                        assert(decreases_to!(*self => c.chunks@[i as int]));
                        assert(wf(c.chunks@[i as int]));
                    }
                    acc = sat_add(acc, c.chunks[i].nbytes());
                    proof {
                        lemma_partial_sum_nbytes_step(c.chunks@, i as int);
                    }
                }
                proof {
                    lemma_partial_sum_nbytes_full(c.chunks@);
                }
                acc
            },
            Array::Constant(c) => match &c.scalar {
                Scalar::Null(_) => 1,
                Scalar::Bool(_) => 1,
                Scalar::Prim(p, _) => 1 + p.byte_width(),
                Scalar::Utf8(b) => sat_add(1, b.len()),
                Scalar::Binary(b) => sat_add(1, b.len()),
            },
            Array::Sparse(s) => sat_add(sat_mul_width(s.indices.len(), 8), s.values.nbytes()),
            Array::Alp(al) => {
                let pb = match &al.patches {
                    Option::Some(p) => {
                        proof {
                            assert(decreases_to!(*self => *al.patches->0));
                        }
                        (**p).nbytes()
                    },
                    Option::None => 0,
                };
                sat_add((*al.encoded).nbytes(), pb)
            },
            Array::RoaringBool(r) => bitmap_serialized_size(&r.bitmap),
        }
    }
}

/// Saturating sum of the byte counts of `s[..i]`, the loop-facing mirror of
/// `sum_nbytes_from`.
pub open spec fn partial_sum_nbytes(s: Seq<Array>, i: int) -> nat
    decreases i,
{
    if i <= 0 {
        0nat
    } else {
        sat_cap(partial_sum_nbytes(s, i - 1) + nbytes_of(s[i - 1]) as int)
    }
}

proof fn lemma_partial_sum_nbytes_step(s: Seq<Array>, i: int)
    requires
        0 <= i < s.len(),
    ensures
        sat_cap(partial_sum_nbytes(s, i) + nbytes_of(s[i]) as int) == partial_sum_nbytes(
            s,
            i + 1,
        ),
{
}

proof fn lemma_partial_sum_nbytes_full(s: Seq<Array>)
    ensures
        partial_sum_nbytes(s, s.len() as int) == sum_nbytes_from(s, 0),
{
    lemma_partial_is_sat_raw(s, s.len() as int);
    lemma_from_is_sat_raw(s, 0);
    lemma_raw_prefix_suffix(s, s.len() as int);
}

/// Unclamped byte count of `s[..i]`.
spec fn raw_prefix_nbytes(s: Seq<Array>, i: int) -> nat
    decreases i,
{
    if i <= 0 {
        0nat
    } else {
        raw_prefix_nbytes(s, i - 1) + nbytes_of(s[i - 1])
    }
}

/// Unclamped byte count of `s[i..]`.
spec fn raw_suffix_nbytes(s: Seq<Array>, i: int) -> nat
    decreases s.len() - i,
{
    if i < 0 || i >= s.len() {
        0nat
    } else {
        nbytes_of(s[i]) + raw_suffix_nbytes(s, i + 1)
    }
}

proof fn lemma_partial_is_sat_raw(s: Seq<Array>, i: int)
    requires
        0 <= i <= s.len(),
    ensures
        partial_sum_nbytes(s, i) == sat_cap(raw_prefix_nbytes(s, i) as int),
    decreases i,
{
    if i > 0 {
        lemma_partial_is_sat_raw(s, i - 1);
    }
}

proof fn lemma_from_is_sat_raw(s: Seq<Array>, i: int)
    requires
        0 <= i <= s.len(),
    ensures
        sum_nbytes_from(s, i) == sat_cap(raw_suffix_nbytes(s, i) as int),
    decreases s.len() - i,
{
    if i < s.len() {
        lemma_from_is_sat_raw(s, i + 1);
    }
}

proof fn lemma_raw_prefix_suffix(s: Seq<Array>, i: int)
    requires
        0 <= i <= s.len(),
    ensures
        raw_prefix_nbytes(s, i) + raw_suffix_nbytes(s, i) == raw_suffix_nbytes(s, 0),
    decreases i,
{
    if i > 0 {
        lemma_raw_prefix_suffix(s, i - 1);
    }
}

/// An array keeps its logical type across structural type equality.
pub proof fn lemma_has_dtype_respects(x: Array, d1: DType, d2: DType)
    requires
        has_dtype(x, d1),
        dtype_matches(d1, d2),
    ensures
        has_dtype(x, d2),
    decreases x, 0nat,
{
    match x {
        Array::Struct(s) => {
            match (d1, d2) {
                (DType::Struct(n1, t1, x1), DType::Struct(n2, t2, x2)) => {
                    assert forall|i: int| 0 <= i < t2@.len() implies has_dtype(
                        #[trigger] s.fields@[i],
                        t2@[i],
                    ) by {
                        assert(has_dtype(s.fields@[i], t1@[i]));
                        assert(dtype_matches(t1@[i], t2@[i]));
                        lemma_has_dtype_respects(s.fields@[i], t1@[i], t2@[i]);
                    }
                },
                _ => {},
            }
        },
        Array::Chunked(c) => {
            lemma_dtype_matches_trans(c.dtype, d1, d2);
        },
        Array::Alp(al) => {
            lemma_dtype_matches_trans(al.dtype, d1, d2);
        },
        Array::Constant(c) => {
            match c.scalar {
                Scalar::Null(dt) => {
                    lemma_dtype_matches_trans(dt, d1, d2);
                },
                _ => {},
            }
        },
        Array::Sparse(s) => {
            match *s.values {
                Array::Primitive(_) => {},
                _ => {
                    lemma_has_dtype_respects(*s.values, d1, d2);
                },
            }
        },
        _ => {},
    }
}


/// One step of the concatenated-views recursion.
pub proof fn lemma_cat_views_unfold(s: Seq<Array>, i: int)
    requires
        0 <= i < s.len(),
    ensures
        cat_views_from(s, i) == aview(s[i]) + cat_views_from(s, i + 1),
{
}

/// One step of the summed-lengths recursion.
pub proof fn lemma_sum_alens_unfold(s: Seq<Array>, i: int)
    requires
        0 <= i < s.len(),
    ensures
        sum_alens_from(s, i) == alen(s[i]) + sum_alens_from(s, i + 1),
{
}


/// The second mask is present exactly when the first is, and then holds its
/// `[start, stop)` range.
pub open spec fn same_validity_range(
    b: Option<Vec<bool>>,
    a: Option<Vec<bool>>,
    start: int,
    stop: int,
) -> bool {
    match (b, a) {
        (Option::Some(x), Option::Some(y)) => x@ == y@.subrange(start, stop),
        (Option::None, Option::None) => true,
        _ => false,
    }
}

} // verus!
