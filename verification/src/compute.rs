//! Compute kernels. Each kernel is a free function that dispatches on the
//! receiver's encoding; where an encoding has no specialized implementation,
//! the kernel canonicalizes the array into its ground form and retries.

use vstd::prelude::*;

use crate::array::{
    alen, aview, cat_views_from, find_in, has_dtype, lemma_cat_views_unfold,
    lemma_sum_alens_unfold, nbytes_of, same_validity, sparse_at, sum_alens_from, valid_at,
    validity_len_ok, viewable, wf, Array, BoolArray, ChunkedArray, ConstantArray, PrimitiveArray,
    SparseArray, StructArray, VarBinArray,
};
use crate::bitmap::{bitmap_clone, bitmap_contains, bitmap_elems};
use crate::dtype::{clone_vec_copy, dtype_clone, DType, Nullability, PType};
use crate::error::{VortexError, VortexResult};
use crate::scalar::{scalar_clone, Scalar, Value};

verus! {

/// Copies `v[start..stop]`.
pub fn copy_range<T: Copy>(v: &Vec<T>, start: usize, stop: usize) -> (r: Vec<T>)
    requires
        start <= stop <= v@.len(),
    ensures
        r@ == v@.subrange(start as int, stop as int),
{
    let mut r: Vec<T> = Vec::new();
    for i in start..stop
        invariant
            start <= i <= stop <= v@.len(),
            r@.len() == i - start,
            forall|j: int| 0 <= j < i - start ==> r@[j] == v@[start + j],
    {
        r.push(v[i]);
    }
    proof {
        assert(r@ =~= v@.subrange(start as int, stop as int));
    }
    r
}

/// Copies `v[start..stop]` where present.
pub fn copy_validity_range(v: &Option<Vec<bool>>, start: usize, stop: usize) -> (r: Option<
    Vec<bool>,
>)
    requires
        match v {
            Option::Some(m) => start <= stop <= m@.len(),
            Option::None => true,
        },
    ensures
        match (v, r) {
            (Option::Some(m), Option::Some(n)) => n@ == m@.subrange(start as int, stop as int),
            (Option::None, Option::None) => true,
            _ => false,
        },
{
    match v {
        Option::Some(m) => Option::Some(copy_range(m, start, stop)),
        Option::None => Option::None,
    }
}

/// If `indices[j] == pos` and no earlier entry equals `pos`, the spec-level
/// search finds `j`.
pub proof fn lemma_find_in_hit(indices: Seq<u64>, pos: int, j: int)
    requires
        0 <= j < indices.len(),
        indices[j] == pos,
        forall|k: int| 0 <= k < j ==> indices[k] != pos,
    ensures
        find_in(indices, pos) == Option::Some(j),
    decreases j,
{
    if j == 0 {
    } else {
        lemma_find_in_hit(indices.drop_first(), pos, j - 1);
    }
}

/// If no entry equals `pos`, the spec-level search misses.
pub proof fn lemma_find_in_miss(indices: Seq<u64>, pos: int)
    requires
        forall|k: int| 0 <= k < indices.len() ==> indices[k] != pos,
    ensures
        find_in(indices, pos) is None,
    decreases indices.len(),
{
    if indices.len() > 0 {
        lemma_find_in_miss(indices.drop_first(), pos);
    }
}

/// Deep copy. The copy is well-formed, has the same kind, length, type,
/// view and byte count as the original.
#[verifier::loop_isolation(false)]
#[verifier::rlimit(100)]
pub fn array_dup(a: &Array) -> (r: Array)
    requires
        wf(*a),
    ensures
        wf(r),
        r.kind() == a.kind(),
        alen(r) == alen(*a),
        viewable(r) == viewable(*a),
        viewable(*a) ==> aview(r) == aview(*a),
        forall|d: DType| has_dtype(*a, d) ==> #[trigger] has_dtype(r, d),
        nbytes_of(r) == nbytes_of(*a),
        *a is Primitive ==> r is Primitive && r->Primitive_0.ptype == a->Primitive_0.ptype
            && crate::array::validity_nullability(r->Primitive_0.validity)
            == crate::array::validity_nullability(a->Primitive_0.validity),
        *a is Struct ==> {
            &&& r is Struct
            &&& r->Struct_0.names@.len() == a->Struct_0.names@.len()
            &&& forall|k: int|
                0 <= k < a->Struct_0.names@.len() ==> #[trigger] r->Struct_0.names@[k]@
                    == a->Struct_0.names@[k]@
            &&& r->Struct_0.fields@.len() == a->Struct_0.fields@.len()
            &&& forall|k: int|
                0 <= k < a->Struct_0.fields@.len() ==> viewable(#[trigger] a->Struct_0.fields@[k])
                    ==> viewable(r->Struct_0.fields@[k]) && aview(r->Struct_0.fields@[k]) == aview(
                    a->Struct_0.fields@[k],
                )
        },
    decreases *a,
{
    match a {
        Array::Primitive(p) => {
            let r = Array::Primitive(
                PrimitiveArray {
                    ptype: p.ptype,
                    values: clone_vec_copy(&p.values),
                    validity: crate::array::clone_validity(&p.validity),
                },
            );
            proof {
                assert(crate::array::validity_nullability(r->Primitive_0.validity)
                    == crate::array::validity_nullability(p.validity));
                assert(aview(r) =~= aview(*a));
            }
            r
        },
        Array::Bool(b) => {
            let r = Array::Bool(
                BoolArray {
                    values: clone_vec_copy(&b.values),
                    validity: crate::array::clone_validity(&b.validity),
                },
            );
            proof {
                assert(crate::array::validity_nullability(r->Bool_0.validity)
                    == crate::array::validity_nullability(b.validity));
                assert(aview(r) =~= aview(*a));
            }
            r
        },
        Array::VarBin(v) => {
            let r = Array::VarBin(
                VarBinArray {
                    is_utf8: v.is_utf8,
                    offsets: clone_vec_copy(&v.offsets),
                    bytes: clone_vec_copy(&v.bytes),
                    validity: crate::array::clone_validity(&v.validity),
                },
            );
            proof {
                assert(crate::array::validity_nullability(r->VarBin_0.validity)
                    == crate::array::validity_nullability(v.validity));
                assert(aview(r) =~= aview(*a));
            }
            r
        },
        Array::Struct(s) => {
            let mut names2: Vec<Vec<u8>> = Vec::new();
            for i in 0..s.names.len()
                invariant
                    names2@.len() == i,
                    forall|j: int| 0 <= j < i ==> #[trigger] names2@[j]@ == s.names@[j]@,
            {
                names2.push(clone_vec_copy(&s.names[i]));
            }
            let mut fields2: Vec<Array> = Vec::new();
            for i in 0..s.fields.len()
                invariant
                    fields2@.len() == i,
                    forall|j: int|
                        0 <= j < i ==> {
                            let f2 = #[trigger] fields2@[j];
                            let f1 = s.fields@[j];
                            &&& wf(f2)
                            &&& f2.kind() == f1.kind()
                            &&& alen(f2) == alen(f1)
                            &&& viewable(f2) == viewable(f1)
                            &&& (viewable(f1) ==> aview(f2) == aview(f1))
                            &&& forall|d: DType| has_dtype(f1, d) ==> #[trigger] has_dtype(f2, d)
                            &&& nbytes_of(f2) == nbytes_of(f1)
                        },
            {
                proof {
                    assert(decreases_to!(*a => s.fields@[i as int]));
                }
                fields2.push(array_dup(&s.fields[i]));
            }
            let r = Array::Struct(StructArray { names: names2, fields: fields2, length: s.length });
            proof {
                lemma_sum_nbytes_congruent(s.fields@, r->Struct_0.fields@, 0);
                assert forall|d: DType| has_dtype(*a, d) implies #[trigger] has_dtype(r, d) by {
                    match d {
                        DType::Struct(nm, tps, x) => {
                            assert forall|i: int| 0 <= i < tps@.len() implies has_dtype(
                                #[trigger] r->Struct_0.fields@[i],
                                tps@[i],
                            ) by {
                                assert(has_dtype(s.fields@[i], tps@[i]));
                            }
                        },
                        _ => {},
                    }
                }
            }
            r
        },
        Array::Chunked(c) => {
            let mut chunks2: Vec<Array> = Vec::new();
            for i in 0..c.chunks.len()
                invariant
                    chunks2@.len() == i,
                    forall|j: int|
                        0 <= j < i ==> {
                            let f2 = #[trigger] chunks2@[j];
                            let f1 = c.chunks@[j];
                            &&& wf(f2)
                            &&& f2.kind() == f1.kind()
                            &&& alen(f2) == alen(f1)
                            &&& viewable(f2) == viewable(f1)
                            &&& (viewable(f1) ==> aview(f2) == aview(f1))
                            &&& forall|d: DType| has_dtype(f1, d) ==> #[trigger] has_dtype(f2, d)
                            &&& nbytes_of(f2) == nbytes_of(f1)
                        },
            {
                proof {
                    assert(decreases_to!(*a => c.chunks@[i as int]));
                }
                chunks2.push(array_dup(&c.chunks[i]));
            }
            let d2 = dtype_clone(&c.dtype);
            let r = Array::Chunked(ChunkedArray { chunks: chunks2, dtype: d2 });
            proof {
                lemma_sum_nbytes_congruent(c.chunks@, r->Chunked_0.chunks@, 0);
                lemma_sum_alens_congruent(c.chunks@, r->Chunked_0.chunks@, 0);
                if viewable(*a) {
                    lemma_cat_views_congruent(c.chunks@, r->Chunked_0.chunks@, 0);
                }
                if viewable(*a) {
                    assert forall|j: int|
                        0 <= j < r->Chunked_0.chunks@.len() implies viewable(
                        #[trigger] r->Chunked_0.chunks@[j],
                    ) by {
                        assert(viewable(c.chunks@[j]));
                    }
                } else {
                    let j = choose|j: int|
                        0 <= j < c.chunks@.len() && !viewable(#[trigger] c.chunks@[j]);
                    assert(!viewable(r->Chunked_0.chunks@[j]));
                }
                assert forall|j: int| 0 <= j < r->Chunked_0.chunks@.len() implies has_dtype(
                    #[trigger] r->Chunked_0.chunks@[j],
                    r->Chunked_0.dtype,
                ) by {
                    assert(has_dtype(c.chunks@[j], c.dtype));
                    assert(has_dtype(r->Chunked_0.chunks@[j], c.dtype));
                    crate::array::lemma_has_dtype_respects(
                        r->Chunked_0.chunks@[j],
                        c.dtype,
                        r->Chunked_0.dtype,
                    );
                }
                assert forall|d: DType| has_dtype(*a, d) implies #[trigger] has_dtype(r, d) by {
                    crate::dtype::lemma_dtype_matches_sym(c.dtype, r->Chunked_0.dtype);
                    crate::dtype::lemma_dtype_matches_trans(r->Chunked_0.dtype, c.dtype, d);
                }
            }
            r
        },
        Array::Constant(c) => {
            let s2 = scalar_clone(&c.scalar);
            proof {
                assert forall|d: DType|
                    has_dtype(*a, d) implies #[trigger] crate::array::scalar_has_dtype(
                    s2,
                    d,
                ) by {
                    match (c.scalar, s2) {
                        (Scalar::Null(dt1), Scalar::Null(dt2)) => {
                            crate::dtype::lemma_dtype_matches_trans(dt2, dt1, d);
                        },
                        _ => {},
                    }
                }
            }
            Array::Constant(ConstantArray { scalar: s2, length: c.length })
        },
        Array::Sparse(s) => {
            proof {
                assert(decreases_to!(*a => *s.values));
            }
            let r = Array::Sparse(
                SparseArray {
                    indices: clone_vec_copy(&s.indices),
                    values: Box::new(array_dup(&s.values)),
                    length: s.length,
                },
            );
            proof {
                if viewable(*a) {
                    assert(aview(r) =~= aview(*a));
                }
                assert forall|d: DType| has_dtype(*a, d) implies #[trigger] has_dtype(r, d) by {
                    match &*s.values {
                        Array::Primitive(pv) => {
                            assert(d == pv.ptype.spec_dtype(Nullability::Nullable));
                            assert((*r->Sparse_0.values)->Primitive_0.ptype == pv.ptype);
                        },
                        _ => {
                            assert(has_dtype(*s.values, d));
                            assert(has_dtype(*r->Sparse_0.values, d));
                        },
                    }
                }
            }
            r
        },
        Array::Alp(al) => {
            proof {
                assert(decreases_to!(*a => *al.encoded));
            }
            let enc = Box::new(array_dup(&al.encoded));
            let patches = match &al.patches {
                Option::Some(p) => {
                    proof {
                        assert(decreases_to!(*a => *al.patches->0));
                    }
                    Option::Some(Box::new(array_dup(p)))
                },
                Option::None => Option::None,
            };
            let d2 = dtype_clone(&al.dtype);
            proof {
                assert(crate::array::alp_child_dtype_ok(*al.encoded, al.dtype));
                assert(d2 == al.dtype);
            }
            Array::Alp(
                crate::array::ALPArray {
                    encoded: enc,
                    exponents: al.exponents,
                    patches,
                    dtype: d2,
                },
            )
        },
        Array::RoaringBool(rb) => {
            let r = Array::RoaringBool(
                crate::array::RoaringBoolArray {
                    bitmap: bitmap_clone(&rb.bitmap),
                    length: rb.length,
                },
            );
            proof {
                assert(aview(r) =~= aview(*a));
                assert(forall|d: DType| has_dtype(*a, d) ==> #[trigger] has_dtype(r, d));
            }
            r
        },
    }
}

/// Element-congruent sequences have equal summed byte counts.
proof fn lemma_sum_nbytes_congruent(s1: Seq<Array>, s2: Seq<Array>, i: int)
    requires
        s1.len() == s2.len(),
        forall|j: int| 0 <= j < s1.len() ==> nbytes_of(#[trigger] s2[j]) == nbytes_of(s1[j]),
    ensures
        crate::array::sum_nbytes_from(s2, i) == crate::array::sum_nbytes_from(s1, i),
    decreases s1.len() - i,
{
    if 0 <= i < s1.len() {
        lemma_sum_nbytes_congruent(s1, s2, i + 1);
    }
}

/// Element-congruent sequences have equal summed lengths.
proof fn lemma_sum_alens_congruent(s1: Seq<Array>, s2: Seq<Array>, i: int)
    requires
        s1.len() == s2.len(),
        forall|j: int| 0 <= j < s1.len() ==> alen(#[trigger] s2[j]) == alen(s1[j]),
    ensures
        sum_alens_from(s2, i) == sum_alens_from(s1, i),
    decreases s1.len() - i,
{
    if 0 <= i < s1.len() {
        lemma_sum_alens_congruent(s1, s2, i + 1);
    }
}

/// Element-congruent viewable sequences have equal concatenated views.
proof fn lemma_cat_views_congruent(s1: Seq<Array>, s2: Seq<Array>, i: int)
    requires
        s1.len() == s2.len(),
        forall|j: int|
            0 <= j < s1.len() ==> viewable(#[trigger] s1[j]) ==> viewable(s2[j]) && aview(s2[j])
                == aview(s1[j]),
        forall|j: int| 0 <= j < s1.len() ==> viewable(#[trigger] s1[j]),
    ensures
        cat_views_from(s2, i) == cat_views_from(s1, i),
    decreases s1.len() - i,
{
    if 0 <= i < s1.len() {
        lemma_cat_views_congruent(s1, s2, i + 1);
    }
}

/// The view of a well-formed viewable array has exactly its length.
pub proof fn lemma_aview_len(a: Array)
    requires
        wf(a),
        viewable(a),
    ensures
        aview(a).len() == alen(a),
    decreases a, 0nat,
{
    match a {
        Array::Chunked(c) => {
            lemma_cat_views_len(c.chunks@, 0);
        },
        _ => {},
    }
}

/// Concatenated views of well-formed viewable chunks have the summed length.
pub proof fn lemma_cat_views_len(s: Seq<Array>, i: int)
    requires
        forall|j: int| 0 <= j < s.len() ==> wf(#[trigger] s[j]) && viewable(s[j]),
    ensures
        cat_views_from(s, i).len() == sum_alens_from(s, i),
    decreases s, s.len() - i,
{
    if 0 <= i < s.len() {
        lemma_aview_len(s[i]);
        lemma_cat_views_len(s, i + 1);
    }
}

/// Reads one element. Returns `OutOfBounds` exactly when the index is not
/// below the length; `NotImplemented` exactly when the encoding has no
/// element view (struct arrays are read column-wise, float decoding is the
/// caller's work).
#[verifier::loop_isolation(false)]
#[verifier::rlimit(100)]
pub fn scalar_at(a: &Array, index: usize) -> (r: VortexResult<Scalar>)
    requires
        wf(*a),
    ensures
        match r {
            Result::Ok(s) => {
                &&& (index as nat) < alen(*a)
                &&& (viewable(*a) ==> s.value() == aview(*a)[index as int])
            },
            Result::Err(VortexError::OutOfBounds(i, l)) => {
                &&& (index as nat) >= alen(*a)
                &&& i == index
                &&& l as nat == alen(*a)
            },
            Result::Err(VortexError::NotImplemented) => {
                &&& (index as nat) < alen(*a)
                &&& !viewable(*a)
            },
            Result::Err(_) => false,
        },
        viewable(*a) && (index as nat) < alen(*a) ==> r is Ok,
    decreases *a,
{
    let n = a.len();
    if index >= n {
        return Result::Err(VortexError::OutOfBounds(index, n));
    }
    match a {
        Array::Primitive(p) => {
            let ok = match &p.validity {
                Option::Some(m) => m[index],
                Option::None => true,
            };
            if ok {
                Result::Ok(Scalar::Prim(p.ptype, p.values[index]))
            } else {
                let d = a.dtype();
                Result::Ok(Scalar::Null(d))
            }
        },
        Array::Bool(b) => {
            let ok = match &b.validity {
                Option::Some(m) => m[index],
                Option::None => true,
            };
            if ok {
                Result::Ok(Scalar::Bool(b.values[index]))
            } else {
                let d = a.dtype();
                Result::Ok(Scalar::Null(d))
            }
        },
        Array::VarBin(v) => {
            let ok = match &v.validity {
                Option::Some(m) => m[index],
                Option::None => true,
            };
            if ok {
                let start = v.offsets[index];
                let stop = v.offsets[index + 1];
                proof {
                    lemma_varbin_offsets_bounded(v.offsets@, v.bytes@.len() as int, index as int);
                    lemma_varbin_offsets_bounded(
                        v.offsets@,
                        v.bytes@.len() as int,
                        index as int + 1,
                    );
                    assert(v.offsets@[index as int] <= v.offsets@[index as int + 1]);
                }
                let payload = copy_range(&v.bytes, start, stop);
                if v.is_utf8 {
                    Result::Ok(Scalar::Utf8(payload))
                } else {
                    Result::Ok(Scalar::Binary(payload))
                }
            } else {
                let d = a.dtype();
                Result::Ok(Scalar::Null(d))
            }
        },
        Array::Struct(_) => Result::Err(VortexError::NotImplemented),
        Array::Chunked(c) => {
            let mut rem: usize = index;
            let m = c.chunks.len();
            let ghost total = cat_views_from(c.chunks@, 0);
            for i in 0..m
                invariant
                    rem <= index,
                    (rem as nat) < sum_alens_from(c.chunks@, i as int),
                    viewable(*a) ==> cat_views_from(c.chunks@, i as int)[rem as int] == total[
                        index as int
                    ],
            {
                let cl = c.chunks[i].len();
                if rem < cl {
                    proof {
                        assert(decreases_to!(*a => c.chunks@[i as int]));
                    }
                    let s = scalar_at(&c.chunks[i], rem);
                    proof {
                        if viewable(*a) {
                            lemma_aview_len(c.chunks@[i as int]);
                            lemma_cat_views_unfold(c.chunks@, i as int);
                            assert((aview(c.chunks@[i as int]) + cat_views_from(
                                c.chunks@,
                                i as int + 1,
                            ))[rem as int] == aview(c.chunks@[i as int])[rem as int]);
                        }
                        if s is Err && !(s->Err_0 is OutOfBounds) {
                            assert(!viewable(c.chunks@[i as int]));
                            assert(!viewable(*a));
                        }
                    }
                    return s;
                }
                proof {
                    lemma_sum_alens_unfold(c.chunks@, i as int);
                    if viewable(*a) {
                        assert(viewable(c.chunks@[i as int]));
                        lemma_aview_len(c.chunks@[i as int]);
                        lemma_cat_views_unfold(c.chunks@, i as int);
                        assert(forall|k: int|
                            0 <= k < c.chunks@.len() ==> wf(#[trigger] c.chunks@[k]) && viewable(
                                c.chunks@[k],
                            ));
                        lemma_cat_views_len(c.chunks@, i as int + 1);
                        assert((aview(c.chunks@[i as int]) + cat_views_from(
                            c.chunks@,
                            i as int + 1,
                        ))[rem as int] == cat_views_from(c.chunks@, i as int + 1)[rem - cl]);
                        assert(cat_views_from(c.chunks@, i as int)[rem as int] == cat_views_from(
                            c.chunks@,
                            i as int + 1,
                        )[rem - cl]);
                    }
                }
                rem = rem - cl;
            }
            proof {
                assert(false);
            }
            Result::Err(VortexError::NotImplemented)
        },
        Array::Constant(c) => Result::Ok(scalar_clone(&c.scalar)),
        Array::Sparse(s) => {
            let m = s.indices.len();
            for j in 0..m
                invariant
                    forall|k: int| 0 <= k < j ==> s.indices@[k] != index as u64,
            {
                if s.indices[j] == index as u64 {
                    proof {
                        lemma_find_in_hit(s.indices@, index as int, j as int);
                        assert(decreases_to!(*a => *s.values));
                    }
                    let r = scalar_at(&s.values, j);
                    proof {
                        assert(s.indices@[j as int] == index as u64);
                        assert(s.indices@[j as int] == index as int);
                        assert(find_in(s.indices@, index as int) == Option::Some(j as int));
                        if r is Ok {
                            assert(sparse_at(s.indices@, aview(*s.values), index as int) == aview(
                                *s.values,
                            )[j as int]);
                        }
                    }
                    return r;
                }
            }
            proof {
                lemma_find_in_miss(s.indices@, index as int);
            }
            let d = a.dtype();
            Result::Ok(Scalar::Null(d))
        },
        Array::Alp(_) => Result::Err(VortexError::NotImplemented),
        Array::RoaringBool(rb) => {
            let v = bitmap_contains(&rb.bitmap, index as u32);
            Result::Ok(Scalar::Bool(v))
        },
    }
}

/// In a well-formed offsets list every entry is bounded by the byte length.
pub proof fn lemma_varbin_offsets_bounded(offsets: Seq<usize>, blen: int, i: int)
    requires
        offsets.len() >= 1,
        offsets[offsets.len() - 1] == blen,
        forall|k: int| 0 <= k < offsets.len() - 1 ==> #[trigger] offsets[k] <= offsets[k + 1],
        0 <= i < offsets.len(),
    ensures
        offsets[i] <= blen,
    decreases offsets.len() - i,
{
    if i < offsets.len() - 1 {
        lemma_varbin_offsets_bounded(offsets, blen, i + 1);
    }
}


/// Whether canonicalization is defined for this array: the ground encodings
/// are already canonical; constants expand when their value has a ground
/// shape that fits in memory; a sparse array scatters a primitive child; the
/// bitmap encoding unpacks. Chunks are decoded one by one by the readers, so
/// a chunked array does not flatten, and a float-encoded array decodes only
/// through its caller's inverse transforms.
pub open spec fn flattenable(a: Array) -> bool
    decreases a,
{
    match a {
        Array::Primitive(_) => true,
        Array::Bool(_) => true,
        Array::VarBin(_) => true,
        Array::Struct(_) => true,
        Array::Chunked(_) => false,
        Array::Constant(c) => match c.scalar {
            Scalar::Bool(_) => true,
            Scalar::Prim(_, _) => true,
            Scalar::Utf8(b) => b@.len() * c.length <= usize::MAX,
            Scalar::Binary(b) => b@.len() * c.length <= usize::MAX,
            Scalar::Null(dt) => (dt matches DType::Int(_, _, Nullability::Nullable)) || (
            dt matches DType::Float(_, Nullability::Nullable)) || dt == DType::Bool(
                Nullability::Nullable,
            ),
        },
        Array::Sparse(s) => *s.values is Primitive,
        Array::Alp(_) => false,
        Array::RoaringBool(_) => true,
    }
}

/// Flattens an array into its ground representation, preserving length,
/// logical type and the element view. Fails with `NotImplemented` exactly
/// when the encoding has no ground expansion here.
#[verifier::loop_isolation(false)]
#[verifier::rlimit(100)]
pub fn canonicalize(a: &Array) -> (r: VortexResult<Array>)
    requires
        wf(*a),
    ensures
        match r {
            Result::Ok(c) => {
                &&& flattenable(*a)
                &&& wf(c)
                &&& (c is Primitive || c is Bool || c is VarBin || c is Struct)
                &&& alen(c) == alen(*a)
                &&& (forall|d: DType| has_dtype(*a, d) ==> #[trigger] has_dtype(c, d))
                &&& (viewable(*a) ==> viewable(c) && aview(c) == aview(*a))
                &&& (c is Struct <==> *a is Struct)
            },
            Result::Err(VortexError::NotImplemented) => !flattenable(*a),
            Result::Err(_) => false,
        },
    decreases *a, 1nat,
{
    match a {
        Array::Primitive(_) => Result::Ok(array_dup(a)),
        Array::Bool(_) => Result::Ok(array_dup(a)),
        Array::VarBin(_) => Result::Ok(array_dup(a)),
        Array::Struct(_) => Result::Ok(array_dup(a)),
        Array::Chunked(_) => Result::Err(VortexError::NotImplemented),
        Array::Constant(c) => canonicalize_constant(a, c),
        Array::Sparse(s) => {
            match &*s.values {
                Array::Primitive(pv) => {
                    let n = s.length;
                    let mut vals: Vec<u64> = Vec::new();
                    let mut mask: Vec<bool> = Vec::new();
                    let m = s.indices.len();
                    proof {
                        assert(wf(*s.values));
                        assert(s.indices@.len() == alen(*s.values));
                        assert(alen(*s.values) == pv.values@.len());
                    }
                    for p in 0..n
                        invariant
                            vals@.len() == p,
                            mask@.len() == p,
                            forall|q: int|
                                0 <= q < p ==> {
                                    let e = sparse_at(s.indices@, aview(*s.values), q);
                                    &&& (#[trigger] mask@[q] <==> !(e is Null))
                                    &&& (mask@[q] ==> e == Value::Prim(pv.ptype, vals@[q]))
                                    &&& (!mask@[q] ==> vals@[q] == 0)
                                },
                    {
                        let mut found: Option<usize> = Option::None;
                        for j in 0..m
                            invariant
                                match found {
                                    Option::Some(jj) => jj < m && s.indices@[jj as int]
                                        == p as u64,
                                    Option::None => forall|k: int|
                                        0 <= k < j ==> s.indices@[k] != p as u64,
                                },
                        {
                            if found.is_none() && s.indices[j] == p as u64 {
                                found = Option::Some(j);
                            }
                        }
                        match found {
                            Option::Some(j) => {
                                proof {
                                    assert forall|k: int|
                                        0 <= k < j implies s.indices@[k] != p as u64 by {
                                        assert(s.indices@[k] < s.indices@[j as int]);
                                    }
                                    lemma_find_in_hit(s.indices@, p as int, j as int);
                                }
                                let ok = match &pv.validity {
                                    Option::Some(mm) => mm[j],
                                    Option::None => true,
                                };
                                if ok {
                                    vals.push(pv.values[j]);
                                    mask.push(true);
                                } else {
                                    vals.push(0);
                                    mask.push(false);
                                }
                            },
                            Option::None => {
                                proof {
                                    lemma_find_in_miss(s.indices@, p as int);
                                }
                                vals.push(0);
                                mask.push(false);
                            },
                        }
                    }
                    let out = Array::Primitive(
                        PrimitiveArray {
                            ptype: pv.ptype,
                            values: vals,
                            validity: Option::Some(mask),
                        },
                    );
                    proof {
                        if viewable(*a) {
                            assert(aview(out) =~= aview(*a));
                        }
                        assert forall|d: DType| has_dtype(*a, d) implies #[trigger] has_dtype(
                            out,
                            d,
                        ) by {
                            assert(d == pv.ptype.spec_dtype(Nullability::Nullable));
                        }
                    }
                    Result::Ok(out)
                },
                _ => Result::Err(VortexError::NotImplemented),
            }
        },
        Array::Alp(_) => Result::Err(VortexError::NotImplemented),
        Array::RoaringBool(rb) => {
            let n = rb.length;
            let mut vals: Vec<bool> = Vec::new();
            for p in 0..n
                invariant
                    vals@.len() == p,
                    forall|q: int|
                        0 <= q < p ==> #[trigger] vals@[q] == bitmap_elems(rb.bitmap).contains(
                            q as u32,
                        ),
            {
                vals.push(bitmap_contains(&rb.bitmap, p as u32));
            }
            let out = Array::Bool(BoolArray { values: vals, validity: Option::None });
            proof {
                assert(aview(out) =~= aview(*a));
            }
            Result::Ok(out)
        },
    }
}

/// Expands one repeated scalar into its ground representation.
#[verifier::loop_isolation(false)]
#[verifier::rlimit(100)]
fn canonicalize_constant(a: &Array, c: &ConstantArray) -> (r: VortexResult<Array>)
    requires
        wf(*a),
        *a is Constant,
        a->Constant_0 == *c,
    ensures
        match r {
            Result::Ok(out) => {
                &&& flattenable(*a)
                &&& wf(out)
                &&& (out is Primitive || out is Bool || out is VarBin)
                &&& alen(out) == alen(*a)
                &&& (forall|d: DType| has_dtype(*a, d) ==> #[trigger] has_dtype(out, d))
                &&& aview(out) == aview(*a)
            },
            Result::Err(VortexError::NotImplemented) => !flattenable(*a),
            Result::Err(_) => false,
        },
{
    let n = c.length;
    match &c.scalar {
        Scalar::Bool(v) => {
            let mut vals: Vec<bool> = Vec::new();
            for p in 0..n
                invariant
                    vals@.len() == p,
                    forall|q: int| 0 <= q < p ==> #[trigger] vals@[q] == *v,
            {
                vals.push(*v);
            }
            let out = Array::Bool(BoolArray { values: vals, validity: Option::None });
            proof {
                assert(aview(out) =~= aview(*a));
            }
            Result::Ok(out)
        },
        Scalar::Prim(pt, v) => {
            let mut vals: Vec<u64> = Vec::new();
            for p in 0..n
                invariant
                    vals@.len() == p,
                    forall|q: int| 0 <= q < p ==> #[trigger] vals@[q] == *v,
            {
                vals.push(*v);
            }
            let out = Array::Primitive(
                PrimitiveArray { ptype: *pt, values: vals, validity: Option::None },
            );
            proof {
                assert(aview(out) =~= aview(*a));
            }
            Result::Ok(out)
        },
        Scalar::Utf8(b) | Scalar::Binary(b) => {
            let is_utf8 = matches!(&c.scalar, Scalar::Utf8(_));
            let l = b.len();
            if l != 0 && n > usize::MAX / l {
                proof {
                    assert(b@.len() * c.length > usize::MAX) by (nonlinear_arith)
                        requires
                            c.length > usize::MAX as int / b@.len() as int,
                            b@.len() > 0,
                    ;
                }
                return Result::Err(VortexError::NotImplemented);
            }
            proof {
                if l == 0 {
                    assert(b@.len() * c.length == 0) by (nonlinear_arith)
                        requires
                            b@.len() == 0,
                    ;
                } else {
                    assert(b@.len() * c.length <= usize::MAX) by (nonlinear_arith)
                        requires
                            c.length <= usize::MAX as int / b@.len() as int,
                            b@.len() > 0,
                    ;
                }
            }
            let mut offsets: Vec<usize> = Vec::new();
            let mut bytes: Vec<u8> = Vec::new();
            offsets.push(0);
            for p in 0..n
                invariant
                    offsets@.len() == p + 1,
                    bytes@.len() == p * b@.len(),
                    bytes@.len() <= usize::MAX,
                    p * b@.len() <= usize::MAX,
                    n * b@.len() <= usize::MAX,
                    offsets@[p as int] == bytes@.len(),
                    forall|q: int| 0 <= q <= p ==> #[trigger] offsets@[q] == q * b@.len(),
                    forall|q: int|
                        0 <= q < p ==> #[trigger] bytes@.subrange(
                            q * b@.len(),
                            (q + 1) * b@.len(),
                        ) == b@,
            {
                proof {
                    assert((p + 1) * b@.len() <= n * b@.len()) by (nonlinear_arith)
                        requires
                            0 <= p < n,
                            b@.len() >= 0,
                    ;
                    assert((p + 1) * b@.len() == p * b@.len() + b@.len()) by (nonlinear_arith);
                }
                let ghost old_bytes = bytes@;
                for t in 0..l
                    invariant
                        bytes@.len() == old_bytes.len() + t,
                        bytes@.subrange(0, old_bytes.len() as int) == old_bytes,
                        bytes@.subrange(old_bytes.len() as int, bytes@.len() as int) == b@.subrange(
                            0,
                            t as int,
                        ),
                {
                    bytes.push(b[t]);
                    proof {
                        assert(bytes@.subrange(0, old_bytes.len() as int) =~= old_bytes);
                        assert(bytes@.subrange(old_bytes.len() as int, bytes@.len() as int)
                            =~= b@.subrange(0, t + 1));
                    }
                }
                offsets.push(bytes.len());
                proof {
                    assert(b@.subrange(0, b@.len() as int) =~= b@);
                    assert forall|q: int|
                        0 <= q < p + 1 implies #[trigger] bytes@.subrange(
                        q * b@.len(),
                        (q + 1) * b@.len(),
                    ) == b@ by {
                        if q < p {
                            assert((q + 1) * b@.len() <= p * b@.len()) by (nonlinear_arith)
                                requires
                                    0 <= q < p,
                                    b@.len() >= 0,
                            ;
                            assert(q * b@.len() >= 0) by (nonlinear_arith)
                                requires
                                    q >= 0,
                                    b@.len() >= 0,
                            ;
                            assert((q + 1) * b@.len() == q * b@.len() + b@.len())
                                by (nonlinear_arith);
                            assert forall|y: int| 0 <= y < old_bytes.len() implies bytes@[y]
                                == old_bytes[y] by {
                                assert(old_bytes[y] == bytes@.subrange(
                                    0,
                                    old_bytes.len() as int,
                                )[y]);
                            }
                            assert(bytes@.subrange(q * b@.len(), (q + 1) * b@.len())
                                =~= old_bytes.subrange(q * b@.len(), (q + 1) * b@.len()));
                        } else {
                            assert(bytes@.subrange(q * b@.len(), (q + 1) * b@.len()) =~= b@);
                        }
                    }
                }
            }
            proof {
                assert forall|q: int|
                    0 <= q < offsets@.len() - 1 implies #[trigger] offsets@[q] <= offsets@[q
                    + 1] by {
                    assert(offsets@[q] == q * b@.len());
                    assert(offsets@[q + 1] == (q + 1) * b@.len());
                    assert(q * b@.len() <= (q + 1) * b@.len()) by (nonlinear_arith)
                        requires
                            q >= 0,
                            b@.len() >= 0,
                    ;
                }
            }
            let out = Array::VarBin(
                VarBinArray { is_utf8, offsets, bytes, validity: Option::None },
            );
            proof {
                assert(wf(out));
                assert forall|q: int|
                    0 <= q < alen(out) implies aview(out)[q] == aview(*a)[q] by {
                    assert(out->VarBin_0.offsets@[q] == q * b@.len());
                    assert(out->VarBin_0.offsets@[q + 1] == (q + 1) * b@.len());
                    assert(out->VarBin_0.bytes@.subrange(q * b@.len(), (q + 1) * b@.len()) == b@);
                }
                crate::compute::lemma_aview_len(out);
                assert(aview(out) =~= aview(*a));
            }
            Result::Ok(out)
        },
        Scalar::Null(dt) => {
            let pt_opt: Option<PType> = match dt {
                DType::Int(w, s, Nullability::Nullable) => Option::Some(
                    match (w, s) {
                        (crate::dtype::IntWidth::W8, crate::dtype::Signedness::Signed) => PType::I8,
                        (crate::dtype::IntWidth::W16, crate::dtype::Signedness::Signed) => PType::I16,
                        (crate::dtype::IntWidth::W32, crate::dtype::Signedness::Signed) => PType::I32,
                        (crate::dtype::IntWidth::W64, crate::dtype::Signedness::Signed) => PType::I64,
                        (crate::dtype::IntWidth::W8, crate::dtype::Signedness::Unsigned) => PType::U8,
                        (crate::dtype::IntWidth::W16, crate::dtype::Signedness::Unsigned) => PType::U16,
                        (crate::dtype::IntWidth::W32, crate::dtype::Signedness::Unsigned) => PType::U32,
                        (crate::dtype::IntWidth::W64, crate::dtype::Signedness::Unsigned) => PType::U64,
                    },
                ),
                DType::Float(w, Nullability::Nullable) => Option::Some(
                    match w {
                        crate::dtype::FloatWidth::W16 => PType::F16,
                        crate::dtype::FloatWidth::W32 => PType::F32,
                        crate::dtype::FloatWidth::W64 => PType::F64,
                    },
                ),
                _ => Option::None,
            };
            match pt_opt {
                Option::Some(pt) => {
                    let mut vals: Vec<u64> = Vec::new();
                    let mut mask: Vec<bool> = Vec::new();
                    for p in 0..n
                        invariant
                            vals@.len() == p,
                            mask@.len() == p,
                            forall|q: int| 0 <= q < p ==> #[trigger] vals@[q] == 0,
                            forall|q: int| 0 <= q < p ==> #[trigger] mask@[q] == false,
                    {
                        vals.push(0);
                        mask.push(false);
                    }
                    let out = Array::Primitive(
                        PrimitiveArray { ptype: pt, values: vals, validity: Option::Some(mask) },
                    );
                    proof {
                        assert(aview(out) =~= aview(*a));
                        assert(*dt == pt.spec_dtype(Nullability::Nullable));
                        assert forall|d: DType| has_dtype(*a, d) implies #[trigger] has_dtype(
                            out,
                            d,
                        ) by {
                            assert(crate::dtype::dtype_matches(*dt, d));
                            assert(d == pt.spec_dtype(Nullability::Nullable));
                        }
                    }
                    Result::Ok(out)
                },
                Option::None => {
                    match dt {
                        DType::Bool(Nullability::Nullable) => {
                            let mut vals: Vec<bool> = Vec::new();
                            let mut mask: Vec<bool> = Vec::new();
                            for p in 0..n
                                invariant
                                    vals@.len() == p,
                                    mask@.len() == p,
                                    forall|q: int| 0 <= q < p ==> #[trigger] vals@[q] == false,
                                    forall|q: int| 0 <= q < p ==> #[trigger] mask@[q] == false,
                            {
                                vals.push(false);
                                mask.push(false);
                            }
                            let out = Array::Bool(
                                BoolArray { values: vals, validity: Option::Some(mask) },
                            );
                            proof {
                                assert(aview(out) =~= aview(*a));
                                assert forall|d: DType| has_dtype(*a, d) implies #[trigger] has_dtype(
                                    out,
                                    d,
                                ) by {
                                    assert(crate::dtype::dtype_matches(*dt, d));
                                }
                            }
                            Result::Ok(out)
                        },
                        _ => Result::Err(VortexError::NotImplemented),
                    }
                },
            }
        },
    }
}




/// Whether the O(1) slice is defined: chunked arrays are read through their
/// chunks instead.
pub open spec fn sliceable(a: Array) -> bool
    decreases a,
{
    match a {
        Array::Chunked(_) => false,
        Array::Sparse(s) => sliceable(*s.values),
        Array::Alp(al) => sliceable(*al.encoded) && match al.patches {
            Option::Some(p) => sliceable(*p),
            Option::None => true,
        },
        Array::Struct(s) => forall|k: int|
            0 <= k < s.fields@.len() ==> sliceable(#[trigger] s.fields@[k]),
        _ => true,
    }
}

/// Extracts `[start, stop)` as a new array of the same encoding. O(1)-style:
/// each encoding slices its own buffers or children; chunked arrays are read
/// through their chunks instead.
#[verifier::loop_isolation(false)]
#[verifier::rlimit(100)]
#[verifier::spinoff_prover]
pub fn slice(a: &Array, start: usize, stop: usize) -> (r: VortexResult<Array>)
    requires
        wf(*a),
    ensures
        match r {
            Result::Ok(b) => {
                &&& start <= stop
                &&& stop as nat <= alen(*a)
                &&& wf(b)
                &&& b.kind() == a.kind()
                &&& (*a is Primitive ==> b->Primitive_0.ptype == a->Primitive_0.ptype
                    && crate::array::validity_nullability(b->Primitive_0.validity)
                    == crate::array::validity_nullability(a->Primitive_0.validity))
                &&& alen(b) == stop - start
                &&& (viewable(*a) ==> viewable(b) && aview(b) == aview(*a).subrange(
                    start as int,
                    stop as int,
                ))
                &&& (*a is Alp ==> b is Alp && {
                    let aa = a->Alp_0;
                    let bb = b->Alp_0;
                    &&& bb.exponents == aa.exponents
                    &&& alen(*bb.encoded) == stop - start
                    &&& (viewable(*aa.encoded) ==> viewable(*bb.encoded) && aview(*bb.encoded)
                        == aview(*aa.encoded).subrange(start as int, stop as int))
                    &&& match (bb.patches, aa.patches) {
                        (Option::Some(q), Option::Some(p)) => alen(*q) == stop - start && (
                        viewable(*p) ==> viewable(*q) && aview(*q) == aview(*p).subrange(
                            start as int,
                            stop as int,
                        )),
                        (Option::None, Option::None) => true,
                        _ => false,
                    }
                })
                &&& (*a is Struct ==> b is Struct && {
                    let sa = a->Struct_0;
                    let sb = b->Struct_0;
                    &&& sb.names@.len() == sa.names@.len()
                    &&& (forall|k: int|
                        0 <= k < sa.names@.len() ==> #[trigger] sb.names@[k]@ == sa.names@[k]@)
                    &&& sb.fields@.len() == sa.fields@.len()
                    &&& (forall|k: int|
                        0 <= k < sa.fields@.len() ==> viewable(#[trigger] sa.fields@[k])
                            ==> viewable(sb.fields@[k]) && aview(sb.fields@[k]) == aview(
                            sa.fields@[k],
                        ).subrange(start as int, stop as int))
                })
            },
            Result::Err(VortexError::OutOfBounds(i, l)) => {
                &&& !(start <= stop && stop as nat <= alen(*a))
                &&& l as nat == alen(*a)
            },
            Result::Err(VortexError::NotImplemented) => {
                &&& start <= stop
                &&& stop as nat <= alen(*a)
                &&& !sliceable(*a)
            },
            Result::Err(_) => false,
        },
    decreases *a, 1nat,
{
    let n = a.len();
    if start > stop || stop > n {
        return Result::Err(VortexError::OutOfBounds(if stop > n {
            stop
        } else {
            start
        }, n));
    }
    match a {
        Array::Primitive(p) => {
            let b = Array::Primitive(
                PrimitiveArray {
                    ptype: p.ptype,
                    values: copy_range(&p.values, start, stop),
                    validity: copy_validity_range(&p.validity, start, stop),
                },
            );
            proof {
                assert(aview(b) =~= aview(*a).subrange(start as int, stop as int));
            }
            Result::Ok(b)
        },
        Array::Bool(bl) => {
            let b = Array::Bool(
                BoolArray {
                    values: copy_range(&bl.values, start, stop),
                    validity: copy_validity_range(&bl.validity, start, stop),
                },
            );
            proof {
                assert(aview(b) =~= aview(*a).subrange(start as int, stop as int));
            }
            Result::Ok(b)
        },
        Array::VarBin(v) => slice_varbin(a, v, start, stop),
        Array::Struct(s) => {
            let mut names2: Vec<Vec<u8>> = Vec::new();
            for i in 0..s.names.len()
                invariant
                    names2@.len() == i,
                    forall|j: int| 0 <= j < i ==> #[trigger] names2@[j]@ == s.names@[j]@,
            {
                names2.push(clone_vec_copy(&s.names[i]));
            }
            let mut fields2: Vec<Array> = Vec::new();
            for i in 0..s.fields.len()
                invariant
                    fields2@.len() == i,
                    forall|j: int|
                        0 <= j < i ==> {
                            let f2 = #[trigger] fields2@[j];
                            let f1 = s.fields@[j];
                            &&& wf(f2)
                            &&& alen(f2) == stop - start
                            &&& (viewable(f1) ==> viewable(f2) && aview(f2) == aview(f1).subrange(
                                start as int,
                                stop as int,
                            ))
                        },
            {
                proof {
                    assert(decreases_to!(*a => s.fields@[i as int]));
                    assert(wf(s.fields@[i as int]));
                }
                match slice(&s.fields[i], start, stop) {
                    Result::Ok(f2) => {
                        fields2.push(f2);
                    },
                    Result::Err(e) => {
                        proof {
                            assert(!sliceable(s.fields@[i as int]));
                        }
                        return Result::Err(e);
                    },
                }
            }
            let b = Array::Struct(
                StructArray { names: names2, fields: fields2, length: stop - start },
            );
            Result::Ok(b)
        },
        Array::Chunked(_) => Result::Err(VortexError::NotImplemented),
        Array::Constant(c) => {
            let b = Array::Constant(
                ConstantArray { scalar: scalar_clone(&c.scalar), length: stop - start },
            );
            proof {
                assert(aview(b) =~= aview(*a).subrange(start as int, stop as int));
            }
            Result::Ok(b)
        },
        Array::Sparse(s) => slice_sparse(a, s, start, stop),
        Array::Alp(al) => {
            proof {
                assert(decreases_to!(*a => *al.encoded));
                assert(alen(*al.encoded) == alen(*a));
            }
            let enc2 = match slice(&al.encoded, start, stop) {
                Result::Ok(e) => e,
                Result::Err(e) => {
                    proof {
                        assert(e is NotImplemented);
                        assert(!sliceable(*a));
                    }
                    return Result::Err(e);
                },
            };
            let patches2 = match &al.patches {
                Option::Some(p) => {
                    proof {
                        assert(decreases_to!(*a => *al.patches->0));
                        assert(wf(**p));
                        assert(alen(**p) == alen(*a));
                    }
                    match slice(p, start, stop) {
                        Result::Ok(q) => Option::Some(q),
                        Result::Err(e) => {
                            proof {
                                assert(e is NotImplemented);
                                assert(!sliceable(*a));
                            }
                            return Result::Err(e);
                        },
                    }
                },
                Option::None => Option::None,
            };
            let al2 = crate::array::ALPArray::new(enc2, al.exponents, patches2);
            Result::Ok(Array::Alp(al2))
        },
        Array::RoaringBool(rb) => slice_roaring(a, rb, start, stop),
    }
}

/// Offsets of a well-formed byte-string array are monotone.
pub proof fn lemma_offsets_mono(offsets: Seq<usize>, i: int, j: int)
    requires
        forall|k: int| 0 <= k < offsets.len() - 1 ==> #[trigger] offsets[k] <= offsets[k + 1],
        0 <= i <= j < offsets.len(),
    ensures
        offsets[i] <= offsets[j],
    decreases j - i,
{
    if i < j {
        lemma_offsets_mono(offsets, i, j - 1);
    }
}

/// Slices a sparse array: the indices inside the window, rebased to it, over
/// the matching slice of the value child.
#[verifier::loop_isolation(false)]
#[verifier::rlimit(100)]
fn slice_sparse(a: &Array, s: &SparseArray, start: usize, stop: usize) -> (r: VortexResult<Array>)
    requires
        wf(*a),
        *a is Sparse,
        a->Sparse_0 == *s,
        start <= stop,
        stop as nat <= alen(*a),
    ensures
        match r {
            Result::Ok(b) => {
                &&& wf(b)
                &&& b is Sparse
                &&& alen(b) == stop - start
                &&& (viewable(*a) ==> viewable(b) && aview(b) == aview(*a).subrange(
                    start as int,
                    stop as int,
                ))
            },
            Result::Err(VortexError::NotImplemented) => !sliceable(*a),
            Result::Err(_) => false,
        },
    decreases *a, 0nat,
{
    let m = s.indices.len();
    let mut j0: usize = 0;
    while j0 < m && s.indices[j0] < start as u64
        invariant
            j0 <= m,
            forall|k: int| 0 <= k < j0 ==> s.indices@[k] < start as u64,
        decreases m - j0,
    {
        j0 = j0 + 1;
    }
    let mut j1: usize = j0;
    while j1 < m && s.indices[j1] < stop as u64
        invariant
            j0 <= j1 <= m,
            forall|k: int| j0 <= k < j1 ==> s.indices@[k] < stop as u64,
            forall|k: int| 0 <= k < j0 ==> s.indices@[k] < start as u64,
            j1 < m ==> s.indices@[j0 as int] >= start as u64 || j0 == j1,
        decreases m - j1,
    {
        j1 = j1 + 1;
    }
    proof {
        assert forall|k: int| j1 <= k < m implies s.indices@[k] >= stop as u64 by {
            if k > j1 as int {
                assert(s.indices@[j1 as int] < s.indices@[k]);
            }
        }
        assert forall|k: int| j0 <= k < j1 implies start as u64 <= s.indices@[k] by {
            if k > j0 as int {
                assert(s.indices@[j0 as int] <= s.indices@[k] || true);
                assert(s.indices@[j0 as int] < s.indices@[k]);
            }
        }
    }
    let mut idx2: Vec<u64> = Vec::new();
    for j in j0..j1
        invariant
            idx2@.len() == j - j0,
            forall|k: int|
                0 <= k < j - j0 ==> #[trigger] idx2@[k] == s.indices@[j0 + k] - start as u64,
    {
        proof {
            assert(s.indices@[j as int] >= start as u64);
        }
        idx2.push(s.indices[j] - start as u64);
    }
    proof {
        assert(wf(*s.values));
        assert(alen(*s.values) == s.indices@.len());
        assert(decreases_to!(*a => *s.values));
    }
    let vals2 = match slice(&s.values, j0, j1) {
        Result::Ok(v) => v,
        Result::Err(e) => {
            proof {
                assert(e is NotImplemented);
            }
            return Result::Err(e);
        },
    };
    let b = Array::Sparse(
        SparseArray { indices: idx2, values: Box::new(vals2), length: stop - start },
    );
    proof {
        let bs = b->Sparse_0;
        assert forall|k: int, l: int|
            0 <= k < l < bs.indices@.len() implies bs.indices@[k] < bs.indices@[l] by {
            assert(s.indices@[j0 + k] < s.indices@[j0 + l]);
            assert(s.indices@[j0 + k] >= start as u64);
        }
        assert forall|k: int|
            0 <= k < bs.indices@.len() implies (#[trigger] bs.indices@[k] as nat) < (stop
            - start) by {
            assert(s.indices@[j0 + k] < stop as u64);
            assert(s.indices@[j0 + k] >= start as u64);
        }
        assert(wf(b));
        if viewable(*a) {
            crate::compute::lemma_aview_len(*s.values);
            assert forall|p: int|
                0 <= p < alen(b) implies aview(b)[p] == aview(*a).subrange(
                start as int,
                stop as int,
            )[p] by {
                let old_pos = start + p;
                assert(aview(*a)[old_pos] == sparse_at(s.indices@, aview(*s.values), old_pos));
                let hit = exists|k: int|
                    j0 <= k < j1 && #[trigger] s.indices@[k] == old_pos as u64;
                if hit {
                    let k = choose|k: int|
                        j0 <= k < j1 && #[trigger] s.indices@[k] == old_pos as u64;
                    assert forall|l: int| 0 <= l < k implies s.indices@[l] != old_pos as u64 by {
                        assert(s.indices@[l] < s.indices@[k]);
                    }
                    lemma_find_in_hit(s.indices@, old_pos as int, k);
                    assert(idx2@[k - j0] == p as u64);
                    assert forall|l: int| 0 <= l < k - j0 implies idx2@[l] != p as u64 by {
                        assert(s.indices@[j0 + l] < s.indices@[k]);
                    }
                    lemma_find_in_hit(idx2@, p as int, k - j0);
                    assert(aview(vals2)[k - j0] == aview(*s.values).subrange(
                        j0 as int,
                        j1 as int,
                    )[k - j0]);
                } else {
                    assert forall|l: int| 0 <= l < m implies s.indices@[l] != old_pos as u64 by {
                        if l < j0 {
                            assert(s.indices@[l] < start as u64);
                        } else if l >= j1 {
                            assert(s.indices@[l] >= stop as u64);
                        }
                    }
                    lemma_find_in_miss(s.indices@, old_pos as int);
                    assert forall|l: int| 0 <= l < idx2@.len() implies idx2@[l] != p as u64 by {
                        assert(s.indices@[j0 + l] != old_pos as u64);
                        assert(s.indices@[j0 + l] >= start as u64);
                    }
                    lemma_find_in_miss(idx2@, p as int);
                }
            }
            assert(aview(b) =~= aview(*a).subrange(start as int, stop as int));
        }
    }
    Result::Ok(b)
}


/// Slices a byte-string array by rebasing its offsets.
#[verifier::loop_isolation(false)]
#[verifier::rlimit(100)]
#[verifier::spinoff_prover]
fn slice_varbin(a: &Array, v: &VarBinArray, start: usize, stop: usize) -> (r: VortexResult<Array>)
    requires
        wf(*a),
        *a is VarBin,
        a->VarBin_0 == *v,
        start <= stop,
        stop as nat <= alen(*a),
    ensures
        match r {
            Result::Ok(b) => {
                &&& wf(b)
                &&& b is VarBin
                &&& alen(b) == stop - start
                &&& viewable(b)
                &&& aview(b) == aview(*a).subrange(start as int, stop as int)
            },
            Result::Err(_) => false,
        },
{
    proof {
        lemma_offsets_mono(v.offsets@, start as int, stop as int);
        lemma_varbin_offsets_bounded(v.offsets@, v.bytes@.len() as int, stop as int);
    }
    let base = v.offsets[start];
    let mut offsets2: Vec<usize> = Vec::new();
    for i in start..stop
        invariant
            start <= i <= stop,
            offsets2@.len() == i - start,
            forall|j: int|
                0 <= j < i - start ==> #[trigger] offsets2@[j] == v.offsets@[start + j]
                    - v.offsets@[start as int],
    {
        proof {
            lemma_offsets_mono(v.offsets@, start as int, i as int);
        }
        offsets2.push(v.offsets[i] - base);
    }
    proof {
        lemma_offsets_mono(v.offsets@, start as int, stop as int);
    }
    offsets2.push(v.offsets[stop] - base);
    let hi = v.offsets[stop];
    let bytes2 = copy_range(&v.bytes, base, hi);
    let validity2 = copy_validity_range(&v.validity, start, stop);
    let b = Array::VarBin(
        VarBinArray { is_utf8: v.is_utf8, offsets: offsets2, bytes: bytes2, validity: validity2 },
    );
    proof {
        lemma_varbin_slice_view(*a, b, start as int, stop as int);
    }
    Result::Ok(b)
}

/// The rebased slice of a byte-string array views as the subrange.
#[verifier::rlimit(100)]
#[verifier::spinoff_prover]
proof fn lemma_varbin_slice_view(a: Array, b: Array, start: int, stop: int)
    requires
        wf(a),
        a is VarBin,
        0 <= start <= stop <= alen(a),
        b is VarBin,
        b->VarBin_0.is_utf8 == a->VarBin_0.is_utf8,
        b->VarBin_0.offsets@.len() == stop - start + 1,
        forall|j: int|
            0 <= j <= stop - start ==> #[trigger] b->VarBin_0.offsets@[j] == a->VarBin_0.offsets@[
                start + j
            ] - a->VarBin_0.offsets@[start],
        b->VarBin_0.bytes@ == a->VarBin_0.bytes@.subrange(
            a->VarBin_0.offsets@[start] as int,
            a->VarBin_0.offsets@[stop] as int,
        ),
        crate::array::same_validity_range(b->VarBin_0.validity, a->VarBin_0.validity, start, stop),
    ensures
        wf(b),
        aview(b) == aview(a).subrange(start, stop),
{
    let v = a->VarBin_0;
    let ob = b->VarBin_0.offsets@;
    assert forall|j: int| 0 <= j < ob.len() - 1 implies #[trigger] ob[j] <= ob[j + 1] by {
        lemma_offsets_mono(v.offsets@, start + j, start + j + 1);
        lemma_offsets_mono(v.offsets@, start, start + j);
    }
    lemma_offsets_mono(v.offsets@, start, stop);
    lemma_varbin_offsets_bounded(v.offsets@, v.bytes@.len() as int, stop);
    assert(wf(b));
    assert forall|j: int|
        0 <= j < alen(b) implies aview(b)[j] == aview(a).subrange(start, stop)[j] by {
        lemma_offsets_mono(v.offsets@, start, start + j);
        lemma_offsets_mono(v.offsets@, start + j, start + j + 1);
        lemma_offsets_mono(v.offsets@, start + j + 1, stop);
        assert(b->VarBin_0.bytes@.subrange(ob[j] as int, ob[j + 1] as int) =~= v.bytes@.subrange(
            v.offsets@[start + j] as int,
            v.offsets@[start + j + 1] as int,
        ));
    }
    crate::compute::lemma_aview_len(b);
    assert(aview(b) =~= aview(a).subrange(start, stop));
}


/// Slices the bitmap encoding: intersects with the window and shifts down.
#[verifier::loop_isolation(false)]
#[verifier::rlimit(100)]
fn slice_roaring(a: &Array, rb: &crate::array::RoaringBoolArray, start: usize, stop: usize) -> (r:
    VortexResult<Array>)
    requires
        wf(*a),
        *a is RoaringBool,
        a->RoaringBool_0 == *rb,
        start <= stop,
        stop as nat <= alen(*a),
    ensures
        match r {
            Result::Ok(b) => {
                &&& wf(b)
                &&& b is RoaringBool
                &&& alen(b) == stop - start
                &&& viewable(b)
                &&& aview(b) == aview(*a).subrange(start as int, stop as int)
            },
            Result::Err(_) => false,
        },
{
    let range = crate::bitmap::bitmap_from_range(start as u32, stop as u32);
    let masked = crate::bitmap::bitmap_and(&rb.bitmap, &range);
    let shifted = crate::bitmap::bitmap_add_offset(&masked, -(start as i64));
    let b = Array::RoaringBool(
        crate::array::RoaringBoolArray { bitmap: shifted, length: stop - start },
    );
    proof {
        let es = bitmap_elems(shifted);
        assert forall|v: u32| es.contains(v) implies (v as nat) < (stop - start) by {
            assert(bitmap_elems(masked).contains(((v as int) + start) as u32));
        }
        assert(wf(b));
        assert forall|j: int|
            0 <= j < alen(b) implies aview(b)[j] == aview(*a).subrange(
            start as int,
            stop as int,
        )[j] by {
            assert(es.contains(j as u32) == bitmap_elems(masked).contains(
                ((j as int) + start) as u32,
            ));
            assert(bitmap_elems(masked).contains(((j as int) + start) as u32)
                == bitmap_elems(rb.bitmap).contains(((j as int) + start) as u32));
        }
        assert(aview(b) =~= aview(*a).subrange(start as int, stop as int));
    }
    Result::Ok(b)
}


/// The shape required of take indices: a non-nullable integer primitive
/// array, signed or unsigned. Each stored 64-bit pattern is read as the
/// position it denotes, so a negative signed index lies outside any
/// array's bounds.
pub open spec fn take_idx_ok(ix: Array) -> bool {
    &&& ix is Primitive
    &&& ix->Primitive_0.ptype.spec_is_int()
    &&& ix->Primitive_0.validity is None
}

/// Whether `take` and `filter` are defined: structs gather field-wise, and
/// everything else gathers its ground form.
pub open spec fn takeable(a: Array) -> bool
    decreases a,
{
    match a {
        Array::Struct(s) => forall|k: int|
            0 <= k < s.fields@.len() ==> takeable(#[trigger] s.fields@[k]),
        _ => flattenable(a),
    }
}

/// Gathers the elements at the given positions, in order, possibly with
/// repetitions. The indices must be a non-nullable unsigned integer array and
/// in bounds.
#[verifier::loop_isolation(false)]
#[verifier::rlimit(100)]
pub fn take(array: &Array, indices: &Array) -> (r: VortexResult<Array>)
    requires
        wf(*array),
        wf(*indices),
    ensures
        match r {
            Result::Ok(b) => {
                &&& take_idx_ok(*indices)
                &&& wf(b)
                &&& alen(b) == indices->Primitive_0.values@.len()
                &&& (forall|k: int|
                    0 <= k < indices->Primitive_0.values@.len()
                        ==> (#[trigger] indices->Primitive_0.values@[k] as nat) < alen(*array))
                &&& (viewable(*array) ==> viewable(b) && aview(b) == Seq::new(
                    indices->Primitive_0.values@.len(),
                    |k: int| aview(*array)[indices->Primitive_0.values@[k] as int],
                ))
                &&& (*array is Struct ==> b is Struct && {
                    let sa = array->Struct_0;
                    let sb = b->Struct_0;
                    &&& sb.names@.len() == sa.names@.len()
                    &&& (forall|k: int|
                        0 <= k < sa.names@.len() ==> #[trigger] sb.names@[k]@ == sa.names@[k]@)
                    &&& sb.fields@.len() == sa.fields@.len()
                    &&& (forall|k: int|
                        0 <= k < sa.fields@.len() ==> viewable(#[trigger] sa.fields@[k])
                            ==> viewable(sb.fields@[k]) && aview(sb.fields@[k]) == Seq::new(
                            indices->Primitive_0.values@.len(),
                            |q: int| aview(sa.fields@[k])[indices->Primitive_0.values@[q] as int],
                        ))
                })
            },
            Result::Err(VortexError::InvalidDType(_)) => !take_idx_ok(*indices),
            Result::Err(VortexError::OutOfBounds(i, l)) => {
                &&& take_idx_ok(*indices)
                &&& exists|k: int|
                    0 <= k < indices->Primitive_0.values@.len()
                        && (#[trigger] indices->Primitive_0.values@[k] as nat) >= alen(*array)
                &&& l as nat == alen(*array)
            },
            Result::Err(VortexError::NotImplemented) => {
                &&& take_idx_ok(*indices)
                &&& !takeable(*array)
            },
            Result::Err(_) => false,
        },
        takeable(*array) && take_idx_ok(*indices) && (forall|k: int|
            0 <= k < indices->Primitive_0.values@.len()
                ==> (#[trigger] indices->Primitive_0.values@[k] as nat) < alen(*array)) ==> r
            is Ok,
    decreases *array,
{
    let ix = match indices {
        Array::Primitive(p) => {
            if !p.ptype.is_int() || p.validity.is_some() {
                return Result::Err(VortexError::InvalidDType(indices.dtype()));
            }
            p
        },
        _ => {
            return Result::Err(VortexError::InvalidDType(indices.dtype()));
        },
    };
    let n = array.len();
    let m = ix.values.len();
    for k in 0..m
        invariant
            forall|q: int| 0 <= q < k ==> (#[trigger] ix.values@[q] as nat) < n as nat,
    {
        if ix.values[k] >= n as u64 {
            return Result::Err(VortexError::OutOfBounds(k, n));
        }
    }
    match array {
        Array::Struct(s) => {
            let mut names2: Vec<Vec<u8>> = Vec::new();
            for i in 0..s.names.len()
                invariant
                    names2@.len() == i,
                    forall|j: int| 0 <= j < i ==> #[trigger] names2@[j]@ == s.names@[j]@,
            {
                names2.push(clone_vec_copy(&s.names[i]));
            }
            let mut fields2: Vec<Array> = Vec::new();
            for i in 0..s.fields.len()
                invariant
                    fields2@.len() == i,
                    forall|j: int|
                        0 <= j < i ==> {
                            let f2 = #[trigger] fields2@[j];
                            let f1 = s.fields@[j];
                            &&& wf(f2)
                            &&& alen(f2) == ix.values@.len()
                            &&& (viewable(f1) ==> viewable(f2) && aview(f2) == Seq::new(
                                ix.values@.len(),
                                |q: int| aview(f1)[ix.values@[q] as int],
                            ))
                        },
            {
                proof {
                    assert(decreases_to!(*array => s.fields@[i as int]));
                    assert(wf(s.fields@[i as int]));
                    assert(alen(s.fields@[i as int]) == alen(*array));
                }
                match take(&s.fields[i], indices) {
                    Result::Ok(f2) => {
                        fields2.push(f2);
                    },
                    Result::Err(e) => {
                        proof {
                            assert(!takeable(s.fields@[i as int]));
                        }
                        return Result::Err(e);
                    },
                }
            }
            let b = Array::Struct(
                StructArray { names: names2, fields: fields2, length: m },
            );
            Result::Ok(b)
        },
        _ => {
            let c = match canonicalize(array) {
                Result::Ok(c) => c,
                Result::Err(e) => {
                    return Result::Err(e);
                },
            };
            proof {
                if viewable(*array) {
                    lemma_aview_len(c);
                }
            }
            gather(array, &c, ix)
        },
    }
}

/// Gathers from a ground array.
#[verifier::loop_isolation(false)]
#[verifier::rlimit(100)]
fn gather(array: &Array, c: &Array, ix: &PrimitiveArray) -> (r: VortexResult<Array>)
    requires
        wf(*array),
        !(*array is Struct),
        wf(*c),
        *c is Primitive || *c is Bool || *c is VarBin,
        alen(*c) == alen(*array),
        viewable(*array) ==> viewable(*c) && aview(*c) == aview(*array),
        forall|q: int|
            0 <= q < ix.values@.len() ==> (#[trigger] ix.values@[q] as nat) < alen(*array),
    ensures
        match r {
            Result::Ok(b) => {
                &&& wf(b)
                &&& alen(b) == ix.values@.len()
                &&& !(b is Struct)
                &&& (viewable(*array) ==> viewable(b) && aview(b) == Seq::new(
                    ix.values@.len(),
                    |k: int| aview(*array)[ix.values@[k] as int],
                ))
            },
            Result::Err(_) => false,
        },
{
    let m = ix.values.len();
    match c {
        Array::Primitive(p) => {
            proof {
                lemma_aview_len(*c);
            }
            let plen = p.values.len();
            let mut vals: Vec<u64> = Vec::new();
            let mut mask: Vec<bool> = Vec::new();
            for k in 0..m
                invariant
                    plen == p.values@.len(),
                    vals@.len() == k,
                    mask@.len() == k,
                    forall|q: int|
                        0 <= q < k ==> #[trigger] vals@[q] == p.values@[ix.values@[q] as int],
                    forall|q: int|
                        0 <= q < k ==> #[trigger] mask@[q] == crate::array::valid_at(
                            p.validity,
                            ix.values@[q] as int,
                        ),
            {
                proof {
                    assert((ix.values@[k as int] as nat) < p.values@.len());
                    assert(ix.values@[k as int] < plen as u64);
                }
                let pos = ix.values[k] as usize;
                proof {
                    assert(pos as int == ix.values@[k as int] as int);
                }
                let ghost ov = vals@;
                let ghost om = mask@;
                vals.push(p.values[pos]);
                mask.push(
                    match &p.validity {
                        Option::Some(mm) => mm[pos],
                        Option::None => true,
                    },
                );
                proof {
                    assert forall|q: int|
                        0 <= q < k + 1 implies #[trigger] vals@[q] == p.values@[ix.values@[q] as int] by {
                        if q < k {
                            assert(vals@[q] == ov[q]);
                        }
                    }
                    assert forall|q: int|
                        0 <= q < k + 1 implies #[trigger] mask@[q] == crate::array::valid_at(
                        p.validity,
                        ix.values@[q] as int,
                    ) by {
                        if q < k {
                            assert(mask@[q] == om[q]);
                        }
                    }
                }
            }
            let b = Array::Primitive(
                PrimitiveArray { ptype: p.ptype, values: vals, validity: Option::Some(mask) },
            );
            proof {
                if viewable(*array) {
                    assert(aview(b) =~= Seq::new(
                        ix.values@.len(),
                        |k: int| aview(*array)[ix.values@[k] as int],
                    ));
                }
            }
            Result::Ok(b)
        },
        Array::Bool(bl) => {
            proof {
                lemma_aview_len(*c);
            }
            let blen = bl.values.len();
            let mut vals: Vec<bool> = Vec::new();
            let mut mask: Vec<bool> = Vec::new();
            for k in 0..m
                invariant
                    blen == bl.values@.len(),
                    vals@.len() == k,
                    mask@.len() == k,
                    forall|q: int|
                        0 <= q < k ==> #[trigger] vals@[q] == bl.values@[ix.values@[q] as int],
                    forall|q: int|
                        0 <= q < k ==> #[trigger] mask@[q] == crate::array::valid_at(
                            bl.validity,
                            ix.values@[q] as int,
                        ),
            {
                proof {
                    assert((ix.values@[k as int] as nat) < bl.values@.len());
                    assert(ix.values@[k as int] < blen as u64);
                }
                let pos = ix.values[k] as usize;
                proof {
                    assert(pos as int == ix.values@[k as int] as int);
                }
                let ghost ov = vals@;
                let ghost om = mask@;
                vals.push(bl.values[pos]);
                mask.push(
                    match &bl.validity {
                        Option::Some(mm) => mm[pos],
                        Option::None => true,
                    },
                );
                proof {
                    assert forall|q: int|
                        0 <= q < k + 1 implies #[trigger] vals@[q] == bl.values@[ix.values@[q] as int] by {
                        if q < k {
                            assert(vals@[q] == ov[q]);
                        }
                    }
                    assert forall|q: int|
                        0 <= q < k + 1 implies #[trigger] mask@[q] == crate::array::valid_at(
                        bl.validity,
                        ix.values@[q] as int,
                    ) by {
                        if q < k {
                            assert(mask@[q] == om[q]);
                        }
                    }
                }
            }
            let b = Array::Bool(BoolArray { values: vals, validity: Option::Some(mask) });
            proof {
                if viewable(*array) {
                    assert(aview(b) =~= Seq::new(
                        ix.values@.len(),
                        |k: int| aview(*array)[ix.values@[k] as int],
                    ));
                }
            }
            Result::Ok(b)
        },
        Array::VarBin(v) => {
            proof {
                lemma_aview_len(*c);
            }
            let olen = v.offsets.len();
            let mut offsets2: Vec<usize> = Vec::new();
            let mut bytes2: Vec<u8> = Vec::new();
            let mut mask: Vec<bool> = Vec::new();
            offsets2.push(0);
            for k in 0..m
                invariant
                    offsets2@.len() == k + 1,
                    mask@.len() == k,
                    offsets2@[k as int] == bytes2@.len(),
                    offsets2@[0] == 0,
                    forall|q: int|
                        0 <= q < k ==> #[trigger] offsets2@[q] <= offsets2@[q + 1],
                    forall|q: int|
                        0 <= q < k ==> #[trigger] mask@[q] == crate::array::valid_at(
                            v.validity,
                            ix.values@[q] as int,
                        ),
                    forall|q: int|
                        0 <= q < k ==> #[trigger] bytes2@.subrange(
                            offsets2@[q] as int,
                            offsets2@[q + 1] as int,
                        ) == v.bytes@.subrange(
                            v.offsets@[ix.values@[q] as int] as int,
                            v.offsets@[ix.values@[q] as int + 1] as int,
                        ),
            {
                proof {
                    assert((ix.values@[k as int] as nat) < (v.offsets@.len() - 1) as nat);
                    assert(ix.values@[k as int] < olen as u64);
                }
                let pos = ix.values[k] as usize;
                proof {
                    lemma_offsets_mono(v.offsets@, pos as int, pos as int + 1);
                    lemma_varbin_offsets_bounded(
                        v.offsets@,
                        v.bytes@.len() as int,
                        pos as int + 1,
                    );
                }
                let lo = v.offsets[pos];
                let hi = v.offsets[pos + 1];
                let ghost old_bytes = bytes2@;
                let ghost old_offsets = offsets2@;
                let ghost old_mask = mask@;
                for t in lo..hi
                    invariant
                        lo <= t <= hi,
                        hi <= v.bytes@.len(),
                        bytes2@.len() == old_bytes.len() + t - lo,
                        bytes2@.subrange(0, old_bytes.len() as int) == old_bytes,
                        bytes2@.subrange(old_bytes.len() as int, bytes2@.len() as int)
                            == v.bytes@.subrange(lo as int, t as int),
                        offsets2@ == old_offsets,
                        mask@ == old_mask,
                {
                    bytes2.push(v.bytes[t]);
                    proof {
                        assert(bytes2@.subrange(0, old_bytes.len() as int) =~= old_bytes);
                        assert(bytes2@.subrange(old_bytes.len() as int, bytes2@.len() as int)
                            =~= v.bytes@.subrange(lo as int, t + 1));
                    }
                }
                offsets2.push(bytes2.len());
                mask.push(
                    match &v.validity {
                        Option::Some(mm) => mm[pos],
                        Option::None => true,
                    },
                );
                proof {
                    assert forall|q: int|
                        0 <= q < k + 1 implies #[trigger] bytes2@.subrange(
                        offsets2@[q] as int,
                        offsets2@[q + 1] as int,
                    ) == v.bytes@.subrange(
                        v.offsets@[ix.values@[q] as int] as int,
                        v.offsets@[ix.values@[q] as int + 1] as int,
                    ) by {
                        if q < k {
                            assert(old_offsets[q + 1] <= old_bytes.len()) by {
                                lemma_gather_offsets_bounded(old_offsets, q + 1);
                            }
                            assert forall|y: int|
                                0 <= y < old_bytes.len() implies bytes2@[y] == old_bytes[y] by {
                                assert(old_bytes[y] == bytes2@.subrange(
                                    0,
                                    old_bytes.len() as int,
                                )[y]);
                            }
                            assert(bytes2@.subrange(offsets2@[q] as int, offsets2@[q + 1] as int)
                                =~= old_bytes.subrange(
                                old_offsets[q] as int,
                                old_offsets[q + 1] as int,
                            ));
                        } else {
                            assert(bytes2@.subrange(offsets2@[q] as int, offsets2@[q + 1] as int)
                                =~= v.bytes@.subrange(lo as int, hi as int));
                        }
                    }
                }
            }
            let b = Array::VarBin(
                VarBinArray {
                    is_utf8: v.is_utf8,
                    offsets: offsets2,
                    bytes: bytes2,
                    validity: Option::Some(mask),
                },
            );
            proof {
                assert(wf(b));
                if viewable(*array) {
                    assert forall|k: int|
                        0 <= k < alen(b) implies aview(b)[k] == aview(*array)[ix.values@[k] as int] by {
                        lemma_offsets_mono(v.offsets@, ix.values@[k] as int, ix.values@[k] as int + 1);
                    }
                    lemma_aview_len(b);
                    assert(aview(b) =~= Seq::new(
                        ix.values@.len(),
                        |k: int| aview(*array)[ix.values@[k] as int],
                    ));
                }
            }
            Result::Ok(b)
        },
        _ => {
            proof {
                assert(false);
            }
            Result::Err(VortexError::NotImplemented)
        },
    }
}

/// Offsets built by the gather are bounded by the final byte length.
proof fn lemma_gather_offsets_bounded(offsets: Seq<usize>, i: int)
    requires
        offsets.len() >= 1,
        0 <= i < offsets.len(),
        forall|q: int| 0 <= q < offsets.len() - 1 ==> #[trigger] offsets[q] <= offsets[q + 1],
    ensures
        offsets[i] <= offsets[offsets.len() - 1],
    decreases offsets.len() - i,
{
    if i < offsets.len() - 1 {
        lemma_gather_offsets_bounded(offsets, i + 1);
    }
}


/// The elements of `v[..i]` that `m` keeps, in order.
pub open spec fn filt(v: Seq<Value>, m: Seq<bool>, i: int) -> Seq<Value>
    decreases i,
{
    if i <= 0 {
        Seq::empty()
    } else if m[i - 1] {
        filt(v, m, i - 1).push(v[i - 1])
    } else {
        filt(v, m, i - 1)
    }
}

/// The positions among `m[..i]` that hold `true`, ascending.
pub open spec fn true_positions(m: Seq<bool>, i: int) -> Seq<u64>
    decreases i,
{
    if i <= 0 {
        Seq::empty()
    } else if m[i - 1] {
        true_positions(m, i - 1).push((i - 1) as u64)
    } else {
        true_positions(m, i - 1)
    }
}

/// Gathering at the kept positions is the filtered sequence.
pub proof fn lemma_filter_gather(v: Seq<Value>, m: Seq<bool>, i: int)
    requires
        0 <= i <= m.len(),
        m.len() == v.len(),
        m.len() <= u64::MAX,
    ensures
        true_positions(m, i).len() == filt(v, m, i).len(),
        forall|k: int|
            0 <= k < true_positions(m, i).len() ==> (#[trigger] true_positions(m, i)[k] as int)
                < i,
        Seq::new(true_positions(m, i).len(), |k: int| v[true_positions(m, i)[k] as int]) == filt(
            v,
            m,
            i,
        ),
    decreases i,
{
    if i > 0 {
        lemma_filter_gather(v, m, i - 1);
        let tp = true_positions(m, i);
        let tp0 = true_positions(m, i - 1);
        if m[i - 1] {
            assert(tp == tp0.push((i - 1) as u64));
            assert forall|k: int| 0 <= k < tp.len() implies (#[trigger] tp[k] as int) < i by {
                if k < tp0.len() {
                    assert(tp[k] == tp0[k]);
                }
            }
            assert(Seq::new(tp.len(), |k: int| v[tp[k] as int]) =~= filt(v, m, i));
        } else {
            assert(Seq::new(tp.len(), |k: int| v[tp[k] as int]) =~= filt(v, m, i));
        }
    }
}

/// Keeping every element returns the input.
pub proof fn lemma_filter_all_true(v: Seq<Value>, m: Seq<bool>, i: int)
    requires
        0 <= i <= m.len(),
        m.len() == v.len(),
        forall|k: int| 0 <= k < m.len() ==> m[k],
    ensures
        filt(v, m, i) == v.subrange(0, i),
    decreases i,
{
    if i > 0 {
        lemma_filter_all_true(v, m, i - 1);
        assert(filt(v, m, i) =~= v.subrange(0, i));
    } else {
        assert(filt(v, m, i) =~= v.subrange(0, i));
    }
}

/// Keeping no element returns the empty sequence.
pub proof fn lemma_filter_all_false(v: Seq<Value>, m: Seq<bool>, i: int)
    requires
        0 <= i <= m.len(),
        forall|k: int| 0 <= k < m.len() ==> !m[k],
    ensures
        filt(v, m, i).len() == 0,
    decreases i,
{
    if i > 0 {
        lemma_filter_all_false(v, m, i - 1);
    }
}

/// Taking every position in order returns the input.
pub proof fn lemma_take_identity(v: Seq<Value>, ids: Seq<u64>)
    requires
        ids.len() == v.len(),
        forall|k: int| 0 <= k < ids.len() ==> #[trigger] ids[k] == k as u64,
        v.len() <= u64::MAX,
    ensures
        Seq::new(ids.len(), |k: int| v[ids[k] as int]) == v,
{
    assert(Seq::new(ids.len(), |k: int| v[ids[k] as int]) =~= v);
}

/// Slicing a slice composes: the inner window shifts by the outer start.
pub proof fn lemma_slice_composition(v: Seq<Value>, i: int, j: int, k: int, l: int)
    requires
        0 <= i <= j <= v.len(),
        0 <= k <= l <= j - i,
    ensures
        v.subrange(i, j).subrange(k, l) == v.subrange(i + k, i + l),
{
    assert(v.subrange(i, j).subrange(k, l) =~= v.subrange(i + k, i + l));
}

/// The shape required of a filter mask for an array of length `n`: a
/// non-nullable boolean array of the same length.
pub open spec fn mask_ok(mask: Array, n: nat) -> bool {
    &&& mask is Bool
    &&& mask->Bool_0.validity is None
    &&& mask->Bool_0.values@.len() == n
}

/// Keeps the elements at the set positions of the mask, in order.
#[verifier::loop_isolation(false)]
#[verifier::rlimit(100)]
pub fn filter(array: &Array, mask: &Array) -> (r: VortexResult<Array>)
    requires
        wf(*array),
        wf(*mask),
    ensures
        match r {
            Result::Ok(b) => {
                &&& mask_ok(*mask, alen(*array))
                &&& wf(b)
                &&& alen(b) == true_positions(mask->Bool_0.values@, alen(*array) as int).len()
                &&& (viewable(*array) ==> viewable(b) && aview(b) == filt(
                    aview(*array),
                    mask->Bool_0.values@,
                    alen(*array) as int,
                ))
                &&& (*array is Struct ==> b is Struct && {
                    let sa = array->Struct_0;
                    let sb = b->Struct_0;
                    &&& sb.names@.len() == sa.names@.len()
                    &&& (forall|k: int|
                        0 <= k < sa.names@.len() ==> #[trigger] sb.names@[k]@ == sa.names@[k]@)
                    &&& sb.fields@.len() == sa.fields@.len()
                    &&& (forall|k: int|
                        0 <= k < sa.fields@.len() ==> viewable(#[trigger] sa.fields@[k])
                            ==> viewable(sb.fields@[k]) && aview(sb.fields@[k]) == Seq::new(
                            true_positions(
                                mask->Bool_0.values@,
                                alen(*array) as int,
                            ).len(),
                            |q: int| aview(sa.fields@[k])[true_positions(
                                mask->Bool_0.values@,
                                alen(*array) as int,
                            )[q] as int],
                        ))
                })
            },
            Result::Err(VortexError::InvalidDType(_)) => !mask_ok(*mask, alen(*array)),
            Result::Err(VortexError::NotImplemented) => {
                &&& mask_ok(*mask, alen(*array))
                &&& !takeable(*array)
            },
            Result::Err(_) => false,
        },
        takeable(*array) && mask_ok(*mask, alen(*array)) && !(*array is Struct) ==> r is Ok,
{
    let n = array.len();
    let mv = match mask {
        Array::Bool(b) => {
            if b.validity.is_some() || b.values.len() != n {
                return Result::Err(VortexError::InvalidDType(mask.dtype()));
            }
            b
        },
        _ => {
            return Result::Err(VortexError::InvalidDType(mask.dtype()));
        },
    };
    let mut positions: Vec<u64> = Vec::new();
    for i in 0..n
        invariant
            positions@ == true_positions(mv.values@, i as int),
            forall|k: int| 0 <= k < positions@.len() ==> #[trigger] positions@[k] < n as u64,
    {
        if mv.values[i] {
            positions.push(i as u64);
        }
    }
    proof {
        if viewable(*array) {
            lemma_aview_len(*array);
            lemma_filter_gather(aview(*array), mv.values@, n as int);
        }
    }
    let ghost pos_seq = positions@;
    let ix = Array::Primitive(
        PrimitiveArray { ptype: PType::U64, values: positions, validity: Option::None },
    );
    let taken = take(array, &ix);
    proof {
        if taken is Err {
            assert(take_idx_ok(ix));
            if taken->Err_0 is OutOfBounds {
                let k = choose|k: int|
                    0 <= k < pos_seq.len() && (#[trigger] pos_seq[k] as nat) >= alen(*array);
                assert((pos_seq[k] as int) < n as int);
                assert(false);
            }
        }
    }
    match taken {
        Result::Ok(b) => {
            proof {
                if viewable(*array) {
                    assert(aview(b) == Seq::new(
                        pos_seq.len(),
                        |k: int| aview(*array)[pos_seq[k] as int],
                    ));
                }
            }
            Result::Ok(b)
        },
        Result::Err(e) => Result::Err(e),
    }
}

/// Which side of equal elements a sorted search lands on.
#[derive(Clone, Copy, PartialEq, Eq, Structural, Debug)]
pub enum SearchSortedSide {
    Left,
    Right,
}

/// How many of `vals[..i]` lie strictly below `t`.
pub open spec fn count_lt(vals: Seq<u64>, t: u64, i: int) -> nat
    decreases i,
{
    if i <= 0 {
        0nat
    } else {
        count_lt(vals, t, i - 1) + if vals[i - 1] < t {
            1nat
        } else {
            0nat
        }
    }
}

/// How many of `vals[..i]` lie at or below `t`.
pub open spec fn count_le(vals: Seq<u64>, t: u64, i: int) -> nat
    decreases i,
{
    if i <= 0 {
        0nat
    } else {
        count_le(vals, t, i - 1) + if vals[i - 1] <= t {
            1nat
        } else {
            0nat
        }
    }
}

/// The insertion point of `target` in a sorted non-nullable integer array:
/// on the left side, the count of elements whose stored 64-bit pattern lies
/// strictly below the target; on the right side, the count at or below it.
#[verifier::loop_isolation(false)]
pub fn search_sorted(a: &Array, target: u64, side: SearchSortedSide) -> (r: VortexResult<usize>)
    requires
        wf(*a),
    ensures
        match r {
            Result::Ok(p) => {
                &&& take_idx_ok(*a)
                &&& p as nat == (match side {
                    SearchSortedSide::Left => count_lt(
                        a->Primitive_0.values@,
                        target,
                        a->Primitive_0.values@.len() as int,
                    ),
                    SearchSortedSide::Right => count_le(
                        a->Primitive_0.values@,
                        target,
                        a->Primitive_0.values@.len() as int,
                    ),
                })
            },
            Result::Err(VortexError::InvalidDType(_)) => !take_idx_ok(*a),
            Result::Err(_) => false,
        },
        take_idx_ok(*a) ==> r is Ok,
{
    let p = match a {
        Array::Primitive(p) => {
            if !p.ptype.is_int() || p.validity.is_some() {
                return Result::Err(VortexError::InvalidDType(a.dtype()));
            }
            p
        },
        _ => {
            return Result::Err(VortexError::InvalidDType(a.dtype()));
        },
    };
    let n = p.values.len();
    let mut count: usize = 0;
    for i in 0..n
        invariant
            count as nat == (match side {
                SearchSortedSide::Left => count_lt(p.values@, target, i as int),
                SearchSortedSide::Right => count_le(p.values@, target, i as int),
            }),
            count <= i,
    {
        let hit = match side {
            SearchSortedSide::Left => p.values[i] < target,
            SearchSortedSide::Right => p.values[i] <= target,
        };
        if hit {
            count = count + 1;
        }
    }
    Result::Ok(count)
}

/// Subtracts one scalar from every element's stored 64-bit pattern in a
/// non-nullable integer array. Fails if any element would underflow.
#[verifier::loop_isolation(false)]
pub fn subtract_scalar(a: &Array, c: u64) -> (r: VortexResult<Array>)
    requires
        wf(*a),
    ensures
        match r {
            Result::Ok(b) => {
                &&& take_idx_ok(*a)
                &&& (forall|k: int|
                    0 <= k < a->Primitive_0.values@.len()
                        ==> #[trigger] a->Primitive_0.values@[k] >= c)
                &&& b is Primitive
                &&& b->Primitive_0.ptype == a->Primitive_0.ptype
                &&& b->Primitive_0.validity is None
                &&& wf(b)
                &&& b->Primitive_0.values@ == Seq::new(
                    a->Primitive_0.values@.len(),
                    |k: int| (a->Primitive_0.values@[k] - c) as u64,
                )
            },
            Result::Err(VortexError::InvalidDType(_)) => !take_idx_ok(*a),
            Result::Err(VortexError::CodecError) => {
                &&& take_idx_ok(*a)
                &&& exists|k: int|
                    0 <= k < a->Primitive_0.values@.len()
                        && #[trigger] a->Primitive_0.values@[k] < c
            },
            Result::Err(_) => false,
        },
{
    let p = match a {
        Array::Primitive(p) => {
            if !p.ptype.is_int() || p.validity.is_some() {
                return Result::Err(VortexError::InvalidDType(a.dtype()));
            }
            p
        },
        _ => {
            return Result::Err(VortexError::InvalidDType(a.dtype()));
        },
    };
    let n = p.values.len();
    let mut out: Vec<u64> = Vec::new();
    for i in 0..n
        invariant
            out@.len() == i,
            forall|k: int| 0 <= k < i ==> #[trigger] p.values@[k] >= c,
            forall|k: int| 0 <= k < i ==> #[trigger] out@[k] == (p.values@[k] - c) as u64,
    {
        if p.values[i] < c {
            return Result::Err(VortexError::CodecError);
        }
        out.push(p.values[i] - c);
    }
    proof {
        assert(out@ =~= Seq::new(
            p.values@.len(),
            |k: int| (p.values@[k] - c) as u64,
        ));
    }
    Result::Ok(
        Array::Primitive(PrimitiveArray { ptype: p.ptype, values: out, validity: Option::None }),
    )
}

/// Logical conjunction of two non-nullable boolean arrays of equal length.
#[verifier::loop_isolation(false)]
pub fn and(a: &Array, b: &Array) -> (r: VortexResult<Array>)
    requires
        wf(*a),
        wf(*b),
    ensures
        match r {
            Result::Ok(o) => {
                &&& *a is Bool && a->Bool_0.validity is None
                &&& *b is Bool && b->Bool_0.validity is None
                &&& a->Bool_0.values@.len() == b->Bool_0.values@.len()
                &&& o is Bool
                &&& wf(o)
                &&& o->Bool_0.validity is None
                &&& o->Bool_0.values@ == Seq::new(
                    a->Bool_0.values@.len(),
                    |k: int| a->Bool_0.values@[k] && b->Bool_0.values@[k],
                )
            },
            Result::Err(VortexError::InvalidDType(_)) => !(*a is Bool && a->Bool_0.validity
                is None && *b is Bool && b->Bool_0.validity is None && a->Bool_0.values@.len()
                == b->Bool_0.values@.len()),
            Result::Err(_) => false,
        },
{
    match (a, b) {
        (Array::Bool(x), Array::Bool(y)) => {
            if x.validity.is_some() || y.validity.is_some() || x.values.len() != y.values.len() {
                return Result::Err(VortexError::InvalidDType(a.dtype()));
            }
            let n = x.values.len();
            let mut out: Vec<bool> = Vec::new();
            for i in 0..n
                invariant
                    out@.len() == i,
                    forall|k: int|
                        0 <= k < i ==> #[trigger] out@[k] == (x.values@[k] && y.values@[k]),
            {
                out.push(x.values[i] && y.values[i]);
            }
            proof {
                assert(out@ =~= Seq::new(
                    x.values@.len(),
                    |k: int| x.values@[k] && y.values@[k],
                ));
            }
            Result::Ok(Array::Bool(BoolArray { values: out, validity: Option::None }))
        },
        _ => Result::Err(VortexError::InvalidDType(a.dtype())),
    }
}

} // verus!
