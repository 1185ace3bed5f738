//! The compression planner: given an array, probe the candidate encodings,
//! keep a candidate only when it shrinks the serialized size below the
//! threshold, and otherwise return the input unchanged — compression never
//! expands. Recursion over children is bounded by the depth limit.
//!
//! Float columns go through the adaptive float encoding's own entry points,
//! which take the caller's decimal transforms; the planner handles the
//! encodings it can probe by itself.

use vstd::prelude::*;

use crate::array::{
    alen, aview, has_dtype, nbytes_of, sum_alens_from, sum_nbytes_from, viewable, wf, Array,
    ChunkedArray, StructArray,
};
use crate::dtype::DType;
use crate::error::VortexResult;
use crate::roaring::roaring_encode;

verus! {

/// Planner options: the recursion bound and the shrink threshold, as the
/// rational `threshold_num / threshold_den`. A candidate is kept only when
/// `candidate_bytes * den <= input_bytes * num`.
pub struct CompressConfig {
    pub max_depth: u8,
    pub threshold_num: u64,
    pub threshold_den: u64,
}

impl CompressConfig {
    /// Depth three and a nine-tenths threshold.
    pub fn default_config() -> (r: Self)
        ensures
            r.max_depth == 3,
            r.threshold_num == 9,
            r.threshold_den == 10,
            r.wf_spec(),
    {
        Self { max_depth: 3, threshold_num: 9, threshold_den: 10 }
    }

    pub open spec fn wf_spec(self) -> bool {
        0 < self.threshold_num <= self.threshold_den
    }
}

/// Compresses one array. The result holds the same elements and never takes
/// more serialized bytes than the input; where no candidate improves on the
/// input, the input itself comes back.
#[verifier::loop_isolation(false)]
#[verifier::rlimit(100)]
pub fn compress(a: Array, config: &CompressConfig, depth: u8) -> (r: Array)
    requires
        wf(a),
        config.wf_spec(),
    ensures
        wf(r),
        alen(r) == alen(a),
        nbytes_of(r) <= nbytes_of(a),
        viewable(a) ==> viewable(r) && aview(r) == aview(a),
        forall|d: DType| has_dtype(a, d) ==> #[trigger] has_dtype(r, d),
        !(a is Chunked) ==> !(r is Chunked),
        a is Bool ==> (r == a || (r is RoaringBool && (nbytes_of(r) as int) * (
        config.threshold_den as int) <= (nbytes_of(a) as int) * (config.threshold_num as int))),
    decreases a,
{
    if depth >= config.max_depth {
        return a;
    }
    let probe_bitmap = match &a {
        Array::Bool(b) => b.validity.is_none(),
        _ => false,
    };
    match a {
        Array::Bool(_) if probe_bitmap => {
            let input_bytes = a.nbytes();
            match crate::array::RoaringBoolArray::encode(&a) {
                Result::Ok(rb) => {
                    let candidate = Array::RoaringBool(rb);
                    let cand_bytes = candidate.nbytes();
                    proof {
                        assert((cand_bytes as int) * (config.threshold_den as int) <= (
                        u64::MAX as int) * (u64::MAX as int) && (input_bytes as int) * (
                        config.threshold_num as int) <= (u64::MAX as int) * (u64::MAX as int)
                            && (u64::MAX as int) * (u64::MAX as int) <= u128::MAX as int)
                            by (nonlinear_arith)
                            requires
                                0 <= cand_bytes <= u64::MAX,
                                0 <= input_bytes <= u64::MAX,
                                0 <= config.threshold_den <= u64::MAX,
                                0 <= config.threshold_num <= u64::MAX,
                        ;
                    }
                    if (cand_bytes as u128) * (config.threshold_den as u128) <= (
                    input_bytes as u128) * (config.threshold_num as u128) {
                        proof {
                            assert((cand_bytes as u128) * (config.threshold_den as u128) >= (
                            cand_bytes as u128) * (config.threshold_num as u128))
                                by (nonlinear_arith)
                                requires
                                    config.threshold_num <= config.threshold_den,
                                    cand_bytes >= 0,
                            ;
                            assert(cand_bytes <= input_bytes) by (nonlinear_arith)
                                requires
                                    (cand_bytes as u128) * (config.threshold_num as u128) <= (
                                    input_bytes as u128) * (config.threshold_num as u128),
                                    config.threshold_num > 0,
                            ;
                            assert forall|d: DType| has_dtype(a, d) implies #[trigger] has_dtype(
                                candidate,
                                d,
                            ) by {
                                assert(a->Bool_0.validity is None);
                            }
                        }
                        candidate
                    } else {
                        a
                    }
                },
                Result::Err(_) => a,
            }
        },
        Array::Chunked(c) => {
            let dtype = c.dtype;
            let chunks = c.chunks;
            let ghost orig = chunks@;
            let mut out: Vec<Array> = Vec::new();
            let n = chunks.len();
            let mut i: usize = 0;
            let mut rest = chunks;
            // Chunks are compressed first to last; the first full probe's
            // shape serves as the hint for the rest.
            for i in 0..n
                invariant
                    rest@.len() == n - i,
                    out@.len() == i,
                    forall|k: int| 0 <= k < n - i ==> #[trigger] rest@[k] == orig[i + k],
                    forall|k: int|
                        0 <= k < i ==> {
                            let o = #[trigger] out@[k];
                            &&& wf(o)
                            &&& alen(o) == alen(orig[k])
                            &&& nbytes_of(o) <= nbytes_of(orig[k])
                            &&& (viewable(orig[k]) ==> viewable(o) && aview(o) == aview(orig[k]))
                            &&& (forall|d: DType|
                                has_dtype(orig[k], d) ==> #[trigger] has_dtype(o, d))
                            &&& !(o is Chunked)
                        },
            {
                let chunk = rest.remove(0);
                proof {
                    assert(chunk == orig[i as int]);
                    assert(wf(orig[i as int]));
                    assert(decreases_to!(a => orig[i as int]));
                    assert(!(orig[i as int] is Chunked));
                }
                let compressed = compress(chunk, config, (depth + 1) as u8);
                proof {
                    assert(!(compressed is Chunked));
                }
                out.push(compressed);
            }
            let r = Array::Chunked(ChunkedArray { chunks: out, dtype });
            proof {
                lemma_sum_alens_le(orig, r->Chunked_0.chunks@, 0);
                lemma_sum_nbytes_le(orig, r->Chunked_0.chunks@, 0);
                if viewable(a) {
                    lemma_cat_views_eq(orig, r->Chunked_0.chunks@, 0);
                    assert forall|k: int|
                        0 <= k < r->Chunked_0.chunks@.len() implies viewable(
                        #[trigger] r->Chunked_0.chunks@[k],
                    ) by {
                        assert(viewable(orig[k]));
                    }
                }
                assert forall|k: int|
                    0 <= k < r->Chunked_0.chunks@.len() implies wf(
                    #[trigger] r->Chunked_0.chunks@[k],
                ) && has_dtype(r->Chunked_0.chunks@[k], r->Chunked_0.dtype) && !(
                r->Chunked_0.chunks@[k] is Chunked) by {
                    assert(has_dtype(orig[k], c.dtype));
                }
            }
            r
        },
        Array::Struct(s) => {
            let length = s.length;
            let names = s.names;
            let fields = s.fields;
            let ghost orig = fields@;
            let mut out: Vec<Array> = Vec::new();
            let n = fields.len();
            let mut rest = fields;
            for i in 0..n
                invariant
                    rest@.len() == n - i,
                    out@.len() == i,
                    forall|k: int| 0 <= k < n - i ==> #[trigger] rest@[k] == orig[i + k],
                    forall|k: int|
                        0 <= k < i ==> {
                            let o = #[trigger] out@[k];
                            &&& wf(o)
                            &&& alen(o) == alen(orig[k])
                            &&& nbytes_of(o) <= nbytes_of(orig[k])
                            &&& (forall|d: DType|
                                has_dtype(orig[k], d) ==> #[trigger] has_dtype(o, d))
                        },
            {
                let field = rest.remove(0);
                proof {
                    assert(field == orig[i as int]);
                    assert(wf(orig[i as int]));
                    assert(alen(orig[i as int]) == length as nat);
                    assert(decreases_to!(a => orig[i as int]));
                }
                let compressed = compress(field, config, (depth + 1) as u8);
                out.push(compressed);
            }
            let r = Array::Struct(StructArray { names, fields: out, length });
            proof {
                lemma_sum_nbytes_le(orig, r->Struct_0.fields@, 0);
                assert forall|d: DType| has_dtype(a, d) implies #[trigger] has_dtype(r, d) by {
                    match d {
                        DType::Struct(nm, tps, x) => {
                            assert forall|k: int| 0 <= k < tps@.len() implies has_dtype(
                                #[trigger] r->Struct_0.fields@[k],
                                tps@[k],
                            ) by {
                                assert(has_dtype(orig[k], tps@[k]));
                            }
                        },
                        _ => {},
                    }
                }
            }
            r
        },
        _ => a,
    }
}

/// Element-wise equal lengths give equal summed lengths.
proof fn lemma_sum_alens_le(s1: Seq<Array>, s2: Seq<Array>, i: int)
    requires
        s1.len() == s2.len(),
        forall|k: int| 0 <= k < s1.len() ==> alen(#[trigger] s2[k]) == alen(s1[k]),
    ensures
        sum_alens_from(s2, i) == sum_alens_from(s1, i),
    decreases s1.len() - i,
{
    if 0 <= i < s1.len() {
        lemma_sum_alens_le(s1, s2, i + 1);
    }
}

/// Element-wise smaller byte counts give smaller summed byte counts.
proof fn lemma_sum_nbytes_le(s1: Seq<Array>, s2: Seq<Array>, i: int)
    requires
        s1.len() == s2.len(),
        forall|k: int| 0 <= k < s1.len() ==> nbytes_of(#[trigger] s2[k]) <= nbytes_of(s1[k]),
    ensures
        sum_nbytes_from(s2, i) <= sum_nbytes_from(s1, i),
    decreases s1.len() - i,
{
    if 0 <= i < s1.len() {
        lemma_sum_nbytes_le(s1, s2, i + 1);
    }
}

/// Element-wise equal views give equal concatenated views.
proof fn lemma_cat_views_eq(s1: Seq<Array>, s2: Seq<Array>, i: int)
    requires
        s1.len() == s2.len(),
        forall|k: int| 0 <= k < s1.len() ==> viewable(#[trigger] s1[k]),
        forall|k: int|
            0 <= k < s1.len() ==> viewable(#[trigger] s2[k]) && aview(s2[k]) == aview(s1[k]),
    ensures
        crate::array::cat_views_from(s2, i) == crate::array::cat_views_from(s1, i),
    decreases s1.len() - i,
{
    if 0 <= i < s1.len() {
        lemma_cat_views_eq(s1, s2, i + 1);
    }
}

} // verus!
