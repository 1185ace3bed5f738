//! Per-array statistics. A statistic is a pure function of the array's
//! elements, so computing one twice returns the same value and never touches
//! the array; the cache only saves the recomputation.

use vstd::prelude::*;

use crate::array::{alen, aview, viewable, wf, Array};
use crate::bitmap::{bitmap_cardinality, bitmap_elems};
use crate::error::{VortexError, VortexResult};
use crate::scalar::Value;

verus! {

#[derive(Clone, Copy, PartialEq, Eq, Structural, Debug)]
pub enum Stat {
    Min,
    Max,
    TrueCount,
    NullCount,
    IsConstant,
}

/// The value of one statistic, where defined: a pure function of the view.
pub open spec fn spec_stat(a: Array, s: Stat) -> Option<u64> {
    match s {
        Stat::TrueCount => match a {
            Array::RoaringBool(rb) => if bitmap_elems(rb.bitmap).finite() {
                Option::Some(bitmap_elems(rb.bitmap).len() as u64)
            } else {
                Option::None
            },
            _ => Option::None,
        },
        Stat::NullCount => if viewable(a) && crate::compute::flattenable(a) {
            Option::Some(count_nulls(aview(a), aview(a).len() as int) as u64)
        } else {
            Option::None
        },
        Stat::IsConstant => match a {
            Array::RoaringBool(rb) => if bitmap_elems(rb.bitmap).finite() {
                Option::Some(
                    if bitmap_elems(rb.bitmap).len() == 0 || bitmap_elems(rb.bitmap).len()
                        == alen(a) {
                        1u64
                    } else {
                        0u64
                    },
                )
            } else {
                Option::None
            },
            _ => Option::None,
        },
        _ => Option::None,
    }
}

/// Nulls among the first `i` elements of a view.
pub open spec fn count_nulls(v: Seq<Value>, i: int) -> nat
    decreases i,
{
    if i <= 0 {
        0nat
    } else {
        count_nulls(v, i - 1) + if v[i - 1] is Null {
            1nat
        } else {
            0nat
        }
    }
}

/// Computes one statistic. The result is exactly the statistic's
/// mathematical value, so recomputing can never disagree with a cached copy,
/// and the array — immutable throughout — is read, not changed.
#[verifier::loop_isolation(false)]
pub fn compute_stat(a: &Array, s: Stat) -> (r: VortexResult<u64>)
    requires
        wf(*a),
    ensures
        match r {
            Result::Ok(v) => spec_stat(*a, s) == Option::Some(v),
            Result::Err(VortexError::NotImplemented) => spec_stat(*a, s) is None,
            Result::Err(_) => false,
        },
{
    match s {
        Stat::TrueCount => match a {
            Array::RoaringBool(rb) => {
                let c = bitmap_cardinality(&rb.bitmap);
                Result::Ok(c)
            },
            _ => Result::Err(VortexError::NotImplemented),
        },
        Stat::IsConstant => match a {
            Array::RoaringBool(rb) => {
                let c = bitmap_cardinality(&rb.bitmap);
                let n = rb.length;
                Result::Ok(
                    if c == 0 || c == n as u64 {
                        1
                    } else {
                        0
                    },
                )
            },
            _ => Result::Err(VortexError::NotImplemented),
        },
        Stat::NullCount => {
            match crate::compute::canonicalize(a) {
                Result::Ok(c) => {
                    if !matches!(&c, Array::Struct(_)) {
                        proof {
                            if !viewable(*a) {
                                match a {
                                    Array::Sparse(sp) => {
                                        assert(viewable(*sp.values));
                                    },
                                    _ => {},
                                }
                                assert(false);
                            }
                        }
                        let n = c.len();
                        proof {
                            crate::compute::lemma_aview_len(c);
                            crate::compute::lemma_aview_len(*a);
                        }
                        let mut nulls: usize = 0;
                        for i in 0..n
                            invariant
                                nulls as nat == count_nulls(aview(*a), i as int),
                                nulls <= i,
                        {
                            let sc = crate::compute::scalar_at(&c, i)?;
                            if sc.is_null() {
                                nulls = nulls + 1;
                            }
                        }
                        Result::Ok(nulls as u64)
                    } else {
                        Result::Err(VortexError::NotImplemented)
                    }
                },
                Result::Err(_) => Result::Err(VortexError::NotImplemented),
            }
        },
        _ => Result::Err(VortexError::NotImplemented),
    }
}

/// Computing a statistic twice returns the same value: both computations
/// equal the statistic's mathematical value on the unchanged array.
pub proof fn lemma_stat_idempotent(a: Array, s: Stat, r1: u64, r2: u64)
    requires
        spec_stat(a, s) == Option::Some(r1),
        spec_stat(a, s) == Option::Some(r2),
    ensures
        r1 == r2,
{
}

/// A lazily filled cache of statistics for one array. Entries are only ever
/// appended, and every entry equals the statistic's mathematical value.
pub struct StatsSet {
    pub entries: Vec<(Stat, u64)>,
}

impl StatsSet {
    pub open spec fn wf_for(self, a: Array) -> bool {
        forall|k: int|
            0 <= k < self.entries@.len() ==> spec_stat(a, (#[trigger] self.entries@[k]).0)
                == Option::Some(self.entries@[k].1)
    }

    pub fn new() -> (r: Self)
        ensures
            r.entries@.len() == 0,
    {
        Self { entries: Vec::new() }
    }

    /// Returns the cached value, or computes and caches it. Either way the
    /// result is the statistic's mathematical value.
    #[verifier::loop_isolation(false)]
    pub fn get_or_compute(&mut self, a: &Array, s: Stat) -> (r: VortexResult<u64>)
        requires
            wf(*a),
            old(self).wf_for(*a),
        ensures
            final(self).wf_for(*a),
            match r {
                Result::Ok(v) => spec_stat(*a, s) == Option::Some(v),
                Result::Err(VortexError::NotImplemented) => spec_stat(*a, s) is None,
                Result::Err(_) => false,
            },
    {
        let n = self.entries.len();
        for k in 0..n
            invariant
                n == self.entries@.len(),
                self.wf_for(*a),
        {
            let (st, v) = self.entries[k];
            if st == s {
                proof {
                    assert(spec_stat(*a, self.entries@[k as int].0) == Option::Some(
                        self.entries@[k as int].1,
                    ));
                }
                return Result::Ok(v);
            }
        }
        let v = compute_stat(a, s)?;
        self.entries.push((s, v));
        Result::Ok(v)
    }
}

} // verus!
