//! Point values: a `Scalar` is a single boxed value of a given logical type.
//! `Value` is the mathematical model every array view is a sequence of.

use vstd::prelude::*;

use crate::dtype::{clone_vec_copy, dtype_clone, dtype_matches, DType, PType};

verus! {

/// The model of one array element, as contracts speak of it. Byte payloads
/// are abstract sequences; primitive payloads are 64-bit patterns.
pub enum Value {
    Null,
    Bool(bool),
    Prim(PType, u64),
    Bytes(Seq<u8>),
}

/// A single typed value, usable from executable code.
#[derive(Debug, PartialEq)]
pub enum Scalar {
    Null(DType),
    Bool(bool),
    Prim(PType, u64),
    Utf8(Vec<u8>),
    Binary(Vec<u8>),
}

impl Scalar {
    /// The model this scalar denotes.
    pub open spec fn value(self) -> Value {
        match self {
            Scalar::Null(_) => Value::Null,
            Scalar::Bool(b) => Value::Bool(b),
            Scalar::Prim(p, v) => Value::Prim(p, v),
            Scalar::Utf8(b) => Value::Bytes(b@),
            Scalar::Binary(b) => Value::Bytes(b@),
        }
    }

    pub fn is_null(&self) -> (r: bool)
        ensures
            r == (self.value() is Null),
    {
        matches!(self, Scalar::Null(_))
    }

    /// The stored 64-bit pattern of a primitive scalar.
    pub fn as_prim(&self) -> (r: Option<u64>)
        ensures
            match r {
                Some(v) => self.value() == Value::Prim(self->Prim_0, v),
                None => !(self.value() is Prim),
            },
    {
        match self {
            Scalar::Prim(_, v) => Some(*v),
            _ => None,
        }
    }

    pub fn as_bool(&self) -> (r: Option<bool>)
        ensures
            match r {
                Some(b) => self.value() == Value::Bool(b),
                None => !(self.value() is Bool),
            },
    {
        match self {
            Scalar::Bool(b) => Some(*b),
            _ => None,
        }
    }
}

/// A possibly-null wrapper around a scalar, tagged with the logical type of
/// the null case.
#[derive(Debug, PartialEq)]
pub enum NullableScalar {
    Present(Box<Scalar>),
    Absent(DType),
}

impl NullableScalar {
    pub fn some(scalar: Box<Scalar>) -> (r: Self)
        ensures
            r == NullableScalar::Present(scalar),
    {
        Self::Present(scalar)
    }

    pub fn none(dtype: DType) -> (r: Self)
        ensures
            r == NullableScalar::Absent(dtype),
    {
        Self::Absent(dtype)
    }

    /// The logical type this value carries: the inner scalar's where
    /// present, the recorded type where absent.
    pub fn dtype(&self) -> (r: DType)
        ensures
            match self {
                NullableScalar::Present(s) => crate::array::scalar_has_dtype(**s, r),
                NullableScalar::Absent(d) => crate::dtype::dtype_matches(*d, r),
            },
    {
        match self {
            NullableScalar::Present(s) => match &**s {
                Scalar::Null(d) => dtype_clone(d),
                Scalar::Bool(_) => DType::Bool(crate::dtype::Nullability::NonNullable),
                Scalar::Prim(p, _) => p.dtype(crate::dtype::Nullability::NonNullable),
                Scalar::Utf8(_) => DType::Utf8(crate::dtype::Nullability::NonNullable),
                Scalar::Binary(_) => DType::Binary(crate::dtype::Nullability::NonNullable),
            },
            NullableScalar::Absent(d) => dtype_clone(d),
        }
    }

    /// The model of this value: `Null` for the absent case.
    pub open spec fn value(self) -> Value {
        match self {
            NullableScalar::Present(s) => s.value(),
            NullableScalar::Absent(_) => Value::Null,
        }
    }
}


/// Structural equality of scalars, with null types matched in both
/// directions and payloads compared by contents.
pub open spec fn scalar_matches(a: Scalar, b: Scalar) -> bool {
    match (a, b) {
        (Scalar::Null(d1), Scalar::Null(d2)) => dtype_matches(d1, d2) && dtype_matches(d2, d1),
        (Scalar::Bool(x), Scalar::Bool(y)) => x == y,
        (Scalar::Prim(p1, v1), Scalar::Prim(p2, v2)) => p1 == p2 && v1 == v2,
        (Scalar::Utf8(x), Scalar::Utf8(y)) => x@ == y@,
        (Scalar::Binary(x), Scalar::Binary(y)) => x@ == y@,
        _ => false,
    }
}

/// Copies a scalar; the copy matches the original and denotes the same value.
pub fn scalar_clone(s: &Scalar) -> (r: Scalar)
    ensures
        scalar_matches(r, *s),
        scalar_matches(*s, r),
        r.value() == s.value(),
{
    match s {
        Scalar::Null(d) => Scalar::Null(dtype_clone(d)),
        Scalar::Bool(b) => Scalar::Bool(*b),
        Scalar::Prim(p, v) => Scalar::Prim(*p, *v),
        Scalar::Utf8(b) => Scalar::Utf8(clone_vec_copy(b)),
        Scalar::Binary(b) => Scalar::Binary(clone_vec_copy(b)),
    }
}

} // verus!
