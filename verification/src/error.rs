//! Error kinds shared across the library. Kernels return errors; the planner
//! treats a candidate's error as "not applicable"; stream readers yield an
//! error once and end.

use vstd::prelude::*;

use crate::dtype::DType;

verus! {

#[derive(Debug, PartialEq)]
pub enum VortexError {
    /// Operation applied to a wrong logical type.
    InvalidDType(DType),
    /// Unknown encoding id, or coercion to a wrong encoding.
    InvalidEncoding,
    /// Index, slice, or take beyond length: (index, length).
    OutOfBounds(usize, usize),
    /// Missing field, malformed magic, or corrupted buffer size.
    InvalidSerde,
    /// Operation unsupported by this encoding.
    NotImplemented,
    /// Underlying byte-range read or write failure.
    Io,
    /// Encoding-specific failure.
    CodecError,
}

pub type VortexResult<T> = Result<T, VortexError>;

impl VortexError {
    /// A short stable description, for callers that print errors.
    pub fn describe(&self) -> &'static str {
        match self {
            VortexError::InvalidDType(_) => "invalid dtype",
            VortexError::InvalidEncoding => "invalid encoding",
            VortexError::OutOfBounds(_, _) => "out of bounds",
            VortexError::InvalidSerde => "invalid serde",
            VortexError::NotImplemented => "not implemented",
            VortexError::Io => "io error",
            VortexError::CodecError => "codec error",
        }
    }
}

} // verus!
