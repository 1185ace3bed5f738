//! A columnar, chunked, in-memory array library with a cascade of lightweight
//! encodings and a self-describing file format: values can be read at a
//! position, sliced, filtered, projected and taken by index without full
//! decompression.

use vstd::prelude::*;

pub mod alp;
pub mod array;
pub mod bitmap;
pub mod compress;
pub mod compute;
pub mod dtype;
pub mod error;
pub mod file;
pub mod roaring;
pub mod stats;
pub mod scalar;

verus! {

/// Alignment of buffer payloads inside a file message.
pub const ALIGNMENT: usize = 64;

/// Rounds `n` up to the next multiple of [`ALIGNMENT`].
pub fn aligned_len(n: usize) -> (r: usize)
    requires
        n + ALIGNMENT <= usize::MAX,
    ensures
        r >= n,
        r as int % ALIGNMENT as int == 0,
        r - n < ALIGNMENT,
{
    let rem = n % ALIGNMENT;
    if rem == 0 {
        n
    } else {
        n + (ALIGNMENT - rem)
    }
}

} // verus!
