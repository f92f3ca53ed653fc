//! What decoding reports when it fails.

use vstd::prelude::*;

verus! {

/// The largest buffer that decoding is willing to build, in bytes.
pub const MAX_VEC_SIZE: usize = 4_000_000;

/// A failed decode.
#[derive(Clone, Copy, Debug, PartialEq, Eq)]
pub enum Error {
    /// The input ended before the value did.
    UnexpectedEof,
    /// A length prefix was written in more bytes than its value needs.
    NonMinimalVarInt,
    /// The declared sizes ask for a buffer of more than `max` bytes.
    /// `requested` is `usize::MAX` where the size does not fit in a `usize`.
    OversizedVectorAllocation { requested: usize, max: usize },
    /// The value ended before the input did.
    ParseFailed,
}

} // verus!
