use vstd::prelude::*;

verus! {

/// The ways a varint decode can fail.
#[derive(Clone, Copy, Debug, PartialEq, Eq)]
pub enum VartyIntError {
    /// Decoding started on a view with no bytes remaining, so there is
    /// nothing to return.  Callers can treat this as a clean end of stream.
    EmptyBuffer,

    /// The view ran out of bytes while a continuation bit was still pending:
    /// the element is truncated.
    NotEnoughBytes,

    /// The encoded magnitude carries a set bit that the requested integer
    /// width cannot hold: the stream was written for a wider type, or is
    /// corrupted.
    TooManyBytesForType,
}

} // verus!
