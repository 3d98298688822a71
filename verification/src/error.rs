//! What can go wrong when a blob is decoded or encoded.

use vstd::prelude::*;

verus! {

/// A failure of the codec.
#[derive(Debug, Clone, Copy, PartialEq, Eq)]
pub enum CodecError {
    /// The two stored checksums and the two computed ones are not all equal.
    CrcMismatch { stored1: u32, stored2: u32, computed1: u32, computed2: u32 },
    /// A record is not well-formed UTF-8.
    InvalidUtf8,
    /// A record has no `=`, or an entry cannot be stored as a record.
    MalformedRecord,
    /// The records take `have` bytes and the data region holds `max`.
    DataTooLarge { have: usize, max: usize },
    /// The assembled blob has not the length that was asked for.
    SizeInvariantViolated,
}

} // verus!
