//! Checksums of slot data and the rule by which a blob is trusted.

use crate::error::CodecError;
use vstd::prelude::*;

verus! {

/// The CRC32 (IEEE) checksum of a byte sequence: what `crc32fast::hash`
/// returns for these bytes. Nothing more is claimed of it here.
pub uninterp spec fn crc32(data: Seq<u8>) -> u32;

/// `crc32fast::hash` computes the CRC32 (IEEE) checksum of the slice it is
/// given. The result depends on the bytes alone, and [`crc32`] is its name.
/// This is taken on trust.
pub assume_specification[ crc32fast::hash ](buf: &[u8]) -> (crc: u32)
    ensures
        crc == crc32(buf@),
;

/// The checksum of `data`.
pub fn compute_crc(data: &[u8]) -> (crc: u32)
    ensures
        crc == crc32(data@),
{
    crc32fast::hash(data)
}

/// Whether a slot's stored checksum matches the checksum computed over its data.
pub fn verify_slot(stored_crc: u32, computed_crc: u32) -> (ok: bool)
    ensures
        ok == (stored_crc == computed_crc),
{
    stored_crc == computed_crc
}

/// A blob is trusted only when the two stored checksums and the two
/// computed ones are all equal.
pub open spec fn checksums_agree(stored1: u32, stored2: u32, computed1: u32, computed2: u32) -> bool {
    stored1 == stored2 && stored1 == computed1 && stored2 == computed2
}

/// Holds the four checksums of a blob to the rule, and reports all four
/// when they do not agree.
pub fn verify_checksums(stored1: u32, stored2: u32, computed1: u32, computed2: u32) -> (r: Result<
    (),
    CodecError,
>)
    ensures
        r is Ok <==> checksums_agree(stored1, stored2, computed1, computed2),
        r matches Err(e) ==> e == (CodecError::CrcMismatch {
            stored1,
            stored2,
            computed1,
            computed2,
        }),
{
    if stored1 == stored2 && verify_slot(stored1, computed1) && verify_slot(stored2, computed2) {
        Ok(())
    } else {
        Err(CodecError::CrcMismatch { stored1, stored2, computed1, computed2 })
    }
}

} // verus!
