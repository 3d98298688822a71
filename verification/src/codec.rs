//! Decoding a blob into an environment, and encoding an environment as a blob.

use crate::blob::{
    assemble, blob_bytes, first_slot, second_slot, slot_data, stored_crc, u32_from_le, HEADER_LEN,
};
use crate::checksum::{checksums_agree, compute_crc, crc32, verify_checksums};
use crate::data::{
    all_storable, data_region, data_region_spec, parse_data, parse_spec, serialize,
};
use crate::environment::Environment;
use crate::error::CodecError;
use vstd::prelude::*;
use vstd::slice::slice_subrange;

verus! {

/// What a blob decodes to, given the checksums computed over the data
/// regions of its two slots: the checksums must agree, and then the data
/// region of the first slot counts.
pub open spec fn decode_with(blob: Seq<u8>, computed1: u32, computed2: u32) -> Result<
    Map<Seq<char>, Seq<char>>,
    CodecError,
> {
    let stored1 = stored_crc(first_slot(blob));
    let stored2 = stored_crc(second_slot(blob));
    if !checksums_agree(stored1, stored2, computed1, computed2) {
        Err(CodecError::CrcMismatch { stored1, stored2, computed1, computed2 })
    } else {
        parse_spec(slot_data(first_slot(blob)))
    }
}

/// What a blob decodes to.
pub open spec fn decode_spec(blob: Seq<u8>) -> Result<Map<Seq<char>, Seq<char>>, CodecError> {
    decode_with(
        blob,
        crc32(slot_data(first_slot(blob))),
        crc32(slot_data(second_slot(blob))),
    )
}

/// The blob of `target_len` bytes made of the checksum `crc` and the data
/// region `data`, if it has that length.
pub open spec fn seal_spec(crc: u32, data: Seq<u8>, target_len: int) -> Result<
    Seq<u8>,
    CodecError,
> {
    if blob_bytes(crc, data).len() != target_len {
        Err(CodecError::SizeInvariantViolated)
    } else {
        Ok(blob_bytes(crc, data))
    }
}

/// The blob of `target_len` bytes that holds `pairs`, or why there is none.
pub open spec fn encode_spec(pairs: Seq<(Seq<char>, Seq<char>)>, target_len: int) -> Result<
    Seq<u8>,
    CodecError,
> {
    match data_region_spec(pairs, target_len / 2 - HEADER_LEN as int) {
        Err(e) => Err(e),
        Ok(data) => seal_spec(crc32(data), data, target_len),
    }
}

/// Decodes a blob whose two data regions have the checksums `computed1`
/// and `computed2`.
pub fn decode_with_checksums(bytes: &[u8], computed1: u32, computed2: u32) -> (r: Result<
    Environment,
    CodecError,
>)
    requires
        bytes.len() % 2 == 0,
        bytes.len() / 2 >= HEADER_LEN,
    ensures
        match r {
            Ok(env) => decode_with(bytes@, computed1, computed2) == Ok::<
                Map<Seq<char>, Seq<char>>,
                CodecError,
            >(env@),
            Err(e) => decode_with(bytes@, computed1, computed2) == Err::<
                Map<Seq<char>, Seq<char>>,
                CodecError,
            >(e),
        },
{
    let half = bytes.len() / 2;
    let first = slice_subrange(bytes, 0, half);
    let second = slice_subrange(bytes, half, bytes.len());
    let stored1 = u32_from_le(first);
    let stored2 = u32_from_le(second);
    proof {
        assert(first@.subrange(0, 4) =~= first@.take(4));
    }
    verify_checksums(stored1, stored2, computed1, computed2)?;
    parse_data(slice_subrange(first, HEADER_LEN, half))
}

/// Decodes a blob of even length into the environment it holds.
pub fn decode(bytes: &[u8]) -> (r: Result<Environment, CodecError>)
    requires
        bytes.len() % 2 == 0,
        bytes.len() / 2 >= HEADER_LEN,
    ensures
        match r {
            Ok(env) => decode_spec(bytes@) == Ok::<Map<Seq<char>, Seq<char>>, CodecError>(env@),
            Err(e) => decode_spec(bytes@) == Err::<Map<Seq<char>, Seq<char>>, CodecError>(e),
        },
{
    let half = bytes.len() / 2;
    let computed1 = compute_crc(slice_subrange(bytes, HEADER_LEN, half));
    let computed2 = compute_crc(slice_subrange(bytes, half + HEADER_LEN, bytes.len()));
    proof {
        assert(slot_data(first_slot(bytes@)) =~= bytes@.subrange(HEADER_LEN as int, half as int));
        assert(slot_data(second_slot(bytes@)) =~= bytes@.subrange(
            half + HEADER_LEN,
            bytes@.len() as int,
        ));
    }
    decode_with_checksums(bytes, computed1, computed2)
}

/// Puts the checksum `crc` and the data region `data` into both slots of a
/// blob, which must come out `target_len` bytes long.
pub fn seal(crc: u32, data: &[u8], target_len: usize) -> (r: Result<Vec<u8>, CodecError>)
    ensures
        match r {
            Ok(blob) => seal_spec(crc, data@, target_len as int) == Ok::<Seq<u8>, CodecError>(
                blob@,
            ),
            Err(e) => seal_spec(crc, data@, target_len as int) == Err::<Seq<u8>, CodecError>(e),
        },
{
    let blob = assemble(crc, data);
    if blob.len() != target_len {
        return Err(CodecError::SizeInvariantViolated);
    }
    Ok(blob)
}

/// Encodes `env` as a blob of `target_len` bytes.
pub fn encode(env: &Environment, target_len: usize) -> (r: Result<Vec<u8>, CodecError>)
    requires
        target_len / 2 > HEADER_LEN,
    ensures
        match r {
            Ok(blob) => encode_spec(env.pairs(), target_len as int) == Ok::<Seq<u8>, CodecError>(
                blob@,
            ),
            Err(e) => encode_spec(env.pairs(), target_len as int) == Err::<Seq<u8>, CodecError>(
                e,
            ),
        },
        r matches Ok(blob) ==> blob@.len() == target_len,
        all_storable(env.pairs()) && serialize(env.pairs()).len() > target_len / 2 - HEADER_LEN
            ==> r == Err::<Vec<u8>, CodecError>(
            (CodecError::DataTooLarge {
                have: serialize(env.pairs()).len() as usize,
                max: (target_len / 2 - HEADER_LEN) as usize,
            }),
        ),
{
    let data = data_region(env, target_len / 2 - HEADER_LEN)?;
    let crc = compute_crc(data.as_slice());
    seal(crc, data.as_slice(), target_len)
}

} // verus!
