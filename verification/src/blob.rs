//! The layout of a blob: two slots, each a little-endian CRC32, a flag byte
//! and a data region.

use crate::text::append;
use vstd::prelude::*;

verus! {

/// The length of a stored checksum.
pub const CRC_LEN: usize = 4;

/// The length of what stands before the data region of a slot.
pub const HEADER_LEN: usize = 5;

/// The flag of the first slot.
pub const FLAG_ACTIVE: u8 = 1;

/// The flag of the second slot.
pub const FLAG_BACKUP: u8 = 0;

/// The four bytes of `x`, least significant first.
pub open spec fn le_bytes(x: u32) -> Seq<u8> {
    seq![
        (x & 0xff) as u8,
        ((x >> 8) & 0xff) as u8,
        ((x >> 16) & 0xff) as u8,
        ((x >> 24) & 0xff) as u8,
    ]
}

/// The number whose bytes, least significant first, are the first four of `bytes`.
pub open spec fn le_value(bytes: Seq<u8>) -> u32 {
    (bytes[0] as u32) | (bytes[1] as u32) << 8 | (bytes[2] as u32) << 16 | (bytes[3] as u32) << 24
}

/// Reading the bytes of a number gives the number back.
pub proof fn lemma_le_round_trip(x: u32)
    ensures
        le_value(le_bytes(x)) == x,
{
    assert(x == (((x & 0xff) as u8) as u32) | ((((x >> 8) & 0xff) as u8) as u32) << 8 | ((((x
        >> 16) & 0xff) as u8) as u32) << 16 | ((((x >> 24) & 0xff) as u8) as u32) << 24)
        by (bit_vector);
}

/// A slot: checksum, flag, data.
pub open spec fn slot_bytes(crc: u32, flag: u8, data: Seq<u8>) -> Seq<u8> {
    le_bytes(crc) + seq![flag] + data
}

/// A blob: the active slot, then the backup slot, with one checksum and one
/// data region in both.
pub open spec fn blob_bytes(crc: u32, data: Seq<u8>) -> Seq<u8> {
    slot_bytes(crc, FLAG_ACTIVE, data) + slot_bytes(crc, FLAG_BACKUP, data)
}

/// The first half of a blob.
pub open spec fn first_slot(blob: Seq<u8>) -> Seq<u8> {
    blob.subrange(0, blob.len() as int / 2)
}

/// The second half of a blob.
pub open spec fn second_slot(blob: Seq<u8>) -> Seq<u8> {
    blob.subrange(blob.len() as int / 2, blob.len() as int)
}

/// The checksum that a slot stores.
pub open spec fn stored_crc(slot: Seq<u8>) -> u32 {
    le_value(slot.subrange(0, CRC_LEN as int))
}

/// The data region of a slot.
pub open spec fn slot_data(slot: Seq<u8>) -> Seq<u8> {
    slot.subrange(HEADER_LEN as int, slot.len() as int)
}

/// The four bytes of `x`, least significant first.
pub fn u32_to_le(x: u32) -> (bytes: [u8; 4])
    ensures
        bytes@ == le_bytes(x),
{
    let bytes = [
        (x & 0xff) as u8,
        ((x >> 8) & 0xff) as u8,
        ((x >> 16) & 0xff) as u8,
        ((x >> 24) & 0xff) as u8,
    ];
    assert(bytes@ =~= le_bytes(x));
    bytes
}

/// The number that the first four bytes of `bytes` hold, least significant first.
pub fn u32_from_le(bytes: &[u8]) -> (x: u32)
    requires
        bytes.len() >= CRC_LEN,
    ensures
        x == le_value(bytes@),
{
    (bytes[0] as u32) | (bytes[1] as u32) << 8 | (bytes[2] as u32) << 16 | (bytes[3] as u32) << 24
}

/// Appends a slot to `out`.
pub fn write_slot(out: &mut Vec<u8>, crc: u32, flag: u8, data: &[u8])
    ensures
        final(out)@ == old(out)@ + slot_bytes(crc, flag, data@),
{
    let crc_bytes = u32_to_le(crc);
    append(out, crc_bytes.as_slice());
    out.push(flag);
    append(out, data);
    assert(out@ =~= old(out)@ + slot_bytes(crc, flag, data@));
}

/// The blob with the checksum `crc` and the data region `data` in both slots.
pub fn assemble(crc: u32, data: &[u8]) -> (blob: Vec<u8>)
    ensures
        blob@ == blob_bytes(crc, data@),
{
    let mut blob: Vec<u8> = Vec::new();
    write_slot(&mut blob, crc, FLAG_ACTIVE, data);
    write_slot(&mut blob, crc, FLAG_BACKUP, data);
    assert(blob@ =~= blob_bytes(crc, data@));
    blob
}

} // verus!
