//! What holds of decoding and encoding together.

use crate::blob::{
    blob_bytes, first_slot, le_bytes, lemma_le_round_trip, second_slot, slot_bytes, slot_data,
    stored_crc, CRC_LEN, FLAG_ACTIVE, FLAG_BACKUP, HEADER_LEN,
};
use crate::checksum::{checksums_agree, crc32};
use crate::codec::{decode_spec, encode_spec};
use crate::data::{
    all_storable, first_fault, padded, parse_spec, records_to_map, serialize, split_records, zeros,
};
use crate::environment::{keys_ascending, lemma_pairs_to_map_last, pairs_to_map, Environment};
use crate::error::CodecError;
use crate::record::{
    record_body, record_fault, record_key, record_value, storable, SEPARATOR,
    TERMINATOR,
};
use crate::text::{first_index, lemma_ascii_byte, lemma_first_index, lemma_first_index_is};
use vstd::prelude::*;
use vstd::utf8::*;

verus! {

/// Zero bytes hold no record.
pub proof fn lemma_zeros_hold_nothing(n: nat)
    ensures
        split_records(zeros(n)) == Seq::<Seq<u8>>::empty(),
    decreases n,
{
    if n > 0 {
        assert(zeros(n).skip(1) =~= zeros((n - 1) as nat));
        lemma_zeros_hold_nothing((n - 1) as nat);
    }
}

/// Padding is transparent: zero bytes after a data region add no record to it.
pub proof fn lemma_padding_transparent(data: Seq<u8>, n: nat)
    ensures
        split_records(data + zeros(n)) == split_records(data),
        parse_spec(data + zeros(n)) == parse_spec(data),
    decreases data.len(),
{
    let whole = data + zeros(n);
    if data.len() == 0 {
        assert(whole =~= zeros(n));
        lemma_zeros_hold_nothing(n);
    } else if n == 0 {
        assert(whole =~= data);
    } else {
        lemma_first_index(data, TERMINATOR);
        let k = first_index(data, TERMINATOR);
        assert forall|j: int| 0 <= j < k implies whole[j] != TERMINATOR by {
            assert(whole[j] == data[j]);
        }
        assert(whole[k] == TERMINATOR) by {
            if k < data.len() {
                assert(whole[k] == data[k]);
            } else {
                assert(whole[k] == zeros(n)[k - data.len()]);
            }
        }
        lemma_first_index_is(whole, TERMINATOR, k);
        if k == data.len() {
            assert(whole.take(k) =~= data);
            assert(whole.skip(k + 1) =~= zeros((n - 1) as nat));
            lemma_zeros_hold_nothing((n - 1) as nat);
            assert(seq![data] + Seq::<Seq<u8>>::empty() =~= seq![data]);
        } else {
            assert(whole.take(k) =~= data.take(k));
            assert(whole.skip(k + 1) =~= data.skip(k + 1) + zeros(n));
            lemma_padding_transparent(data.skip(k + 1), n);
        }
    }
}

/// The records of `pairs` without their terminators.
pub open spec fn bodies(pairs: Seq<(Seq<char>, Seq<char>)>) -> Seq<Seq<u8>> {
    pairs.map_values(|p: (Seq<char>, Seq<char>)| record_body(p.0, p.1))
}

/// The record of a storable entry reads back as that entry.
pub proof fn lemma_record_reads_back(key: Seq<char>, value: Seq<char>)
    requires
        storable(key, value),
    ensures
        record_body(key, value).len() > 0,
        !record_body(key, value).contains(TERMINATOR),
        record_fault(record_body(key, value)) is None,
        record_key(record_body(key, value)) == key,
        record_value(record_body(key, value)) == value,
{
    let k = encode_utf8(key);
    let v = encode_utf8(value);
    let sep = seq![SEPARATOR];
    let body = record_body(key, value);
    lemma_ascii_byte(key, TERMINATOR);
    lemma_ascii_byte(key, SEPARATOR);
    lemma_ascii_byte(value, TERMINATOR);
    assert(body[k.len() as int] == SEPARATOR);
    assert forall|j: int| 0 <= j < body.len() implies body[j] != TERMINATOR by {
        if j < k.len() {
            assert(body[j] == k[j]);
        } else if j > k.len() {
            assert(body[j] == v[j - k.len() - 1]);
        }
    }
    assert forall|j: int| 0 <= j < k.len() implies body[j] != SEPARATOR by {
        assert(body[j] == k[j]);
    }
    lemma_first_index_is(body, SEPARATOR, k.len() as int);
    assert(valid_utf8(sep)) by {
        reveal_with_fuel(valid_utf8, 2);
        assert(pop_first_scalar(sep) =~= Seq::empty());
    }
    encode_utf8_valid_utf8(key);
    encode_utf8_valid_utf8(value);
    valid_utf8_concat(k, sep);
    valid_utf8_concat(k + sep, v);
    assert(body.subrange(0, k.len() as int) =~= k);
    assert(body.subrange(k.len() as int + 1, body.len() as int) =~= v);
    encode_utf8_decode_utf8(key);
    encode_utf8_decode_utf8(value);
}

/// Storable entries, written one after another, split into their own records.
pub proof fn lemma_split_serialized(pairs: Seq<(Seq<char>, Seq<char>)>)
    requires
        all_storable(pairs),
    ensures
        split_records(serialize(pairs)) == bodies(pairs),
    decreases pairs.len(),
{
    if pairs.len() == 0 {
        assert(bodies(pairs) =~= Seq::empty());
    } else {
        let body = record_body(pairs[0].0, pairs[0].1);
        let rest = pairs.drop_first();
        let image = serialize(pairs);
        assert(storable(pairs[0].0, pairs[0].1));
        lemma_record_reads_back(pairs[0].0, pairs[0].1);
        assert forall|i: int| 0 <= i < rest.len() implies storable(
            (#[trigger] rest[i]).0,
            rest[i].1,
        ) by {
            assert(rest[i] == pairs[i + 1]);
        }
        lemma_split_serialized(rest);
        let n = body.len() as int;
        assert forall|j: int| 0 <= j < n implies image[j] != TERMINATOR by {
            assert(image[j] == body[j]);
        }
        assert(image[n] == TERMINATOR);
        lemma_first_index_is(image, TERMINATOR, n);
        assert(image.take(n) =~= body);
        assert(image.skip(n + 1) =~= serialize(rest));
        assert(bodies(pairs) =~= seq![body] + bodies(rest));
    }
}

/// The records of storable entries with ascending keys have no fault, and
/// build up the map of those entries.
pub proof fn lemma_bodies_parse(pairs: Seq<(Seq<char>, Seq<char>)>)
    requires
        keys_ascending(pairs),
        all_storable(pairs),
    ensures
        first_fault(bodies(pairs)) is None,
        records_to_map(bodies(pairs)) == pairs_to_map(pairs),
    decreases pairs.len(),
{
    if pairs.len() == 0 {
        assert(pairs_to_map(pairs) =~= Map::empty());
    } else {
        let front = pairs.drop_last();
        let last = pairs.last();
        lemma_pairs_to_map_last(pairs);
        assert forall|i: int| 0 <= i < front.len() implies storable(
            (#[trigger] front[i]).0,
            front[i].1,
        ) by {
            assert(front[i] == pairs[i]);
        }
        lemma_bodies_parse(front);
        assert(storable(last.0, last.1));
        lemma_record_reads_back(last.0, last.1);
        assert(bodies(pairs).drop_last() =~= bodies(front));
        assert(bodies(pairs).last() == record_body(last.0, last.1));
    }
}

/// Where the parts of a blob stand.
pub proof fn lemma_blob_layout(crc: u32, data: Seq<u8>)
    ensures
        blob_bytes(crc, data).len() == 2 * (HEADER_LEN + data.len()),
        first_slot(blob_bytes(crc, data)) == slot_bytes(crc, FLAG_ACTIVE, data),
        second_slot(blob_bytes(crc, data)) == slot_bytes(crc, FLAG_BACKUP, data),
        stored_crc(first_slot(blob_bytes(crc, data))) == crc,
        stored_crc(second_slot(blob_bytes(crc, data))) == crc,
        slot_data(first_slot(blob_bytes(crc, data))) == data,
        slot_data(second_slot(blob_bytes(crc, data))) == data,
        first_slot(blob_bytes(crc, data))[CRC_LEN as int] == FLAG_ACTIVE,
        second_slot(blob_bytes(crc, data))[CRC_LEN as int] == FLAG_BACKUP,
{
    let blob = blob_bytes(crc, data);
    let active = slot_bytes(crc, FLAG_ACTIVE, data);
    let backup = slot_bytes(crc, FLAG_BACKUP, data);
    assert(first_slot(blob) =~= active);
    assert(second_slot(blob) =~= backup);
    lemma_le_round_trip(crc);
    assert(active.subrange(0, CRC_LEN as int) =~= le_bytes(crc));
    assert(backup.subrange(0, CRC_LEN as int) =~= le_bytes(crc));
    assert(slot_data(active) =~= data);
    assert(slot_data(backup) =~= data);
}

/// Round trip: a storable environment that fits, encoded with an even
/// length, decodes to itself.
pub proof fn lemma_round_trip(env: Environment, target_len: int)
    requires
        env.wf(),
        all_storable(env.pairs()),
        target_len % 2 == 0,
        serialize(env.pairs()).len() <= target_len / 2 - HEADER_LEN,
    ensures
        encode_spec(env.pairs(), target_len) is Ok,
        encode_spec(env.pairs(), target_len)->Ok_0.len() == target_len,
        decode_spec(encode_spec(env.pairs(), target_len)->Ok_0) == Ok::<
            Map<Seq<char>, Seq<char>>,
            CodecError,
        >(env@),
{
    let pairs = env.pairs();
    let max = target_len / 2 - HEADER_LEN;
    let data = padded(serialize(pairs), max);
    lemma_blob_layout(crc32(data), data);
    lemma_padding_transparent(serialize(pairs), (max - serialize(pairs).len()) as nat);
    lemma_split_serialized(pairs);
    lemma_bodies_parse(pairs);
}

/// The blob is trusted: its two stored checksums and the checksums of its
/// two data regions are all equal.
pub open spec fn trusted(blob: Seq<u8>) -> bool {
    checksums_agree(
        stored_crc(first_slot(blob)),
        stored_crc(second_slot(blob)),
        crc32(slot_data(first_slot(blob))),
        crc32(slot_data(second_slot(blob))),
    )
}

/// A blob is decoded as far as its records exactly when it is trusted.
pub proof fn lemma_fail_closed(blob: Seq<u8>)
    ensures
        trusted(blob) ==> decode_spec(blob) == parse_spec(slot_data(first_slot(blob))),
        !trusted(blob) ==> decode_spec(blob) == Err::<Map<Seq<char>, Seq<char>>, CodecError>(
            CodecError::CrcMismatch {
                stored1: stored_crc(first_slot(blob)),
                stored2: stored_crc(second_slot(blob)),
                computed1: crc32(slot_data(first_slot(blob))),
                computed2: crc32(slot_data(second_slot(blob))),
            },
        ),
{
}

/// What is encoded is a redundant blob: it is trusted, its two slots hold
/// the same checksum and the same data region, and the first is flagged
/// active, the second backup.
pub proof fn lemma_encoded_is_redundant(env: Environment, target_len: int)
    requires
        encode_spec(env.pairs(), target_len) is Ok,
    ensures
        ({
            let blob = encode_spec(env.pairs(), target_len)->Ok_0;
            &&& blob.len() == target_len
            &&& target_len % 2 == 0
            &&& trusted(blob)
            &&& stored_crc(first_slot(blob)) == stored_crc(second_slot(blob))
            &&& slot_data(first_slot(blob)) == slot_data(second_slot(blob))
            &&& slot_data(first_slot(blob)).len() == target_len / 2 - HEADER_LEN
            &&& first_slot(blob)[CRC_LEN as int] == FLAG_ACTIVE
            &&& second_slot(blob)[CRC_LEN as int] == FLAG_BACKUP
        }),
{
    let data = padded(serialize(env.pairs()), target_len / 2 - HEADER_LEN);
    lemma_blob_layout(crc32(data), data);
}

/// Corruption of one slot. When one byte in the data region of one slot of
/// a trusted blob changes, the stored checksums and the other data region
/// stay as they were. So the changed blob is rejected with `CrcMismatch`
/// exactly when the checksum tells the changed region from the intact one.
pub proof fn lemma_single_slot_corruption(blob: Seq<u8>, at: int, byte: u8)
    requires
        blob.len() % 2 == 0,
        trusted(blob),
        HEADER_LEN <= at < blob.len() / 2 || blob.len() / 2 + HEADER_LEN <= at < blob.len(),
        byte != blob[at],
    ensures
        ({
            let damaged = blob.update(at, byte);
            let in_first = at < blob.len() / 2;
            let intact = if in_first {
                slot_data(first_slot(blob))
            } else {
                slot_data(second_slot(blob))
            };
            let changed = if in_first {
                slot_data(first_slot(damaged))
            } else {
                slot_data(second_slot(damaged))
            };
            &&& changed != intact
            &&& stored_crc(first_slot(damaged)) == stored_crc(first_slot(blob))
            &&& stored_crc(second_slot(damaged)) == stored_crc(second_slot(blob))
            &&& in_first ==> slot_data(second_slot(damaged)) == slot_data(second_slot(blob))
            &&& !in_first ==> slot_data(first_slot(damaged)) == slot_data(first_slot(blob))
            &&& trusted(damaged) <==> crc32(changed) == crc32(intact)
            &&& crc32(changed) != crc32(intact) ==> decode_spec(damaged) is Err && decode_spec(
                damaged,
            )->Err_0 is CrcMismatch
        }),
{
    let damaged = blob.update(at, byte);
    let half = blob.len() as int / 2;
    assert(first_slot(damaged).subrange(0, CRC_LEN as int) =~= first_slot(blob).subrange(0, CRC_LEN as int));
    assert(second_slot(damaged).subrange(0, CRC_LEN as int) =~= second_slot(blob).subrange(0, CRC_LEN as int));
    if at < half {
        assert(slot_data(second_slot(damaged)) =~= slot_data(second_slot(blob)));
        assert(slot_data(first_slot(damaged))[at - HEADER_LEN] == byte);
        assert(slot_data(first_slot(blob))[at - HEADER_LEN] == blob[at]);
    } else {
        assert(slot_data(first_slot(damaged)) =~= slot_data(first_slot(blob)));
        assert(slot_data(second_slot(damaged))[at - half - HEADER_LEN] == byte);
        assert(slot_data(second_slot(blob))[at - half - HEADER_LEN] == blob[at]);
    }
}

/// The same corruption in both slots. When the two data regions of a
/// trusted blob are equal and the byte at one offset changes to the same
/// value in both, the two computed checksums still agree with each other.
/// The stored ones are as before, so the changed blob is rejected with
/// `CrcMismatch` exactly when the checksum tells the changed region from
/// the intact one.
pub proof fn lemma_dual_corruption(blob: Seq<u8>, offset: int, byte: u8)
    requires
        blob.len() % 2 == 0,
        trusted(blob),
        slot_data(first_slot(blob)) == slot_data(second_slot(blob)),
        0 <= offset < blob.len() / 2 - HEADER_LEN,
        byte != slot_data(first_slot(blob))[offset],
    ensures
        ({
            let half = blob.len() as int / 2;
            let damaged = blob.update(HEADER_LEN + offset, byte).update(
                half + HEADER_LEN + offset,
                byte,
            );
            let intact = slot_data(first_slot(blob));
            let changed = intact.update(offset, byte);
            &&& slot_data(first_slot(damaged)) == changed
            &&& slot_data(second_slot(damaged)) == changed
            &&& stored_crc(first_slot(damaged)) == stored_crc(first_slot(blob))
            &&& stored_crc(second_slot(damaged)) == stored_crc(second_slot(blob))
            &&& trusted(damaged) <==> crc32(changed) == crc32(intact)
            &&& crc32(changed) != crc32(intact) ==> decode_spec(damaged) is Err && decode_spec(
                damaged,
            )->Err_0 is CrcMismatch
        }),
{
    let half = blob.len() as int / 2;
    let damaged = blob.update(HEADER_LEN + offset, byte).update(half + HEADER_LEN + offset, byte);
    let intact = slot_data(first_slot(blob));
    let changed = intact.update(offset, byte);
    assert(first_slot(damaged).subrange(0, CRC_LEN as int) =~= first_slot(blob).subrange(0, CRC_LEN as int));
    assert(second_slot(damaged).subrange(0, CRC_LEN as int) =~= second_slot(blob).subrange(0, CRC_LEN as int));
    assert(slot_data(first_slot(damaged)) =~= changed);
    assert(slot_data(second_slot(damaged)) =~= slot_data(second_slot(blob)).update(offset, byte));
}

} // verus!
