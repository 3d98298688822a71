//! Records: an entry is stored as `key=value` followed by a NUL byte.

use crate::environment::Entry;
use crate::error::CodecError;
use crate::text::{append, find_byte, first_index, lemma_ascii_byte, lemma_first_index};
use vstd::prelude::*;
use vstd::utf8::*;

verus! {

/// The byte `=` that ends the key of a record.
pub const SEPARATOR: u8 = 0x3d;

/// The NUL byte that ends a record.
pub const TERMINATOR: u8 = 0;

/// An entry that can be stored: its key is not empty and holds no `=`, and
/// neither its key nor its value holds a NUL.
pub open spec fn storable(key: Seq<char>, value: Seq<char>) -> bool {
    key.len() > 0 && !key.contains('\0') && !key.contains('=') && !value.contains('\0')
}

/// The record of an entry without its terminator.
pub open spec fn record_body(key: Seq<char>, value: Seq<char>) -> Seq<u8> {
    encode_utf8(key) + seq![SEPARATOR] + encode_utf8(value)
}

/// The record of an entry.
pub open spec fn record_bytes(key: Seq<char>, value: Seq<char>) -> Seq<u8> {
    record_body(key, value) + seq![TERMINATOR]
}

/// What is wrong with a record, if anything: it is not UTF-8, or it is and
/// has no separator.
pub open spec fn record_fault(record: Seq<u8>) -> Option<CodecError> {
    if !valid_utf8(record) {
        Some(CodecError::InvalidUtf8)
    } else if !record.contains(SEPARATOR) {
        Some(CodecError::MalformedRecord)
    } else {
        None
    }
}

/// The key of a record: the text before its first separator.
pub open spec fn record_key(record: Seq<u8>) -> Seq<char> {
    decode_utf8(record.subrange(0, first_index(record, SEPARATOR)))
}

/// The value of a record: the text after its first separator.
pub open spec fn record_value(record: Seq<u8>) -> Seq<char> {
    decode_utf8(record.subrange(first_index(record, SEPARATOR) + 1, record.len() as int))
}

/// The first separator of well-formed UTF-8 stands between two well-formed parts.
pub proof fn lemma_separator_splits(record: Seq<u8>)
    requires
        valid_utf8(record),
        record.contains(SEPARATOR),
    ensures
        is_char_boundary(record, first_index(record, SEPARATOR)),
        is_char_boundary(record.subrange(first_index(record, SEPARATOR), record.len() as int), 1),
        valid_utf8(record.subrange(0, first_index(record, SEPARATOR))),
        valid_utf8(record.subrange(first_index(record, SEPARATOR) + 1, record.len() as int)),
{
    lemma_first_index(record, SEPARATOR);
    let at = first_index(record, SEPARATOR);
    let rest = record.subrange(at, record.len() as int);
    is_char_boundary_iff_not_is_continuation_byte(record, at);
    valid_utf8_split(record, at);
    assert(rest[0] == SEPARATOR);
    assert(is_char_boundary(rest, 1)) by {
        reveal_with_fuel(is_char_boundary, 2);
        assert(length_of_first_scalar(rest) == 1);
    }
    valid_utf8_split(rest, 1);
    assert(rest.subrange(1, rest.len() as int) =~= record.subrange(at + 1, record.len() as int));
}

/// Reads one record.
pub fn parse_record(record: &[u8]) -> (r: Result<Entry, CodecError>)
    ensures
        match r {
            Ok(entry) => record_fault(record@) is None && entry.key@ == record_key(record@)
                && entry.value@ == record_value(record@),
            Err(e) => record_fault(record@) == Some(e),
        },
{
    let text = match core::str::from_utf8(record) {
        Ok(text) => text,
        Err(_) => {
            return Err(CodecError::InvalidUtf8);
        },
    };
    let at = find_byte(record, SEPARATOR);
    proof {
        lemma_first_index(record@, SEPARATOR);
    }
    if at == record.len() {
        return Err(CodecError::MalformedRecord);
    }
    proof {
        lemma_separator_splits(record@);
    }
    let (key, rest) = text.split_at(at);
    let (_, value) = rest.split_at(1);
    proof {
        encode_utf8_decode_utf8(key@);
        encode_utf8_decode_utf8(value@);
        assert(encode_utf8(rest@).subrange(1, encode_utf8(rest@).len() as int) =~= record@.subrange(
            at + 1,
            record@.len() as int,
        ));
    }
    Ok(Entry { key: key.to_owned(), value: value.to_owned() })
}

/// Whether `entry` can be stored.
pub fn is_storable(entry: &Entry) -> (ok: bool)
    ensures
        ok == storable(entry.key@, entry.value@),
{
    let key = entry.key.as_str().as_bytes();
    let value = entry.value.as_str().as_bytes();
    proof {
        lemma_ascii_byte(entry.key@, TERMINATOR);
        lemma_ascii_byte(entry.key@, SEPARATOR);
        lemma_ascii_byte(entry.value@, TERMINATOR);
        lemma_first_index(key@, TERMINATOR);
        lemma_first_index(key@, SEPARATOR);
        lemma_first_index(value@, TERMINATOR);
        assert(entry.key@.len() == 0 <==> key@.len() == 0) by {
            reveal_with_fuel(encode_utf8, 2);
            if entry.key@.len() > 0 {
                char_is_scalar(entry.key@[0]);
                assert(encode_scalar(entry.key@[0] as u32).len() > 0);
            }
        }
    }
    key.len() > 0 && find_byte(key, TERMINATOR) == key.len() && find_byte(key, SEPARATOR)
        == key.len() && find_byte(value, TERMINATOR) == value.len()
}

/// Appends the record of `entry` to `out`.
pub fn write_record(out: &mut Vec<u8>, entry: &Entry)
    ensures
        final(out)@ == old(out)@ + record_bytes(entry.key@, entry.value@),
{
    append(out, entry.key.as_str().as_bytes());
    out.push(SEPARATOR);
    append(out, entry.value.as_str().as_bytes());
    out.push(TERMINATOR);
    assert(out@ =~= old(out)@ + record_bytes(entry.key@, entry.value@));
}

} // verus!
