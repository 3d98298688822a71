//! Text as UTF-8 bytes: validation, single-byte search, and byte order.

use vstd::prelude::*;
use vstd::utf8::*;

verus! {

/// The error of `core::str::from_utf8`, of which nothing is known here.
#[verifier::external_type_specification]
#[verifier::external_body]
pub struct ExUtf8Error(core::str::Utf8Error);

/// `core::str::from_utf8` succeeds exactly on well-formed UTF-8, and the
/// string slice it returns has the bytes it was given. This is taken on trust.
pub assume_specification<'a>[ core::str::from_utf8 ](v: &'a [u8]) -> (r: Result<
    &'a str,
    core::str::Utf8Error,
>)
    ensures
        r is Ok <==> valid_utf8(v@),
        r matches Ok(s) ==> encode_utf8(s@) == v@,
;

/// The index of the first occurrence of `b` in `s`, or `s.len()` if there is none.
pub open spec fn first_index(s: Seq<u8>, b: u8) -> int
    decreases s.len(),
{
    if s.len() == 0 || s[0] == b {
        0
    } else {
        1 + first_index(s.drop_first(), b)
    }
}

/// `first_index` is the least index that holds `b`, and the length where none does.
pub proof fn lemma_first_index(s: Seq<u8>, b: u8)
    ensures
        0 <= first_index(s, b) <= s.len(),
        forall|j: int| 0 <= j < first_index(s, b) ==> s[j] != b,
        first_index(s, b) < s.len() ==> s[first_index(s, b)] == b,
        first_index(s, b) < s.len() <==> s.contains(b),
    decreases s.len(),
{
    if s.len() == 0 || s[0] == b {
    } else {
        let t = s.drop_first();
        lemma_first_index(t, b);
        let n = first_index(t, b);
        assert forall|j: int| 0 <= j < 1 + n implies s[j] != b by {
            if j > 0 {
                assert(s[j] == t[j - 1]);
            }
        }
        if n < t.len() {
            assert(s[n + 1] == t[n]);
        }
        if s.contains(b) {
            let k = choose|k: int| 0 <= k < s.len() && s[k] == b;
            assert(t[k - 1] == b);
        }
    }
}

/// An index that holds `b` and has no `b` before it is the first index of `b`.
pub proof fn lemma_first_index_is(s: Seq<u8>, b: u8, i: int)
    requires
        0 <= i <= s.len(),
        forall|j: int| 0 <= j < i ==> s[j] != b,
        i < s.len() ==> s[i] == b,
    ensures
        first_index(s, b) == i,
{
    lemma_first_index(s, b);
}

/// Every byte of a multi-byte encoding is at least 0x80, and a one-byte
/// encoding is the scalar itself.
proof fn lemma_scalar_bytes(scalar: u32)
    requires
        is_scalar(scalar),
    ensures
        has_width_1_encoding(scalar) ==> encode_scalar(scalar) == seq![scalar as u8],
        !has_width_1_encoding(scalar) ==> forall|i: int|
            0 <= i < encode_scalar(scalar).len() ==> encode_scalar(scalar)[i] >= 0x80,
{
    if has_width_1_encoding(scalar) {
        assert(scalar <= 0x7f ==> (scalar & 0x7f) as u8 == scalar as u8) by (bit_vector);
    } else {
        assert((0xC0u8 | ((scalar >> 6) & 0x1F) as u8) >= 0x80) by (bit_vector);
        assert((0xE0u8 | ((scalar >> 12) & 0x0F) as u8) >= 0x80) by (bit_vector);
        assert((0xF0u8 | ((scalar >> 18) & 0x7) as u8) >= 0x80) by (bit_vector);
        assert((0x80u8 | (scalar & 0x3F) as u8) >= 0x80) by (bit_vector);
        assert((0x80u8 | ((scalar >> 6) & 0x3F) as u8) >= 0x80) by (bit_vector);
        assert((0x80u8 | ((scalar >> 12) & 0x3F) as u8) >= 0x80) by (bit_vector);
    }
}

/// A byte below 0x80 occurs in the UTF-8 encoding of a text exactly when the
/// character with that code occurs in the text.
pub proof fn lemma_ascii_byte(chars: Seq<char>, b: u8)
    requires
        b < 0x80,
    ensures
        encode_utf8(chars).contains(b) <==> chars.contains(b as char),
    decreases chars.len(),
{
    if chars.len() == 0 {
    } else {
        let head = encode_scalar(chars[0] as u32);
        let rest = chars.drop_first();
        let tail = encode_utf8(rest);
        char_is_scalar(chars[0]);
        lemma_scalar_bytes(chars[0] as u32);
        lemma_ascii_byte(rest, b);
        let c = chars[0] as u32;
        char_u32_cast(chars[0], c);
        char_u32_cast(b as char, b as u32);
        assert(c == b as u32 <==> chars[0] == b as char);
        if encode_utf8(chars).contains(b) {
            let i = choose|i: int| 0 <= i < (head + tail).len() && (head + tail)[i] == b;
            if i < head.len() {
                assert(head[i] == b);
                assert(c == b as u32);
            } else {
                assert(tail[i - head.len()] == b);
                let j = choose|j: int| 0 <= j < rest.len() && rest[j] == b as char;
                assert(chars[j + 1] == b as char);
            }
        }
        if chars.contains(b as char) {
            let j = choose|j: int| 0 <= j < chars.len() && chars[j] == b as char;
            if j == 0 {
                assert((head + tail)[0] == b);
            } else {
                assert(rest[j - 1] == b as char);
                let i = choose|i: int| 0 <= i < tail.len() && tail[i] == b;
                assert((head + tail)[head.len() + i] == b);
            }
        }
    }
}

/// Where `b` first occurs in `bytes`, or the length of `bytes`.
pub fn find_byte(bytes: &[u8], b: u8) -> (i: usize)
    ensures
        i == first_index(bytes@, b),
{
    let mut i: usize = 0;
    while i < bytes.len() && bytes[i] != b
        invariant
            i <= bytes.len(),
            forall|j: int| 0 <= j < i ==> bytes@[j] != b,
        decreases bytes.len() - i,
    {
        i += 1;
    }
    proof {
        lemma_first_index_is(bytes@, b, i as int);
    }
    i
}

/// Appends `bytes` to `out`.
pub fn append(out: &mut Vec<u8>, bytes: &[u8])
    ensures
        final(out)@ == old(out)@ + bytes@,
{
    out.extend_from_slice(bytes);
    assert(out@ =~= old(out)@ + bytes@);
}

} // verus!
