//! The data region of a slot: records one after another, then zero padding.

use crate::environment::{entry_pairs, Environment};
use crate::error::CodecError;
use crate::record::{
    is_storable, parse_record, record_bytes, record_fault, record_key, record_value, storable,
    write_record, TERMINATOR,
};
use crate::text::{find_byte, first_index, lemma_first_index};
use vstd::prelude::*;
use vstd::slice::slice_subrange;

verus! {

/// The records of `pairs`, one after another.
pub open spec fn serialize(pairs: Seq<(Seq<char>, Seq<char>)>) -> Seq<u8>
    decreases pairs.len(),
{
    if pairs.len() == 0 {
        Seq::empty()
    } else {
        record_bytes(pairs[0].0, pairs[0].1) + serialize(pairs.drop_first())
    }
}

/// Every pair of `pairs` can be stored.
pub open spec fn all_storable(pairs: Seq<(Seq<char>, Seq<char>)>) -> bool {
    forall|i: int| 0 <= i < pairs.len() ==> storable((#[trigger] pairs[i]).0, pairs[i].1)
}

/// `n` zero bytes.
pub open spec fn zeros(n: nat) -> Seq<u8> {
    Seq::new(n, |i: int| 0u8)
}

/// `data` followed by zero bytes up to the length `len`.
pub open spec fn padded(data: Seq<u8>, len: int) -> Seq<u8> {
    data + zeros((len - data.len()) as nat)
}

/// The data region of `max` bytes that holds `pairs`, or why there is none.
pub open spec fn data_region_spec(pairs: Seq<(Seq<char>, Seq<char>)>, max: int) -> Result<
    Seq<u8>,
    CodecError,
> {
    if !all_storable(pairs) {
        Err(CodecError::MalformedRecord)
    } else if serialize(pairs).len() > max {
        Err(CodecError::DataTooLarge { have: serialize(pairs).len() as usize, max: max as usize })
    } else {
        Ok(padded(serialize(pairs), max))
    }
}

/// The non-empty pieces into which the NUL bytes cut `data`, in order.
pub open spec fn split_records(data: Seq<u8>) -> Seq<Seq<u8>>
    decreases data.len(),
{
    let n = first_index(data, TERMINATOR);
    if data.len() == 0 {
        Seq::empty()
    } else if n >= data.len() {
        seq![data]
    } else if n <= 0 {
        split_records(data.skip(1))
    } else {
        seq![data.take(n)] + split_records(data.skip(n + 1))
    }
}

/// The fault of the first record that has one.
pub open spec fn first_fault(records: Seq<Seq<u8>>) -> Option<CodecError>
    decreases records.len(),
{
    if records.len() == 0 {
        None
    } else {
        match first_fault(records.drop_last()) {
            Some(e) => Some(e),
            None => record_fault(records.last()),
        }
    }
}

/// The map that the records build up: each sets its key to its value, so of
/// two records with one key the later one counts.
pub open spec fn records_to_map(records: Seq<Seq<u8>>) -> Map<Seq<char>, Seq<char>>
    decreases records.len(),
{
    if records.len() == 0 {
        Map::empty()
    } else {
        records_to_map(records.drop_last()).insert(
            record_key(records.last()),
            record_value(records.last()),
        )
    }
}

/// What a data region holds: the map of its records, or the first fault in them.
pub open spec fn parse_spec(data: Seq<u8>) -> Result<Map<Seq<char>, Seq<char>>, CodecError> {
    match first_fault(split_records(data)) {
        Some(e) => Err(e),
        None => Ok(records_to_map(split_records(data))),
    }
}

/// The records of a longer sequence are those of its front, then that of its
/// last pair.
pub proof fn lemma_serialize_push(pairs: Seq<(Seq<char>, Seq<char>)>, pair: (Seq<char>, Seq<char>))
    ensures
        serialize(pairs.push(pair)) == serialize(pairs) + record_bytes(pair.0, pair.1),
    decreases pairs.len(),
{
    let longer = pairs.push(pair);
    if pairs.len() == 0 {
        assert(longer.drop_first() =~= Seq::empty());
        assert(serialize(longer.drop_first()) =~= Seq::empty());
        assert(serialize(longer) =~= record_bytes(pair.0, pair.1));
        assert(serialize(pairs) + record_bytes(pair.0, pair.1) =~= record_bytes(pair.0, pair.1));
    } else {
        assert(longer.drop_first() =~= pairs.drop_first().push(pair));
        lemma_serialize_push(pairs.drop_first(), pair);
        assert(serialize(longer) =~= serialize(pairs) + record_bytes(pair.0, pair.1));
    }
}

/// A fault in the front of a sequence of records is the first fault of the whole.
pub proof fn lemma_first_fault_front(front: Seq<Seq<u8>>, back: Seq<Seq<u8>>)
    requires
        first_fault(front) is Some,
    ensures
        first_fault(front + back) == first_fault(front),
    decreases back.len(),
{
    if back.len() == 0 {
        assert(front + back =~= front);
    } else {
        assert((front + back).drop_last() =~= front + back.drop_last());
        lemma_first_fault_front(front, back.drop_last());
    }
}

/// Writes the entries of `env` as records, in key order.
pub fn serialize_entries(env: &Environment) -> (r: Result<Vec<u8>, CodecError>)
    ensures
        match r {
            Ok(bytes) => all_storable(env.pairs()) && bytes@ == serialize(env.pairs()),
            Err(e) => !all_storable(env.pairs()) && e == CodecError::MalformedRecord,
        },
{
    let entries = env.entries();
    let ghost pairs = env.pairs();
    let mut out: Vec<u8> = Vec::new();
    let mut i: usize = 0;
    while i < entries.len()
        invariant
            i <= entries.len(),
            pairs == env.pairs(),
            pairs == entry_pairs(entries@),
            out@ == serialize(pairs.take(i as int)),
            all_storable(pairs.take(i as int)),
        decreases entries.len() - i,
    {
        assert(pairs[i as int] == entries@[i as int].pair());
        if !is_storable(&entries[i]) {
            assert(!storable(pairs[i as int].0, pairs[i as int].1));
            return Err(CodecError::MalformedRecord);
        }
        write_record(&mut out, &entries[i]);
        proof {
            lemma_serialize_push(pairs.take(i as int), pairs[i as int]);
            assert(pairs.take(i + 1) =~= pairs.take(i as int).push(pairs[i as int]));
        }
        i += 1;
    }
    assert(pairs.take(i as int) =~= pairs);
    Ok(out)
}

/// The data region of `max` bytes that holds the entries of `env`.
pub fn data_region(env: &Environment, max: usize) -> (r: Result<Vec<u8>, CodecError>)
    ensures
        match r {
            Ok(data) => data_region_spec(env.pairs(), max as int) == Ok::<Seq<u8>, CodecError>(
                data@,
            ),
            Err(e) => data_region_spec(env.pairs(), max as int) == Err::<Seq<u8>, CodecError>(e),
        },
{
    let mut data = serialize_entries(env)?;
    let have = data.len();
    if have > max {
        return Err(CodecError::DataTooLarge { have, max });
    }
    let ghost image = data@;
    while data.len() < max
        invariant
            data.len() <= max,
            data@ == image + zeros((data.len() - image.len()) as nat),
        decreases max - data.len(),
    {
        data.push(0);
        assert(data@ =~= image + zeros((data.len() - image.len()) as nat));
    }
    Ok(data)
}

/// Reads the records of a data region into an environment.
pub fn parse_data(data: &[u8]) -> (r: Result<Environment, CodecError>)
    ensures
        match r {
            Ok(env) => parse_spec(data@) == Ok::<Map<Seq<char>, Seq<char>>, CodecError>(env@),
            Err(e) => parse_spec(data@) == Err::<Map<Seq<char>, Seq<char>>, CodecError>(e),
        },
{
    let mut env = Environment::new();
    let ghost mut seen: Seq<Seq<u8>> = Seq::empty();
    let mut pos: usize = 0;
    assert(data@.skip(0) =~= data@);
    while pos < data.len()
        invariant
            pos <= data.len(),
            split_records(data@) == seen + split_records(data@.skip(pos as int)),
            first_fault(seen) is None,
            env@ == records_to_map(seen),
        decreases data.len() - pos,
    {
        let rest = slice_subrange(data, pos, data.len());
        let n = find_byte(rest, TERMINATOR);
        proof {
            lemma_first_index(rest@, TERMINATOR);
            assert(rest@ =~= data@.skip(pos as int));
        }
        let end = pos + n;
        let next = if end < data.len() { end + 1 } else { end };
        if n > 0 {
            let record = slice_subrange(data, pos, end);
            let ghost tail = split_records(data@.skip(next as int));
            proof {
                assert(record@ =~= rest@.take(n as int));
                if end < data.len() {
                    assert(rest@.skip(n + 1) =~= data@.skip(next as int));
                } else {
                    assert(tail =~= Seq::empty());
                }
                assert(split_records(rest@) =~= seq![record@] + tail);
                assert(seen + (seq![record@] + tail) =~= seen.push(record@) + tail);
                assert(seen.push(record@).drop_last() =~= seen);
            }
            match parse_record(record) {
                Ok(entry) => {
                    env.insert(entry.key, entry.value);
                },
                Err(e) => {
                    proof {
                        lemma_first_fault_front(seen.push(record@), tail);
                    }
                    return Err(e);
                },
            }
            proof {
                seen = seen.push(record@);
            }
        } else {
            assert(rest@.skip(1) =~= data@.skip(next as int));
        }
        pos = next;
    }
    assert(split_records(data@.skip(pos as int)) =~= Seq::empty());
    assert(seen + Seq::<Seq<u8>>::empty() =~= seen);
    Ok(env)
}

} // verus!
