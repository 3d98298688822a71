use redundant_env::data::{data_region, parse_data, serialize_entries};
use redundant_env::record::{is_storable, parse_record, write_record};
use redundant_env::text::{append, find_byte};
use redundant_env::{CodecError, Entry, Environment};

fn entry(key: &str, value: &str) -> Entry {
    Entry { key: key.to_string(), value: value.to_string() }
}

fn env_of(pairs: &[(&str, &str)]) -> Environment {
    let mut env = Environment::new();
    for (key, value) in pairs {
        env.insert(key.to_string(), value.to_string());
    }
    env
}

#[test]
fn find_byte_gives_the_first_place_or_the_length() {
    assert_eq!(find_byte(b"", 0), 0);
    assert_eq!(find_byte(b"abc", b'a'), 0);
    assert_eq!(find_byte(b"abcabc", b'c'), 2);
    assert_eq!(find_byte(b"abc", b'd'), 3);
    assert_eq!(find_byte(b"a\0b\0", 0), 1);
}

#[test]
fn append_adds_the_bytes_at_the_end() {
    let mut out = vec![1u8, 2];
    append(&mut out, &[3, 4, 5]);
    assert_eq!(out, vec![1, 2, 3, 4, 5]);
    append(&mut out, &[]);
    assert_eq!(out, vec![1, 2, 3, 4, 5]);
}

#[test]
fn a_record_is_split_at_its_first_separator() {
    assert_eq!(parse_record(b"bootdelay=5"), Ok(entry("bootdelay", "5")));
    assert_eq!(parse_record(b"a=b=c"), Ok(entry("a", "b=c")));
    assert_eq!(parse_record(b"a="), Ok(entry("a", "")));
    assert_eq!(parse_record(b"=b"), Ok(entry("", "b")));
    assert_eq!(parse_record(b"="), Ok(entry("", "")));
    assert_eq!(parse_record("grüße=καλημέρα".as_bytes()), Ok(entry("grüße", "καλημέρα")));
}

#[test]
fn a_record_without_separator_has_a_fault() {
    assert_eq!(parse_record(b"bootdelay"), Err(CodecError::MalformedRecord));
    assert_eq!(parse_record(b""), Err(CodecError::MalformedRecord));
}

#[test]
fn a_record_is_checked_for_utf8_before_its_separator() {
    assert_eq!(parse_record(b"a=\xff"), Err(CodecError::InvalidUtf8));
    assert_eq!(parse_record(b"\x80=a"), Err(CodecError::InvalidUtf8));
    assert_eq!(parse_record(b"\xff"), Err(CodecError::InvalidUtf8));
    // An overlong encoding of '=' is no separator and no UTF-8.
    assert_eq!(parse_record(b"a\xc0\xbdb"), Err(CodecError::InvalidUtf8));
    // A surrogate is no UTF-8.
    assert_eq!(parse_record(b"a=\xed\xa0\x80"), Err(CodecError::InvalidUtf8));
}

#[test]
fn storable_entries_have_a_key_no_nul_and_no_separator_in_the_key() {
    assert!(is_storable(&entry("bootdelay", "5")));
    assert!(is_storable(&entry("k", "")));
    assert!(!is_storable(&entry("", "")));
    assert!(!is_storable(&entry("", "v")));
    assert!(is_storable(&entry("a", "b=c")));
    assert!(is_storable(&entry("grüße", "🌍")));
    assert!(!is_storable(&entry("a=b", "c")));
    assert!(!is_storable(&entry("=", "c")));
    assert!(!is_storable(&entry("a\0", "c")));
    assert!(!is_storable(&entry("a", "\0")));
    assert!(!is_storable(&entry("a", "b\0c")));
}

#[test]
fn a_record_is_key_separator_value_terminator() {
    let mut out = vec![9u8];
    write_record(&mut out, &entry("bootdelay", "5"));
    assert_eq!(out, b"\x09bootdelay=5\0".to_vec());
    write_record(&mut out, &entry("", ""));
    assert_eq!(out, b"\x09bootdelay=5\0=\0".to_vec());
    let mut out = Vec::new();
    write_record(&mut out, &entry("é", "ü"));
    assert_eq!(out, vec![0xc3, 0xa9, b'=', 0xc3, 0xbc, 0]);
}

#[test]
fn entries_are_serialized_in_key_order() {
    let env = env_of(&[("b", "2"), ("a", "1")]);
    assert_eq!(serialize_entries(&env), Ok(b"a=1\0b=2\0".to_vec()));
    assert_eq!(serialize_entries(&Environment::new()), Ok(Vec::new()));
    assert_eq!(serialize_entries(&env_of(&[("a", "1"), ("b=", "2")])), Err(CodecError::MalformedRecord));
}

#[test]
fn a_data_region_is_padded_with_zeros() {
    let env = env_of(&[("b", "2"), ("a", "1")]);
    assert_eq!(data_region(&env, 11), Ok(b"a=1\0b=2\0\0\0\0".to_vec()));
    assert_eq!(data_region(&env, 8), Ok(b"a=1\0b=2\0".to_vec()));
    assert_eq!(data_region(&env, 7), Err(CodecError::DataTooLarge { have: 8, max: 7 }));
    assert_eq!(data_region(&env, 0), Err(CodecError::DataTooLarge { have: 8, max: 0 }));
    assert_eq!(data_region(&Environment::new(), 0), Ok(Vec::new()));
    assert_eq!(data_region(&Environment::new(), 3), Ok(vec![0, 0, 0]));
}

#[test]
fn a_data_region_is_read_record_by_record() {
    assert_eq!(parse_data(b"a=1\0b=2\0\0\0\0"), Ok(env_of(&[("a", "1"), ("b", "2")])));
    assert_eq!(parse_data(b""), Ok(Environment::new()));
    assert_eq!(parse_data(b"\0\0\0"), Ok(Environment::new()));
    assert_eq!(parse_data(b"a=1\0a=2"), Ok(env_of(&[("a", "2")])));
    assert_eq!(parse_data(b"a=1\0a\0"), Err(CodecError::MalformedRecord));
    assert_eq!(parse_data(b"a=1\0\xf0\x28\x8c\x28=x\0"), Err(CodecError::InvalidUtf8));
}
