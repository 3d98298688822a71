use redundant_env::blob::{assemble, u32_from_le, u32_to_le, write_slot, FLAG_ACTIVE, FLAG_BACKUP, HEADER_LEN};
use redundant_env::checksum::{compute_crc, verify_checksums, verify_slot};
use redundant_env::CodecError;

#[test]
fn crc_of_the_check_string() {
    assert_eq!(compute_crc(b"123456789"), 0xCBF4_3926);
    assert_eq!(compute_crc(b""), 0);
    assert_eq!(compute_crc(b"a"), 0xE8B7_BE43);
}

#[test]
fn a_slot_is_verified_when_stored_and_computed_are_equal() {
    assert!(verify_slot(0, 0));
    assert!(verify_slot(0xDEAD_BEEF, 0xDEAD_BEEF));
    assert!(!verify_slot(0xDEAD_BEEF, 0xDEAD_BEEE));
}

#[test]
fn four_checksums_must_all_agree() {
    assert_eq!(verify_checksums(7, 7, 7, 7), Ok(()));
    for (s1, s2, c1, c2) in [(8, 7, 7, 7), (7, 8, 7, 7), (7, 7, 8, 7), (7, 7, 7, 8), (7, 7, 8, 8), (8, 8, 7, 7), (7, 8, 7, 8)] {
        assert_eq!(
            verify_checksums(s1, s2, c1, c2),
            Err(CodecError::CrcMismatch { stored1: s1, stored2: s2, computed1: c1, computed2: c2 })
        );
    }
}

#[test]
fn numbers_are_stored_least_significant_byte_first() {
    assert_eq!(u32_to_le(0x1234_5678), [0x78, 0x56, 0x34, 0x12]);
    assert_eq!(u32_to_le(0), [0, 0, 0, 0]);
    assert_eq!(u32_to_le(u32::MAX), [0xff, 0xff, 0xff, 0xff]);
    assert_eq!(u32_from_le(&[0x78, 0x56, 0x34, 0x12]), 0x1234_5678);
    assert_eq!(u32_from_le(&[0x01, 0, 0, 0x80, 0xaa, 0xbb]), 0x8000_0001);
    for x in [0u32, 1, 0xff, 0x100, 0xCBF4_3926, u32::MAX] {
        assert_eq!(u32_from_le(&u32_to_le(x)), x);
        assert_eq!(u32_to_le(x), x.to_le_bytes());
    }
}

#[test]
fn a_slot_is_checksum_flag_data() {
    let mut out = vec![0xeeu8];
    write_slot(&mut out, 0x0a0b_0c0d, FLAG_ACTIVE, b"xy");
    assert_eq!(out, vec![0xee, 0x0d, 0x0c, 0x0b, 0x0a, 1, b'x', b'y']);
    assert_eq!(HEADER_LEN, 5);
    assert_eq!(FLAG_BACKUP, 0);
}

#[test]
fn a_blob_is_the_active_slot_then_the_backup_slot() {
    assert_eq!(
        assemble(0x0a0b_0c0d, b"xy"),
        vec![0x0d, 0x0c, 0x0b, 0x0a, 1, b'x', b'y', 0x0d, 0x0c, 0x0b, 0x0a, 0, b'x', b'y']
    );
    assert_eq!(assemble(1, b""), vec![1, 0, 0, 0, 1, 1, 0, 0, 0, 0]);
}
