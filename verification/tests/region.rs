use redundant_env::region::{Direction, RegionError, Step, Transfer, Window};

#[test]
fn a_window_must_end_at_a_file_position() {
    let window = Window::new(0x210000, 0x20000).unwrap();
    assert_eq!(window.offset(), 0x210000);
    assert_eq!(window.len(), 0x20000);
    assert_eq!(window.end(), 0x230000);
    assert!(Window::new(u64::MAX, 0).is_some());
    assert!(Window::new(u64::MAX - 4, 4).is_some());
    assert!(Window::new(u64::MAX - 4, 5).is_none());
    assert!(Window::new(u64::MAX, 1).is_none());
}

#[test]
fn a_window_fits_a_file_that_reaches_its_end() {
    let window = Window::new(16, 8).unwrap();
    assert!(window.fits(24));
    assert!(window.fits(25));
    assert!(!window.fits(23));
    assert!(!window.fits(0));
    assert!(Window::new(0, 0).unwrap().fits(0));
}

#[test]
fn a_transfer_asks_for_what_is_left_where_it_stands() {
    let mut transfer = Transfer::new(Window::new(100, 10).unwrap(), Direction::Read);
    assert_eq!(transfer.next(), Step::Call { position: 100, from: 0, to: 10 });
    assert_eq!(transfer.advance(4), Ok(()));
    assert_eq!(transfer.next(), Step::Call { position: 104, from: 4, to: 10 });
    assert_eq!(transfer.advance(1), Ok(()));
    assert_eq!(transfer.next(), Step::Call { position: 105, from: 5, to: 10 });
    assert_eq!(transfer.advance(5), Ok(()));
    assert_eq!(transfer.next(), Step::Finished);
}

#[test]
fn a_transfer_of_nothing_is_finished_at_once() {
    let transfer = Transfer::new(Window::new(100, 0).unwrap(), Direction::Write);
    assert_eq!(transfer.next(), Step::Finished);
}

#[test]
fn a_read_that_moves_nothing_is_short() {
    let mut transfer = Transfer::new(Window::new(100, 10).unwrap(), Direction::Read);
    assert_eq!(transfer.advance(0), Err(RegionError::ShortRead));
    assert_eq!(transfer.advance(9), Ok(()));
    assert_eq!(transfer.advance(0), Err(RegionError::ShortRead));
    assert_eq!(transfer.next(), Step::Call { position: 109, from: 9, to: 10 });
}

#[test]
fn a_write_that_moves_nothing_is_short() {
    let mut transfer = Transfer::new(Window::new(100, 10).unwrap(), Direction::Write);
    assert_eq!(transfer.advance(3), Ok(()));
    assert_eq!(transfer.advance(0), Err(RegionError::ShortWrite));
    assert_eq!(transfer.next(), Step::Call { position: 103, from: 3, to: 10 });
}

#[test]
fn a_call_that_moves_more_than_it_was_given_fails() {
    let mut transfer = Transfer::new(Window::new(100, 10).unwrap(), Direction::Read);
    assert_eq!(transfer.advance(11), Err(RegionError::IoError));
    assert_eq!(transfer.advance(6), Ok(()));
    assert_eq!(transfer.advance(5), Err(RegionError::IoError));
    assert_eq!(transfer.advance(usize::MAX), Err(RegionError::IoError));
    assert_eq!(transfer.next(), Step::Call { position: 106, from: 6, to: 10 });
}

/// Writes `bytes` into `file` by the steps of a transfer, with calls that
/// take at most `chunk` bytes each.
fn write_in_chunks(file: &mut [u8], offset: u64, bytes: &[u8], chunk: usize) -> Result<(), RegionError> {
    let window = Window::new(offset, bytes.len()).unwrap();
    assert!(window.fits(file.len() as u64));
    let mut transfer = Transfer::new(window, Direction::Write);
    while let Step::Call { position, from, to } = transfer.next() {
        let count = (to - from).min(chunk);
        let at = position as usize;
        file[at..at + count].copy_from_slice(&bytes[from..from + count]);
        transfer.advance(count)?;
    }
    Ok(())
}

/// Reads `len` bytes of `file` by the steps of a transfer, with calls that
/// give at most `chunk` bytes each, and nothing beyond the end of the file.
fn read_in_chunks(file: &[u8], offset: u64, len: usize, chunk: usize) -> Result<Vec<u8>, RegionError> {
    let mut buffer = vec![0u8; len];
    let mut transfer = Transfer::new(Window::new(offset, len).unwrap(), Direction::Read);
    while let Step::Call { position, from, to } = transfer.next() {
        let at = (position as usize).min(file.len());
        let count = (to - from).min(chunk).min(file.len() - at);
        buffer[from..from + count].copy_from_slice(&file[at..at + count]);
        transfer.advance(count)?;
    }
    Ok(buffer)
}

#[test]
fn writing_a_region_leaves_the_rest_of_the_file_alone() {
    let before: Vec<u8> = (0..=255u8).collect();
    let bytes = vec![0xaau8; 40];
    for chunk in [1, 3, 7, 40, 1000] {
        let mut file = before.clone();
        assert_eq!(write_in_chunks(&mut file, 100, &bytes, chunk), Ok(()));
        assert_eq!(file.len(), before.len());
        assert_eq!(&file[..100], &before[..100]);
        assert_eq!(&file[100..140], &bytes[..]);
        assert_eq!(&file[140..], &before[140..]);
    }
}

#[test]
fn a_write_that_stalls_is_short() {
    let mut file = vec![0u8; 64];
    assert_eq!(write_in_chunks(&mut file, 10, &[1, 2, 3], 0), Err(RegionError::ShortWrite));
    assert_eq!(file, vec![0u8; 64]);
}

#[test]
fn reading_a_region_gives_exactly_its_bytes() {
    let file: Vec<u8> = (0..=255u8).collect();
    for chunk in [1, 5, 64, 1000] {
        assert_eq!(read_in_chunks(&file, 16, 64, chunk), Ok(file[16..80].to_vec()));
    }
    assert_eq!(read_in_chunks(&file, 256, 0, 8), Ok(Vec::new()));
}

#[test]
fn reading_beyond_the_end_of_the_file_is_short() {
    let file: Vec<u8> = (0..=255u8).collect();
    assert_eq!(read_in_chunks(&file, 200, 57, 8), Err(RegionError::ShortRead));
    assert_eq!(read_in_chunks(&file, 256, 1, 8), Err(RegionError::ShortRead));
    assert_eq!(read_in_chunks(&file, 1000, 4, 8), Err(RegionError::ShortRead));
    assert_eq!(read_in_chunks(&file, 200, 56, 8), Ok(file[200..].to_vec()));
}
