use minkdb::{decode_line, encode_record, KeyIndex, LogStore, StoreError};

#[test]
fn append_returns_start_offset() {
    let mut log = LogStore::new();
    assert_eq!(log.append(b"a 1\n"), 0);
    assert_eq!(log.append(b"bb 22\n"), 4);
    assert_eq!(log.len(), 10);
    assert_eq!(log.as_bytes(), b"a 1\nbb 22\n");
}

#[test]
fn read_at_decodes_record() {
    let log = LogStore::from_bytes(b"a 1\nbb 22\n".to_vec());
    assert_eq!(log.read_at(4), Ok((b"bb".to_vec(), b"22".to_vec())));
    assert_eq!(log.read_at(0), Ok((b"a".to_vec(), b"1".to_vec())));
}

#[test]
fn read_at_rejects_offsets_off_a_record() {
    let log = LogStore::from_bytes(b"a 1\n\nbb 22\n".to_vec());
    assert_eq!(log.read_at(1), Err(StoreError::Corruption));
    assert_eq!(log.read_at(4), Err(StoreError::Corruption));
    assert_eq!(log.read_at(11), Err(StoreError::Corruption));
    assert_eq!(log.read_at(100), Err(StoreError::Corruption));
    assert_eq!(log.read_at(5), Ok((b"bb".to_vec(), b"22".to_vec())));
}

#[test]
fn line_end_finds_newline_or_end() {
    let log = LogStore::from_bytes(b"ab\ncd".to_vec());
    assert_eq!(log.line_end(0), 3);
    assert_eq!(log.line_end(1), 3);
    assert_eq!(log.line_end(3), 5);
    assert!(!log.is_terminated());
    assert!(LogStore::new().is_terminated());
}

#[test]
fn encode_record_formats_line() {
    assert_eq!(encode_record(b"alice", b"30"), Ok(b"alice 30\n".to_vec()));
    assert_eq!(encode_record(b"", b"30"), Err(StoreError::Validation));
    assert_eq!(encode_record(b"al ice", b"30"), Err(StoreError::Validation));
    assert_eq!(encode_record(b"alice", b"3 0"), Err(StoreError::Validation));
}

#[test]
fn decode_line_takes_range() {
    let bytes = b"xx  key\tvalue more\nyy";
    assert_eq!(
        decode_line(bytes, 2, 19),
        Some((b"key".to_vec(), b"value".to_vec()))
    );
    assert_eq!(decode_line(bytes, 0, 2), Some((b"xx".to_vec(), Vec::new())));
    assert_eq!(decode_line(b" \n", 0, 2), None);
    assert_eq!(decode_line(bytes, 3, 3), None);
}

#[test]
fn key_index_records_and_overwrites() {
    let mut idx = KeyIndex::new();
    assert_eq!(idx.lookup(b"k"), None);
    idx.record(b"k".to_vec(), 3);
    idx.record(b"j".to_vec(), 7);
    idx.record(b"k".to_vec(), 11);
    assert_eq!(idx.lookup(b"k"), Some(11));
    assert_eq!(idx.lookup(b"j"), Some(7));
    assert_eq!(idx.lookup(b"kk"), None);
}

#[test]
fn recover_empty_log_has_no_key() {
    let idx = KeyIndex::recover(&LogStore::new());
    assert_eq!(idx.lookup(b"a"), None);
}
