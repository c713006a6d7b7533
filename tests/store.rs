use minkdb::{KeyIndex, LogStore, Store, StoreError};

fn restart(store: &Store) -> Store {
    Store::recover(store.log_bytes().to_vec())
}

#[test]
fn scenario_alice_bob_carol_after_restart() {
    let mut store = Store::new();
    assert_eq!(store.put(b"alice", b"30"), Ok(()));
    assert_eq!(store.put(b"bob", b"25"), Ok(()));
    assert_eq!(store.put(b"alice", b"31"), Ok(()));
    let store = restart(&store);
    assert_eq!(store.get(b"alice"), Ok(Some(b"31".to_vec())));
    assert_eq!(store.get(b"bob"), Ok(Some(b"25".to_vec())));
    assert_eq!(store.get(b"carol"), Ok(None));
}

#[test]
fn round_trip_put_then_get() {
    let mut store = Store::new();
    assert_eq!(store.put(b"key", b"value"), Ok(()));
    assert_eq!(store.get(b"key"), Ok(Some(b"value".to_vec())));
}

#[test]
fn round_trip_non_ascii_token() {
    let mut store = Store::new();
    let key = "clé".as_bytes();
    let value = "größe".as_bytes();
    assert_eq!(store.put(key, value), Ok(()));
    assert_eq!(store.get(key), Ok(Some(value.to_vec())));
}

#[test]
fn empty_value_round_trips() {
    let mut store = Store::new();
    assert_eq!(store.put(b"k", b""), Ok(()));
    assert_eq!(store.log_bytes(), b"k \n");
    assert_eq!(store.get(b"k"), Ok(Some(Vec::new())));
}

#[test]
fn last_write_wins_live_and_after_restart() {
    let mut store = Store::new();
    assert_eq!(store.put(b"k", b"v1"), Ok(()));
    assert_eq!(store.put(b"k", b"v2"), Ok(()));
    assert_eq!(store.get(b"k"), Ok(Some(b"v2".to_vec())));
    let store = restart(&store);
    assert_eq!(store.get(b"k"), Ok(Some(b"v2".to_vec())));
}

#[test]
fn recovery_twice_gives_same_index() {
    let log = LogStore::from_bytes(b"a 1\nb 2\na 3\n\nc 4\n".to_vec());
    let first = KeyIndex::recover(&log);
    let second = KeyIndex::recover(&log);
    for key in [&b"a"[..], b"b", b"c", b"d"] {
        assert_eq!(first.lookup(key), second.lookup(key));
    }
    assert_eq!(first.lookup(b"a"), Some(8));
    assert_eq!(first.lookup(b"d"), None);
}

#[test]
fn offsets_advance_by_record_lengths() {
    let mut store = Store::new();
    assert_eq!(store.put(b"alice", b"30"), Ok(()));
    assert_eq!(store.put(b"bob", b"25"), Ok(()));
    assert_eq!(store.put(b"carol", b"7"), Ok(()));
    // "alice 30\n" is 9 bytes, "bob 25\n" is 7.
    assert_eq!(store.offset_of(b"alice"), Some(0));
    assert_eq!(store.offset_of(b"bob"), Some(9));
    assert_eq!(store.offset_of(b"carol"), Some(16));
    assert_eq!(store.log_bytes().len(), 24);
}

#[test]
fn miss_is_none_not_error() {
    let mut store = Store::new();
    assert_eq!(store.get(b"nobody"), Ok(None));
    assert_eq!(store.put(b"somebody", b"1"), Ok(()));
    assert_eq!(store.get(b"nobody"), Ok(None));
    assert_eq!(store.offset_of(b"nobody"), None);
}

#[test]
fn put_rejects_whitespace_and_empty_key() {
    let mut store = Store::new();
    assert_eq!(store.put(b"", b"v"), Err(StoreError::Validation));
    assert_eq!(store.put(b"a b", b"v"), Err(StoreError::Validation));
    assert_eq!(store.put(b"k", b"two words"), Err(StoreError::Validation));
    assert_eq!(store.put(b"k", b"line\n"), Err(StoreError::Validation));
    assert_eq!(store.put(b"k", b"tab\t"), Err(StoreError::Validation));
    assert!(store.log_bytes().is_empty());
    assert_eq!(store.get(b"k"), Ok(None));
}

#[test]
fn prepare_put_gives_the_appended_bytes() {
    let mut store = Store::new();
    assert_eq!(store.prepare_put(b"k", b"v"), Ok(b"k v\n".to_vec()));
    assert_eq!(store.prepare_put(b"k", b"v w"), Err(StoreError::Validation));
    assert_eq!(store.put(b"k", b"v"), Ok(()));
    assert_eq!(store.log_bytes(), b"k v\n");
}

#[test]
fn recovery_skips_lines_without_key_but_counts_their_bytes() {
    let store = Store::recover(b"a 1\n\n   \nb 2\n".to_vec());
    assert_eq!(store.offset_of(b"a"), Some(0));
    assert_eq!(store.offset_of(b"b"), Some(9));
    assert_eq!(store.get(b"b"), Ok(Some(b"2".to_vec())));
}

#[test]
fn recovery_reads_first_two_words_only() {
    let store = Store::recover(b"k v extra words\nsolo\n".to_vec());
    assert_eq!(store.get(b"k"), Ok(Some(b"v".to_vec())));
    assert_eq!(store.get(b"solo"), Ok(Some(Vec::new())));
}

#[test]
fn unfinished_last_line_is_closed_before_next_record() {
    let mut store = Store::recover(b"a 1\nb 2".to_vec());
    assert_eq!(store.get(b"b"), Ok(Some(b"2".to_vec())));
    assert_eq!(store.prepare_put(b"c", b"3"), Ok(b"\nc 3\n".to_vec()));
    assert_eq!(store.put(b"c", b"3"), Ok(()));
    assert_eq!(store.log_bytes(), b"a 1\nb 2\nc 3\n");
    assert_eq!(store.offset_of(b"c"), Some(8));
    assert_eq!(store.get(b"b"), Ok(Some(b"2".to_vec())));
    assert_eq!(store.get(b"c"), Ok(Some(b"3".to_vec())));
    let again = restart(&store);
    assert_eq!(again.offset_of(b"b"), Some(4));
    assert_eq!(again.offset_of(b"c"), Some(8));
}

#[test]
fn recovered_store_keeps_writing_after_old_records() {
    let mut store = Store::recover(b"x 1\n".to_vec());
    assert_eq!(store.put(b"y", b"2"), Ok(()));
    assert_eq!(store.offset_of(b"y"), Some(4));
    assert_eq!(store.get(b"x"), Ok(Some(b"1".to_vec())));
}

#[test]
fn put_rejects_unicode_whitespace() {
    let mut store = Store::new();
    assert_eq!(store.put("k\u{3000}".as_bytes(), b"v"), Err(StoreError::Validation));
    assert_eq!(store.put(b"k", "a\u{a0}b".as_bytes()), Err(StoreError::Validation));
    assert_eq!(store.put(b"k", "a\u{85}".as_bytes()), Err(StoreError::Validation));
    assert_eq!(store.put("\u{200a}".as_bytes(), b"v"), Err(StoreError::Validation));
    assert_eq!(store.put("\u{202f}k".as_bytes(), b"v"), Err(StoreError::Validation));
    assert!(store.log_bytes().is_empty());
}

#[test]
fn recovery_splits_on_unicode_whitespace() {
    let store = Store::recover("k\u{3000}v\n".as_bytes().to_vec());
    assert_eq!(store.get(b"k"), Ok(Some(b"v".to_vec())));
    assert_eq!(store.get("k\u{3000}v".as_bytes()), Ok(None));
}

#[test]
fn recovery_skips_unicode_whitespace_only_line() {
    let store = Store::recover("a 1\n\u{3000}\nb 2\n".as_bytes().to_vec());
    assert_eq!(store.get("\u{3000}".as_bytes()), Ok(None));
    assert_eq!(store.offset_of(b"a"), Some(0));
    assert_eq!(store.offset_of(b"b"), Some(8));
    assert_eq!(store.get(b"b"), Ok(Some(b"2".to_vec())));
}
