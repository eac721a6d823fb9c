use hw_btree::header::{Header, HEADER_PAGE_ID};
use hw_btree::storage_engine::StorageEngine;

#[test]
fn test_put_and_get() {
    let mut engine = StorageEngine::new();
    engine.put(b"hello", b"world");
    let _ = engine.get(b"hello");

    assert_eq!(true, true);
}

#[test]
fn flat_engine_returns_what_was_put() {
    let mut engine = StorageEngine::new();
    engine.put(b"hello", b"world");
    engine.put(b"foo", b"bar");
    assert_eq!(engine.get(b"hello"), Some(b"world".to_vec()));
    assert_eq!(engine.get(b"foo"), Some(b"bar".to_vec()));
    assert_eq!(engine.get(b"missing"), None);
}

#[test]
fn flat_engine_keeps_the_last_record_for_a_key() {
    let mut engine = StorageEngine::default();
    engine.put(b"key", b"first");
    engine.put(b"other", b"x");
    engine.put(b"key", b"second");
    assert_eq!(engine.get(b"key"), Some(b"second".to_vec()));
    assert_eq!(engine.get(b"other"), Some(b"x".to_vec()));
}

#[test]
fn flat_engine_handles_empty_keys_and_values() {
    let mut engine = StorageEngine::new();
    assert_eq!(engine.get(b""), None);
    engine.put(b"", b"");
    assert_eq!(engine.get(b""), Some(Vec::new()));
    engine.put(b"k", b"");
    assert_eq!(engine.get(b"k"), Some(Vec::new()));
}

#[test]
fn header_v1_round_trip() {
    let mut h = Header::new(4096, 7, 12);
    h.free_list_head = 9;
    h.free_count = 3;
    let bytes = h.to_bytes(4096);
    assert_eq!(bytes.len(), 4096);
    assert_eq!(&bytes[0..8], b"HWBTREE1");
    assert_eq!(&bytes[8..12], &1u32.to_le_bytes());
    assert_eq!(&bytes[12..16], &4096u32.to_le_bytes());
    assert_eq!(&bytes[16..24], &7u64.to_le_bytes());
    assert_eq!(Header::from_bytes(&bytes), Some(h));
    assert_eq!(HEADER_PAGE_ID, 0);
}

#[test]
fn header_v1_new_has_an_empty_free_list() {
    let h = Header::new(256, 1, 2);
    assert_eq!(h.page_size, 256);
    assert_eq!(h.root_id, 1);
    assert_eq!(h.next_page_id, 2);
    assert_eq!(h.free_list_head, 0);
    assert_eq!(h.free_count, 0);
}

#[test]
fn header_v1_refuses_short_foreign_and_other_version_pages() {
    assert_eq!(Header::from_bytes(&[0u8; 47]), None);
    assert_eq!(Header::from_bytes(&[0u8; 4096]), None);
    let mut bytes = Header::new(4096, 1, 2).to_bytes(4096);
    bytes[8] = 2;
    assert_eq!(Header::from_bytes(&bytes), None);
    let mut bytes = Header::new(4096, 1, 2).to_bytes(48);
    assert_eq!(bytes.len(), 48);
    assert!(Header::from_bytes(&bytes).is_some());
    bytes[0] = b'X';
    assert_eq!(Header::from_bytes(&bytes), None);
}
