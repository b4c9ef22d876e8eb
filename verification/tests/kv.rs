use cendb::ids::SegmentId;
use cendb::projection::kv::{hash_key, KvProjection, KvStore, PENDING_CAPACITY};

#[test]
fn put_get_roundtrip() {
    let mut store = KvStore::new(SegmentId(1), 16 * 1024);
    store.put(b"alice", b"password123").unwrap();
    store.put(b"bob", b"hunter2").unwrap();
    store.flush_pending().unwrap();

    assert_eq!(store.get(b"alice").unwrap(), Some(b"password123".to_vec()));
    assert_eq!(store.get(b"bob").unwrap(), Some(b"hunter2".to_vec()));
    assert_eq!(store.get(b"charlie").unwrap(), None);
}

#[test]
fn pending_writes_visible_before_flush() {
    let mut store = KvStore::new(SegmentId(1), 16 * 1024);
    store.put(b"key1", b"value1").unwrap();
    assert_eq!(store.get(b"key1").unwrap(), Some(b"value1".to_vec()));
}

#[test]
fn delete_inserts_tombstone() {
    let mut store = KvStore::new(SegmentId(1), 16 * 1024);
    store.put(b"alice", b"pwd").unwrap();
    store.flush_pending().unwrap();
    assert!(store.delete(b"alice").unwrap());
    store.flush_pending().unwrap();
    let v = store.get(b"alice").unwrap();
    assert!(v.is_some() && v.as_ref().unwrap().is_empty());
}

#[test]
fn iter_visits_all_pairs() {
    let mut store = KvStore::new(SegmentId(1), 16 * 1024);
    for i in 0..50 {
        store.put(format!("k{}", i).as_bytes(), format!("v{}", i).as_bytes()).unwrap();
    }
    store.flush_pending().unwrap();
    let collected: Vec<_> = store.iter();
    assert_eq!(collected.len(), 50);
}

#[test]
fn many_keys_span_multiple_blocks() {
    let mut store = KvStore::new(SegmentId(1), 16 * 1024);
    let big_value = vec![b'x'; 200];
    for i in 0..200 {
        store.put(format!("key-{:04}", i).as_bytes(), &big_value).unwrap();
    }
    store.flush_pending().unwrap();
    assert!(store.block_count() > 1, "expected >1 block, got {}", store.block_count());
    assert_eq!(store.get(b"key-0100").unwrap(), Some(big_value.clone()));
}

#[test]
fn the_last_write_wins() {
    let mut store = KvStore::new(SegmentId(1), 16 * 1024);
    store.put(b"k", b"one").unwrap();
    store.flush_pending().unwrap();
    store.put(b"k", b"two").unwrap();
    assert_eq!(store.get(b"k").unwrap(), Some(b"two".to_vec()));
    store.flush_pending().unwrap();
    assert_eq!(store.get(b"k").unwrap(), Some(b"two".to_vec()));
    assert_eq!(store.block_count(), 2);
    assert_eq!(store.segment_id(), SegmentId(1));
}

#[test]
fn a_full_buffer_is_sealed() {
    let mut store = KvStore::new(SegmentId(1), 1 << 20);
    for i in 0..PENDING_CAPACITY {
        store.put(&i.to_le_bytes(), b"v").unwrap();
    }
    assert_eq!(store.block_count(), 1);
    assert_eq!(store.len(), PENDING_CAPACITY);
}

#[test]
fn keys_and_sizes() {
    let mut store = KvStore::new(SegmentId(1), 16 * 1024);
    assert!(!store.delete(b"nobody").unwrap());
    assert_eq!(store.get(b"nobody").unwrap(), None);

    assert_eq!(hash_key(b"alice"), hash_key(b"alice"));
    assert!(hash_key(b"alice") != hash_key(b"bob"));

    let mut store = KvStore::new(SegmentId(1), 16 * 1024);
    store.put(b"key", b"value").unwrap();
    assert_eq!(store.raw_bytes(), 0);
    store.flush_pending().unwrap();
    assert_eq!(store.raw_bytes(), 3 + 5 + 8);
    store.put(b"key", b"other").unwrap();
    assert_eq!(store.len(), 1);
    store.put(b"new", b"x").unwrap();
    store.put(b"new", b"y").unwrap();
    assert_eq!(store.len(), 2);
}

#[test]
fn blocks_are_read_back_as_a_store() {
    let block = KvProjection::build_block(&[(&b"a"[..], &b"1"[..]), (&b"b"[..], &b"2"[..])]);
    let store = KvStore::from_blocks(SegmentId(7), 16 * 1024, vec![block]);
    assert_eq!(store.len(), 2);
    assert_eq!(store.get(b"b").unwrap(), Some(b"2".to_vec()));
    assert_eq!(store.iter(), vec![
        (b"a".to_vec(), b"1".to_vec()),
        (b"b".to_vec(), b"2".to_vec()),
    ]);
}
