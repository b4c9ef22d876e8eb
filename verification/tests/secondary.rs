use cendb::ids::{BlockId, RowLocator, SegmentId, SlotId};
use cendb::search::secondary::SecondaryIndex;

#[test]
fn insert_and_lookup() {
    let mut idx = SecondaryIndex::new("age");
    idx.insert(30, RowLocator::new(SegmentId(1), BlockId(0), SlotId(0)), 100, 1);
    idx.insert(30, RowLocator::new(SegmentId(1), BlockId(0), SlotId(1)), 100, 1);
    idx.insert(25, RowLocator::new(SegmentId(1), BlockId(0), SlotId(2)), 100, 1);

    let results = idx.lookup(30, 200);
    assert_eq!(results.len(), 2);

    let results = idx.lookup(25, 200);
    assert_eq!(results.len(), 1);

    let results = idx.lookup(99, 200);
    assert!(results.is_empty());
}

#[test]
fn range_lookup() {
    let mut idx = SecondaryIndex::new("score");
    for i in 0..100i64 {
        idx.insert(i, RowLocator::new(SegmentId(1), BlockId(0), SlotId(i as u32)), 100, 1);
    }
    let results = idx.lookup_range(10, 20, 200);
    assert_eq!(results.len(), 11);
}

#[test]
fn mvcc_visibility() {
    let mut idx = SecondaryIndex::new("val");
    idx.insert(42, RowLocator::new(SegmentId(1), BlockId(0), SlotId(0)), 100, 1);
    idx.supersede(42, 100, 200);
    idx.insert(42, RowLocator::new(SegmentId(1), BlockId(0), SlotId(1)), 200, 2);

    let r150 = idx.lookup(42, 150);
    assert_eq!(r150.len(), 1);
    assert_eq!(r150[0].slot.0, 0);

    let r250 = idx.lookup(42, 250);
    assert_eq!(r250.len(), 1);
    assert_eq!(r250[0].slot.0, 1);
}

#[test]
fn gc_removes_old_versions() {
    let mut idx = SecondaryIndex::new("val");
    idx.insert(42, RowLocator::new(SegmentId(1), BlockId(0), SlotId(0)), 100, 1);
    idx.supersede(42, 100, 200);
    idx.insert(42, RowLocator::new(SegmentId(1), BlockId(0), SlotId(1)), 200, 2);

    let removed = idx.gc(250);
    assert_eq!(removed, 1);
    assert_eq!(idx.entry_count(), 1);
}

#[test]
fn relocate_on_compaction() {
    let mut idx = SecondaryIndex::new("val");
    idx.insert(42, RowLocator::new(SegmentId(1), BlockId(5), SlotId(3)), 100, 1);

    idx.relocate(BlockId(5), SlotId(3), SegmentId(1), BlockId(10), SlotId(0));

    let results = idx.lookup(42, 200);
    assert_eq!(results.len(), 1);
    assert_eq!(results[0].block.0, 10);
    assert_eq!(results[0].slot.0, 0);
}

#[test]
fn a_range_gives_the_rows_of_its_values() {
    let mut idx = SecondaryIndex::new("v");
    for v in [5i64, -3, 9, 0] {
        idx.insert(v, RowLocator::new(SegmentId(1), BlockId(0), SlotId((v + 3) as u32)), 10, 1);
    }
    let slots: Vec<u32> = idx.lookup_range(-3, 5, 10).iter().map(|l| l.slot.0).collect();
    assert_eq!(slots, vec![8, 0, 3]);
    assert_eq!(idx.value_count(), 4);
    assert!(idx.lookup(5, 9).is_empty());
    assert_eq!(idx.lookup(5, 10).len(), 1);
}

#[test]
fn collecting_keeps_current_entries() {
    let mut idx = SecondaryIndex::new("v");
    idx.insert(1, RowLocator::new(SegmentId(1), BlockId(0), SlotId(0)), 10, 1);
    assert_eq!(idx.gc(1000), 0);
    assert_eq!(idx.lookup(1, 1000).len(), 1);
}
