use cendb::ids::SegmentId;
use cendb::projection::column::{ColumnSpec, ValueKind};
use cendb::projection::timeseries::{TimeSeriesProjection, TimeSeriesSchema, TimeSeriesStore};

fn ts_schema() -> TimeSeriesSchema {
    TimeSeriesSchema {
        ts_col_id: 0,
        series_col_id: 1,
        extra_cols: vec![ColumnSpec::new(2, ValueKind::F64)],
    }
}

#[test]
fn append_and_range_scan() {
    let mut store = TimeSeriesStore::new(ts_schema(), SegmentId(1), 16 * 1024);
    for ts in 0..1000i64 {
        store.append(ts, 1, (ts as f64).to_bits()).unwrap();
    }
    store.flush_pending().unwrap();

    let (touched, results) = store.range_scan(100, 199).unwrap();
    assert_eq!(results.len(), 100);
    assert!(touched >= 1);
    assert_eq!(results[0].0, 100);
    assert!((f64::from_bits(results[0].2) - 100.0).abs() < 1e-9);
}

#[test]
fn zone_map_skipping_reduces_io() {
    let mut store = TimeSeriesStore::new(ts_schema(), SegmentId(1), 16 * 1024);
    for ts in 0..5000i64 {
        store.append(ts, 1, (ts as f64 * 0.1).to_bits()).unwrap();
    }
    store.flush_pending().unwrap();
    assert!(store.block_count() > 1);

    let total_blocks = store.block_count();
    let (touched, _) = store.range_scan(1000, 1100).unwrap();
    assert!(
        touched < total_blocks,
        "expected touched < total_blocks, got {} vs {}",
        touched,
        total_blocks
    );
}

#[test]
fn range_scan_for_series_uses_both_zone_maps() {
    let mut store = TimeSeriesStore::new(ts_schema(), SegmentId(1), 16 * 1024);
    for ts in 0..100i64 {
        store.append(ts, 1, (ts as f64).to_bits()).unwrap();
        store.append(ts, 2, (ts as f64 * 2.0).to_bits()).unwrap();
    }
    store.flush_pending().unwrap();

    let (touched, results) = store.range_scan_for_series(2, 0, 100).unwrap();
    assert_eq!(results.len(), 100);
    assert!(touched >= 1);
    for (_, v) in &results {
        let _ = v;
    }
}

#[test]
fn batches_are_scanned_with_the_buffer() {
    let mut store = TimeSeriesStore::new(ts_schema(), SegmentId(1), 16 * 1024);
    store.append_batch(&[(5, 1, 50), (3, 2, 30), (4, 1, 40)]).unwrap();
    store.flush_pending().unwrap();
    let (_, all) = store.range_scan(i64::MIN, i64::MAX).unwrap();
    assert_eq!(all.len(), 3);
    let (_, one) = store.range_scan_for_series(1, 0, 4).unwrap();
    assert_eq!(one, vec![(4, 40)]);
    assert_eq!(store.row_count(), 3);
    let (touched, none) = store.range_scan(100, 200).unwrap();
    assert_eq!((touched, none.len()), (0, 0));
}

#[test]
fn a_small_buffer_seals_often() {
    let mut store = TimeSeriesStore::new(ts_schema(), SegmentId(1), 16 * 1024)
        .with_pending_capacity(2);
    for ts in 0..6i64 {
        store.append(ts, 1, 0).unwrap();
    }
    store.seal().unwrap();
    assert_eq!(store.block_count(), 3);
}

#[test]
fn blocks_and_columns() {
    let block = TimeSeriesProjection::build_block(&vec![(1, 9, 7), (2, 9, 8)]);
    assert_eq!(block.rows, vec![(1, 9, 7), (2, 9, 8)]);

    let specs = ts_schema().to_specs();
    assert_eq!(specs.len(), 3);
    assert_eq!(specs[0].kind, ValueKind::Timestamp);
    assert_eq!(specs[2].kind, ValueKind::F64);
}
