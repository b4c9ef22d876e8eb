use cendb::ids::SegmentId;
use cendb::projection::column::{ColumnSpec, Value, ValueKind};
use cendb::projection::relational::{RelationalTable, TableSchema};

fn user_schema() -> TableSchema {
    TableSchema::new(
        "users",
        vec![
            ColumnSpec::new(0, ValueKind::I64).pk(),
            ColumnSpec::new(1, ValueKind::Bytes),
            ColumnSpec::new(2, ValueKind::I64),
        ],
    )
}

#[test]
fn insert_and_find_by_pk() {
    let mut table = RelationalTable::new(user_schema(), SegmentId(1), 16 * 1024).unwrap();
    table
        .insert(vec![
            Value::I64(42),
            Value::Bytes(b"alice".to_vec()),
            Value::I64(30),
        ])
        .unwrap();
    table.flush_pending().unwrap();

    let row = table.find_by_pk(42).unwrap().unwrap();
    assert_eq!(row.len(), 3);
    match &row[1] {
        Value::Bytes(b) => assert_eq!(b, b"alice"),
        other => panic!("expected Bytes, got {:?}", other),
    }
}

#[test]
fn scan_single_column() {
    let mut table = RelationalTable::new(user_schema(), SegmentId(1), 16 * 1024).unwrap();
    for i in 0..100i64 {
        table
            .insert(vec![
                Value::I64(i),
                Value::Bytes(format!("user-{}", i).into_bytes()),
                Value::I64(i * 2),
            ])
            .unwrap();
    }
    table.flush_pending().unwrap();

    let ages = table.scan_column_i64(2).unwrap();
    assert_eq!(ages.len(), 100);
    for (i, age) in ages.iter().enumerate() {
        assert_eq!(*age, (i as i64) * 2);
    }
}

#[test]
fn rows_must_fit_their_columns() {
    let mut table = RelationalTable::new(user_schema(), SegmentId(1), 16 * 1024).unwrap();
    assert!(table.insert(vec![Value::I64(1)]).is_err());
    assert!(table.insert(vec![]).is_err());
    assert_eq!(table.row_count(), 0);
    assert!(table.find_by_pk(1).unwrap().is_none());
    assert!(table.scan_column_i64(9).unwrap().is_empty());

    let schema = user_schema();
    assert_eq!(schema.find_column(2), Some(2));
    assert_eq!(schema.find_column(9), None);
    assert_eq!(schema.pk_index(), Some(0));
    let plain = TableSchema::new("t", vec![ColumnSpec::new(0, ValueKind::I64)]);
    assert_eq!(plain.pk_index(), None);
}

#[test]
fn a_buffered_row_is_found() {
    let mut table = RelationalTable::new(user_schema(), SegmentId(1), 16 * 1024).unwrap();
    table.insert(vec![Value::I64(5), Value::Bytes(b"eve".to_vec()), Value::I64(1)]).unwrap();
    assert!(table.find_by_pk(5).unwrap().is_some());
    assert!(table.scan_column_i64(1).unwrap().is_empty());
    table.flush_pending().unwrap();
    assert!(table.find_by_pk(5).unwrap().is_some());
    assert!(table.find_by_pk(6).unwrap().is_none());
    assert_eq!(table.row_count(), 1);
    assert_eq!(table.block_count(), 1);
    assert_eq!(table.iter().len(), 1);
    assert_eq!(table.schema().name, "users");
}
