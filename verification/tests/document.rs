use cendb::error::CenStatus;
use cendb::projection::document::{DocKind, DocValue, HexDoc, HexDocBuilder, HexDocHeader};

#[test]
fn roundtrip_simple_object() {
    let doc = DocValue::Object(vec![
        ("name".to_string(), DocValue::Str("Alice".to_string())),
        ("age".to_string(), DocValue::I64(30)),
        ("active".to_string(), DocValue::Bool(true)),
    ]);
    let bytes = HexDocBuilder::encode(&doc).unwrap();
    let reader = HexDoc::new(&bytes).unwrap();
    assert_eq!(reader.root_kind(), DocKind::Object);

    let name = reader.get_field("name").unwrap().unwrap();
    match name {
        DocValue::Str(s) => assert_eq!(s, "Alice"),
        other => panic!("expected Str, got {:?}", other),
    }
    let age = reader.get_field("age").unwrap().unwrap();
    match age {
        DocValue::I64(30) => {}
        other => panic!("expected I64(30), got {:?}", other),
    }
}

#[test]
fn roundtrip_nested_object() {
    let doc = DocValue::Object(vec![
        ("user".to_string(), DocValue::Object(vec![
            ("id".to_string(), DocValue::I64(42)),
            ("address".to_string(), DocValue::Object(vec![
                ("city".to_string(), DocValue::Str("Berlin".to_string())),
                ("zip".to_string(), DocValue::Str("10115".to_string())),
            ])),
        ])),
        ("active".to_string(), DocValue::Bool(true)),
    ]);
    let bytes = HexDocBuilder::encode(&doc).unwrap();
    let reader = HexDoc::new(&bytes).unwrap();

    let city = reader.get_path("user.address.city").unwrap().unwrap();
    match city {
        DocValue::Str(s) => assert_eq!(s, "Berlin"),
        other => panic!("expected Str, got {:?}", other),
    }
}

#[test]
fn roundtrip_array() {
    let doc = DocValue::Object(vec![
        ("items".to_string(), DocValue::Array(vec![
            DocValue::I64(1),
            DocValue::I64(2),
            DocValue::I64(3),
        ])),
    ]);
    let bytes = HexDocBuilder::encode(&doc).unwrap();
    let reader = HexDoc::new(&bytes).unwrap();
    let items = reader.get_field("items").unwrap().unwrap();
    match items {
        DocValue::Array(a) => {
            assert_eq!(a.len(), 3);
            assert_eq!(a[0], DocValue::I64(1));
            assert_eq!(a[2], DocValue::I64(3));
        }
        other => panic!("expected Array, got {:?}", other),
    }
}

#[test]
fn missing_field_returns_none() {
    let doc = DocValue::Object(vec![
        ("name".to_string(), DocValue::Str("Bob".to_string())),
    ]);
    let bytes = HexDocBuilder::encode(&doc).unwrap();
    let reader = HexDoc::new(&bytes).unwrap();
    assert!(reader.get_field("nonexistent").unwrap().is_none());
}

#[test]
fn every_kind_of_value_is_read_back() {
    let doc = DocValue::Object(vec![
        ("none".to_string(), DocValue::Null),
        ("no".to_string(), DocValue::Bool(false)),
        ("low".to_string(), DocValue::I64(i64::MIN)),
        ("half".to_string(), DocValue::F64(0.5f64.to_bits())),
        ("empty".to_string(), DocValue::Str(String::new())),
        ("umlaut".to_string(), DocValue::Str("\u{fc}ber".to_string())),
        ("list".to_string(), DocValue::Array(vec![DocValue::Null, DocValue::Array(vec![])])),
        ("inner".to_string(), DocValue::Object(vec![])),
        ("raw".to_string(), DocValue::Bytes(vec![0, 255])),
    ]);
    let bytes = HexDocBuilder::encode(&doc).unwrap();
    let reader = HexDoc::new(&bytes).unwrap();
    assert_eq!(reader.decode_root().unwrap(), doc);
    assert_eq!(reader.get_field("half").unwrap(), Some(DocValue::F64(0.5f64.to_bits())));
    assert_eq!(reader.get_path("list.nothing").unwrap(), None);
}

#[test]
fn values_are_reached_by_key_and_by_index() {
    let doc = DocValue::Object(vec![(
        "xs".to_string(),
        DocValue::Array(vec![DocValue::I64(7), DocValue::Bool(true)]),
    )]);
    assert_eq!(doc.kind(), DocKind::Object);
    let xs = doc.get("xs").unwrap();
    assert_eq!(xs.kind(), DocKind::Array);
    assert_eq!(xs.index(1), Some(&DocValue::Bool(true)));
    assert_eq!(xs.index(2), None);
    assert_eq!(doc.get("ys"), None);
    assert_eq!(doc.index(0), None);
    assert_eq!(doc.clone(), doc);
}

#[test]
fn damaged_documents_are_refused() {
    let bytes = HexDocBuilder::encode(&DocValue::I64(1)).unwrap();
    assert_eq!(HexDoc::new(&bytes[..3]).err().unwrap().status, CenStatus::ErrCorrupt);
    let mut wrong = bytes.clone();
    wrong[0] ^= 0xff;
    assert!(HexDoc::new(&wrong).is_err());
    assert!(HexDocHeader::from_bytes(&[]).is_err());
}

#[test]
fn headers_and_kinds_survive_their_bytes() {
    let bytes = HexDocBuilder::encode(&DocValue::Bool(true)).unwrap();
    let header = HexDocHeader::from_bytes(&bytes).unwrap();
    let again = HexDocHeader::from_bytes(&header.to_bytes()).unwrap();
    assert_eq!(header.to_bytes(), again.to_bytes());
    assert_eq!(&bytes[..header.to_bytes().len()], &header.to_bytes()[..]);

    for kind in [
        DocKind::Null,
        DocKind::Bool,
        DocKind::I64,
        DocKind::F64,
        DocKind::Str,
        DocKind::Bytes,
        DocKind::Array,
        DocKind::Object,
    ] {
        assert_eq!(DocKind::from_u8(kind.tag()), kind);
    }
}
