use cendb::bytemap::ByteMap;
use cendb::bytes::{
    get_be32, get_le32, get_le64, of_bits, push_be32, push_le32, push_le64, to_bits,
};
use cendb::floats::{bits_at_most, bits_equal, bits_larger, bits_less, bits_smaller};
use cendb::idmap::IdMap;
use cendb::numbers::{denotes_float, parse_i64, parse_u64};
use cendb::strmap::StrMap;

#[test]
fn maps_keep_one_value_for_a_key() {
    let mut by_name: StrMap<u8> = StrMap::new();
    by_name.insert("a".to_string(), 1);
    by_name.insert("b".to_string(), 2);
    by_name.insert("a".to_string(), 3);
    assert_eq!((by_name.len(), by_name.get("a"), by_name.get("c")), (2, Some(&3), None));
    assert_eq!((by_name.key_at(0).as_str(), *by_name.value_at(1)), ("a", 2));
    assert!(by_name.remove("a"));
    assert!(!by_name.remove("a"));
    assert!(!by_name.contains_key("a"));

    let mut by_number: IdMap<u8> = IdMap::new();
    by_number.insert(7, 1);
    by_number.insert(7, 2);
    assert_eq!((by_number.len(), by_number.get(7)), (1, Some(&2)));
    assert!(by_number.remove(7));
    assert_eq!(by_number.get(7), None);

    let mut by_bytes: ByteMap<u8> = ByteMap::new();
    by_bytes.insert(vec![0, 1], 1);
    assert_eq!(by_bytes.get(&[0, 1]), Some(&1));
    assert_eq!(by_bytes.get(&[0]), None);
}

#[test]
fn numbers_have_texts_and_bytes() {
    assert_eq!(parse_i64("-9223372036854775808"), Some(i64::MIN));
    assert_eq!(parse_i64("9223372036854775808"), None);
    assert_eq!((parse_i64("+5"), parse_i64("-"), parse_i64(" 5")), (Some(5), None, None));
    assert_eq!((parse_u64("18446744073709551615"), parse_u64("-1")), (Some(u64::MAX), None));
    for text in ["1", "-1.5", "1e5", ".5", "5.", "inf", "-NaN", "+Infinity", "1E-3"] {
        assert!(denotes_float(text) && text.parse::<f64>().is_ok());
    }
    for text in ["", ".", "e5", "1e", "1.2.3", "0x10", "1 ", "infinit", "+-1"] {
        assert!(!denotes_float(text) && text.parse::<f64>().is_err());
    }
    let mut out = Vec::new();
    push_le32(&mut out, 0x01020304);
    push_be32(&mut out, 0x01020304);
    push_le64(&mut out, 5);
    assert_eq!(out, vec![4, 3, 2, 1, 1, 2, 3, 4, 5, 0, 0, 0, 0, 0, 0, 0]);
    assert_eq!((get_le32(&out, 0), get_be32(&out, 4), get_le64(&out, 8)), (0x01020304, 0x01020304, 5));
    assert_eq!((to_bits(-1), of_bits(u64::MAX)), (u64::MAX, -1));
    let values = [f64::NEG_INFINITY, -1.5, -0.0, 0.0, 1e-300, 2.0, f64::INFINITY, f64::NAN];
    for x in values {
        for y in values {
            let (a, c) = (x.to_bits(), y.to_bits());
            assert_eq!(bits_less(a, c), x < y);
            assert_eq!(bits_at_most(a, c), x <= y);
            assert_eq!(bits_equal(a, c), x == y);
            if x < y {
                assert_eq!((bits_smaller(a, c), bits_larger(a, c)), (a, c));
            }
        }
    }
}
