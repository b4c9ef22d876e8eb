//! Encryption of single columns.

use cendb::security::field_encryption::{FieldEncryptionConfig, FieldEncryptor};
use cendb::strmap::StrMap;

fn make_config(cols: &[(&str, [u8; 32])]) -> FieldEncryptionConfig {
    let mut c = FieldEncryptionConfig::new();
    for (name, key) in cols {
        c.set_column_key(name, *key);
    }
    c
}

#[test]
fn round_trip_single_column() {
    let key = FieldEncryptionConfig::generate_key();
    let enc = FieldEncryptor::new(make_config(&[("ssn", key)]));
    let pt = b"123-45-6789";
    let ct = enc.encrypt_field("ssn", pt).unwrap();
    assert_ne!(&ct[..], pt);
    assert!(ct.len() >= 24 + 16 + pt.len());
    let back = enc.decrypt_field("ssn", &ct).unwrap();
    assert_eq!(back, pt);
}

#[test]
fn column_isolation_keys_dont_cross() {
    let key_a = FieldEncryptionConfig::generate_key();
    let key_b = FieldEncryptionConfig::generate_key();
    assert_ne!(key_a, key_b);

    let enc_a = FieldEncryptor::new(make_config(&[("a", key_a)]));
    let enc_b = FieldEncryptor::new(make_config(&[("b", key_b)]));
    let enc_both =
        FieldEncryptor::new(make_config(&[("a", key_a), ("b", key_b)]));

    let pt = b"top secret";
    let ct_a = enc_both.encrypt_field("a", pt).unwrap();

    let wrong = enc_b.decrypt_field("b", &ct_a);
    assert!(wrong.is_err(), "decrypting under the wrong key should fail");
    let also_wrong = enc_both.decrypt_field("b", &ct_a);
    assert!(also_wrong.is_err());

    let ok = enc_both.decrypt_field("a", &ct_a).unwrap();
    assert_eq!(ok, pt);

    let ok2 = enc_a.decrypt_field("a", &ct_a).unwrap();
    assert_eq!(ok2, pt);
}

#[test]
fn missing_column_passthrough_encrypt() {
    let key = FieldEncryptionConfig::generate_key();
    let enc = FieldEncryptor::new(make_config(&[("ssn", key)]));
    let pt = b"public data";
    let ct = enc.encrypt_field("notes", pt).unwrap();
    assert_eq!(ct, pt);
}

#[test]
fn missing_column_passthrough_decrypt() {
    let key = FieldEncryptionConfig::generate_key();
    let enc = FieldEncryptor::new(make_config(&[("ssn", key)]));
    let pt = b"public data";
    let back = enc.decrypt_field("notes", pt).unwrap();
    assert_eq!(back, pt);
}

#[test]
fn empty_plaintext_round_trips() {
    let key = FieldEncryptionConfig::generate_key();
    let enc = FieldEncryptor::new(make_config(&[("x", key)]));
    let ct = enc.encrypt_field("x", b"").unwrap();
    assert_eq!(ct.len(), 40);
    let back = enc.decrypt_field("x", &ct).unwrap();
    assert!(back.is_empty());
}

#[test]
fn empty_config_is_passthrough_for_everything() {
    let enc = FieldEncryptor::new(FieldEncryptionConfig::new());
    let pt = b"anything goes";
    let ct = enc.encrypt_field("any_column", pt).unwrap();
    assert_eq!(ct, pt);
    let back = enc.decrypt_field("any_column", &ct).unwrap();
    assert_eq!(back, pt);
}

#[test]
fn row_round_trip_preserves_unconfigured_columns() {
    let key = FieldEncryptionConfig::generate_key();
    let enc = FieldEncryptor::new(make_config(&[("ssn", key), ("email", key)]));

    let mut row: StrMap<Vec<u8>> = StrMap::new();
    row.insert("ssn".to_string(), b"123-45-6789".to_vec());
    row.insert("email".to_string(), b"alice@example.com".to_vec());
    row.insert("name".to_string(), b"Alice".to_vec());
    row.insert("age".to_string(), b"30".to_vec());

    let enc_row = enc.encrypt_row(&row).unwrap();

    assert_ne!(enc_row.get("ssn").unwrap(), row.get("ssn").unwrap());
    assert_ne!(enc_row.get("email").unwrap(), row.get("email").unwrap());
    assert!(enc_row.get("ssn").unwrap().len() > row.get("ssn").unwrap().len() + 24);
    assert!(enc_row.get("email").unwrap().len() > row.get("email").unwrap().len() + 24);

    assert_eq!(enc_row.get("name").unwrap(), row.get("name").unwrap());
    assert_eq!(enc_row.get("age").unwrap(), row.get("age").unwrap());

    let dec_row = enc.decrypt_row(&enc_row).unwrap();
    assert_eq!(dec_row.len(), row.len());
    for name in ["ssn", "email", "name", "age"] {
        assert_eq!(dec_row.get(name), row.get(name));
    }
}

#[test]
fn row_encrypt_only_configured_columns() {
    let key = FieldEncryptionConfig::generate_key();
    let enc = FieldEncryptor::new(make_config(&[("ssn", key)]));

    let mut row: StrMap<Vec<u8>> = StrMap::new();
    row.insert("ssn".to_string(), b"123-45-6789".to_vec());
    row.insert("name".to_string(), b"Alice".to_vec());

    let enc_row = enc.encrypt_row(&row).unwrap();
    assert_ne!(enc_row.get("ssn").unwrap(), row.get("ssn").unwrap());
    assert_eq!(enc_row.get("name").unwrap(), row.get("name").unwrap());
}

#[test]
fn field_encryption_tampered_ciphertext_fails_auth() {
    let key = FieldEncryptionConfig::generate_key();
    let enc = FieldEncryptor::new(make_config(&[("ssn", key)]));
    let mut ct = enc.encrypt_field("ssn", b"secret").unwrap();
    let last = ct.len() - 1;
    ct[last] ^= 0x01;
    let r = enc.decrypt_field("ssn", &ct);
    assert!(r.is_err());
}

#[test]
fn truncated_ciphertext_returns_error() {
    let key = FieldEncryptionConfig::generate_key();
    let enc = FieldEncryptor::new(make_config(&[("ssn", key)]));
    let r = enc.decrypt_field("ssn", &[0u8; 10]);
    assert!(r.is_err());
}

#[test]
fn field_encryption_distinct_nonces_per_encryption() {
    let key = FieldEncryptionConfig::generate_key();
    let enc = FieldEncryptor::new(make_config(&[("x", key)]));
    let pt = b"same value";
    let ct1 = enc.encrypt_field("x", pt).unwrap();
    let ct2 = enc.encrypt_field("x", pt).unwrap();
    assert_ne!(&ct1[..24], &ct2[..24]);
    assert_ne!(&ct1[24..], &ct2[24..]);
    assert_eq!(enc.decrypt_field("x", &ct1).unwrap(), pt);
    assert_eq!(enc.decrypt_field("x", &ct2).unwrap(), pt);
}

#[test]
fn config_is_empty_and_len_helpers() {
    let mut c = FieldEncryptionConfig::new();
    assert!(c.is_empty());
    assert_eq!(c.len(), 0);
    c.set_column_key("a", [0u8; 32]);
    assert!(!c.is_empty());
    assert_eq!(c.len(), 1);
    c.set_column_key("b", [1u8; 32]);
    assert_eq!(c.len(), 2);
    c.set_column_key("a", [2u8; 32]);
    assert_eq!(c.len(), 2);
}

#[test]
fn generate_key_is_random() {
    let k1 = FieldEncryptionConfig::generate_key();
    let k2 = FieldEncryptionConfig::generate_key();
    assert_ne!(k1, k2);
}
