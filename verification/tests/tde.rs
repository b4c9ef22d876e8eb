//! Encryption of pages.

use cendb::security::tde::{TdeCipher, TdeConfig, TdeError};

#[test]
fn encrypt_decrypt_roundtrip() {
    let cfg = TdeConfig::from_passphrase_insecure_fixed_salt("hunter2").unwrap();
    let cipher = TdeCipher::new(cfg);
    let plaintext = b"hello, world! This is a page of data.";
    let ct = cipher.encrypt(plaintext).unwrap();
    assert_ne!(&ct[..], plaintext);
    assert!(ct.len() > plaintext.len() + 24);
    let pt = cipher.decrypt(&ct).unwrap();
    assert_eq!(&pt, plaintext);
}

#[test]
fn tde_tampered_ciphertext_fails_auth() {
    let cfg = TdeConfig::from_passphrase_insecure_fixed_salt("hunter2").unwrap();
    let cipher = TdeCipher::new(cfg);
    let plaintext = b"sensitive data";
    let mut ct = cipher.encrypt(plaintext).unwrap();
    let last = ct.len() - 1;
    ct[last] ^= 0x01;
    let result = cipher.decrypt(&ct);
    assert!(matches!(result, Err(TdeError::AuthenticationFailed)));
}

#[test]
fn tampered_nonce_fails_auth() {
    let cfg = TdeConfig::from_passphrase_insecure_fixed_salt("hunter2").unwrap();
    let cipher = TdeCipher::new(cfg);
    let plaintext = b"sensitive data";
    let mut ct = cipher.encrypt(plaintext).unwrap();
    ct[0] ^= 0x01;
    let result = cipher.decrypt(&ct);
    assert!(matches!(result, Err(TdeError::AuthenticationFailed)));
}

#[test]
fn wrong_key_fails_auth() {
    let cfg1 = TdeConfig::from_passphrase_insecure_fixed_salt("hunter2").unwrap();
    let cfg2 = TdeConfig::from_passphrase_insecure_fixed_salt("hunter3").unwrap();
    let cipher1 = TdeCipher::new(cfg1);
    let cipher2 = TdeCipher::new(cfg2);
    let plaintext = b"sensitive data";
    let ct = cipher1.encrypt(plaintext).unwrap();
    let result = cipher2.decrypt(&ct);
    assert!(matches!(result, Err(TdeError::AuthenticationFailed)));
}

#[test]
fn disabled_cipher_is_passthrough() {
    let cfg = TdeConfig::disabled();
    let cipher = TdeCipher::new(cfg);
    let plaintext = b"unencrypted";
    let ct = cipher.encrypt(plaintext).unwrap();
    assert_eq!(&ct, plaintext);
    let pt = cipher.decrypt(&ct).unwrap();
    assert_eq!(&pt, plaintext);
}

#[test]
fn tde_distinct_nonces_per_encryption() {
    let cfg = TdeConfig::from_passphrase_insecure_fixed_salt("hunter2").unwrap();
    let cipher = TdeCipher::new(cfg);
    let plaintext = b"same data";
    let ct1 = cipher.encrypt(plaintext).unwrap();
    let ct2 = cipher.encrypt(plaintext).unwrap();
    assert_ne!(&ct1[..24], &ct2[..24]);
    assert_ne!(&ct1[24..], &ct2[24..]);
    assert_eq!(cipher.decrypt(&ct1).unwrap(), plaintext);
    assert_eq!(cipher.decrypt(&ct2).unwrap(), plaintext);
}

#[test]
fn empty_plaintext_roundtrips() {
    let cfg = TdeConfig::from_passphrase_insecure_fixed_salt("hunter2").unwrap();
    let cipher = TdeCipher::new(cfg);
    let plaintext = b"";
    let ct = cipher.encrypt(plaintext).unwrap();
    assert_eq!(ct.len(), 40);
    let pt = cipher.decrypt(&ct).unwrap();
    assert!(pt.is_empty());
}

#[test]
fn large_page_roundtrips() {
    let cfg = TdeConfig::from_passphrase_insecure_fixed_salt("hunter2").unwrap();
    let cipher = TdeCipher::new(cfg);
    let plaintext: Vec<u8> = (0..256 * 1024).map(|i| (i & 0xFF) as u8).collect();
    let ct = cipher.encrypt(&plaintext).unwrap();
    let pt = cipher.decrypt(&ct).unwrap();
    assert_eq!(pt, plaintext);
}

#[test]
fn from_raw_key_works() {
    let key = [42u8; 32];
    let cfg = TdeConfig::from_raw_key(key);
    let cipher = TdeCipher::new(cfg);
    let plaintext = b"data";
    let ct = cipher.encrypt(plaintext).unwrap();
    let pt = cipher.decrypt(&ct).unwrap();
    assert_eq!(&pt, plaintext);
}

#[test]
fn salt_generation_is_random() {
    let s1 = TdeConfig::generate_salt();
    let s2 = TdeConfig::generate_salt();
    assert_ne!(s1, s2);
}

#[test]
fn page_is_sealed_under_the_given_nonce() {
    let cipher = TdeCipher::new(TdeConfig::from_raw_key([1u8; 32]));
    let nonce = [9u8; 24];
    let page = cipher.encrypt_with(b"page", &nonce).unwrap();
    assert_eq!(&page[..24], &nonce);
    assert_eq!(page.len(), 24 + 4 + 16);
    assert_eq!(page, cipher.encrypt_with(b"page", &nonce).unwrap());
    assert_eq!(cipher.decrypt(&page).unwrap(), b"page");
}

#[test]
fn short_page_is_refused() {
    let cipher = TdeCipher::new(TdeConfig::from_raw_key([1u8; 32]));
    assert!(cipher.decrypt(&[0u8; 10]).is_err());
    assert!(cipher.is_enabled());
    assert!(!TdeCipher::new(TdeConfig::disabled()).is_enabled());
}

#[test]
fn passphrase_and_salt_make_the_key() {
    let a = TdeCipher::new(TdeConfig::from_passphrase("p", b"0123456789abcdef").unwrap());
    let b = TdeCipher::new(TdeConfig::from_passphrase("p", b"0123456789abcdef").unwrap());
    let c = TdeCipher::new(TdeConfig::from_passphrase("p", b"fedcba9876543210").unwrap());
    let page = a.encrypt(b"x").unwrap();
    assert_eq!(b.decrypt(&page).unwrap(), b"x");
    assert!(matches!(c.decrypt(&page), Err(TdeError::AuthenticationFailed)));
}

#[test]
fn short_salt_is_refused() {
    assert!(TdeConfig::from_passphrase("p", b"short").is_err());
}
