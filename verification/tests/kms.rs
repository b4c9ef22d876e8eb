//! Key management and envelope encryption.

use cendb::security::kms::{
    pack_envelope, split_envelope, AwsKmsConfig, KmsEnvelopeEncryption, KmsProvider, LocalKms,
    VaultConfig,
};

#[test]
fn local_kms_round_trip() {
    let kms = LocalKms::from_passphrase_insecure_fixed_salt("master-passphrase").unwrap();
    let dk = [42u8; 32];
    let wrapped = kms.encrypt_data_key(&dk).unwrap();
    assert_ne!(&wrapped[..], &dk[..]);
    assert_eq!(wrapped.len(), 24 + 32 + 16);
    let back = kms.decrypt_data_key(&wrapped).unwrap();
    assert_eq!(back, dk);
}

#[test]
fn envelope_round_trip() {
    let kms = LocalKms::from_passphrase_insecure_fixed_salt("master-passphrase").unwrap();
    let env = KmsEnvelopeEncryption::new(kms);
    let pt = b"the quick brown fox jumps over the lazy dog";
    let blob = env.encrypt(pt).unwrap();
    assert_ne!(&blob[..], pt);
    let back = env.decrypt(&blob).unwrap();
    assert_eq!(back, pt);
}

#[test]
fn envelope_round_trip_empty_plaintext() {
    let kms = LocalKms::from_passphrase_insecure_fixed_salt("master-passphrase").unwrap();
    let env = KmsEnvelopeEncryption::new(kms);
    let pt = b"";
    let blob = env.encrypt(pt).unwrap();
    let back = env.decrypt(&blob).unwrap();
    assert!(back.is_empty());
}

#[test]
fn envelope_round_trip_large_payload() {
    let kms = LocalKms::from_passphrase_insecure_fixed_salt("master-passphrase").unwrap();
    let env = KmsEnvelopeEncryption::new(kms);
    let pt: Vec<u8> = (0..64 * 1024).map(|i| (i & 0xFF) as u8).collect();
    let blob = env.encrypt(&pt).unwrap();
    let back = env.decrypt(&blob).unwrap();
    assert_eq!(back, pt);
}

#[test]
fn wrong_master_key_fails_to_unwrap() {
    let kms_a = LocalKms::from_passphrase_insecure_fixed_salt("master-A").unwrap();
    let kms_b = LocalKms::from_passphrase_insecure_fixed_salt("master-B").unwrap();
    let dk = [7u8; 32];
    let wrapped = kms_a.encrypt_data_key(&dk).unwrap();
    let r = kms_b.decrypt_data_key(&wrapped);
    assert!(r.is_err(), "decrypting under the wrong master key must fail");
}

#[test]
fn envelope_wrong_master_key_fails() {
    let kms_a = LocalKms::from_passphrase_insecure_fixed_salt("master-A").unwrap();
    let env_a = KmsEnvelopeEncryption::new(kms_a);
    let pt = b"sensitive payload";
    let blob = env_a.encrypt(pt).unwrap();

    let kms_b = LocalKms::from_passphrase_insecure_fixed_salt("master-B").unwrap();
    let env_b = KmsEnvelopeEncryption::new(kms_b);
    let r = env_b.decrypt(&blob);
    assert!(r.is_err(), "decrypting under the wrong KMS master must fail");
}

#[test]
fn tampered_wrapped_key_fails() {
    let kms = LocalKms::from_passphrase_insecure_fixed_salt("master-passphrase").unwrap();
    let env = KmsEnvelopeEncryption::new(kms);
    let pt = b"abc";
    let mut blob = env.encrypt(pt).unwrap();
    blob[10] ^= 0x01;
    let r = env.decrypt(&blob);
    assert!(r.is_err());
}

#[test]
fn tampered_ciphertext_fails() {
    let kms = LocalKms::from_passphrase_insecure_fixed_salt("master-passphrase").unwrap();
    let env = KmsEnvelopeEncryption::new(kms);
    let pt = b"abc";
    let mut blob = env.encrypt(pt).unwrap();
    let last = blob.len() - 1;
    blob[last] ^= 0x01;
    let r = env.decrypt(&blob);
    assert!(r.is_err());
}

#[test]
fn truncated_envelope_fails() {
    let kms = LocalKms::from_passphrase_insecure_fixed_salt("master-passphrase").unwrap();
    let env = KmsEnvelopeEncryption::new(kms);
    let r = env.decrypt(&[0u8; 3]);
    assert!(r.is_err());
}

#[test]
fn inconsistent_length_prefix_fails() {
    let kms = LocalKms::from_passphrase_insecure_fixed_salt("master-passphrase").unwrap();
    let env = KmsEnvelopeEncryption::new(kms);
    let r = env.decrypt(&[0xFFu8, 0xFF, 0xFF, 0xFF]);
    assert!(r.is_err());
}

fn name_of<K: KmsProvider>(kms: &K) -> String {
    kms.name().to_string()
}

#[test]
fn trait_object_usage() {
    let kms = LocalKms::from_passphrase_insecure_fixed_salt("trait-test").unwrap();
    assert_eq!(name_of(&kms), "local");
    let dk = [9u8; 32];
    let wrapped = kms.encrypt_data_key(&dk).unwrap();
    let back = kms.decrypt_data_key(&wrapped).unwrap();
    assert_eq!(back, dk);
    assert_eq!(kms.name(), "local");

    let env = KmsEnvelopeEncryption::new(kms);
    let pt = b"hello via trait object";
    let blob = env.encrypt(pt).unwrap();
    assert_eq!(env.decrypt(&blob).unwrap(), pt);
}

#[test]
fn local_kms_with_name_override() {
    let kms = LocalKms::from_passphrase_insecure_fixed_salt("name-test")
        .unwrap()
        .with_name("my-local-kms");
    assert_eq!(kms.name(), "my-local-kms");
}

#[test]
fn envelope_records_kms_name() {
    let kms = LocalKms::from_passphrase_insecure_fixed_salt("x").unwrap().with_name("named-kms");
    let env = KmsEnvelopeEncryption::new(kms);
    assert_eq!(env.kms_name(), "named-kms");
}

#[test]
fn distinct_wrapped_keys_for_same_data_key() {
    let kms = LocalKms::from_passphrase_insecure_fixed_salt("master-passphrase").unwrap();
    let dk = [1u8; 32];
    let w1 = kms.encrypt_data_key(&dk).unwrap();
    let w2 = kms.encrypt_data_key(&dk).unwrap();
    assert_ne!(&w1[..24], &w2[..24]);
    assert_eq!(kms.decrypt_data_key(&w1).unwrap(), dk);
    assert_eq!(kms.decrypt_data_key(&w2).unwrap(), dk);
}

#[test]
fn aws_kms_provider_roundtrip() {
    let cfg = AwsKmsConfig::new("us-east-1", "fake-key-id", "akid", "secret-key-123");
    let provider = cfg.build_provider();
    assert_eq!(provider.name(), "aws-kms");
    let data_key = [42u8; 32];
    let encrypted = provider.encrypt_data_key(&data_key).unwrap();
    assert_ne!(encrypted, data_key.to_vec());
    let decrypted = provider.decrypt_data_key(&encrypted).unwrap();
    assert_eq!(decrypted, data_key);
}

#[test]
fn vault_provider_roundtrip() {
    let cfg = VaultConfig::new("https://vault.example.com:8200", "tok", "cendb-master");
    let provider = cfg.build_provider();
    assert_eq!(provider.name(), "vault");
    let data_key = [99u8; 32];
    let encrypted = provider.encrypt_data_key(&data_key).unwrap();
    let decrypted = provider.decrypt_data_key(&encrypted).unwrap();
    assert_eq!(decrypted, data_key);
}

#[test]
fn aws_kms_wrong_secret_fails() {
    let cfg1 = AwsKmsConfig::new("us-east-1", "key", "akid", "secret1");
    let cfg2 = AwsKmsConfig::new("us-east-1", "key", "akid", "secret2");
    let p1 = cfg1.build_provider();
    let p2 = cfg2.build_provider();
    let data_key = [42u8; 32];
    let encrypted = p1.encrypt_data_key(&data_key).unwrap();
    let result = p2.decrypt_data_key(&encrypted);
    assert!(result.is_err());
}

#[test]
fn aws_kms_config_stores_fields() {
    let cfg = AwsKmsConfig::new("us-west-2", "key-arn", "AKIA...", "secret");
    assert_eq!(cfg.region, "us-west-2");
    assert_eq!(cfg.key_id, "key-arn");
    assert_eq!(cfg.access_key_id, "AKIA...");
    assert_eq!(cfg.secret_access_key, "secret");
}

#[test]
fn vault_config_stores_fields() {
    let cfg = VaultConfig::new("https://v:8200", "tok", "named-key");
    assert_eq!(cfg.address, "https://v:8200");
    assert_eq!(cfg.token, "tok");
    assert_eq!(cfg.key_name, "named-key");
}

#[test]
fn envelope_is_split_where_it_was_packed() {
    let blob = pack_envelope(Ok(vec![7u8; 3]), &[1, 2, 3, 4]).unwrap();
    let (wrapped, payload) = split_envelope(&blob).unwrap();
    assert_eq!(wrapped, vec![7u8; 3]);
    assert_eq!(payload, vec![1, 2, 3, 4]);
}
