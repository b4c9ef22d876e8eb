//! The audit log.

use cendb::security::audit::{verify_entries, AuditLog, AuditOp};

#[test]
fn append_and_verify() {
    let mut log = AuditLog::new();
    log.append(1, AuditOp::Insert, "users", 1, "user_id=42");
    log.append(2, AuditOp::Update, "users", 1, "user_id=42");
    log.append(1, AuditOp::Delete, "orders", 5, "order_id IN (1..5)");
    assert_eq!(log.len(), 3);
    log.verify_chain().unwrap();
}

#[test]
fn chain_detects_tampering() {
    let mut log = AuditLog::new();
    log.append(1, AuditOp::Insert, "users", 1, "row1");
    log.append(1, AuditOp::Insert, "users", 1, "row2");
    let mut entries = log.entries();
    assert!(verify_entries(&entries).is_ok());
    entries[0].detail = "TAMPERED".to_string();
    let result = verify_entries(&entries);
    assert!(result.is_err());
    let bad_seq = result.unwrap_err();
    assert_eq!(bad_seq, 1);
}

#[test]
fn filter_by_user() {
    let mut log = AuditLog::new();
    log.append(1, AuditOp::Insert, "users", 1, "");
    log.append(2, AuditOp::Insert, "users", 1, "");
    log.append(1, AuditOp::Delete, "users", 1, "");
    let user1 = log.entries_for_user(1);
    assert_eq!(user1.len(), 2);
    let user2 = log.entries_for_user(2);
    assert_eq!(user2.len(), 1);
}

#[test]
fn filter_by_resource() {
    let mut log = AuditLog::new();
    log.append(1, AuditOp::Insert, "users", 1, "");
    log.append(1, AuditOp::Insert, "orders", 1, "");
    log.append(1, AuditOp::Insert, "users", 1, "");
    let users_entries = log.entries_for_resource("users");
    assert_eq!(users_entries.len(), 2);
}

#[test]
fn prune_older_entries() {
    let mut log = AuditLog::new();
    let old_ts = std::time::SystemTime::now()
        .duration_since(std::time::UNIX_EPOCH)
        .unwrap()
        .as_secs()
        - 3600;
    let pruned = log.prune_older_than(old_ts);
    assert_eq!(pruned, 0);
}

#[test]
fn empty_log_verifies_ok() {
    let log = AuditLog::new();
    log.verify_chain().unwrap();
}

#[test]
fn sequence_numbers_are_monotonic() {
    let mut log = AuditLog::new();
    let s1 = log.append(1, AuditOp::Insert, "x", 1, "");
    let s2 = log.append(1, AuditOp::Insert, "x", 1, "");
    let s3 = log.append(1, AuditOp::Insert, "x", 1, "");
    assert!(s1 < s2);
    assert!(s2 < s3);
}

#[test]
fn pruned_log_starts_at_the_cutoff() {
    let mut log = AuditLog::new();
    assert_eq!(log.append_at(100, 1, AuditOp::Insert, "a", 1, "x"), 1);
    assert_eq!(log.append_at(200, 1, AuditOp::Update, "a", 2, "y"), 2);
    assert_eq!(log.append_at(300, 2, AuditOp::Delete, "b", 3, "z"), 3);
    assert_eq!(log.prune_older_than(200), 1);
    let left = log.entries();
    assert_eq!(left.len(), 2);
    assert_eq!(left[0].sequence, 2);
    assert_eq!(left[0].rows_affected, 2);
    log.clear();
    assert_eq!(log.len(), 0);
}

#[test]
fn entries_are_chained_by_their_hashes() {
    let mut log = AuditLog::new();
    log.append_at(1, 1, AuditOp::Insert, "a", 1, "x");
    log.append_at(2, 1, AuditOp::Insert, "a", 1, "y");
    let entries = log.entries();
    assert_eq!(entries[0].prev_hash, *blake3::hash(b"").as_bytes());
    assert_eq!(entries[1].prev_hash, entries[0].entry_hash);
    assert_eq!(entries[0].entry_hash, entries[0].compute_hash());
    assert_ne!(entries[0].entry_hash, entries[1].entry_hash);
}

#[test]
fn operations_have_names() {
    assert_eq!(AuditOp::Insert.as_str(), "INSERT");
    assert_eq!(AuditOp::Delete.as_str(), "DELETE");
}
