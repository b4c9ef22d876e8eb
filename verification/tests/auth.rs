//! Users, logins, sessions and API keys.

use cendb::security::auth::{AuthError, AuthManager};
use cendb::security::hex::{bytes_to_hex, hex_to_bytes};
use cendb::security::password::{
    constant_time_eq, hash_password, hash_with_salt, password_digest, split_hash, verify_password,
    write_hash,
};
use cendb::security::session_store::InMemorySessionStore;

fn wait(seconds: u64) {
    let start = std::time::Instant::now();
    while start.elapsed() < std::time::Duration::from_secs(seconds) {
        std::hint::spin_loop();
    }
}

#[test]
fn create_user_and_login() {
    let mut mgr = AuthManager::new();
    let uid = mgr.create_user("alice", "password123").unwrap();
    assert_eq!(uid, 1);
    let session = mgr.login("alice", "password123").unwrap();
    assert_eq!(session.user_id, uid);
    assert!(!session.token.is_empty());
}

#[test]
fn wrong_password_fails() {
    let mut mgr = AuthManager::new();
    mgr.create_user("bob", "correct").unwrap();
    let result = mgr.login("bob", "wrong");
    assert!(matches!(result, Err(AuthError::InvalidPassword)));
}

#[test]
fn lockout_after_max_attempts() {
    let mut mgr = AuthManager::new();
    mgr.create_user("carol", "correct").unwrap();
    for _ in 0..5 {
        let _ = mgr.login("carol", "wrong");
    }
    let result = mgr.login("carol", "correct");
    assert!(matches!(result, Err(AuthError::DatabaseLocked { .. })));
}

#[test]
fn lockout_message_includes_remaining_time() {
    let mut mgr = AuthManager::new();
    mgr.set_lockout_duration(900);
    mgr.create_user("dave", "right").unwrap();
    for _ in 0..5 {
        let _ = mgr.login("dave", "wrong");
    }
    match mgr.login("dave", "right") {
        Err(AuthError::DatabaseLocked { remaining_secs }) => {
            assert!(remaining_secs > 800 && remaining_secs <= 900,
                "expected ~900 remaining, got {}", remaining_secs);
            let s = AuthError::DatabaseLocked { remaining_secs }.message();
            assert!(s.contains(&remaining_secs.to_string()));
        }
        other => panic!("expected DatabaseLocked, got {:?}", other),
    }
}

#[test]
fn successful_login_clears_failed_attempts_and_lockout() {
    let mut mgr = AuthManager::new();
    mgr.set_lockout_duration(60);
    mgr.create_user("frank", "right").unwrap();
    for _ in 0..3 {
        let _ = mgr.login("frank", "wrong");
    }
    assert_eq!(mgr.failed_attempts_for("frank"), 3);
    let _ = mgr.login("frank", "right").unwrap();
    assert_eq!(mgr.failed_attempts_for("frank"), 0);
    assert!(mgr.locked_until("frank").is_none());
}

#[test]
fn failed_attempt_during_lockout_refreshes_timer() {
    let mut mgr = AuthManager::new();
    mgr.set_lockout_duration(2);
    mgr.create_user("heidi", "right").unwrap();
    for _ in 0..5 {
        let _ = mgr.login("heidi", "wrong");
    }
    let first_lock = mgr.locked_until("heidi").unwrap();
    let _ = mgr.login("heidi", "wrong");
    let second_lock = mgr.locked_until("heidi").unwrap();
    assert!(second_lock >= first_lock);
}

#[test]
fn set_lockout_duration_zero_means_no_lock() {
    let mut mgr = AuthManager::new();
    mgr.set_lockout_duration(0);
    mgr.create_user("ivan", "right").unwrap();
    for _ in 0..5 {
        let _ = mgr.login("ivan", "wrong");
    }
    let _ = mgr.login("ivan", "right").unwrap();
}

#[test]
fn api_key_login() {
    let mut mgr = AuthManager::new();
    let uid = mgr.create_user("judy", "password").unwrap();
    let key = mgr.create_api_key(uid, "ci-bot", None).unwrap();
    let session = mgr.login_api_key(&key).unwrap();
    assert_eq!(session.user_id, uid);
}

#[test]
fn invalid_api_key_fails() {
    let mut mgr = AuthManager::new();
    let result = mgr.login_api_key("deadbeef");
    assert!(matches!(result, Err(AuthError::InvalidApiKey)));
}

#[test]
fn session_validation() {
    let mut mgr = AuthManager::new();
    let uid = mgr.create_user("karl", "pass").unwrap();
    let session = mgr.login("karl", "pass").unwrap();
    let validated = mgr.validate_session(&session.token).unwrap();
    assert_eq!(validated, uid);
    mgr.logout(&session.token);
    let result = mgr.validate_session(&session.token);
    assert!(matches!(result, Err(AuthError::InvalidSession)));
}

#[test]
fn role_assignment() {
    let mut mgr = AuthManager::new();
    let uid = mgr.create_user("leo", "pass").unwrap();
    mgr.assign_role(uid, "admin").unwrap();
    mgr.assign_role(uid, "admin").unwrap();
    let roles = mgr.get_roles(uid);
    assert_eq!(roles, vec!["admin"]);
}

#[test]
fn deactivate_user_prevents_login() {
    let mut mgr = AuthManager::new();
    let uid = mgr.create_user("mona", "pass").unwrap();
    mgr.deactivate_user(uid).unwrap();
    let result = mgr.login("mona", "pass");
    assert!(matches!(result, Err(AuthError::UserInactive)));
}

#[test]
fn duplicate_username_rejected() {
    let mut mgr = AuthManager::new();
    mgr.create_user("nina", "pass1").unwrap();
    let result = mgr.create_user("nina", "pass2");
    assert!(matches!(result, Err(AuthError::UsernameTaken)));
}

#[test]
fn revoke_api_key() {
    let mut mgr = AuthManager::new();
    let uid = mgr.create_user("oscar", "pass").unwrap();
    let key = mgr.create_api_key(uid, "temp", None).unwrap();
    mgr.revoke_api_key(&key).unwrap();
    let result = mgr.login_api_key(&key);
    assert!(matches!(result, Err(AuthError::InvalidApiKey)));
}

#[test]
fn password_hash_is_not_plaintext() {
    let hash = hash_password("secret").unwrap();
    assert!(!hash.contains("secret"));
    assert!(hash.contains(':'));
}

#[test]
fn in_memory_session_store_works_with_auth_manager() {
    let store = InMemorySessionStore::new();
    let mut mgr = AuthManager::with_session_store(store);
    mgr.create_user("rita", "pw").unwrap();
    let s = mgr.login("rita", "pw").unwrap();
    assert!(mgr.validate_session(&s.token).is_ok());
    mgr.logout(&s.token);
    assert!(matches!(mgr.validate_session(&s.token),
        Err(AuthError::InvalidSession)));
}


#[test]
fn lockout_expires_after_duration() {
    let mut mgr = AuthManager::new();
    mgr.set_lockout_duration(1);
    mgr.create_user("eve", "right").unwrap();
    for _ in 0..5 {
        let _ = mgr.login("eve", "wrong");
    }
    assert!(matches!(mgr.login("eve", "right"), Err(AuthError::DatabaseLocked { .. })));
    wait(2);
    let session = mgr.login("eve", "right").expect("login should succeed after lockout expires");
    assert_eq!(session.user_id, 1);
    assert!(mgr.locked_until("eve").is_none());
    assert_eq!(mgr.failed_attempts_for("eve"), 0);
}

#[test]
fn locked_account_can_login_after_timeout() {
    let mut mgr = AuthManager::new();
    mgr.set_lockout_duration(1);
    mgr.create_user("grace", "right").unwrap();
    for _ in 0..5 {
        let _ = mgr.login("grace", "wrong");
    }
    assert!(mgr.locked_until("grace").is_some());
    wait(2);
    let _ = mgr.login("grace", "right").unwrap();
    assert!(mgr.locked_until("grace").is_none());
}

#[test]
fn logins_are_settled_by_the_outcome() {
    let mut mgr = AuthManager::new();
    mgr.set_lockout_duration(1);
    let uid = mgr.add_user("nina", Some("00:00".to_string())).unwrap();
    for _ in 0..5 {
        assert_eq!(mgr.begin_login("nina", 10), Ok(uid));
        let refused = mgr.settle_login("nina", uid, false, "no".to_string(), 10);
        assert!(matches!(refused, Err(AuthError::InvalidPassword)));
    }
    assert!(matches!(mgr.begin_login("nina", 10), Err(AuthError::DatabaseLocked { .. })));
    assert_eq!(mgr.begin_login("nina", 12), Ok(uid));
    let session = mgr.settle_login("nina", uid, true, "tok".to_string(), 12).unwrap();
    assert_eq!(session.token, "tok");
    assert_eq!(session.user_id, uid);
    assert_eq!(session.expires_at, 3612);
    assert!(mgr.locked_until_at("nina", 12).is_none());
    assert_eq!(mgr.failed_attempts_for("nina"), 0);
    assert_eq!(mgr.session_count(), 1);
}

#[test]
fn sessions_end_an_hour_after_login() {
    let mut mgr = AuthManager::new();
    let uid = mgr.add_user("uma", Some("00:00".to_string())).unwrap();
    let session = mgr.start_session(uid, "tok".to_string(), 1000);
    assert_eq!(session.expires_at, 4600);
    assert_eq!(mgr.validate_session_at("tok", 4600), Ok(uid));
    assert_eq!(mgr.validate_session_at("tok", 4601), Err(AuthError::SessionExpired));
    assert_eq!(mgr.validate_session_at("tok", 1000), Err(AuthError::InvalidSession));
}

#[test]
fn api_keys_end_at_their_time() {
    let mut mgr = AuthManager::new();
    let uid = mgr.add_user("vera", Some("00:00".to_string())).unwrap();
    let key = mgr.add_api_key(uid, &[0xab; 32], "ci", 0, Some(100)).unwrap();
    assert_eq!(key, "ab".repeat(32));
    assert_eq!(mgr.check_api_key(&key, 100), Ok(uid));
    assert_eq!(mgr.check_api_key(&key, 101), Err(AuthError::ApiKeyExpired));
    assert_eq!(mgr.check_api_key("zz", 0), Err(AuthError::InvalidApiKey));
}

#[test]
fn unknown_users_are_refused() {
    let mut mgr = AuthManager::new();
    assert_eq!(mgr.begin_login("nobody", 0), Err(AuthError::UserNotFound));
    assert_eq!(mgr.assign_role(7, "x"), Err(AuthError::UserNotFound));
    assert_eq!(mgr.deactivate_user(7), Err(AuthError::UserNotFound));
    assert!(mgr.create_api_key(7, "l", None).is_err());
    assert_eq!(mgr.user_count(), 0);
    assert_eq!(mgr.session_count(), 0);
}

#[test]
fn stored_hash_checks_its_own_password() {
    let stored = hash_with_salt("secret", &[3u8; 16]).unwrap();
    let (salt, digest) = split_hash(&stored).unwrap();
    assert_eq!(salt, vec![3u8; 16]);
    assert_eq!(digest.len(), 32);
    assert!(verify_password("secret", &stored));
    assert!(!verify_password("Secret", &stored));
    assert!(!verify_password("secret", "not a hash"));
    assert_eq!(password_digest("secret", &[3u8; 16]), Some(digest.clone()));
    assert_eq!(write_hash(&[3u8; 16], &Some(digest)), Some(stored));
    assert_eq!(write_hash(&[1, 255], &Some(vec![16])), Some("01ff:10".to_string()));
    assert_eq!(write_hash(&[1], &None), None);
}

#[test]
fn bytes_are_equal_in_length_and_content() {
    assert!(constant_time_eq(b"abc", b"abc"));
    assert!(!constant_time_eq(b"abc", b"abd"));
    assert!(!constant_time_eq(b"abc", b"ab"));
}

#[test]
fn hex_is_read_back() {
    assert_eq!(bytes_to_hex(&[0, 15, 255]), "000fff");
    assert_eq!(hex_to_bytes("000fff"), Some(vec![0, 15, 255]));
    assert_eq!(hex_to_bytes("0"), None);
    assert_eq!(hex_to_bytes("zz"), None);
}

#[test]
fn fewer_attempts_lock_sooner() {
    let mut mgr = AuthManager::new();
    mgr.set_max_failed_attempts(2);
    mgr.set_lockout_duration(100);
    let id = mgr.add_user("gina", Some("stored".to_string())).unwrap();
    assert_eq!(mgr.max_failed_attempts(), 2);
    assert!(matches!(mgr.begin_login("gina", 10), Ok(x) if x == id));
    let _ = mgr.reject_login("gina", 10);
    assert_eq!(mgr.locked_until_at("gina", 10), None);
    let _ = mgr.reject_login("gina", 11);
    assert_eq!(mgr.locked_until_at("gina", 11), Some(111));
    assert!(matches!(
        mgr.begin_login("gina", 12),
        Err(AuthError::DatabaseLocked { remaining_secs: 100 })
    ));
    assert!(mgr.begin_login("gina", 500).is_ok());
}
