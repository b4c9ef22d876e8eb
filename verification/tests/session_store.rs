//! Stored sessions.

use std::time::{SystemTime, UNIX_EPOCH};

use cendb::security::auth::Session;
use cendb::security::session_json::{parse_session_json, serialize_session_json};
use cendb::security::session_store::{read_sessions, InMemorySessionStore, SessionStore};

fn now_secs() -> u64 {
    SystemTime::now().duration_since(UNIX_EPOCH).unwrap().as_secs()
}

fn make_session(token: &str, user_id: u64, ttl: u64) -> Session {
    Session {
        token: token.to_string(),
        user_id,
        expires_at: now_secs() + ttl,
    }
}

#[test]
fn in_memory_basic_save_load_delete() {
    let mut store = InMemorySessionStore::new();
    let s = make_session("tok-A", 1, 3600);
    store.save(&s).unwrap();
    let loaded = store.load("tok-A").unwrap().unwrap();
    assert_eq!(loaded.token, "tok-A");
    assert_eq!(loaded.user_id, 1);

    store.delete("tok-A").unwrap();
    assert!(store.load("tok-A").unwrap().is_none());
}

#[test]
fn in_memory_delete_unknown_is_ok() {
    let mut store = InMemorySessionStore::new();
    store.delete("never-saved").unwrap();
}

#[test]
fn in_memory_delete_expired_removes_old_sessions() {
    let mut store = InMemorySessionStore::new();
    let now = now_secs();
    let young = Session { token: "young".into(), user_id: 1, expires_at: now + 1000 };
    let old = Session { token: "old".into(), user_id: 2, expires_at: now - 1000 };
    store.save(&young).unwrap();
    store.save(&old).unwrap();
    let removed = store.delete_expired(now).unwrap();
    assert_eq!(removed, 1);
    assert!(store.load("young").unwrap().is_some());
    assert!(store.load("old").unwrap().is_none());
}

#[test]
fn in_memory_save_overwrites_same_token() {
    let mut store = InMemorySessionStore::new();
    let s1 = Session { token: "tok".into(), user_id: 1, expires_at: 100 };
    let s2 = Session { token: "tok".into(), user_id: 2, expires_at: 200 };
    store.save(&s1).unwrap();
    store.save(&s2).unwrap();
    let loaded = store.load("tok").unwrap().unwrap();
    assert_eq!(loaded.user_id, 2);
    assert_eq!(loaded.expires_at, 200);
}

#[test]
fn json_round_trip_preserves_all_fields() {
    let s = Session {
        token: "deadbeefcafef00d".to_string(),
        user_id: 12345,
        expires_at: 1700000000,
    };
    let json = serialize_session_json(&s);
    assert!(!json.contains('\n'));
    let back = parse_session_json(&json).unwrap();
    assert_eq!(back.token, s.token);
    assert_eq!(back.user_id, s.user_id);
    assert_eq!(back.expires_at, s.expires_at);
}

#[test]
fn json_round_trip_handles_special_chars_in_token() {
    let s = Session {
        token: "with\"quote\\and\nnewline".to_string(),
        user_id: 1,
        expires_at: 1,
    };
    let json = serialize_session_json(&s);
    let back = parse_session_json(&json).unwrap();
    assert_eq!(back.token, s.token);
}

#[test]
fn json_parser_rejects_missing_field() {
    let bad = r#"{"token":"x","expires_at":1}"#;
    assert!(parse_session_json(bad).is_err());
}

#[test]
fn json_parser_rejects_unknown_field() {
    let bad = r#"{"token":"x","user_id":1,"expires_at":1,"extra":2}"#;
    assert!(parse_session_json(bad).is_err());
}

#[test]
fn json_parser_rejects_trailing_input() {
    let bad = r#"{"token":"x","user_id":1,"expires_at":1}garbage"#;
    assert!(parse_session_json(bad).is_err());
}

#[test]
fn json_parser_accepts_whitespace_between_tokens() {
    let s = r#"  {  "token"  :  "x"  ,  "user_id"  :  1  ,  "expires_at"  :  2  }  "#;
    let parsed = parse_session_json(s).unwrap();
    assert_eq!(parsed.token, "x");
    assert_eq!(parsed.user_id, 1);
    assert_eq!(parsed.expires_at, 2);
}


#[test]
fn sessions_are_read_back_from_their_lines() {
    let mut store = InMemorySessionStore::new();
    for i in 0..10u64 {
        let s = Session { token: format!("tok-{}", i), user_id: i, expires_at: 100 + i };
        store.save(&s).unwrap();
    }
    let again = read_sessions(&store.lines()).unwrap();
    for i in 0..10u64 {
        let loaded = again.load(&format!("tok-{}", i)).unwrap().unwrap();
        assert_eq!(loaded.user_id, i);
        assert_eq!(loaded.expires_at, 100 + i);
    }
    assert!(again.load("tok-X").unwrap().is_none());
}

#[test]
fn later_line_replaces_an_earlier_one() {
    let lines = vec![
        serialize_session_json(&Session { token: "t".into(), user_id: 1, expires_at: 100 }),
        "".to_string(),
        serialize_session_json(&Session { token: "t".into(), user_id: 2, expires_at: 200 }),
    ];
    let store = read_sessions(&lines).unwrap();
    let loaded = store.load("t").unwrap().unwrap();
    assert_eq!(loaded.user_id, 2);
    assert_eq!(loaded.expires_at, 200);
}

#[test]
fn broken_line_is_refused() {
    assert!(read_sessions(&vec!["{".to_string()]).is_err());
}

#[test]
fn session_is_written_as_one_object() {
    let s = Session { token: "a\tb".into(), user_id: 1, expires_at: 2 };
    assert_eq!(
        serialize_session_json(&s),
        "{\"token\":\"a\\tb\",\"user_id\":1,\"expires_at\":2}"
    );
    let wide = Session { token: "\u{e9}\u{1f600}z".into(), user_id: 3, expires_at: 4 };
    let back = parse_session_json(&serialize_session_json(&wide)).unwrap();
    assert_eq!(back.token, wide.token);
}
