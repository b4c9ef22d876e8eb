//! Users, passwords, API keys, sessions and lockout.
//!
//! Repeated failed logins lock an account for some time. An attempt on a locked
//! account starts that time again. A successful login clears the count of
//! failures and the lock.

use vstd::prelude::*;
use vstd::utf8::encode_utf8;

use crate::bytemap::ByteMap;
use crate::bytes::copy_range;
use crate::clock::now_secs;
use crate::error::CenResult;
use crate::idmap::IdMap;
use crate::security::cipher::random_bytes;
use crate::security::hash::{blake3_hash, blake3_of};
use crate::security::hex::{bytes_to_hex, hex_text, hex_to_bytes, hex_value, law_hex_round_trip};
use crate::security::password::{hash_password, password_matches, verify_password};
use crate::security::session_store::{session_map, InMemorySessionStore, SessionStore};
use crate::strmap::StrMap;
use crate::text::{decimal, decimal_string, same_text, texts};

verus! {

/// A user identifier.
pub type UserId = u64;

/// A key or a token of 32 bytes in hexadecimal.
pub type TokenString = String;

/// How long an account is locked, in seconds, unless set otherwise.
pub const DEFAULT_LOCKOUT_DURATION_SECS: u64 = 900;

/// How many failed logins lock an account, unless set otherwise.
pub const DEFAULT_MAX_FAILED_ATTEMPTS: u32 = 5;

/// How long a session lasts, in seconds.
pub const SESSION_SECS: u64 = 3600;

/// A user.
#[derive(Clone, Debug)]
pub struct User {
    pub id: UserId,
    pub username: String,
    /// The salt and the digest of the password.
    pub password_hash: String,
    pub roles: Vec<String>,
    /// Whether the user may log in.
    pub active: bool,
}

/// The mathematical value of a [`User`].
#[verifier::ext_equal]
pub struct UserView {
    pub id: UserId,
    pub username: Seq<char>,
    pub password_hash: Seq<char>,
    pub roles: Seq<Seq<char>>,
    pub active: bool,
}

impl View for User {
    type V = UserView;

    open spec fn view(&self) -> UserView {
        UserView {
            id: self.id,
            username: self.username@,
            password_hash: self.password_hash@,
            roles: texts(self.roles@),
            active: self.active,
        }
    }
}

/// A key for programs. Its digest is kept, not the key.
#[derive(Clone, Debug)]
pub struct ApiKey {
    pub id: u64,
    pub user_id: UserId,
    pub key_hash: [u8; 32],
    pub label: String,
    pub created_at: u64,
    /// The last second in which the key is valid, if there is one.
    pub expires_at: Option<u64>,
}

/// The mathematical value of an [`ApiKey`].
#[verifier::ext_equal]
pub struct ApiKeyView {
    pub id: u64,
    pub user_id: UserId,
    pub key_hash: Seq<u8>,
    pub label: Seq<char>,
    pub created_at: u64,
    pub expires_at: Option<u64>,
}

impl View for ApiKey {
    type V = ApiKeyView;

    open spec fn view(&self) -> ApiKeyView {
        ApiKeyView {
            id: self.id,
            user_id: self.user_id,
            key_hash: self.key_hash@,
            label: self.label@,
            created_at: self.created_at,
            expires_at: self.expires_at,
        }
    }
}

/// A session: who holds the token is the user until the session expires.
#[derive(Clone, Debug)]
pub struct Session {
    pub token: TokenString,
    pub user_id: UserId,
    /// The last second of the session.
    pub expires_at: u64,
}

/// The mathematical value of a [`Session`].
#[verifier::ext_equal]
pub struct SessionView {
    pub token: Seq<char>,
    pub user_id: UserId,
    pub expires_at: u64,
}

impl View for Session {
    type V = SessionView;

    open spec fn view(&self) -> SessionView {
        SessionView { token: self.token@, user_id: self.user_id, expires_at: self.expires_at }
    }
}

impl Session {
    /// A copy of the session.
    pub fn copy(&self) -> (r: Self)
        ensures
            r@ == self@,
    {
        Session {
            token: self.token.as_str().to_owned(),
            user_id: self.user_id,
            expires_at: self.expires_at,
        }
    }
}

/// Why a request was refused.
#[derive(Debug, Clone, Copy, PartialEq, Eq, Structural)]
pub enum AuthError {
    UserNotFound,
    UserInactive,
    InvalidPassword,
    InvalidApiKey,
    InvalidSession,
    SessionExpired,
    UsernameTaken,
    ApiKeyExpired,
    /// The account is locked for that many seconds.
    DatabaseLocked { remaining_secs: u64 },
}

impl AuthError {
    /// What an error says.
    pub open spec fn text(self) -> Seq<char> {
        match self {
            AuthError::UserNotFound => "user not found"@,
            AuthError::UserInactive => "user account is inactive"@,
            AuthError::InvalidPassword => "invalid password"@,
            AuthError::InvalidApiKey => "invalid API key"@,
            AuthError::InvalidSession => "invalid or missing session token"@,
            AuthError::SessionExpired => "session has expired"@,
            AuthError::UsernameTaken => "username is already taken"@,
            AuthError::ApiKeyExpired => "API key has expired"@,
            AuthError::DatabaseLocked { remaining_secs } =>
                "database is locked due to too many failed attempts; try again in "@ + decimal(
                remaining_secs as nat,
            ) + " second(s)"@,
        }
    }

    /// What the error says.
    pub fn message(&self) -> (r: String)
        ensures
            r@ == self.text(),
    {
        match self {
            AuthError::UserNotFound => "user not found".to_owned(),
            AuthError::UserInactive => "user account is inactive".to_owned(),
            AuthError::InvalidPassword => "invalid password".to_owned(),
            AuthError::InvalidApiKey => "invalid API key".to_owned(),
            AuthError::InvalidSession => "invalid or missing session token".to_owned(),
            AuthError::SessionExpired => "session has expired".to_owned(),
            AuthError::UsernameTaken => "username is already taken".to_owned(),
            AuthError::ApiKeyExpired => "API key has expired".to_owned(),
            AuthError::DatabaseLocked { remaining_secs } => {
                let count: String = decimal_string(*remaining_secs);
                let mut out: String =
                    "database is locked due to too many failed attempts; try again in ".to_owned();
                out.append(count.as_str());
                out.append(" second(s)");
                out
            },
        }
    }
}

/// Some seconds after a time; at most the largest time there is.
pub open spec fn later_by(now: u64, secs: u64) -> u64 {
    if now + secs > u64::MAX {
        u64::MAX
    } else {
        (now + secs) as u64
    }
}

fn add_secs(now: u64, secs: u64) -> (r: u64)
    ensures
        r == later_by(now, secs),
{
    if now > u64::MAX - secs {
        u64::MAX
    } else {
        now + secs
    }
}

/// The mathematical value of an [`AuthManager`], apart from its store.
#[verifier::ext_equal]
pub struct AuthView {
    pub users: Map<u64, UserView>,
    /// The user of each name.
    pub usernames: Map<Seq<char>, u64>,
    /// The keys by their digests.
    pub api_keys: Map<Seq<u8>, ApiKeyView>,
    /// The sessions in memory, by token.
    pub sessions: Map<Seq<char>, SessionView>,
    pub next_user_id: u64,
    pub next_key_id: u64,
    /// How many logins failed, by name.
    pub failed_attempts: Map<Seq<char>, u32>,
    pub max_failed_attempts: u32,
    /// Until when an account is locked, by name.
    pub locked_until: Map<Seq<char>, u64>,
    pub lockout_duration: u64,
}

/// The key that a text in hexadecimal stands for, if it has 32 bytes.
pub open spec fn raw_key(hex: Seq<char>) -> Option<Seq<u8>> {
    match hex_value(encode_utf8(hex)) {
        Some(raw) => if raw.len() == 32 {
            Some(raw)
        } else {
            None
        },
        None => None,
    }
}

impl AuthView {
    /// Whether an account is locked at a time.
    pub open spec fn locked(self, name: Seq<char>, now: u64) -> bool {
        self.locked_until.dom().contains(name) && self.locked_until[name] > now
    }

    /// How many logins failed for a name.
    pub open spec fn failures(self, name: Seq<char>) -> u32 {
        if self.failed_attempts.dom().contains(name) {
            self.failed_attempts[name]
        } else {
            0
        }
    }

    /// Without the failures and the lock of a name.
    pub open spec fn cleared(self, name: Seq<char>) -> AuthView {
        AuthView {
            failed_attempts: self.failed_attempts.remove(name),
            locked_until: self.locked_until.remove(name),
            ..self
        }
    }

    /// Until when an attempt at a time leaves a locked account locked.
    pub open spec fn relocked_until(self, name: Seq<char>, now: u64) -> u64 {
        let again = later_by(now, self.lockout_duration);
        if again > self.locked_until[name] {
            again
        } else {
            self.locked_until[name]
        }
    }

    /// The user who may try a password at a time, and the state after that was
    /// settled.
    pub open spec fn begun(self, name: Seq<char>, now: u64) -> (Result<u64, AuthError>, AuthView) {
        if self.locked(name, now) {
            let until = self.relocked_until(name, now);
            (
                Err(AuthError::DatabaseLocked { remaining_secs: (until - now) as u64 }),
                AuthView { locked_until: self.locked_until.insert(name, until), ..self },
            )
        } else {
            let fresh = if self.locked_until.dom().contains(name) {
                self.cleared(name)
            } else {
                self
            };
            if !self.usernames.dom().contains(name) {
                (Err(AuthError::UserNotFound), fresh)
            } else if !self.users[self.usernames[name]].active {
                (Err(AuthError::UserInactive), fresh)
            } else {
                (Ok(self.usernames[name]), fresh)
            }
        }
    }

    /// After a wrong password at a time.
    pub open spec fn rejected(self, name: Seq<char>, now: u64) -> AuthView {
        let count = if self.failures(name) == u32::MAX {
            u32::MAX
        } else {
            (self.failures(name) + 1) as u32
        };
        AuthView {
            failed_attempts: self.failed_attempts.insert(name, count),
            locked_until: if count >= self.max_failed_attempts {
                self.locked_until.insert(name, later_by(now, self.lockout_duration))
            } else {
                self.locked_until
            },
            ..self
        }
    }

    /// With a session in memory.
    pub open spec fn with_session(self, s: SessionView) -> AuthView {
        AuthView { sessions: self.sessions.insert(s.token, s), ..self }
    }

    /// The user whom a key lets in at a time.
    pub open spec fn keyed(self, hex: Seq<char>, now: u64) -> Result<u64, AuthError> {
        match raw_key(hex) {
            None => Err(AuthError::InvalidApiKey),
            Some(raw) => {
                let digest = blake3_of(raw)@;
                if !self.api_keys.dom().contains(digest) {
                    Err(AuthError::InvalidApiKey)
                } else {
                    let key = self.api_keys[digest];
                    if key.expires_at is Some && now > key.expires_at->0 {
                        Err(AuthError::ApiKeyExpired)
                    } else if !self.users.dom().contains(key.user_id) {
                        Err(AuthError::UserNotFound)
                    } else if !self.users[key.user_id].active {
                        Err(AuthError::UserInactive)
                    } else {
                        Ok(key.user_id)
                    }
                }
            },
        }
    }

    /// With a user who was given the next number.
    pub open spec fn with_user(self, name: Seq<char>, hash: Seq<char>) -> AuthView {
        let id = self.next_user_id;
        AuthView {
            users: self.users.insert(
                id,
                UserView {
                    id,
                    username: name,
                    password_hash: hash,
                    roles: seq![],
                    active: true,
                },
            ),
            usernames: self.usernames.insert(name, id),
            next_user_id: (id + 1) as u64,
            ..self
        }
    }

    /// With a key that was given the next number.
    pub open spec fn with_key(
        self,
        user: u64,
        raw: Seq<u8>,
        label: Seq<char>,
        created_at: u64,
        expires_at: Option<u64>,
    ) -> AuthView {
        let digest = blake3_of(raw)@;
        AuthView {
            api_keys: self.api_keys.insert(
                digest,
                ApiKeyView {
                    id: self.next_key_id,
                    user_id: user,
                    key_hash: digest,
                    label,
                    created_at,
                    expires_at,
                },
            ),
            next_key_id: (self.next_key_id + 1) as u64,
            ..self
        }
    }

    /// With another value of a user.
    pub open spec fn with_changed(self, user: UserView) -> AuthView {
        AuthView { users: self.users.insert(user.id, user), ..self }
    }

    /// Each name belongs to a user of that name, users stand under their
    /// numbers, and numbers were given out below the next one.
    pub open spec fn wf(self) -> bool {
        &&& forall|n: Seq<char>| #[trigger]
            self.usernames.dom().contains(n) ==> self.users.dom().contains(self.usernames[n])
                && self.users[self.usernames[n]].username == n
        &&& forall|u: u64| #[trigger]
            self.users.dom().contains(u) ==> self.users[u].id == u && u < self.next_user_id
    }
}

/// A user with a role; one that the user has is not added again.
pub open spec fn with_role(user: UserView, role: Seq<char>) -> UserView {
    UserView {
        roles: if user.roles.contains(role) {
            user.roles
        } else {
            user.roles.push(role)
        },
        ..user
    }
}

/// Whether a session is one that starts at a time for a user, under a token of
/// 32 bytes.
pub open spec fn starts(s: SessionView, user: u64, now: u64) -> bool {
    &&& s.user_id == user
    &&& s.expires_at == later_by(now, SESSION_SECS)
    &&& exists|b: Seq<u8>| b.len() == 32 && s.token == #[trigger] hex_text(b)
}

/// What a login that begins at a time may come to: a refusal; a session, where
/// the password matches; or a failure that is counted.
pub open spec fn login_outcome(
    before: AuthView,
    name: Seq<char>,
    password: Seq<char>,
    now: u64,
    r: Result<SessionView, AuthError>,
    after: AuthView,
) -> bool {
    let b = before.begun(name, now);
    match b.0 {
        Err(e) => r == Err::<SessionView, AuthError>(e) && after == b.1,
        Ok(id) => match r {
            Ok(s) => {
                &&& password_matches(password, before.users[id].password_hash)
                &&& exists|at: u64| #[trigger] starts(s, id, at)
                &&& after == b.1.cleared(name).with_session(s)
            },
            Err(e) => e == AuthError::InvalidPassword && exists|at: u64|
                after == #[trigger] b.1.rejected(name, at),
        },
    }
}

/// What a login with a key at a time may come to.
pub open spec fn key_login_outcome(
    before: AuthView,
    hex: Seq<char>,
    now: u64,
    r: Result<SessionView, AuthError>,
    after: AuthView,
) -> bool {
    let who = before.keyed(hex, now);
    match r {
        Err(e) => who == Err::<u64, AuthError>(e) && after == before,
        Ok(s) => {
            &&& who is Ok
            &&& exists|at: u64| #[trigger] starts(s, who->Ok_0, at)
            &&& after == before.with_session(s)
        },
    }
}

proof fn lemma_key_outcome(
    before: AuthView,
    hex: Seq<char>,
    now: u64,
    s: SessionView,
    id: u64,
    at: u64,
)
    requires
        before.keyed(hex, now) == Ok::<u64, AuthError>(id),
        starts(s, id, at),
    ensures
        key_login_outcome(
            before,
            hex,
            now,
            Ok::<SessionView, AuthError>(s),
            before.with_session(s),
        ),
{
    let who = before.keyed(hex, now);
    assert(who->Ok_0 == id);
    assert(starts(s, who->Ok_0, at));
    assert(exists|x: u64| #[trigger] starts(s, who->Ok_0, x));
    let r = Ok::<SessionView, AuthError>(s);
    assert(key_login_outcome(before, hex, now, r, before.with_session(s)));
}

/// Users by number, as values.
pub open spec fn user_map(m: Map<u64, User>) -> Map<u64, UserView> {
    Map::new(|k: u64| m.dom().contains(k), |k: u64| m[k]@)
}

/// Keys by digest, as values.
pub open spec fn key_map(m: Map<Seq<u8>, ApiKey>) -> Map<Seq<u8>, ApiKeyView> {
    Map::new(|k: Seq<u8>| m.dom().contains(k), |k: Seq<u8>| m[k]@)
}

/// A result with the value of its session.
pub open spec fn session_result(r: Result<Session, AuthError>) -> Result<SessionView, AuthError> {
    match r {
        Ok(s) => Ok(s@),
        Err(e) => Err(e),
    }
}

/// Users, keys and sessions. Sessions are also kept in a store, if there is
/// one.
pub struct AuthManager<S: SessionStore> {
    users: IdMap<User>,
    usernames: StrMap<u64>,
    api_keys: ByteMap<ApiKey>,
    sessions: StrMap<Session>,
    session_store: Option<S>,
    next_user_id: UserId,
    next_key_id: u64,
    failed_attempts: StrMap<u32>,
    max_failed_attempts: u32,
    locked_until: StrMap<u64>,
    lockout_duration: u64,
}

impl<S: SessionStore> View for AuthManager<S> {
    type V = AuthView;

    closed spec fn view(&self) -> AuthView {
        AuthView {
            users: user_map(self.users@),
            usernames: self.usernames@,
            api_keys: key_map(self.api_keys@),
            sessions: session_map(self.sessions@),
            next_user_id: self.next_user_id,
            next_key_id: self.next_key_id,
            failed_attempts: self.failed_attempts@,
            max_failed_attempts: self.max_failed_attempts,
            locked_until: self.locked_until@,
            lockout_duration: self.lockout_duration,
        }
    }
}

impl AuthManager<InMemorySessionStore> {
    /// A manager without users and without a store.
    pub fn new() -> (res: Self)
        ensures
            res.wf(),
            res@ == no_users(),
            res.store() is None,
    {
        let res = AuthManager::with_store(None);
        res
    }
}

impl Default for AuthManager<InMemorySessionStore> {
    fn default() -> (res: Self)
        ensures
            res.wf(),
            res@ == no_users(),
            res.store() is None,
    {
        AuthManager::new()
    }
}

/// No users, and the default lockout.
pub open spec fn no_users() -> AuthView {
    AuthView {
        users: Map::empty(),
        usernames: Map::empty(),
        api_keys: Map::empty(),
        sessions: Map::empty(),
        next_user_id: 1,
        next_key_id: 1,
        failed_attempts: Map::empty(),
        max_failed_attempts: DEFAULT_MAX_FAILED_ATTEMPTS,
        locked_until: Map::empty(),
        lockout_duration: DEFAULT_LOCKOUT_DURATION_SECS,
    }
}

impl<S: SessionStore> AuthManager<S> {
    /// The store.
    pub closed spec fn store(&self) -> Option<S> {
        self.session_store
    }

    /// The maps are well formed, the store is valid, and the state hangs
    /// together.
    pub closed spec fn wf(&self) -> bool {
        &&& self.users.wf()
        &&& self.usernames.wf()
        &&& self.api_keys.wf()
        &&& self.sessions.wf()
        &&& self.failed_attempts.wf()
        &&& self.locked_until.wf()
        &&& self.session_store matches Some(s) ==> s.valid()
        &&& self@.wf()
    }

    /// What the invariant says of the manager's value.
    pub proof fn lemma_wf(&self)
        requires
            self.wf(),
        ensures
            self@.wf(),
    {
    }

    /// Whether the store is there as before, and holds what it should, if it
    /// does not fail.
    pub open spec fn stored(
        &self,
        before: Option<S>,
        want: spec_fn(Map<Seq<char>, SessionView>) -> Map<Seq<char>, SessionView>,
    ) -> bool {
        match before {
            None => self.store() is None,
            Some(b) => self.store() matches Some(s) && s.steady() == b.steady() && (b.steady()
                ==> s.saved() == want(b.saved())),
        }
    }

    fn with_store(session_store: Option<S>) -> (res: Self)
        requires
            session_store matches Some(s) ==> s.valid(),
        ensures
            res.wf(),
            res@ == no_users(),
            res.store() == session_store,
    {
        let res = AuthManager {
            users: IdMap::new(),
            usernames: StrMap::new(),
            api_keys: ByteMap::new(),
            sessions: StrMap::new(),
            session_store,
            next_user_id: 1,
            next_key_id: 1,
            failed_attempts: StrMap::new(),
            max_failed_attempts: DEFAULT_MAX_FAILED_ATTEMPTS,
            locked_until: StrMap::new(),
            lockout_duration: DEFAULT_LOCKOUT_DURATION_SECS,
        };
        assert(res@ =~= no_users());
        res
    }

    /// A manager without users that keeps its sessions in a store too.
    pub fn with_session_store(store: S) -> (res: Self)
        requires
            store.valid(),
        ensures
            res.wf(),
            res@ == no_users(),
            res.store() == Some(store),
    {
        AuthManager::with_store(Some(store))
    }

    /// Sets how long an account is locked, in seconds. With 0, a lock has
    /// expired when it is set.
    pub fn set_lockout_duration(&mut self, seconds: u64)
        requires
            old(self).wf(),
        ensures
            final(self).wf(),
            final(self)@ == (AuthView { lockout_duration: seconds, ..old(self)@ }),
            final(self).store() == old(self).store(),
    {
        self.lockout_duration = seconds;
    }

    /// Sets how many failed logins lock an account.
    pub fn set_max_failed_attempts(&mut self, n: u32)
        requires
            old(self).wf(),
        ensures
            final(self).wf(),
            final(self)@ == (AuthView { max_failed_attempts: n, ..old(self)@ }),
            final(self).store() == old(self).store(),
    {
        self.max_failed_attempts = n;
    }

    /// How long an account is locked, in seconds.
    pub fn lockout_duration(&self) -> (r: u64)
        ensures
            r == self@.lockout_duration,
    {
        self.lockout_duration
    }

    /// How many failed logins lock an account.
    pub fn max_failed_attempts(&self) -> (r: u32)
        ensures
            r == self@.max_failed_attempts,
    {
        self.max_failed_attempts
    }

    /// How many logins failed for a name since the last success or lock.
    pub fn failed_attempts_for(&self, username: &str) -> (r: u32)
        requires
            self.wf(),
        ensures
            r == self@.failures(username@),
    {
        match self.failed_attempts.get(username) {
            Some(n) => *n,
            None => 0,
        }
    }

    /// Until when an account is locked, if it is at the given time.
    pub fn locked_until_at(&self, username: &str, now: u64) -> (r: Option<u64>)
        requires
            self.wf(),
        ensures
            r == (if self@.locked(username@, now) {
                Some(self@.locked_until[username@])
            } else {
                None
            }),
    {
        match self.locked_until.get(username) {
            Some(t) => {
                if *t > now {
                    Some(*t)
                } else {
                    None
                }
            },
            None => None,
        }
    }

    /// Until when an account is locked, if it is.
    pub fn locked_until(&self, username: &str) -> (r: Option<u64>)
        requires
            self.wf(),
        ensures
            exists|now: u64|
                r == (if #[trigger] self@.locked(username@, now) {
                    Some(self@.locked_until[username@])
                } else {
                    None
                }),
    {
        let now: u64 = now_secs();
        let r: Option<u64> = self.locked_until_at(username, now);
        assert(self@.locked(username@, now) == self@.locked(username@, now));
        r
    }

    /// Adds a user with a password hash, or counts the number as used where
    /// there is none.
    pub fn add_user(&mut self, username: &str, password_hash: Option<String>) -> (r: Result<
        UserId,
        AuthError,
    >)
        requires
            old(self).wf(),
            old(self)@.next_user_id < u64::MAX,
        ensures
            final(self).wf(),
            final(self).store() == old(self).store(),
            if old(self)@.usernames.dom().contains(username@) {
                r == Err::<UserId, AuthError>(AuthError::UsernameTaken) && final(self)@ == old(self)@
            } else {
                match password_hash {
                    Some(h) => r == Ok::<UserId, AuthError>(old(self)@.next_user_id)
                        && final(self)@ == old(self)@.with_user(username@, h@),
                    None => r == Err::<UserId, AuthError>(AuthError::InvalidPassword)
                        && final(self)@ == (AuthView {
                        next_user_id: (old(self)@.next_user_id + 1) as u64,
                        ..old(self)@
                    }),
                }
            },
    {
        if self.usernames.contains_key(username) {
            return Err(AuthError::UsernameTaken);
        }
        let id: UserId = self.next_user_id;
        self.next_user_id = id + 1;
        match password_hash {
            None => Err(AuthError::InvalidPassword),
            Some(hash) => {
                let ghost before = old(self)@;
                let ghost h = hash@;
                let user: User = User {
                    id,
                    username: username.to_owned(),
                    password_hash: hash,
                    roles: Vec::new(),
                    active: true,
                };
                let ghost value = user@;
                assert(value.roles =~= seq![]);
                self.users.insert(id, user);
                self.usernames.insert(username.to_owned(), id);
                proof {
                    let want = before.with_user(username@, h);
                    assert(self@.users =~= want.users);
                    assert(self@ =~= want);
                    assert forall|n: Seq<char>| #[trigger]
                        self@.usernames.dom().contains(n) implies self@.users.dom().contains(
                        self@.usernames[n],
                    ) && self@.users[self@.usernames[n]].username == n by {
                        if n != username@ {
                            assert(before.usernames.dom().contains(n));
                            assert(before.users.dom().contains(before.usernames[n]));
                        }
                    }
                    assert forall|u: u64| #[trigger] self@.users.dom().contains(u) implies
                        self@.users[u].id == u && u < self@.next_user_id by {
                        if u != id {
                            assert(before.users.dom().contains(u));
                        }
                    }
                }
                Ok(id)
            },
        }
    }

    /// Adds a user. Where the password cannot be hashed for want of memory, the
    /// number is counted as used.
    pub fn create_user(&mut self, username: &str, password: &str) -> (r: Result<UserId, AuthError>)
        requires
            old(self).wf(),
            old(self)@.next_user_id < u64::MAX,
        ensures
            final(self).wf(),
            final(self).store() == old(self).store(),
            match r {
                Ok(id) => id == old(self)@.next_user_id && !old(self)@.usernames.dom().contains(
                    username@,
                ) && exists|h: Seq<char>|
                    password_matches(password@, h)
                        && final(self)@ == #[trigger] old(self)@.with_user(username@, h),
                Err(e) => if old(self)@.usernames.dom().contains(username@) {
                    e == AuthError::UsernameTaken && final(self)@ == old(self)@
                } else {
                    e == AuthError::InvalidPassword && final(self)@ == (AuthView {
                        next_user_id: (old(self)@.next_user_id + 1) as u64,
                        ..old(self)@
                    })
                },
            },
    {
        if self.usernames.contains_key(username) {
            return Err(AuthError::UsernameTaken);
        }
        let hash: Option<String> = hash_password(password);
        self.add_user(username, hash)
    }

    /// Settles who may try a password. A locked account stays locked for the
    /// whole duration from now on; a lock that has expired is cleared.
    pub fn begin_login(&mut self, username: &str, now: u64) -> (r: Result<UserId, AuthError>)
        requires
            old(self).wf(),
        ensures
            final(self).wf(),
            final(self).store() == old(self).store(),
            (r, final(self)@) == old(self)@.begun(username@, now),
    {
        let ghost before = self@;
        match self.locked_until.get(username) {
            Some(t) => {
                if *t > now {
                    let again: u64 = add_secs(now, self.lockout_duration);
                    let until: u64 = if again > *t {
                        again
                    } else {
                        *t
                    };
                    self.locked_until.insert(username.to_owned(), until);
                    assert(self@ =~= before.begun(username@, now).1);
                    return Err(AuthError::DatabaseLocked { remaining_secs: until - now });
                }
                let _l: bool = self.locked_until.remove(username);
                let _f: bool = self.failed_attempts.remove(username);
                assert(self@ =~= before.cleared(username@));
            },
            None => {},
        }
        match self.usernames.get(username) {
            None => Err(AuthError::UserNotFound),
            Some(id) => {
                assert(self@.usernames.dom().contains(username@));
                match self.users.get(*id) {
                    Some(user) => {
                        if user.active {
                            Ok(*id)
                        } else {
                            Err(AuthError::UserInactive)
                        }
                    },
                    None => Err(AuthError::UserNotFound),
                }
            },
        }
    }

    /// Counts a wrong password, and locks the account where there were enough.
    pub fn reject_login(&mut self, username: &str, now: u64) -> (r: AuthError)
        requires
            old(self).wf(),
        ensures
            final(self).wf(),
            final(self).store() == old(self).store(),
            r == AuthError::InvalidPassword,
            final(self)@ == old(self)@.rejected(username@, now),
    {
        let ghost before = self@;
        let n: u32 = self.failed_attempts_for(username);
        let count: u32 = if n == u32::MAX {
            n
        } else {
            n + 1
        };
        self.failed_attempts.insert(username.to_owned(), count);
        if count >= self.max_failed_attempts {
            let until: u64 = add_secs(now, self.lockout_duration);
            self.locked_until.insert(username.to_owned(), until);
        }
        assert(self@ =~= before.rejected(username@, now));
        AuthError::InvalidPassword
    }

    /// Starts a session for a user after a right password.
    pub fn accept_login(&mut self, username: &str, user_id: UserId, token: TokenString, now: u64) -> (r:
        Session)
        requires
            old(self).wf(),
        ensures
            final(self).wf(),
            r@ == (SessionView {
                token: token@,
                user_id,
                expires_at: later_by(now, SESSION_SECS),
            }),
            final(self)@ == old(self)@.cleared(username@).with_session(r@),
            final(self).stored(
                old(self).store(),
                |m: Map<Seq<char>, SessionView>| m.insert(token@, r@),
            ),
    {
        let ghost before = self@;
        let _f: bool = self.failed_attempts.remove(username);
        let _l: bool = self.locked_until.remove(username);
        assert(self@ =~= before.cleared(username@));
        self.start_session(user_id, token, now)
    }

    /// Ends a login, given whether the password matched: starts a session under
    /// the token, or counts a failure.
    pub fn settle_login(
        &mut self,
        username: &str,
        user_id: UserId,
        matched: bool,
        token: TokenString,
        now: u64,
    ) -> (r: Result<Session, AuthError>)
        requires
            old(self).wf(),
        ensures
            final(self).wf(),
            r is Ok <==> matched,
            match r {
                Ok(s) => {
                    &&& s@ == (SessionView {
                        token: token@,
                        user_id,
                        expires_at: later_by(now, SESSION_SECS),
                    })
                    &&& final(self)@ == old(self)@.cleared(username@).with_session(s@)
                    &&& final(self).stored(
                        old(self).store(),
                        |m: Map<Seq<char>, SessionView>| m.insert(s@.token, s@),
                    )
                },
                Err(e) => {
                    &&& e == AuthError::InvalidPassword
                    &&& final(self)@ == old(self)@.rejected(username@, now)
                    &&& final(self).store() == old(self).store()
                },
            },
    {
        if matched {
            Ok(self.accept_login(username, user_id, token, now))
        } else {
            Err(self.reject_login(username, now))
        }
    }

    /// Starts a session: keeps it in the store, if there is one, and in memory.
    pub fn start_session(&mut self, user_id: UserId, token: TokenString, now: u64) -> (r: Session)
        requires
            old(self).wf(),
        ensures
            final(self).wf(),
            r@ == (SessionView {
                token: token@,
                user_id,
                expires_at: later_by(now, SESSION_SECS),
            }),
            final(self)@ == old(self)@.with_session(r@),
            final(self).stored(
                old(self).store(),
                |m: Map<Seq<char>, SessionView>| m.insert(token@, r@),
            ),
    {
        let session: Session = Session {
            token,
            user_id,
            expires_at: add_secs(now, SESSION_SECS),
        };
        self.cache_and_persist_session(&session);
        session
    }

    fn cache_and_persist_session(&mut self, session: &Session)
        requires
            old(self).wf(),
        ensures
            final(self).wf(),
            final(self)@ == old(self)@.with_session(session@),
            final(self).stored(
                old(self).store(),
                |m: Map<Seq<char>, SessionView>| m.insert(session@.token, session@),
            ),
    {
        let ghost before = self@;
        match &mut self.session_store {
            Some(store) => {
                let _saved: CenResult<()> = store.save(session);
            },
            None => {},
        }
        self.sessions.insert(session.token.as_str().to_owned(), session.copy());
        proof {
            let want = before.with_session(session@);
            assert(self@.sessions =~= want.sessions);
            assert(self@ =~= want);
        }
    }

    /// Logs a user in with a password.
    pub fn login(&mut self, username: &str, password: &str) -> (r: Result<Session, AuthError>)
        requires
            old(self).wf(),
        ensures
            final(self).wf(),
            exists|now: u64| #[trigger]
                login_outcome(
                    old(self)@,
                    username@,
                    password@,
                    now,
                    session_result(r),
                    final(self)@,
                ),
            match r {
                Ok(s) => final(self).stored(
                    old(self).store(),
                    |m: Map<Seq<char>, SessionView>| m.insert(s@.token, s@),
                ),
                Err(_) => final(self).store() == old(self).store(),
            },
    {
        let now: u64 = now_secs();
        let ghost before = self@;
        let id: UserId = match self.begin_login(username, now) {
            Ok(id) => id,
            Err(e) => {
                assert(login_outcome(
                    before,
                    username@,
                    password@,
                    now,
                    Err::<SessionView, AuthError>(e),
                    self@,
                ));
                return Err(e);
            },
        };
        let ghost middle = self@;
        assert(before.begun(username@, now).0 == Ok::<u64, AuthError>(id));
        assert(before.begun(username@, now).1 == middle);
        let matched: bool = match self.users.get(id) {
            Some(user) => verify_password(password, user.password_hash.as_str()),
            None => false,
        };
        let later: u64 = now_secs();
        let token: TokenString = if matched {
            generate_token()
        } else {
            String::new()
        };
        let r: Result<Session, AuthError> = self.settle_login(username, id, matched, token, later);
        proof {
            assert(matched ==> starts(session_result(r)->Ok_0, id, later));
            assert(!matched ==> self@ == middle.rejected(username@, later));
            assert(login_outcome(
                before,
                username@,
                password@,
                now,
                session_result(r),
                self@,
            ));
        }
        r
    }

    /// The user whom a key lets in at a time.
    pub fn check_api_key(&self, api_key_hex: &str, now: u64) -> (r: Result<UserId, AuthError>)
        requires
            self.wf(),
        ensures
            r == self@.keyed(api_key_hex@, now),
    {
        match key_digest(api_key_hex) {
            None => Err(AuthError::InvalidApiKey),
            Some(digest) => match self.api_keys.get(digest.as_slice()) {
                None => Err(AuthError::InvalidApiKey),
                Some(key) => {
                    match key.expires_at {
                        Some(end) => {
                            if now > end {
                                return Err(AuthError::ApiKeyExpired);
                            }
                        },
                        None => {},
                    }
                    match self.users.get(key.user_id) {
                        None => Err(AuthError::UserNotFound),
                        Some(user) => {
                            if user.active {
                                Ok(key.user_id)
                            } else {
                                Err(AuthError::UserInactive)
                            }
                        },
                    }
                },
            },
        }
    }

    /// Logs a user in with a key.
    pub fn login_api_key(&mut self, api_key_hex: &str) -> (r: Result<Session, AuthError>)
        requires
            old(self).wf(),
        ensures
            final(self).wf(),
            exists|now: u64| #[trigger]
                key_login_outcome(old(self)@, api_key_hex@, now, session_result(r), final(self)@),
            match r {
                Ok(s) => final(self).stored(
                    old(self).store(),
                    |m: Map<Seq<char>, SessionView>| m.insert(s@.token, s@),
                ),
                Err(_) => final(self).store() == old(self).store(),
            },
    {
        let now: u64 = now_secs();
        let ghost before = self@;
        match self.check_api_key(api_key_hex, now) {
            Err(e) => {
                assert(key_login_outcome(
                    before,
                    api_key_hex@,
                    now,
                    Err::<SessionView, AuthError>(e),
                    self@,
                ));
                Err(e)
            },
            Ok(id) => {
                let token: TokenString = generate_token();
                let later: u64 = now_secs();
                let s: Session = self.start_session(id, token, later);
                proof {
                    lemma_key_outcome(before, api_key_hex@, now, s@, id, later);
                }
                Ok(s)
            },
        }
    }

    /// The user of a session at a time. A session that is not in memory is
    /// taken from the store, if there is one, and kept in memory. One that has
    /// expired is forgotten.
    pub fn validate_session_at(&mut self, token: &str, now: u64) -> (r: Result<UserId, AuthError>)
        requires
            old(self).wf(),
        ensures
            final(self).wf(),
            old(self)@.sessions.dom().contains(token@) ==> {
                let s = old(self)@.sessions[token@];
                if now > s.expires_at {
                    r == Err::<UserId, AuthError>(AuthError::SessionExpired) && final(self)@ == (
                    AuthView { sessions: old(self)@.sessions.remove(token@), ..old(self)@ })
                        && final(self).stored(
                        old(self).store(),
                        |m: Map<Seq<char>, SessionView>| m.remove(token@),
                    )
                } else {
                    r == Ok::<UserId, AuthError>(s.user_id) && *final(self) == *old(self)
                }
            },
            !old(self)@.sessions.dom().contains(token@) ==> match old(self).store() {
                None => r == Err::<UserId, AuthError>(AuthError::InvalidSession) && *final(self)
                    == *old(self),
                Some(store) => found_in_store(
                    store.saved(),
                    old(self)@,
                    token@,
                    now,
                    r,
                    final(self)@,
                ) || !store.steady() && r == Err::<UserId, AuthError>(AuthError::InvalidSession)
                    && final(self)@ == old(self)@,
            },
            !old(self)@.sessions.dom().contains(token@) ==> final(self).stored(
                old(self).store(),
                |m: Map<Seq<char>, SessionView>|
                    if r == Err::<UserId, AuthError>(AuthError::SessionExpired) {
                        m.remove(token@)
                    } else {
                        m
                    },
            ),
    {
        let ghost before = self@;
        match self.sessions.get(token) {
            Some(s) => {
                if now > s.expires_at {
                    let _gone: bool = self.sessions.remove(token);
                    self.delete_stored(token);
                    proof {
                        assert(self@.sessions =~= before.sessions.remove(token@));
                        assert(self@ =~= (AuthView {
                            sessions: before.sessions.remove(token@),
                            ..before
                        }));
                    }
                    return Err(AuthError::SessionExpired);
                }
                return Ok(s.user_id);
            },
            None => {},
        }
        let loaded: CenResult<Option<Session>> = match &self.session_store {
            Some(store) => store.load(token),
            None => {
                return Err(AuthError::InvalidSession);
            },
        };
        match loaded {
            Ok(Some(s)) => {
                if now > s.expires_at {
                    self.delete_stored(token);
                    return Err(AuthError::SessionExpired);
                }
                let user: UserId = s.user_id;
                let ghost value = s@;
                self.sessions.insert(s.token.as_str().to_owned(), s);
                proof {
                    let want = before.with_session(value);
                    assert(self@.sessions =~= want.sessions);
                    assert(self@ =~= want);
                }
                Ok(user)
            },
            _ => Err(AuthError::InvalidSession),
        }
    }

    fn delete_stored(&mut self, token: &str)
        requires
            old(self).session_store matches Some(s) ==> s.valid(),
        ensures
            final(self).session_store matches Some(s) ==> s.valid(),
            final(self).users == old(self).users,
            final(self).usernames == old(self).usernames,
            final(self).api_keys == old(self).api_keys,
            final(self).sessions == old(self).sessions,
            final(self).next_user_id == old(self).next_user_id,
            final(self).next_key_id == old(self).next_key_id,
            final(self).failed_attempts == old(self).failed_attempts,
            final(self).max_failed_attempts == old(self).max_failed_attempts,
            final(self).locked_until == old(self).locked_until,
            final(self).lockout_duration == old(self).lockout_duration,
            final(self).stored(
                old(self).store(),
                |m: Map<Seq<char>, SessionView>| m.remove(token@),
            ),
    {
        match &mut self.session_store {
            Some(store) => {
                let _deleted: CenResult<()> = store.delete(token);
            },
            None => {},
        }
    }

    /// The user of a session.
    pub fn validate_session(&mut self, token: &str) -> (r: Result<UserId, AuthError>)
        requires
            old(self).wf(),
        ensures
            final(self).wf(),
            exists|now: u64| #[trigger]
                validated(old(self)@, old(self).store(), token@, now, r, final(self)@),
    {
        let now: u64 = now_secs();
        let r: Result<UserId, AuthError> = self.validate_session_at(token, now);
        assert(validated(old(self)@, old(self).store(), token@, now, r, self@));
        r
    }

    /// Ends a session: forgets it in memory and in the store, if there is one.
    pub fn logout(&mut self, token: &str)
        requires
            old(self).wf(),
        ensures
            final(self).wf(),
            final(self)@ == (AuthView {
                sessions: old(self)@.sessions.remove(token@),
                ..old(self)@
            }),
            final(self).stored(
                old(self).store(),
                |m: Map<Seq<char>, SessionView>| m.remove(token@),
            ),
    {
        let ghost before = self@;
        let _gone: bool = self.sessions.remove(token);
        self.delete_stored(token);
        proof {
            assert(self@.sessions =~= before.sessions.remove(token@));
            assert(self@ =~= (AuthView { sessions: before.sessions.remove(token@), ..before }));
        }
    }

    /// Adds a key of 32 bytes for a user.
    pub fn add_api_key(
        &mut self,
        user_id: UserId,
        raw: &[u8],
        label: &str,
        created_at: u64,
        expires_at: Option<u64>,
    ) -> (r: Result<String, AuthError>)
        requires
            old(self).wf(),
            old(self)@.next_key_id < u64::MAX,
            raw@.len() == 32,
        ensures
            final(self).wf(),
            final(self).store() == old(self).store(),
            if old(self)@.users.dom().contains(user_id) {
                &&& r matches Ok(hex)
                &&& hex@ == hex_text(raw@)
                &&& final(self)@ == old(self)@.with_key(
                    user_id,
                    raw@,
                    label@,
                    created_at,
                    expires_at,
                )
            } else {
                &&& r matches Err(e)
                &&& e == AuthError::UserNotFound
                &&& *final(self) == *old(self)
            },
    {
        let ghost before = self@;
        if !self.users.contains_key(user_id) {
            return Err(AuthError::UserNotFound);
        }
        let digest: [u8; 32] = blake3_hash(raw);
        let id: u64 = self.next_key_id;
        self.next_key_id = id + 1;
        let key: ApiKey = ApiKey {
            id,
            user_id,
            key_hash: digest,
            label: label.to_owned(),
            created_at,
            expires_at,
        };
        let place: Vec<u8> = copy_range(digest.as_slice(), 0, 32);
        assert(place@ =~= digest@);
        self.api_keys.insert(place, key);
        proof {
            let want = before.with_key(user_id, raw@, label@, created_at, expires_at);
            assert(self@.api_keys =~= want.api_keys);
            assert(self@ =~= want);
        }
        Ok(bytes_to_hex(raw))
    }

    /// Makes a key for a user, and returns it in hexadecimal.
    pub fn create_api_key(&mut self, user_id: UserId, label: &str, expires_at: Option<u64>) -> (r:
        Result<String, AuthError>)
        requires
            old(self).wf(),
            old(self)@.next_key_id < u64::MAX,
        ensures
            final(self).wf(),
            final(self).store() == old(self).store(),
            match r {
                Ok(hex) => old(self)@.users.dom().contains(user_id) && exists|
                    raw: Seq<u8>,
                    created_at: u64,
                |
                    raw.len() == 32 && hex@ == hex_text(raw)
                        && final(self)@ == #[trigger] old(self)@.with_key(user_id, raw, label@, created_at, expires_at),
                Err(e) => e == AuthError::UserNotFound && !old(self)@.users.dom().contains(user_id)
                    && *final(self) == *old(self),
            },
    {
        let raw: Vec<u8> = random_bytes(32);
        let now: u64 = now_secs();
        self.add_api_key(user_id, raw.as_slice(), label, now, expires_at)
    }

    /// Forgets a key, if there is one.
    pub fn revoke_api_key(&mut self, api_key_hex: &str) -> (r: Result<(), AuthError>)
        requires
            old(self).wf(),
        ensures
            final(self).wf(),
            final(self).store() == old(self).store(),
            match raw_key(api_key_hex@) {
                None => r == Err::<(), AuthError>(AuthError::InvalidApiKey) && *final(self) == *old(self),
                Some(raw) => r == Ok::<(), AuthError>(()) && final(self)@ == (AuthView {
                    api_keys: old(self)@.api_keys.remove(blake3_of(raw)@),
                    ..old(self)@
                }),
            },
    {
        let ghost before = self@;
        match key_digest(api_key_hex) {
            None => Err(AuthError::InvalidApiKey),
            Some(digest) => {
                let _there: bool = self.api_keys.remove(digest.as_slice());
                proof {
                    assert(self@.api_keys =~= before.api_keys.remove(digest@));
                    assert(self@ =~= (AuthView {
                        api_keys: before.api_keys.remove(digest@),
                        ..before
                    }));
                }
                Ok(())
            },
        }
    }

    fn change_user(&mut self, i: usize, user: User)
        requires
            old(self).wf(),
            i < old(self).users.key_seq().len(),
            user@.id == old(self).users.value_seq()[i as int]@.id,
            user@.username == old(self).users.value_seq()[i as int]@.username,
        ensures
            final(self).wf(),
            final(self).store() == old(self).store(),
            final(self)@ == old(self)@.with_changed(user@),
    {
        let ghost before = self@;
        let ghost value = user@;
        proof {
            self.users.lemma_at(i as int);
            assert(before.users.dom().contains(self.users.key_seq()[i as int]));
        }
        self.users.set_at(i, user);
        proof {
            let want = before.with_changed(value);
            assert(self@.users =~= want.users);
            assert(self@ =~= want);
            assert forall|n: Seq<char>| #[trigger] self@.usernames.dom().contains(n) implies
                self@.users.dom().contains(self@.usernames[n])
                && self@.users[self@.usernames[n]].username == n by {
                assert(before.usernames.dom().contains(n));
                assert(before.users.dom().contains(before.usernames[n]));
            }
            assert forall|u: u64| #[trigger] self@.users.dom().contains(u) implies
                self@.users[u].id == u && u < self@.next_user_id by {
                assert(before.users.dom().contains(u));
            }
        }
    }

    /// Gives a user a role; one that the user has is not added again.
    pub fn assign_role(&mut self, user_id: UserId, role: &str) -> (r: Result<(), AuthError>)
        requires
            old(self).wf(),
        ensures
            final(self).wf(),
            final(self).store() == old(self).store(),
            if old(self)@.users.dom().contains(user_id) {
                r == Ok::<(), AuthError>(()) && final(self)@ == old(self)@.with_changed(
                    with_role(old(self)@.users[user_id], role@),
                )
            } else {
                r == Err::<(), AuthError>(AuthError::UserNotFound) && *final(self) == *old(self)
            },
    {
        match self.users.find(user_id) {
            None => Err(AuthError::UserNotFound),
            Some(i) => {
                let mut user: User = copy_user(self.users.value_at(i));
                let ghost was = user@;
                if !has_role(&user.roles, role) {
                    user.roles.push(role.to_owned());
                    assert(texts(user.roles@) =~= was.roles.push(role@));
                }
                assert(user@ =~= with_role(was, role@));
                self.change_user(i, user);
                Ok(())
            },
        }
    }

    /// The roles of a user; none where there is no such user.
    pub fn get_roles(&self, user_id: UserId) -> (r: Vec<String>)
        requires
            self.wf(),
        ensures
            texts(r@) == (if self@.users.dom().contains(user_id) {
                self@.users[user_id].roles
            } else {
                seq![]
            }),
    {
        match self.users.get(user_id) {
            Some(user) => copy_texts(&user.roles),
            None => {
                let out: Vec<String> = Vec::new();
                assert(texts(out@) =~= seq![]);
                out
            },
        }
    }

    /// Keeps a user from logging in.
    pub fn deactivate_user(&mut self, user_id: UserId) -> (r: Result<(), AuthError>)
        requires
            old(self).wf(),
        ensures
            final(self).wf(),
            final(self).store() == old(self).store(),
            if old(self)@.users.dom().contains(user_id) {
                r == Ok::<(), AuthError>(()) && final(self)@ == old(self)@.with_changed(
                    (UserView { active: false, ..old(self)@.users[user_id] }),
                )
            } else {
                r == Err::<(), AuthError>(AuthError::UserNotFound) && *final(self) == *old(self)
            },
    {
        match self.users.find(user_id) {
            None => Err(AuthError::UserNotFound),
            Some(i) => {
                let mut user: User = copy_user(self.users.value_at(i));
                user.active = false;
                self.change_user(i, user);
                Ok(())
            },
        }
    }

    /// The number of users.
    pub fn user_count(&self) -> (r: usize)
        requires
            self.wf(),
        ensures
            r == self@.users.dom().len(),
    {
        proof {
            assert(self@.users.dom() =~= self.users.key_seq().to_set());
            self.users.key_seq().unique_seq_to_set();
        }
        self.users.len()
    }

    /// The number of sessions in memory.
    pub fn session_count(&self) -> (r: usize)
        requires
            self.wf(),
        ensures
            r == self@.sessions.dom().len(),
    {
        proof {
            assert(self@.sessions.dom() =~= self.sessions.key_seq().to_set());
            self.sessions.key_seq().unique_seq_to_set();
        }
        self.sessions.len()
    }
}

/// What a store that answers gives for a token that is not in memory.
pub open spec fn found_in_store(
    saved: Map<Seq<char>, SessionView>,
    before: AuthView,
    token: Seq<char>,
    now: u64,
    r: Result<UserId, AuthError>,
    after: AuthView,
) -> bool {
    if !saved.dom().contains(token) {
        r == Err::<UserId, AuthError>(AuthError::InvalidSession) && after == before
    } else if now > saved[token].expires_at {
        r == Err::<UserId, AuthError>(AuthError::SessionExpired) && after == before
    } else {
        r == Ok::<UserId, AuthError>(saved[token].user_id) && after == before.with_session(
            saved[token],
        )
    }
}

/// What the check of a token at a time may come to.
pub open spec fn validated<S: SessionStore>(
    before: AuthView,
    store: Option<S>,
    token: Seq<char>,
    now: u64,
    r: Result<UserId, AuthError>,
    after: AuthView,
) -> bool {
    if before.sessions.dom().contains(token) {
        let s = before.sessions[token];
        if now > s.expires_at {
            r == Err::<UserId, AuthError>(AuthError::SessionExpired) && after == (AuthView {
                sessions: before.sessions.remove(token),
                ..before
            })
        } else {
            r == Ok::<UserId, AuthError>(s.user_id) && after == before
        }
    } else {
        match store {
            None => r == Err::<UserId, AuthError>(AuthError::InvalidSession) && after == before,
            Some(st) => found_in_store(st.saved(), before, token, now, r, after) || !st.steady()
                && r == Err::<UserId, AuthError>(AuthError::InvalidSession) && after == before,
        }
    }
}

fn generate_token() -> (r: TokenString)
    ensures
        exists|b: Seq<u8>| b.len() == 32 && r@ == #[trigger] hex_text(b),
{
    let bytes: Vec<u8> = random_bytes(32);
    bytes_to_hex(bytes.as_slice())
}

fn key_digest(hex: &str) -> (r: Option<[u8; 32]>)
    ensures
        r == match raw_key(hex@) {
            Some(raw) => Some(blake3_of(raw)),
            None => None,
        },
{
    match hex_to_bytes(hex) {
        Some(raw) => {
            if raw.len() == 32 {
                Some(blake3_hash(raw.as_slice()))
            } else {
                None
            }
        },
        None => None,
    }
}

fn copy_texts(v: &Vec<String>) -> (r: Vec<String>)
    ensures
        texts(r@) == texts(v@),
{
    let mut out: Vec<String> = Vec::new();
    let mut i: usize = 0;
    while i < v.len()
        invariant
            i <= v@.len(),
            out@.len() == i,
            forall|k: int| 0 <= k < i ==> (#[trigger] out@[k])@ == v@[k]@,
        decreases v@.len() - i,
    {
        out.push(v[i].as_str().to_owned());
        i = i + 1;
    }
    assert(texts(out@) =~= texts(v@));
    out
}

fn has_role(list: &Vec<String>, role: &str) -> (r: bool)
    ensures
        r == texts(list@).contains(role@),
{
    let mut i: usize = 0;
    while i < list.len()
        invariant
            i <= list@.len(),
            forall|k: int| 0 <= k < i ==> (#[trigger] list@[k])@ != role@,
        decreases list@.len() - i,
    {
        if same_text(list[i].as_str(), role) {
            assert(texts(list@)[i as int] == role@);
            return true;
        }
        i = i + 1;
    }
    false
}

fn copy_user(u: &User) -> (r: User)
    ensures
        r@ == u@,
{
    User {
        id: u.id,
        username: u.username.as_str().to_owned(),
        password_hash: u.password_hash.as_str().to_owned(),
        roles: copy_texts(&u.roles),
        active: u.active,
    }
}

/// On a locked account every attempt is refused, whatever the password, and the
/// account is locked for at least the whole duration from then on.
pub proof fn law_locked_account_refuses(
    before: AuthView,
    name: Seq<char>,
    password: Seq<char>,
    now: u64,
    r: Result<SessionView, AuthError>,
    after: AuthView,
)
    requires
        before.locked(name, now),
        login_outcome(before, name, password, now, r, after),
    ensures
        r matches Err(AuthError::DatabaseLocked { remaining_secs }) && remaining_secs > 0
            && after.locked_until[name] == now + remaining_secs,
        after.sessions == before.sessions,
        after.locked_until[name] >= before.locked_until[name],
        after.locked_until[name] >= later_by(now, before.lockout_duration),
{
}

/// The failure that reaches the limit locks the account, so that every attempt
/// before the lock ends is refused.
pub proof fn law_limit_locks(before: AuthView, name: Seq<char>, at: u64, now: u64)
    requires
        before.failures(name) + 1 >= before.max_failed_attempts,
        now < later_by(at, before.lockout_duration),
    ensures
        before.rejected(name, at).locked(name, now),
        before.rejected(name, at).begun(name, now).0 matches Err(AuthError::DatabaseLocked { .. }),
{
}

/// Failures below the limit are counted one by one and lock nothing.
pub proof fn law_failures_are_counted(before: AuthView, name: Seq<char>, at: u64, now: u64)
    requires
        before.failures(name) + 1 < before.max_failed_attempts,
    ensures
        before.rejected(name, at).failures(name) == before.failures(name) + 1,
        before.rejected(name, at).locked(name, now) == before.locked(name, now),
{
}

/// After a login there are no failures and no lock, and the session is known.
pub proof fn law_login_clears(
    before: AuthView,
    name: Seq<char>,
    password: Seq<char>,
    now: u64,
    s: SessionView,
    after: AuthView,
)
    requires
        login_outcome(before, name, password, now, Ok::<SessionView, AuthError>(s), after),
    ensures
        after.failures(name) == 0,
        !after.locked_until.dom().contains(name),
        after.sessions.dom().contains(s.token),
        after.sessions[s.token] == s,
        before.usernames.dom().contains(name),
        s.user_id == before.usernames[name],
        before.users[s.user_id].active,
        password_matches(password, before.users[s.user_id].password_hash),
{
}

/// A lock that has ended leaves no failures behind.
pub proof fn law_ended_lock_is_cleared(before: AuthView, name: Seq<char>, now: u64)
    requires
        before.locked_until.dom().contains(name),
        !before.locked(name, now),
    ensures
        before.begun(name, now).1.failures(name) == 0,
        !before.begun(name, now).1.locked_until.dom().contains(name),
{
}

/// What is done for one name leaves the failures and the locks of other names.
pub proof fn law_names_are_apart(before: AuthView, name: Seq<char>, other: Seq<char>, now: u64)
    requires
        other != name,
    ensures
        before.begun(name, now).1.failures(other) == before.failures(other),
        before.rejected(name, now).failures(other) == before.failures(other),
        forall|t: u64|
            #![trigger before.locked(other, t)]
            before.begun(name, now).1.locked(other, t) == before.locked(other, t)
                && before.rejected(name, now).locked(other, t) == before.locked(other, t),
{
}

/// A user who was deactivated is let in neither by a password nor by a key.
pub proof fn law_deactivated_user_stays_out(before: AuthView, user: u64, now: u64)
    requires
        before.wf(),
        before.users.dom().contains(user),
    ensures
        ({
            let after = before.with_changed((UserView { active: false, ..before.users[user] }));
            &&& forall|name: Seq<char>| (#[trigger] after.begun(name, now)).0 != Ok::<
                u64,
                AuthError,
            >(user)
            &&& forall|hex: Seq<char>| #[trigger]
                after.keyed(hex, now) != Ok::<u64, AuthError>(user)
        }),
{
}

/// A new user is let in by name, has the next number and no roles.
pub proof fn law_new_user(before: AuthView, name: Seq<char>, hash: Seq<char>, now: u64)
    requires
        before.wf(),
        !before.locked(name, now),
        before.next_user_id < u64::MAX,
    ensures
        before.with_user(name, hash).begun(name, now).0 == Ok::<u64, AuthError>(
            before.next_user_id,
        ),
        !before.users.dom().contains(before.next_user_id),
        before.with_user(name, hash).users[before.next_user_id].roles.len() == 0,
        before.with_user(name, hash).users[before.next_user_id].password_hash == hash,
{
}

/// A key that was made lets its active user in until it expires, and nobody
/// after it was revoked.
pub proof fn law_api_key_life(
    before: AuthView,
    user: u64,
    raw: Seq<u8>,
    label: Seq<char>,
    created_at: u64,
    expires_at: Option<u64>,
    now: u64,
)
    requires
        raw.len() == 32,
        before.users.dom().contains(user),
        before.users[user].active,
    ensures
        ({
            let hex = hex_text(raw);
            let after = before.with_key(user, raw, label, created_at, expires_at);
            let revoked = AuthView {
                api_keys: after.api_keys.remove(blake3_of(raw)@),
                ..after
            };
            &&& raw_key(hex) == Some(raw)
            &&& after.keyed(hex, now) == (if expires_at is Some && now > expires_at->0 {
                Err(AuthError::ApiKeyExpired)
            } else {
                Ok(user)
            })
            &&& revoked.keyed(hex, now) == Err::<u64, AuthError>(AuthError::InvalidApiKey)
        }),
{
    law_hex_round_trip(raw);
}

/// A session in memory is valid up to its last second, and not after it or
/// after a logout, if no store holds it.
pub proof fn law_session_life<S: SessionStore>(
    before: AuthView,
    store: Option<S>,
    s: SessionView,
    now: u64,
    r: Result<UserId, AuthError>,
    after: AuthView,
    out: Result<UserId, AuthError>,
    end: AuthView,
)
    requires
        before.sessions.dom().contains(s.token),
        before.sessions[s.token] == s,
        store matches Some(st) ==> !st.saved().dom().contains(s.token),
        validated(before, store, s.token, now, r, after),
        validated(
            (AuthView { sessions: before.sessions.remove(s.token), ..before }),
            store,
            s.token,
            now,
            out,
            end,
        ),
    ensures
        r == (if now > s.expires_at {
            Err(AuthError::SessionExpired)
        } else {
            Ok(s.user_id)
        }),
        out == Err::<UserId, AuthError>(AuthError::InvalidSession),
{
}

/// A session that a store keeps outlives the manager: a new manager with the
/// store knows it.
pub proof fn law_session_survives<S: SessionStore>(
    store: S,
    s: SessionView,
    now: u64,
    r: Result<UserId, AuthError>,
    after: AuthView,
)
    requires
        store.steady(),
        store.saved().dom().contains(s.token),
        store.saved()[s.token] == s,
        now <= s.expires_at,
        validated(no_users(), Some(store), s.token, now, r, after),
    ensures
        r == Ok::<UserId, AuthError>(s.user_id),
{
}

} // verus!
