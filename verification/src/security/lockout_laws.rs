//! When wrong passwords lock an account, and for how long.

use vstd::prelude::*;

use crate::security::auth::{starts, with_role, AuthError, AuthView, SessionView, UserView};
use crate::sequences::lemma_push_contains;

verus! {

/// The state after wrong passwords at the given times.
pub open spec fn after_wrong(v: AuthView, name: Seq<char>, times: Seq<u64>) -> AuthView
    decreases times.len(),
{
    if times.len() == 0 {
        v
    } else {
        after_wrong(v, name, times.drop_last()).rejected(name, times.last())
    }
}

/// Whether a login is refused because the account is locked.
pub open spec fn is_locked_out(v: AuthView, name: Seq<char>, now: u64) -> bool {
    v.begun(name, now).0 matches Err(AuthError::DatabaseLocked { .. })
}

proof fn lemma_counted(v: AuthView, name: Seq<char>, times: Seq<u64>)
    requires
        !v.failed_attempts.dom().contains(name),
        !v.locked_until.dom().contains(name),
        times.len() < v.max_failed_attempts,
    ensures
        ({
            let w = after_wrong(v, name, times);
            &&& w.failures(name) == times.len()
            &&& !w.locked_until.dom().contains(name)
            &&& w.max_failed_attempts == v.max_failed_attempts
            &&& w.lockout_duration == v.lockout_duration
            &&& w.usernames == v.usernames
            &&& w.users == v.users
        }),
    decreases times.len(),
{
    if times.len() > 0 {
        lemma_counted(v, name, times.drop_last());
    }
}

/// Fewer wrong passwords than the limit, at whatever times, lock no account.
pub proof fn law_below_limit(v: AuthView, name: Seq<char>, times: Seq<u64>, now: u64)
    requires
        !v.failed_attempts.dom().contains(name),
        !v.locked_until.dom().contains(name),
        times.len() < v.max_failed_attempts,
    ensures
        !is_locked_out(after_wrong(v, name, times), name, now),
        v.usernames.dom().contains(name) && v.users[v.usernames[name]].active ==> after_wrong(
            v,
            name,
            times,
        ).begun(name, now).0 == Ok::<u64, AuthError>(v.usernames[name]),
{
    lemma_counted(v, name, times);
}

/// As many wrong passwords as the limit lock the account from the last of them
/// on, for as long as the lock lasts and no longer.
pub proof fn law_at_limit(v: AuthView, name: Seq<char>, times: Seq<u64>, now: u64)
    requires
        !v.failed_attempts.dom().contains(name),
        !v.locked_until.dom().contains(name),
        times.len() == v.max_failed_attempts,
        times.len() > 0,
        times.last() + v.lockout_duration <= u64::MAX,
    ensures
        is_locked_out(after_wrong(v, name, times), name, now) <==> now < times.last()
            + v.lockout_duration,
{
    lemma_counted(v, name, times.drop_last());
}

/// An attempt while the lock lasts puts its end off: it then lasts as long again
/// as at first, and so much is the caller told to wait.
pub proof fn law_attempt_prolongs(v: AuthView, name: Seq<char>, at: u64, now: u64, t: u64)
    requires
        v.locked_until.dom().contains(name),
        v.locked_until[name] == at + v.lockout_duration,
        at <= now < at + v.lockout_duration,
        now + v.lockout_duration <= u64::MAX,
    ensures
        v.begun(name, now).0 == Err::<u64, AuthError>(
            AuthError::DatabaseLocked { remaining_secs: v.lockout_duration },
        ),
        is_locked_out(v.begun(name, now).1, name, t) <==> t < now + v.lockout_duration,
{
}

/// An account that is not locked is refused only where there is no such user or
/// the user is not active.
pub proof fn law_unlocked_account(v: AuthView, name: Seq<char>, now: u64)
    requires
        v.locked_until.dom().contains(name) ==> v.locked_until[name] <= now,
    ensures
        !v.usernames.dom().contains(name) ==> v.begun(name, now).0 == Err::<u64, AuthError>(
            AuthError::UserNotFound,
        ),
        v.usernames.dom().contains(name) && !v.users[v.usernames[name]].active ==> v.begun(
            name,
            now,
        ).0 == Err::<u64, AuthError>(AuthError::UserInactive),
        v.usernames.dom().contains(name) && v.users[v.usernames[name]].active ==> v.begun(
            name,
            now,
        ).0 == Ok::<u64, AuthError>(v.usernames[name]),
        v.begun(name, now).1.users == v.users,
        v.begun(name, now).1.sessions == v.sessions,
{
}

/// A session lasts an hour from its start.
pub proof fn law_session_lasts_an_hour(s: SessionView, user: u64, now: u64)
    requires
        starts(s, user, now),
        now + 3_600 <= u64::MAX,
    ensures
        s.user_id == user,
        s.expires_at == now + 3_600,
{
}

/// A role is given once, behind those that the user has.
pub proof fn law_role_given_once(user: UserView, role: Seq<char>, other: Seq<char>)
    requires
        user.roles.no_duplicates(),
    ensures
        with_role(user, role).roles.contains(role),
        with_role(user, role).roles.no_duplicates(),
        other != role ==> (with_role(user, role).roles.contains(other) <==> user.roles.contains(
            other,
        )),
        with_role(user, role).id == user.id,
        with_role(user, role).active == user.active,
{
    lemma_push_contains(user.roles, role, role);
    lemma_push_contains(user.roles, role, other);
}

} // verus!
