//! Where sessions are kept.
//!
//! A file of sessions has one line for each save; the last line of a token
//! counts. Deleting writes the file anew with one line for each session.

use vstd::prelude::*;

use crate::error::{corrupt_error, CenError, CenResult, ErrorView};
use crate::security::auth::{Session, SessionView};
use crate::security::session_json::{
    law_line_round_trip, lemma_line_ends, line_session, parse_session_json, serialize_session_json,
    session_line,
};
use crate::strmap::StrMap;
use crate::text::{chars_of, decimal, decimal_string, string_of, texts, trim, trim_range};

verus! {

/// The sessions that have not expired before a time.
pub open spec fn live(m: Map<Seq<char>, SessionView>, before: u64) -> Map<Seq<char>, SessionView> {
    Map::new(
        |k: Seq<char>| m.dom().contains(k) && m[k].expires_at >= before,
        |k: Seq<char>| m[k],
    )
}

/// Keeps sessions by token. An operation may fail; what is kept is then not
/// stated. Those of a steady store do not fail.
pub trait SessionStore: Send + Sync {
    /// The store is well formed.
    spec fn valid(&self) -> bool;

    /// Whether operations never fail.
    spec fn steady(&self) -> bool;

    /// The sessions that are kept, by token.
    spec fn saved(&self) -> Map<Seq<char>, SessionView>;

    /// Keeps a session. One with the same token is replaced.
    fn save(&mut self, session: &Session) -> (r: CenResult<()>)
        requires
            old(self).valid(),
        ensures
            final(self).valid(),
            final(self).steady() == old(self).steady(),
            old(self).steady() ==> r is Ok,
            r is Ok ==> final(self).saved() == old(self).saved().insert(session@.token, session@),
    ;

    /// The session of a token.
    fn load(&self, token: &str) -> (r: CenResult<Option<Session>>)
        requires
            self.valid(),
        ensures
            self.steady() ==> r is Ok,
            match r {
                Ok(Some(s)) => self.saved().dom().contains(token@) && s@ == self.saved()[token@],
                Ok(None) => !self.saved().dom().contains(token@),
                Err(_) => true,
            },
    ;

    /// Forgets the session of a token, if there is one.
    fn delete(&mut self, token: &str) -> (r: CenResult<()>)
        requires
            old(self).valid(),
        ensures
            final(self).valid(),
            final(self).steady() == old(self).steady(),
            old(self).steady() ==> r is Ok,
            r is Ok ==> final(self).saved() == old(self).saved().remove(token@),
    ;

    /// Forgets the sessions that expired before a time, and returns how many
    /// they were.
    fn delete_expired(&mut self, before_ts: u64) -> (r: CenResult<usize>)
        requires
            old(self).valid(),
        ensures
            final(self).valid(),
            final(self).steady() == old(self).steady(),
            old(self).steady() ==> r is Ok,
            r matches Ok(n) ==> final(self).saved() == live(old(self).saved(), before_ts) && n
                + final(self).saved().dom().len() == old(self).saved().dom().len(),
    ;
}

/// Keeps sessions in memory.
pub struct InMemorySessionStore {
    sessions: StrMap<Session>,
}

/// Sessions by token, as values.
pub open spec fn session_map(m: Map<Seq<char>, Session>) -> Map<Seq<char>, SessionView> {
    Map::new(|k: Seq<char>| m.dom().contains(k), |k: Seq<char>| m[k]@)
}

impl InMemorySessionStore {
    /// The tokens in the order in which they came.
    pub closed spec fn tokens(&self) -> Seq<Seq<char>> {
        self.sessions.key_seq()
    }

    /// Each token is listed once, and its session stands under it.
    pub proof fn lemma_tokens(&self)
        requires
            self.valid(),
        ensures
            self.tokens().no_duplicates(),
            forall|k: Seq<char>| self.tokens().contains(k) <==> #[trigger]
                self.saved().dom().contains(k),
            forall|k: Seq<char>| #[trigger]
                self.saved().dom().contains(k) ==> self.saved()[k].token == k,
            self.tokens().len() == self.saved().dom().len(),
    {
        assert(self.saved().dom() =~= self.tokens().to_set());
        self.tokens().unique_seq_to_set();
    }

    /// A store without sessions.
    pub fn new() -> (res: Self)
        ensures
            res.valid(),
            res.saved() == Map::<Seq<char>, SessionView>::empty(),
            res.tokens() == Seq::<Seq<char>>::empty(),
    {
        let res = InMemorySessionStore { sessions: StrMap::new() };
        assert(res.saved() =~= Map::<Seq<char>, SessionView>::empty());
        res
    }

    /// A line for each session, in the order in which the tokens came: the
    /// lines hold the sessions.
    pub fn lines(&self) -> (r: Vec<String>)
        requires
            self.valid(),
        ensures
            r@.len() == self.tokens().len(),
            forall|i: int|
                0 <= i < r@.len() ==> (#[trigger] r@[i])@ == session_line(
                    self.saved()[self.tokens()[i]],
                ),
            file_sessions(texts(r@)) == Ok::<Map<Seq<char>, SessionView>, ErrorView>(self.saved()),
    {
        let mut out: Vec<String> = Vec::new();
        let mut i: usize = 0;
        while i < self.sessions.len()
            invariant
                i <= self.tokens().len(),
                self.valid(),
                out@.len() == i,
                forall|k: int|
                    0 <= k < i ==> (#[trigger] out@[k])@ == session_line(
                        self.saved()[self.tokens()[k]],
                    ),
            decreases self.tokens().len() - i,
        {
            proof {
                self.sessions.lemma_at(i as int);
            }
            out.push(serialize_session_json(self.sessions.value_at(i)));
            i = i + 1;
        }
        proof {
            self.lemma_tokens();
            law_rewritten_file(texts(out@), self.tokens(), self.saved());
        }
        out
    }
}

impl Default for InMemorySessionStore {
    fn default() -> (res: Self)
        ensures
            res.valid(),
            res.saved() == Map::<Seq<char>, SessionView>::empty(),
    {
        InMemorySessionStore::new()
    }
}

impl SessionStore for InMemorySessionStore {
    closed spec fn valid(&self) -> bool {
        self.sessions.wf() && forall|k: Seq<char>| #[trigger]
            self.sessions@.dom().contains(k) ==> self.sessions@[k]@.token == k
    }

    open spec fn steady(&self) -> bool {
        true
    }

    closed spec fn saved(&self) -> Map<Seq<char>, SessionView> {
        session_map(self.sessions@)
    }

    fn save(&mut self, session: &Session) -> (r: CenResult<()>)
        ensures
            final(self).tokens() == (if old(self).saved().dom().contains(session@.token) {
                old(self).tokens()
            } else {
                old(self).tokens().push(session@.token)
            }),
    {
        self.sessions.insert(session.token.as_str().to_owned(), session.copy());
        assert(self.saved() =~= old(self).saved().insert(session@.token, session@));
        Ok(())
    }

    fn load(&self, token: &str) -> (r: CenResult<Option<Session>>) {
        match self.sessions.get(token) {
            Some(s) => Ok(Some(s.copy())),
            None => Ok(None),
        }
    }

    fn delete(&mut self, token: &str) -> (r: CenResult<()>) {
        let _there: bool = self.sessions.remove(token);
        assert(self.saved() =~= old(self).saved().remove(token@));
        Ok(())
    }

    fn delete_expired(&mut self, before_ts: u64) -> (r: CenResult<usize>) {
        let n: usize = self.sessions.len();
        let mut removed: usize = 0;
        let mut i: usize = 0;
        let ghost all = self.saved();
        while i < self.sessions.len()
            invariant
                self.valid(),
                i <= self.tokens().len(),
                n == removed + self.tokens().len(),
                forall|k: Seq<char>| #[trigger]
                    self.saved().dom().contains(k) ==> all.dom().contains(k) && self.saved()[k]
                        == all[k],
                forall|k: Seq<char>| #[trigger]
                    all.dom().contains(k) && all[k].expires_at >= before_ts
                        ==> self.saved().dom().contains(k),
                forall|j: int|
                    0 <= j < i ==> self.saved()[#[trigger] self.tokens()[j]].expires_at >= before_ts,
            decreases self.tokens().len() - i,
        {
            proof {
                self.sessions.lemma_at(i as int);
            }
            let ghost before = *self;
            let ghost key = self.tokens()[i as int];
            assert(self.saved().dom().contains(key));
            if self.sessions.value_at(i).expires_at >= before_ts {
                i = i + 1;
            } else {
                let _gone: Session = self.sessions.remove_at(i);
                removed = removed + 1;
                proof {
                    assert(self.saved() =~= before.saved().remove(key));
                    assert forall|j: int| 0 <= j < i implies self.saved()[#[trigger] self.tokens()[j]].expires_at
                        >= before_ts by {
                        assert(self.tokens()[j] == before.tokens()[j]);
                        assert(before.tokens()[j] != key);
                    }
                }
            }
        }
        proof {
            self.lemma_tokens();
            old(self).lemma_tokens();
            assert forall|k: Seq<char>| #[trigger] self.saved().dom().contains(k) implies
                self.saved()[k].expires_at >= before_ts by {
                assert(self.tokens().contains(k));
                let j = self.tokens().index_of(k);
                assert(self.tokens()[j] == k);
            }
            assert(self.saved() =~= live(all, before_ts));
        }
        Ok(removed)
    }
}

/// The error for a line that holds no session.
pub open spec fn unreadable_line(number: nat, e: ErrorView, line: Seq<char>) -> ErrorView {
    corrupt_error(
        "FileSessionStore: cannot parse session at line "@ + decimal(number) + ": "@ + e.message
            + " (line: "@ + line + ")"@,
    )
}

/// The sessions that the lines of a file hold. Empty lines are skipped, and the
/// last line of a token counts.
pub open spec fn file_sessions(lines: Seq<Seq<char>>) -> Result<
    Map<Seq<char>, SessionView>,
    ErrorView,
>
    decreases lines.len(),
{
    if lines.len() == 0 {
        Ok(Map::empty())
    } else {
        match file_sessions(lines.drop_last()) {
            Err(e) => Err(e),
            Ok(m) => {
                let line = trim(lines.last());
                if line.len() == 0 {
                    Ok(m)
                } else {
                    match line_session(line) {
                        Ok(s) => Ok(m.insert(s.token, s)),
                        Err(e) => Err(unreadable_line((lines.len() - 1) as nat, e, line)),
                    }
                }
            },
        }
    }
}

proof fn lemma_first_error(lines: Seq<Seq<char>>, n: int)
    requires
        0 <= n <= lines.len(),
        file_sessions(lines.take(n)) is Err,
    ensures
        file_sessions(lines) == file_sessions(lines.take(n)),
    decreases lines.len() - n,
{
    if n < lines.len() {
        assert(lines.take(n + 1).drop_last() =~= lines.take(n));
        lemma_first_error(lines, n + 1);
    } else {
        assert(lines.take(n) =~= lines);
    }
}

/// Reads the lines of a file.
pub fn read_sessions(lines: &Vec<String>) -> (r: CenResult<InMemorySessionStore>)
    ensures
        match r {
            Ok(s) => s.valid() && file_sessions(texts(lines@)) == Ok::<
                Map<Seq<char>, SessionView>,
                ErrorView,
            >(s.saved()),
            Err(e) => file_sessions(texts(lines@)) == Err::<
                Map<Seq<char>, SessionView>,
                ErrorView,
            >(e@),
        },
{
    let ghost all = texts(lines@);
    let mut store: InMemorySessionStore = InMemorySessionStore::new();
    let mut i: usize = 0;
    assert(all.take(0) =~= seq![]);
    while i < lines.len()
        invariant
            i <= lines@.len(),
            all == texts(lines@),
            store.valid(),
            file_sessions(all.take(i as int)) == Ok::<Map<Seq<char>, SessionView>, ErrorView>(
                store.saved(),
            ),
        decreases lines@.len() - i,
    {
        let chars: Vec<char> = chars_of(lines[i].as_str());
        let (a, z) = trim_range(chars.as_slice(), 0, chars.len());
        proof {
            assert(chars@.subrange(0, chars@.len() as int) =~= all[i as int]);
            assert(all.take(i + 1).drop_last() =~= all.take(i as int));
            assert(all.take(i + 1).last() == all[i as int]);
        }
        if a < z {
            let line: String = string_of(chars.as_slice(), a, z);
            match parse_session_json(line.as_str()) {
                Ok(s) => {
                    match store.save(&s) {
                        Ok(_) => {},
                        Err(e) => {
                            return Err(e);
                        },
                    }
                },
                Err(e) => {
                    let number: String = decimal_string(i as u64);
                    let mut text: String =
                        "FileSessionStore: cannot parse session at line ".to_owned();
                    text.append(number.as_str());
                    text.append(": ");
                    text.append(e.message.as_str());
                    text.append(" (line: ");
                    text.append(line.as_str());
                    text.append(")");
                    proof {
                        lemma_first_error(all, i + 1);
                    }
                    return Err(CenError::corrupt(text.as_str()));
                },
            }
        }
        i = i + 1;
    }
    assert(all.take(i as int) =~= all);
    Ok(store)
}

/// Trimming leaves the line of a session as it is.
proof fn lemma_line_trimmed(s: SessionView)
    ensures
        trim(session_line(s)) == session_line(s),
        session_line(s).len() > 0,
{
    lemma_line_ends(s);
}

/// A session whose line was added to a file is read back, and replaces an
/// earlier one of its token.
pub proof fn law_added_line(lines: Seq<Seq<char>>, s: SessionView)
    requires
        file_sessions(lines) is Ok,
    ensures
        file_sessions(lines.push(session_line(s))) == Ok::<Map<Seq<char>, SessionView>, ErrorView>(
            file_sessions(lines)->Ok_0.insert(s.token, s),
        ),
{
    let all = lines.push(session_line(s));
    assert(all.drop_last() =~= lines);
    lemma_line_trimmed(s);
    law_line_round_trip(s);
}

/// A file with one line for each session holds those sessions.
pub proof fn law_rewritten_file(
    lines: Seq<Seq<char>>,
    tokens: Seq<Seq<char>>,
    sessions: Map<Seq<char>, SessionView>,
)
    requires
        tokens.no_duplicates(),
        forall|k: Seq<char>| tokens.contains(k) <==> #[trigger] sessions.dom().contains(k),
        forall|i: int|
            0 <= i < tokens.len() ==> sessions[#[trigger] tokens[i]].token == tokens[i],
        lines.len() == tokens.len(),
        forall|i: int|
            0 <= i < tokens.len() ==> #[trigger] lines[i] == session_line(sessions[tokens[i]]),
    ensures
        file_sessions(lines) == Ok::<Map<Seq<char>, SessionView>, ErrorView>(sessions),
    decreases lines.len(),
{
    if lines.len() == 0 {
        assert(sessions =~= Map::<Seq<char>, SessionView>::empty()) by {
            assert forall|k: Seq<char>| !sessions.dom().contains(k) by {
                assert(!tokens.contains(k));
            }
        }
    } else {
        let last = tokens.last();
        let few = tokens.drop_last();
        let rest = sessions.remove(last);
        assert forall|k: Seq<char>| few.contains(k) <==> #[trigger] rest.dom().contains(k) by {
            if few.contains(k) {
                let j = few.index_of(k);
                assert(tokens[j] == k);
                assert(tokens.contains(k));
                assert(sessions.dom().contains(k));
                assert(k != last) by {
                    assert(tokens[j] != tokens[tokens.len() - 1]);
                }
            }
            if rest.dom().contains(k) {
                assert(sessions.dom().contains(k));
                let j = tokens.index_of(k);
                assert(few[j] == k);
            }
        }
        assert forall|i: int| 0 <= i < few.len() implies rest[#[trigger] few[i]].token
            == few[i] by {
            assert(few[i] == tokens[i]);
            assert(tokens[i] != last);
        }
        assert forall|i: int| 0 <= i < few.len() implies #[trigger] lines.drop_last()[i]
            == session_line(rest[few[i]]) by {
            assert(lines.drop_last()[i] == lines[i]);
            assert(few[i] == tokens[i]);
            assert(tokens[i] != last);
        }
        law_rewritten_file(lines.drop_last(), few, rest);
        let n = tokens.len() - 1;
        assert(tokens[n] == last);
        assert(lines[n] == session_line(sessions[last]));
        lemma_line_trimmed(sessions[last]);
        law_line_round_trip(sessions[last]);
        assert(tokens.contains(last));
        assert(sessions.dom().contains(last));
        assert(rest.insert(last, sessions[last]) =~= sessions);
    }
}

} // verus!
