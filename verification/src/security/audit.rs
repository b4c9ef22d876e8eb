//! Audit log: every entry is chained to the one before it by a digest, so that
//! a change to a stored entry shows.
//!
//! An entry's `prev_hash` is the digest of the entry before it; the first
//! entry's is the digest of the empty byte string.

use vstd::prelude::*;
use vstd::utf8::encode_utf8;

use crate::bytes::{le64, push_bytes, push_le64};
use crate::clock::now_secs;
use crate::security::hash::{blake3_hash, blake3_of, same_hash, Digest};
use crate::sequences::lemma_filter_push;
use crate::text::same_text;

verus! {

/// What an entry records.
#[derive(Clone, Copy, Debug, PartialEq, Eq, Structural)]
pub enum AuditOp {
    Insert,
    Update,
    Delete,
    Create,
    Drop,
    Login,
    Logout,
    FailedLogin,
    Grant,
    Revoke,
    Other,
}

impl AuditOp {
    /// The operation's name.
    pub open spec fn name(self) -> Seq<char> {
        match self {
            AuditOp::Insert => "INSERT"@,
            AuditOp::Update => "UPDATE"@,
            AuditOp::Delete => "DELETE"@,
            AuditOp::Create => "CREATE"@,
            AuditOp::Drop => "DROP"@,
            AuditOp::Login => "LOGIN"@,
            AuditOp::Logout => "LOGOUT"@,
            AuditOp::FailedLogin => "FAILED_LOGIN"@,
            AuditOp::Grant => "GRANT"@,
            AuditOp::Revoke => "REVOKE"@,
            AuditOp::Other => "OTHER"@,
        }
    }

    /// The operation's name.
    pub fn as_str(&self) -> (r: &'static str)
        ensures
            r@ == self.name(),
    {
        match self {
            AuditOp::Insert => "INSERT",
            AuditOp::Update => "UPDATE",
            AuditOp::Delete => "DELETE",
            AuditOp::Create => "CREATE",
            AuditOp::Drop => "DROP",
            AuditOp::Login => "LOGIN",
            AuditOp::Logout => "LOGOUT",
            AuditOp::FailedLogin => "FAILED_LOGIN",
            AuditOp::Grant => "GRANT",
            AuditOp::Revoke => "REVOKE",
            AuditOp::Other => "OTHER",
        }
    }
}

/// An entry of the log.
#[derive(Debug)]
pub struct AuditEntry {
    pub sequence: u64,
    /// Seconds since 1970.
    pub timestamp: u64,
    pub user_id: u64,
    pub op: AuditOp,
    pub resource: String,
    pub rows_affected: u64,
    pub detail: String,
    /// The digest of the entry before.
    pub prev_hash: [u8; 32],
    /// The digest of the fields above.
    pub entry_hash: [u8; 32],
}

/// The mathematical value of an [`AuditEntry`].
#[verifier::ext_equal]
pub struct EntryView {
    pub sequence: u64,
    pub timestamp: u64,
    pub user_id: u64,
    pub op: AuditOp,
    pub resource: Seq<char>,
    pub rows_affected: u64,
    pub detail: Seq<char>,
    pub prev_hash: Digest,
    pub entry_hash: Digest,
}

impl View for AuditEntry {
    type V = EntryView;

    open spec fn view(&self) -> EntryView {
        EntryView {
            sequence: self.sequence,
            timestamp: self.timestamp,
            user_id: self.user_id,
            op: self.op,
            resource: self.resource@,
            rows_affected: self.rows_affected,
            detail: self.detail@,
            prev_hash: self.prev_hash,
            entry_hash: self.entry_hash,
        }
    }
}

impl Clone for AuditEntry {
    fn clone(&self) -> (res: Self)
        ensures
            res@ == self@,
    {
        AuditEntry {
            sequence: self.sequence,
            timestamp: self.timestamp,
            user_id: self.user_id,
            op: self.op,
            resource: self.resource.clone(),
            rows_affected: self.rows_affected,
            detail: self.detail.clone(),
            prev_hash: self.prev_hash,
            entry_hash: self.entry_hash,
        }
    }
}

/// The bytes over which an entry's digest is taken.
pub open spec fn entry_bytes(e: EntryView) -> Seq<u8> {
    le64(e.sequence) + le64(e.timestamp) + le64(e.user_id) + encode_utf8(e.op.name())
        + encode_utf8(e.resource) + le64(e.rows_affected) + encode_utf8(e.detail) + e.prev_hash@
}

impl AuditEntry {
    /// The digest of the entry's fields.
    pub fn compute_hash(&self) -> (r: [u8; 32])
        ensures
            r == blake3_of(entry_bytes(self@)),
    {
        let mut b: Vec<u8> = Vec::new();
        push_le64(&mut b, self.sequence);
        push_le64(&mut b, self.timestamp);
        push_le64(&mut b, self.user_id);
        push_bytes(&mut b, self.op.as_str().as_bytes());
        push_bytes(&mut b, self.resource.as_str().as_bytes());
        push_le64(&mut b, self.rows_affected);
        push_bytes(&mut b, self.detail.as_str().as_bytes());
        push_bytes(&mut b, self.prev_hash.as_slice());
        assert(b@ =~= entry_bytes(self@));
        blake3_hash(b.as_slice())
    }
}

/// The values of a row of entries.
pub open spec fn entry_views(s: Seq<AuditEntry>) -> Seq<EntryView> {
    s.map_values(|e: AuditEntry| e@)
}

/// The digest that the entry at `n` must point back to.
pub open spec fn link(s: Seq<EntryView>, n: int) -> Digest {
    if n <= 0 {
        blake3_of(seq![])
    } else {
        s[n - 1].entry_hash
    }
}

/// Whether the entry at `i` points back to the one before it and has the
/// digest of its fields.
pub open spec fn entry_ok(s: Seq<EntryView>, i: int) -> bool {
    s[i].prev_hash == link(s, i) && s[i].entry_hash == blake3_of(entry_bytes(s[i]))
}

/// Whether every entry is in order.
pub open spec fn chain_ok(s: Seq<EntryView>) -> bool {
    forall|i: int| 0 <= i < s.len() ==> #[trigger] entry_ok(s, i)
}

/// Whether the first entry that is out of order has the sequence number.
pub open spec fn first_bad(s: Seq<EntryView>, sequence: u64) -> bool {
    exists|i: int|
        0 <= i < s.len() && !#[trigger] entry_ok(s, i) && s[i].sequence == sequence && forall|j: int|
            0 <= j < i ==> #[trigger] entry_ok(s, j)
}

/// The next entry of a log.
pub open spec fn next_entry(
    s: Seq<EntryView>,
    timestamp: u64,
    user_id: u64,
    op: AuditOp,
    resource: Seq<char>,
    rows_affected: u64,
    detail: Seq<char>,
) -> EntryView {
    let blank = EntryView {
        sequence: (s.len() + 1) as u64,
        timestamp,
        user_id,
        op,
        resource,
        rows_affected,
        detail,
        prev_hash: link(s, s.len() as int),
        entry_hash: link(s, s.len() as int),
    };
    EntryView { entry_hash: blake3_of(entry_bytes(blank)), ..blank }
}

/// A log whose chain is in order stays so with every entry that is appended.
pub proof fn law_append_keeps_chain(
    s: Seq<EntryView>,
    timestamp: u64,
    user_id: u64,
    op: AuditOp,
    resource: Seq<char>,
    rows_affected: u64,
    detail: Seq<char>,
)
    requires
        chain_ok(s),
    ensures
        chain_ok(s.push(next_entry(s, timestamp, user_id, op, resource, rows_affected, detail))),
{
    let e = next_entry(s, timestamp, user_id, op, resource, rows_affected, detail);
    let t = s.push(e);
    assert forall|i: int| 0 <= i < t.len() implies #[trigger] entry_ok(t, i) by {
        if i < s.len() {
            assert(entry_ok(s, i));
            assert(t[i] == s[i]);
        } else {
            assert(entry_bytes(t[i]) =~= entry_bytes(e));
        }
    }
}

/// A changed entry shows: where the bytes of an entry's fields no longer have
/// the stored digest, the chain is broken.
pub proof fn law_changed_entry_shows(s: Seq<EntryView>, i: int, changed: EntryView)
    requires
        chain_ok(s),
        0 <= i < s.len(),
        changed.entry_hash == s[i].entry_hash,
        blake3_of(entry_bytes(changed)) != s[i].entry_hash,
    ensures
        !chain_ok(s.update(i, changed)),
{
    assert(!entry_ok(s.update(i, changed), i));
}

/// Removing an entry shows: the entry behind it no longer points to the one
/// before it, unless the two have the same digest.
pub proof fn law_removed_entry_shows(s: Seq<EntryView>, i: int)
    requires
        chain_ok(s),
        0 <= i < s.len() - 1,
        link(s, i) != s[i].entry_hash,
    ensures
        !chain_ok(s.remove(i)),
{
    let t = s.remove(i);
    assert(entry_ok(s, i + 1));
    assert(t[i] == s[i + 1]);
    assert(link(t, i) == link(s, i));
    assert(!entry_ok(t, i));
}

/// Checks the chain of some entries. Gives the sequence number of the first
/// entry that is out of order.
pub fn verify_entries(entries: &Vec<AuditEntry>) -> (r: Result<(), u64>)
    ensures
        match r {
            Ok(_) => chain_ok(entry_views(entries@)),
            Err(seq_no) => first_bad(entry_views(entries@), seq_no),
        },
{
    let ghost s = entry_views(entries@);
    let empty: Vec<u8> = Vec::new();
    assert(empty@ =~= seq![]);
    let mut prev_hash: Digest = blake3_hash(empty.as_slice());
    let mut i: usize = 0;
    while i < entries.len()
        invariant
            i <= entries@.len(),
            s == entry_views(entries@),
            prev_hash == link(s, i as int),
            forall|j: int| 0 <= j < i ==> #[trigger] entry_ok(s, j),
        decreases entries@.len() - i,
    {
        let e: &AuditEntry = &entries[i];
        assert(s[i as int] == e@);
        if !same_hash(&e.prev_hash, &prev_hash) {
            assert(!entry_ok(s, i as int));
            return Err(e.sequence);
        }
        let computed: Digest = e.compute_hash();
        if !same_hash(&e.entry_hash, &computed) {
            assert(!entry_ok(s, i as int));
            return Err(e.sequence);
        }
        prev_hash = e.entry_hash;
        i = i + 1;
    }
    Ok(())
}

/// The log.
pub struct AuditLog {
    entries: Vec<AuditEntry>,
}

impl View for AuditLog {
    type V = Seq<EntryView>;

    closed spec fn view(&self) -> Seq<EntryView> {
        entry_views(self.entries@)
    }
}

impl AuditLog {
    /// An empty log.
    pub fn new() -> (res: Self)
        ensures
            res@ == Seq::<EntryView>::empty(),
    {
        let res = AuditLog { entries: Vec::new() };
        assert(res@ =~= Seq::<EntryView>::empty());
        res
    }

    /// Appends an entry with the given time. Returns its sequence number.
    pub fn append_at(
        &mut self,
        timestamp: u64,
        user_id: u64,
        op: AuditOp,
        resource: &str,
        rows_affected: u64,
        detail: &str,
    ) -> (r: u64)
        requires
            old(self)@.len() < u64::MAX,
        ensures
            final(self)@ == old(self)@.push(
                next_entry(
                    old(self)@,
                    timestamp,
                    user_id,
                    op,
                    resource@,
                    rows_affected,
                    detail@,
                ),
            ),
            r == old(self)@.len() + 1,
    {
        let ghost s = self@;
        let n: usize = self.entries.len();
        let sequence: u64 = n as u64 + 1;
        let prev_hash: Digest = if n > 0 {
            assert(s[n - 1] == self.entries@[n - 1]@);
            self.entries[n - 1].entry_hash
        } else {
            let empty: Vec<u8> = Vec::new();
            assert(empty@ =~= seq![]);
            blake3_hash(empty.as_slice())
        };
        let mut entry: AuditEntry = AuditEntry {
            sequence,
            timestamp,
            user_id,
            op,
            resource: resource.to_owned(),
            rows_affected,
            detail: detail.to_owned(),
            prev_hash,
            entry_hash: prev_hash,
        };
        let h: Digest = entry.compute_hash();
        entry.entry_hash = h;
        let ghost before = self.entries@;
        let ghost e = entry@;
        self.entries.push(entry);
        assert(entry_views(self.entries@) =~= entry_views(before).push(e));
        sequence
    }

    /// Appends an entry with the present time. Returns its sequence number.
    pub fn append(
        &mut self,
        user_id: u64,
        op: AuditOp,
        resource: &str,
        rows_affected: u64,
        detail: &str,
    ) -> (r: u64)
        requires
            old(self)@.len() < u64::MAX,
        ensures
            exists|timestamp: u64|
                final(self)@ == old(self)@.push(
                    #[trigger] next_entry(
                        old(self)@,
                        timestamp,
                        user_id,
                        op,
                        resource@,
                        rows_affected,
                        detail@,
                    ),
                ),
            r == old(self)@.len() + 1,
    {
        let timestamp: u64 = now_secs();
        self.append_at(timestamp, user_id, op, resource, rows_affected, detail)
    }

    /// Checks the chain. Gives the sequence number of the first entry that is
    /// out of order.
    pub fn verify_chain(&self) -> (r: Result<(), u64>)
        ensures
            match r {
                Ok(_) => chain_ok(self@),
                Err(seq_no) => first_bad(self@, seq_no),
            },
    {
        verify_entries(&self.entries)
    }

    /// All entries.
    pub fn entries(&self) -> (r: Vec<AuditEntry>)
        ensures
            entry_views(r@) == self@,
    {
        let ghost s = self@;
        let mut out: Vec<AuditEntry> = Vec::new();
        let mut i: usize = 0;
        assert(entry_views(out@) =~= s.take(0));
        while i < self.entries.len()
            invariant
                i <= self.entries@.len(),
                s == entry_views(self.entries@),
                entry_views(out@) == s.take(i as int),
            decreases self.entries@.len() - i,
        {
            let ghost before = out@;
            let e: AuditEntry = self.entries[i].clone();
            out.push(e);
            i = i + 1;
            assert(entry_views(out@) =~= entry_views(before).push(e@));
            assert(s.take(i as int) =~= s.take(i - 1).push(s[i - 1]));
        }
        assert(s.take(i as int) =~= s);
        out
    }

    /// The entries of a user.
    pub fn entries_for_user(&self, user_id: u64) -> (r: Vec<AuditEntry>)
        ensures
            entry_views(r@) == self@.filter(|e: EntryView| e.user_id == user_id),
    {
        let ghost s = self@;
        let ghost p = |e: EntryView| e.user_id == user_id;
        let mut out: Vec<AuditEntry> = Vec::new();
        let mut i: usize = 0;
        proof {
            reveal(Seq::filter);
            assert(entry_views(out@) =~= s.take(0).filter(p));
        }
        while i < self.entries.len()
            invariant
                i <= self.entries@.len(),
                s == entry_views(self.entries@),
                p == (|e: EntryView| e.user_id == user_id),
                entry_views(out@) == s.take(i as int).filter(p),
            decreases self.entries@.len() - i,
        {
            proof {
                assert(s.take(i + 1) =~= s.take(i as int).push(s[i as int]));
                lemma_filter_push(s.take(i as int), s[i as int], p);
            }
            if self.entries[i].user_id == user_id {
                let ghost before = out@;
                let e: AuditEntry = self.entries[i].clone();
                out.push(e);
                assert(entry_views(out@) =~= entry_views(before).push(e@));
            }
            i = i + 1;
        }
        assert(s.take(i as int) =~= s);
        out
    }

    /// The entries of a resource.
    pub fn entries_for_resource(&self, resource: &str) -> (r: Vec<AuditEntry>)
        ensures
            entry_views(r@) == self@.filter(|e: EntryView| e.resource == resource@),
    {
        let ghost s = self@;
        let ghost p = |e: EntryView| e.resource == resource@;
        let mut out: Vec<AuditEntry> = Vec::new();
        let mut i: usize = 0;
        proof {
            reveal(Seq::filter);
            assert(entry_views(out@) =~= s.take(0).filter(p));
        }
        while i < self.entries.len()
            invariant
                i <= self.entries@.len(),
                s == entry_views(self.entries@),
                p == (|e: EntryView| e.resource == resource@),
                entry_views(out@) == s.take(i as int).filter(p),
            decreases self.entries@.len() - i,
        {
            proof {
                assert(s.take(i + 1) =~= s.take(i as int).push(s[i as int]));
                lemma_filter_push(s.take(i as int), s[i as int], p);
            }
            if same_text(self.entries[i].resource.as_str(), resource) {
                let ghost before = out@;
                let e: AuditEntry = self.entries[i].clone();
                out.push(e);
                assert(entry_views(out@) =~= entry_views(before).push(e@));
            }
            i = i + 1;
        }
        assert(s.take(i as int) =~= s);
        out
    }

    /// The number of entries.
    pub fn len(&self) -> (r: usize)
        ensures
            r == self@.len(),
    {
        self.entries.len()
    }

    /// Drops the entries from before `ts`. Returns how many went.
    pub fn prune_older_than(&mut self, ts: u64) -> (r: usize)
        ensures
            final(self)@ == old(self)@.filter(|e: EntryView| e.timestamp >= ts),
            r == old(self)@.len() - final(self)@.len(),
    {
        let ghost s = self@;
        let ghost p = |e: EntryView| e.timestamp >= ts;
        let before: usize = self.entries.len();
        let mut out: Vec<AuditEntry> = Vec::new();
        let mut i: usize = 0;
        proof {
            reveal(Seq::filter);
            assert(entry_views(out@) =~= s.take(0).filter(p));
        }
        while i < self.entries.len()
            invariant
                i <= self.entries@.len(),
                *self == *old(self),
                s == entry_views(self.entries@),
                p == (|e: EntryView| e.timestamp >= ts),
                entry_views(out@) == s.take(i as int).filter(p),
            decreases self.entries@.len() - i,
        {
            proof {
                assert(s.take(i + 1) =~= s.take(i as int).push(s[i as int]));
                lemma_filter_push(s.take(i as int), s[i as int], p);
            }
            if self.entries[i].timestamp >= ts {
                let ghost earlier = out@;
                let e: AuditEntry = self.entries[i].clone();
                out.push(e);
                assert(entry_views(out@) =~= entry_views(earlier).push(e@));
            }
            i = i + 1;
        }
        proof {
            assert(s.take(i as int) =~= s);
            crate::sequences::lemma_filter_len(s, p);
            assert(out@.len() == entry_views(out@).len());
        }
        self.entries = out;
        before - self.entries.len()
    }

    /// Drops all entries.
    pub fn clear(&mut self)
        ensures
            final(self)@ == Seq::<EntryView>::empty(),
    {
        self.entries = Vec::new();
        assert(self@ =~= Seq::<EntryView>::empty());
    }
}

impl Default for AuditLog {
    fn default() -> (res: Self)
        ensures
            res@ == Seq::<EntryView>::empty(),
    {
        AuditLog::new()
    }
}

} // verus!
