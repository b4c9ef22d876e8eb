//! A Raft node: elections, the replicated log, commitment and snapshots.

use vstd::prelude::*;

use crate::bytes::{copy_range, push_bytes};
use crate::idmap::IdMap;
use crate::sequences::other_than;
use crate::text::bytes_equal;

verus! {

/// Node ID.
pub type NodeId = u64;

/// A replicated command.
#[derive(Clone, Debug)]
pub struct LogEntry {
    pub term: u64,
    pub index: u64,
    pub data: Vec<u8>,
}

/// The mathematical value of a [`LogEntry`].
#[verifier::ext_equal]
pub struct EntryView {
    pub term: u64,
    pub index: u64,
    pub data: Seq<u8>,
}

impl View for LogEntry {
    type V = EntryView;

    open spec fn view(&self) -> EntryView {
        EntryView { term: self.term, index: self.index, data: self.data@ }
    }
}

/// The mathematical value of a log.
pub open spec fn log_view(log: Seq<LogEntry>) -> Seq<EntryView> {
    log.map_values(|e: LogEntry| e@)
}

/// The mathematical value of a list of entries.
pub open spec fn entry_views(list: Seq<&LogEntry>) -> Seq<EntryView> {
    list.map_values(|e: &LogEntry| e@)
}

impl LogEntry {
    /// A copy of the entry.
    pub fn copy(&self) -> (r: Self)
        ensures
            r@ == self@,
    {
        let data: Vec<u8> = copy_range(self.data.as_slice(), 0, self.data.len());
        assert(data@ =~= self.data@);
        LogEntry { term: self.term, index: self.index, data }
    }

    /// Whether two entries are the same.
    pub fn same(&self, other: &Self) -> (r: bool)
        ensures
            r == (self@ == other@),
    {
        self.term == other.term && self.index == other.index && bytes_equal(
            self.data.as_slice(),
            other.data.as_slice(),
        )
    }
}

/// What a node does in its cluster.
#[derive(Copy, Clone, Debug, Eq, PartialEq, Structural)]
pub enum NodeRole {
    Follower,
    Candidate,
    Leader,
}

/// The state machine up to an entry of the log.
#[derive(Clone, Debug)]
pub struct RaftSnapshot {
    /// The index of the last entry.
    pub last_included_index: u64,
    /// The term of the last entry.
    pub last_included_term: u64,
    /// The data of the entries, each followed by a line feed.
    pub data: Vec<u8>,
}

/// The mathematical value of a [`RaftSnapshot`].
#[verifier::ext_equal]
pub struct SnapshotView {
    pub last_included_index: u64,
    pub last_included_term: u64,
    pub data: Seq<u8>,
}

impl View for RaftSnapshot {
    type V = SnapshotView;

    open spec fn view(&self) -> SnapshotView {
        SnapshotView {
            last_included_index: self.last_included_index,
            last_included_term: self.last_included_term,
            data: self.data@,
        }
    }
}

/// A Raft node.
pub struct RaftNode {
    pub id: NodeId,
    pub role: NodeRole,
    pub current_term: u64,
    pub voted_for: Option<NodeId>,
    pub log: Vec<LogEntry>,
    pub commit_index: u64,
    pub last_applied: u64,
    /// Of a leader: the next index to send to each follower.
    pub next_index: IdMap<u64>,
    /// Of a leader: the highest index that each follower has.
    pub match_index: IdMap<u64>,
    /// The votes in the current election.
    pub votes_received: u32,
    /// The other members of the cluster.
    pub peers: Vec<NodeId>,
}

/// The mathematical value of a [`RaftNode`].
#[verifier::ext_equal]
pub struct NodeView {
    pub id: u64,
    pub role: NodeRole,
    pub current_term: u64,
    pub voted_for: Option<u64>,
    pub log: Seq<EntryView>,
    pub commit_index: u64,
    pub last_applied: u64,
    pub next_index: Map<u64, u64>,
    pub match_index: Map<u64, u64>,
    pub votes_received: u32,
    pub peers: Seq<u64>,
}

/// Every peer with the same number.
pub open spec fn for_all_peers(m: Map<u64, u64>, peers: Seq<u64>, n: u64) -> Map<u64, u64> {
    Map::new(
        |k: u64| m.dom().contains(k) || peers.contains(k),
        |k: u64|
            if peers.contains(k) {
                n
            } else {
                m[k]
            },
    )
}

/// The followers that have an index.
pub open spec fn holders(m: Map<u64, u64>, n: u64) -> Set<u64> {
    Set::new(|k: u64| m.dom().contains(k) && m[k] >= n)
}

/// The highest index above `low` and up to `n` that a majority has, the leader
/// counted; `low` where there is none.
pub open spec fn agreed(m: Map<u64, u64>, low: u64, n: u64, majority: nat) -> u64
    decreases n,
{
    if n <= low {
        low
    } else if 1 + holders(m, n).len() >= majority {
        n
    } else {
        agreed(m, low, (n - 1) as u64, majority)
    }
}

impl NodeView {
    /// How many votes of a cluster of this node and its peers are a majority.
    pub open spec fn majority(self) -> nat {
        ((self.peers.len() + 1) / 2 + 1) as nat
    }

    /// After starting an election.
    pub open spec fn candidate(self) -> NodeView {
        NodeView {
            role: NodeRole::Candidate,
            current_term: (self.current_term + 1) as u64,
            voted_for: Some(self.id),
            votes_received: 1,
            ..self
        }
    }

    /// After becoming the leader.
    pub open spec fn leading(self) -> NodeView {
        NodeView {
            role: NodeRole::Leader,
            next_index: for_all_peers(self.next_index, self.peers, (self.log.len() + 1) as u64),
            match_index: for_all_peers(self.match_index, self.peers, 0),
            ..self
        }
    }

    /// After a vote for a candidate.
    pub open spec fn with_vote(self) -> NodeView {
        if self.role != NodeRole::Candidate {
            self
        } else {
            let counted = NodeView {
                votes_received: (self.votes_received + 1) as u32,
                ..self
            };
            if counted.votes_received >= self.majority() {
                counted.leading()
            } else {
                counted
            }
        }
    }

    /// The entry that a leader appends.
    pub open spec fn next_entry(self, data: Seq<u8>) -> EntryView {
        EntryView { term: self.current_term, index: (self.log.len() + 1) as u64, data }
    }

    /// After a leader appended an entry.
    pub open spec fn appended(self, data: Seq<u8>) -> NodeView {
        NodeView { log: self.log.push(self.next_entry(data)), ..self }
    }

    /// After a follower told a leader that it has an index. The leader commits
    /// the highest index that a majority has, if it is of the current term.
    pub open spec fn acknowledged(self, follower: u64, index: u64) -> NodeView {
        if self.role != NodeRole::Leader {
            self
        } else {
            let m = self.match_index.insert(follower, index);
            let n = agreed(m, self.commit_index, self.log.len() as u64, self.majority());
            NodeView {
                match_index: m,
                next_index: self.next_index.insert(follower, (index + 1) as u64),
                commit_index: if n > self.commit_index && self.log[n - 1].term
                    == self.current_term {
                    n
                } else {
                    self.commit_index
                },
                ..self
            }
        }
    }

    /// The entries that are committed and not yet applied.
    pub open spec fn to_apply(self) -> Seq<EntryView> {
        let from = if self.last_applied <= self.log.len() {
            self.last_applied as int
        } else {
            self.log.len() as int
        };
        let to = if self.commit_index <= self.log.len() {
            self.commit_index as int
        } else {
            self.log.len() as int
        };
        if from < to {
            self.log.subrange(from, to)
        } else {
            seq![]
        }
    }

    /// After the committed entries were applied.
    pub open spec fn applied(self) -> NodeView {
        NodeView {
            last_applied: if self.last_applied < self.commit_index {
                self.commit_index
            } else {
                self.last_applied
            },
            ..self
        }
    }

    /// The snapshot of the committed entries.
    pub open spec fn snapshot(self) -> SnapshotView {
        SnapshotView {
            last_included_index: self.commit_index,
            last_included_term: if self.commit_index > 0 {
                self.log[self.commit_index - 1].term
            } else {
                0
            },
            data: snapshot_data(self.log.take(self.commit_index as int)),
        }
    }

    /// After the snapshot's entries were taken out of the log.
    pub open spec fn truncated(self) -> NodeView {
        NodeView { log: self.log.skip(self.commit_index as int), ..self }
    }

    /// After a snapshot was installed: its entries are gone from the log. One
    /// that is no news changes nothing.
    pub open spec fn installed(self, s: SnapshotView) -> NodeView {
        if s.last_included_index <= self.commit_index {
            self
        } else {
            NodeView {
                log: if s.last_included_index <= self.log.len() {
                    self.log.skip(s.last_included_index as int)
                } else {
                    seq![]
                },
                commit_index: s.last_included_index,
                last_applied: s.last_included_index,
                ..self
            }
        }
    }

    /// With one more peer.
    pub open spec fn with_peer(self, peer: u64) -> NodeView {
        if self.peers.contains(peer) {
            self
        } else if self.role == NodeRole::Leader {
            NodeView {
                peers: self.peers.push(peer),
                next_index: self.next_index.insert(peer, (self.log.len() + 1) as u64),
                match_index: self.match_index.insert(peer, 0),
                ..self
            }
        } else {
            NodeView { peers: self.peers.push(peer), ..self }
        }
    }

    /// Without a peer.
    pub open spec fn without_peer(self, peer: u64) -> NodeView {
        NodeView {
            peers: self.peers.filter(other_than(peer)),
            next_index: self.next_index.remove(peer),
            match_index: self.match_index.remove(peer),
            ..self
        }
    }
}

/// The data of entries, each followed by a line feed.
pub open spec fn snapshot_data(log: Seq<EntryView>) -> Seq<u8>
    decreases log.len(),
{
    if log.len() == 0 {
        seq![]
    } else {
        snapshot_data(log.drop_last()) + log.last().data + seq![10u8]
    }
}

/// A node that was just made.
pub open spec fn new_node(id: u64, peers: Seq<u64>) -> NodeView {
    NodeView {
        id,
        role: NodeRole::Follower,
        current_term: 0,
        voted_for: None,
        log: seq![],
        commit_index: 0,
        last_applied: 0,
        next_index: Map::empty(),
        match_index: Map::empty(),
        votes_received: 0,
        peers,
    }
}

impl View for RaftNode {
    type V = NodeView;

    open spec fn view(&self) -> NodeView {
        NodeView {
            id: self.id,
            role: self.role,
            current_term: self.current_term,
            voted_for: self.voted_for,
            log: log_view(self.log@),
            commit_index: self.commit_index,
            last_applied: self.last_applied,
            next_index: self.next_index@,
            match_index: self.match_index@,
            votes_received: self.votes_received,
            peers: self.peers@,
        }
    }
}

impl RaftNode {
    /// No follower is listed twice, and the next index is a number that the
    /// machine holds.
    pub open spec fn wf(&self) -> bool {
        self.next_index.wf() && self.match_index.wf() && self.log@.len() < u64::MAX
    }

    /// A follower with an empty log.
    pub fn new(id: NodeId, peers: Vec<NodeId>) -> (res: Self)
        ensures
            res.wf(),
            res@ == new_node(id, peers@),
    {
        let res = RaftNode {
            id,
            role: NodeRole::Follower,
            current_term: 0,
            voted_for: None,
            log: Vec::new(),
            commit_index: 0,
            last_applied: 0,
            next_index: IdMap::new(),
            match_index: IdMap::new(),
            votes_received: 0,
            peers,
        };
        assert(res@ =~= new_node(id, peers@));
        res
    }

    /// Starts an election: the node becomes a candidate in the next term and
    /// votes for itself.
    pub fn start_election(&mut self)
        requires
            old(self).wf(),
            old(self).current_term < u64::MAX,
        ensures
            final(self).wf(),
            final(self)@ == old(self)@.candidate(),
    {
        self.role = NodeRole::Candidate;
        self.current_term = self.current_term + 1;
        self.voted_for = Some(self.id);
        self.votes_received = 1;
    }

    /// Counts a vote. Returns whether it makes the node the leader.
    pub fn receive_vote(&mut self) -> (r: bool)
        requires
            old(self).wf(),
            old(self).votes_received < u32::MAX,
        ensures
            final(self).wf(),
            final(self)@ == old(self)@.with_vote(),
            r == (old(self)@.role == NodeRole::Candidate && final(self)@.role == NodeRole::Leader),
    {
        if self.role != NodeRole::Candidate {
            return false;
        }
        self.votes_received = self.votes_received + 1;
        let n: usize = self.peers.len();
        let majority: usize = n / 2 + n % 2 + 1;
        if self.votes_received as u64 >= majority as u64 {
            self.become_leader();
            return true;
        }
        false
    }

    /// Makes the node the leader.
    pub fn become_leader(&mut self)
        requires
            old(self).wf(),
        ensures
            final(self).wf(),
            final(self)@ == old(self)@.leading(),
    {
        let ghost before = self@;
        self.role = NodeRole::Leader;
        let next: u64 = self.log.len() as u64 + 1;
        let mut i: usize = 0;
        proof {
            assert(self.peers@.take(0) =~= seq![]);
            assert(before.next_index =~= for_all_peers(before.next_index, seq![], next));
            assert(before.match_index =~= for_all_peers(before.match_index, seq![], 0));
        }
        while i < self.peers.len()
            invariant
                i <= self.peers@.len(),
                self.wf(),
                next == before.log.len() + 1,
                self@ == (NodeView {
                    role: NodeRole::Leader,
                    next_index: for_all_peers(
                        before.next_index,
                        before.peers.take(i as int),
                        next,
                    ),
                    match_index: for_all_peers(before.match_index, before.peers.take(i as int), 0),
                    ..before
                }),
            decreases self.peers@.len() - i,
        {
            let peer: NodeId = self.peers[i];
            let ghost done = before.peers.take(i as int);
            let ghost more = before.peers.take(i + 1);
            self.next_index.insert(peer, next);
            self.match_index.insert(peer, 0);
            proof {
                assert(more =~= done.push(peer));
                assert forall|k: u64| more.contains(k) <==> done.contains(k) || k == peer by {
                    if done.contains(k) {
                        let j = done.index_of(k);
                        assert(more[j] == k);
                    }
                    assert(more[i as int] == peer);
                    if more.contains(k) && k != peer {
                        let j = more.index_of(k);
                        assert(done[j] == k);
                    }
                }
                assert(self@.next_index =~= for_all_peers(before.next_index, more, next));
                assert(self@.match_index =~= for_all_peers(before.match_index, more, 0));
            }
            i = i + 1;
        }
        assert(before.peers.take(i as int) =~= before.peers);
    }

    /// Appends an entry, on a leader. Returns its index; 0 on other nodes.
    pub fn append_entry(&mut self, data: Vec<u8>) -> (r: u64)
        requires
            old(self).wf(),
            old(self).log@.len() + 1 < u64::MAX,
        ensures
            final(self).wf(),
            if old(self)@.role == NodeRole::Leader {
                r == old(self)@.log.len() + 1 && final(self)@ == old(self)@.appended(data@)
            } else {
                r == 0 && final(self)@ == old(self)@
            },
    {
        if self.role != NodeRole::Leader {
            return 0;
        }
        let ghost before = self@;
        let index: u64 = self.log.len() as u64 + 1;
        let entry: LogEntry = LogEntry { term: self.current_term, index, data };
        self.log.push(entry);
        assert(log_view(self.log@) =~= before.log.push(before.next_entry(data@)));
        index
    }

    fn count_holders(&self, n: u64) -> (r: usize)
        requires
            self.match_index.wf(),
        ensures
            r == holders(self.match_index@, n).len(),
            holders(self.match_index@, n).finite(),
    {
        let ghost m = self.match_index@;
        let ghost keys = self.match_index.key_seq();
        let ghost p = |k: u64| m[k] >= n;
        let mut count: usize = 0;
        let mut i: usize = 0;
        assert(keys.take(0).to_set().filter(p) =~= Set::empty());
        while i < self.match_index.len()
            invariant
                i <= keys.len(),
                self.match_index.wf(),
                m == self.match_index@,
                keys == self.match_index.key_seq(),
                p == (|k: u64| m[k] >= n),
                count <= i,
                keys.take(i as int).to_set().filter(p).finite(),
                count == keys.take(i as int).to_set().filter(p).len(),
            decreases keys.len() - i,
        {
            proof {
                self.match_index.lemma_at(i as int);
                let done = keys.take(i as int);
                let more = keys.take(i + 1);
                let k = keys[i as int];
                assert(more =~= done.push(k));
                assert(!done.contains(k)) by {
                    if done.contains(k) {
                        let j = done.index_of(k);
                        assert(keys[j] == keys[i as int]);
                    }
                }
                assert forall|x: u64| more.contains(x) <==> done.contains(x) || x == k by {
                    if done.contains(x) {
                        let j = done.index_of(x);
                        assert(more[j] == x);
                    }
                    assert(more[i as int] == k);
                    if more.contains(x) && x != k {
                        let j = more.index_of(x);
                        assert(done[j] == x);
                    }
                }
                if m[k] >= n {
                    assert(more.to_set().filter(p) =~= done.to_set().filter(p).insert(k));
                } else {
                    assert(more.to_set().filter(p) =~= done.to_set().filter(p));
                }
            }
            if *self.match_index.value_at(i) >= n {
                count = count + 1;
            }
            i = i + 1;
        }
        proof {
            assert(keys.take(i as int) =~= keys);
            assert(keys.to_set().filter(p) =~= holders(m, n));
        }
        count
    }

    /// Takes note that a follower has an index, on a leader, and commits what a
    /// majority has.
    pub fn acknowledge(&mut self, follower: NodeId, index: u64)
        requires
            old(self).wf(),
            index < u64::MAX,
        ensures
            final(self).wf(),
            final(self)@ == old(self)@.acknowledged(follower, index),
    {
        if self.role != NodeRole::Leader {
            return;
        }
        let ghost before = self@;
        self.match_index.insert(follower, index);
        self.next_index.insert(follower, index + 1);
        let others: usize = self.peers.len() / 2 + self.peers.len() % 2;
        let mut n: u64 = self.log.len() as u64;
        let ghost m = self.match_index@;
        let ghost top = n;
        while n > self.commit_index
            invariant_except_break
                agreed(m, before.commit_index, top, before.majority()) == agreed(
                    m,
                    before.commit_index,
                    n,
                    before.majority(),
                ),
            invariant
                self.wf(),
                self.match_index@ == m,
                others + 1 == before.majority(),
                top == before.log.len(),
                n <= top,
                self@ == (NodeView {
                    match_index: m,
                    next_index: before.next_index.insert(follower, (index + 1) as u64),
                    ..before
                }),
            ensures
                if n > before.commit_index {
                    agreed(m, before.commit_index, top, before.majority()) == n
                } else {
                    agreed(m, before.commit_index, top, before.majority()) == before.commit_index
                },
            decreases n,
        {
            let count: usize = self.count_holders(n);
            if count >= others {
                break;
            }
            n = n - 1;
        }
        if n > self.commit_index && self.log[(n - 1) as usize].term == self.current_term {
            self.commit_index = n;
        }
        assert(self@ =~= before.acknowledged(follower, index));
    }

    /// Applies the committed entries that were not applied yet, and returns
    /// them.
    pub fn apply_committed(&mut self) -> (r: Vec<&LogEntry>)
        requires
            old(self).wf(),
        ensures
            final(self).wf(),
            entry_views(r@) == old(self)@.to_apply(),
            final(self)@ == old(self)@.applied(),
    {
        let ghost before = self@;
        let start: u64 = self.last_applied;
        if self.last_applied < self.commit_index {
            self.last_applied = self.commit_index;
        }
        assert(self@ =~= before.applied());
        let log: &Vec<LogEntry> = &self.log;
        let n: usize = log.len();
        let end: u64 = if self.commit_index <= n as u64 {
            self.commit_index
        } else {
            n as u64
        };
        let mut out: Vec<&LogEntry> = Vec::new();
        let mut i: u64 = start;
        assert(entry_views(out@) =~= seq![]);
        while i < end
            invariant
                log_view(log@) == before.log,
                n == before.log.len(),
                end <= n,
                start <= i,
                i <= end || i == start,
                i <= end ==> entry_views(out@) == before.log.subrange(start as int, i as int),
                i > end ==> out@.len() == 0,
            decreases end - i,
        {
            let ghost done = entry_views(out@);
            out.push(&log[i as usize]);
            i = i + 1;
            assert(entry_views(out@) =~= done.push(before.log[i - 1]));
            assert(before.log.subrange(start as int, i as int) =~= before.log.subrange(
                start as int,
                i - 1,
            ).push(before.log[i - 1]));
        }
        assert(entry_views(out@) =~= before.to_apply());
        out
    }

    /// Whether the node is the leader.
    pub fn is_leader(&self) -> (r: bool)
        ensures
            r == (self@.role == NodeRole::Leader),
    {
        self.role == NodeRole::Leader
    }

    /// The number of entries in the log.
    pub fn log_len(&self) -> (r: usize)
        ensures
            r == self@.log.len(),
    {
        self.log.len()
    }

    fn drop_entries(&mut self, n: usize)
        requires
            old(self).wf(),
            n <= old(self).log@.len(),
        ensures
            final(self).wf(),
            final(self)@ == (NodeView { log: old(self)@.log.skip(n as int), ..old(self)@ }),
    {
        let ghost before = self@;
        let mut rest: Vec<LogEntry> = Vec::new();
        let mut i: usize = n;
        while i < self.log.len()
            invariant
                n <= i <= self.log@.len(),
                self@ == before,
                self.wf(),
                rest@.len() == i - n,
                forall|k: int| 0 <= k < rest@.len() ==> (#[trigger] rest@[k])@ == before.log[n + k],
            decreases self.log@.len() - i,
        {
            rest.push(self.log[i].copy());
            i = i + 1;
        }
        assert(log_view(rest@) =~= before.log.skip(n as int));
        self.log = rest;
    }

    /// Takes a snapshot of the committed entries and takes them out of the log.
    pub fn create_snapshot(&mut self) -> (r: RaftSnapshot)
        requires
            old(self).wf(),
            old(self).commit_index <= old(self).log@.len(),
        ensures
            final(self).wf(),
            r@ == old(self)@.snapshot(),
            final(self)@ == old(self)@.truncated(),
    {
        let ghost before = self@;
        let len: usize = self.log.len();
        let last: u64 = self.commit_index;
        let term: u64 = if last > 0 {
            self.log[(last - 1) as usize].term
        } else {
            0
        };
        let mut data: Vec<u8> = Vec::new();
        let mut i: usize = 0;
        assert(before.log.take(0) =~= seq![]);
        while (i as u64) < last
            invariant
                i <= last <= len,
                self@ == before,
                self.wf(),
                len == before.log.len(),
                data@ == snapshot_data(before.log.take(i as int)),
            decreases last - i,
        {
            push_bytes(&mut data, self.log[i].data.as_slice());
            data.push(10);
            proof {
                assert(before.log.take(i + 1).drop_last() =~= before.log.take(i as int));
                assert(before.log.take(i + 1).last() == before.log[i as int]);
                assert(data@ =~= snapshot_data(before.log.take(i + 1)));
            }
            i = i + 1;
        }
        self.drop_entries(last as usize);
        RaftSnapshot { last_included_index: last, last_included_term: term, data }
    }

    /// Installs a snapshot that is ahead of what the node has committed.
    pub fn install_snapshot(&mut self, snapshot: &RaftSnapshot)
        requires
            old(self).wf(),
        ensures
            final(self).wf(),
            final(self)@ == old(self)@.installed(snapshot@),
    {
        let last: u64 = snapshot.last_included_index;
        if last <= self.commit_index {
            return;
        }
        if last <= self.log.len() as u64 {
            self.drop_entries(last as usize);
        } else {
            self.log = Vec::new();
            assert(self@.log =~= seq![]);
        }
        self.commit_index = last;
        self.last_applied = last;
    }

    /// Adds a peer, if it is not there.
    pub fn add_peer(&mut self, peer_id: NodeId)
        requires
            old(self).wf(),
        ensures
            final(self).wf(),
            final(self)@ == old(self)@.with_peer(peer_id),
    {
        let mut i: usize = 0;
        while i < self.peers.len()
            invariant
                i <= self.peers@.len(),
                *self == *old(self),
                self.wf(),
                forall|k: int| 0 <= k < i ==> #[trigger] self.peers@[k] != peer_id,
            decreases self.peers@.len() - i,
        {
            if self.peers[i] == peer_id {
                assert(self@.peers.contains(peer_id));
                return;
            }
            i = i + 1;
        }
        assert(!self@.peers.contains(peer_id));
        self.peers.push(peer_id);
        if self.role == NodeRole::Leader {
            self.next_index.insert(peer_id, self.log.len() as u64 + 1);
            self.match_index.insert(peer_id, 0);
        }
        assert(self@ =~= old(self)@.with_peer(peer_id));
    }

    /// Removes a peer, if it is there.
    pub fn remove_peer(&mut self, peer_id: NodeId)
        requires
            old(self).wf(),
        ensures
            final(self).wf(),
            final(self)@ == old(self)@.without_peer(peer_id),
    {
        let ghost before = self@;
        let ghost keep = other_than(peer_id);
        let mut rest: Vec<NodeId> = Vec::new();
        let mut i: usize = 0;
        assert(rest@ =~= before.peers.take(0).filter(keep)) by {
            reveal(Seq::filter);
        }
        while i < self.peers.len()
            invariant
                i <= self.peers@.len(),
                self@ == before,
                self.wf(),
                keep == other_than(peer_id),
                rest@ == before.peers.take(i as int).filter(keep),
            decreases self.peers@.len() - i,
        {
            proof {
                reveal(Seq::filter);
                assert(before.peers.take(i + 1).drop_last() =~= before.peers.take(i as int));
                assert(before.peers.take(i + 1).last() == before.peers[i as int]);
            }
            if self.peers[i] != peer_id {
                rest.push(self.peers[i]);
            }
            i = i + 1;
        }
        assert(before.peers.take(i as int) =~= before.peers);
        self.peers = rest;
        let _n: bool = self.next_index.remove(peer_id);
        let _m: bool = self.match_index.remove(peer_id);
        assert(self@ =~= before.without_peer(peer_id));
    }
}

} // verus!
