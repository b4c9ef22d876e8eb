//! The state of a message transport, frames, failover and read routing.
//!
//! Times are in nanoseconds from some start that the caller picks.

use vstd::prelude::*;

use crate::bytes::{
    copy_range, get_le32, law_le32_round_trip, le32, push_bytes, push_le32, read_le32,
};
use crate::idmap::IdMap;
use crate::replication::node::{LogEntry, NodeId};
use crate::sequences::other_than;
use crate::text::{decimal, decimal_string};

verus! {

/// What Raft nodes tell each other.
#[derive(Clone, Debug)]
pub enum RaftMessage {
    /// A candidate asks for a vote.
    VoteRequest { term: u64, candidate_id: NodeId, last_log_index: u64, last_log_term: u64 },
    /// The answer to a candidate.
    VoteResponse { term: u64, vote_granted: bool },
    /// A leader sends entries, or none as a heartbeat.
    AppendEntriesRequest {
        term: u64,
        leader_id: NodeId,
        prev_log_index: u64,
        prev_log_term: u64,
        entries: Vec<LogEntry>,
        leader_commit: u64,
    },
    /// The answer to a leader.
    AppendEntriesResponse { term: u64, success: bool, match_index: u64 },
    /// A node tells that it leads.
    LeaderPromotion { node_id: NodeId, term: u64 },
}

/// Where a peer listens.
#[derive(Clone, Debug)]
pub struct PeerAddr {
    pub node_id: NodeId,
    pub addr: String,
}

/// A message as it is sent: its length as a little-endian 32-bit number, then
/// its bytes.
pub open spec fn framed(body: Seq<u8>) -> Seq<u8> {
    le32(body.len() as u32) + body
}

/// The message that a frame at the start of some bytes holds; `None` where
/// bytes are missing.
pub open spec fn unframed(data: Seq<u8>) -> Option<Seq<u8>> {
    if data.len() < 4 || data.len() < 4 + read_le32(data, 0) {
        None
    } else {
        Some(data.subrange(4, 4 + read_le32(data, 0)))
    }
}

/// Frames a message.
pub fn frame(body: &[u8]) -> (r: Vec<u8>)
    requires
        body@.len() <= u32::MAX,
    ensures
        r@ == framed(body@),
{
    let mut out: Vec<u8> = Vec::new();
    push_le32(&mut out, body.len() as u32);
    push_bytes(&mut out, body);
    assert(out@ =~= framed(body@));
    out
}

/// The length that the first four bytes of a frame give.
pub fn frame_len(prefix: &[u8]) -> (r: u32)
    requires
        prefix@.len() == 4,
    ensures
        r == read_le32(prefix@, 0),
{
    get_le32(prefix, 0)
}

/// The message that a frame at the start of some bytes holds; `None` where
/// bytes are missing.
pub fn unframe(data: &[u8]) -> (r: Option<Vec<u8>>)
    ensures
        match r {
            Some(b) => unframed(data@) == Some(b@),
            None => unframed(data@) is None,
        },
{
    let n: usize = data.len();
    if n < 4 {
        return None;
    }
    let len: u32 = get_le32(data, 0);
    if (n as u64) < 4 + len as u64 {
        return None;
    }
    let body: Vec<u8> = copy_range(data, 4, 4 + len as usize);
    assert(body@ =~= data@.subrange(4, 4 + len));
    Some(body)
}

/// A framed message is read back, whatever follows it.
pub proof fn law_frame_round_trip(body: Seq<u8>, rest: Seq<u8>)
    requires
        body.len() <= u32::MAX,
    ensures
        unframed(framed(body) + rest) == Some(body),
{
    let data = framed(body) + rest;
    let n = body.len() as u32;
    assert(data.subrange(0, 4) =~= le32(n));
    law_le32_round_trip(n, data, 0);
    assert(data.subrange(4, 4 + n) =~= body);
}

/// The peers of a node and the messages that have come in.
pub struct TcpTransport {
    node_id: NodeId,
    listen_addr: String,
    peers: IdMap<String>,
    incoming: Vec<(NodeId, RaftMessage)>,
}

/// The mathematical value of a [`TcpTransport`].
#[verifier::ext_equal]
pub struct TransportView {
    pub node_id: u64,
    pub listen_addr: Seq<char>,
    /// The address of each peer.
    pub peers: Map<u64, Seq<char>>,
    /// The ids of the peers in the order in which they came.
    pub order: Seq<u64>,
    /// The messages that wait, with the id of the node that got them.
    pub incoming: Seq<(u64, RaftMessage)>,
}

/// Texts by id, as values.
pub open spec fn text_map(m: Map<u64, String>) -> Map<u64, Seq<char>> {
    Map::new(|k: u64| m.dom().contains(k), |k: u64| m[k]@)
}

impl View for TcpTransport {
    type V = TransportView;

    closed spec fn view(&self) -> TransportView {
        TransportView {
            node_id: self.node_id,
            listen_addr: self.listen_addr@,
            peers: text_map(self.peers@),
            order: self.peers.key_seq(),
            incoming: self.incoming@,
        }
    }
}

impl TcpTransport {
    /// No peer is listed twice.
    pub closed spec fn wf(&self) -> bool {
        self.peers.wf()
    }

    /// A transport without peers.
    pub fn new(node_id: NodeId, listen_addr: String) -> (res: Self)
        ensures
            res.wf(),
            res@ == (TransportView {
                node_id,
                listen_addr: listen_addr@,
                peers: Map::empty(),
                order: seq![],
                incoming: seq![],
            }),
    {
        let res = TcpTransport {
            node_id,
            listen_addr,
            peers: IdMap::new(),
            incoming: Vec::new(),
        };
        assert(res@.peers =~= Map::<u64, Seq<char>>::empty());
        res
    }

    /// Adds a peer, or gives a peer that is there another address.
    pub fn add_peer(&mut self, node_id: NodeId, addr: String)
        requires
            old(self).wf(),
        ensures
            final(self).wf(),
            final(self)@ == (TransportView {
                peers: old(self)@.peers.insert(node_id, addr@),
                order: if old(self)@.peers.dom().contains(node_id) {
                    old(self)@.order
                } else {
                    old(self)@.order.push(node_id)
                },
                ..old(self)@
            }),
    {
        let ghost text = addr@;
        self.peers.insert(node_id, addr);
        assert(self@.peers =~= old(self)@.peers.insert(node_id, text));
    }

    /// Removes a peer, if it is there.
    pub fn remove_peer(&mut self, node_id: NodeId)
        requires
            old(self).wf(),
        ensures
            final(self).wf(),
            final(self)@ == (TransportView {
                peers: old(self)@.peers.remove(node_id),
                order: old(self)@.order.filter(other_than(node_id)),
                ..old(self)@
            }),
    {
        let _there: bool = self.peers.remove(node_id);
        assert(self@.peers =~= old(self)@.peers.remove(node_id));
    }

    /// Where a message for a node is sent. Fails for a node that is no peer.
    pub fn address_of(&self, to: NodeId) -> (r: Result<&str, String>)
        requires
            self.wf(),
        ensures
            match r {
                Ok(a) => self@.peers.dom().contains(to) && a@ == self@.peers[to],
                Err(e) => !self@.peers.dom().contains(to) && e@ == "unknown peer "@ + decimal(
                    to as nat,
                ),
            },
    {
        match self.peers.get(to) {
            Some(a) => Ok(a.as_str()),
            None => {
                let mut text: String = "unknown peer ".to_owned();
                let id: String = decimal_string(to);
                text.append(id.as_str());
                Err(text)
            },
        }
    }

    /// Takes a message in.
    pub fn receive(&mut self, msg: RaftMessage)
        requires
            old(self).wf(),
        ensures
            final(self).wf(),
            final(self)@ == (TransportView {
                incoming: old(self)@.incoming.push((old(self)@.node_id, msg)),
                ..old(self)@
            }),
    {
        self.incoming.push((self.node_id, msg));
    }

    /// The messages that came in since the last call, in their order.
    pub fn poll_incoming(&mut self) -> (r: Vec<(NodeId, RaftMessage)>)
        requires
            old(self).wf(),
        ensures
            final(self).wf(),
            r@ == old(self)@.incoming,
            final(self)@ == (TransportView { incoming: seq![], ..old(self)@ }),
    {
        let mut out: Vec<(NodeId, RaftMessage)> = Vec::new();
        std::mem::swap(&mut out, &mut self.incoming);
        assert(self@.incoming =~= seq![]);
        out
    }

    /// The id of this node.
    pub fn node_id(&self) -> (r: NodeId)
        ensures
            r == self@.node_id,
    {
        self.node_id
    }

    /// Where this node listens.
    pub fn listen_addr(&self) -> (r: &str)
        ensures
            r@ == self@.listen_addr,
    {
        self.listen_addr.as_str()
    }

    /// The ids of the peers, each once.
    pub fn peer_ids(&self) -> (r: Vec<NodeId>)
        requires
            self.wf(),
        ensures
            r@ == self@.order,
            r@.no_duplicates(),
            forall|k: u64| r@.contains(k) <==> #[trigger] self@.peers.dom().contains(k),
    {
        let mut out: Vec<NodeId> = Vec::new();
        let mut i: usize = 0;
        while i < self.peers.len()
            invariant
                i <= self.peers.key_seq().len(),
                out@ == self.peers.key_seq().take(i as int),
            decreases self.peers.key_seq().len() - i,
        {
            out.push(self.peers.key_at(i));
            i = i + 1;
            assert(out@ =~= self.peers.key_seq().take(i as int));
        }
        assert(self.peers.key_seq().take(i as int) =~= self.peers.key_seq());
        out
    }
}

/// Watches the heartbeats of a leader.
pub struct FailoverManager {
    leader_id: Option<NodeId>,
    heartbeat_timeout: u64,
    last_heartbeat: u64,
}

impl FailoverManager {
    /// The leader.
    pub closed spec fn current_leader(&self) -> Option<u64> {
        self.leader_id
    }

    /// How long a leader may be silent.
    pub closed spec fn timeout(&self) -> u64 {
        self.heartbeat_timeout
    }

    /// When the last heartbeat came.
    pub closed spec fn heard_at(&self) -> u64 {
        self.last_heartbeat
    }

    /// No leader; the silence starts now.
    pub fn new(heartbeat_timeout: u64, now: u64) -> (res: Self)
        ensures
            res.current_leader() is None,
            res.timeout() == heartbeat_timeout,
            res.heard_at() == now,
    {
        FailoverManager { leader_id: None, heartbeat_timeout, last_heartbeat: now }
    }

    /// Sets the leader, which counts as a heartbeat.
    pub fn set_leader(&mut self, leader_id: NodeId, now: u64)
        ensures
            final(self).current_leader() == Some(leader_id),
            final(self).heard_at() == now,
            final(self).timeout() == old(self).timeout(),
    {
        self.leader_id = Some(leader_id);
        self.last_heartbeat = now;
    }

    /// Takes note of a heartbeat.
    pub fn record_heartbeat(&mut self, now: u64)
        ensures
            final(self).heard_at() == now,
            final(self).current_leader() == old(self).current_leader(),
            final(self).timeout() == old(self).timeout(),
    {
        self.last_heartbeat = now;
    }

    /// Whether the leader has been silent for longer than it may.
    pub fn check_failover(&self, now: u64) -> (r: bool)
        ensures
            r == (now > self.heard_at() + self.timeout()),
    {
        now > self.last_heartbeat && now - self.last_heartbeat > self.heartbeat_timeout
    }

    /// The leader, if there is one.
    pub fn leader(&self) -> (r: Option<NodeId>)
        ensures
            r == self.current_leader(),
    {
        self.leader_id
    }
}

/// Spreads reads over replicas, one after the other.
pub struct ReadRouter {
    replicas: Vec<NodeId>,
    next: usize,
}

impl ReadRouter {
    /// The replicas.
    pub closed spec fn replicas(&self) -> Seq<u64> {
        self.replicas@
    }

    /// How many reads were routed.
    pub closed spec fn served(&self) -> usize {
        self.next
    }

    /// A router for some replicas.
    pub fn new(replicas: Vec<NodeId>) -> (res: Self)
        ensures
            res.replicas() == replicas@,
            res.served() == 0,
    {
        ReadRouter { replicas, next: 0 }
    }

    /// Adds a replica.
    pub fn add_replica(&mut self, node_id: NodeId)
        ensures
            final(self).replicas() == old(self).replicas().push(node_id),
            final(self).served() == old(self).served(),
    {
        self.replicas.push(node_id);
    }

    /// Removes a replica, each time it is there.
    pub fn remove_replica(&mut self, node_id: NodeId)
        ensures
            final(self).replicas() == old(self).replicas().filter(
                other_than(node_id),
            ),
            final(self).served() == old(self).served(),
    {
        let ghost all = self.replicas@;
        let ghost keep = other_than(node_id);
        let mut rest: Vec<NodeId> = Vec::new();
        let mut i: usize = 0;
        assert(rest@ =~= all.take(0).filter(keep)) by {
            reveal(Seq::filter);
        }
        while i < self.replicas.len()
            invariant
                i <= self.replicas@.len(),
                self.replicas@ == all,
                self.next == old(self).next,
                keep == other_than(node_id),
                rest@ == all.take(i as int).filter(keep),
            decreases self.replicas@.len() - i,
        {
            proof {
                reveal(Seq::filter);
                assert(all.take(i + 1).drop_last() =~= all.take(i as int));
                assert(all.take(i + 1).last() == all[i as int]);
            }
            if self.replicas[i] != node_id {
                rest.push(self.replicas[i]);
            }
            i = i + 1;
        }
        assert(all.take(i as int) =~= all);
        self.replicas = rest;
    }

    /// The replica for the next read; `None` where there are no replicas.
    pub fn next_replica(&mut self) -> (r: Option<NodeId>)
        requires
            old(self).served() < usize::MAX,
        ensures
            final(self).replicas() == old(self).replicas(),
            if old(self).replicas().len() == 0 {
                r is None && final(self).served() == old(self).served()
            } else {
                r == Some(turn(old(self).replicas(), old(self).served() as nat)) && final(
                    self).served() == old(self).served() + 1
            },
    {
        if self.replicas.len() == 0 {
            return None;
        }
        let replica: NodeId = self.replicas[self.next % self.replicas.len()];
        self.next = self.next + 1;
        Some(replica)
    }

    /// The number of replicas.
    pub fn replica_count(&self) -> (r: usize)
        ensures
            r == self.replicas().len(),
    {
        self.replicas.len()
    }
}

/// The replica whose turn it is for a read.
pub open spec fn turn(replicas: Seq<u64>, read: nat) -> u64 {
    replicas[(read % replicas.len()) as int]
}

/// Among as many reads in a row as there are replicas, each replica has its
/// turn.
pub proof fn law_round_robin(replicas: Seq<u64>, from: nat, place: int)
    requires
        0 <= place < replicas.len(),
    ensures
        exists|k: nat| k < replicas.len() && #[trigger] turn(replicas, from + k) == replicas[place],
{
    let n = replicas.len() as int;
    let at = from as int % n;
    let k = if at <= place {
        place - at
    } else {
        place - at + n
    };
    let q = from as int / n;
    vstd::arithmetic::div_mod::lemma_fundamental_div_mod(from as int, n);
    let t = from + k;
    if at <= place {
        assert(t == q * n + place) by (nonlinear_arith)
            requires
                from as int == n * q + at,
                t == from + k,
                k == place - at,
        ;
        vstd::arithmetic::div_mod::lemma_fundamental_div_mod_converse(t, n, q, place);
    } else {
        assert(t == (q + 1) * n + place) by (nonlinear_arith)
            requires
                from as int == n * q + at,
                t == from + k,
                k == place - at + n,
        ;
        vstd::arithmetic::div_mod::lemma_fundamental_div_mod_converse(t, n, q + 1, place);
    }
    assert(turn(replicas, (from + k) as nat) == replicas[place]);
    assert((k as nat) < replicas.len());
    assert(turn(replicas, from + (k as nat)) == replicas[place]);
}

} // verus!
