//! A cluster of Raft nodes in one process.

use vstd::prelude::*;

use crate::idmap::IdMap;
use crate::replication::node::{
    agreed, holders, log_view, new_node, EntryView, LogEntry, NodeId, NodeRole, NodeView, RaftNode,
    RaftSnapshot, SnapshotView,
};

verus! {

/// Nodes by id, as values.
pub open spec fn node_map(m: Map<u64, RaftNode>) -> Map<u64, NodeView> {
    Map::new(|k: u64| m.dom().contains(k), |k: u64| m[k]@)
}

/// Every node changed by a function of its id and value.
pub open spec fn changed(m: Map<u64, NodeView>, f: spec_fn(u64, NodeView) -> NodeView) -> Map<
    u64,
    NodeView,
> {
    Map::new(|k: u64| m.dom().contains(k), |k: u64| f(k, m[k]))
}

/// A cluster of Raft nodes.
pub struct RaftCluster {
    pub nodes: IdMap<RaftNode>,
    pub leader: Option<NodeId>,
}

/// The mathematical value of a [`RaftCluster`].
#[verifier::ext_equal]
pub struct ClusterView {
    pub nodes: Map<u64, NodeView>,
    /// The ids of the nodes in the order in which they came.
    pub order: Seq<u64>,
    pub leader: Option<u64>,
}

/// Whether a node votes for a candidate in a term: its own term is an earlier
/// one, or it has not voted.
pub open spec fn votes(n: NodeView, term: u64) -> bool {
    n.current_term < term || n.voted_for is None
}

/// How many of the nodes other than the candidate vote for it.
pub open spec fn vote_count(
    nodes: Map<u64, NodeView>,
    order: Seq<u64>,
    candidate: u64,
    term: u64,
) -> nat
    decreases order.len(),
{
    if order.len() == 0 {
        0
    } else {
        let rest = vote_count(nodes, order.drop_last(), candidate, term);
        if order.last() != candidate && votes(nodes[order.last()], term) {
            rest + 1
        } else {
            rest
        }
    }
}

/// A node after the others were asked for their votes.
pub open spec fn after_vote(candidate: u64, term: u64) -> spec_fn(u64, NodeView) -> NodeView {
    |k: u64, n: NodeView|
        if k == candidate {
            n.candidate()
        } else if votes(n, term) {
            NodeView { current_term: term, voted_for: Some(candidate), ..n }
        } else {
            n
        }
}

/// A node after an entry was sent to the followers that lack it.
pub open spec fn after_send(leader: u64, e: EntryView) -> spec_fn(u64, NodeView) -> NodeView {
    |k: u64, n: NodeView|
        if k != leader && n.log.len() < e.index {
            NodeView { log: n.log.push(e), ..n }
        } else {
            n
        }
}

/// A leader after the nodes other than it told that they have an index.
pub open spec fn after_acks(n: NodeView, leader: u64, order: Seq<u64>, index: u64) -> NodeView
    decreases order.len(),
{
    if order.len() == 0 {
        n
    } else {
        let rest = after_acks(n, leader, order.drop_last(), index);
        if order.last() != leader {
            rest.acknowledged(order.last(), index)
        } else {
            rest
        }
    }
}

/// A node after the leader's snapshot was taken and installed.
pub open spec fn after_snapshot(leader: u64, s: SnapshotView) -> spec_fn(u64, NodeView) -> NodeView {
    |k: u64, n: NodeView|
        if k == leader {
            n.truncated()
        } else {
            n.installed(s)
        }
}

impl ClusterView {
    /// The ids are those of the nodes, each once.
    pub open spec fn wf(self) -> bool {
        self.order.no_duplicates() && forall|k: u64|
            self.order.contains(k) <==> #[trigger] self.nodes.dom().contains(k)
    }

    /// The term in which a node starts an election.
    pub open spec fn next_term(self, candidate: u64) -> u64 {
        (self.nodes[candidate].current_term + 1) as u64
    }

    /// Whether a node wins an election: it has the votes of a majority, its own
    /// counted.
    pub open spec fn wins(self, candidate: u64) -> bool {
        1 + vote_count(self.nodes, self.order, candidate, self.next_term(candidate))
            >= self.order.len() / 2 + 1
    }

    /// After an election.
    pub open spec fn elected(self, candidate: u64) -> ClusterView {
        let asked = changed(self.nodes, after_vote(candidate, self.next_term(candidate)));
        if self.wins(candidate) {
            ClusterView {
                nodes: asked.insert(candidate, asked[candidate].leading()),
                leader: Some(candidate),
                ..self
            }
        } else {
            ClusterView { nodes: asked, ..self }
        }
    }

    /// Whether the leader is a node that leads.
    pub open spec fn led(self) -> bool {
        self.leader matches Some(l) ==> self.nodes.dom().contains(l) && self.nodes[l].role
            == NodeRole::Leader
    }

    /// After an entry was replicated.
    pub open spec fn replicated(self, data: Seq<u8>) -> ClusterView {
        match self.leader {
            None => self,
            Some(l) => {
                let first = self.nodes[l].appended(data);
                let sent = changed(self.nodes, after_send(l, first.log.last()));
                ClusterView {
                    nodes: sent.insert(
                        l,
                        after_acks(first, l, self.order, first.log.len() as u64),
                    ),
                    ..self
                }
            },
        }
    }

    /// Whether all nodes have the same log.
    pub open spec fn consistent(self) -> bool {
        forall|j: u64, k: u64|
            self.nodes.dom().contains(j) && self.nodes.dom().contains(k)
                ==> #[trigger] self.nodes[j].log == #[trigger] self.nodes[k].log
    }

    /// With one more node.
    pub open spec fn with_node(self, node: u64) -> ClusterView {
        ClusterView {
            nodes: changed(self.nodes, |k: u64, n: NodeView| n.with_peer(node)).insert(
                node,
                new_node(node, self.order),
            ),
            order: if self.nodes.dom().contains(node) {
                self.order
            } else {
                self.order.push(node)
            },
            ..self
        }
    }

    /// Without a node.
    pub open spec fn without_node(self, node: u64) -> ClusterView {
        ClusterView {
            nodes: changed(self.nodes.remove(node), |k: u64, n: NodeView| n.without_peer(node)),
            order: if self.nodes.dom().contains(node) {
                self.order.remove(self.order.index_of(node))
            } else {
                self.order
            },
            ..self
        }
    }

    /// After the leader's snapshot was installed on the followers.
    pub open spec fn synced(self) -> ClusterView {
        match self.leader {
            Some(l) => if self.nodes.dom().contains(l) {
                ClusterView {
                    nodes: changed(self.nodes, after_snapshot(l, self.nodes[l].snapshot())),
                    ..self
                }
            } else {
                self
            },
            None => self,
        }
    }
}

/// A cluster of three nodes without a leader.
pub open spec fn three_nodes() -> ClusterView {
    ClusterView {
        nodes: Map::<u64, NodeView>::empty().insert(1, new_node(1, seq![2u64, 3u64])).insert(
            2,
            new_node(2, seq![1u64, 3u64]),
        ).insert(3, new_node(3, seq![1u64, 2u64])),
        order: seq![1u64, 2u64, 3u64],
        leader: None,
    }
}

impl View for RaftCluster {
    type V = ClusterView;

    open spec fn view(&self) -> ClusterView {
        ClusterView {
            nodes: node_map(self.nodes@),
            order: self.nodes.key_seq(),
            leader: self.leader,
        }
    }
}

/// Changing the values one by one changes the nodes.
proof fn lemma_changed(
    before: IdMap<RaftNode>,
    after: IdMap<RaftNode>,
    f: spec_fn(u64, NodeView) -> NodeView,
)
    requires
        before.wf(),
        after.wf(),
        after.key_seq() == before.key_seq(),
        after.value_seq().len() == before.value_seq().len(),
        forall|i: int|
            0 <= i < before.key_seq().len() ==> (#[trigger] after.value_seq()[i])@ == f(
                before.key_seq()[i],
                before.value_seq()[i]@,
            ),
    ensures
        node_map(after@) == changed(node_map(before@), f),
{
    assert(node_map(after@) =~= changed(node_map(before@), f)) by {
        assert forall|k: u64| before@.dom().contains(k) implies after@[k]@ == f(
            k,
            before@[k]@,
        ) by {
            let i = before.key_seq().index_of(k);
            assert(before.key_seq()[i] == k);
            assert(after.value_seq()[i]@ == f(before.key_seq()[i], before.value_seq()[i]@));
        }
    }
}

impl RaftCluster {
    /// Ids and nodes are well formed.
    pub open spec fn wf(&self) -> bool {
        self.nodes.wf() && forall|i: int|
            0 <= i < self.nodes.value_seq().len() ==> (#[trigger] self.nodes.value_seq()[i]).wf()
    }

    /// What the invariant says of the cluster's value.
    pub proof fn lemma_wf(&self)
        requires
            self.wf(),
        ensures
            self@.wf(),
    {
    }

    /// A cluster of three nodes without a leader.
    pub fn new_3_node() -> (res: Self)
        ensures
            res.wf(),
            res@ == three_nodes(),
    {
        let mut nodes: IdMap<RaftNode> = IdMap::new();
        nodes.insert(1, RaftNode::new(1, vec![2, 3]));
        nodes.insert(2, RaftNode::new(2, vec![1, 3]));
        nodes.insert(3, RaftNode::new(3, vec![1, 2]));
        let res = RaftCluster { nodes, leader: None };
        proof {
            assert(res@.order =~= three_nodes().order);
            assert(res@.nodes =~= three_nodes().nodes) by {
                assert(seq![2u64, 3u64] =~= nodes@[1]@.peers);
                assert(seq![1u64, 3u64] =~= nodes@[2]@.peers);
                assert(seq![1u64, 2u64] =~= nodes@[3]@.peers);
            }
            assert forall|i: int| 0 <= i < res.nodes.value_seq().len() implies (
            #[trigger] res.nodes.value_seq()[i]).wf() by {
                res.nodes.lemma_at(i);
                let k = res.nodes.key_seq()[i];
                assert(k == 1 || k == 2 || k == 3);
            }
        }
        res
    }

    /// Lets a node stand for election. Returns whether it wins; it then is the
    /// leader.
    pub fn elect_leader(&mut self, candidate_id: NodeId) -> (r: bool)
        requires
            old(self).wf(),
            old(self)@.nodes.dom().contains(candidate_id),
            old(self)@.nodes[candidate_id].current_term < u64::MAX,
        ensures
            final(self).wf(),
            r == old(self)@.wins(candidate_id),
            final(self)@ == old(self)@.elected(candidate_id),
    {
        let ghost start = *self;
        let ghost term0 = self@.next_term(candidate_id);
        let ghost f = after_vote(candidate_id, term0);
        let count: usize = self.nodes.len();
        let place: usize = match self.nodes.find(candidate_id) {
            Some(i) => i,
            None => {
                return false;
            },
        };
        let term: u64 = self.nodes.value_at(place).current_term + 1;
        let mut given: usize = 0;
        let mut i: usize = 0;
        assert(start.nodes.key_seq().take(0) =~= seq![]);
        while i < count
            invariant
                i <= count,
                start.wf(),
                self.leader == start.leader,
                count == start.nodes.key_seq().len(),
                place < count,
                start.nodes.key_seq()[place as int] == candidate_id,
                start.nodes.value_seq()[place as int]@.current_term < u64::MAX,
                start.nodes.value_seq()[place as int]@.current_term + 1 == term,
                start@.nodes[candidate_id] == start.nodes.value_seq()[place as int]@,
                term == start@.next_term(candidate_id),
                f == after_vote(candidate_id, term),
                self.nodes.key_seq() == start.nodes.key_seq(),
                self.nodes.wf(),
                self.nodes.value_seq().len() == start.nodes.value_seq().len(),
                given <= i,
                i > place ==> given < i,
                given == vote_count(
                    start@.nodes,
                    start.nodes.key_seq().take(i as int),
                    candidate_id,
                    term,
                ),
                forall|j: int|
                    0 <= j < i ==> (#[trigger] self.nodes.value_seq()[j])@ == f(
                        start.nodes.key_seq()[j],
                        start.nodes.value_seq()[j]@,
                    ) && self.nodes.value_seq()[j].wf(),
                forall|j: int|
                    i <= j < count ==> #[trigger] self.nodes.value_seq()[j]
                        == start.nodes.value_seq()[j],
            decreases count - i,
        {
            let id: NodeId = self.nodes.key_at(i);
            let ghost was = self.nodes.value_seq();
            proof {
                let keys = start.nodes.key_seq();
                assert(keys.take(i + 1).drop_last() =~= keys.take(i as int));
                assert(keys.take(i + 1).last() == id);
                start.nodes.lemma_at(i as int);
                assert(start@.nodes[id] == start.nodes.value_seq()[i as int]@);
                assert(start.nodes.value_seq()[i as int].wf());
                if i != place {
                    assert(keys[i as int] != keys[place as int]);
                }
            }
            let node: &mut RaftNode = self.nodes.value_mut(i);
            if id == candidate_id {
                node.start_election();
            } else if node.current_term < term || node.voted_for.is_none() {
                node.current_term = term;
                node.voted_for = Some(candidate_id);
                given = given + 1;
            }
            i = i + 1;
            proof {
                assert forall|j: int| 0 <= j < i implies (#[trigger] self.nodes.value_seq()[j])@
                    == f(start.nodes.key_seq()[j], start.nodes.value_seq()[j]@)
                    && self.nodes.value_seq()[j].wf() by {
                    if j < i - 1 {
                        assert(self.nodes.value_seq()[j] == was[j]);
                    }
                }
            }
        }
        proof {
            assert(start.nodes.key_seq().take(i as int) =~= start.nodes.key_seq());
            lemma_changed(start.nodes, self.nodes, f);
        }
        let ghost asked = *self;
        assert(asked@.nodes == changed(start@.nodes, f));
        if given + 1 >= count / 2 + 1 {
            let leader: &mut RaftNode = self.nodes.value_mut(place);
            leader.become_leader();
            self.leader = Some(candidate_id);
            proof {
                self.nodes.lemma_updated(
                    asked.nodes,
                    place as int,
                    self.nodes.value_seq()[place as int],
                );
                asked.nodes.lemma_at(place as int);
                assert(self@.nodes =~= start@.elected(candidate_id).nodes);
                assert(self@ =~= start@.elected(candidate_id));
            }
            true
        } else {
            assert(self@ =~= start@.elected(candidate_id));
            false
        }
    }

    /// Appends an entry to the leader's log, sends it to the followers and
    /// counts their answers. Returns its index; 0 where there is no leader.
    pub fn replicate_entry(&mut self, data: Vec<u8>) -> (r: u64)
        requires
            old(self).wf(),
            old(self)@.led(),
            forall|k: u64| #[trigger]
                old(self)@.nodes.dom().contains(k) ==> old(self)@.nodes[k].log.len() + 1
                    < u64::MAX,
        ensures
            final(self).wf(),
            r == match old(self)@.leader {
                Some(l) => (old(self)@.nodes[l].log.len() + 1) as u64,
                None => 0u64,
            },
            final(self)@ == old(self)@.replicated(data@),
    {
        let leader_id: NodeId = match self.leader {
            Some(id) => id,
            None => {
                return 0;
            },
        };
        let ghost start = *self;
        let ghost bytes = data@;
        let count: usize = self.nodes.len();
        let place: usize = match self.nodes.find(leader_id) {
            Some(i) => i,
            None => {
                return 0;
            },
        };
        let ghost first = start@.nodes[leader_id].appended(bytes);
        proof {
            start.nodes.lemma_at(place as int);
            assert(start@.nodes.dom().contains(leader_id));
        }
        let lead: &mut RaftNode = self.nodes.value_mut(place);
        let index: u64 = lead.append_entry(data);
        let log: &Vec<LogEntry> = &self.nodes.value_at(place).log;
        let entry: LogEntry = log[log.len() - 1].copy();
        assert(entry@ == first.log.last()) by {
            assert(self.nodes.value_seq()[place as int]@ == first);
            assert(log_view(log@).last() == log@.last()@);
        }
        let ghost f = after_send(leader_id, entry@);
        let mut i: usize = 0;
        while i < count
            invariant
                i <= count,
                start.wf(),
                self.leader == start.leader,
                count == start.nodes.key_seq().len(),
                place < count,
                start.nodes.key_seq()[place as int] == leader_id,
                entry@.index == index,
                f == after_send(leader_id, entry@),
                self.nodes.key_seq() == start.nodes.key_seq(),
                self.nodes.wf(),
                self.nodes.value_seq().len() == start.nodes.value_seq().len(),
                self.nodes.value_seq()[place as int]@ == first,
                self.nodes.value_seq()[place as int].wf(),
                forall|k: u64| #[trigger]
                    start@.nodes.dom().contains(k) ==> start@.nodes[k].log.len() + 1 < u64::MAX,
                forall|j: int|
                    0 <= j < i && j != place ==> (#[trigger] self.nodes.value_seq()[j])@ == f(
                        start.nodes.key_seq()[j],
                        start.nodes.value_seq()[j]@,
                    ) && self.nodes.value_seq()[j].wf(),
                forall|j: int|
                    i <= j < count && j != place ==> #[trigger] self.nodes.value_seq()[j]
                        == start.nodes.value_seq()[j],
            decreases count - i,
        {
            let id: NodeId = self.nodes.key_at(i);
            let ghost was = self.nodes.value_seq();
            proof {
                start.nodes.lemma_at(i as int);
                assert(start@.nodes.dom().contains(id));
                assert(start@.nodes[id] == start.nodes.value_seq()[i as int]@);
                assert(start.nodes.value_seq()[i as int].wf());
                if i != place {
                    assert(start.nodes.key_seq()[i as int] != start.nodes.key_seq()[place as int]);
                }
            }
            if id != leader_id {
                let node: &mut RaftNode = self.nodes.value_mut(i);
                if (node.log.len() as u64) < index {
                    let copy: LogEntry = entry.copy();
                    let ghost log = log_view(node.log@);
                    node.log.push(copy);
                    assert(log_view(node.log@) =~= log.push(entry@));
                }
            }
            i = i + 1;
            proof {
                assert forall|j: int| 0 <= j < i && j != place implies (
                #[trigger] self.nodes.value_seq()[j])@ == f(
                    start.nodes.key_seq()[j],
                    start.nodes.value_seq()[j]@,
                ) && self.nodes.value_seq()[j].wf() by {
                    if j < i - 1 {
                        assert(self.nodes.value_seq()[j] == was[j]);
                    }
                }
            }
        }
        let ghost sent = *self;
        let ghost keys = start.nodes.key_seq();
        i = 0;
        assert(keys.take(0) =~= seq![]);
        while i < count
            invariant
                i <= count,
                count == keys.len(),
                keys == start.nodes.key_seq(),
                start.wf(),
                self.leader == start.leader,
                place < count,
                keys[place as int] == leader_id,
                index < u64::MAX,
                self.nodes.key_seq() == keys,
                self.nodes.wf(),
                sent.nodes.key_seq() == keys,
                self.nodes.value_seq().len() == count,
                sent.nodes.value_seq().len() == count,
                self.nodes.value_seq()[place as int]@ == after_acks(
                    first,
                    leader_id,
                    keys.take(i as int),
                    index,
                ),
                self.nodes.value_seq()[place as int].wf(),
                forall|j: int|
                    0 <= j < count && j != place ==> #[trigger] self.nodes.value_seq()[j]
                        == sent.nodes.value_seq()[j],
            decreases count - i,
        {
            let id: NodeId = self.nodes.key_at(i);
            proof {
                assert(keys.take(i + 1).drop_last() =~= keys.take(i as int));
                assert(keys.take(i + 1).last() == id);
            }
            if id != leader_id {
                let node: &mut RaftNode = self.nodes.value_mut(place);
                node.acknowledge(id, index);
            }
            i = i + 1;
        }
        proof {
            assert(keys.take(i as int) =~= keys);
            let last = after_acks(first, leader_id, keys, index);
            let want = start@.replicated(bytes);
            assert(self@.nodes =~= want.nodes) by {
                assert forall|k: u64| start@.nodes.dom().contains(k) implies
                    self@.nodes.dom().contains(k) && self@.nodes[k] == want.nodes[k] by {
                    let j = keys.index_of(k);
                    assert(keys[j] == k);
                    assert(self.nodes.key_seq().contains(k));
                    if j != place {
                        assert(k != leader_id);
                        assert(self.nodes.value_seq()[j] == sent.nodes.value_seq()[j]);
                        assert(sent.nodes.value_seq()[j]@ == f(k, start.nodes.value_seq()[j]@));
                    } else {
                        assert(self.nodes.value_seq()[j]@ == last);
                    }
                }
                assert forall|k: u64| self@.nodes.dom().contains(k) <==> want.nodes.dom().contains(
                    k,
                ) by {
                    assert(start@.nodes.dom().contains(leader_id));
                }
            }
            assert(self@ =~= want);
            assert forall|j: int| 0 <= j < self.nodes.value_seq().len() implies (
            #[trigger] self.nodes.value_seq()[j]).wf() by {
                if j != place {
                    assert(self.nodes.value_seq()[j] == sent.nodes.value_seq()[j]);
                    assert(sent.nodes.value_seq()[j].wf());
                }
            }
        }
        index
    }

    /// Applies the committed entries on every node.
    pub fn apply_all(&mut self)
        requires
            old(self).wf(),
        ensures
            final(self).wf(),
            final(self)@ == (ClusterView {
                nodes: changed(old(self)@.nodes, |k: u64, n: NodeView| n.applied()),
                ..old(self)@
            }),
    {
        let ghost start = *self;
        let ghost f = |k: u64, n: NodeView| n.applied();
        let count: usize = self.nodes.len();
        let mut i: usize = 0;
        while i < count
            invariant
                i <= count,
                start.wf(),
                self.leader == start.leader,
                count == start.nodes.key_seq().len(),
                f == (|k: u64, n: NodeView| n.applied()),
                self.nodes.key_seq() == start.nodes.key_seq(),
                self.nodes.wf(),
                self.nodes.value_seq().len() == start.nodes.value_seq().len(),
                forall|j: int|
                    0 <= j < i ==> (#[trigger] self.nodes.value_seq()[j])@ == f(
                        start.nodes.key_seq()[j],
                        start.nodes.value_seq()[j]@,
                    ) && self.nodes.value_seq()[j].wf(),
                forall|j: int|
                    i <= j < count ==> #[trigger] self.nodes.value_seq()[j]
                        == start.nodes.value_seq()[j],
            decreases count - i,
        {
            let ghost was = self.nodes.value_seq();
            assert(start.nodes.value_seq()[i as int].wf());
            let node: &mut RaftNode = self.nodes.value_mut(i);
            let _applied: Vec<&LogEntry> = node.apply_committed();
            i = i + 1;
            proof {
                assert forall|j: int| 0 <= j < i implies (#[trigger] self.nodes.value_seq()[j])@
                    == f(start.nodes.key_seq()[j], start.nodes.value_seq()[j]@)
                    && self.nodes.value_seq()[j].wf() by {
                    if j < i - 1 {
                        assert(self.nodes.value_seq()[j] == was[j]);
                    }
                }
            }
        }
        proof {
            lemma_changed(start.nodes, self.nodes, f);
        }
    }

    /// Whether all nodes have the same log.
    pub fn verify_consistency(&self) -> (r: bool)
        requires
            self.wf(),
        ensures
            r == self@.consistent(),
    {
        let count: usize = self.nodes.len();
        let mut i: usize = 1;
        while i < count
            invariant
                1 <= i,
                self.wf(),
                count == self.nodes.key_seq().len(),
                forall|j: int|
                    0 <= j < i && j < count ==> (#[trigger] self.nodes.value_seq()[j])@.log
                        == self.nodes.value_seq()[0]@.log,
            decreases count - i,
        {
            if !same_log(&self.nodes.value_at(0).log, &self.nodes.value_at(i).log) {
                proof {
                    self.nodes.lemma_at(0);
                    self.nodes.lemma_at(i as int);
                    let a = self.nodes.key_seq()[0];
                    let b = self.nodes.key_seq()[i as int];
                    assert(self@.nodes[a].log != self@.nodes[b].log);
                }
                return false;
            }
            i = i + 1;
        }
        proof {
            assert forall|j: u64, k: u64|
                self@.nodes.dom().contains(j) && self@.nodes.dom().contains(k) implies
                #[trigger] self@.nodes[j].log == #[trigger] self@.nodes[k].log by {
                let a = self.nodes.key_seq().index_of(j);
                let b = self.nodes.key_seq().index_of(k);
                assert(self.nodes.value_seq()[a]@.log == self.nodes.value_seq()[0]@.log);
                assert(self.nodes.value_seq()[b]@.log == self.nodes.value_seq()[0]@.log);
            }
        }
        true
    }

    /// Adds a node with an empty log; the nodes that are there become its
    /// peers, and it theirs.
    pub fn add_node(&mut self, node_id: NodeId)
        requires
            old(self).wf(),
        ensures
            final(self).wf(),
            final(self)@ == old(self)@.with_node(node_id),
    {
        let ghost start = *self;
        let ghost f = |k: u64, n: NodeView| n.with_peer(node_id);
        let count: usize = self.nodes.len();
        let mut peers: Vec<NodeId> = Vec::new();
        let mut i: usize = 0;
        while i < count
            invariant
                i <= count,
                start.wf(),
                self.leader == start.leader,
                count == start.nodes.key_seq().len(),
                f == (|k: u64, n: NodeView| n.with_peer(node_id)),
                peers@ == start.nodes.key_seq().take(i as int),
                self.nodes.key_seq() == start.nodes.key_seq(),
                self.nodes.wf(),
                self.nodes.value_seq().len() == start.nodes.value_seq().len(),
                forall|j: int|
                    0 <= j < i ==> (#[trigger] self.nodes.value_seq()[j])@ == f(
                        start.nodes.key_seq()[j],
                        start.nodes.value_seq()[j]@,
                    ) && self.nodes.value_seq()[j].wf(),
                forall|j: int|
                    i <= j < count ==> #[trigger] self.nodes.value_seq()[j]
                        == start.nodes.value_seq()[j],
            decreases count - i,
        {
            let ghost was = self.nodes.value_seq();
            assert(start.nodes.value_seq()[i as int].wf());
            peers.push(self.nodes.key_at(i));
            let node: &mut RaftNode = self.nodes.value_mut(i);
            node.add_peer(node_id);
            i = i + 1;
            proof {
                assert(peers@ =~= start.nodes.key_seq().take(i as int));
                assert forall|j: int| 0 <= j < i implies (#[trigger] self.nodes.value_seq()[j])@
                    == f(start.nodes.key_seq()[j], start.nodes.value_seq()[j]@)
                    && self.nodes.value_seq()[j].wf() by {
                    if j < i - 1 {
                        assert(self.nodes.value_seq()[j] == was[j]);
                    }
                }
            }
        }
        assert(start.nodes.key_seq().take(i as int) =~= start.nodes.key_seq());
        let ghost told = *self;
        proof {
            lemma_changed(start.nodes, self.nodes, f);
        }
        let node: RaftNode = RaftNode::new(node_id, peers);
        let ghost made = node;
        self.nodes.insert(node_id, node);
        proof {
            let want = start@.with_node(node_id);
            assert(told@.nodes == changed(start@.nodes, f));
            assert(self@.nodes =~= want.nodes);
            assert(self@ =~= want);
            assert forall|j: int| 0 <= j < self.nodes.value_seq().len() implies (
            #[trigger] self.nodes.value_seq()[j]).wf() by {
                self.nodes.lemma_at(j);
                let k = self.nodes.key_seq()[j];
                if k != node_id {
                    assert(told.nodes@.dom().contains(k));
                    let m = told.nodes.key_seq().index_of(k);
                    assert(told.nodes.value_seq()[m].wf());
                    assert(self.nodes@[k] == told.nodes@[k]);
                }
            }
        }
    }

    /// Removes a node, also from the peers of the others.
    pub fn remove_node(&mut self, node_id: NodeId)
        requires
            old(self).wf(),
        ensures
            final(self).wf(),
            final(self)@ == old(self)@.without_node(node_id),
    {
        let ghost start = *self;
        let ghost f = |k: u64, n: NodeView| n.without_peer(node_id);
        match self.nodes.find(node_id) {
            Some(i) => {
                let _gone: RaftNode = self.nodes.remove_at(i);
                proof {
                    assert(start.nodes.key_seq().index_of(node_id) == i);
                }
            },
            None => {},
        }
        let ghost left = *self;
        proof {
            assert(left@.nodes =~= start@.nodes.remove(node_id));
            assert forall|j: int| 0 <= j < left.nodes.value_seq().len() implies (
            #[trigger] left.nodes.value_seq()[j]).wf() by {
                left.nodes.lemma_at(j);
                let k = left.nodes.key_seq()[j];
                assert(left.nodes@.dom().contains(k));
                assert(start.nodes@.dom().contains(k));
                let m = start.nodes.key_seq().index_of(k);
                assert(start.nodes.value_seq()[m].wf());
            }
        }
        let count: usize = self.nodes.len();
        let mut i: usize = 0;
        while i < count
            invariant
                i <= count,
                left.wf(),
                self.leader == left.leader,
                count == left.nodes.key_seq().len(),
                f == (|k: u64, n: NodeView| n.without_peer(node_id)),
                self.nodes.key_seq() == left.nodes.key_seq(),
                self.nodes.wf(),
                self.nodes.value_seq().len() == left.nodes.value_seq().len(),
                forall|j: int|
                    0 <= j < i ==> (#[trigger] self.nodes.value_seq()[j])@ == f(
                        left.nodes.key_seq()[j],
                        left.nodes.value_seq()[j]@,
                    ) && self.nodes.value_seq()[j].wf(),
                forall|j: int|
                    i <= j < count ==> #[trigger] self.nodes.value_seq()[j]
                        == left.nodes.value_seq()[j],
            decreases count - i,
        {
            let ghost was = self.nodes.value_seq();
            assert(left.nodes.value_seq()[i as int].wf());
            let node: &mut RaftNode = self.nodes.value_mut(i);
            node.remove_peer(node_id);
            i = i + 1;
            proof {
                assert forall|j: int| 0 <= j < i implies (#[trigger] self.nodes.value_seq()[j])@
                    == f(left.nodes.key_seq()[j], left.nodes.value_seq()[j]@)
                    && self.nodes.value_seq()[j].wf() by {
                    if j < i - 1 {
                        assert(self.nodes.value_seq()[j] == was[j]);
                    }
                }
            }
        }
        proof {
            lemma_changed(left.nodes, self.nodes, f);
            assert(self@ =~= start@.without_node(node_id));
        }
    }

    /// Takes a snapshot on the leader and installs it on the other nodes. There
    /// is none without a leader.
    pub fn snapshot_and_sync(&mut self) -> (r: Option<RaftSnapshot>)
        requires
            old(self).wf(),
            old(self)@.leader matches Some(l) ==> old(self)@.nodes.dom().contains(l) ==> old(
                self,
            )@.nodes[l].commit_index <= old(self)@.nodes[l].log.len(),
        ensures
            final(self).wf(),
            final(self)@ == old(self)@.synced(),
            match r {
                Some(s) => old(self)@.leader matches Some(l) && old(self)@.nodes.dom().contains(l)
                    && s@ == old(self)@.nodes[l].snapshot(),
                None => match old(self)@.leader {
                    Some(l) => !old(self)@.nodes.dom().contains(l),
                    None => true,
                },
            },
    {
        let leader_id: NodeId = match self.leader {
            Some(id) => id,
            None => {
                return None;
            },
        };
        let ghost start = *self;
        let count: usize = self.nodes.len();
        let place: usize = match self.nodes.find(leader_id) {
            Some(i) => i,
            None => {
                return None;
            },
        };
        proof {
            start.nodes.lemma_at(place as int);
            assert(start@.nodes.dom().contains(leader_id));
        }
        let lead: &mut RaftNode = self.nodes.value_mut(place);
        let snapshot: RaftSnapshot = lead.create_snapshot();
        let ghost f = after_snapshot(leader_id, snapshot@);
        let mut i: usize = 0;
        while i < count
            invariant
                i <= count,
                start.wf(),
                self.leader == start.leader,
                count == start.nodes.key_seq().len(),
                place < count,
                start.nodes.key_seq()[place as int] == leader_id,
                f == after_snapshot(leader_id, snapshot@),
                self.nodes.key_seq() == start.nodes.key_seq(),
                self.nodes.wf(),
                self.nodes.value_seq().len() == start.nodes.value_seq().len(),
                self.nodes.value_seq()[place as int]@ == f(
                    leader_id,
                    start.nodes.value_seq()[place as int]@,
                ),
                self.nodes.value_seq()[place as int].wf(),
                forall|j: int|
                    0 <= j < i ==> (#[trigger] self.nodes.value_seq()[j])@ == f(
                        start.nodes.key_seq()[j],
                        start.nodes.value_seq()[j]@,
                    ) && self.nodes.value_seq()[j].wf(),
                forall|j: int|
                    i <= j < count && j != place ==> #[trigger] self.nodes.value_seq()[j]
                        == start.nodes.value_seq()[j],
            decreases count - i,
        {
            let id: NodeId = self.nodes.key_at(i);
            let ghost was = self.nodes.value_seq();
            proof {
                assert(start.nodes.value_seq()[i as int].wf());
                if i != place {
                    assert(start.nodes.key_seq()[i as int] != start.nodes.key_seq()[place as int]);
                }
            }
            if id != leader_id {
                let node: &mut RaftNode = self.nodes.value_mut(i);
                node.install_snapshot(&snapshot);
            }
            i = i + 1;
            proof {
                assert forall|j: int| 0 <= j < i implies (#[trigger] self.nodes.value_seq()[j])@
                    == f(start.nodes.key_seq()[j], start.nodes.value_seq()[j]@)
                    && self.nodes.value_seq()[j].wf() by {
                    if j < i - 1 {
                        assert(self.nodes.value_seq()[j] == was[j]);
                    }
                }
            }
        }
        proof {
            lemma_changed(start.nodes, self.nodes, f);
            assert(self@ =~= start@.synced());
        }
        Some(snapshot)
    }
}

fn same_log(a: &Vec<LogEntry>, b: &Vec<LogEntry>) -> (r: bool)
    ensures
        r == (log_view(a@) == log_view(b@)),
{
    if a.len() != b.len() {
        assert(log_view(a@).len() != log_view(b@).len());
        return false;
    }
    let mut i: usize = 0;
    while i < a.len()
        invariant
            i <= a@.len(),
            a@.len() == b@.len(),
            forall|k: int| 0 <= k < i ==> (#[trigger] a@[k])@ == b@[k]@,
        decreases a@.len() - i,
    {
        if !a[i].same(&b[i]) {
            assert(log_view(a@)[i as int] != log_view(b@)[i as int]);
            return false;
        }
        i = i + 1;
    }
    assert(log_view(a@) =~= log_view(b@));
    true
}

/// In a new cluster of three nodes whoever stands for election wins.
pub proof fn law_three_nodes_elect(candidate: u64)
    requires
        1 <= candidate <= 3,
    ensures
        three_nodes().wins(candidate),
        three_nodes().elected(candidate).leader == Some(candidate),
        three_nodes().elected(candidate).nodes[candidate].role == NodeRole::Leader,
        three_nodes().elected(candidate).led(),
{
    let c = three_nodes();
    let o = c.order;
    let term = c.next_term(candidate);
    assert(term == 1);
    assert(o.drop_last() =~= seq![1u64, 2u64]);
    assert(o.drop_last().drop_last() =~= seq![1u64]);
    assert(o.drop_last().drop_last().drop_last() =~= seq![]);
    reveal_with_fuel(vote_count, 4);
    assert(vote_count(c.nodes, o, candidate, term) == 2);
}

/// Who wins an election leads in a new term, and every node that voted is in
/// that term and has voted for the winner.
pub proof fn law_election(c: ClusterView, candidate: u64, node: u64)
    requires
        c.nodes.dom().contains(candidate),
        c.nodes[candidate].current_term < u64::MAX,
        c.nodes.dom().contains(node),
        c.wins(candidate),
    ensures
        c.elected(candidate).led(),
        c.elected(candidate).nodes[candidate].current_term == c.nodes[candidate].current_term + 1,
        node != candidate && votes(c.nodes[node], c.next_term(candidate)) ==> c.elected(
            candidate,
        ).nodes[node].voted_for == Some(candidate) && c.elected(candidate).nodes[node].current_term
            == c.next_term(candidate),
        c.elected(candidate).nodes[node].log == c.nodes[node].log,
{
}

proof fn lemma_acks_keep(n: NodeView, leader: u64, order: Seq<u64>, index: u64)
    ensures
        after_acks(n, leader, order, index).log == n.log,
        after_acks(n, leader, order, index).role == n.role,
        after_acks(n, leader, order, index).current_term == n.current_term,
        after_acks(n, leader, order, index).peers == n.peers,
    decreases order.len(),
{
    if order.len() > 0 {
        lemma_acks_keep(n, leader, order.drop_last(), index);
    }
}

/// Replicating an entry in a cluster whose logs are the same adds the entry to
/// every log: the logs stay the same, and the earlier entries stay in place.
pub proof fn law_replication_keeps_consistency(c: ClusterView, leader: u64, data: Seq<u8>, node: u64)
    requires
        c.leader == Some(leader),
        c.led(),
        c.consistent(),
        c.nodes.dom().contains(node),
        c.nodes[leader].log.len() < u64::MAX,
    ensures
        c.replicated(data).consistent(),
        c.replicated(data).nodes[node].log == c.nodes[node].log.push(
            c.nodes[leader].next_entry(data),
        ),
{
    let now = c.replicated(data);
    let first = c.nodes[leader].appended(data);
    let index = first.log.len() as u64;
    lemma_acks_keep(first, leader, c.order, index);
    let e = first.log.last();
    assert forall|k: u64| c.nodes.dom().contains(k) implies #[trigger] now.nodes[k].log
        == c.nodes[leader].log.push(e) by {
        assert(c.nodes[k].log == c.nodes[leader].log);
    }
    assert(c.nodes[node].log == c.nodes[leader].log);
    assert forall|j: u64, k: u64|
        now.nodes.dom().contains(j) && now.nodes.dom().contains(k) implies
        #[trigger] now.nodes[j].log == #[trigger] now.nodes[k].log by {
        assert(c.nodes.dom().contains(j));
        assert(c.nodes.dom().contains(k));
    }
}

/// The nodes other than the leader, among the first ones.
spec fn followers(order: Seq<u64>, leader: u64) -> Set<u64> {
    Set::new(|k: u64| order.contains(k) && k != leader)
}

proof fn lemma_acks_commit(n: NodeView, leader: u64, order: Seq<u64>)
    requires
        n.role == NodeRole::Leader,
        0 < n.log.len() <= u64::MAX,
        n.log.last().term == n.current_term,
        n.commit_index <= n.log.len(),
        n.match_index.dom().finite(),
        order.no_duplicates(),
    ensures
        ({
            let index = n.log.len() as u64;
            let r = after_acks(n, leader, order, index);
            &&& r.commit_index <= index
            &&& r.match_index.dom().finite()
            &&& followers(order, leader).finite()
            &&& followers(order, leader).subset_of(holders(r.match_index, index))
            &&& 1 + followers(order, leader).len() >= n.majority() && followers(
                order,
                leader,
            ).len() > 0 ==> r.commit_index == index
        }),
    decreases order.len(),
{
    let index = n.log.len() as u64;
    lemma_acks_keep(n, leader, order, index);
    if order.len() == 0 {
        assert(followers(order, leader) =~= Set::empty());
    } else {
        let front = order.drop_last();
        let last = order.last();
        let before = after_acks(n, leader, front, index);
        lemma_acks_keep(n, leader, front, index);
        lemma_acks_commit(n, leader, front);
        assert forall|k: u64| order.contains(k) <==> front.contains(k) || k == last by {
            if front.contains(k) {
                let j = front.index_of(k);
                assert(order[j] == k);
            }
            assert(order[order.len() - 1] == last);
            if order.contains(k) && k != last {
                let j = order.index_of(k);
                assert(front[j] == k);
            }
        }
        assert(!front.contains(last)) by {
            if front.contains(last) {
                let j = front.index_of(last);
                assert(order[j] == order[order.len() - 1]);
            }
        }
        if last == leader {
            assert(followers(order, leader) =~= followers(front, leader));
        } else {
            let m = before.match_index.insert(last, index);
            assert(followers(order, leader) =~= followers(front, leader).insert(last));
            assert(followers(order, leader).subset_of(holders(m, index)));
            assert(holders(m, index).subset_of(m.dom()));
            vstd::set_lib::lemma_len_subset(holders(m, index), m.dom());
            vstd::set_lib::lemma_len_subset(followers(order, leader), holders(m, index));
            let a = agreed(m, before.commit_index, index, before.majority());
            lemma_agreed_range(m, before.commit_index, index, before.majority());
            if 1 + followers(order, leader).len() >= n.majority() {
                assert(1 + holders(m, index).len() >= before.majority());
                assert(index > before.commit_index ==> a == index);
            }
        }
    }
}

proof fn lemma_agreed_range(m: Map<u64, u64>, low: u64, n: u64, majority: nat)
    ensures
        agreed(m, low, n, majority) == low || low < agreed(m, low, n, majority) <= n,
    decreases n,
{
    if n > low && 1 + holders(m, n).len() < majority {
        lemma_agreed_range(m, low, (n - 1) as u64, majority);
    }
}

/// An entry that was replicated is committed, where the leader and the other
/// nodes are a majority of those that the leader counts on.
pub proof fn law_replicated_entry_is_committed(c: ClusterView, leader: u64, data: Seq<u8>)
    requires
        c.wf(),
        c.leader == Some(leader),
        c.led(),
        c.order.len() > 1,
        c.order.len() >= c.nodes[leader].majority(),
        c.nodes[leader].log.len() + 1 < u64::MAX,
        c.nodes[leader].commit_index <= c.nodes[leader].log.len(),
        c.nodes[leader].match_index.dom().finite(),
    ensures
        c.replicated(data).nodes[leader].commit_index == c.nodes[leader].log.len() + 1,
{
    let first = c.nodes[leader].appended(data);
    lemma_acks_commit(first, leader, c.order);
    let f = followers(c.order, leader);
    assert(c.order.contains(leader)) by {
        assert(c.nodes.dom().contains(leader));
    }
    assert(f =~= c.order.to_set().remove(leader));
    c.order.unique_seq_to_set();
    assert(f.len() == c.order.len() - 1);
}

/// After a snapshot was taken and installed, every node has committed at least
/// what it holds.
pub proof fn law_snapshot_reaches_all(c: ClusterView, leader: u64, node: u64)
    requires
        c.leader == Some(leader),
        c.nodes.dom().contains(leader),
        c.nodes.dom().contains(node),
    ensures
        c.synced().nodes[node].commit_index >= c.nodes[leader].snapshot().last_included_index,
        c.nodes[node].commit_index <= c.nodes[leader].commit_index
            ==> c.synced().nodes[node].commit_index == c.nodes[leader].commit_index,
{
}

} // verus!
