//! What Raft promises: a leader has the votes of more than half of the cluster,
//! and more than half of the cluster has what is committed.

use vstd::prelude::*;

use crate::replication::cluster::{vote_count, ClusterView};
use crate::replication::node::{
    agreed, holders, snapshot_data, EntryView, NodeRole, NodeView, SnapshotView,
};
use crate::sequences::{lemma_filter_contains, lemma_push_contains, other_than};

verus! {

/// The followers that a leader knows to have the entries up to an index.
pub open spec fn having(m: Map<u64, u64>, index: int) -> Set<u64> {
    Set::new(|f: u64| m.contains_key(f) && m[f] as int >= index)
}

/// Whether so many nodes are more than half of a cluster.
pub open spec fn more_than_half(count: nat, cluster: nat) -> bool {
    2 * count > cluster
}

/// How many members a node's cluster has, itself counted.
pub open spec fn members(n: NodeView) -> nat {
    n.peers.len() + 1
}

proof fn lemma_agreed(m: Map<u64, u64>, low: u64, n: u64, majority: nat)
    ensures
        ({
            let a = agreed(m, low, n, majority);
            &&& a == low || (low < a <= n && 1 + having(m, a as int).len() >= majority)
            &&& forall|k: u64|
                a < k <= n ==> 1 + (#[trigger] having(m, k as int)).len() < majority
        }) || n <= low,
        n <= low ==> agreed(m, low, n, majority) == low,
    decreases n,
{
    assert(holders(m, n) =~= having(m, n as int));
    if n > low && 1 + holders(m, n).len() < majority {
        lemma_agreed(m, low, (n - 1) as u64, majority);
        let a = agreed(m, low, n, majority);
        assert forall|k: u64| a < k <= n implies 1 + (#[trigger] having(m, k as int)).len()
            < majority by {}
    }
}

/// A leader commits only what it and the followers that have it are more than
/// half of the cluster for, only up to an entry of its own term, and never less
/// than before. Where more than half have the entries up to an index, and the
/// entries from there on are of its term, the leader commits at least those.
pub proof fn law_commit_needs_majority(n: NodeView, follower: u64, index: u64, k: u64)
    requires
        n.role == NodeRole::Leader,
        n.log.len() <= u64::MAX,
    ensures
        ({
            let r = n.acknowledged(follower, index);
            &&& r.commit_index >= n.commit_index
            &&& r.commit_index > n.commit_index ==> {
                &&& more_than_half(
                    1 + having(r.match_index, r.commit_index as int).len(),
                    members(n),
                )
                &&& r.commit_index <= n.log.len()
                &&& n.log[r.commit_index - 1].term == n.current_term
            }
            &&& 0 < k <= n.log.len() && more_than_half(
                1 + having(r.match_index, k as int).len(),
                members(n),
            ) && (forall|j: int|
                k - 1 <= j < n.log.len() ==> (#[trigger] n.log[j]).term == n.current_term)
                ==> r.commit_index >= k
        }),
{
    let m = n.match_index.insert(follower, index);
    let a = agreed(m, n.commit_index, n.log.len() as u64, n.majority());
    lemma_agreed(m, n.commit_index, n.log.len() as u64, n.majority());
    let r = n.acknowledged(follower, index);
    assert(r.match_index == m);
    if 0 < k <= n.log.len() && more_than_half(1 + having(m, k as int).len(), members(n)) && (forall|
        j: int,
    |
        k - 1 <= j < n.log.len() ==> (#[trigger] n.log[j]).term == n.current_term) {
        if k > n.commit_index {
            assert(a >= k) by {
                if a < k {
                    assert(1 + having(m, k as int).len() < n.majority());
                }
            }
            assert(n.log[a - 1].term == n.current_term);
        }
    }
}

/// A leader takes note of what a follower has, and of the entry to send next.
/// Nothing else but the commit index changes, and on other nodes nothing.
pub proof fn law_acknowledgement_is_noted(n: NodeView, follower: u64, index: u64, other: u64)
    requires
        index < u64::MAX,
    ensures
        ({
            let r = n.acknowledged(follower, index);
            &&& n.role != NodeRole::Leader ==> r == n
            &&& n.role == NodeRole::Leader ==> r.match_index.contains_key(follower)
                && r.match_index[follower] == index && r.next_index.contains_key(follower)
                && r.next_index[follower] == index + 1
            &&& other != follower ==> {
                &&& r.match_index.contains_key(other) == n.match_index.contains_key(other)
                &&& r.match_index[other] == n.match_index[other]
                &&& r.next_index.contains_key(other) == n.next_index.contains_key(other)
                &&& r.next_index[other] == n.next_index[other]
            }
            &&& r.log == n.log && r.role == n.role && r.current_term == n.current_term && r.peers
                == n.peers && r.voted_for == n.voted_for && r.last_applied == n.last_applied && r.id
                == n.id && r.votes_received == n.votes_received
        }),
{
}

/// Standing for election begins a new term with one vote, the node's own.
pub proof fn law_candidate_votes_for_itself(n: NodeView)
    requires
        n.current_term < u64::MAX,
    ensures
        ({
            let r = n.candidate();
            &&& r.role == NodeRole::Candidate
            &&& r.current_term == n.current_term + 1
            &&& r.voted_for == Some(n.id)
            &&& r.votes_received == 1
            &&& r.log == n.log && r.commit_index == n.commit_index && r.peers == n.peers && r.id
                == n.id && r.last_applied == n.last_applied
        }),
{
}

/// A vote makes a candidate the leader exactly where more than half of the
/// cluster has voted for it then. It counts only for a candidate.
pub proof fn law_leader_has_majority(n: NodeView)
    requires
        n.votes_received < u32::MAX,
    ensures
        ({
            let r = n.with_vote();
            &&& n.role == NodeRole::Candidate ==> {
                &&& r.votes_received == n.votes_received + 1
                &&& r.role == NodeRole::Leader <==> more_than_half(
                    (n.votes_received + 1) as nat,
                    members(n),
                )
                &&& r.role == NodeRole::Leader || r.role == NodeRole::Candidate
            }
            &&& n.role != NodeRole::Candidate ==> r == n
            &&& r.log == n.log && r.commit_index == n.commit_index && r.current_term
                == n.current_term && r.voted_for == n.voted_for && r.peers == n.peers
        }),
{
}

/// A new leader knows of no entry that a peer has, and sends each peer what
/// comes behind its own log.
pub proof fn law_new_leader_starts_over(n: NodeView, peer: u64)
    requires
        n.log.len() < u64::MAX,
    ensures
        ({
            let r = n.leading();
            &&& r.role == NodeRole::Leader
            &&& n.peers.contains(peer) ==> r.match_index.contains_key(peer)
                && r.match_index[peer] == 0 && r.next_index.contains_key(peer)
                && r.next_index[peer] == n.log.len() + 1
            &&& !n.peers.contains(peer) ==> r.match_index.contains_key(peer)
                == n.match_index.contains_key(peer)
            &&& !n.peers.contains(peer) && n.match_index.contains_key(peer)
                ==> r.match_index[peer] == n.match_index[peer]
            &&& r.log == n.log && r.commit_index == n.commit_index && r.current_term
                == n.current_term
        }),
{
}

/// An appended entry is the last one: of the leader's term, numbered by its
/// place, with the given data. The earlier entries stay, and nothing is
/// committed by it.
pub proof fn law_appended_entry(n: NodeView, data: Seq<u8>, i: int)
    requires
        n.log.len() < u64::MAX,
        0 <= i < n.log.len(),
    ensures
        ({
            let r = n.appended(data);
            &&& r.log.len() == n.log.len() + 1
            &&& r.log[i] == n.log[i]
            &&& r.log.last() == EntryView {
                term: n.current_term,
                index: (n.log.len() + 1) as u64,
                data,
            }
            &&& r.commit_index == n.commit_index && r.role == n.role && r.current_term
                == n.current_term && r.peers == n.peers && r.match_index == n.match_index
        }),
{
}

/// What is applied are the committed entries that were not applied before, in
/// order; right afterwards there is nothing to apply.
pub proof fn law_applied_once(n: NodeView, i: int)
    requires
        n.commit_index <= n.log.len(),
    ensures
        n.last_applied <= n.commit_index ==> n.to_apply().len() == n.commit_index
            - n.last_applied,
        n.last_applied >= n.commit_index ==> n.to_apply().len() == 0,
        0 <= i < n.to_apply().len() ==> n.to_apply()[i] == n.log[n.last_applied + i],
        n.applied().to_apply().len() == 0,
        n.applied().last_applied >= n.commit_index,
        n.applied().last_applied >= n.last_applied,
        n.applied().commit_index == n.commit_index,
        n.applied().log == n.log,
{
}

proof fn lemma_snapshot_join(a: Seq<EntryView>, b: Seq<EntryView>)
    ensures
        snapshot_data(a + b) == snapshot_data(a) + snapshot_data(b),
    decreases b.len(),
{
    if b.len() == 0 {
        assert(a + b =~= a);
        assert(snapshot_data(a) + snapshot_data(b) =~= snapshot_data(a));
    } else {
        assert((a + b).drop_last() =~= a + b.drop_last());
        assert((a + b).last() == b.last());
        lemma_snapshot_join(a, b.drop_last());
        assert(snapshot_data(a + b) =~= snapshot_data(a) + snapshot_data(b));
    }
}

/// The data of a snapshot is that of its entries one after the other, each
/// with a line feed behind it.
pub proof fn law_snapshot_data(a: Seq<EntryView>, b: Seq<EntryView>, e: EntryView)
    ensures
        snapshot_data(seq![]) == Seq::<u8>::empty(),
        snapshot_data(seq![e]) == e.data.push(10u8),
        snapshot_data(a + b) == snapshot_data(a) + snapshot_data(b),
{
    lemma_snapshot_join(a, b);
    reveal_with_fuel(snapshot_data, 2);
    assert(seq![e].drop_last() =~= seq![]);
    assert(seq![e].last() == e);
    assert(snapshot_data(seq![e]) =~= e.data.push(10u8));
}

/// A snapshot holds the committed entries and says which one is the last of
/// them; the log keeps the others.
pub proof fn law_snapshot_splits_log(n: NodeView)
    requires
        n.commit_index <= n.log.len(),
    ensures
        ({
            let kept = n.truncated().log;
            let s = n.snapshot();
            &&& kept.len() == n.log.len() - n.commit_index
            &&& forall|i: int|
                0 <= i < kept.len() ==> #[trigger] kept[i] == n.log[n.commit_index + i]
            &&& s.last_included_index == n.commit_index
            &&& n.commit_index > 0 ==> s.last_included_term == n.log[n.commit_index - 1].term
            &&& n.commit_index == 0 ==> s.data == Seq::<u8>::empty()
            &&& snapshot_data(n.log) == s.data + snapshot_data(kept)
            &&& n.truncated().commit_index == n.commit_index && n.truncated().role == n.role
                && n.truncated().current_term == n.current_term
        }),
{
    let c = n.commit_index as int;
    assert(n.log =~= n.log.take(c) + n.log.skip(c));
    lemma_snapshot_join(n.log.take(c), n.log.skip(c));
    if c == 0 {
        assert(n.log.take(0) =~= seq![]);
    }
}

/// A snapshot that is ahead takes its entries' place: the node has committed
/// and applied them, and keeps of its log what comes behind them. One that is
/// not ahead changes nothing.
pub proof fn law_installed_snapshot(n: NodeView, s: SnapshotView)
    ensures
        ({
            let r = n.installed(s);
            &&& s.last_included_index <= n.commit_index ==> r == n
            &&& s.last_included_index > n.commit_index ==> {
                &&& r.commit_index == s.last_included_index
                &&& r.last_applied == s.last_included_index
                &&& s.last_included_index <= n.log.len() ==> r.log.len() == n.log.len()
                    - s.last_included_index && forall|i: int|
                    0 <= i < r.log.len() ==> #[trigger] r.log[i] == n.log[s.last_included_index
                        + i]
                &&& s.last_included_index > n.log.len() ==> r.log.len() == 0
            }
            &&& r.current_term == n.current_term && r.role == n.role && r.peers == n.peers
        }),
{
}

/// A peer that was added is there once, and one that was removed is gone; the
/// others stay. A leader knows nothing yet of what a new peer has.
pub proof fn law_peers(n: NodeView, peer: u64, other: u64)
    requires
        n.log.len() < u64::MAX,
    ensures
        n.with_peer(peer).peers.contains(peer),
        n.peers.no_duplicates() ==> n.with_peer(peer).peers.no_duplicates(),
        !n.without_peer(peer).peers.contains(peer),
        other != peer ==> (n.with_peer(peer).peers.contains(other) <==> n.peers.contains(other)),
        other != peer ==> (n.without_peer(peer).peers.contains(other) <==> n.peers.contains(other)),
        !n.peers.contains(peer) && n.role == NodeRole::Leader ==> n.with_peer(peer).match_index[peer]
            == 0 && n.with_peer(peer).next_index[peer] == n.log.len() + 1,
        !n.without_peer(peer).match_index.contains_key(peer),
        !n.without_peer(peer).next_index.contains_key(peer),
        n.with_peer(peer).log == n.log,
        n.without_peer(peer).log == n.log,
{
    lemma_push_contains(n.peers, peer, peer);
    lemma_push_contains(n.peers, peer, other);
    lemma_filter_contains(n.peers, other_than(peer), peer);
    lemma_filter_contains(n.peers, other_than(peer), other);
    if n.peers.no_duplicates() && !n.peers.contains(peer) {
        let s = n.peers.push(peer);
        assert forall|i: int, j: int|
            0 <= i < s.len() && 0 <= j < s.len() && i != j implies s[i] != s[j] by {
            if i < n.peers.len() {
                assert(n.peers.contains(n.peers[i]));
            }
            if j < n.peers.len() {
                assert(n.peers.contains(n.peers[j]));
            }
        }
    }
}

/// The nodes other than the candidate that are in an earlier term than the
/// election's, or have not voted.
pub open spec fn voters(c: ClusterView, candidate: u64, term: int) -> Set<u64> {
    Set::new(
        |k: u64|
            c.order.contains(k) && k != candidate && ((c.nodes[k].current_term as int) < term
                || c.nodes[k].voted_for is None),
    )
}

proof fn lemma_votes(c: ClusterView, order: Seq<u64>, candidate: u64, term: u64)
    requires
        order.no_duplicates(),
    ensures
        voters(ClusterView { order, ..c }, candidate, term as int).finite(),
        vote_count(c.nodes, order, candidate, term) == voters(
            ClusterView { order, ..c },
            candidate,
            term as int,
        ).len(),
    decreases order.len(),
{
    let now = voters(ClusterView { order, ..c }, candidate, term as int);
    if order.len() == 0 {
        assert(now =~= Set::empty());
    } else {
        let front = order.drop_last();
        let last = order.last();
        lemma_votes(c, front, candidate, term);
        let before = voters(ClusterView { order: front, ..c }, candidate, term as int);
        assert(order =~= front.push(last));
        assert forall|k: u64| order.contains(k) <==> front.contains(k) || k == last by {
            lemma_push_contains(front, last, k);
        }
        assert(!front.contains(last)) by {
            if front.contains(last) {
                let j = front.index_of(last);
                assert(order[j] == order[order.len() - 1]);
            }
        }
        if last != candidate && ((c.nodes[last].current_term < term)
            || c.nodes[last].voted_for is None) {
            assert(now =~= before.insert(last));
        } else {
            assert(now =~= before);
        }
    }
}

/// A candidate wins an election exactly where it and the nodes that vote for
/// it are more than half of the cluster. The winner leads; without a winner the
/// leader stays who it was.
pub proof fn law_winner_has_majority(c: ClusterView, candidate: u64, node: u64)
    requires
        c.wf(),
        c.nodes.contains_key(candidate),
        c.nodes[candidate].current_term < u64::MAX,
        c.nodes.contains_key(node),
    ensures
        ({
            let term = c.nodes[candidate].current_term + 1;
            let won = more_than_half(1 + voters(c, candidate, term).len(), c.order.len());
            let r = c.elected(candidate);
            &&& won ==> r.leader == Some(candidate) && r.nodes[candidate].role == NodeRole::Leader
            &&& !won ==> r.leader == c.leader && r.nodes[candidate].role == NodeRole::Candidate
            &&& r.nodes[candidate].current_term == term
            &&& r.nodes[candidate].voted_for == Some(c.nodes[candidate].id)
            &&& voters(c, candidate, term).contains(node) ==> r.nodes[node].voted_for == Some(
                candidate,
            ) && r.nodes[node].current_term == term
            &&& node != candidate && !voters(c, candidate, term).contains(node) ==> r.nodes[node]
                == c.nodes[node]
            &&& r.nodes[node].log == c.nodes[node].log && r.nodes[node].commit_index
                == c.nodes[node].commit_index
            &&& r.order == c.order
        }),
{
    let term = c.next_term(candidate);
    lemma_votes(c, c.order, candidate, term);
    assert(ClusterView { order: c.order, ..c } == c);
    assert(c.order.contains(node)) by {
        assert(c.nodes.dom().contains(node));
    }
}

/// A node that joins is there with an empty log and knows the others, who know
/// it; one that leaves is gone, and nobody counts on it.
pub proof fn law_membership(c: ClusterView, node: u64, other: u64)
    requires
        c.wf(),
        c.nodes.contains_key(other),
        other != node,
        forall|k: u64| #[trigger] c.nodes.contains_key(k) ==> c.nodes[k].log.len() < u64::MAX,
    ensures
        c.with_node(node).nodes.contains_key(node),
        ({
            let n = c.with_node(node).nodes[node];
            &&& n.id == node && n.role == NodeRole::Follower && n.log.len() == 0
            &&& n.commit_index == 0 && n.last_applied == 0 && n.current_term == 0
            &&& n.voted_for is None && n.votes_received == 0 && n.peers == c.order
        }),
        c.with_node(node).order.contains(node),
        c.with_node(node).nodes[other].peers.contains(node),
        c.with_node(node).nodes[other].log == c.nodes[other].log,
        !c.without_node(node).nodes.contains_key(node),
        !c.without_node(node).order.contains(node),
        c.without_node(node).nodes.contains_key(other),
        !c.without_node(node).nodes[other].peers.contains(node),
        c.without_node(node).nodes[other].log == c.nodes[other].log,
{
    law_peers(c.nodes[other], node, other);
    lemma_push_contains(c.order, node, node);
    assert(c.order.contains(node) <==> c.nodes.dom().contains(node));
    let gone = c.without_node(node);
    if c.order.contains(node) {
        let i = c.order.index_of(node);
        let rest = c.order.remove(i);
        assert(!rest.contains(node)) by {
            if rest.contains(node) {
                let j = rest.index_of(node);
                let k = if j < i {
                    j
                } else {
                    j + 1
                };
                assert(c.order[k] == node);
            }
        }
    }
}

} // verus!
