//! Consensus, transport and log shipping.

use cendb::replication::cluster::RaftCluster;
use cendb::replication::node::{NodeRole, RaftNode, RaftSnapshot};
use cendb::replication::tcp_transport::{
    frame, frame_len, unframe, FailoverManager, PeerAddr, RaftMessage, ReadRouter, TcpTransport,
};
use cendb::replication::wal_shipping::{
    parse_segment_name, segment_file_name, ReplicaApplier, ShipError, ShipPolicy, ShipTarget,
    WalShipper,
};

const MILLI: u64 = 1_000_000;

#[test]
fn leader_election() {
    let mut cluster = RaftCluster::new_3_node();
    assert!(cluster.leader.is_none());

    let elected = cluster.elect_leader(1);
    assert!(elected);
    assert_eq!(cluster.leader, Some(1));
    assert!(cluster.nodes.get(1).unwrap().is_leader());
}

#[test]
fn log_replication() {
    let mut cluster = RaftCluster::new_3_node();
    cluster.elect_leader(1);

    for i in 0..5 {
        cluster.replicate_entry(format!("entry_{}", i).into_bytes());
    }

    assert!(cluster.verify_consistency());
    assert_eq!(cluster.nodes.get(1).unwrap().log_len(), 5);
    assert_eq!(cluster.nodes.get(2).unwrap().log_len(), 5);
    assert_eq!(cluster.nodes.get(3).unwrap().log_len(), 5);
}

#[test]
fn committed_entries_applied() {
    let mut cluster = RaftCluster::new_3_node();
    cluster.elect_leader(1);
    cluster.replicate_entry(b"cmd1".to_vec());
    cluster.replicate_entry(b"cmd2".to_vec());

    let leader_commit = cluster.nodes.get(1).unwrap().commit_index;
    for i in 0..cluster.nodes.len() {
        cluster.nodes.value_mut(i).commit_index = leader_commit;
    }
    cluster.apply_all();

    assert_eq!(cluster.nodes.get(1).unwrap().last_applied, 2);
}

#[test]
fn no_leader_no_writes() {
    let mut cluster = RaftCluster::new_3_node();
    let result = cluster.replicate_entry(b"data".to_vec());
    assert_eq!(result, 0);
}

#[test]
fn snapshot_truncates_log() {
    let mut cluster = RaftCluster::new_3_node();
    cluster.elect_leader(1);
    for i in 0..10 {
        cluster.replicate_entry(format!("entry_{}", i).into_bytes());
    }

    let place = cluster.nodes.find(1).unwrap();
    let leader = cluster.nodes.value_mut(place);
    assert_eq!(leader.log_len(), 10);

    let snapshot = leader.create_snapshot();
    assert_eq!(snapshot.last_included_index, 10);
    assert_eq!(leader.log_len(), 0);
}

#[test]
fn snapshot_install_on_follower() {
    let mut cluster = RaftCluster::new_3_node();
    cluster.elect_leader(1);
    for i in 0..5 {
        cluster.replicate_entry(format!("entry_{}", i).into_bytes());
    }

    let snapshot = cluster.snapshot_and_sync().unwrap();
    assert_eq!(snapshot.last_included_index, 5);

    for i in 0..cluster.nodes.len() {
        assert_eq!(cluster.nodes.value_at(i).commit_index, 5);
    }
}

#[test]
fn dynamic_membership_add() {
    let mut cluster = RaftCluster::new_3_node();
    cluster.elect_leader(1);
    cluster.add_node(4);

    assert_eq!(cluster.nodes.len(), 4);
    assert!(cluster.nodes.get(1).unwrap().next_index.contains_key(4));
}

#[test]
fn dynamic_membership_remove() {
    let mut cluster = RaftCluster::new_3_node();
    cluster.elect_leader(1);
    cluster.remove_node(3);

    assert_eq!(cluster.nodes.len(), 2);
    assert!(!cluster.nodes.get(1).unwrap().peers.contains(&3));
}

#[test]
fn snapshot_holds_the_entries_line_by_line() {
    let mut cluster = RaftCluster::new_3_node();
    cluster.elect_leader(2);
    cluster.replicate_entry(b"a".to_vec());
    cluster.replicate_entry(b"bc".to_vec());
    let snapshot = cluster.snapshot_and_sync().unwrap();
    assert_eq!(snapshot.data, b"a\nbc\n".to_vec());
    assert_eq!(snapshot.last_included_term, 1);
}

#[test]
fn single_node_leads_at_once() {
    let mut node = RaftNode::new(7, vec![]);
    assert_eq!(node.role, NodeRole::Follower);
    node.start_election();
    assert_eq!(node.current_term, 1);
    assert_eq!(node.role, NodeRole::Candidate);
    node.become_leader();
    assert!(node.is_leader());
    assert_eq!(node.append_entry(b"x".to_vec()), 1);
    assert_eq!(node.log_len(), 1);
}

#[test]
fn older_snapshot_changes_nothing() {
    let mut node = RaftNode::new(1, vec![2]);
    node.commit_index = 4;
    node.install_snapshot(&RaftSnapshot {
        last_included_index: 4,
        last_included_term: 1,
        data: vec![],
    });
    assert_eq!(node.commit_index, 4);
    assert_eq!(node.last_applied, 0);

    let mut node = RaftNode::new(1, vec![2]);
    node.append_entry(b"a".to_vec());
    node.install_snapshot(&RaftSnapshot {
        last_included_index: 9,
        last_included_term: 1,
        data: vec![],
    });
    assert!(node.log.is_empty());
    assert_eq!(node.commit_index, 9);
}

#[test]
fn unequal_logs_are_inconsistent() {
    let mut cluster = RaftCluster::new_3_node();
    cluster.elect_leader(1);
    cluster.replicate_entry(b"same".to_vec());
    assert!(cluster.verify_consistency());
    let place = cluster.nodes.find(3).unwrap();
    cluster.nodes.value_mut(place).log[0].data = b"else".to_vec();
    assert!(!cluster.verify_consistency());
}

#[test]
fn read_router_round_robin() {
    let mut router = ReadRouter::new(vec![1, 2, 3]);
    assert_eq!(router.next_replica(), Some(1));
    assert_eq!(router.next_replica(), Some(2));
    assert_eq!(router.next_replica(), Some(3));
    assert_eq!(router.next_replica(), Some(1));
}

#[test]
fn read_router_add_remove() {
    let mut router = ReadRouter::new(vec![1, 2]);
    assert_eq!(router.replica_count(), 2);
    router.add_replica(3);
    assert_eq!(router.replica_count(), 3);
    router.remove_replica(2);
    assert_eq!(router.replica_count(), 2);
}

#[test]
fn read_router_empty() {
    let mut router = ReadRouter::new(vec![]);
    assert_eq!(router.next_replica(), None);
}

#[test]
fn failover_manager_timeout() {
    let mut mgr = FailoverManager::new(10 * MILLI, 0);
    mgr.set_leader(2, 0);
    assert!(!mgr.check_failover(0));
    assert!(mgr.check_failover(20 * MILLI));
}

#[test]
fn failover_manager_heartbeat_resets() {
    let mut mgr = FailoverManager::new(50 * MILLI, 0);
    mgr.set_leader(2, 0);
    mgr.record_heartbeat(30 * MILLI);
    assert!(!mgr.check_failover(60 * MILLI));
    assert_eq!(mgr.leader(), Some(2));
}

#[test]
fn tcp_transport_peer_management() {
    let mut transport = TcpTransport::new(1, "127.0.0.1:0".to_string());
    transport.add_peer(2, "127.0.0.1:8081".to_string());
    transport.add_peer(3, "127.0.0.1:8082".to_string());
    assert_eq!(transport.peer_ids().len(), 2);
    transport.remove_peer(2);
    assert_eq!(transport.peer_ids().len(), 1);
    assert_eq!(transport.address_of(3).unwrap(), "127.0.0.1:8082");
    assert!(transport.address_of(2).is_err());
    assert_eq!(transport.peer_ids(), vec![3]);
}

#[test]
fn received_messages_are_polled_once() {
    let mut transport = TcpTransport::new(1, "127.0.0.1:0".to_string());
    transport.receive(RaftMessage::LeaderPromotion { node_id: 5, term: 1 });
    transport.receive(RaftMessage::VoteResponse { term: 1, vote_granted: true });
    let polled = transport.poll_incoming();
    assert_eq!(polled.len(), 2);
    assert_eq!(polled[0].0, 1);
    assert!(matches!(polled[0].1, RaftMessage::LeaderPromotion { node_id: 5, term: 1 }));
    assert!(matches!(polled[1].1, RaftMessage::VoteResponse { vote_granted: true, .. }));
    assert_eq!(transport.poll_incoming().len(), 0);
}

#[test]
fn frames_carry_their_length() {
    let framed = frame(b"hello");
    assert_eq!(framed, vec![5, 0, 0, 0, b'h', b'e', b'l', b'l', b'o']);
    assert_eq!(frame_len(&framed[0..4]), 5);
    assert_eq!(unframe(&framed), Some(b"hello".to_vec()));
    assert_eq!(unframe(&framed[0..7]), None);
    assert_eq!(unframe(&framed[0..3]), None);
}

#[test]
fn ship_segment_writes_file() {
    let mut shipper =
        WalShipper::new(ShipTarget::Directory("ship".to_string()), ShipPolicy::OnCommit);
    let data = b"WAL_RECORD_DATA";
    let (_, name) = shipper.begin_ship(42).unwrap();
    assert_eq!(name, "wal_00000000000000000042.seg");
    let bytes = shipper.finish_ship(42, data.len(), 0);
    assert_eq!(bytes, data.len());
    assert_eq!(shipper.last_shipped_lsn(), 42);
    assert_eq!(shipper.segments_shipped(), 1);
    assert_eq!(shipper.bytes_shipped(), data.len() as u64);
}

#[test]
fn duplicate_lsn_rejected() {
    let mut shipper =
        WalShipper::new(ShipTarget::Directory("dup".to_string()), ShipPolicy::OnCommit);
    assert!(shipper.begin_ship(1).is_ok());
    shipper.finish_ship(1, 1, 0);
    let result = shipper.begin_ship(1);
    assert!(matches!(result, Err(ShipError::SegmentAlreadyShipped)));
}

#[test]
fn interval_policy_throttles() {
    let mut shipper = WalShipper::new(
        ShipTarget::Directory("int".to_string()),
        ShipPolicy::Interval(60_000 * MILLI),
    );
    assert!(shipper.should_ship(100));
    shipper.finish_ship(1, 1, 100);
    assert!(!shipper.should_ship(100));
    assert!(shipper.should_ship(100 + 60_000 * MILLI));
}

#[test]
fn replica_applier_catches_up() {
    let names = vec![
        segment_file_name(30),
        segment_file_name(10),
        "notes.txt".to_string(),
        segment_file_name(20),
    ];
    let mut replica = ReplicaApplier::new("replica".to_string());
    let applied = replica.catch_up(&names);
    assert_eq!(applied, 3);
    assert_eq!(replica.last_applied_lsn(), 30);
    let applied2 = replica.catch_up(&names);
    assert_eq!(applied2, 0);
}

#[test]
fn segment_names_are_read_back() {
    assert_eq!(segment_file_name(7), "wal_00000000000000000007.seg");
    assert_eq!(parse_segment_name("wal_00000000000000000007.seg"), Some(7));
    assert_eq!(parse_segment_name(&segment_file_name(u64::MAX)), Some(u64::MAX));
    assert_eq!(parse_segment_name("wal_x.seg"), None);
    assert_eq!(parse_segment_name("other"), None);
}

#[test]
fn ship_errors_are_told() {
    assert_eq!(ShipError::SegmentAlreadyShipped.message(), "WAL segment already shipped");
    assert_eq!(ShipError::InvalidTarget.message(), "invalid WAL ship target");
    assert_eq!(ShipError::Io("full".to_string()).message(), "WAL ship IO error: full");
}

#[test]
fn a_majority_of_votes_makes_a_leader() {
    let mut node = RaftNode::new(1, vec![2, 3, 4, 5]);
    assert!(!node.receive_vote());
    node.start_election();
    assert!(!node.receive_vote());
    assert!(!node.is_leader());
    assert!(node.receive_vote());
    assert!(node.is_leader());
    assert!(!node.receive_vote());
}

#[test]
fn peers_have_addresses() {
    let peer = PeerAddr { node_id: 2, addr: "127.0.0.1:9".to_string() };
    let mut transport = TcpTransport::new(1, "127.0.0.1:0".to_string());
    assert_eq!(transport.address_of(2), Err("unknown peer 2".to_string()));
    transport.add_peer(peer.node_id, peer.addr.clone());
    assert_eq!(transport.address_of(2), Ok("127.0.0.1:9"));
}
