use cendb::ids::{BlockId, NodeId, SegmentId};
use cendb::projection::graph::{CsrOverlay, GraphProjection};

#[test]
fn csr_neighbors_basic() {
    let edges = vec![
        (NodeId(0), NodeId(1), (BlockId(0), 0)),
        (NodeId(0), NodeId(2), (BlockId(0), 1)),
        (NodeId(1), NodeId(3), (BlockId(0), 2)),
        (NodeId(2), NodeId(3), (BlockId(0), 3)),
        (NodeId(3), NodeId(4), (BlockId(0), 4)),
    ];
    let csr = CsrOverlay::build(edges);
    assert_eq!(csr.node_count(), 5);
    assert_eq!(csr.edge_count(), 5);

    let n0 = csr.neighbors(NodeId(0));
    assert_eq!(n0, &[NodeId(1), NodeId(2)]);

    let n1 = csr.neighbors(NodeId(1));
    assert_eq!(n1, &[NodeId(3)]);

    let n4 = csr.neighbors(NodeId(4));
    assert!(n4.is_empty());
}

#[test]
fn two_hop_traversal() {
    let mut g = GraphProjection::new(SegmentId(1), 16 * 1024);
    g.add_edge(NodeId(0), NodeId(1), "follows");
    g.add_edge(NodeId(0), NodeId(2), "follows");
    g.add_edge(NodeId(1), NodeId(3), "follows");
    g.add_edge(NodeId(2), NodeId(3), "follows");
    g.add_edge(NodeId(3), NodeId(4), "follows");
    g.flush().unwrap();
    g.build_csr().unwrap();

    let two_hop = g.two_hop(NodeId(0)).unwrap();
    assert!(two_hop.contains(&NodeId(3)));
    assert!(!two_hop.contains(&NodeId(4)));
}

#[test]
fn bfs_visits_all_reachable() {
    let mut g = GraphProjection::new(SegmentId(1), 16 * 1024);
    for i in 0..4u64 {
        g.add_edge(NodeId(i), NodeId(i + 1), "next");
    }
    g.flush().unwrap();
    g.build_csr().unwrap();

    let bfs = g.bfs(NodeId(0), 10).unwrap();
    assert_eq!(bfs.len(), 5);
    assert_eq!(bfs[0], (0, NodeId(0)));
    assert_eq!(bfs[4], (4, NodeId(4)));
}

#[test]
fn add_nodes_and_flush() {
    let mut g = GraphProjection::new(SegmentId(1), 16 * 1024);
    g.add_node(NodeId(0), "Person");
    g.add_node(NodeId(1), "Person");
    g.add_node(NodeId(2), "Product");
    g.flush().unwrap();
    assert_eq!(g.node_count(), 3);
}

#[test]
fn neighbours_keep_the_order_of_the_edges() {
    let csr = CsrOverlay::build(vec![
        (NodeId(2), NodeId(9), (BlockId(0), 0)),
        (NodeId(0), NodeId(5), (BlockId(0), 1)),
        (NodeId(2), NodeId(1), (BlockId(0), 2)),
        (NodeId(2), NodeId(9), (BlockId(0), 3)),
    ]);
    assert_eq!(csr.neighbors(NodeId(0)), &[NodeId(5)]);
    assert_eq!(csr.neighbors(NodeId(2)), &[NodeId(9), NodeId(1), NodeId(9)]);
    assert!(csr.neighbors(NodeId(100)).is_empty());
    assert_eq!(CsrOverlay::build(vec![]).node_count(), 1);
}

#[test]
fn walks_need_the_overlay_and_stop_at_their_depth() {
    let mut g = GraphProjection::new(SegmentId(1), 16 * 1024);
    g.add_edge(NodeId(0), NodeId(1), "x");
    assert!(g.neighbors(NodeId(0)).is_err());
    assert!(g.two_hop(NodeId(0)).is_err());
    assert!(g.bfs(NodeId(0), 1).is_err());
    g.flush().unwrap();
    g.build_csr().unwrap();
    assert_eq!(g.neighbors(NodeId(0)).unwrap(), vec![NodeId(1)]);
    assert_eq!(g.edge_count(), 1);
    assert_eq!(g.csr_node_count(), 2);

    let mut g = GraphProjection::new(SegmentId(1), 16 * 1024);
    g.add_edge(NodeId(0), NodeId(1), "next");
    g.add_edge(NodeId(1), NodeId(2), "next");
    g.add_edge(NodeId(2), NodeId(0), "next");
    g.flush().unwrap();
    g.build_csr().unwrap();
    assert_eq!(g.bfs(NodeId(0), 0).unwrap(), vec![(0, NodeId(0))]);
    assert_eq!(g.bfs(NodeId(0), 1).unwrap(), vec![(0, NodeId(0)), (1, NodeId(1))]);
    assert_eq!(g.bfs(NodeId(0), 9).unwrap().len(), 3);

    let mut g = GraphProjection::new(SegmentId(1), 16 * 1024);
    g.add_edge(NodeId(0), NodeId(1), "there");
    g.add_edge(NodeId(1), NodeId(0), "back");
    g.flush().unwrap();
    g.build_csr().unwrap();
    assert_eq!(g.two_hop(NodeId(0)).unwrap(), vec![NodeId(0)]);
}
