//! Graph projection: nodes and edges in blocks, with a compressed sparse row
//! overlay in memory that gives the neighbours of a node as one slice.

use vstd::prelude::*;
use vstd::slice::slice_subrange;

use crate::error::{constraint_error, CenError, CenResult};
use crate::ids::{BlockId, NodeId, SegmentId};
use crate::search::fuzzy::{stands_before, text_before};
use crate::sequences::lemma_filter_push;

verus! {

/// An edge: source, target, and the block and row of its record.
pub type Edge = (NodeId, NodeId, (BlockId, u32));

/// Whether an edge leaves the node.
pub open spec fn leaves(node: NodeId) -> spec_fn(Edge) -> bool {
    |e: Edge| e.0 == node
}

/// The target of an edge.
pub open spec fn target() -> spec_fn(Edge) -> NodeId {
    |e: Edge| e.1
}

/// The record of an edge.
pub open spec fn record() -> spec_fn(Edge) -> (BlockId, u32) {
    |e: Edge| e.2
}

/// The targets of the edges that leave the node, in the order of the edges.
pub open spec fn targets_of(edges: Seq<Edge>, node: NodeId) -> Seq<NodeId> {
    edges.filter(leaves(node)).map_values(target())
}

/// The records of the edges that leave the node, in the order of the edges.
pub open spec fn records_of(edges: Seq<Edge>, node: NodeId) -> Seq<(BlockId, u32)> {
    edges.filter(leaves(node)).map_values(record())
}

/// How many of the first `n` edges leave the node.
pub open spec fn degree(edges: Seq<Edge>, node: int, n: int) -> nat
    decreases n,
{
    if n <= 0 {
        0
    } else {
        degree(edges, node, n - 1) + if edges[n - 1].0.0 == node {
            1nat
        } else {
            0nat
        }
    }
}

/// How many of the first `n` edges leave nodes below `node`.
pub open spec fn below_among(edges: Seq<Edge>, node: int, n: int) -> nat
    decreases node,
{
    if node <= 0 {
        0
    } else {
        below_among(edges, node - 1, n) + degree(edges, node - 1, n)
    }
}

/// How many edges leave nodes below `node`.
pub open spec fn below(edges: Seq<Edge>, node: int) -> nat {
    below_among(edges, node, edges.len() as int)
}

/// The greatest node number among the first `n` edges; zero without edges.
pub open spec fn max_node(edges: Seq<Edge>, n: int) -> u64
    decreases n,
{
    if n <= 0 {
        0
    } else {
        let before = max_node(edges, n - 1);
        let e = edges[n - 1];
        let here = if e.0.0 > e.1.0 {
            e.0.0
        } else {
            e.1.0
        };
        if here > before {
            here
        } else {
            before
        }
    }
}

/// The overlay: node `i`'s targets are `adjacency[offsets[i]..offsets[i + 1]]`,
/// and `edge_refs` has the edges' records at the same places.
#[derive(Debug)]
pub struct CsrOverlay {
    /// Where each node's targets begin, and the number of edges at the end.
    pub offsets: Vec<u64>,
    /// The targets of all edges, by source.
    pub adjacency: Vec<NodeId>,
    /// The records of all edges, by source.
    pub edge_refs: Vec<(BlockId, u32)>,
}

impl CsrOverlay {
    /// The offsets do not decrease and stay within the targets.
    pub open spec fn wf(&self) -> bool {
        forall|i: int|
            0 <= i < self.offsets@.len() - 1 ==> #[trigger] self.offsets@[i] <= self.offsets@[i + 1]
                <= self.adjacency@.len()
    }

    /// The targets that the overlay has for a node; none for a node that it
    /// does not know.
    pub open spec fn slice(&self, node: NodeId) -> Seq<NodeId> {
        if node.0 < self.offsets@.len() - 1 {
            self.adjacency@.subrange(
                self.offsets@[node.0 as int] as int,
                self.offsets@[node.0 + 1] as int,
            )
        } else {
            seq![]
        }
    }

    /// Whether this is the overlay of the edges: every node up to the greatest
    /// has a slice, which holds the targets of its edges in their order, and
    /// the records stand at the same places.
    pub open spec fn overlays(&self, edges: Seq<Edge>) -> bool {
        let top = max_node(edges, edges.len() as int);
        &&& self.offsets@.len() == top + 2
        &&& self.adjacency@.len() == edges.len()
        &&& self.edge_refs@.len() == edges.len()
        &&& forall|i: int|
            0 <= i < self.offsets@.len() ==> #[trigger] self.offsets@[i] == below(edges, i)
        &&& slices_hold(
            edges,
            self.adjacency@,
            self.edge_refs@,
            top + 1,
            edges.len() as int,
        )
    }

    /// Builds the overlay of edges, which need not be sorted.
    pub fn build(edges: Vec<Edge>) -> (res: Self)
        requires
            max_node(edges@, edges@.len() as int) + 2 <= usize::MAX,
        ensures
            res.overlays(edges@),
            res.wf(),
    {
        let n: usize = edges.len();
        let mut top: u64 = 0;
        let mut k: usize = 0;
        while k < n
            invariant
                k <= n == edges@.len(),
                top == max_node(edges@, k as int),
            decreases n - k,
        {
            let e: Edge = edges[k];
            let here: u64 = if e.0.0 > e.1.0 {
                e.0.0
            } else {
                e.1.0
            };
            if here > top {
                top = here;
            }
            k = k + 1;
        }
        let count: usize = top as usize + 1;
        let ghost all = edges@;
        proof {
            lemma_nodes_within(all, n as int);
            lemma_below_total(all, count as int, n as int);
        }
        let offsets: Vec<u64> = count_offsets(&edges, count);
        let mut adjacency: Vec<NodeId> = Vec::new();
        let mut edge_refs: Vec<(BlockId, u32)> = Vec::new();
        let mut k: usize = 0;
        while k < n
            invariant
                k <= n,
                adjacency@.len() == k,
                edge_refs@.len() == k,
            decreases n - k,
        {
            adjacency.push(NodeId(0));
            edge_refs.push((BlockId(0), 0));
            k = k + 1;
        }
        let mut cursor: Vec<u64> = Vec::new();
        let mut k: usize = 0;
        while k < count
            invariant
                k <= count,
                cursor@.len() == k,
                forall|i: int| 0 <= i < k ==> #[trigger] cursor@[i] == 0,
            decreases count - k,
        {
            cursor.push(0);
            k = k + 1;
        }
        proof {
            lemma_slices_begin(all, adjacency@, edge_refs@, count as int);
        }
        let mut k: usize = 0;
        while k < n
            invariant
                k <= n == all.len(),
                all == edges@,
                count <= usize::MAX - 1,
                adjacency@.len() == n,
                edge_refs@.len() == n,
                cursor@.len() == count,
                offsets@.len() == count + 1,
                forall|i: int| 0 <= i < offsets@.len() ==> #[trigger] offsets@[i] == below(all, i),
                below(all, count as int) == n,
                forall|i: int| 0 <= i < n ==> (#[trigger] all[i]).0.0 < count,
                forall|i: int|
                    0 <= i < count ==> #[trigger] cursor@[i] == degree(all, i, k as int),
                slices_hold(all, adjacency@, edge_refs@, count as int, k as int),
            decreases n - k,
        {
            let e: Edge = edges[k];
            assert(all[k as int].0.0 < count);
            let s: usize = e.0.0 as usize;
            proof {
                lemma_degree_grows(all, s as int, k + 1, n as int);
                lemma_below_grows(all, s + 1, count as int);
                assert(offsets@[s as int] == below(all, s as int));
                assert(cursor@[s as int] == degree(all, s as int, k as int));
                lemma_degree_bound(all, s as int, k as int);
            }
            let pos: usize = (offsets[s] + cursor[s]) as usize;
            proof {
                lemma_write_slice(
                    all,
                    adjacency@,
                    edge_refs@,
                    count as int,
                    k as int,
                    pos as int,
                );
            }
            adjacency.set(pos, e.1);
            edge_refs.set(pos, e.2);
            let c: u64 = cursor[s];
            cursor.set(s, c + 1);
            k = k + 1;
        }
        let res = CsrOverlay { offsets, adjacency, edge_refs };
        proof {
            assert forall|i: int| 0 <= i < res.offsets@.len() - 1 implies #[trigger] res.offsets@[i]
                <= res.offsets@[i + 1] <= res.adjacency@.len() by {
                lemma_below_grows(all, i, i + 1);
                lemma_below_grows(all, i + 1, count as int);
                assert(res.offsets@[i + 1] == below(all, i + 1));
            }
        }
        res
    }

    /// The targets of the edges that leave a node.
    pub fn neighbors(&self, node: NodeId) -> (r: &[NodeId])
        requires
            self.wf(),
        ensures
            r@ == self.slice(node),
    {
        let n: usize = self.offsets.len();
        if n == 0 || node.0 >= (n - 1) as u64 {
            let none: &[NodeId] = slice_subrange(self.adjacency.as_slice(), 0, 0);
            assert(none@ =~= seq![]);
            return none;
        }
        let s: usize = node.0 as usize;
        let _edges: usize = self.adjacency.len();
        assert(self.offsets@[s as int] <= self.offsets@[s + 1]);
        let lo: usize = self.offsets[s] as usize;
        let hi: usize = self.offsets[s + 1] as usize;
        slice_subrange(self.adjacency.as_slice(), lo, hi)
    }

    /// The number of nodes that the overlay knows.
    pub fn node_count(&self) -> (r: usize)
        ensures
            r == (if self.offsets@.len() > 0 {
                self.offsets@.len() - 1
            } else {
                0
            }),
    {
        if self.offsets.len() > 0 {
            self.offsets.len() - 1
        } else {
            0
        }
    }

    /// The number of edges.
    pub fn edge_count(&self) -> (r: usize)
        ensures
            r == self.adjacency@.len(),
    {
        self.adjacency.len()
    }

    /// The overlay's slice for a node holds the targets of its edges, in the
    /// order in which the edges came.
    pub proof fn law_neighbors_are_targets(&self, edges: Seq<Edge>, node: NodeId)
        requires
            self.overlays(edges),
        ensures
            self.slice(node) == targets_of(edges, node),
    {
        let n = edges.len() as int;
        let top = max_node(edges, n);
        if node.0 < self.offsets@.len() - 1 {
            assert(slice_holds(edges, self.adjacency@, self.edge_refs@, node.0 as int, n));
            assert(self.offsets@[node.0 as int] == below(edges, node.0 as int));
            assert(self.offsets@[node.0 + 1] == below(edges, node.0 + 1));
            assert(edges.take(n) =~= edges);
        } else {
            lemma_nodes_within(edges, n);
            reveal(Seq::filter);
            lemma_no_targets(edges, node);
        }
    }
}

proof fn lemma_no_targets(edges: Seq<Edge>, node: NodeId)
    requires
        forall|i: int| 0 <= i < edges.len() ==> (#[trigger] edges[i]).0 != node,
    ensures
        targets_of(edges, node) == Seq::<NodeId>::empty(),
    decreases edges.len(),
{
    reveal(Seq::filter);
    if edges.len() > 0 {
        let front = edges.drop_last();
        assert forall|i: int| 0 <= i < front.len() implies (#[trigger] front[i]).0 != node by {
            assert(front[i] == edges[i]);
        }
        lemma_no_targets(front, node);
        assert(edges[edges.len() - 1].0 != node);
        assert(targets_of(front, node).len() == front.filter(leaves(node)).len());
        assert(edges.filter(leaves(node)) =~= Seq::<Edge>::empty());
    }
    assert(targets_of(edges, node) =~= Seq::<NodeId>::empty());
}

/// Whether a node's slice holds the targets and records of its edges among the
/// first `k`.
pub open spec fn slice_holds(
    edges: Seq<Edge>,
    adjacency: Seq<NodeId>,
    refs: Seq<(BlockId, u32)>,
    node: int,
    k: int,
) -> bool {
    let from = below(edges, node) as int;
    let to = from + degree(edges, node, k);
    &&& to <= below(edges, node + 1) <= adjacency.len()
    &&& adjacency.subrange(from, to) == targets_of(edges.take(k), NodeId(node as u64))
    &&& refs.subrange(from, to) == records_of(edges.take(k), NodeId(node as u64))
}

/// Whether the slices of all nodes below `count` hold the targets and records
/// of their edges among the first `k`.
pub open spec fn slices_hold(
    edges: Seq<Edge>,
    adjacency: Seq<NodeId>,
    refs: Seq<(BlockId, u32)>,
    count: int,
    k: int,
) -> bool {
    forall|i: int| 0 <= i < count ==> #[trigger] slice_holds(edges, adjacency, refs, i, k)
}

proof fn lemma_degree_bound(edges: Seq<Edge>, node: int, n: int)
    requires
        0 <= n,
    ensures
        degree(edges, node, n) <= n,
    decreases n,
{
    if n > 0 {
        lemma_degree_bound(edges, node, n - 1);
    }
}

proof fn lemma_degree_grows(edges: Seq<Edge>, node: int, m: int, n: int)
    requires
        0 <= m <= n,
    ensures
        degree(edges, node, m) <= degree(edges, node, n),
    decreases n,
{
    if m < n {
        lemma_degree_grows(edges, node, m, n - 1);
    }
}

proof fn lemma_below_grows(edges: Seq<Edge>, a: int, b: int)
    requires
        0 <= a <= b,
    ensures
        below(edges, a) <= below(edges, b),
    decreases b,
{
    if a < b {
        lemma_below_grows(edges, a, b - 1);
    }
}

proof fn lemma_nodes_within(edges: Seq<Edge>, n: int)
    requires
        0 <= n <= edges.len(),
    ensures
        forall|i: int|
            0 <= i < n ==> (#[trigger] edges[i]).0.0 <= max_node(edges, n) && edges[i].1.0
                <= max_node(edges, n),
    decreases n,
{
    if n > 0 {
        lemma_nodes_within(edges, n - 1);
    }
}

proof fn lemma_below_step(edges: Seq<Edge>, node: int, n: int)
    requires
        0 < n <= edges.len(),
        0 <= node,
    ensures
        below_among(edges, node, n) == below_among(edges, node, n - 1) + if edges[n - 1].0.0
            < node {
            1nat
        } else {
            0nat
        },
    decreases node,
{
    if node > 0 {
        lemma_below_step(edges, node - 1, n);
    }
}

proof fn lemma_below_zero(edges: Seq<Edge>, node: int)
    ensures
        below_among(edges, node, 0) == 0,
    decreases node,
{
    if node > 0 {
        lemma_below_zero(edges, node - 1);
    }
}

proof fn lemma_below_total(edges: Seq<Edge>, count: int, n: int)
    requires
        0 <= n <= edges.len(),
        0 <= count,
        forall|i: int| 0 <= i < n ==> (#[trigger] edges[i]).0.0 < count,
    ensures
        below_among(edges, count, n) == n,
    decreases n,
{
    if n > 0 {
        lemma_below_total(edges, count, n - 1);
        lemma_below_step(edges, count, n);
    } else {
        lemma_below_zero(edges, count);
    }
}

proof fn lemma_slices_begin(
    edges: Seq<Edge>,
    adjacency: Seq<NodeId>,
    refs: Seq<(BlockId, u32)>,
    count: int,
)
    requires
        0 <= count,
        adjacency.len() == edges.len(),
        refs.len() == edges.len(),
        below(edges, count) == edges.len(),
    ensures
        slices_hold(edges, adjacency, refs, count, 0),
{
    reveal(Seq::filter);
    assert forall|i: int| 0 <= i < count implies #[trigger] slice_holds(
        edges,
        adjacency,
        refs,
        i,
        0,
    ) by {
        let from = below(edges, i) as int;
        lemma_below_grows(edges, i, i + 1);
        lemma_below_grows(edges, i + 1, count);
        assert(edges.take(0).len() == 0);
        assert(adjacency.subrange(from, from) =~= targets_of(edges.take(0), NodeId(i as u64)));
        assert(refs.subrange(from, from) =~= records_of(edges.take(0), NodeId(i as u64)));
    }
}

/// Writing an edge at the next place of its source's slice.
proof fn lemma_write_slice(
    edges: Seq<Edge>,
    adjacency: Seq<NodeId>,
    refs: Seq<(BlockId, u32)>,
    count: int,
    k: int,
    pos: int,
)
    requires
        0 <= k < edges.len(),
        count <= 0x1_0000_0000_0000_0000,
        adjacency.len() == edges.len(),
        refs.len() == edges.len(),
        below(edges, count) == edges.len(),
        edges[k].0.0 < count,
        pos == below(edges, edges[k].0.0 as int) + degree(edges, edges[k].0.0 as int, k),
        slices_hold(edges, adjacency, refs, count, k),
    ensures
        0 <= pos < edges.len(),
        slices_hold(
            edges,
            adjacency.update(pos, edges[k].1),
            refs.update(pos, edges[k].2),
            count,
            k + 1,
        ),
{
    let e = edges[k];
    let s = e.0.0 as int;
    let n = edges.len() as int;
    let adj = adjacency.update(pos, e.1);
    let rs = refs.update(pos, e.2);
    lemma_degree_grows(edges, s, k + 1, n);
    lemma_below_grows(edges, s + 1, count);
    assert(edges.take(k + 1) =~= edges.take(k).push(e));
    assert forall|i: int| 0 <= i < count implies #[trigger] slice_holds(
        edges,
        adj,
        rs,
        i,
        k + 1,
    ) by {
        assert(slice_holds(edges, adjacency, refs, i, k));
        let node = NodeId(i as u64);
        let from = below(edges, i) as int;
        let to = from + degree(edges, i, k);
        let kept = edges.take(k).filter(leaves(node));
        lemma_filter_push(edges.take(k), e, leaves(node));
        lemma_below_grows(edges, i, i + 1);
        if i == s {
            assert(e.0 == node);
            assert(kept.push(e).map_values(target()) =~= kept.map_values(target()).push(e.1));
            assert(kept.push(e).map_values(record()) =~= kept.map_values(record()).push(e.2));
            assert(adj.subrange(from, to + 1) =~= adjacency.subrange(from, to).push(e.1));
            assert(rs.subrange(from, to + 1) =~= refs.subrange(from, to).push(e.2));
        } else {
            assert(e.0 != node);
            if i < s {
                lemma_below_grows(edges, i + 1, s);
            } else {
                lemma_below_grows(edges, s + 1, i);
            }
            assert(adj.subrange(from, to) =~= adjacency.subrange(from, to));
            assert(rs.subrange(from, to) =~= refs.subrange(from, to));
        }
    }
}

/// Where each node's targets begin.
fn count_offsets(edges: &Vec<Edge>, count: usize) -> (r: Vec<u64>)
    requires
        count <= usize::MAX - 1,
        forall|i: int| 0 <= i < edges@.len() ==> (#[trigger] edges@[i]).0.0 < count,
        below(edges@, count as int) == edges@.len(),
    ensures
        r@.len() == count + 1,
        forall|i: int| 0 <= i < r@.len() ==> #[trigger] r@[i] == below(edges@, i),
{
    let ghost all = edges@;
    let n: usize = edges.len();
    let mut offsets: Vec<u64> = Vec::new();
    let mut k: usize = 0;
    while k < count + 1
        invariant
            k <= count + 1,
            count <= usize::MAX - 1,
            offsets@.len() == k,
            forall|i: int| 0 <= i < k ==> #[trigger] offsets@[i] == 0,
        decreases count + 1 - k,
    {
        offsets.push(0);
        k = k + 1;
    }
    let mut k: usize = 0;
    while k < n
        invariant
            k <= n == all.len(),
            all == edges@,
            count <= usize::MAX - 1,
            offsets@.len() == count + 1,
            offsets@[0] == 0,
            forall|i: int| 0 <= i < n ==> (#[trigger] all[i]).0.0 < count,
            forall|i: int|
                1 <= i <= count ==> #[trigger] offsets@[i] == degree(all, i - 1, k as int),
        decreases n - k,
    {
        assert(all[k as int].0.0 < count);
        let s: usize = edges[k].0.0 as usize;
        proof {
            lemma_degree_bound(all, s as int, k as int);
            assert(offsets@[s + 1] == degree(all, s as int, k as int));
        }
        let before: u64 = offsets[s + 1];
        offsets.set(s + 1, before + 1);
        k = k + 1;
    }
    let mut i: usize = 1;
    while i <= count
        invariant
            1 <= i <= count + 1,
            n == all.len(),
            count <= usize::MAX - 1,
            offsets@.len() == count + 1,
            below(all, count as int) == n,
            forall|j: int| 0 <= j < i ==> #[trigger] offsets@[j] == below(all, j),
            forall|j: int| i <= j <= count ==> #[trigger] offsets@[j] == degree(
                all,
                j - 1,
                n as int,
            ),
        decreases count + 1 - i,
    {
        proof {
            lemma_below_grows(all, i as int, count as int);
            assert(offsets@[i - 1] == below(all, i - 1));
            assert(offsets@[i as int] == degree(all, i - 1, n as int));
        }
        let here: u64 = offsets[i];
        let before: u64 = offsets[i - 1];
        offsets.set(i, here + before);
        i = i + 1;
    }
    offsets
}

/// A stored edge: source, target and type.
pub type EdgeRow = (NodeId, NodeId, Seq<char>);

/// A stored node: number and label.
pub type NodeRow = (NodeId, Seq<char>);

/// What a projection holds.
#[verifier::ext_equal]
pub struct GraphView {
    /// The sealed nodes.
    pub nodes: Option<Seq<NodeRow>>,
    /// The sealed edges.
    pub edges: Option<Seq<EdgeRow>>,
    /// The overlay, where it is built.
    pub csr: Option<CsrOverlay>,
    pub pending_nodes: Seq<NodeRow>,
    pub pending_edges: Seq<EdgeRow>,
}

/// Whether an edge goes before another: by source, then by type.
pub open spec fn edge_before(a: EdgeRow, b: EdgeRow) -> bool {
    a.0.0 < b.0.0 || (a.0.0 == b.0.0 && text_before(a.2, b.2))
}

/// Where an edge goes among the first `n` sorted ones: behind all that it does
/// not go before.
pub open spec fn edge_place(sorted: Seq<EdgeRow>, x: EdgeRow, n: int) -> int
    decreases n,
{
    if n > 0 && edge_before(x, sorted[n - 1]) {
        edge_place(sorted, x, n - 1)
    } else {
        n
    }
}

/// The first `n` edges sorted by source and type; equal ones keep their order.
pub open spec fn sorted_edges(rows: Seq<EdgeRow>, n: int) -> Seq<EdgeRow>
    decreases n,
{
    if n <= 0 {
        seq![]
    } else {
        let before = sorted_edges(rows, n - 1);
        before.insert(edge_place(before, rows[n - 1], before.len() as int), rows[n - 1])
    }
}

/// The projection after its buffered nodes and edges were sealed. Each block
/// replaces the one before it.
pub open spec fn graph_flushed(v: GraphView) -> GraphView {
    GraphView {
        nodes: if v.pending_nodes.len() > 0 {
            Some(v.pending_nodes)
        } else {
            v.nodes
        },
        edges: if v.pending_edges.len() > 0 {
            Some(sorted_edges(v.pending_edges, v.pending_edges.len() as int))
        } else {
            v.edges
        },
        csr: v.csr,
        pending_nodes: seq![],
        pending_edges: seq![],
    }
}

/// The edges of a block, each with its row.
pub open spec fn block_edges(rows: Seq<EdgeRow>) -> Seq<Edge> {
    Seq::new(rows.len(), |i: int| (rows[i].0, rows[i].1, (BlockId(0), i as u32)))
}

/// The visited nodes with those of the first `n` neighbours that are new.
pub open spec fn visit(seen: Seq<NodeId>, ns: Seq<NodeId>, n: int) -> Seq<NodeId>
    decreases n,
{
    if n <= 0 {
        seen
    } else {
        let before = visit(seen, ns, n - 1);
        if before.contains(ns[n - 1]) {
            before
        } else {
            before.push(ns[n - 1])
        }
    }
}

/// The visited nodes after the neighbours of the first `k` nodes of a frontier.
pub open spec fn visit_all(
    csr: CsrOverlay,
    seen: Seq<NodeId>,
    frontier: Seq<NodeId>,
    k: int,
) -> Seq<NodeId>
    decreases k,
{
    if k <= 0 {
        seen
    } else {
        let ns = csr.slice(frontier[k - 1]);
        visit(visit_all(csr, seen, frontier, k - 1), ns, ns.len() as int)
    }
}

/// The nodes visited within `d` hops, in the order of the visit.
pub open spec fn bfs_seen(csr: CsrOverlay, start: NodeId, d: nat) -> Seq<NodeId>
    decreases d, 1int,
{
    if d == 0 {
        seq![start]
    } else {
        let frontier = bfs_frontier(csr, start, (d - 1) as nat);
        visit_all(
            csr,
            bfs_seen(csr, start, (d - 1) as nat),
            frontier,
            frontier.len() as int,
        )
    }
}

/// The nodes first visited at `d` hops.
pub open spec fn bfs_frontier(csr: CsrOverlay, start: NodeId, d: nat) -> Seq<NodeId>
    decreases d, 2int,
{
    if d == 0 {
        seq![start]
    } else {
        bfs_seen(csr, start, d).skip(bfs_seen(csr, start, (d - 1) as nat).len() as int)
    }
}

/// The visited nodes within `d` hops, each with its number of hops.
pub open spec fn bfs_out(csr: CsrOverlay, start: NodeId, d: nat) -> Seq<(usize, NodeId)>
    decreases d,
{
    if d == 0 {
        seq![(0, start)]
    } else {
        bfs_out(csr, start, (d - 1) as nat) + bfs_frontier(csr, start, d).map_values(
            |n: NodeId| (d as usize, n),
        )
    }
}

/// Whether a node can be reached from `start` in at most `d` hops.
pub open spec fn reachable(csr: CsrOverlay, start: NodeId, node: NodeId, d: nat) -> bool
    decreases d,
{
    if d == 0 {
        node == start
    } else {
        reachable(csr, start, node, (d - 1) as nat) || exists|m: NodeId|
            reachable(csr, start, m, (d - 1) as nat) && (#[trigger] csr.slice(m)).contains(node)
    }
}

/// Whether two hops lead from `start` to a node.
pub open spec fn is_two_hop(csr: CsrOverlay, start: NodeId, node: NodeId) -> bool {
    exists|m: NodeId| #[trigger] csr.slice(start).contains(m) && csr.slice(m).contains(node)
}

/// Whether nodes stand in order of their numbers, none twice.
pub open spec fn strictly_sorted(s: Seq<NodeId>) -> bool {
    forall|i: int, j: int| 0 <= i < j < s.len() ==> (#[trigger] s[i]).0 < (#[trigger] s[j]).0
}

proof fn lemma_visit_holds(seen: Seq<NodeId>, ns: Seq<NodeId>, n: int, x: NodeId)
    requires
        0 <= n <= ns.len(),
    ensures
        visit(seen, ns, n).contains(x) <==> seen.contains(x) || ns.take(n).contains(x),
        visit(seen, ns, n).len() >= seen.len(),
        visit(seen, ns, n).take(seen.len() as int) == seen,
        seen.no_duplicates() ==> visit(seen, ns, n).no_duplicates(),
    decreases n,
{
    if n > 0 {
        lemma_visit_holds(seen, ns, n - 1, x);
        let before = visit(seen, ns, n - 1);
        assert(ns.take(n) =~= ns.take(n - 1).push(ns[n - 1]));
        crate::sequences::lemma_push_contains(ns.take(n - 1), ns[n - 1], x);
        crate::sequences::lemma_push_contains(before, ns[n - 1], x);
        let now = visit(seen, ns, n);
        assert(now.take(seen.len() as int) =~= before.take(seen.len() as int));
        if !before.contains(ns[n - 1]) && seen.no_duplicates() {
            assert(now.no_duplicates()) by {
                assert forall|i: int, j: int| 0 <= i < now.len() && 0 <= j < now.len() && i
                    != j implies now[i] != now[j] by {
                    if i == now.len() - 1 {
                        assert(before[j] == now[j]);
                    } else if j == now.len() - 1 {
                        assert(before[i] == now[i]);
                    }
                }
            }
        }
    } else {
        assert(ns.take(0).len() == 0);
        assert(seen.take(seen.len() as int) =~= seen);
    }
}

proof fn lemma_visit_all_holds(
    csr: CsrOverlay,
    seen: Seq<NodeId>,
    frontier: Seq<NodeId>,
    k: int,
    x: NodeId,
)
    requires
        0 <= k <= frontier.len(),
    ensures
        visit_all(csr, seen, frontier, k).contains(x) <==> seen.contains(x) || exists|i: int|
            0 <= i < k && csr.slice(#[trigger] frontier[i]).contains(x),
        visit_all(csr, seen, frontier, k).len() >= seen.len(),
        visit_all(csr, seen, frontier, k).take(seen.len() as int) == seen,
        seen.no_duplicates() ==> visit_all(csr, seen, frontier, k).no_duplicates(),
    decreases k,
{
    if k > 0 {
        lemma_visit_all_holds(csr, seen, frontier, k - 1, x);
        let before = visit_all(csr, seen, frontier, k - 1);
        let ns = csr.slice(frontier[k - 1]);
        lemma_visit_holds(before, ns, ns.len() as int, x);
        assert(ns.take(ns.len() as int) =~= ns);
        let now = visit_all(csr, seen, frontier, k);
        assert(now.take(seen.len() as int) =~= now.take(before.len() as int).take(
            seen.len() as int,
        ));
    } else {
        assert(seen.take(seen.len() as int) =~= seen);
    }
}

/// The visited nodes grow at the end, hold no node twice, and hold the
/// neighbours of all nodes that were visited one hop earlier.
proof fn lemma_seen(csr: CsrOverlay, start: NodeId, d: nat)
    ensures
        bfs_seen(csr, start, d).no_duplicates(),
        d > 0 ==> bfs_seen(csr, start, d).len() >= bfs_seen(csr, start, (d - 1) as nat).len(),
        d > 0 ==> bfs_seen(csr, start, d).take(
            bfs_seen(csr, start, (d - 1) as nat).len() as int,
        ) == bfs_seen(csr, start, (d - 1) as nat),
        d > 0 ==> forall|m: NodeId, x: NodeId|
            bfs_seen(csr, start, (d - 1) as nat).contains(m) && #[trigger] csr.slice(
                m,
            ).contains(x) ==> bfs_seen(csr, start, d).contains(x),
    decreases d,
{
    if d > 0 {
        let e = (d - 1) as nat;
        lemma_seen(csr, start, e);
        let before = bfs_seen(csr, start, e);
        let now = bfs_seen(csr, start, d);
        let frontier = bfs_frontier(csr, start, e);
        lemma_visit_all_holds(csr, before, frontier, frontier.len() as int, start);
        assert forall|m: NodeId, x: NodeId|
            before.contains(m) && #[trigger] csr.slice(m).contains(x) implies now.contains(x) by {
            lemma_visit_all_holds(csr, before, frontier, frontier.len() as int, x);
            let i = choose|i: int| 0 <= i < before.len() && before[i] == m;
            if e == 0 {
                assert(frontier[0] == m);
            } else {
                let older = bfs_seen(csr, start, (e - 1) as nat);
                if i < older.len() {
                    assert(before.take(older.len() as int)[i] == m);
                    assert(older.contains(m));
                } else {
                    assert(frontier[i - older.len()] == m);
                }
            }
        }
    } else {
        let only = bfs_seen(csr, start, 0);
        assert(only.no_duplicates());
    }
}

/// A search visits exactly the nodes within reach.
proof fn lemma_seen_reachable(csr: CsrOverlay, start: NodeId, d: nat, node: NodeId)
    ensures
        bfs_seen(csr, start, d).contains(node) <==> reachable(csr, start, node, d),
    decreases d,
{
    if d > 0 {
        let e = (d - 1) as nat;
        let before = bfs_seen(csr, start, e);
        let frontier = bfs_frontier(csr, start, e);
        lemma_seen(csr, start, d);
        lemma_seen(csr, start, e);
        lemma_seen_reachable(csr, start, e, node);
        lemma_visit_all_holds(csr, before, frontier, frontier.len() as int, node);
        if bfs_seen(csr, start, d).contains(node) && !before.contains(node) {
            let i = choose|i: int|
                0 <= i < frontier.len() && csr.slice(#[trigger] frontier[i]).contains(node);
            let m = frontier[i];
            assert(before.contains(m)) by {
                if e == 0 {
                    assert(before[i] == m);
                } else {
                    let older = bfs_seen(csr, start, (e - 1) as nat);
                    assert(before[i + older.len()] == m);
                }
            }
            lemma_seen_reachable(csr, start, e, m);
            assert(reachable(csr, start, m, e));
        }
        if reachable(csr, start, node, d) && !reachable(csr, start, node, e) {
            let m = choose|m: NodeId|
                reachable(csr, start, m, e) && (#[trigger] csr.slice(m)).contains(node);
            lemma_seen_reachable(csr, start, e, m);
            assert(before.contains(m) && csr.slice(m).contains(node));
        }
    } else {
        assert(bfs_seen(csr, start, 0)[0] == start);
    }
}

proof fn lemma_frontier_holds(csr: CsrOverlay, start: NodeId, d: nat, node: NodeId)
    ensures
        bfs_frontier(csr, start, d).contains(node) <==> reachable(csr, start, node, d) && (d == 0
            || !reachable(csr, start, node, (d - 1) as nat)),
{
    lemma_seen_reachable(csr, start, d, node);
    lemma_seen(csr, start, d);
    let now = bfs_seen(csr, start, d);
    let frontier = bfs_frontier(csr, start, d);
    if d == 0 {
        assert(frontier == now);
    } else {
        let before = bfs_seen(csr, start, (d - 1) as nat);
        lemma_seen_reachable(csr, start, (d - 1) as nat, node);
        if frontier.contains(node) {
            let i = choose|i: int| 0 <= i < frontier.len() && frontier[i] == node;
            assert(now[i + before.len()] == node);
            if before.contains(node) {
                let j = choose|j: int| 0 <= j < before.len() && before[j] == node;
                assert(now.take(before.len() as int)[j] == node);
                assert(now[j] == now[i + before.len()]);
            }
        }
        if now.contains(node) && !before.contains(node) {
            let i = choose|i: int| 0 <= i < now.len() && now[i] == node;
            if i < before.len() {
                assert(now.take(before.len() as int)[i] == node);
                assert(before[i] == node);
            }
            assert(frontier[i - before.len()] == node);
        }
    }
}

/// A breadth-first search gives exactly the nodes within reach, each with the
/// least number of hops that leads to it.
pub proof fn law_bfs_gives_least_hops(
    csr: CsrOverlay,
    start: NodeId,
    max_depth: nat,
    d: nat,
    node: NodeId,
)
    requires
        max_depth <= usize::MAX,
    ensures
        bfs_out(csr, start, max_depth).contains((d as usize, node)) && d <= usize::MAX <==> d
            <= max_depth && reachable(csr, start, node, d) && (d == 0 || !reachable(
            csr,
            start,
            node,
            (d - 1) as nat,
        )),
    decreases max_depth,
{
    let out = bfs_out(csr, start, max_depth);
    if max_depth == 0 {
        assert(out[0] == (0usize, start));
    } else {
        let e = (max_depth - 1) as nat;
        let before = bfs_out(csr, start, e);
        let frontier = bfs_frontier(csr, start, max_depth);
        let tagged = frontier.map_values(|n: NodeId| (max_depth as usize, n));
        law_bfs_gives_least_hops(csr, start, e, d, node);
        lemma_frontier_holds(csr, start, d, node);
        let pair = (d as usize, node);
        if out.contains(pair) && d <= usize::MAX {
            let i = choose|i: int| 0 <= i < out.len() && out[i] == pair;
            if i < before.len() {
                assert(before[i] == pair);
            } else {
                assert(tagged[i - before.len()] == pair);
                assert(frontier[i - before.len()] == node);
                assert(d == max_depth);
            }
        }
        if d == max_depth && frontier.contains(node) {
            let i = choose|i: int| 0 <= i < frontier.len() && frontier[i] == node;
            assert(tagged[i] == pair);
            assert(out[i + before.len()] == pair);
        }
        if before.contains(pair) {
            let i = choose|i: int| 0 <= i < before.len() && before[i] == pair;
            assert(out[i] == pair);
        }
    }
}

proof fn lemma_bfs_stops(csr: CsrOverlay, start: NodeId, d: nat, e: nat)
    requires
        d <= e,
        bfs_frontier(csr, start, d).len() == 0,
    ensures
        bfs_out(csr, start, e) == bfs_out(csr, start, d),
        bfs_seen(csr, start, e) == bfs_seen(csr, start, d),
        bfs_frontier(csr, start, e).len() == 0,
    decreases e - d,
{
    if d < e {
        let f = (e - 1) as nat;
        lemma_bfs_stops(csr, start, d, f);
        let now = bfs_seen(csr, start, e);
        assert(now == bfs_seen(csr, start, f));
        assert(bfs_frontier(csr, start, e).len() == 0);
        assert(bfs_out(csr, start, e) =~= bfs_out(csr, start, f));
    }
}

fn has_node(v: &Vec<NodeId>, x: NodeId) -> (r: bool)
    ensures
        r == v@.contains(x),
{
    let mut i: usize = 0;
    while i < v.len()
        invariant
            i <= v@.len(),
            forall|k: int| 0 <= k < i ==> #[trigger] v@[k] != x,
        decreases v@.len() - i,
    {
        if v[i].0 == x.0 {
            assert(v@[i as int] == x);
            return true;
        }
        i = i + 1;
    }
    false
}

/// Puts a node into a sorted row unless it is there.
fn insert_sorted(v: &mut Vec<NodeId>, x: NodeId)
    requires
        strictly_sorted(old(v)@),
    ensures
        strictly_sorted(final(v)@),
        forall|y: NodeId|
            #[trigger] final(v)@.contains(y) <==> old(v)@.contains(y) || y == x,
{
    let mut i: usize = 0;
    while i < v.len() && v[i].0 < x.0
        invariant
            i <= v@.len(),
            v@ == old(v)@,
            forall|k: int| 0 <= k < i ==> (#[trigger] v@[k]).0 < x.0,
        decreases v@.len() - i,
    {
        i = i + 1;
    }
    let ghost before = v@;
    if i < v.len() && v[i].0 == x.0 {
        assert(before[i as int] == x);
        return;
    }
    v.insert(i, x);
    proof {
        let now = v@;
        assert forall|a: int, b: int| 0 <= a < b < now.len() implies (#[trigger] now[a]).0 < (
        #[trigger] now[b]).0 by {
            if b < i {
                assert(before[a].0 < before[b].0);
            } else if a >= i {
                if i < before.len() {
                    assert(before[i as int].0 >= x.0);
                    assert(before[i as int] == NodeId(before[i as int].0));
                    assert(x == NodeId(x.0));
                    if b - 1 > i {
                        assert(before[i as int].0 < before[b - 1].0);
                    }
                    if a > i {
                        assert(before[a - 1].0 < before[b - 1].0);
                    }
                }
            } else if b > i {
                assert(before[a].0 < before[b - 1].0);
            }
        }
        assert forall|y: NodeId| #[trigger] now.contains(y) <==> (before.contains(y) || y == x) by {
            if before.contains(y) {
                let k = choose|k: int| 0 <= k < before.len() && before[k] == y;
                if k < i {
                    assert(now[k] == y);
                } else {
                    assert(now[k + 1] == y);
                }
            }
            assert(now[i as int] == x);
            if now.contains(y) && y != x {
                let k = choose|k: int| 0 <= k < now.len() && now[k] == y;
                if k < i {
                    assert(before[k] == y);
                } else {
                    assert(before[k - 1] == y);
                }
            }
        }
    }
}

/// A node with its label.
struct NodeRecord {
    id: NodeId,
    label: String,
}

/// An edge with its type.
struct EdgeRecord {
    src: NodeId,
    dst: NodeId,
    edge_type: String,
}

spec fn node_row(n: NodeRecord) -> NodeRow {
    (n.id, n.label@)
}

spec fn edge_row(e: EdgeRecord) -> EdgeRow {
    (e.src, e.dst, e.edge_type@)
}

spec fn node_rows(s: Seq<NodeRecord>) -> Seq<NodeRow> {
    s.map_values(|n: NodeRecord| node_row(n))
}

spec fn edge_rows(s: Seq<EdgeRecord>) -> Seq<EdgeRow> {
    s.map_values(|e: EdgeRecord| edge_row(e))
}

/// A graph.
pub struct GraphProjection {
    segment_id: SegmentId,
    block_size: u32,
    nodes_block: Option<Vec<NodeRecord>>,
    edges_block: Option<Vec<EdgeRecord>>,
    csr: Option<CsrOverlay>,
    pending_edges: Vec<EdgeRecord>,
    pending_nodes: Vec<NodeRecord>,
}

impl View for GraphProjection {
    type V = GraphView;

    closed spec fn view(&self) -> GraphView {
        GraphView {
            nodes: match self.nodes_block {
                Some(b) => Some(node_rows(b@)),
                None => None,
            },
            edges: match self.edges_block {
                Some(b) => Some(edge_rows(b@)),
                None => None,
            },
            csr: self.csr,
            pending_nodes: node_rows(self.pending_nodes@),
            pending_edges: edge_rows(self.pending_edges@),
        }
    }
}

impl GraphProjection {
    /// An overlay that is built can be read.
    pub open spec fn wf(&self) -> bool {
        match self@.csr {
            Some(c) => c.wf(),
            None => true,
        }
    }

    /// An empty graph.
    pub fn new(segment_id: SegmentId, block_size: u32) -> (res: Self)
        ensures
            res.wf(),
            res@ == (GraphView {
                nodes: None,
                edges: None,
                csr: None,
                pending_nodes: seq![],
                pending_edges: seq![],
            }),
    {
        let res = GraphProjection {
            segment_id,
            block_size,
            nodes_block: None,
            edges_block: None,
            csr: None,
            pending_edges: Vec::new(),
            pending_nodes: Vec::new(),
        };
        assert(res@.pending_nodes =~= seq![]);
        assert(res@.pending_edges =~= seq![]);
        res
    }

    /// Adds a node with a label. The overlay is no longer built.
    pub fn add_node(&mut self, id: NodeId, label: &str)
        ensures
            final(self).wf(),
            final(self)@ == (GraphView {
                csr: None,
                pending_nodes: old(self)@.pending_nodes.push((id, label@)),
                ..old(self)@
            }),
    {
        let n: NodeRecord = NodeRecord { id, label: label.to_owned() };
        let ghost before = self.pending_nodes@;
        self.pending_nodes.push(n);
        self.csr = None;
        assert(node_rows(self.pending_nodes@) =~= node_rows(before).push((id, label@)));
    }

    /// Adds an edge with a type. The overlay is no longer built.
    pub fn add_edge(&mut self, src: NodeId, dst: NodeId, edge_type: &str)
        ensures
            final(self).wf(),
            final(self)@ == (GraphView {
                csr: None,
                pending_edges: old(self)@.pending_edges.push((src, dst, edge_type@)),
                ..old(self)@
            }),
    {
        let e: EdgeRecord = EdgeRecord { src, dst, edge_type: edge_type.to_owned() };
        let ghost before = self.pending_edges@;
        self.pending_edges.push(e);
        self.csr = None;
        assert(edge_rows(self.pending_edges@) =~= edge_rows(before).push((src, dst, edge_type@)));
    }

    /// Seals the buffered nodes and edges, the edges sorted by source and type.
    pub fn flush(&mut self) -> (r: CenResult<()>)
        requires
            old(self).wf(),
        ensures
            final(self).wf(),
            r is Ok,
            final(self)@ == graph_flushed(old(self)@),
    {
        let ghost v = self@;
        if self.pending_nodes.len() > 0 {
            let mut nodes: Vec<NodeRecord> = Vec::new();
            std::mem::swap(&mut nodes, &mut self.pending_nodes);
            self.nodes_block = Some(nodes);
        }
        assert(node_rows(self.pending_nodes@) =~= seq![]);
        if self.pending_edges.len() > 0 {
            let mut edges: Vec<EdgeRecord> = Vec::new();
            std::mem::swap(&mut edges, &mut self.pending_edges);
            let sorted: Vec<EdgeRecord> = sort_edges(edges);
            self.edges_block = Some(sorted);
        }
        assert(edge_rows(self.pending_edges@) =~= seq![]);
        assert(self@ =~= graph_flushed(v));
        Ok(())
    }

    /// Builds the overlay of the sealed edges, unless it is built.
    pub fn build_csr(&mut self) -> (r: CenResult<&CsrOverlay>)
        requires
            old(self).wf(),
            old(self)@.edges matches Some(rows) ==> rows.len() <= u32::MAX && max_node(
                block_edges(rows),
                rows.len() as int,
            ) + 2 <= usize::MAX,
        ensures
            final(self).wf(),
            match r {
                Ok(c) => final(self)@.csr == Some(*c) && (match old(self)@.csr {
                    Some(before) => *c == before,
                    None => old(self)@.edges matches Some(rows) && c.overlays(block_edges(rows)),
                }),
                Err(e) => old(self)@.csr is None && old(self)@.edges is None && e@
                    == constraint_error("build_csr: no edges block (call flush first)"@)
                    && final(self)@.csr is None,
            },
            r is Ok <==> old(self)@.csr is Some || old(self)@.edges is Some,
            final(self)@ == (GraphView { csr: final(self)@.csr, ..old(self)@ }),
    {
        if self.csr.is_none() {
            let edges: Vec<Edge> = match &self.edges_block {
                Some(block) => list_edges(block),
                None => {
                    return Err(
                        CenError::constraint("build_csr: no edges block (call flush first)"),
                    );
                },
            };
            assert(edges@ =~= block_edges(self@.edges->0));
            self.csr = Some(CsrOverlay::build(edges));
        }
        match &self.csr {
            Some(c) => Ok(c),
            None => Err(CenError::constraint("build_csr: no edges block (call flush first)")),
        }
    }

    /// The neighbours of a node.
    pub fn neighbors(&self, node: NodeId) -> (r: CenResult<Vec<NodeId>>)
        requires
            self.wf(),
        ensures
            match r {
                Ok(ns) => self@.csr matches Some(c) && ns@ == c.slice(node),
                Err(e) => self@.csr is None && e@ == constraint_error(
                    "neighbors: CSR not built (call build_csr first)"@,
                ),
            },
    {
        match &self.csr {
            Some(c) => {
                let ns: &[NodeId] = c.neighbors(node);
                Ok(copy_nodes(ns))
            },
            None => Err(CenError::constraint("neighbors: CSR not built (call build_csr first)")),
        }
    }

    /// The nodes that exactly two hops lead to from `start`, in the order of
    /// their numbers, each once; `start` is one of them where a node leads back.
    pub fn two_hop(&self, start: NodeId) -> (r: CenResult<Vec<NodeId>>)
        requires
            self.wf(),
        ensures
            match r {
                Ok(ns) => self@.csr matches Some(c) && strictly_sorted(ns@) && forall|x: NodeId|
                    #[trigger] ns@.contains(x) <==> is_two_hop(c, start, x),
                Err(e) => self@.csr is None && e@ == constraint_error("two_hop: CSR not built"@),
            },
    {
        let c: &CsrOverlay = match &self.csr {
            Some(c) => c,
            None => {
                return Err(CenError::constraint("two_hop: CSR not built"));
            },
        };
        let mut out: Vec<NodeId> = Vec::new();
        let first: &[NodeId] = c.neighbors(start);
        let ghost hops = c.slice(start);
        let mut i: usize = 0;
        while i < first.len()
            invariant
                i <= first@.len(),
                first@ == hops,
                hops == c.slice(start),
                c.wf(),
                strictly_sorted(out@),
                forall|x: NodeId|
                    #[trigger] out@.contains(x) <==> exists|k: int|
                        0 <= k < i && c.slice(#[trigger] hops[k]).contains(x),
            decreases first@.len() - i,
        {
            let second: &[NodeId] = c.neighbors(first[i]);
            let ghost ns = c.slice(hops[i as int]);
            let ghost before = out@;
            let mut j: usize = 0;
            while j < second.len()
                invariant
                    j <= second@.len(),
                    second@ == ns,
                    strictly_sorted(out@),
                    forall|x: NodeId|
                        #[trigger] out@.contains(x) <==> before.contains(x) || ns.take(
                            j as int,
                        ).contains(x),
                decreases second@.len() - j,
            {
                let n: NodeId = second[j];
                proof {
                    assert(ns.take(j + 1) =~= ns.take(j as int).push(n));
                    assert forall|x: NodeId| #[trigger] ns.take(j + 1).contains(x) <==> (ns.take(
                        j as int,
                    ).contains(x) || x == n) by {
                        crate::sequences::lemma_push_contains(ns.take(j as int), n, x);
                    }
                }
                let ghost earlier = out@;
                insert_sorted(&mut out, n);
                proof {
                    assert forall|x: NodeId| #[trigger] out@.contains(x) <==> (before.contains(x)
                        || ns.take(j + 1).contains(x)) by {
                        assert(ns.take(j + 1).contains(x) <==> ns.take(j as int).contains(x) || x
                            == n);
                        assert(earlier.contains(x) <==> before.contains(x) || ns.take(
                            j as int,
                        ).contains(x));
                    }
                }
                j = j + 1;
            }
            proof {
                assert(ns.take(j as int) =~= ns);
                assert forall|x: NodeId| #[trigger] out@.contains(x) <==> (exists|
                    k: int,
                |
                    0 <= k < i + 1 && c.slice(#[trigger] hops[k]).contains(x)) by {
                    assert(before.contains(x) <==> exists|k: int|
                        0 <= k < i && c.slice(#[trigger] hops[k]).contains(x));
                    if ns.contains(x) {
                        assert(c.slice(hops[i as int]).contains(x));
                    }
                }
            }
            i = i + 1;
        }
        proof {
            assert forall|x: NodeId| #[trigger] out@.contains(x) <==> is_two_hop(*c, start, x) by {
                if is_two_hop(*c, start, x) {
                    let m = choose|m: NodeId|
                        #[trigger] c.slice(start).contains(m) && c.slice(m).contains(x);
                    let k = choose|k: int| 0 <= k < hops.len() && hops[k] == m;
                    assert(c.slice(hops[k]).contains(x));
                }
                if out@.contains(x) {
                    let k = choose|k: int| 0 <= k < i && c.slice(#[trigger] hops[k]).contains(x);
                    assert(c.slice(start).contains(hops[k]));
                }
            }
        }
        Ok(out)
    }

    /// A breadth-first search of at most `max_depth` hops. Gives the visited
    /// nodes, `start` first, each with its number of hops.
    pub fn bfs(&self, start: NodeId, max_depth: usize) -> (r: CenResult<Vec<(usize, NodeId)>>)
        requires
            self.wf(),
        ensures
            match r {
                Ok(out) => self@.csr matches Some(c) && out@ == bfs_out(c, start, max_depth as nat),
                Err(e) => self@.csr is None && e@ == constraint_error("bfs: CSR not built"@),
            },
    {
        let c: &CsrOverlay = match &self.csr {
            Some(c) => c,
            None => {
                return Err(CenError::constraint("bfs: CSR not built"));
            },
        };
        let mut seen: Vec<NodeId> = Vec::new();
        seen.push(start);
        let mut out: Vec<(usize, NodeId)> = Vec::new();
        out.push((0, start));
        let mut from: usize = 0;
        let mut depth: usize = 0;
        assert(seen@ =~= bfs_seen(*c, start, 0));
        assert(out@ =~= bfs_out(*c, start, 0));
        assert(seen@.skip(0) =~= bfs_frontier(*c, start, 0));
        while depth < max_depth
            invariant
                depth <= max_depth,
                c.wf(),
                self@.csr == Some(*c),
                from <= seen@.len(),
                seen@ == bfs_seen(*c, start, depth as nat),
                seen@.skip(from as int) == bfs_frontier(*c, start, depth as nat),
                out@ == bfs_out(*c, start, depth as nat),
            decreases max_depth - depth,
        {
            let ghost before = seen@;
            let ghost frontier = seen@.skip(from as int);
            let ghost earlier = out@;
            let end: usize = seen.len();
            let next: usize = depth + 1;
            let ghost tag = |n: NodeId| (next, n);
            let mut i: usize = from;
            assert(seen@.skip(end as int).map_values(tag) =~= seq![]);
            assert(out@ =~= earlier + seen@.skip(end as int).map_values(tag));
            while i < end
                invariant
                    from <= i <= end == before.len(),
                    c.wf(),
                    end <= seen@.len(),
                    frontier == before.skip(from as int),
                    seen@.take(end as int) == before,
                    tag == (|n: NodeId| (next, n)),
                    seen@ == visit_all(*c, before, frontier, i - from),
                    out@ == earlier + seen@.skip(end as int).map_values(tag),
                decreases end - i,
            {
                let node: NodeId = seen[i];
                assert(seen@.take(end as int)[i as int] == node);
                assert(frontier[i - from] == node);
                let ns: &[NodeId] = c.neighbors(node);
                let ghost here = seen@;
                let mut j: usize = 0;
                while j < ns.len()
                    invariant
                        j <= ns@.len(),
                        end <= here.len() <= seen@.len(),
                        seen@.take(end as int) == before,
                        tag == (|n: NodeId| (next, n)),
                        seen@ == visit(here, ns@, j as int),
                        out@ == earlier + seen@.skip(end as int).map_values(tag),
                    decreases ns@.len() - j,
                {
                    let n: NodeId = ns[j];
                    if !has_node(&seen, n) {
                        let ghost s0 = seen@;
                        seen.push(n);
                        out.push((next, n));
                        assert(seen@.take(end as int) =~= s0.take(end as int));
                        assert(seen@.skip(end as int) =~= s0.skip(end as int).push(n));
                        assert(seen@.skip(end as int).map_values(tag) =~= s0.skip(
                            end as int,
                        ).map_values(tag).push((next, n)));
                        assert(out@ =~= earlier + seen@.skip(end as int).map_values(tag));
                    }
                    j = j + 1;
                }
                i = i + 1;
            }
            proof {
                assert(seen@ == bfs_seen(*c, start, next as nat));
                assert(seen@.skip(end as int) == bfs_frontier(*c, start, next as nat));
                assert(out@ =~= bfs_out(*c, start, next as nat));
            }
            depth = next;
            from = end;
            if seen.len() == end {
                proof {
                    lemma_bfs_stops(*c, start, depth as nat, max_depth as nat);
                }
                return Ok(out);
            }
        }
        Ok(out)
    }

    /// The number of sealed nodes; of buffered ones where none were sealed.
    pub fn node_count(&self) -> (r: usize)
        ensures
            r == (match self@.nodes {
                Some(rows) => rows.len(),
                None => self@.pending_nodes.len(),
            }),
    {
        match &self.nodes_block {
            Some(b) => b.len(),
            None => self.pending_nodes.len(),
        }
    }

    /// The number of sealed edges; of buffered ones where none were sealed.
    pub fn edge_count(&self) -> (r: usize)
        ensures
            r == (match self@.edges {
                Some(rows) => rows.len(),
                None => self@.pending_edges.len(),
            }),
    {
        match &self.edges_block {
            Some(b) => b.len(),
            None => self.pending_edges.len(),
        }
    }

    /// The number of nodes that the overlay knows; zero where it is not built.
    pub fn csr_node_count(&self) -> (r: usize)
        ensures
            r == (match self@.csr {
                Some(c) => if c.offsets@.len() > 0 {
                    c.offsets@.len() - 1
                } else {
                    0
                },
                None => 0,
            }),
    {
        match &self.csr {
            Some(c) => c.node_count(),
            None => 0,
        }
    }
}

/// A copy of a row of nodes.
fn copy_nodes(s: &[NodeId]) -> (r: Vec<NodeId>)
    ensures
        r@ == s@,
{
    let mut out: Vec<NodeId> = Vec::new();
    let mut i: usize = 0;
    while i < s.len()
        invariant
            i <= s@.len(),
            out@ == s@.take(i as int),
        decreases s@.len() - i,
    {
        out.push(s[i]);
        i = i + 1;
        assert(out@ =~= s@.take(i as int));
    }
    assert(s@.take(i as int) =~= s@);
    out
}

/// The edges of a block, each with its row.
fn list_edges(block: &Vec<EdgeRecord>) -> (r: Vec<Edge>)
    requires
        block@.len() <= u32::MAX,
    ensures
        r@ == block_edges(edge_rows(block@)),
{
    let ghost rows = edge_rows(block@);
    let mut out: Vec<Edge> = Vec::new();
    let mut i: usize = 0;
    while i < block.len()
        invariant
            i <= block@.len() <= u32::MAX,
            rows == edge_rows(block@),
            out@.len() == i,
            forall|k: int| 0 <= k < i ==> #[trigger] out@[k] == block_edges(rows)[k],
        decreases block@.len() - i,
    {
        assert(rows[i as int] == edge_row(block@[i as int]));
        out.push((block[i].src, block[i].dst, (BlockId(0), i as u32)));
        i = i + 1;
    }
    assert(out@ =~= block_edges(rows));
    out
}

/// Sorts edges by source and type; equal ones keep their order.
fn sort_edges(rows: Vec<EdgeRecord>) -> (r: Vec<EdgeRecord>)
    ensures
        edge_rows(r@) == sorted_edges(edge_rows(rows@), rows@.len() as int),
{
    let ghost all = edge_rows(rows@);
    let mut out: Vec<EdgeRecord> = Vec::new();
    let mut n: usize = 0;
    assert(edge_rows(out@) =~= sorted_edges(all, 0));
    while n < rows.len()
        invariant
            n <= rows@.len(),
            all == edge_rows(rows@),
            edge_rows(out@) == sorted_edges(all, n as int),
        decreases rows@.len() - n,
    {
        let e: &EdgeRecord = &rows[n];
        let ghost x = edge_row(*e);
        assert(all[n as int] == x);
        let ghost before = edge_rows(out@);
        let ghost out0 = out@;
        let mut p: usize = out.len();
        while p > 0 && (e.src.0 < out[p - 1].src.0 || (e.src.0 == out[p - 1].src.0
            && stands_before(e.edge_type.as_str(), out[p - 1].edge_type.as_str())))
            invariant
                p <= out@.len(),
                out@ == out0,
                x == edge_row(*e),
                before == edge_rows(out@),
                edge_place(before, x, p as int) == edge_place(before, x, before.len() as int),
            decreases p,
        {
            assert(before[p - 1] == edge_row(out@[p - 1]));
            p = p - 1;
        }
        proof {
            if p > 0 {
                assert(before[p - 1] == edge_row(out@[p - 1]));
            }
        }
        let copy: EdgeRecord = EdgeRecord {
            src: e.src,
            dst: e.dst,
            edge_type: e.edge_type.as_str().to_owned(),
        };
        out.insert(p, copy);
        assert(edge_rows(out@) =~= before.insert(p as int, x));
        n = n + 1;
    }
    out
}

} // verus!
