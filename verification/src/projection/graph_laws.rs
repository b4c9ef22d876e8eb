//! What a graph tells of the edges that were put into it.

use vstd::prelude::*;

use crate::ids::NodeId;
use crate::projection::graph::{
    block_edges, edge_before, edge_place, leaves, max_node, records_of, sorted_edges, targets_of,
    CsrOverlay, Edge, EdgeRow,
};
use crate::sequences::lemma_filter_contains;

verus! {

/// The neighbours of a node are the nodes to which an edge leads from it.
pub proof fn law_targets(edges: Seq<Edge>, node: NodeId, t: NodeId)
    ensures
        targets_of(edges, node).contains(t) <==> exists|i: int|
            0 <= i < edges.len() && (#[trigger] edges[i]).0 == node && edges[i].1 == t,
{
    let s = edges.filter(leaves(node));
    let r = targets_of(edges, node);
    if r.contains(t) {
        let k = r.index_of(t);
        assert(s.contains(s[k]));
        lemma_filter_contains(edges, leaves(node), s[k]);
        let i = edges.index_of(s[k]);
        assert(edges[i].0 == node && edges[i].1 == t);
    }
    if exists|i: int| 0 <= i < edges.len() && (#[trigger] edges[i]).0 == node && edges[i].1 == t {
        let i = choose|i: int|
            0 <= i < edges.len() && (#[trigger] edges[i]).0 == node && edges[i].1 == t;
        lemma_filter_contains(edges, leaves(node), edges[i]);
        assert(edges.contains(edges[i]));
        let k = s.index_of(edges[i]);
        assert(r[k] == t);
    }
}

/// How many edges lead from a node to another.
pub open spec fn links(edges: Seq<Edge>, node: NodeId, t: NodeId) -> nat
    decreases edges.len(),
{
    if edges.len() == 0 {
        0
    } else {
        links(edges.drop_last(), node, t) + if edges.last().0 == node && edges.last().1 == t {
            1nat
        } else {
            0nat
        }
    }
}

/// A neighbour is listed once for each edge that leads to it.
pub proof fn law_parallel_edges(edges: Seq<Edge>, node: NodeId, t: NodeId)
    ensures
        targets_of(edges, node).to_multiset().count(t) == links(edges, node, t),
    decreases edges.len(),
{
    broadcast use vstd::seq_lib::group_to_multiset_ensures;

    reveal(Seq::filter);
    let r = targets_of(edges, node);
    if edges.len() > 0 {
        law_parallel_edges(edges.drop_last(), node, t);
        let before = targets_of(edges.drop_last(), node);
        if edges.last().0 == node {
            assert(r =~= before.push(edges.last().1));
        } else {
            assert(r =~= before);
        }
    } else {
        assert(r =~= Seq::<NodeId>::empty());
    }
}

/// The record of an edge stands where its target stands among the neighbours.
pub proof fn law_records_match(edges: Seq<Edge>, node: NodeId, k: int)
    requires
        0 <= k < targets_of(edges, node).len(),
    ensures
        records_of(edges, node).len() == targets_of(edges, node).len(),
        exists|i: int|
            0 <= i < edges.len() && (#[trigger] edges[i]).0 == node && edges[i].1 == targets_of(
                edges,
                node,
            )[k] && edges[i].2 == records_of(edges, node)[k],
{
    let s = edges.filter(leaves(node));
    assert(s.contains(s[k]));
    lemma_filter_contains(edges, leaves(node), s[k]);
    let i = edges.index_of(s[k]);
    assert(edges[i].0 == node && edges[i].1 == targets_of(edges, node)[k]);
}

/// No edge has a node above the greatest, which some edge has.
pub proof fn law_greatest_node(edges: Seq<Edge>, n: int)
    requires
        0 <= n <= edges.len(),
    ensures
        forall|i: int|
            0 <= i < n ==> (#[trigger] edges[i]).0.0 <= max_node(edges, n) && edges[i].1.0
                <= max_node(edges, n),
        max_node(edges, n) == 0 || exists|i: int|
            0 <= i < n && ((#[trigger] edges[i]).0.0 == max_node(edges, n) || edges[i].1.0
                == max_node(edges, n)),
    decreases n,
{
    if n > 0 {
        law_greatest_node(edges, n - 1);
        let e = edges[n - 1];
        if max_node(edges, n) != max_node(edges, n - 1) {
            assert(e.0.0 == max_node(edges, n) || e.1.0 == max_node(edges, n));
        }
    }
}

/// The edges of a sealed block lead from source to target as they were added.
pub proof fn law_sealed_neighbors(csr: CsrOverlay, rows: Seq<EdgeRow>, node: NodeId, t: NodeId)
    requires
        csr.overlays(block_edges(rows)),
    ensures
        csr.slice(node).contains(t) <==> exists|i: int|
            0 <= i < rows.len() && (#[trigger] rows[i]).0 == node && rows[i].1 == t,
{
    let edges = block_edges(rows);
    csr.law_neighbors_are_targets(edges, node);
    law_targets(edges, node, t);
    if csr.slice(node).contains(t) {
        let i = choose|i: int|
            0 <= i < edges.len() && (#[trigger] edges[i]).0 == node && edges[i].1 == t;
        assert(rows[i].0 == node && rows[i].1 == t);
    }
    if exists|i: int| 0 <= i < rows.len() && (#[trigger] rows[i]).0 == node && rows[i].1 == t {
        let i = choose|i: int|
            0 <= i < rows.len() && (#[trigger] rows[i]).0 == node && rows[i].1 == t;
        assert(edges[i].0 == node && edges[i].1 == t);
    }
}

proof fn lemma_place(sorted: Seq<EdgeRow>, x: EdgeRow, n: int)
    requires
        0 <= n <= sorted.len(),
    ensures
        0 <= edge_place(sorted, x, n) <= n,
        forall|k: int| edge_place(sorted, x, n) <= k < n ==> edge_before(x, #[trigger] sorted[k]),
        edge_place(sorted, x, n) > 0 ==> !edge_before(x, sorted[edge_place(sorted, x, n) - 1]),
    decreases n,
{
    if n > 0 && edge_before(x, sorted[n - 1]) {
        lemma_place(sorted, x, n - 1);
    }
}

/// Sealed edges stand in the order of their sources, and none is lost.
pub proof fn law_sealed_edges(rows: Seq<EdgeRow>, n: int)
    requires
        0 <= n <= rows.len(),
    ensures
        sorted_edges(rows, n).to_multiset() == rows.take(n).to_multiset(),
        forall|i: int, j: int|
            0 <= i < j < sorted_edges(rows, n).len() ==> (#[trigger] sorted_edges(
                rows,
                n,
            )[i]).0.0 <= (#[trigger] sorted_edges(rows, n)[j]).0.0,
    decreases n,
{
    broadcast use vstd::seq_lib::group_to_multiset_ensures;

    let s = sorted_edges(rows, n);
    if n == 0 {
        assert(rows.take(0) =~= Seq::<EdgeRow>::empty());
    } else {
        law_sealed_edges(rows, n - 1);
        let before = sorted_edges(rows, n - 1);
        let x = rows[n - 1];
        let p = edge_place(before, x, before.len() as int);
        lemma_place(before, x, before.len() as int);
        assert(rows.take(n) =~= rows.take(n - 1).push(x));
        assert(s == before.insert(p, x));
        assert forall|i: int, j: int| 0 <= i < j < s.len() implies (#[trigger] s[i]).0.0 <= (
        #[trigger] s[j]).0.0 by {
            if j == p && i < p {
                assert(before[i].0.0 <= before[p - 1].0.0);
            } else if i == p {
                assert(edge_before(x, before[j - 1]));
            } else {
                let a = if i < p {
                    i
                } else {
                    i - 1
                };
                let b = if j < p {
                    j
                } else {
                    j - 1
                };
                assert(before[a].0.0 <= before[b].0.0);
            }
        }
    }
}

} // verus!
