//! What it means to lie inside a ring.

use vstd::prelude::*;

use crate::floats::{equal, is_nan, less};
use crate::spatial::plane::{
    after, edge_count, odd_passes, on_ring, on_segment, passes, ring_loc, same, Coord, Loc,
    PlaneView, Question,
};

verus! {

/// Whether one end of an edge is above the height of a point and the other is
/// not, and the edge is at the right of the point there.
pub open spec fn crosses(w: PlaneView, p: Coord, a: Coord, b: Coord) -> bool {
    &&& (less(p.1, a.1) && !less(p.1, b.1)) || (!less(p.1, a.1) && less(p.1, b.1))
    &&& (w.ask)(Question::Beyond(a, b, p)) == 1
}

/// The edges of a ring: each corner with the next one, the last with the first.
pub open spec fn edges_of(s: Seq<Coord>) -> Seq<(Coord, Coord)> {
    Seq::new(s.len(), |k: int| (s[k], s[(k + 1) % s.len() as int]))
}

/// How many of some edges cross the ray to the right of a point.
pub open spec fn crossings(w: PlaneView, p: Coord, edges: Seq<(Coord, Coord)>) -> nat
    decreases edges.len(),
{
    if edges.len() == 0 {
        0
    } else {
        crossings(w, p, edges.drop_last()) + if crosses(w, p, edges.last().0, edges.last().1) {
            1nat
        } else {
            0nat
        }
    }
}

/// Whether the last corner of a ring does not repeat the first.
pub open spec fn is_open_ring(s: Seq<Coord>) -> bool {
    !(equal(s[0].0, s[s.len() - 1].0) && equal(s[0].1, s[s.len() - 1].1))
}

proof fn lemma_edge(s: Seq<Coord>, k: int)
    requires
        0 <= k < s.len(),
    ensures
        edges_of(s)[k] == (s[k], after(s, k)),
{
    if k + 1 < s.len() {
        vstd::arithmetic::div_mod::lemma_small_mod((k + 1) as nat, s.len());
    } else {
        vstd::arithmetic::div_mod::lemma_mod_self_0(s.len() as int);
    }
}

proof fn lemma_crossings(w: PlaneView, p: Coord, s: Seq<Coord>, n: int)
    requires
        0 <= n <= s.len(),
    ensures
        odd_passes(w, p, s, n) <==> crossings(w, p, edges_of(s).take(n)) % 2 == 1,
    decreases n,
{
    if n > 0 {
        lemma_crossings(w, p, s, n - 1);
        lemma_edge(s, n - 1);
        let e = edges_of(s).take(n);
        assert(e.drop_last() =~= edges_of(s).take(n - 1));
        assert(e.last() == (s[n - 1], after(s, n - 1)));
    }
}

/// A point off the edges of a ring is inside where an odd number of its edges
/// cross the ray to the right, and outside where an even number does; a point
/// on an edge is on the boundary.
pub proof fn law_inside_ring(w: PlaneView, p: Coord, s: Seq<Coord>)
    requires
        s.len() >= 3,
        is_open_ring(s),
    ensures
        (exists|k: int|
            0 <= k < s.len() && on_segment(
                w,
                p,
                (#[trigger] edges_of(s)[k]).0,
                edges_of(s)[k].1,
            )) <==> ring_loc(w, p, s) == Loc::Boundary,
        ring_loc(w, p, s) != Loc::Boundary ==> (ring_loc(w, p, s) == Loc::Inside <==> crossings(
            w,
            p,
            edges_of(s),
        ) % 2 == 1),
{
    let n = s.len() as int;
    assert(edge_count(s) == n);
    lemma_crossings(w, p, s, n);
    assert(edges_of(s).take(n) =~= edges_of(s));
    if on_ring(w, p, s) {
        let k = choose|k: int| 0 <= k < n && on_segment(w, p, #[trigger] s[k], after(s, k));
        lemma_edge(s, k);
        assert(on_segment(w, p, edges_of(s)[k].0, edges_of(s)[k].1));
    }
    if exists|k: int|
        0 <= k < s.len() && on_segment(w, p, (#[trigger] edges_of(s)[k]).0, edges_of(s)[k].1) {
        let k = choose|k: int|
            0 <= k < s.len() && on_segment(w, p, (#[trigger] edges_of(s)[k]).0, edges_of(s)[k].1);
        lemma_edge(s, k);
        assert(on_segment(w, p, s[k], after(s, k)));
    }
}

proof fn lemma_closed_passes(w: PlaneView, p: Coord, s: Seq<Coord>, n: int)
    requires
        0 <= n <= s.len(),
        s.len() > 0,
    ensures
        odd_passes(w, p, s.push(s[0]), n) == odd_passes(w, p, s, n),
    decreases n,
{
    if n > 0 {
        lemma_closed_passes(w, p, s, n - 1);
        assert(s.push(s[0])[n - 1] == s[n - 1]);
        assert(after(s.push(s[0]), n - 1) == after(s, n - 1));
    }
}

/// Repeating the first corner at the end of a ring changes nothing.
pub proof fn law_closed_ring(w: PlaneView, p: Coord, s: Seq<Coord>)
    requires
        s.len() >= 3,
        is_open_ring(s),
        !is_nan(s[0].0),
        !is_nan(s[0].1),
    ensures
        ring_loc(w, p, s.push(s[0])) == ring_loc(w, p, s),
{
    let t = s.push(s[0]);
    let n = s.len() as int;
    assert(t[0] == s[0] && t[t.len() - 1] == s[0]);
    assert(edge_count(t) == n && edge_count(s) == n);
    lemma_closed_passes(w, p, s, n);
    assert forall|k: int| 0 <= k < n implies #[trigger] after(t, k) == after(s, k) && t[k] == s[k] by {}
    if on_ring(w, p, s) {
        let k = choose|k: int| 0 <= k < n && on_segment(w, p, #[trigger] s[k], after(s, k));
        assert(after(t, k) == after(s, k));
        assert(on_segment(w, p, t[k], after(t, k)));
    }
    if on_ring(w, p, t) {
        let k = choose|k: int| 0 <= k < n && on_segment(w, p, #[trigger] t[k], after(t, k));
        assert(after(t, k) == after(s, k));
        assert(on_segment(w, p, s[k], after(s, k)));
    }
}

proof fn lemma_no_pass(w: PlaneView, p: Coord, s: Seq<Coord>, n: int)
    requires
        0 <= n <= s.len(),
        (forall|k: int| 0 <= k < s.len() ==> less(p.1, (#[trigger] s[k]).1)) || (forall|k: int|
            0 <= k < s.len() ==> !less(p.1, (#[trigger] s[k]).1)),
    ensures
        !odd_passes(w, p, s, n),
    decreases n,
{
    if n > 0 {
        lemma_no_pass(w, p, s, n - 1);
        let a = s[n - 1];
        let b = after(s, n - 1);
        if n < s.len() {
            assert(b == s[n]);
        } else {
            assert(b == s[0]);
        }
        assert(!passes(w, p, a, b));
    }
}

/// A point below all corners of a ring, or below none of them, is not inside it.
pub proof fn law_beside_ring(w: PlaneView, p: Coord, s: Seq<Coord>)
    requires
        (forall|k: int| 0 <= k < s.len() ==> less(p.1, (#[trigger] s[k]).1)) || (forall|k: int|
            0 <= k < s.len() ==> !less(p.1, (#[trigger] s[k]).1)),
    ensures
        ring_loc(w, p, s) != Loc::Inside,
{
    if s.len() >= 3 {
        lemma_no_pass(w, p, s, edge_count(s));
    }
}

/// A ring of one corner has that corner on its boundary and nothing else; one of
/// two has their segment.
pub proof fn law_flat_ring(w: PlaneView, p: Coord, a: Coord, b: Coord)
    ensures
        ring_loc(w, p, seq![a]) == Loc::Boundary <==> same(w, p, a),
        ring_loc(w, p, seq![a, b]) == Loc::Boundary <==> on_segment(w, p, a, b),
        ring_loc(w, p, seq![a]) != Loc::Inside,
        ring_loc(w, p, seq![a, b]) != Loc::Inside,
        ring_loc(w, p, seq![]) == Loc::Outside,
{
}

} // verus!
