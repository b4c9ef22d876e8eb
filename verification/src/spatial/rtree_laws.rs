//! What an index of boxes finds.

use vstd::prelude::*;

use crate::floats::{at_most, is_nan, less};
use crate::sequences::{lemma_filter_contains, lemma_push_contains};
use crate::spatial::distance::{shape_distance, Lengths};
use crate::spatial::geometry::{BoundingBox, Shape};
use crate::spatial::plane::PlaneView;
use crate::spatial::predicates::{contains_relation, shapes_meet};
use crate::spatial::rtree::{
    all_hits, at_most_first, containing_ids, entry_distance, holding, ids, law_nearest_first,
    meeting, meeting_ids, near_hits, sorted_hits, GaugeView, Hit, RTreeEntry,
};

verus! {

/// A query by box finds the entries whose box has a point in common with it, as
/// far as their sides tell: neither lies beside, above or below the other.
pub proof fn law_box_query(s: Seq<RTreeEntry>, q: BoundingBox, id: u64)
    requires
        !is_nan(q.min_x) && !is_nan(q.max_x) && !is_nan(q.min_y) && !is_nan(q.max_y),
        forall|i: int|
            0 <= i < s.len() ==> !is_nan((#[trigger] s[i]).bbox.min_x) && !is_nan(s[i].bbox.max_x)
                && !is_nan(s[i].bbox.min_y) && !is_nan(s[i].bbox.max_y),
    ensures
        ids(s.filter(meeting(q))).contains(id) <==> exists|i: int|
            0 <= i < s.len() && (#[trigger] s[i]).id == id && !less(s[i].bbox.max_x, q.min_x)
                && !less(q.max_x, s[i].bbox.min_x) && !less(s[i].bbox.max_y, q.min_y) && !less(
                q.max_y,
                s[i].bbox.min_y,
            ),
{
    let p = meeting(q);
    let r = s.filter(p);
    let out = ids(r);
    if out.contains(id) {
        let k = out.index_of(id);
        assert(r.contains(r[k]));
        lemma_filter_contains(s, p, r[k]);
        let i = s.index_of(r[k]);
        assert(s[i].id == id);
    }
    if exists|i: int|
        0 <= i < s.len() && (#[trigger] s[i]).id == id && !less(s[i].bbox.max_x, q.min_x) && !less(
            q.max_x,
            s[i].bbox.min_x,
        ) && !less(s[i].bbox.max_y, q.min_y) && !less(q.max_y, s[i].bbox.min_y) {
        let i = choose|i: int|
            0 <= i < s.len() && (#[trigger] s[i]).id == id && !less(s[i].bbox.max_x, q.min_x)
                && !less(q.max_x, s[i].bbox.min_x) && !less(s[i].bbox.max_y, q.min_y) && !less(
                q.max_y,
                s[i].bbox.min_y,
            );
        lemma_filter_contains(s, p, s[i]);
        assert(s.contains(s[i]));
        let k = r.index_of(s[i]);
        assert(out[k] == id);
    }
}

/// A query by point finds the entries between whose sides the point lies.
pub proof fn law_point_query(s: Seq<RTreeEntry>, p: (u64, u64), id: u64)
    ensures
        ids(s.filter(holding(p))).contains(id) <==> exists|i: int|
            0 <= i < s.len() && (#[trigger] s[i]).id == id && at_most(s[i].bbox.min_x, p.0)
                && at_most(p.0, s[i].bbox.max_x) && at_most(s[i].bbox.min_y, p.1) && at_most(
                p.1,
                s[i].bbox.max_y,
            ),
{
    let h = holding(p);
    let r = s.filter(h);
    let out = ids(r);
    if out.contains(id) {
        let k = out.index_of(id);
        assert(r.contains(r[k]));
        lemma_filter_contains(s, h, r[k]);
        let i = s.index_of(r[k]);
        assert(s[i].id == id);
    }
    if exists|i: int|
        0 <= i < s.len() && (#[trigger] s[i]).id == id && at_most(s[i].bbox.min_x, p.0) && at_most(
            p.0,
            s[i].bbox.max_x,
        ) && at_most(s[i].bbox.min_y, p.1) && at_most(p.1, s[i].bbox.max_y) {
        let i = choose|i: int|
            0 <= i < s.len() && (#[trigger] s[i]).id == id && at_most(s[i].bbox.min_x, p.0)
                && at_most(p.0, s[i].bbox.max_x) && at_most(s[i].bbox.min_y, p.1) && at_most(
                p.1,
                s[i].bbox.max_y,
            );
        lemma_filter_contains(s, h, s[i]);
        assert(s.contains(s[i]));
        let k = r.index_of(s[i]);
        assert(out[k] == id);
    }
}

/// A query by geometry finds the entries whose box meets that of the geometry
/// and whose geometry, if it is stored, meets it.
pub proof fn law_meeting_query(
    w: PlaneView,
    s: Seq<RTreeEntry>,
    g: Shape<u64>,
    q: BoundingBox,
    n: int,
    id: u64,
)
    requires
        0 <= n <= s.len(),
    ensures
        meeting_ids(w, s, g, q, n).contains(id) <==> exists|i: int|
            0 <= i < n && (#[trigger] s[i]).id == id && s[i].bbox.meets(q) && (s[i].geometry is Some
                ==> shapes_meet(w, s[i].geometry->0@, g)),
    decreases n,
{
    if n > 0 {
        law_meeting_query(w, s, g, q, n - 1, id);
        let before = meeting_ids(w, s, g, q, n - 1);
        lemma_push_contains(before, s[n - 1].id, id);
    }
}

/// A query for containers finds the entries whose box holds that of the geometry
/// and whose geometry, if it is stored, contains it.
pub proof fn law_containing_query(
    w: PlaneView,
    s: Seq<RTreeEntry>,
    g: Shape<u64>,
    q: BoundingBox,
    n: int,
    id: u64,
)
    requires
        0 <= n <= s.len(),
    ensures
        containing_ids(w, s, g, q, n).contains(id) <==> exists|i: int|
            0 <= i < n && (#[trigger] s[i]).id == id && s[i].bbox.holds_box(q) && (
            s[i].geometry is Some ==> contains_relation(w, s[i].geometry->0@, g)),
    decreases n,
{
    if n > 0 {
        law_containing_query(w, s, g, q, n - 1, id);
        let before = containing_ids(w, s, g, q, n - 1);
        lemma_push_contains(before, s[n - 1].id, id);
    }
}

/// A query by distance finds the entries with a geometry whose box is near and
/// whose distance is not above the limit, each with that distance.
pub proof fn law_distance_query(
    w: PlaneView,
    d: Lengths,
    u: GaugeView,
    s: Seq<RTreeEntry>,
    g: Shape<u64>,
    q: BoundingBox,
    limit: u64,
    n: int,
    hit: Hit,
)
    requires
        0 <= n <= s.len(),
    ensures
        near_hits(w, d, u, s, g, q, limit, n).contains(hit) <==> exists|i: int|
            0 <= i < n && (#[trigger] s[i]).id == hit.0 && (u.near)(s[i].bbox, q) && at_most(
                hit.1,
                limit,
            ) && hit.1 == (if s[i].geometry is Some {
                shape_distance(w, d, s[i].geometry->0@, g)
            } else {
                shape_distance(w, d, Shape::Point((u.center)(s[i].bbox)), g)
            }),
    decreases n,
{
    if n > 0 {
        law_distance_query(w, d, u, s, g, q, limit, n - 1, hit);
        let before = near_hits(w, d, u, s, g, q, limit, n - 1);
        let far = entry_distance(w, d, u, s[n - 1], g);
        lemma_push_contains(before, (s[n - 1].id, far), hit);
    }
}

/// The nearest entries: as many as asked for or all, in the order of their
/// distances, and none that is left out is nearer than one of them.
pub proof fn law_nearest_entries(
    s: Seq<RTreeEntry>,
    apart: spec_fn(BoundingBox) -> u64,
    k: int,
    i: int,
    j: int,
)
    requires
        0 <= k,
        forall|b: BoundingBox| !is_nan(#[trigger] apart(b)),
    ensures
        ({
            let all = sorted_hits(all_hits(s, apart), s.len() as int);
            let r = at_most_first(all, k);
            &&& all.len() == s.len()
            &&& r.len() == if k < s.len() {
                k
            } else {
                s.len() as int
            }
            &&& 0 <= i < r.len() ==> r[i] == all[i]
            &&& 0 <= i < j < all.len() ==> at_most(all[i].1, all[j].1)
            &&& all.to_multiset() == all_hits(s, apart).to_multiset()
        }),
{
    broadcast use vstd::seq_lib::group_to_multiset_ensures;

    let hits = all_hits(s, apart);
    assert forall|x: int| 0 <= x < hits.len() implies !is_nan((#[trigger] hits[x]).1) by {}
    law_nearest_first(hits, s.len() as int);
    assert(hits.take(s.len() as int) =~= hits);
    let all = sorted_hits(hits, s.len() as int);
    assert(all.to_multiset().len() == all.len());
    assert(hits.to_multiset().len() == hits.len());
}

} // verus!
