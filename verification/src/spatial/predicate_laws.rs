//! How the spatial predicates hang together.

use vstd::prelude::*;

use crate::floats::is_finite;
use crate::spatial::geometry::{
    law_meeting_is_mutual, lines_valid, points_valid, shape_box, shape_valid,
    shapes_valid, Shape,
};
use crate::spatial::plane::{
    after, any_at, any_meets_any, hole_loc, lines_meet, meets_any, middle_at, on_line, on_segment,
    polygon_loc, ring_loc, same, same_backward, same_forward, same_path, segment_meets_line,
    segments_meet, Coord, Loc, PlaneView, Question,
};
use crate::spatial::predicates::{
    all_parts, any_parts_meet, boxes_meet, contains_relation, crosses_relation, equals_relation,
    overlaps_relation, part_contains, part_meets_any, parts_meet, parts_of,
    shape_contains, shapes_meet, some_part_contains, touches_relation,
};

verus! {

/// Whether a shape is a single point, line or polygon.
pub open spec fn is_single(x: Shape<u64>) -> bool {
    x is Point || x is LineString || x is Polygon
}

/// Whether a point is a corner of a shape: the point itself, a corner of a
/// line with a segment, or one of the outer ring of a polygon.
pub open spec fn is_corner(x: Shape<u64>, c: Coord) -> bool {
    match x {
        Shape::Point(p) => p == c,
        Shape::LineString(s) => s.len() > 1 && s.contains(c),
        Shape::Polygon(r) => r.len() > 0 && r[0].len() > 1 && r[0].contains(c),
        _ => false,
    }
}

/// Whether the boxes of two shapes have a point in common.
pub open spec fn near(x: Shape<u64>, y: Shape<u64>) -> bool {
    shape_box(x) is Some && shape_box(y) is Some && shape_box(x)->0.meets(shape_box(y)->0)
}

/// Whether the two points of a question are taken for one in either order.
pub open spec fn sameness_is_mutual(w: PlaneView) -> bool {
    forall|p: Coord, q: Coord|
        (#[trigger] (w.ask)(Question::Same(p, q)) == 1) <==> ((w.ask)(Question::Same(q, p)) == 1)
}

/// Whether every point is taken for itself.
pub open spec fn sameness_is_reflexive(w: PlaneView) -> bool {
    forall|p: Coord| #[trigger] (w.ask)(Question::Same(p, p)) == 1
}

// ---------------------------------------------------------------------------
// Segments and lines
// ---------------------------------------------------------------------------
/// Segments meet where the ends of each lie on the two sides of the other, and
/// where an end of one lies on the other. They do not where both ends of one
/// lie on one side of the other and no end is in line.
pub proof fn law_segments(w: PlaneView, a: Coord, b: Coord, c: Coord, d: Coord)
    ensures
        ({
            let met = parts_meet(
                w,
                Shape::LineString(seq![a, b]),
                Shape::LineString(seq![c, d]),
            );
            let abc = (w.ask)(Question::Turn(a, b, c));
            let abd = (w.ask)(Question::Turn(a, b, d));
            let cda = (w.ask)(Question::Turn(c, d, a));
            let cdb = (w.ask)(Question::Turn(c, d, b));
            &&& abc == 1 && abd == 2 && cda == 1 && cdb == 2 ==> met
            &&& abc == 2 && abd == 1 && cda == 1 && cdb == 2 ==> met
            &&& abc == 1 && abd == 2 && cda == 2 && cdb == 1 ==> met
            &&& abc == 2 && abd == 1 && cda == 2 && cdb == 1 ==> met
            &&& abc == 0 && (w.ask)(Question::Along(a, b, c)) == 1 ==> met
            &&& abd == 0 && (w.ask)(Question::Along(a, b, d)) == 1 ==> met
            &&& cda == 0 && (w.ask)(Question::Along(c, d, a)) == 1 ==> met
            &&& cdb == 0 && (w.ask)(Question::Along(c, d, b)) == 1 ==> met
            &&& abc == abd && abc != 0 && cda != 0 && cdb != 0 ==> !met
            &&& cda == cdb && cda != 0 && abc != 0 && abd != 0 ==> !met
        }),
{
    reveal(segments_meet);
    let s = seq![a, b];
    let t = seq![c, d];
    assert(s[0] == a && s[1] == b && t[0] == c && t[1] == d);
    if segments_meet(w, a, b, c, d) {
        assert(segments_meet(w, a, b, t[0], t[0int + 1]));
        assert(segment_meets_line(w, s[0], s[0int + 1], t));
    }
    if lines_meet(w, s, t) {
        let k = choose|k: int|
            0 <= k < s.len() - 1 && segment_meets_line(w, #[trigger] s[k], s[k + 1], t);
        let j = choose|j: int|
            0 <= j < t.len() - 1 && segments_meet(w, s[k], s[k + 1], #[trigger] t[j], t[j + 1]);
        assert(k == 0 && j == 0);
    }
}

/// Whether a point is in line with the ends of a segment of a line and in their
/// box.
pub open spec fn lies_on(w: PlaneView, p: Coord, s: Seq<Coord>, k: int) -> bool {
    0 <= k < s.len() - 1 && (w.ask)(Question::Turn(s[k], s[k + 1], p)) == 0 && (w.ask)(
        Question::Along(s[k], s[k + 1], p),
    ) == 1
}

/// A point meets a line exactly where it is in line with the ends of one of its
/// segments and in their box.
pub proof fn law_point_on_line(w: PlaneView, p: Coord, s: Seq<Coord>)
    ensures
        parts_meet(w, Shape::Point(p), Shape::LineString(s)) <==> exists|k: int| #[trigger]
            lies_on(w, p, s, k),
        parts_meet(w, Shape::LineString(s), Shape::Point(p)) <==> exists|k: int| #[trigger]
            lies_on(w, p, s, k),
{
    if on_line(w, p, s) {
        let k = choose|k: int| 0 <= k < s.len() - 1 && on_segment(w, p, #[trigger] s[k], s[k + 1]);
        assert(lies_on(w, p, s, k));
    }
    if exists|k: int| #[trigger] lies_on(w, p, s, k) {
        let k = choose|k: int| #[trigger] lies_on(w, p, s, k);
        assert(on_segment(w, p, s[k], s[k + 1]));
    }
}

/// One segment of a line.
pub open spec fn segment_of(s: Seq<Coord>, k: int) -> Shape<u64> {
    Shape::LineString(seq![s[k], s[k + 1]])
}

/// Lines meet exactly where a segment of one meets a segment of the other.
pub proof fn law_lines_meet_by_segments(w: PlaneView, s: Seq<Coord>, t: Seq<Coord>)
    ensures
        parts_meet(w, Shape::LineString(s), Shape::LineString(t)) <==> exists|k: int, j: int|
            0 <= k < s.len() - 1 && 0 <= j < t.len() - 1 && parts_meet(
                w,
                #[trigger] segment_of(s, k),
                #[trigger] segment_of(t, j),
            ),
{
    assert forall|k: int, j: int|
        0 <= k < s.len() - 1 && 0 <= j < t.len() - 1 implies parts_meet(
        w,
        #[trigger] segment_of(s, k),
        #[trigger] segment_of(t, j),
    ) == segments_meet(w, s[k], s[k + 1], t[j], t[j + 1]) by {
        lemma_two_segments(w, s[k], s[k + 1], t[j], t[j + 1]);
    }
    if lines_meet(w, s, t) {
        let k = choose|k: int|
            0 <= k < s.len() - 1 && segment_meets_line(w, #[trigger] s[k], s[k + 1], t);
        let j = choose|j: int|
            0 <= j < t.len() - 1 && segments_meet(w, s[k], s[k + 1], #[trigger] t[j], t[j + 1]);
        assert(parts_meet(w, segment_of(s, k), segment_of(t, j)));
    }
    if exists|k: int, j: int|
        0 <= k < s.len() - 1 && 0 <= j < t.len() - 1 && parts_meet(
            w,
            #[trigger] segment_of(s, k),
            #[trigger] segment_of(t, j),
        ) {
        let (k, j) = choose|k: int, j: int|
            0 <= k < s.len() - 1 && 0 <= j < t.len() - 1 && parts_meet(
                w,
                #[trigger] segment_of(s, k),
                #[trigger] segment_of(t, j),
            );
        assert(segments_meet(w, s[k], s[k + 1], t[j], t[j + 1]));
        assert(segment_meets_line(w, s[k], s[k + 1], t));
    }
}

proof fn lemma_two_segments(w: PlaneView, a: Coord, b: Coord, c: Coord, d: Coord)
    ensures
        lines_meet(w, seq![a, b], seq![c, d]) == segments_meet(w, a, b, c, d),
{
    let s = seq![a, b];
    let t = seq![c, d];
    assert(s[0] == a && s[1] == b && t[0] == c && t[1] == d);
    if segments_meet(w, a, b, c, d) {
        assert(segments_meet(w, a, b, t[0], t[0int + 1]));
        assert(segment_meets_line(w, s[0], s[0int + 1], t));
    }
    if lines_meet(w, s, t) {
        let k = choose|k: int|
            0 <= k < s.len() - 1 && segment_meets_line(w, #[trigger] s[k], s[k + 1], t);
        let j = choose|j: int|
            0 <= j < t.len() - 1 && segments_meet(w, s[k], s[k + 1], #[trigger] t[j], t[j + 1]);
        assert(k == 0 && j == 0);
    }
}

proof fn lemma_lines_mutual(w: PlaneView, s: Seq<Coord>, t: Seq<Coord>)
    requires
        lines_meet(w, s, t),
    ensures
        lines_meet(w, t, s),
{
    reveal(segments_meet);
    let k = choose|k: int|
        0 <= k < s.len() - 1 && segment_meets_line(w, #[trigger] s[k], s[k + 1], t);
    let j = choose|j: int|
        0 <= j < t.len() - 1 && segments_meet(w, s[k], s[k + 1], #[trigger] t[j], t[j + 1]);
    assert(segments_meet(w, t[j], t[j + 1], s[k], s[k + 1]));
    assert(segment_meets_line(w, t[j], t[j + 1], s));
}

/// A corner of a line that lies on another makes the lines meet.
proof fn lemma_corner_on_line(w: PlaneView, s: Seq<Coord>, t: Seq<Coord>, i: int)
    requires
        s.len() > 1,
        0 <= i < s.len(),
        on_line(w, s[i], t),
    ensures
        lines_meet(w, s, t),
        lines_meet(w, t, s),
{
    reveal(segments_meet);
    let j = choose|j: int| 0 <= j < t.len() - 1 && on_segment(w, s[i], #[trigger] t[j], t[j + 1]);
    let k = if i < s.len() - 1 {
        i
    } else {
        i - 1
    };
    assert(s[k] == s[i] || s[k + 1] == s[i]);
    assert(segments_meet(w, s[k], s[k + 1], t[j], t[j + 1]));
    assert(segment_meets_line(w, s[k], s[k + 1], t));
    lemma_lines_mutual(w, s, t);
}

// ---------------------------------------------------------------------------
// Meeting
// ---------------------------------------------------------------------------
proof fn lemma_single(w: PlaneView, x: Shape<u64>, y: Shape<u64>)
    requires
        is_single(x),
        is_single(y),
    ensures
        parts_of(x) == seq![x],
        parts_of(y) == seq![y],
        any_parts_meet(w, parts_of(x), parts_of(y)) <==> boxes_meet(x, y) && parts_meet(w, x, y),
        shape_contains(w, x, y) <==> part_contains(w, x, y),
{
    let s = parts_of(x);
    let t = parts_of(y);
    assert(s == seq![x] && t == seq![y]);
    assert(s[0] == x && t[0] == y);
    if boxes_meet(x, y) && parts_meet(w, x, y) {
        assert(part_meets_any(w, s[0], t)) by {
            assert(boxes_meet(s[0], t[0]) && parts_meet(w, s[0], t[0]));
        }
    }
    if part_contains(w, x, y) {
        assert(part_contains(w, s[0], y));
        assert forall|k: int| 0 <= k < t.len() implies some_part_contains(
            w,
            s,
            #[trigger] t[k],
        ) by {}
    }
    if shape_contains(w, x, y) {
        assert(some_part_contains(w, s, t[0]));
    }
}

proof fn lemma_parts_mutual(w: PlaneView, x: Shape<u64>, y: Shape<u64>)
    requires
        sameness_is_mutual(w),
        parts_meet(w, x, y),
        boxes_meet(x, y),
    ensures
        parts_meet(w, y, x),
        boxes_meet(y, x),
{
    match (shape_box(x), shape_box(y)) {
        (Some(a), Some(b)) => {
            law_meeting_is_mutual(a, b);
        },
        _ => {},
    }
    match (x, y) {
        (Shape::Point(p), Shape::Point(q)) => {
            assert((w.ask)(Question::Same(p, q)) == 1);
        },
        (Shape::LineString(s), Shape::LineString(t)) => {
            lemma_lines_mutual(w, s, t);
        },
        (Shape::Polygon(r), Shape::Polygon(q)) => {
            if any_meets_any(w, r, q) {
                let k = choose|k: int| 0 <= k < r.len() && meets_any(w, #[trigger] r[k], q);
                let j = choose|j: int| 0 <= j < q.len() && lines_meet(w, r[k], #[trigger] q[j]);
                lemma_lines_mutual(w, r[k], q[j]);
                assert(meets_any(w, q[j], r));
            }
        },
        _ => {},
    }
}

/// Meeting is mutual, where sameness of points is.
pub proof fn law_meeting_is_symmetric(w: PlaneView, a: Shape<u64>, b: Shape<u64>)
    requires
        sameness_is_mutual(w),
    ensures
        shapes_meet(w, a, b) == shapes_meet(w, b, a),
{
    lemma_any_mutual(w, parts_of(a), parts_of(b));
    lemma_any_mutual(w, parts_of(b), parts_of(a));
}

proof fn lemma_any_mutual(w: PlaneView, s: Seq<Shape<u64>>, t: Seq<Shape<u64>>)
    requires
        sameness_is_mutual(w),
    ensures
        any_parts_meet(w, s, t) ==> any_parts_meet(w, t, s),
{
    if any_parts_meet(w, s, t) {
        let k = choose|k: int| 0 <= k < s.len() && part_meets_any(w, #[trigger] s[k], t);
        let j = choose|j: int|
            0 <= j < t.len() && boxes_meet(s[k], #[trigger] t[j]) && parts_meet(w, s[k], t[j]);
        lemma_parts_mutual(w, s[k], t[j]);
        assert(part_meets_any(w, t[j], s)) by {
            assert(boxes_meet(t[j], s[k]) && parts_meet(w, t[j], s[k]));
        }
    }
}

/// A corner of a line or polygon that meets another line or polygon makes the
/// two meet, in either order, where their boxes do.
pub proof fn law_common_corner_meets(w: PlaneView, x: Shape<u64>, y: Shape<u64>, c: Coord)
    requires
        shape_valid(x),
        x is LineString || x is Polygon,
        y is LineString || y is Polygon,
        is_corner(x, c),
        near(x, y),
        shapes_meet(w, Shape::Point(c), y),
    ensures
        shapes_meet(w, x, y),
        shapes_meet(w, y, x),
{
    let p = Shape::<u64>::Point(c);
    lemma_single(w, p, y);
    lemma_single(w, x, y);
    lemma_single(w, y, x);
    law_meeting_is_mutual(shape_box(x)->0, shape_box(y)->0);
    assert(boxes_meet(x, y) && boxes_meet(y, x));
    match (x, y) {
        (Shape::LineString(s), Shape::LineString(t)) => {
            lemma_corner_on_line(w, s, t, s.index_of(c));
        },
        (Shape::LineString(s), Shape::Polygon(r)) => {
            let i = s.index_of(c);
            assert(polygon_loc(w, s[i], r) != Loc::Outside);
        },
        (Shape::Polygon(r), Shape::LineString(s)) => {
            let i = r[0].index_of(c);
            lemma_corner_on_line(w, r[0], s, i);
            assert(meets_any(w, s, r));
        },
        (Shape::Polygon(r), Shape::Polygon(q)) => {
            let i = r[0].index_of(c);
            assert(polygon_loc(w, r[0][i], q) != Loc::Outside);
        },
        _ => {},
    }
}

/// What contains a point, line or polygon with corners meets it, in either
/// order, where their boxes do.
pub proof fn law_contained_meets(w: PlaneView, x: Shape<u64>, y: Shape<u64>, c: Coord)
    requires
        sameness_is_mutual(w),
        is_single(x),
        x is LineString || x is Polygon || y is Point,
        is_single(y),
        is_corner(y, c),
        near(x, y),
        contains_relation(w, x, y),
    ensures
        shapes_meet(w, x, y),
        shapes_meet(w, y, x),
{
    lemma_single(w, x, y);
    assert(boxes_meet(x, y));
    match (x, y) {
        (Shape::LineString(s), Shape::LineString(t)) => {
            let i = t.index_of(c);
            assert(on_line(w, t[i], s));
            lemma_corner_on_line(w, t, s, i);
        },
        (Shape::Polygon(r), Shape::LineString(t)) => {
            let i = t.index_of(c);
            assert(polygon_loc(w, t[i], r) == Loc::Inside);
        },
        (Shape::Polygon(r), Shape::Polygon(q)) => {
            let i = q[0].index_of(c);
            assert(polygon_loc(w, q[0][i], r) == Loc::Inside);
        },
        _ => {},
    }
    assert(shapes_meet(w, x, y));
    law_meeting_is_symmetric(w, x, y);
}

proof fn lemma_all_parts_meet(
    w: PlaneView,
    s: Seq<Shape<u64>>,
    t: Seq<Shape<u64>>,
)
    ensures
        any_parts_meet(w, all_parts(s), t) <==> exists|k: int|
            0 <= k < s.len() && any_parts_meet(w, parts_of(#[trigger] s[k]), t),
    decreases s.len(),
{
    let all = all_parts(s);
    if s.len() == 0 {
        assert(all.len() == 0);
    } else {
        let front = s.drop_last();
        let before = all_parts(front);
        let here = parts_of(s.last());
        lemma_all_parts_meet(w, front, t);
        assert(all == before + here);
        if any_parts_meet(w, all, t) {
            let k = choose|k: int| 0 <= k < all.len() && part_meets_any(w, #[trigger] all[k], t);
            if k < before.len() {
                assert(part_meets_any(w, before[k], t));
                let i = choose|i: int|
                    0 <= i < front.len() && any_parts_meet(w, parts_of(#[trigger] front[i]), t);
                assert(any_parts_meet(w, parts_of(s[i]), t));
            } else {
                assert(part_meets_any(w, here[k - before.len()], t));
                assert(any_parts_meet(w, parts_of(s[s.len() - 1]), t));
            }
        }
        if exists|k: int| 0 <= k < s.len() && any_parts_meet(w, parts_of(#[trigger] s[k]), t) {
            let k = choose|k: int| 0 <= k < s.len() && any_parts_meet(w, parts_of(#[trigger] s[k]), t);
            if k < front.len() {
                assert(any_parts_meet(w, parts_of(front[k]), t));
                let i = choose|i: int|
                    0 <= i < before.len() && part_meets_any(w, #[trigger] before[i], t);
                assert(part_meets_any(w, all[i], t));
            } else {
                let i = choose|i: int|
                    0 <= i < here.len() && part_meets_any(w, #[trigger] here[i], t);
                assert(part_meets_any(w, all[before.len() + i], t));
            }
        }
    }
}

proof fn lemma_member_valid(s: Seq<Shape<u64>>, k: int)
    requires
        shapes_valid(s),
        0 <= k < s.len(),
    ensures
        shape_valid(s[k]),
    decreases s.len(),
{
    if k < s.len() - 1 {
        lemma_member_valid(s.drop_last(), k);
    }
}

/// A collection meets a geometry exactly where one of its members does.
pub proof fn law_collection_meets(w: PlaneView, s: Seq<Shape<u64>>, b: Shape<u64>)
    requires
        shape_valid(Shape::Collection(s)),
    ensures
        shapes_meet(w, Shape::Collection(s), b) <==> exists|k: int|
            0 <= k < s.len() && shapes_meet(w, #[trigger] s[k], b),
{
    lemma_all_parts_meet(w, s, parts_of(b));
    if shapes_meet(w, Shape::Collection(s), b) {
        let k = choose|k: int|
            0 <= k < s.len() && any_parts_meet(w, parts_of(#[trigger] s[k]), parts_of(b));
        lemma_member_valid(s, k);
        assert(shapes_meet(w, s[k], b));
    }
    if exists|k: int| 0 <= k < s.len() && shapes_meet(w, #[trigger] s[k], b) {
        let k = choose|k: int| 0 <= k < s.len() && shapes_meet(w, #[trigger] s[k], b);
        assert(any_parts_meet(w, parts_of(s[k]), parts_of(b)));
    }
}

/// Several points meet a geometry exactly where one of them does.
pub proof fn law_points_meet(w: PlaneView, ps: Seq<Coord>, b: Shape<u64>)
    requires
        shape_valid(Shape::MultiPoint(ps)),
    ensures
        shapes_meet(w, Shape::MultiPoint(ps), b) <==> exists|k: int|
            0 <= k < ps.len() && shapes_meet(w, Shape::Point(#[trigger] ps[k]), b),
{
    let all = parts_of(Shape::MultiPoint(ps));
    assert(all.len() == ps.len());
    assert forall|k: int| 0 <= k < ps.len() implies shapes_meet(
        w,
        Shape::Point(#[trigger] ps[k]),
        b,
    ) == (shape_valid(b) && part_meets_any(w, all[k], parts_of(b))) by {
        lemma_one(w, Shape::Point(ps[k]), parts_of(b));
    }
    if shapes_meet(w, Shape::MultiPoint(ps), b) {
        let k = choose|k: int|
            0 <= k < all.len() && part_meets_any(w, #[trigger] all[k], parts_of(b));
        assert(shapes_meet(w, Shape::Point(ps[k]), b));
    }
    if exists|k: int| 0 <= k < ps.len() && shapes_meet(w, Shape::Point(#[trigger] ps[k]), b) {
        let k = choose|k: int| 0 <= k < ps.len() && shapes_meet(w, Shape::Point(#[trigger] ps[k]), b);
        assert(part_meets_any(w, all[k], parts_of(b)));
    }
}

proof fn lemma_one(w: PlaneView, x: Shape<u64>, t: Seq<Shape<u64>>)
    requires
        is_single(x),
    ensures
        any_parts_meet(w, parts_of(x), t) == part_meets_any(w, x, t),
{
    let s = parts_of(x);
    assert(s == seq![x]);
    assert(s[0] == x);
    if part_meets_any(w, x, t) {
        assert(part_meets_any(w, s[0], t));
    }
}

/// Several lines meet a geometry exactly where one of them does.
pub proof fn law_several_lines_meet(w: PlaneView, ls: Seq<Seq<Coord>>, b: Shape<u64>)
    requires
        shape_valid(Shape::MultiLineString(ls)),
    ensures
        shapes_meet(w, Shape::MultiLineString(ls), b) <==> exists|k: int|
            0 <= k < ls.len() && shapes_meet(w, Shape::LineString(#[trigger] ls[k]), b),
{
    let all = parts_of(Shape::MultiLineString(ls));
    assert(all.len() == ls.len());
    assert forall|k: int| 0 <= k < ls.len() implies shapes_meet(
        w,
        Shape::LineString(#[trigger] ls[k]),
        b,
    ) == (shape_valid(b) && part_meets_any(w, all[k], parts_of(b))) by {
        lemma_one(w, Shape::LineString(ls[k]), parts_of(b));
    }
    if shapes_meet(w, Shape::MultiLineString(ls), b) {
        let k = choose|k: int|
            0 <= k < all.len() && part_meets_any(w, #[trigger] all[k], parts_of(b));
        assert(shapes_meet(w, Shape::LineString(ls[k]), b));
    }
    if exists|k: int| 0 <= k < ls.len() && shapes_meet(w, Shape::LineString(#[trigger] ls[k]), b) {
        let k = choose|k: int|
            0 <= k < ls.len() && shapes_meet(w, Shape::LineString(#[trigger] ls[k]), b);
        assert(part_meets_any(w, all[k], parts_of(b)));
    }
}

/// Several polygons meet a geometry exactly where one of them does.
pub proof fn law_several_polygons_meet(w: PlaneView, ps: Seq<Seq<Seq<Coord>>>, b: Shape<u64>)
    requires
        shape_valid(Shape::MultiPolygon(ps)),
    ensures
        shapes_meet(w, Shape::MultiPolygon(ps), b) <==> exists|k: int|
            0 <= k < ps.len() && shapes_meet(w, Shape::Polygon(#[trigger] ps[k]), b),
{
    let all = parts_of(Shape::MultiPolygon(ps));
    assert(all.len() == ps.len());
    assert forall|k: int| 0 <= k < ps.len() implies shapes_meet(
        w,
        Shape::Polygon(#[trigger] ps[k]),
        b,
    ) == (shape_valid(b) && part_meets_any(w, all[k], parts_of(b))) by {
        lemma_one(w, Shape::Polygon(ps[k]), parts_of(b));
    }
    if shapes_meet(w, Shape::MultiPolygon(ps), b) {
        let k = choose|k: int|
            0 <= k < all.len() && part_meets_any(w, #[trigger] all[k], parts_of(b));
        assert(shapes_meet(w, Shape::Polygon(ps[k]), b));
    }
    if exists|k: int| 0 <= k < ps.len() && shapes_meet(w, Shape::Polygon(#[trigger] ps[k]), b) {
        let k = choose|k: int|
            0 <= k < ps.len() && shapes_meet(w, Shape::Polygon(#[trigger] ps[k]), b);
        assert(part_meets_any(w, all[k], parts_of(b)));
    }
}

// ---------------------------------------------------------------------------
// Points and polygons
// ---------------------------------------------------------------------------
/// Whether a point is outside the rings from the second up to, but not with,
/// the given one.
pub open spec fn outside_holes(w: PlaneView, p: Coord, rings: Seq<Seq<Coord>>, k: int) -> bool {
    forall|j: int|
        1 <= j < k ==> polygon_loc(w, p, seq![#[trigger] rings[j]]) == Loc::Outside
}

/// A point lies to a polygon as to its outer ring, but for the holes: in a
/// hole it is outside, and on the ring of the first hole that it is not outside
/// of, on the boundary.
pub proof fn law_holes(w: PlaneView, p: Coord, rings: Seq<Seq<Coord>>, k: int)
    requires
        rings.len() > 0,
    ensures
        polygon_loc(w, p, rings) == Loc::Inside <==> polygon_loc(w, p, seq![rings[0]])
            == Loc::Inside && outside_holes(w, p, rings, rings.len() as int),
        polygon_loc(w, p, seq![rings[0]]) != Loc::Inside ==> polygon_loc(w, p, rings)
            == polygon_loc(w, p, seq![rings[0]]),
        1 <= k < rings.len() && polygon_loc(w, p, seq![rings[0]]) == Loc::Inside && outside_holes(
            w,
            p,
            rings,
            k,
        ) ==> (match polygon_loc(w, p, seq![rings[k]]) {
            Loc::Inside => polygon_loc(w, p, rings) == Loc::Outside,
            Loc::Boundary => polygon_loc(w, p, rings) == Loc::Boundary,
            Loc::Outside => true,
        }),
{
    reveal(polygon_loc);
    lemma_lone_ring(w, p, rings[0]);
    lemma_holes(w, p, rings, 1, k);
    lemma_holes(w, p, rings, 1, rings.len() as int);
    if 1 <= k < rings.len() {
        lemma_lone_ring(w, p, rings[k]);
    }
    lemma_outside(w, p, rings, k);
    lemma_outside(w, p, rings, rings.len() as int);
}

/// Whether a point is outside the rings from one up to, but not with, another.
spec fn outside_rings(w: PlaneView, p: Coord, rings: Seq<Seq<Coord>>, from: int, k: int) -> bool {
    forall|j: int| from <= j < k ==> ring_loc(w, p, #[trigger] rings[j]) == Loc::Outside
}

proof fn lemma_outside(w: PlaneView, p: Coord, rings: Seq<Seq<Coord>>, k: int)
    ensures
        outside_holes(w, p, rings, k) == outside_rings(w, p, rings, 1, k),
{
    if outside_holes(w, p, rings, k) {
        assert forall|j: int| 1 <= j < k implies ring_loc(w, p, #[trigger] rings[j])
            == Loc::Outside by {
            lemma_lone_ring(w, p, rings[j]);
        }
    }
    if outside_rings(w, p, rings, 1, k) {
        assert forall|j: int| 1 <= j < k implies polygon_loc(w, p, seq![#[trigger] rings[j]])
            == Loc::Outside by {
            lemma_lone_ring(w, p, rings[j]);
        }
    }
}

proof fn lemma_lone_ring(w: PlaneView, p: Coord, s: Seq<Coord>)
    ensures
        polygon_loc(w, p, seq![s]) == ring_loc(w, p, s),
{
    reveal(polygon_loc);
    reveal_with_fuel(hole_loc, 2);
    assert(seq![s][0] == s);
    assert(hole_loc(w, p, seq![s], 1) == Loc::Inside);
}

proof fn lemma_holes(w: PlaneView, p: Coord, rings: Seq<Seq<Coord>>, from: int, k: int)
    requires
        1 <= from <= rings.len(),
    ensures
        hole_loc(w, p, rings, from) == Loc::Inside <==> outside_rings(
            w,
            p,
            rings,
            from,
            rings.len() as int,
        ),
        from <= k < rings.len() && outside_rings(w, p, rings, from, k) ==> (match ring_loc(
            w,
            p,
            rings[k],
        ) {
            Loc::Inside => hole_loc(w, p, rings, from) == Loc::Outside,
            Loc::Boundary => hole_loc(w, p, rings, from) == Loc::Boundary,
            Loc::Outside => true,
        }),
    decreases rings.len() - from,
{
    let n = rings.len() as int;
    if from < n {
        let here = ring_loc(w, p, rings[from]);
        if here == Loc::Outside {
            lemma_holes(w, p, rings, from + 1, k);
            if outside_rings(w, p, rings, from + 1, n) {
                assert forall|j: int| from <= j < n implies ring_loc(w, p, #[trigger] rings[j])
                    == Loc::Outside by {}
            }
        } else {
            assert(outside_rings(w, p, rings, from, n) ==> ring_loc(w, p, rings[from])
                == Loc::Outside);
        }
    }
}

/// A point on an edge of a ring with at least three corners is on the boundary
/// of the polygon of that ring.
pub proof fn law_edge_is_boundary(w: PlaneView, p: Coord, s: Seq<Coord>, k: int)
    requires
        s.len() > 2,
        0 <= k < s.len() - 1,
        (w.ask)(Question::Turn(s[k], s[k + 1], p)) == 0,
        (w.ask)(Question::Along(s[k], s[k + 1], p)) == 1,
    ensures
        polygon_loc(w, p, seq![s]) == Loc::Boundary,
{
    lemma_lone_ring(w, p, s);
    assert(on_segment(w, p, s[k], after(s, k)));
}

/// To a polygon a point is either apart, or touching, or contained: exactly one
/// of the three, where the boxes meet.
pub proof fn law_point_and_polygon(w: PlaneView, p: Coord, r: Seq<Seq<Coord>>)
    requires
        shape_valid(Shape::Point(p)),
        shape_valid(Shape::Polygon(r)),
        near(Shape::Polygon(r), Shape::Point(p)),
    ensures
        ({
            let a = Shape::Polygon(r);
            let b = Shape::Point(p);
            let apart = !shapes_meet(w, a, b);
            let touching = touches_relation(w, a, b);
            let contained = contains_relation(w, a, b);
            &&& apart || touching || contained
            &&& !(apart && touching) && !(apart && contained) && !(touching && contained)
            &&& apart == (polygon_loc(w, p, r) == Loc::Outside)
            &&& touching == (polygon_loc(w, p, r) == Loc::Boundary)
            &&& touches_relation(w, b, a) == touching
        }),
{
    let a = Shape::Polygon(r);
    let b = Shape::<u64>::Point(p);
    lemma_single(w, a, b);
    lemma_single(w, b, a);
    law_meeting_is_mutual(shape_box(a)->0, shape_box(b)->0);
    assert(boxes_meet(a, b) && boxes_meet(b, a));
}

// ---------------------------------------------------------------------------
// Containing, touching, crossing, overlapping, equality
// ---------------------------------------------------------------------------
/// What is contained has all its corners inside and is not touched.
pub proof fn law_contained_is_inside(w: PlaneView, r: Seq<Seq<Coord>>, y: Shape<u64>, c: Coord)
    requires
        is_single(y),
        is_corner(y, c),
        contains_relation(w, Shape::Polygon(r), y),
    ensures
        contains_relation(w, Shape::Polygon(r), Shape::Point(c)),
        !touches_relation(w, Shape::Polygon(r), y),
        y is LineString ==> !crosses_relation(w, Shape::Polygon(r), y) || exists|k: int|
            0 <= k < y->LineString_0.len() - 1 && polygon_loc(
                w,
                (w.middle)(#[trigger] y->LineString_0[k], y->LineString_0[k + 1]),
                r,
            ) == Loc::Outside,
{
    let a = Shape::Polygon(r);
    lemma_single(w, a, y);
    lemma_single(w, a, Shape::Point(c));
    match y {
        Shape::LineString(t) => {
            let i = t.index_of(c);
            assert(t[i] == c);
            lemma_corner_valid(t, i);
            assert(any_at(w, t, r, Loc::Inside));
            if crosses_relation(w, a, y) {
                reveal(middle_at);
            }
        },
        Shape::Polygon(q) => {
            let i = q[0].index_of(c);
            assert(q[0][i] == c);
            lemma_ring_valid(q, 0);
            lemma_corner_valid(q[0], i);
            assert(any_at(w, q[0], r, Loc::Inside));
        },
        _ => {},
    }
}

proof fn lemma_corner_valid(s: Seq<Coord>, i: int)
    requires
        points_valid(s),
        0 <= i < s.len(),
    ensures
        shape_valid(Shape::Point(s[i])),
{
}

proof fn lemma_ring_valid(r: Seq<Seq<Coord>>, i: int)
    requires
        lines_valid(r),
        0 <= i < r.len(),
    ensures
        points_valid(r[i]),
{
}

/// A polygon does not contain what has a corner on its boundary or outside of
/// it.
pub proof fn law_corner_outside_is_not_contained(
    w: PlaneView,
    r: Seq<Seq<Coord>>,
    y: Shape<u64>,
    c: Coord,
)
    requires
        is_single(y),
        is_corner(y, c),
        polygon_loc(w, c, r) != Loc::Inside,
    ensures
        !contains_relation(w, Shape::Polygon(r), y),
{
    lemma_single(w, Shape::Polygon(r), y);
    match y {
        Shape::LineString(t) => {
            let i = t.index_of(c);
            assert(polygon_loc(w, t[i], r) != Loc::Inside);
        },
        Shape::Polygon(q) => {
            let i = q[0].index_of(c);
            assert(polygon_loc(w, q[0][i], r) != Loc::Inside);
        },
        _ => {},
    }
}

/// A geometry contains several points exactly where it contains each.
pub proof fn law_contains_each(w: PlaneView, a: Shape<u64>, ps: Seq<Coord>)
    requires
        ps.len() > 0,
    ensures
        contains_relation(w, a, Shape::MultiPoint(ps)) <==> forall|k: int|
            0 <= k < ps.len() ==> contains_relation(w, a, Shape::Point(#[trigger] ps[k])),
{
    let b = Shape::<u64>::MultiPoint(ps);
    let t = parts_of(b);
    assert(t.len() == ps.len());
    assert forall|k: int| 0 <= k < ps.len() implies shape_contains(
        w,
        a,
        Shape::Point(#[trigger] ps[k]),
    ) == (parts_of(a).len() > 0 && some_part_contains(w, parts_of(a), t[k])) by {
        let one = parts_of(Shape::<u64>::Point(ps[k]));
        assert(one == seq![Shape::<u64>::Point(ps[k])]);
        assert(one[0] == t[k]);
        if shape_contains(w, a, Shape::Point(ps[k])) {
            assert(some_part_contains(w, parts_of(a), one[0]));
        }
    }
    if contains_relation(w, a, b) {
        assert forall|k: int| 0 <= k < ps.len() implies contains_relation(
            w,
            a,
            Shape::Point(#[trigger] ps[k]),
        ) by {
            lemma_corner_valid(ps, k);
            assert(some_part_contains(w, parts_of(a), t[k]));
        }
    }
    if forall|k: int|
        0 <= k < ps.len() ==> contains_relation(w, a, Shape::Point(#[trigger] ps[k])) {
        assert(contains_relation(w, a, Shape::Point(ps[0])));
        assert forall|k: int| 0 <= k < t.len() implies some_part_contains(
            w,
            parts_of(a),
            #[trigger] t[k],
        ) by {
            assert(contains_relation(w, a, Shape::Point(ps[k])));
        }
        assert forall|k: int| 0 <= k < ps.len() implies shape_valid(
            Shape::<u64>::Point(#[trigger] ps[k]),
        ) by {
            assert(contains_relation(w, a, Shape::Point(ps[k])));
        }
        lemma_points_valid(ps);
    }
}

proof fn lemma_points_valid(ps: Seq<Coord>)
    requires
        forall|k: int| 0 <= k < ps.len() ==> shape_valid(Shape::<u64>::Point(#[trigger] ps[k])),
    ensures
        points_valid(ps),
{
}

/// A line with a corner inside a polygon and one outside of it crosses it.
pub proof fn law_line_crosses_polygon(
    w: PlaneView,
    s: Seq<Coord>,
    r: Seq<Seq<Coord>>,
    i: int,
    j: int,
)
    requires
        shape_valid(Shape::LineString(s)),
        shape_valid(Shape::Polygon(r)),
        0 <= i < s.len(),
        0 <= j < s.len(),
        polygon_loc(w, s[i], r) == Loc::Inside,
        polygon_loc(w, s[j], r) == Loc::Outside,
    ensures
        crosses_relation(w, Shape::LineString(s), Shape::Polygon(r)),
        crosses_relation(w, Shape::Polygon(r), Shape::LineString(s)),
        !contains_relation(w, Shape::Polygon(r), Shape::LineString(s)),
        !touches_relation(w, Shape::Polygon(r), Shape::LineString(s)),
{
    assert(any_at(w, s, r, Loc::Inside));
    assert(any_at(w, s, r, Loc::Outside));
    lemma_single(w, Shape::Polygon(r), Shape::LineString(s));
}

/// Polygons of which each has a corner outside the other and one has a corner
/// inside the other overlap, unless they are equal.
pub proof fn law_polygons_overlap(
    w: PlaneView,
    r: Seq<Seq<Coord>>,
    q: Seq<Seq<Coord>>,
    i: int,
    j: int,
    k: int,
)
    requires
        shape_valid(Shape::Polygon(r)),
        shape_valid(Shape::Polygon(q)),
        r.len() > 0 && q.len() > 0,
        0 <= i < r[0].len(),
        0 <= j < r[0].len(),
        0 <= k < q[0].len(),
        polygon_loc(w, r[0][i], q) == Loc::Inside,
        polygon_loc(w, r[0][j], q) == Loc::Outside,
        polygon_loc(w, q[0][k], r) == Loc::Outside,
        !equals_relation(w, Shape::Polygon(r), Shape::Polygon(q)),
        !equals_relation(w, Shape::Polygon(q), Shape::Polygon(r)),
    ensures
        overlaps_relation(w, Shape::Polygon(r), Shape::Polygon(q)),
        overlaps_relation(w, Shape::Polygon(q), Shape::Polygon(r)),
        !touches_relation(w, Shape::Polygon(r), Shape::Polygon(q)),
{
    let a = Shape::Polygon(r);
    let b = Shape::Polygon(q);
    lemma_single(w, a, b);
    lemma_single(w, b, a);
    assert(any_at(w, r[0], q, Loc::Inside));
    assert(!part_contains(w, b, a));
    assert(!part_contains(w, a, b));
}

/// A line equals itself and itself in the other direction, and no line with
/// another number of corners. A line that equals another has each corner where
/// the other has one.
pub proof fn law_equal_lines(w: PlaneView, s: Seq<Coord>, t: Seq<Coord>, k: int)
    requires
        sameness_is_reflexive(w),
        shape_valid(Shape::LineString(s)),
        0 <= k < s.len(),
    ensures
        equals_relation(w, Shape::LineString(s), Shape::LineString(s)),
        equals_relation(w, Shape::LineString(s), Shape::LineString(s.reverse())),
        s.len() != t.len() ==> !equals_relation(w, Shape::LineString(s), Shape::LineString(t)),
        equals_relation(w, Shape::LineString(s), Shape::LineString(t)) ==> exists|j: int|
            0 <= j < t.len() && (w.ask)(Question::Same(s[k], #[trigger] t[j])) == 1,
{
    let back = s.reverse();
    assert forall|i: int| 0 <= i < s.len() implies same(w, #[trigger] s[i], s[i]) by {
        assert((w.ask)(Question::Same(s[i], s[i])) == 1);
    }
    assert(same_forward(w, s, s));
    assert forall|i: int| 0 <= i < s.len() implies same(
        w,
        #[trigger] s[i],
        back[back.len() - 1 - i],
    ) by {
        assert(back[back.len() - 1 - i] == s[i]);
    }
    assert(same_backward(w, s, back));
    assert forall|i: int| 0 <= i < back.len() implies is_finite(
        (#[trigger] back[i]).0,
    ) && is_finite(back[i].1) by {
        lemma_corner_valid(s, s.len() - 1 - i);
        assert(back[i] == s[s.len() - 1 - i]);
    }
    lemma_points_valid(back);
    if equals_relation(w, Shape::LineString(s), Shape::LineString(t)) {
        assert(same_path(w, s, t));
        if same_forward(w, s, t) {
            assert(same(w, s[k], t[k]));
        } else {
            assert(same(w, s[k], t[t.len() - 1 - k]));
        }
    }
}

/// Geometries of different kinds are not equal, and those of different
/// dimension do not overlap.
pub proof fn law_unlike_shapes(w: PlaneView, a: Shape<u64>, b: Shape<u64>)
    ensures
        a is Point && !(b is Point) ==> !equals_relation(w, a, b),
        a is LineString && !(b is LineString) ==> !equals_relation(w, a, b),
        a is Polygon && !(b is Polygon) ==> !equals_relation(w, a, b),
        (a is Point || a is MultiPoint) && (b is LineString || b is MultiLineString || b is Polygon
            || b is MultiPolygon) ==> !overlaps_relation(w, a, b) && !overlaps_relation(w, b, a),
        (a is LineString || a is MultiLineString) && (b is Polygon || b is MultiPolygon)
            ==> !overlaps_relation(w, a, b) && !overlaps_relation(w, b, a),
{
}

} // verus!
