//! What the relations of geometries are, case by case.

use vstd::prelude::*;

use crate::spatial::geometry::{shape_valid, Shape};
use crate::spatial::plane::{
    all_at, any_at, any_meets_any, any_middle_at, any_ring_middle_at, lines_meet, lines_overlap,
    meets_any, middle_at, on_line, on_segment, polygon_loc, same, same_path, segment_overlaps_line,
    segments_overlap, Coord, Loc, PlaneView, Question,
};
use crate::spatial::predicate_laws::sameness_is_reflexive;
use crate::spatial::predicates::{
    contains_relation, covers, crosses_relation, equals_relation, inside_path, line_reaches,
    one_segment_holds, part_contains, part_meets_any, parts_meet, parts_of, point_among,
    shape_contains, shapes_meet, shapes_same, some_part_contains, touches_relation,
};

verus! {

/// For single geometries containing is containing of the parts they are.
proof fn lemma_single_contains(w: PlaneView, x: Shape<u64>, y: Shape<u64>)
    requires
        x is Point || x is LineString || x is Polygon,
        y is Point || y is LineString || y is Polygon,
        shape_valid(x),
        shape_valid(y),
    ensures
        contains_relation(w, x, y) == part_contains(w, x, y),
{
    assert(parts_of(x) =~= seq![x]);
    assert(parts_of(y) =~= seq![y]);
    if part_contains(w, x, y) {
        assert(parts_of(x)[0] == x);
        assert(some_part_contains(w, parts_of(x), y));
    }
    if shape_contains(w, x, y) {
        assert(some_part_contains(w, parts_of(x), parts_of(y)[0]));
    }
}

/// A polygon contains a line whose corners are all inside it and that meets none
/// of its rings, and no other line.
pub proof fn law_polygon_contains_line(w: PlaneView, r: Seq<Seq<Coord>>, t: Seq<Coord>)
    requires
        shape_valid(Shape::Polygon(r)),
        shape_valid(Shape::LineString(t)),
    ensures
        contains_relation(w, Shape::Polygon(r), Shape::LineString(t)) <==> (forall|i: int|
            0 <= i < t.len() ==> polygon_loc(w, #[trigger] t[i], r) == Loc::Inside) && (forall|k: int|
            0 <= k < r.len() ==> !parts_meet(
                w,
                Shape::LineString(t),
                Shape::LineString(#[trigger] r[k]),
            )),
{
    lemma_single_contains(w, Shape::Polygon(r), Shape::LineString(t));
    if meets_any(w, t, r) {
        let k = choose|k: int| 0 <= k < r.len() && lines_meet(w, t, #[trigger] r[k]);
        assert(parts_meet(w, Shape::LineString(t), Shape::LineString(r[k])));
    }
    if exists|k: int|
        0 <= k < r.len() && parts_meet(w, Shape::LineString(t), Shape::LineString(#[trigger] r[k])) {
        let k = choose|k: int|
            0 <= k < r.len() && parts_meet(
                w,
                Shape::LineString(t),
                Shape::LineString(#[trigger] r[k]),
            );
        assert(lines_meet(w, t, r[k]));
    }
}

/// A polygon contains another whose outer corners are all inside it and none of
/// whose rings meets one of its own, and no other.
pub proof fn law_polygon_contains_polygon(w: PlaneView, r: Seq<Seq<Coord>>, q: Seq<Seq<Coord>>)
    requires
        shape_valid(Shape::Polygon(r)),
        shape_valid(Shape::Polygon(q)),
    ensures
        contains_relation(w, Shape::Polygon(r), Shape::Polygon(q)) <==> (forall|i: int|
            0 <= i < q[0].len() ==> polygon_loc(w, #[trigger] q[0][i], r) == Loc::Inside) && (
        forall|k: int, j: int|
            0 <= k < r.len() && 0 <= j < q.len() ==> !parts_meet(
                w,
                Shape::LineString(#[trigger] r[k]),
                Shape::LineString(#[trigger] q[j]),
            )),
{
    lemma_single_contains(w, Shape::Polygon(r), Shape::Polygon(q));
    if any_meets_any(w, r, q) {
        let k = choose|k: int| 0 <= k < r.len() && meets_any(w, #[trigger] r[k], q);
        let j = choose|j: int| 0 <= j < q.len() && lines_meet(w, r[k], #[trigger] q[j]);
        assert(parts_meet(w, Shape::LineString(r[k]), Shape::LineString(q[j])));
    }
    if exists|k: int, j: int|
        0 <= k < r.len() && 0 <= j < q.len() && parts_meet(
            w,
            Shape::LineString(#[trigger] r[k]),
            Shape::LineString(#[trigger] q[j]),
        ) {
        let (k, j) = choose|k: int, j: int|
            0 <= k < r.len() && 0 <= j < q.len() && parts_meet(
                w,
                Shape::LineString(#[trigger] r[k]),
                Shape::LineString(#[trigger] q[j]),
            );
        assert(lines_meet(w, r[k], q[j]));
        assert(meets_any(w, r[k], q));
    }
    assert(all_at(w, q[0], r, Loc::Inside) <==> forall|i: int|
        0 <= i < q[0].len() ==> polygon_loc(w, #[trigger] q[0][i], r) == Loc::Inside);
}

/// A line contains the points on it but for its ends, and where it ends as it
/// begins all of them. A point contains what is taken for it.
pub proof fn law_line_contains_point(w: PlaneView, s: Seq<Coord>, q: Coord, p: Coord)
    requires
        shape_valid(Shape::LineString(s)),
        shape_valid(Shape::Point(q)),
        shape_valid(Shape::Point(p)),
        s.len() > 1,
    ensures
        contains_relation(w, Shape::LineString(s), Shape::Point(q)) <==> parts_meet(
            w,
            Shape::Point(q),
            Shape::LineString(s),
        ) && ((w.ask)(Question::Same(s[0], s[s.len() - 1])) == 1 || ((w.ask)(
            Question::Same(s[0], q),
        ) != 1 && (w.ask)(Question::Same(s[s.len() - 1], q)) != 1)),
        contains_relation(w, Shape::Point(p), Shape::Point(q)) <==> (w.ask)(Question::Same(p, q))
            == 1,
{
    lemma_single_contains(w, Shape::LineString(s), Shape::Point(q));
    lemma_single_contains(w, Shape::Point(p), Shape::Point(q));
}

/// A line that contains another holds each of its corners, and holds none of the
/// other's corners at its own ends.
pub proof fn law_line_contains_line(w: PlaneView, s: Seq<Coord>, t: Seq<Coord>, i: int)
    requires
        contains_relation(w, Shape::LineString(s), Shape::LineString(t)),
        0 <= i < t.len(),
    ensures
        contains_relation(w, Shape::LineString(s), Shape::Point(t[i])) || !shape_valid(
            Shape::Point(t[i]),
        ),
        on_line(w, t[i], s),
{
    lemma_single_contains(w, Shape::LineString(s), Shape::LineString(t));
    assert(inside_path(w, t[i], s));
    if shape_valid(Shape::Point(t[i])) {
        lemma_single_contains(w, Shape::LineString(s), Shape::Point(t[i]));
    }
}

/// No point and no line contains a polygon.
pub proof fn law_no_area(w: PlaneView, x: Shape<u64>, r: Seq<Seq<Coord>>)
    requires
        x is Point || x is LineString,
    ensures
        !contains_relation(w, x, Shape::Polygon(r)),
{
    if contains_relation(w, x, Shape::Polygon(r)) {
        lemma_single_contains(w, x, Shape::Polygon(r));
    }
}

/// A line touches a polygon that it meets with no corner and no middle of a
/// segment inside.
pub proof fn law_line_touches_polygon(w: PlaneView, s: Seq<Coord>, r: Seq<Seq<Coord>>)
    ensures
        touches_relation(w, Shape::LineString(s), Shape::Polygon(r)) <==> shapes_meet(
            w,
            Shape::LineString(s),
            Shape::Polygon(r),
        ) && (forall|i: int| 0 <= i < s.len() ==> polygon_loc(w, #[trigger] s[i], r) != Loc::Inside)
            && (forall|i: int|
            0 <= i < s.len() - 1 ==> !#[trigger] has_middle_at(w, s, i, r, Loc::Inside)),
{
    let reached = line_reaches(w, s, r, Loc::Inside);
    if any_at(w, s, r, Loc::Inside) {
        let i = choose|i: int| 0 <= i < s.len() && polygon_loc(w, #[trigger] s[i], r) == Loc::Inside;
        assert(polygon_loc(w, s[i], r) == Loc::Inside);
    }
    lemma_middles(w, s, r, Loc::Inside);
}

/// Whether the point half-way along a segment of a line lies there.
pub open spec fn has_middle_at(
    w: PlaneView,
    s: Seq<Coord>,
    i: int,
    r: Seq<Seq<Coord>>,
    at: Loc,
) -> bool {
    polygon_loc(w, (w.middle)(s[i], s[i + 1]), r) == at
}

proof fn lemma_middles(w: PlaneView, s: Seq<Coord>, r: Seq<Seq<Coord>>, at: Loc)
    ensures
        any_middle_at(w, s, r, at) <==> exists|i: int|
            0 <= i < s.len() - 1 && #[trigger] has_middle_at(w, s, i, r, at),
{
    reveal(middle_at);
    if any_middle_at(w, s, r, at) {
        let i = choose|i: int| 0 <= i < s.len() - 1 && middle_at(w, #[trigger] s[i], s[i + 1], r, at);
        assert(has_middle_at(w, s, i, r, at));
    }
    if exists|i: int| 0 <= i < s.len() - 1 && #[trigger] has_middle_at(w, s, i, r, at) {
        let i = choose|i: int| 0 <= i < s.len() - 1 && #[trigger] has_middle_at(w, s, i, r, at);
        assert(middle_at(w, s[i], s[i + 1], r, at));
    }
}

/// A line crosses a polygon where something of it, a corner or the middle of a
/// segment, is inside and something outside.
pub proof fn law_line_crosses_polygon_by_parts(w: PlaneView, s: Seq<Coord>, r: Seq<Seq<Coord>>)
    requires
        shape_valid(Shape::LineString(s)),
        shape_valid(Shape::Polygon(r)),
    ensures
        crosses_relation(w, Shape::LineString(s), Shape::Polygon(r)) <==> is_partly(
            w,
            s,
            r,
            Loc::Inside,
        ) && is_partly(w, s, r, Loc::Outside),
        crosses_relation(w, Shape::Polygon(r), Shape::LineString(s)) == crosses_relation(
            w,
            Shape::LineString(s),
            Shape::Polygon(r),
        ),
{
    lemma_middles(w, s, r, Loc::Inside);
    lemma_middles(w, s, r, Loc::Outside);
}

/// Whether a corner of a line or the middle of a segment lies there.
pub open spec fn is_partly(w: PlaneView, s: Seq<Coord>, r: Seq<Seq<Coord>>, at: Loc) -> bool {
    (exists|i: int| 0 <= i < s.len() && polygon_loc(w, #[trigger] s[i], r) == at) || (exists|i: int|
        0 <= i < s.len() - 1 && #[trigger] has_middle_at(w, s, i, r, at))
}

/// Two segments cross where the ends of each lie on different sides of the
/// other, and not where they lie on one straight line.
pub proof fn law_segments_cross(w: PlaneView, a: Coord, b: Coord, c: Coord, d: Coord)
    requires
        shape_valid(Shape::LineString(seq![a, b])),
        shape_valid(Shape::LineString(seq![c, d])),
        shapes_meet(w, Shape::LineString(seq![a, b]), Shape::LineString(seq![c, d])),
        !equals_relation(w, Shape::LineString(seq![a, b]), Shape::LineString(seq![c, d])),
    ensures
        (w.ask)(Question::Turn(a, b, c)) != 0 || (w.ask)(Question::Turn(a, b, d)) != 0
            ==> crosses_relation(w, Shape::LineString(seq![a, b]), Shape::LineString(seq![c, d])),
        (w.ask)(Question::Turn(a, b, c)) == 0 && (w.ask)(Question::Turn(a, b, d)) == 0 && (w.ask)(
            Question::Along(a, b, c),
        ) == 1 ==> !crosses_relation(
            w,
            Shape::LineString(seq![a, b]),
            Shape::LineString(seq![c, d]),
        ),
{
    let s = seq![a, b];
    let t = seq![c, d];
    let x = Shape::LineString(s);
    let y = Shape::LineString(t);
    reveal(segments_overlap);
    assert(parts_of(x) =~= seq![x]);
    assert(parts_of(y) =~= seq![y]);
    let k = choose|k: int| 0 <= k < parts_of(x).len() && part_meets_any(
        w,
        #[trigger] parts_of(x)[k],
        parts_of(y),
    );
    assert(parts_of(x)[k] == x);
    assert(parts_meet(w, x, y));
    if lines_overlap(w, s, t) {
        let k = choose|k: int|
            0 <= k < s.len() - 1 && segment_overlaps_line(w, #[trigger] s[k], s[k + 1], t);
        let j = choose|j: int|
            0 <= j < t.len() - 1 && segments_overlap(w, s[k], s[k + 1], #[trigger] t[j], t[j + 1]);
        assert(k == 0 && j == 0);
        assert(s[0int + 1] == b && t[0int + 1] == d);
        assert(segments_overlap(w, a, b, c, d));
    }
    if segments_overlap(w, a, b, c, d) {
        assert(s[0] == a && s[0int + 1] == b && t[0] == c && t[0int + 1] == d);
        assert(segments_overlap(w, a, b, t[0], t[0int + 1]));
        assert(segment_overlaps_line(w, a, b, t));
        assert(segment_overlaps_line(w, s[0], s[0int + 1], t));
        assert(lines_overlap(w, s, t));
    }
}

/// A point crosses a line where it lies on it and is none of its corners.
pub proof fn law_point_crosses_line(w: PlaneView, p: Coord, s: Seq<Coord>)
    requires
        shape_valid(Shape::Point(p)),
        shape_valid(Shape::LineString(s)),
        shapes_meet(w, Shape::Point(p), Shape::LineString(s)),
    ensures
        crosses_relation(w, Shape::Point(p), Shape::LineString(s)) <==> forall|k: int|
            0 <= k < s.len() ==> (w.ask)(Question::Same(#[trigger] s[k], p)) != 1,
{
    let x = Shape::Point(p);
    let y = Shape::LineString(s);
    assert(parts_of(x) =~= seq![x]);
    assert(parts_of(y) =~= seq![y]);
    let k = choose|k: int| 0 <= k < parts_of(x).len() && part_meets_any(
        w,
        #[trigger] parts_of(x)[k],
        parts_of(y),
    );
    assert(parts_of(x)[k] == x);
    assert(parts_meet(w, x, y));
    assert forall|k: int| 0 <= k < s.len() implies same(w, #[trigger] s[k], p) == ((w.ask)(
        Question::Same(s[k], p),
    ) == 1) by {}
}

/// Equality of polygons looks at their rings: equally many, the outer ones the
/// same, and each hole of the first one of the second's.
pub proof fn law_equal_polygons(w: PlaneView, r: Seq<Seq<Coord>>, q: Seq<Seq<Coord>>)
    requires
        shape_valid(Shape::Polygon(r)),
        shape_valid(Shape::Polygon(q)),
        r.len() > 0,
    ensures
        equals_relation(w, Shape::Polygon(r), Shape::Polygon(q)) ==> r.len() == q.len()
            && shapes_same(w, Shape::LineString(r[0]), Shape::LineString(q[0])),
        r.len() == 1 && q.len() == 1 && shapes_same(
            w,
            Shape::LineString(r[0]),
            Shape::LineString(q[0]),
        ) ==> equals_relation(w, Shape::Polygon(r), Shape::Polygon(q)),
        equals_relation(w, Shape::Polygon(r), Shape::Polygon(q)) ==> forall|k: int|
            1 <= k < r.len() ==> is_hole(w, #[trigger] r[k], q),
{
    if equals_relation(w, Shape::Polygon(r), Shape::Polygon(q)) {
        assert forall|k: int| 1 <= k < r.len() implies is_hole(w, #[trigger] r[k], q) by {
            let j = choose|j: int| 1 <= j < q.len() && same_path(w, r[k], #[trigger] q[j]);
            assert(shapes_same(w, Shape::LineString(r[k]), Shape::LineString(q[j])));
        }
    }
}

/// Whether a ring is one of the holes of a polygon.
pub open spec fn is_hole(w: PlaneView, h: Seq<Coord>, q: Seq<Seq<Coord>>) -> bool {
    exists|j: int|
        1 <= j < q.len() && shapes_same(w, Shape::LineString(h), Shape::LineString(#[trigger] q[j]))
}

/// Several points equal others in any order, and not fewer or more of them.
pub proof fn law_equal_points(w: PlaneView, s: Seq<Coord>, t: Seq<Coord>)
    requires
        shape_valid(Shape::MultiPoint(s)),
        shape_valid(Shape::MultiPoint(t)),
        sameness_is_reflexive(w),
    ensures
        s.len() == t.len() && (forall|k: int| 0 <= k < s.len() ==> t.contains(#[trigger] s[k]))
            ==> equals_relation(w, Shape::MultiPoint(s), Shape::MultiPoint(t)),
        s.len() != t.len() ==> !equals_relation(w, Shape::MultiPoint(s), Shape::MultiPoint(t)),
        equals_relation(w, Shape::MultiPoint(s), Shape::MultiPoint(t)) ==> forall|k: int|
            0 <= k < s.len() ==> exists|j: int|
                0 <= j < t.len() && (w.ask)(Question::Same(#[trigger] s[k], #[trigger] t[j])) == 1,
{
    if s.len() == t.len() && (forall|k: int| 0 <= k < s.len() ==> t.contains(#[trigger] s[k])) {
        assert forall|k: int| 0 <= k < s.len() implies point_among(w, #[trigger] s[k], t) by {
            assert(t.contains(s[k]));
            let j = t.index_of(s[k]);
            assert(same(w, s[k], s[k]));
            assert(same(w, s[k], t[j]));
        }
    }
    if equals_relation(w, Shape::MultiPoint(s), Shape::MultiPoint(t)) {
        assert forall|k: int| 0 <= k < s.len() implies exists|j: int|
            0 <= j < t.len() && (w.ask)(Question::Same(#[trigger] s[k], #[trigger] t[j])) == 1 by {
            assert(point_among(w, s[k], t));
            let j = choose|j: int| 0 <= j < t.len() && same(w, s[k], #[trigger] t[j]);
            assert((w.ask)(Question::Same(s[k], t[j])) == 1);
        }
    }
}

/// Whether a corner of one of the rings or the middle of one of their segments
/// is inside a polygon; of the corners those of the first ring count.
pub open spec fn reaches_into(w: PlaneView, r: Seq<Seq<Coord>>, q: Seq<Seq<Coord>>) -> bool {
    (exists|i: int| 0 <= i < r[0].len() && polygon_loc(w, #[trigger] r[0][i], q) == Loc::Inside) || (
    exists|k: int, i: int|
        0 <= k < r.len() && 0 <= i < r[k].len() - 1 && #[trigger] has_middle_at(
            w,
            r[k],
            i,
            q,
            Loc::Inside,
        ))
}

proof fn lemma_reaches(w: PlaneView, r: Seq<Seq<Coord>>, q: Seq<Seq<Coord>>)
    ensures
        reaches_into(w, r, q) <==> any_at(w, r[0], q, Loc::Inside) || any_ring_middle_at(
            w,
            r,
            q,
            Loc::Inside,
        ),
{
    if any_at(w, r[0], q, Loc::Inside) {
        let i = choose|i: int|
            0 <= i < r[0].len() && polygon_loc(w, #[trigger] r[0][i], q) == Loc::Inside;
        assert(polygon_loc(w, r[0][i], q) == Loc::Inside);
    }
    if any_ring_middle_at(w, r, q, Loc::Inside) {
        let k = choose|k: int|
            0 <= k < r.len() && any_middle_at(w, #[trigger] r[k], q, Loc::Inside);
        lemma_middles(w, r[k], q, Loc::Inside);
        let i = choose|i: int|
            0 <= i < r[k].len() - 1 && #[trigger] has_middle_at(w, r[k], i, q, Loc::Inside);
        assert(has_middle_at(w, r[k], i, q, Loc::Inside));
    }
    if exists|k: int, i: int|
        0 <= k < r.len() && 0 <= i < r[k].len() - 1 && #[trigger] has_middle_at(
            w,
            r[k],
            i,
            q,
            Loc::Inside,
        ) {
        let (k, i) = choose|k: int, i: int|
            0 <= k < r.len() && 0 <= i < r[k].len() - 1 && #[trigger] has_middle_at(
                w,
                r[k],
                i,
                q,
                Loc::Inside,
            );
        lemma_middles(w, r[k], q, Loc::Inside);
        assert(any_middle_at(w, r[k], q, Loc::Inside));
    }
}

/// Two polygons touch where they meet and neither reaches into the other.
pub proof fn law_polygons_touch(w: PlaneView, r: Seq<Seq<Coord>>, q: Seq<Seq<Coord>>)
    ensures
        touches_relation(w, Shape::Polygon(r), Shape::Polygon(q)) <==> shapes_meet(
            w,
            Shape::Polygon(r),
            Shape::Polygon(q),
        ) && !reaches_into(w, r, q) && !reaches_into(w, q, r),
{
    lemma_reaches(w, r, q);
    lemma_reaches(w, q, r);
}

/// A line contains a piece of one of its segments that leaves out its ends.
pub proof fn law_line_contains_piece(w: PlaneView, s: Seq<Coord>, p: Coord, q: Coord, k: int)
    requires
        shape_valid(Shape::LineString(s)),
        shape_valid(Shape::LineString(seq![p, q])),
        shape_valid(Shape::Point(p)),
        shape_valid(Shape::Point(q)),
        0 <= k < s.len() - 1,
        on_segment(w, p, s[k], s[k + 1]),
        on_segment(w, q, s[k], s[k + 1]),
        contains_relation(w, Shape::LineString(s), Shape::Point(p)),
        contains_relation(w, Shape::LineString(s), Shape::Point(q)),
        !on_segment(w, s[0], p, q),
        !on_segment(w, s[s.len() - 1], p, q),
    ensures
        contains_relation(w, Shape::LineString(s), Shape::LineString(seq![p, q])),
{
    let t = seq![p, q];
    lemma_single_contains(w, Shape::LineString(s), Shape::Point(p));
    lemma_single_contains(w, Shape::LineString(s), Shape::Point(q));
    lemma_single_contains(w, Shape::LineString(s), Shape::LineString(t));
    assert(one_segment_holds(w, s, p, q));
    assert forall|j: int| 0 <= j < t.len() implies inside_path(w, #[trigger] t[j], s) by {
        assert(t[j] == p || t[j] == q);
    }
    assert forall|j: int| 0 <= j < t.len() - 1 implies covers(
        w,
        s,
        #[trigger] t[j],
        t[j + 1],
        s.len() as int,
    ) by {
        assert(t[j] == p && t[j + 1] == q);
    }
    if on_line(w, s[0], t) {
        let j = choose|j: int| 0 <= j < t.len() - 1 && on_segment(w, s[0], #[trigger] t[j], t[j + 1]);
        assert(t[j] == p && t[j + 1] == q);
    }
    if on_line(w, s[s.len() - 1], t) {
        let j = choose|j: int|
            0 <= j < t.len() - 1 && on_segment(w, s[s.len() - 1], #[trigger] t[j], t[j + 1]);
        assert(t[j] == p && t[j + 1] == q);
    }
}

} // verus!
