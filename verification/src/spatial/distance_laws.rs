//! What the distance of geometries is: the least of the lengths between them.

use vstd::prelude::*;

use crate::floats::{at_most, equal, is_nan, less, smaller};
use crate::spatial::distance::{
    lesser, line_to_line, line_to_polygon, line_to_rings, part_distance, part_to_parts,
    parts_to_parts, point_to_line, point_to_polygon, point_to_rings, points_to_line,
    points_to_polygon, polygon_to_polygon, rings_to_polygon, shape_distance, to_segments, Lengths,
    Measure, INFINITY,
};
use crate::spatial::geometry::{shape_valid, Shape};
use crate::spatial::plane::{polygon_loc, Coord, Loc, PlaneView};
use crate::spatial::predicates::{parts_of, shapes_meet};

verus! {

/// Every length is a number, at least zero.
pub open spec fn lengths_are_numbers(d: Lengths) -> bool {
    forall|m: Measure| #[trigger] at_most(0, d(m))
}

/// A length from a point to a line: to its only point, or to one of its
/// segments.
pub open spec fn to_line(p: Coord, s: Seq<Coord>, m: Measure) -> bool {
    if s.len() == 1 {
        m == Measure::Points(p, s[0])
    } else {
        exists|k: int| 0 <= k < s.len() - 1 && #[trigger] is_to_segment(p, s, k, m)
    }
}

/// The length from a point to a segment of a line.
pub open spec fn is_to_segment(p: Coord, s: Seq<Coord>, k: int, m: Measure) -> bool {
    m == Measure::Segment(p, s[k], s[k + 1])
}

/// A length from a corner of a line to another line.
pub open spec fn from_corner(s: Seq<Coord>, t: Seq<Coord>, m: Measure) -> bool {
    exists|i: int| 0 <= i < s.len() && to_line(#[trigger] s[i], t, m)
}

/// A length from a corner of one line to the other.
pub open spec fn between_lines(s: Seq<Coord>, t: Seq<Coord>, m: Measure) -> bool {
    s.len() > 0 && t.len() > 0 && (from_corner(s, t, m) || from_corner(t, s, m))
}

/// A length from a point to a ring of a polygon.
pub open spec fn to_ring(p: Coord, r: Seq<Seq<Coord>>, m: Measure) -> bool {
    exists|k: int| 0 <= k < r.len() && to_line(p, #[trigger] r[k], m)
}

/// A length from a corner of a line to a ring of a polygon.
pub open spec fn from_corner_to_ring(s: Seq<Coord>, r: Seq<Seq<Coord>>, m: Measure) -> bool {
    exists|i: int| 0 <= i < s.len() && to_ring(#[trigger] s[i], r, m)
}

/// A length between a line and a ring of a polygon.
pub open spec fn line_and_ring(s: Seq<Coord>, r: Seq<Seq<Coord>>, m: Measure) -> bool {
    exists|k: int| 0 <= k < r.len() && between_lines(s, #[trigger] r[k], m)
}

/// A length from a corner of a polygon to a ring of another.
pub open spec fn ring_to_ring(r: Seq<Seq<Coord>>, q: Seq<Seq<Coord>>, m: Measure) -> bool {
    exists|k: int| 0 <= k < r.len() && from_corner_to_ring(#[trigger] r[k], q, m)
}

/// Whether a length is one between two points, lines or polygons.
pub open spec fn is_between(x: Shape<u64>, y: Shape<u64>, m: Measure) -> bool {
    match (x, y) {
        (Shape::Point(p), Shape::Point(q)) => m == Measure::Points(p, q),
        (Shape::Point(p), Shape::LineString(s)) => to_line(p, s, m),
        (Shape::LineString(s), Shape::Point(p)) => to_line(p, s, m),
        (Shape::Point(p), Shape::Polygon(r)) => to_ring(p, r, m),
        (Shape::Polygon(r), Shape::Point(p)) => to_ring(p, r, m),
        (Shape::LineString(s), Shape::LineString(t)) => between_lines(s, t, m),
        (Shape::LineString(s), Shape::Polygon(r)) => from_corner_to_ring(s, r, m) || line_and_ring(
            s,
            r,
            m,
        ),
        (Shape::Polygon(r), Shape::LineString(s)) => from_corner_to_ring(s, r, m) || line_and_ring(
            s,
            r,
            m,
        ),
        (Shape::Polygon(r), Shape::Polygon(q)) => ring_to_ring(r, q, m) || ring_to_ring(q, r, m),
        _ => false,
    }
}

/// Whether all corners of a line are outside a polygon.
pub open spec fn corners_outside(w: PlaneView, s: Seq<Coord>, r: Seq<Seq<Coord>>) -> bool {
    forall|i: int| 0 <= i < s.len() ==> polygon_loc(w, #[trigger] s[i], r) == Loc::Outside
}

/// Whether all corners of a polygon are outside another.
pub open spec fn rings_outside(w: PlaneView, r: Seq<Seq<Coord>>, q: Seq<Seq<Coord>>) -> bool {
    forall|k: int| 0 <= k < r.len() ==> corners_outside(w, #[trigger] r[k], q)
}

/// Whether no corner of either of two points, lines or polygons is inside or on
/// the other, where that is a polygon.
pub open spec fn outside_each_other(w: PlaneView, x: Shape<u64>, y: Shape<u64>) -> bool {
    match (x, y) {
        (Shape::Point(p), Shape::Polygon(r)) => polygon_loc(w, p, r) == Loc::Outside,
        (Shape::Polygon(r), Shape::Point(p)) => polygon_loc(w, p, r) == Loc::Outside,
        (Shape::LineString(s), Shape::Polygon(r)) => corners_outside(w, s, r),
        (Shape::Polygon(r), Shape::LineString(s)) => corners_outside(w, s, r),
        (Shape::Polygon(r), Shape::Polygon(q)) => rings_outside(w, r, q) && rings_outside(w, q, r),
        _ => true,
    }
}

/// Whether a number is the least of some lengths: at most each of them, and one
/// of them, or infinite where there is none.
pub open spec fn is_least(d: Lengths, v: u64, of: spec_fn(Measure) -> bool) -> bool {
    &&& !is_nan(v)
    &&& forall|m: Measure| #[trigger] of(m) ==> at_most(v, d(m))
    &&& v == INFINITY || exists|m: Measure| #[trigger] of(m) && v == d(m)
    &&& at_most(0, v) && at_most(v, INFINITY)
}

proof fn lemma_none(d: Lengths, of: spec_fn(Measure) -> bool)
    requires
        forall|m: Measure| !#[trigger] of(m),
    ensures
        is_least(d, INFINITY, of),
{
    lemma_infinity();
}

proof fn lemma_infinity()
    ensures
        !is_nan(INFINITY),
        at_most(0, INFINITY),
        forall|x: u64| !is_nan(x) ==> #[trigger] at_most(x, INFINITY),
{
}

/// The smaller of two least numbers is the least of both kinds.
proof fn lemma_both(
    d: Lengths,
    v: u64,
    u: u64,
    a: spec_fn(Measure) -> bool,
    b: spec_fn(Measure) -> bool,
    c: spec_fn(Measure) -> bool,
)
    requires
        is_least(d, v, a),
        is_least(d, u, b),
        forall|m: Measure| #[trigger] c(m) == (a(m) || b(m)),
        lengths_are_numbers(d),
    ensures
        is_least(d, smaller(v, u), c),
{
    let r = smaller(v, u);
    assert forall|m: Measure| #[trigger] c(m) implies at_most(r, d(m)) by {
        if a(m) {
            assert(at_most(v, d(m)));
        } else {
            assert(b(m));
            assert(at_most(u, d(m)));
        }
    }
    if r != INFINITY {
        if r == v {
            let m = choose|m: Measure| #[trigger] a(m) && v == d(m);
            assert(c(m));
        } else {
            let m = choose|m: Measure| #[trigger] b(m) && u == d(m);
            assert(c(m));
        }
    }
}

/// Least numbers of the same lengths are equal.
proof fn lemma_least_is_one(
    d: Lengths,
    v: u64,
    u: u64,
    a: spec_fn(Measure) -> bool,
    b: spec_fn(Measure) -> bool,
)
    requires
        is_least(d, v, a),
        is_least(d, u, b),
        forall|m: Measure| #[trigger] a(m) == b(m),
    ensures
        equal(v, u),
{
    if v != INFINITY {
        let m = choose|m: Measure| #[trigger] a(m) && v == d(m);
        assert(b(m));
        assert(at_most(u, d(m)));
    }
    if u != INFINITY {
        let m = choose|m: Measure| #[trigger] b(m) && u == d(m);
        assert(a(m));
        assert(at_most(v, d(m)));
    }
}

proof fn lemma_single_length(d: Lengths, x: Measure, of: spec_fn(Measure) -> bool)
    requires
        lengths_are_numbers(d),
        forall|m: Measure| #[trigger] of(m) == (m == x),
    ensures
        is_least(d, d(x), of),
{
    assert(at_most(0, d(x)));
    lemma_infinity();
    assert(of(x));
}

proof fn lemma_to_segments(d: Lengths, p: Coord, s: Seq<Coord>, n: int)
    requires
        lengths_are_numbers(d),
        0 <= n < s.len() || n == 0,
    ensures
        is_least(
            d,
            to_segments(d, p, s, n),
            |m: Measure| exists|k: int| 0 <= k < n && #[trigger] is_to_segment(p, s, k, m),
        ),
    decreases n,
{
    let now = |m: Measure| exists|k: int| 0 <= k < n && #[trigger] is_to_segment(p, s, k, m);
    if n == 0 {
        lemma_none(d, now);
    } else {
        lemma_to_segments(d, p, s, n - 1);
        let before = |m: Measure|
            exists|k: int| 0 <= k < n - 1 && #[trigger] is_to_segment(p, s, k, m);
        let x = Measure::Segment(p, s[n - 1], s[n]);
        let here = |m: Measure| m == x;
        lemma_single_length(d, x, here);
        assert forall|m: Measure| #[trigger] now(m) == (before(m) || here(m)) by {
            if here(m) {
                assert(is_to_segment(p, s, n - 1, m));
            }
        }
        lemma_both(d, to_segments(d, p, s, n - 1), d(x), before, here, now);
    }
}

proof fn lemma_point_to_line(d: Lengths, p: Coord, s: Seq<Coord>)
    requires
        lengths_are_numbers(d),
    ensures
        is_least(d, point_to_line(d, p, s), |m: Measure| to_line(p, s, m)),
{
    let of = |m: Measure| to_line(p, s, m);
    if s.len() == 0 {
        lemma_none(d, of);
    } else if s.len() == 1 {
        lemma_single_length(d, Measure::Points(p, s[0]), of);
    } else {
        lemma_to_segments(d, p, s, s.len() - 1);
        let other = |m: Measure|
            exists|k: int| 0 <= k < s.len() - 1 && #[trigger] is_to_segment(p, s, k, m);
        lemma_same_lengths(d, point_to_line(d, p, s), other, of);
    }
}

proof fn lemma_same_lengths(
    d: Lengths,
    v: u64,
    a: spec_fn(Measure) -> bool,
    b: spec_fn(Measure) -> bool,
)
    requires
        is_least(d, v, a),
        forall|m: Measure| #[trigger] a(m) == #[trigger] b(m),
    ensures
        is_least(d, v, b),
{
    assert forall|m: Measure| #[trigger] b(m) implies at_most(v, d(m)) by {
        assert(a(m));
    }
    if v != INFINITY {
        let m = choose|m: Measure| #[trigger] a(m) && v == d(m);
        assert(b(m));
    }
}

proof fn lemma_points_to_line(
    d: Lengths,
    s: Seq<Coord>,
    t: Seq<Coord>,
    n: int,
    from: u64,
    first: spec_fn(Measure) -> bool,
)
    requires
        lengths_are_numbers(d),
        0 <= n <= s.len(),
        is_least(d, from, first),
    ensures
        is_least(
            d,
            points_to_line(d, s, t, n, from),
            |m: Measure| first(m) || exists|i: int| 0 <= i < n && to_line(#[trigger] s[i], t, m),
        ),
    decreases n,
{
    let now = |m: Measure|
        first(m) || exists|i: int| 0 <= i < n && to_line(#[trigger] s[i], t, m);
    if n == 0 {
        assert forall|m: Measure| #[trigger] first(m) == #[trigger] now(m) by {}
        lemma_same_lengths(d, from, first, now);
    } else {
        lemma_points_to_line(d, s, t, n - 1, from, first);
        let before = |m: Measure|
            first(m) || exists|i: int| 0 <= i < n - 1 && to_line(#[trigger] s[i], t, m);
        let here = |m: Measure| to_line(s[n - 1], t, m);
        lemma_point_to_line(d, s[n - 1], t);
        assert forall|m: Measure| #[trigger] now(m) == (before(m) || here(m)) by {
            if before(m) && !first(m) {
                let i = choose|i: int| 0 <= i < n - 1 && to_line(#[trigger] s[i], t, m);
                assert(to_line(s[i], t, m));
            }
        }
        lemma_both(
            d,
            points_to_line(d, s, t, n - 1, from),
            point_to_line(d, s[n - 1], t),
            before,
            here,
            now,
        );
    }
}

proof fn lemma_line_to_line(d: Lengths, s: Seq<Coord>, t: Seq<Coord>)
    requires
        lengths_are_numbers(d),
    ensures
        is_least(d, line_to_line(d, s, t), |m: Measure| between_lines(s, t, m)),
{
    let of = |m: Measure| between_lines(s, t, m);
    if s.len() == 0 || t.len() == 0 {
        lemma_none(d, of);
    } else {
        let none = |m: Measure| false;
        lemma_none(d, none);
        lemma_points_to_line(d, s, t, s.len() as int, INFINITY, none);
        let first = |m: Measure|
            none(m) || exists|i: int| 0 <= i < s.len() && to_line(#[trigger] s[i], t, m);
        let v = points_to_line(d, s, t, s.len() as int, INFINITY);
        lemma_points_to_line(d, t, s, t.len() as int, v, first);
        let both = |m: Measure|
            first(m) || exists|i: int| 0 <= i < t.len() && to_line(#[trigger] t[i], s, m);
        assert forall|m: Measure| #[trigger] both(m) == #[trigger] of(m) by {}
        lemma_same_lengths(d, line_to_line(d, s, t), both, of);
    }
}

proof fn lemma_point_to_rings(d: Lengths, p: Coord, r: Seq<Seq<Coord>>, n: int)
    requires
        lengths_are_numbers(d),
        0 <= n <= r.len(),
    ensures
        is_least(
            d,
            point_to_rings(d, p, r, n),
            |m: Measure| exists|k: int| 0 <= k < n && to_line(p, #[trigger] r[k], m),
        ),
    decreases n,
{
    let now = |m: Measure| exists|k: int| 0 <= k < n && to_line(p, #[trigger] r[k], m);
    if n == 0 {
        lemma_none(d, now);
    } else {
        lemma_point_to_rings(d, p, r, n - 1);
        lemma_point_to_line(d, p, r[n - 1]);
        let before = |m: Measure| exists|k: int| 0 <= k < n - 1 && to_line(p, #[trigger] r[k], m);
        let here = |m: Measure| to_line(p, r[n - 1], m);
        assert forall|m: Measure| #[trigger] now(m) == (before(m) || here(m)) by {
            if before(m) {
                let k = choose|k: int| 0 <= k < n - 1 && to_line(p, #[trigger] r[k], m);
                assert(to_line(p, r[k], m));
            }
        }
        lemma_both(
            d,
            point_to_rings(d, p, r, n - 1),
            point_to_line(d, p, r[n - 1]),
            before,
            here,
            now,
        );
    }
}

proof fn lemma_point_to_polygon(w: PlaneView, d: Lengths, p: Coord, r: Seq<Seq<Coord>>)
    requires
        lengths_are_numbers(d),
        polygon_loc(w, p, r) == Loc::Outside,
    ensures
        is_least(d, point_to_polygon(w, d, p, r), |m: Measure| to_ring(p, r, m)),
{
    lemma_point_to_rings(d, p, r, r.len() as int);
    let a = |m: Measure| exists|k: int| 0 <= k < r.len() && to_line(p, #[trigger] r[k], m);
    let b = |m: Measure| to_ring(p, r, m);
    assert forall|m: Measure| #[trigger] a(m) == #[trigger] b(m) by {}
    lemma_same_lengths(d, point_to_polygon(w, d, p, r), a, b);
}

proof fn lemma_points_to_polygon(
    w: PlaneView,
    d: Lengths,
    s: Seq<Coord>,
    r: Seq<Seq<Coord>>,
    n: int,
    from: u64,
    first: spec_fn(Measure) -> bool,
)
    requires
        lengths_are_numbers(d),
        0 <= n <= s.len(),
        corners_outside(w, s, r),
        is_least(d, from, first),
    ensures
        is_least(
            d,
            points_to_polygon(w, d, s, r, n, from),
            |m: Measure| first(m) || exists|i: int| 0 <= i < n && to_ring(#[trigger] s[i], r, m),
        ),
    decreases n,
{
    let now = |m: Measure|
        first(m) || exists|i: int| 0 <= i < n && to_ring(#[trigger] s[i], r, m);
    if n == 0 {
        assert forall|m: Measure| #[trigger] first(m) == #[trigger] now(m) by {}
        lemma_same_lengths(d, from, first, now);
    } else {
        lemma_points_to_polygon(w, d, s, r, n - 1, from, first);
        let before = |m: Measure|
            first(m) || exists|i: int| 0 <= i < n - 1 && to_ring(#[trigger] s[i], r, m);
        let here = |m: Measure| to_ring(s[n - 1], r, m);
        lemma_point_to_polygon(w, d, s[n - 1], r);
        assert forall|m: Measure| #[trigger] now(m) == (before(m) || here(m)) by {
            if before(m) && !first(m) {
                let i = choose|i: int| 0 <= i < n - 1 && to_ring(#[trigger] s[i], r, m);
                assert(to_ring(s[i], r, m));
            }
        }
        lemma_both(
            d,
            points_to_polygon(w, d, s, r, n - 1, from),
            point_to_polygon(w, d, s[n - 1], r),
            before,
            here,
            now,
        );
    }
}

proof fn lemma_line_to_rings(
    d: Lengths,
    s: Seq<Coord>,
    r: Seq<Seq<Coord>>,
    n: int,
    from: u64,
    first: spec_fn(Measure) -> bool,
)
    requires
        lengths_are_numbers(d),
        0 <= n <= r.len(),
        is_least(d, from, first),
    ensures
        is_least(
            d,
            line_to_rings(d, s, r, n, from),
            |m: Measure|
                first(m) || exists|k: int| 0 <= k < n && between_lines(s, #[trigger] r[k], m),
        ),
    decreases n,
{
    let now = |m: Measure|
        first(m) || exists|k: int| 0 <= k < n && between_lines(s, #[trigger] r[k], m);
    if n == 0 {
        assert forall|m: Measure| #[trigger] first(m) == #[trigger] now(m) by {}
        lemma_same_lengths(d, from, first, now);
    } else {
        lemma_line_to_rings(d, s, r, n - 1, from, first);
        let before = |m: Measure|
            first(m) || exists|k: int| 0 <= k < n - 1 && between_lines(s, #[trigger] r[k], m);
        let here = |m: Measure| between_lines(s, r[n - 1], m);
        lemma_line_to_line(d, s, r[n - 1]);
        assert forall|m: Measure| #[trigger] now(m) == (before(m) || here(m)) by {
            if before(m) && !first(m) {
                let k = choose|k: int| 0 <= k < n - 1 && between_lines(s, #[trigger] r[k], m);
                assert(between_lines(s, r[k], m));
            }
        }
        lemma_both(
            d,
            line_to_rings(d, s, r, n - 1, from),
            line_to_line(d, s, r[n - 1]),
            before,
            here,
            now,
        );
    }
}

proof fn lemma_line_to_polygon(w: PlaneView, d: Lengths, s: Seq<Coord>, r: Seq<Seq<Coord>>)
    requires
        lengths_are_numbers(d),
        corners_outside(w, s, r),
    ensures
        is_least(
            d,
            line_to_polygon(w, d, s, r),
            |m: Measure| from_corner_to_ring(s, r, m) || line_and_ring(s, r, m),
        ),
{
    let of = |m: Measure| from_corner_to_ring(s, r, m) || line_and_ring(s, r, m);
    let none = |m: Measure| false;
    lemma_none(d, none);
    lemma_points_to_polygon(w, d, s, r, s.len() as int, INFINITY, none);
    let first = |m: Measure|
        none(m) || exists|i: int| 0 <= i < s.len() && to_ring(#[trigger] s[i], r, m);
    let v = points_to_polygon(w, d, s, r, s.len() as int, INFINITY);
    lemma_line_to_rings(d, s, r, r.len() as int, v, first);
    let both = |m: Measure|
        first(m) || exists|k: int| 0 <= k < r.len() && between_lines(s, #[trigger] r[k], m);
    assert forall|m: Measure| #[trigger] both(m) == #[trigger] of(m) by {}
    lemma_same_lengths(d, line_to_polygon(w, d, s, r), both, of);
}

proof fn lemma_rings_to_polygon(
    w: PlaneView,
    d: Lengths,
    r: Seq<Seq<Coord>>,
    q: Seq<Seq<Coord>>,
    n: int,
    from: u64,
    first: spec_fn(Measure) -> bool,
)
    requires
        lengths_are_numbers(d),
        0 <= n <= r.len(),
        rings_outside(w, r, q),
        is_least(d, from, first),
    ensures
        is_least(
            d,
            rings_to_polygon(w, d, r, q, n, from),
            |m: Measure|
                first(m) || exists|k: int|
                    0 <= k < n && from_corner_to_ring(#[trigger] r[k], q, m),
        ),
    decreases n,
{
    let now = |m: Measure|
        first(m) || exists|k: int| 0 <= k < n && from_corner_to_ring(#[trigger] r[k], q, m);
    if n == 0 {
        assert forall|m: Measure| #[trigger] first(m) == #[trigger] now(m) by {}
        lemma_same_lengths(d, from, first, now);
    } else {
        lemma_rings_to_polygon(w, d, r, q, n - 1, from, first);
        let before = |m: Measure|
            first(m) || exists|k: int|
                0 <= k < n - 1 && from_corner_to_ring(#[trigger] r[k], q, m);
        let s = r[n - 1];
        let v = rings_to_polygon(w, d, r, q, n - 1, from);
        assert(corners_outside(w, r[n - 1], q));
        lemma_points_to_polygon(w, d, s, q, s.len() as int, v, before);
        let both = |m: Measure|
            before(m) || exists|i: int| 0 <= i < s.len() && to_ring(#[trigger] s[i], q, m);
        assert forall|m: Measure| #[trigger] both(m) == #[trigger] now(m) by {
            assert(from_corner_to_ring(s, q, m) == exists|i: int|
                0 <= i < s.len() && to_ring(#[trigger] s[i], q, m));
            if before(m) && !first(m) {
                let k = choose|k: int|
                    0 <= k < n - 1 && from_corner_to_ring(#[trigger] r[k], q, m);
                assert(from_corner_to_ring(r[k], q, m));
            }
            if from_corner_to_ring(s, q, m) {
                assert(from_corner_to_ring(r[n - 1], q, m));
            }
        }
        lemma_same_lengths(d, rings_to_polygon(w, d, r, q, n, from), both, now);
    }
}

proof fn lemma_polygons(w: PlaneView, d: Lengths, r: Seq<Seq<Coord>>, q: Seq<Seq<Coord>>)
    requires
        lengths_are_numbers(d),
        rings_outside(w, r, q),
        rings_outside(w, q, r),
    ensures
        is_least(
            d,
            polygon_to_polygon(w, d, r, q),
            |m: Measure| ring_to_ring(r, q, m) || ring_to_ring(q, r, m),
        ),
{
    let of = |m: Measure| ring_to_ring(r, q, m) || ring_to_ring(q, r, m);
    let none = |m: Measure| false;
    lemma_none(d, none);
    lemma_rings_to_polygon(w, d, r, q, r.len() as int, INFINITY, none);
    let first = |m: Measure|
        none(m) || exists|k: int| 0 <= k < r.len() && from_corner_to_ring(#[trigger] r[k], q, m);
    let v = rings_to_polygon(w, d, r, q, r.len() as int, INFINITY);
    lemma_rings_to_polygon(w, d, q, r, q.len() as int, v, first);
    let both = |m: Measure|
        first(m) || exists|k: int| 0 <= k < q.len() && from_corner_to_ring(#[trigger] q[k], r, m);
    assert forall|m: Measure| #[trigger] both(m) == #[trigger] of(m) by {}
    lemma_same_lengths(d, polygon_to_polygon(w, d, r, q), both, of);
}

/// Whether a shape is a single point, line or polygon.
pub open spec fn is_single(x: Shape<u64>) -> bool {
    x is Point || x is LineString || x is Polygon
}

/// The distance of two points, lines or polygons that do not meet, and of which
/// neither has a corner in the other, is the least of the lengths between them:
/// from each corner of either to each segment of the other.
pub proof fn law_distance_is_least(w: PlaneView, d: Lengths, x: Shape<u64>, y: Shape<u64>)
    requires
        lengths_are_numbers(d),
        shape_valid(x),
        shape_valid(y),
        is_single(x),
        is_single(y),
        !shapes_meet(w, x, y),
        outside_each_other(w, x, y),
    ensures
        is_least(d, shape_distance(w, d, x, y), |m: Measure| is_between(x, y, m)),
{
    let of = |m: Measure| is_between(x, y, m);
    let v = shape_distance(w, d, x, y);
    assert(v == part_distance(w, d, x, y));
    match (x, y) {
        (Shape::Point(p), Shape::Point(q)) => {
            lemma_single_length(d, Measure::Points(p, q), of);
        },
        (Shape::Point(p), Shape::LineString(s)) => {
            lemma_point_to_line(d, p, s);
            lemma_same_lengths(d, v, |m: Measure| to_line(p, s, m), of);
        },
        (Shape::LineString(s), Shape::Point(p)) => {
            lemma_point_to_line(d, p, s);
            lemma_same_lengths(d, v, |m: Measure| to_line(p, s, m), of);
        },
        (Shape::Point(p), Shape::Polygon(r)) => {
            lemma_point_to_polygon(w, d, p, r);
            lemma_same_lengths(d, v, |m: Measure| to_ring(p, r, m), of);
        },
        (Shape::Polygon(r), Shape::Point(p)) => {
            lemma_point_to_polygon(w, d, p, r);
            lemma_same_lengths(d, v, |m: Measure| to_ring(p, r, m), of);
        },
        (Shape::LineString(s), Shape::LineString(t)) => {
            lemma_line_to_line(d, s, t);
            lemma_same_lengths(d, v, |m: Measure| between_lines(s, t, m), of);
        },
        (Shape::LineString(s), Shape::Polygon(r)) => {
            lemma_line_to_polygon(w, d, s, r);
            lemma_same_lengths(
                d,
                v,
                |m: Measure| from_corner_to_ring(s, r, m) || line_and_ring(s, r, m),
                of,
            );
        },
        (Shape::Polygon(r), Shape::LineString(s)) => {
            lemma_line_to_polygon(w, d, s, r);
            lemma_same_lengths(
                d,
                v,
                |m: Measure| from_corner_to_ring(s, r, m) || line_and_ring(s, r, m),
                of,
            );
        },
        (Shape::Polygon(r), Shape::Polygon(q)) => {
            lemma_polygons(w, d, r, q);
            lemma_same_lengths(
                d,
                v,
                |m: Measure| ring_to_ring(r, q, m) || ring_to_ring(q, r, m),
                of,
            );
        },
        _ => {},
    }
}

/// The distance of two points, lines or polygons that do not meet in either
/// order is the same in either order, where the length between two points is.
pub proof fn law_distance_is_symmetric(w: PlaneView, d: Lengths, x: Shape<u64>, y: Shape<u64>)
    requires
        lengths_are_numbers(d),
        forall|p: Coord, q: Coord|
            #[trigger] d(Measure::Points(p, q)) == d(Measure::Points(q, p)),
        shape_valid(x),
        shape_valid(y),
        is_single(x),
        is_single(y),
        !shapes_meet(w, x, y),
        !shapes_meet(w, y, x),
        outside_each_other(w, x, y),
    ensures
        equal(shape_distance(w, d, x, y), shape_distance(w, d, y, x)),
{
    law_distance_is_least(w, d, x, y);
    law_distance_is_least(w, d, y, x);
    if let (Shape::Point(p), Shape::Point(q)) = (x, y) {
        assert(shape_distance(w, d, x, y) == d(Measure::Points(p, q)));
        assert(shape_distance(w, d, y, x) == d(Measure::Points(q, p)));
        assert(at_most(0, d(Measure::Points(p, q))));
    } else {
        let a = |m: Measure| is_between(x, y, m);
        let b = |m: Measure| is_between(y, x, m);
        assert forall|m: Measure| #[trigger] a(m) == b(m) by {}
        lemma_least_is_one(d, shape_distance(w, d, x, y), shape_distance(w, d, y, x), a, b);
    }
}

proof fn lemma_part_to_parts(
    w: PlaneView,
    d: Lengths,
    x: Shape<u64>,
    t: Seq<Shape<u64>>,
    n: int,
    from: u64,
)
    requires
        0 <= n <= t.len(),
        !is_nan(from),
        forall|j: int| 0 <= j < t.len() ==> !is_nan(part_distance(w, d, x, #[trigger] t[j])),
    ensures
        ({
            let v = part_to_parts(w, d, x, t, n, from);
            &&& at_most(v, from)
            &&& forall|j: int|
                0 <= j < n ==> at_most(v, part_distance(w, d, x, #[trigger] t[j]))
            &&& v == from || exists|j: int|
                0 <= j < n && v == part_distance(w, d, x, #[trigger] t[j])
        }),
    decreases n,
{
    if n > 0 {
        lemma_part_to_parts(w, d, x, t, n - 1, from);
        let before = part_to_parts(w, d, x, t, n - 1, from);
        let here = part_distance(w, d, x, t[n - 1]);
        assert(!is_nan(here));
        let v = lesser(before, here);
        assert(v == part_to_parts(w, d, x, t, n, from));
        assert(less(here, before) ==> v == here);
        if v == before && before != from {
            let j = choose|j: int|
                0 <= j < n - 1 && before == part_distance(w, d, x, #[trigger] t[j]);
            assert(v == part_distance(w, d, x, t[j]));
        }
    }
}

proof fn lemma_parts_to_parts(
    w: PlaneView,
    d: Lengths,
    s: Seq<Shape<u64>>,
    t: Seq<Shape<u64>>,
    n: int,
)
    requires
        0 <= n <= s.len(),
        forall|i: int, j: int|
            0 <= i < s.len() && 0 <= j < t.len() ==> !is_nan(
                part_distance(w, d, #[trigger] s[i], #[trigger] t[j]),
            ),
    ensures
        ({
            let v = parts_to_parts(w, d, s, t, n);
            &&& !is_nan(v)
            &&& forall|i: int, j: int|
                0 <= i < n && 0 <= j < t.len() ==> at_most(
                    v,
                    part_distance(w, d, #[trigger] s[i], #[trigger] t[j]),
                )
            &&& v == INFINITY || exists|i: int, j: int|
                0 <= i < n && 0 <= j < t.len() && v == part_distance(
                    w,
                    d,
                    #[trigger] s[i],
                    #[trigger] t[j],
                )
        }),
    decreases n,
{
    lemma_infinity();
    if n > 0 {
        lemma_parts_to_parts(w, d, s, t, n - 1);
        let before = parts_to_parts(w, d, s, t, n - 1);
        let x = s[n - 1];
        assert forall|j: int| 0 <= j < t.len() implies !is_nan(
            part_distance(w, d, x, #[trigger] t[j]),
        ) by {
            assert(!is_nan(part_distance(w, d, s[n - 1], t[j])));
        }
        lemma_part_to_parts(w, d, x, t, t.len() as int, before);
        let v = parts_to_parts(w, d, s, t, n);
        assert forall|i: int, j: int|
            0 <= i < n && 0 <= j < t.len() implies at_most(
            v,
            part_distance(w, d, #[trigger] s[i], #[trigger] t[j]),
        ) by {
            if i < n - 1 {
                assert(at_most(before, part_distance(w, d, s[i], t[j])));
            }
        }
        if v != before {
            let j = choose|j: int| 0 <= j < t.len() && v == part_distance(w, d, x, #[trigger] t[j]);
            assert(v == part_distance(w, d, s[n - 1], t[j]));
        } else if v != INFINITY {
            let (i, j) = choose|i: int, j: int|
                0 <= i < n - 1 && 0 <= j < t.len() && before == part_distance(
                    w,
                    d,
                    #[trigger] s[i],
                    #[trigger] t[j],
                );
            assert(v == part_distance(w, d, s[i], t[j]));
        }
    }
}

/// The distance of geometries of several parts that do not meet is the least of
/// the distances between a part of one and a part of the other.
pub proof fn law_distance_of_parts(w: PlaneView, d: Lengths, a: Shape<u64>, b: Shape<u64>)
    requires
        shape_valid(a),
        shape_valid(b),
        !is_single(a) || !is_single(b),
        !shapes_meet(w, a, b),
        forall|i: int, j: int|
            0 <= i < parts_of(a).len() && 0 <= j < parts_of(b).len() ==> !is_nan(
                part_distance(w, d, #[trigger] parts_of(a)[i], #[trigger] parts_of(b)[j]),
            ),
    ensures
        ({
            let v = shape_distance(w, d, a, b);
            let s = parts_of(a);
            let t = parts_of(b);
            &&& forall|i: int, j: int|
                0 <= i < s.len() && 0 <= j < t.len() ==> at_most(
                    v,
                    part_distance(w, d, #[trigger] s[i], #[trigger] t[j]),
                )
            &&& v == INFINITY || exists|i: int, j: int|
                0 <= i < s.len() && 0 <= j < t.len() && v == part_distance(
                    w,
                    d,
                    #[trigger] s[i],
                    #[trigger] t[j],
                )
        }),
{
    lemma_parts_to_parts(w, d, parts_of(a), parts_of(b), parts_of(a).len() as int);
}

/// A point that is not outside a polygon is at no distance from it, nor is a
/// line with such a corner.
pub proof fn law_inside_is_no_distance(w: PlaneView, d: Lengths, p: Coord, r: Seq<Seq<Coord>>)
    requires
        shape_valid(Shape::Point(p)),
        shape_valid(Shape::Polygon(r)),
        polygon_loc(w, p, r) != Loc::Outside,
    ensures
        shape_distance(w, d, Shape::Point(p), Shape::Polygon(r)) == 0,
        shape_distance(w, d, Shape::Polygon(r), Shape::Point(p)) == 0,
{
}

} // verus!
