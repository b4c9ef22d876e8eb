//! How geometries lie to one another.
//!
//! A geometry with a coordinate that is not a finite number meets, contains
//! and equals nothing. Geometries made of several parts meet where a part of
//! one meets a part of the other. One contains another where each part of the
//! other lies inside a part of it.

use vstd::prelude::*;

use crate::spatial::geometry::{
    dimension_of, lemma_shapes_of, lines_view, point_view, points_view, polygons_view, rings_view,
    shape_box, shape_of, shape_valid, shapes_of, BoundingBox, Geometry, LineString, Point, Polygon,
    Shape,
};
use crate::spatial::plane::{
    all_at, any_at, any_meets_any, any_middle_at, any_ring_middle_at, coord, lines_meet,
    lines_overlap, meets_any, on_line, on_segment, path_among, polygon_loc, same, same_path, same_polygon,
    Coord, Loc, Plane, PlaneView, Question,
};

verus! {

/// A point, a line or a polygon.
#[derive(Clone, Copy, Debug)]
pub enum Part<'a> {
    Point(&'a Point<u64>),
    Line(&'a LineString<u64>),
    Polygon(&'a Polygon<u64>),
}

impl<'a> View for Part<'a> {
    type V = Shape<u64>;

    open spec fn view(&self) -> Shape<u64> {
        match *self {
            Part::Point(p) => Shape::Point(point_view(*p)),
            Part::Line(l) => Shape::LineString(points_view(l.points@)),
            Part::Polygon(p) => Shape::Polygon(rings_view(*p)),
        }
    }
}

/// The values of parts.
pub open spec fn part_views(s: Seq<Part>) -> Seq<Shape<u64>> {
    s.map_values(|p: Part| p@)
}

/// The points, lines and polygons that a geometry is made of.
pub open spec fn parts_of(g: Shape<u64>) -> Seq<Shape<u64>>
    decreases g,
{
    match g {
        Shape::MultiPoint(p) => Seq::new(p.len(), |k: int| Shape::Point(p[k])),
        Shape::MultiLineString(l) => Seq::new(l.len(), |k: int| Shape::LineString(l[k])),
        Shape::MultiPolygon(p) => Seq::new(p.len(), |k: int| Shape::Polygon(p[k])),
        Shape::Collection(s) => all_parts(s),
        simple => seq![simple],
    }
}

/// The parts of all of the geometries.
pub open spec fn all_parts(s: Seq<Shape<u64>>) -> Seq<Shape<u64>>
    decreases s,
{
    if s.len() == 0 {
        seq![]
    } else {
        all_parts(s.drop_last()) + parts_of(s.last())
    }
}

/// Whether two parts have a point in common.
pub open spec fn parts_meet(w: PlaneView, x: Shape<u64>, y: Shape<u64>) -> bool {
    match (x, y) {
        (Shape::Point(p), Shape::Point(q)) => same(w, p, q),
        (Shape::Point(p), Shape::LineString(s)) => on_line(w, p, s),
        (Shape::LineString(s), Shape::Point(p)) => on_line(w, p, s),
        (Shape::Point(p), Shape::Polygon(r)) => polygon_loc(w, p, r) != Loc::Outside,
        (Shape::Polygon(r), Shape::Point(p)) => polygon_loc(w, p, r) != Loc::Outside,
        (Shape::LineString(s), Shape::LineString(t)) => lines_meet(w, s, t),
        (Shape::LineString(s), Shape::Polygon(r)) => line_meets_polygon(w, s, r),
        (Shape::Polygon(r), Shape::LineString(s)) => line_meets_polygon(w, s, r),
        (Shape::Polygon(r), Shape::Polygon(q)) => polygons_meet(w, r, q),
        _ => false,
    }
}

/// Whether a line and a polygon have a point in common.
pub open spec fn line_meets_polygon(w: PlaneView, s: Seq<Coord>, r: Seq<Seq<Coord>>) -> bool {
    !all_at(w, s, r, Loc::Outside) || meets_any(w, s, r)
}

/// Whether two polygons have a point in common.
pub open spec fn polygons_meet(w: PlaneView, r: Seq<Seq<Coord>>, q: Seq<Seq<Coord>>) -> bool {
    !all_at(w, r[0], q, Loc::Outside) || !all_at(w, q[0], r, Loc::Outside) || any_meets_any(w, r, q)
}

/// Whether the boxes of two parts allow that they meet.
pub open spec fn boxes_meet(x: Shape<u64>, y: Shape<u64>) -> bool {
    match (shape_box(x), shape_box(y)) {
        (Some(a), Some(b)) => a.meets(b),
        _ => true,
    }
}

/// Whether a part meets one of others.
pub open spec fn part_meets_any(w: PlaneView, x: Shape<u64>, s: Seq<Shape<u64>>) -> bool {
    exists|k: int| 0 <= k < s.len() && boxes_meet(x, #[trigger] s[k]) && parts_meet(w, x, s[k])
}

/// Whether one of the parts meets one of the others.
pub open spec fn any_parts_meet(w: PlaneView, s: Seq<Shape<u64>>, t: Seq<Shape<u64>>) -> bool {
    exists|k: int| 0 <= k < s.len() && part_meets_any(w, #[trigger] s[k], t)
}

/// Whether two geometries have a point in common.
pub open spec fn shapes_meet(w: PlaneView, a: Shape<u64>, b: Shape<u64>) -> bool {
    shape_valid(a) && shape_valid(b) && any_parts_meet(w, parts_of(a), parts_of(b))
}

/// Whether the insides of two polygons have a point in common: a corner or the
/// middle of a side of one lies inside the other.
pub open spec fn polygon_insides_meet(w: PlaneView, r: Seq<Seq<Coord>>, q: Seq<Seq<Coord>>) -> bool {
    any_at(w, r[0], q, Loc::Inside) || any_at(w, q[0], r, Loc::Inside) || any_ring_middle_at(
        w,
        r,
        q,
        Loc::Inside,
    ) || any_ring_middle_at(w, q, r, Loc::Inside)
}

/// Whether a part of a line lies there: one of its points or the middle of one
/// of its segments.
pub open spec fn line_reaches(w: PlaneView, s: Seq<Coord>, r: Seq<Seq<Coord>>, at: Loc) -> bool {
    any_at(w, s, r, at) || any_middle_at(w, s, r, at)
}

/// Whether the insides of two geometries have a point in common.
pub open spec fn insides_meet(w: PlaneView, a: Shape<u64>, b: Shape<u64>) -> bool {
    match (a, b) {
        (Shape::Polygon(r), Shape::Point(p)) => polygon_loc(w, p, r) == Loc::Inside,
        (Shape::Point(p), Shape::Polygon(r)) => polygon_loc(w, p, r) == Loc::Inside,
        (Shape::Polygon(r), Shape::Polygon(q)) => polygon_insides_meet(w, r, q),
        (Shape::Polygon(r), Shape::LineString(s)) => line_reaches(w, s, r, Loc::Inside),
        (Shape::LineString(s), Shape::Polygon(r)) => line_reaches(w, s, r, Loc::Inside),
        (Shape::Point(p), Shape::Point(q)) => same(w, p, q),
        _ => any_parts_meet(w, parts_of(a), parts_of(b)),
    }
}

/// Whether a line ends where it begins, so that it has no ends.
pub open spec fn is_ring(w: PlaneView, s: Seq<Coord>) -> bool {
    s.len() > 1 && same(w, s[0], s[s.len() - 1])
}

/// Whether a point lies on a line and is none of its ends.
pub open spec fn inside_path(w: PlaneView, p: Coord, s: Seq<Coord>) -> bool {
    on_line(w, p, s) && (is_ring(w, s) || (!same(w, s[0], p) && !same(w, s[s.len() - 1], p)))
}

/// Whether one segment of a line holds two points.
pub open spec fn one_segment_holds(w: PlaneView, s: Seq<Coord>, p: Coord, q: Coord) -> bool {
    exists|k: int|
        0 <= k < s.len() - 1 && on_segment(w, p, #[trigger] s[k], s[k + 1]) && on_segment(
            w,
            q,
            s[k],
            s[k + 1],
        )
}

/// Whether the way from `p` to `q` goes over a corner of a line, and on the
/// line as far as that.
pub open spec fn leads_on(
    w: PlaneView,
    s: Seq<Coord>,
    p: Coord,
    q: Coord,
    corner: Coord,
) -> bool {
    on_segment(w, corner, p, q) && !same(w, corner, p) && one_segment_holds(w, s, p, corner)
}

/// The first corner from `k` on that leads on; the number of corners where
/// none does.
pub open spec fn next_corner(w: PlaneView, s: Seq<Coord>, p: Coord, q: Coord, k: int) -> int
    decreases s.len() - k,
{
    if !(0 <= k < s.len()) {
        s.len() as int
    } else if leads_on(w, s, p, q, s[k]) {
        k
    } else {
        next_corner(w, s, p, q, k + 1)
    }
}

/// Whether the straight way from `p` to `q` lies on a line: on one segment, or
/// from corner to corner over at most `n` of them.
pub open spec fn covers(w: PlaneView, s: Seq<Coord>, p: Coord, q: Coord, n: int) -> bool
    decreases n,
{
    one_segment_holds(w, s, p, q) || (n > 0 && {
        let k = next_corner(w, s, p, q, 0);
        k < s.len() && covers(w, s, s[k], q, n - 1)
    })
}

/// Whether every point of a line lies on another and is none of its ends.
pub open spec fn line_contains(w: PlaneView, s: Seq<Coord>, t: Seq<Coord>) -> bool {
    &&& forall|k: int| 0 <= k < t.len() ==> inside_path(w, #[trigger] t[k], s)
    &&& forall|k: int|
        0 <= k < t.len() - 1 ==> covers(w, s, #[trigger] t[k], t[k + 1], s.len() as int)
    &&& is_ring(w, s) || (!on_line(w, s[0], t) && !on_line(w, s[s.len() - 1], t))
}

/// Whether every corner of a line is at a point.
pub open spec fn all_there(w: PlaneView, p: Coord, t: Seq<Coord>) -> bool {
    forall|k: int| 0 <= k < t.len() ==> same(w, p, #[trigger] t[k])
}

/// Whether every point of a part lies inside another. Points and lines have no
/// area, so they contain no polygon.
pub open spec fn part_contains(w: PlaneView, x: Shape<u64>, y: Shape<u64>) -> bool {
    match (x, y) {
        (Shape::Point(p), Shape::Point(q)) => same(w, p, q),
        (Shape::Point(p), Shape::LineString(t)) => all_there(w, p, t),
        (Shape::LineString(s), Shape::Point(q)) => inside_path(w, q, s),
        (Shape::LineString(s), Shape::LineString(t)) => line_contains(w, s, t),
        (Shape::Polygon(r), Shape::Point(q)) => polygon_loc(w, q, r) == Loc::Inside,
        (Shape::Polygon(r), Shape::LineString(t)) => all_at(w, t, r, Loc::Inside) && !meets_any(
            w,
            t,
            r,
        ),
        (Shape::Polygon(r), Shape::Polygon(q)) => all_at(w, q[0], r, Loc::Inside)
            && !any_meets_any(w, r, q),
        _ => false,
    }
}

/// Whether one of the parts contains another part.
pub open spec fn some_part_contains(w: PlaneView, s: Seq<Shape<u64>>, y: Shape<u64>) -> bool {
    exists|k: int| 0 <= k < s.len() && part_contains(w, #[trigger] s[k], y)
}

/// Whether a geometry contains another: it has parts, and each part of the
/// other lies inside one of them.
pub open spec fn shape_contains(w: PlaneView, a: Shape<u64>, b: Shape<u64>) -> bool {
    parts_of(a).len() > 0 && forall|k: int|
        0 <= k < parts_of(b).len() ==> some_part_contains(
            w,
            parts_of(a),
            #[trigger] parts_of(b)[k],
        )
}

/// Whether a valid geometry contains another valid one.
pub open spec fn contains_relation(w: PlaneView, a: Shape<u64>, b: Shape<u64>) -> bool {
    shape_valid(a) && shape_valid(b) && shape_contains(w, a, b)
}

/// Whether a point is among others.
pub open spec fn point_among(w: PlaneView, p: Coord, s: Seq<Coord>) -> bool {
    exists|j: int| 0 <= j < s.len() && same(w, p, #[trigger] s[j])
}

/// Whether a polygon is among others.
pub open spec fn polygon_among(
    w: PlaneView,
    r: Seq<Seq<Coord>>,
    s: Seq<Seq<Seq<Coord>>>,
) -> bool {
    exists|j: int| 0 <= j < s.len() && same_polygon(w, r, #[trigger] s[j])
}

/// Whether two geometries are the same.
pub open spec fn shapes_same(w: PlaneView, a: Shape<u64>, b: Shape<u64>) -> bool
    decreases a, 0int,
{
    match (a, b) {
        (Shape::Point(p), Shape::Point(q)) => same(w, p, q),
        (Shape::LineString(s), Shape::LineString(t)) => same_path(w, s, t),
        (Shape::Polygon(r), Shape::Polygon(q)) => same_polygon(w, r, q),
        (Shape::MultiPoint(s), Shape::MultiPoint(t)) => s.len() == t.len() && forall|k: int|
            0 <= k < s.len() ==> point_among(w, #[trigger] s[k], t),
        (Shape::MultiLineString(s), Shape::MultiLineString(t)) => s.len() == t.len() && forall|
            k: int,
        |
            0 <= k < s.len() ==> path_among(w, #[trigger] s[k], t, 0),
        (Shape::MultiPolygon(s), Shape::MultiPolygon(t)) => s.len() == t.len() && forall|k: int|
            0 <= k < s.len() ==> polygon_among(w, #[trigger] s[k], t),
        (Shape::Collection(s), Shape::Collection(t)) => s.len() == t.len() && all_among(
            w,
            s,
            t,
            s.len() as int,
        ),
        _ => false,
    }
}

/// Whether each of the first `n` geometries is among others.
pub open spec fn all_among(w: PlaneView, s: Seq<Shape<u64>>, t: Seq<Shape<u64>>, n: int) -> bool
    decreases s, n,
{
    if 0 < n <= s.len() {
        all_among(w, s, t, n - 1) && is_among(w, s[n - 1], t, t.len() as int)
    } else {
        true
    }
}

/// Whether a geometry is among the first `m` others.
pub open spec fn is_among(w: PlaneView, x: Shape<u64>, t: Seq<Shape<u64>>, m: int) -> bool
    decreases x, m + 1,
{
    m > 0 && (is_among(w, x, t, m - 1) || shapes_same(w, x, t[m - 1]))
}

/// Whether two valid geometries are the same.
pub open spec fn equals_relation(w: PlaneView, a: Shape<u64>, b: Shape<u64>) -> bool {
    shape_valid(a) && shape_valid(b) && shapes_same(w, a, b)
}

/// Whether a line and a polygon, a point and a line or two lines cross.
pub open spec fn parts_cross(w: PlaneView, a: Shape<u64>, b: Shape<u64>) -> bool {
    match (a, b) {
        (Shape::LineString(s), Shape::LineString(t)) => lines_meet(w, s, t) && !same_path(w, s, t)
            && !lines_overlap(w, s, t),
        (Shape::LineString(s), Shape::Polygon(r)) => line_reaches(w, s, r, Loc::Inside)
            && line_reaches(w, s, r, Loc::Outside),
        (Shape::Polygon(r), Shape::LineString(s)) => line_reaches(w, s, r, Loc::Inside)
            && line_reaches(w, s, r, Loc::Outside),
        (Shape::Point(p), Shape::LineString(s)) => point_inside_line(w, p, s),
        (Shape::LineString(s), Shape::Point(p)) => point_inside_line(w, p, s),
        _ => false,
    }
}

/// Whether a point lies on a line and is none of its corners.
pub open spec fn point_inside_line(w: PlaneView, p: Coord, s: Seq<Coord>) -> bool {
    on_line(w, p, s) && forall|k: int| 0 <= k < s.len() ==> !same(w, #[trigger] s[k], p)
}

/// Whether two geometries touch: they meet, but their insides do not.
pub open spec fn touches_relation(w: PlaneView, a: Shape<u64>, b: Shape<u64>) -> bool {
    shapes_meet(w, a, b) && !insides_meet(w, a, b)
}

/// Whether two geometries cross.
pub open spec fn crosses_relation(w: PlaneView, a: Shape<u64>, b: Shape<u64>) -> bool {
    shape_valid(a) && shape_valid(b) && insides_meet(w, a, b) && parts_cross(w, a, b)
}

/// Whether two geometries of one dimension overlap: their insides meet, and
/// neither equals or contains the other.
pub open spec fn overlaps_relation(w: PlaneView, a: Shape<u64>, b: Shape<u64>) -> bool {
    &&& shape_valid(a) && shape_valid(b)
    &&& dimension_of(a) == dimension_of(b)
    &&& insides_meet(w, a, b)
    &&& !shapes_same(w, a, b)
    &&& !shape_contains(w, a, b)
    &&& !shape_contains(w, b, a)
}

fn collect_parts<'a>(g: &'a Geometry<u64>, out: &mut Vec<Part<'a>>)
    ensures
        part_views(final(out)@) == part_views(old(out)@) + parts_of(g@),
    decreases g,
{
    let ghost front = part_views(out@);
    match g {
        Geometry::Point(p) => {
            out.push(Part::Point(p));
            assert(part_views(out@) =~= front + parts_of(g@));
        },
        Geometry::LineString(l) => {
            out.push(Part::Line(l));
            assert(part_views(out@) =~= front + parts_of(g@));
        },
        Geometry::Polygon(p) => {
            out.push(Part::Polygon(p));
            assert(part_views(out@) =~= front + parts_of(g@));
        },
        Geometry::MultiPoint(m) => {
            let ghost all = parts_of(g@);
            let mut i: usize = 0;
            assert(part_views(out@) =~= front + all.take(0));
            while i < m.points.len()
                invariant
                    i <= m.points@.len(),
                    all.len() == m.points@.len(),
                    forall|k: int|
                        0 <= k < all.len() ==> #[trigger] all[k] == Shape::Point(
                            point_view(m.points@[k]),
                        ),
                    part_views(out@) == front + all.take(i as int),
                decreases m.points@.len() - i,
            {
                let ghost before = out@;
                out.push(Part::Point(&m.points[i]));
                assert(all[i as int] == Shape::Point(point_view(m.points@[i as int])));
                assert(part_views(out@) =~= part_views(before).push(all[i as int]));
                i = i + 1;
                assert(part_views(out@) =~= front + all.take(i as int));
            }
            assert(all.take(i as int) =~= all);
        },
        Geometry::MultiLineString(m) => {
            let ghost all = parts_of(g@);
            let mut i: usize = 0;
            assert(part_views(out@) =~= front + all.take(0));
            while i < m.linestrings.len()
                invariant
                    i <= m.linestrings@.len(),
                    all.len() == m.linestrings@.len(),
                    forall|k: int|
                        0 <= k < all.len() ==> #[trigger] all[k] == Shape::LineString(
                            points_view(m.linestrings@[k].points@),
                        ),
                    part_views(out@) == front + all.take(i as int),
                decreases m.linestrings@.len() - i,
            {
                let ghost before = out@;
                out.push(Part::Line(&m.linestrings[i]));
                assert(all[i as int] == Shape::LineString(
                    points_view(m.linestrings@[i as int].points@),
                ));
                assert(part_views(out@) =~= part_views(before).push(all[i as int]));
                i = i + 1;
                assert(part_views(out@) =~= front + all.take(i as int));
            }
            assert(all.take(i as int) =~= all);
        },
        Geometry::MultiPolygon(m) => {
            let ghost all = parts_of(g@);
            let mut i: usize = 0;
            assert(part_views(out@) =~= front + all.take(0));
            while i < m.polygons.len()
                invariant
                    i <= m.polygons@.len(),
                    all.len() == m.polygons@.len(),
                    forall|k: int|
                        0 <= k < all.len() ==> #[trigger] all[k] == Shape::Polygon(
                            rings_view(m.polygons@[k]),
                        ),
                    part_views(out@) == front + all.take(i as int),
                decreases m.polygons@.len() - i,
            {
                let ghost before = out@;
                out.push(Part::Polygon(&m.polygons[i]));
                assert(all[i as int] == Shape::Polygon(rings_view(m.polygons@[i as int])));
                assert(part_views(out@) =~= part_views(before).push(all[i as int]));
                i = i + 1;
                assert(part_views(out@) =~= front + all.take(i as int));
            }
            assert(all.take(i as int) =~= all);
        },
        Geometry::GeometryCollection(v) => {
            let ghost all = shapes_of(v@);
            let mut i: usize = 0;
            proof {
                lemma_shapes_of(v@);
                assert(part_views(out@) =~= front + all_parts(all.take(0)));
            }
            while i < v.len()
                invariant
                    i <= v@.len(),
                    all.len() == v@.len(),
                    forall|k: int| 0 <= k < v@.len() ==> #[trigger] all[k] == shape_of(v@[k]),
                    part_views(out@) == front + all_parts(all.take(i as int)),
                    decreases_to!(g => v),
                decreases v@.len() - i,
            {
                proof {
                    assert(all.take(i + 1).drop_last() =~= all.take(i as int));
                    assert(all.take(i + 1).last() == all[i as int]);
                    assert(decreases_to!(g => v, v@, v@[i as int]));
                }
                collect_parts(&v[i], out);
                i = i + 1;
                assert(part_views(out@) =~= front + all_parts(all.take(i as int)));
            }
            assert(all.take(i as int) =~= all);
        },
    }
}

/// The points, lines and polygons that a geometry is made of.
pub fn parts<'a>(g: &'a Geometry<u64>) -> (r: Vec<Part<'a>>)
    ensures
        part_views(r@) == parts_of(g@),
{
    let mut out: Vec<Part<'a>> = Vec::new();
    collect_parts(g, &mut out);
    assert(part_views(out@) =~= parts_of(g@));
    out
}

fn part_box(p: &Part) -> (r: Option<BoundingBox>)
    ensures
        r == shape_box(p@),
{
    match p {
        Part::Point(p) => Some(BoundingBox::from_point(**p)),
        Part::Line(l) => l.bounding_box(),
        Part::Polygon(p) => p.bounding_box(),
    }
}

fn part_boxes_meet(x: &Part, y: &Part) -> (r: bool)
    ensures
        r == boxes_meet(x@, y@),
{
    match (part_box(x), part_box(y)) {
        (Some(a), Some(b)) => a.intersects(&b),
        _ => true,
    }
}

impl<F: Fn(Question) -> u8, M: Fn(Coord, Coord) -> Coord> Plane<F, M> {
    fn line_intersects_polygon(&self, l: &LineString<u64>, p: &Polygon<u64>) -> (r: bool)
        requires
            self.steady(),
        ensures
            r == line_meets_polygon(self@, points_view(l.points@), rings_view(*p)),
    {
        !self.every_point_at(&l.points, p, Loc::Outside) || self.line_meets_rings(&l.points, p)
    }

    fn polygons_intersect(&self, a: &Polygon<u64>, b: &Polygon<u64>) -> (r: bool)
        requires
            self.steady(),
        ensures
            r == polygons_meet(self@, rings_view(*a), rings_view(*b)),
    {
        assert(rings_view(*a)[0] == points_view(a.exterior.points@));
        assert(rings_view(*b)[0] == points_view(b.exterior.points@));
        !self.every_point_at(&a.exterior.points, b, Loc::Outside) || !self.every_point_at(
            &b.exterior.points,
            a,
            Loc::Outside,
        ) || self.rings_meet(a, b)
    }

    fn parts_intersect(&self, x: &Part, y: &Part) -> (r: bool)
        requires
            self.steady(),
        ensures
            r == parts_meet(self@, x@, y@),
    {
        match (x, y) {
            (Part::Point(p), Part::Point(q)) => self.same_point(p, q),
            (Part::Point(p), Part::Line(l)) => self.point_on_line(p, &l.points),
            (Part::Line(l), Part::Point(p)) => self.point_on_line(p, &l.points),
            (Part::Point(p), Part::Polygon(r)) => self.point_in_polygon(coord(p), r)
                != Loc::Outside,
            (Part::Polygon(r), Part::Point(p)) => self.point_in_polygon(coord(p), r)
                != Loc::Outside,
            (Part::Line(s), Part::Line(t)) => self.lines_intersect(&s.points, &t.points),
            (Part::Line(l), Part::Polygon(r)) => self.line_intersects_polygon(l, r),
            (Part::Polygon(r), Part::Line(l)) => self.line_intersects_polygon(l, r),
            (Part::Polygon(r), Part::Polygon(q)) => self.polygons_intersect(r, q),
        }
    }

    fn part_intersects(&self, x: &Part, s: &Vec<Part>) -> (r: bool)
        requires
            self.steady(),
        ensures
            r == part_meets_any(self@, x@, part_views(s@)),
    {
        let ghost all = part_views(s@);
        let mut i: usize = 0;
        while i < s.len()
            invariant
                i <= s@.len(),
                self.steady(),
                all == part_views(s@),
                forall|k: int|
                    0 <= k < i ==> !(boxes_meet(x@, #[trigger] all[k]) && parts_meet(
                        self@,
                        x@,
                        all[k],
                    )),
            decreases s@.len() - i,
        {
            assert(all[i as int] == s@[i as int]@);
            if part_boxes_meet(x, &s[i]) && self.parts_intersect(x, &s[i]) {
                return true;
            }
            i = i + 1;
        }
        false
    }

    /// Whether one of the parts meets one of the others.
    pub fn some_parts_intersect(&self, s: &Vec<Part>, t: &Vec<Part>) -> (r: bool)
        requires
            self.steady(),
        ensures
            r == any_parts_meet(self@, part_views(s@), part_views(t@)),
    {
        let ghost all = part_views(s@);
        let ghost others = part_views(t@);
        let mut i: usize = 0;
        while i < s.len()
            invariant
                i <= s@.len(),
                self.steady(),
                all == part_views(s@),
                others == part_views(t@),
                forall|k: int| 0 <= k < i ==> !part_meets_any(self@, #[trigger] all[k], others),
            decreases s@.len() - i,
        {
            assert(all[i as int] == s@[i as int]@);
            if self.part_intersects(&s[i], t) {
                return true;
            }
            i = i + 1;
        }
        false
    }

    fn line_reaches_into(&self, l: &LineString<u64>, p: &Polygon<u64>, at: Loc) -> (r: bool)
        requires
            self.steady(),
        ensures
            r == line_reaches(self@, points_view(l.points@), rings_view(*p), at),
    {
        self.some_point_at(&l.points, p, at) || self.some_middle_at(&l.points, p, at)
    }

    fn polygon_insides_intersect(&self, a: &Polygon<u64>, b: &Polygon<u64>) -> (r: bool)
        requires
            self.steady(),
        ensures
            r == polygon_insides_meet(self@, rings_view(*a), rings_view(*b)),
    {
        assert(rings_view(*a)[0] == points_view(a.exterior.points@));
        assert(rings_view(*b)[0] == points_view(b.exterior.points@));
        self.some_point_at(&a.exterior.points, b, Loc::Inside) || self.some_point_at(
            &b.exterior.points,
            a,
            Loc::Inside,
        ) || self.some_ring_middle_at(a, b, Loc::Inside) || self.some_ring_middle_at(
            b,
            a,
            Loc::Inside,
        )
    }

    fn interiors_intersect(&self, a: &Geometry<u64>, b: &Geometry<u64>) -> (r: bool)
        requires
            self.steady(),
        ensures
            r == insides_meet(self@, a@, b@),
    {
        match (a, b) {
            (Geometry::Polygon(r), Geometry::Point(p)) => self.point_in_polygon(coord(p), r)
                == Loc::Inside,
            (Geometry::Point(p), Geometry::Polygon(r)) => self.point_in_polygon(coord(p), r)
                == Loc::Inside,
            (Geometry::Polygon(r), Geometry::Polygon(q)) => self.polygon_insides_intersect(r, q),
            (Geometry::Polygon(r), Geometry::LineString(l)) => self.line_reaches_into(
                l,
                r,
                Loc::Inside,
            ),
            (Geometry::LineString(l), Geometry::Polygon(r)) => self.line_reaches_into(
                l,
                r,
                Loc::Inside,
            ),
            (Geometry::Point(p), Geometry::Point(q)) => self.same_point(p, q),
            _ => {
                let s: Vec<Part> = parts(a);
                let t: Vec<Part> = parts(b);
                self.some_parts_intersect(&s, &t)
            },
        }
    }

    fn is_round(&self, points: &Vec<Point<u64>>) -> (r: bool)
        requires
            self.steady(),
        ensures
            r == is_ring(self@, points_view(points@)),
    {
        let n: usize = points.len();
        n > 1 && self.same_point(&points[0], &points[n - 1])
    }

    fn on_path(&self, p: &Point<u64>, points: &Vec<Point<u64>>) -> (r: bool)
        requires
            self.steady(),
        ensures
            r == inside_path(self@, point_view(*p), points_view(points@)),
    {
        let n: usize = points.len();
        if n == 0 || !self.point_on_line(p, points) {
            return false;
        }
        assert(points_view(points@)[0] == point_view(points@[0]));
        assert(points_view(points@)[n - 1] == point_view(points@[n - 1]));
        self.is_round(points) || (!self.same_point(&points[0], p) && !self.same_point(
            &points[n - 1],
            p,
        ))
    }

    fn segment_has_both(&self, points: &Vec<Point<u64>>, p: Coord, q: Coord) -> (r: bool)
        requires
            self.steady(),
        ensures
            r == one_segment_holds(self@, points_view(points@), p, q),
    {
        let ghost s = points_view(points@);
        let mut i: usize = 1;
        while i < points.len()
            invariant
                i >= 1,
                self.steady(),
                s == points_view(points@),
                forall|k: int|
                    0 <= k < i - 1 && k < s.len() - 1 ==> !(on_segment(
                        self@,
                        p,
                        #[trigger] s[k],
                        s[k + 1],
                    ) && on_segment(self@, q, s[k], s[k + 1])),
            decreases points@.len() - i,
        {
            assert(s[i - 1] == point_view(points@[i - 1]));
            assert(s[i as int] == point_view(points@[i as int]));
            if self.on_segment(p, &points[i - 1], &points[i]) && self.on_segment(
                q,
                &points[i - 1],
                &points[i],
            ) {
                assert(0 <= i - 1 < s.len() - 1 && on_segment(self@, p, s[i - 1], s[i - 1 + 1]));
                return true;
            }
            i = i + 1;
        }
        false
    }

    fn find_corner(&self, points: &Vec<Point<u64>>, p: &Point<u64>, q: &Point<u64>) -> (r: usize)
        requires
            self.steady(),
        ensures
            r == next_corner(self@, points_view(points@), point_view(*p), point_view(*q), 0),
            r <= points@.len(),
    {
        let ghost s = points_view(points@);
        let ghost a = point_view(*p);
        let ghost b = point_view(*q);
        let mut k: usize = 0;
        while k < points.len()
            invariant
                k <= points@.len(),
                self.steady(),
                s == points_view(points@),
                a == point_view(*p),
                b == point_view(*q),
                next_corner(self@, s, a, b, 0) == next_corner(self@, s, a, b, k as int),
            decreases points@.len() - k,
        {
            let c: &Point<u64> = &points[k];
            assert(s[k as int] == point_view(*c));
            if self.on_segment(coord(c), p, q) && !self.same_point(c, p) && self.segment_has_both(
                points,
                coord(p),
                coord(c),
            ) {
                return k;
            }
            k = k + 1;
        }
        k
    }

    fn covers_way(&self, points: &Vec<Point<u64>>, p: &Point<u64>, q: &Point<u64>, n: usize) -> (r:
        bool)
        requires
            self.steady(),
        ensures
            r == covers(self@, points_view(points@), point_view(*p), point_view(*q), n as int),
        decreases n,
    {
        if self.segment_has_both(points, coord(p), coord(q)) {
            return true;
        }
        if n == 0 {
            return false;
        }
        let k: usize = self.find_corner(points, p, q);
        if k >= points.len() {
            return false;
        }
        assert(points_view(points@)[k as int] == point_view(points@[k as int]));
        self.covers_way(points, &points[k], q, n - 1)
    }

    fn line_holds(&self, a: &Vec<Point<u64>>, b: &Vec<Point<u64>>) -> (r: bool)
        requires
            self.steady(),
        ensures
            r == line_contains(self@, points_view(a@), points_view(b@)),
    {
        let ghost s = points_view(a@);
        let ghost t = points_view(b@);
        let n: usize = a.len();
        if n == 0 {
            if b.len() > 0 {
                assert(!inside_path(self@, t[0], s));
            }
            return b.len() == 0;
        }
        let mut i: usize = 0;
        while i < b.len()
            invariant
                i <= b@.len(),
                self.steady(),
                n == a@.len(),
                s == points_view(a@),
                t == points_view(b@),
                forall|k: int| 0 <= k < i ==> inside_path(self@, #[trigger] t[k], s),
                forall|k: int|
                    0 <= k < i && k < t.len() - 1 ==> covers(
                        self@,
                        s,
                        #[trigger] t[k],
                        t[k + 1],
                        s.len() as int,
                    ),
            decreases b@.len() - i,
        {
            assert(t[i as int] == point_view(b@[i as int]));
            if !self.on_path(&b[i], a) {
                return false;
            }
            if i + 1 < b.len() {
                assert(t[i + 1] == point_view(b@[i + 1]));
                if !self.covers_way(a, &b[i], &b[i + 1], n) {
                    assert(!covers(self@, s, t[i as int], t[i + 1], s.len() as int));
                    return false;
                }
            }
            i = i + 1;
        }
        assert(s[0] == point_view(a@[0]));
        assert(s[n - 1] == point_view(a@[n - 1]));
        self.is_round(a) || (!self.point_on_line(&a[0], b) && !self.point_on_line(&a[n - 1], b))
    }

    fn all_same(&self, p: &Point<u64>, points: &Vec<Point<u64>>) -> (r: bool)
        requires
            self.steady(),
        ensures
            r == all_there(self@, point_view(*p), points_view(points@)),
    {
        let ghost s = points_view(points@);
        let mut i: usize = 0;
        while i < points.len()
            invariant
                i <= points@.len(),
                self.steady(),
                s == points_view(points@),
                forall|k: int| 0 <= k < i ==> same(self@, point_view(*p), #[trigger] s[k]),
            decreases points@.len() - i,
        {
            assert(s[i as int] == point_view(points@[i as int]));
            if !self.same_point(p, &points[i]) {
                assert(!same(self@, point_view(*p), s[i as int]));
                return false;
            }
            i = i + 1;
        }
        true
    }

    fn part_holds(&self, x: &Part, y: &Part) -> (r: bool)
        requires
            self.steady(),
        ensures
            r == part_contains(self@, x@, y@),
    {
        match (x, y) {
            (Part::Point(p), Part::Point(q)) => self.same_point(p, q),
            (Part::Point(p), Part::Line(l)) => self.all_same(p, &l.points),
            (Part::Line(l), Part::Point(q)) => self.on_path(q, &l.points),
            (Part::Line(l), Part::Line(m)) => self.line_holds(&l.points, &m.points),
            (Part::Polygon(p), Part::Point(q)) => self.point_in_polygon(coord(q), p)
                == Loc::Inside,
            (Part::Polygon(p), Part::Line(l)) => self.every_point_at(&l.points, p, Loc::Inside)
                && !self.line_meets_rings(&l.points, p),
            (Part::Polygon(p), Part::Polygon(q)) => {
                assert(rings_view(**q)[0] == points_view(q.exterior.points@));
                self.every_point_at(&q.exterior.points, p, Loc::Inside) && !self.rings_meet(p, q)
            },
            _ => false,
        }
    }

    fn some_part_holds(&self, s: &Vec<Part>, y: &Part) -> (r: bool)
        requires
            self.steady(),
        ensures
            r == some_part_contains(self@, part_views(s@), y@),
    {
        let ghost all = part_views(s@);
        let mut i: usize = 0;
        while i < s.len()
            invariant
                i <= s@.len(),
                self.steady(),
                all == part_views(s@),
                forall|k: int| 0 <= k < i ==> !part_contains(self@, #[trigger] all[k], y@),
            decreases s@.len() - i,
        {
            assert(all[i as int] == s@[i as int]@);
            if self.part_holds(&s[i], y) {
                return true;
            }
            i = i + 1;
        }
        false
    }

    fn geometry_holds(&self, a: &Geometry<u64>, b: &Geometry<u64>) -> (r: bool)
        requires
            self.steady(),
        ensures
            r == shape_contains(self@, a@, b@),
    {
        let s: Vec<Part> = parts(a);
        let t: Vec<Part> = parts(b);
        let ghost all = parts_of(b@);
        if s.len() == 0 {
            return false;
        }
        let mut i: usize = 0;
        while i < t.len()
            invariant
                i <= t@.len(),
                self.steady(),
                part_views(s@) == parts_of(a@),
                part_views(t@) == all,
                all == parts_of(b@),
                forall|k: int|
                    0 <= k < i ==> some_part_contains(self@, parts_of(a@), #[trigger] all[k]),
            decreases t@.len() - i,
        {
            assert(all[i as int] == t@[i as int]@);
            if !self.some_part_holds(&s, &t[i]) {
                return false;
            }
            i = i + 1;
        }
        true
    }

    fn points_among(&self, a: &Vec<Point<u64>>, b: &Vec<Point<u64>>) -> (r: bool)
        requires
            self.steady(),
        ensures
            r == (forall|k: int|
                0 <= k < a@.len() ==> point_among(
                    self@,
                    #[trigger] points_view(a@)[k],
                    points_view(b@),
                )),
    {
        let ghost s = points_view(a@);
        let ghost t = points_view(b@);
        let mut i: usize = 0;
        while i < a.len()
            invariant
                i <= a@.len(),
                self.steady(),
                s == points_view(a@),
                t == points_view(b@),
                forall|k: int| 0 <= k < i ==> point_among(self@, #[trigger] s[k], t),
            decreases a@.len() - i,
        {
            assert(s[i as int] == point_view(a@[i as int]));
            let mut found: bool = false;
            let mut j: usize = 0;
            while j < b.len() && !found
                invariant
                    j <= b@.len(),
                    i < a@.len(),
                    self.steady(),
                    s == points_view(a@),
                    t == points_view(b@),
                    s[i as int] == point_view(a@[i as int]),
                    found ==> point_among(self@, s[i as int], t),
                    !found ==> forall|k: int|
                        0 <= k < j ==> !same(self@, s[i as int], #[trigger] t[k]),
                decreases b@.len() - j,
            {
                assert(t[j as int] == point_view(b@[j as int]));
                found = self.same_point(&a[i], &b[j]);
                j = j + 1;
            }
            if !found {
                return false;
            }
            i = i + 1;
        }
        true
    }

    fn lines_among(&self, a: &Vec<LineString<u64>>, b: &Vec<LineString<u64>>) -> (r: bool)
        requires
            self.steady(),
        ensures
            r == (forall|k: int|
                0 <= k < a@.len() ==> path_among(
                    self@,
                    #[trigger] lines_view(a@)[k],
                    lines_view(b@),
                    0,
                )),
    {
        let ghost s = lines_view(a@);
        let mut i: usize = 0;
        while i < a.len()
            invariant
                i <= a@.len(),
                self.steady(),
                s == lines_view(a@),
                forall|k: int|
                    0 <= k < i ==> path_among(self@, #[trigger] s[k], lines_view(b@), 0),
            decreases a@.len() - i,
        {
            assert(s[i as int] == points_view(a@[i as int].points@));
            if !self.line_among(&a[i].points, b) {
                return false;
            }
            i = i + 1;
        }
        true
    }

    fn polygons_among(&self, a: &Vec<Polygon<u64>>, b: &Vec<Polygon<u64>>) -> (r: bool)
        requires
            self.steady(),
        ensures
            r == (forall|k: int|
                0 <= k < a@.len() ==> polygon_among(
                    self@,
                    #[trigger] polygons_view(a@)[k],
                    polygons_view(b@),
                )),
    {
        let ghost s = polygons_view(a@);
        let ghost t = polygons_view(b@);
        let mut i: usize = 0;
        while i < a.len()
            invariant
                i <= a@.len(),
                self.steady(),
                s == polygons_view(a@),
                t == polygons_view(b@),
                forall|k: int| 0 <= k < i ==> polygon_among(self@, #[trigger] s[k], t),
            decreases a@.len() - i,
        {
            assert(s[i as int] == rings_view(a@[i as int]));
            let mut found: bool = false;
            let mut j: usize = 0;
            while j < b.len() && !found
                invariant
                    j <= b@.len(),
                    i < a@.len(),
                    self.steady(),
                    s == polygons_view(a@),
                    t == polygons_view(b@),
                    s[i as int] == rings_view(a@[i as int]),
                    found ==> polygon_among(self@, s[i as int], t),
                    !found ==> forall|k: int|
                        0 <= k < j ==> !same_polygon(self@, s[i as int], #[trigger] t[k]),
                decreases b@.len() - j,
            {
                assert(t[j as int] == rings_view(b@[j as int]));
                found = self.same_polygons(&a[i], &b[j]);
                j = j + 1;
            }
            if !found {
                return false;
            }
            i = i + 1;
        }
        true
    }

    fn same_geometry(&self, a: &Geometry<u64>, b: &Geometry<u64>) -> (r: bool)
        requires
            self.steady(),
        ensures
            r == shapes_same(self@, a@, b@),
        decreases a,
    {
        match (a, b) {
            (Geometry::Point(p), Geometry::Point(q)) => self.same_point(p, q),
            (Geometry::LineString(s), Geometry::LineString(t)) => self.same_line(
                &s.points,
                &t.points,
            ),
            (Geometry::Polygon(p), Geometry::Polygon(q)) => self.same_polygons(p, q),
            (Geometry::MultiPoint(s), Geometry::MultiPoint(t)) => s.points.len() == t.points.len()
                && self.points_among(&s.points, &t.points),
            (Geometry::MultiLineString(s), Geometry::MultiLineString(t)) => s.linestrings.len()
                == t.linestrings.len() && self.lines_among(&s.linestrings, &t.linestrings),
            (Geometry::MultiPolygon(s), Geometry::MultiPolygon(t)) => s.polygons.len()
                == t.polygons.len() && self.polygons_among(&s.polygons, &t.polygons),
            (Geometry::GeometryCollection(s), Geometry::GeometryCollection(t)) => {
                proof {
                    lemma_shapes_of(s@);
                    lemma_shapes_of(t@);
                }
                if s.len() != t.len() {
                    return false;
                }
                let ghost x = shapes_of(s@);
                let ghost y = shapes_of(t@);
                let mut n: usize = 0;
                while n < s.len()
                    invariant
                        n <= s@.len(),
                        self.steady(),
                        x.len() == s@.len(),
                        y.len() == t@.len(),
                        forall|i: int| 0 <= i < s@.len() ==> #[trigger] x[i] == shape_of(s@[i]),
                        forall|i: int| 0 <= i < t@.len() ==> #[trigger] y[i] == shape_of(t@[i]),
                        all_among(self@, x, y, n as int),
                        shapes_same(self@, a@, b@) == all_among(self@, x, y, x.len() as int),
                        decreases_to!(a => s),
                    decreases s@.len() - n,
                {
                    assert(x[n as int] == shape_of(s@[n as int]));
                    assert(decreases_to!(a => s, s@, s@[n as int]));
                    let mut found: bool = false;
                    let mut m: usize = 0;
                    while m < t.len() && !found
                        invariant
                            m <= t@.len(),
                            n < s@.len(),
                            self.steady(),
                            y.len() == t@.len(),
                            forall|i: int|
                                0 <= i < t@.len() ==> #[trigger] y[i] == shape_of(t@[i]),
                            x[n as int] == shape_of(s@[n as int]),
                            found == is_among(self@, x[n as int], y, m as int),
                            decreases_to!(a => s@[n as int]),
                        decreases t@.len() - m,
                    {
                        assert(y[m as int] == shape_of(t@[m as int]));
                        found = self.same_geometry(&s[n], &t[m]);
                        m = m + 1;
                    }
                    if !found {
                        proof {
                            lemma_all_among(self@, x, y, n + 1, x.len() as int);
                        }
                        return false;
                    }
                    proof {
                        lemma_is_among(self@, x[n as int], y, m as int, y.len() as int);
                    }
                    n = n + 1;
                }
                true
            },
            _ => false,
        }
    }
}

proof fn lemma_all_among(w: PlaneView, x: Seq<Shape<u64>>, y: Seq<Shape<u64>>, n: int, m: int)
    requires
        0 <= n <= m <= x.len(),
        !all_among(w, x, y, n),
    ensures
        !all_among(w, x, y, m),
    decreases m - n,
{
    if n < m {
        lemma_all_among(w, x, y, n, m - 1);
    }
}

proof fn lemma_is_among(w: PlaneView, x: Shape<u64>, t: Seq<Shape<u64>>, m: int, n: int)
    requires
        m <= n,
        is_among(w, x, t, m),
    ensures
        is_among(w, x, t, n),
    decreases n - m,
{
    if m < n {
        lemma_is_among(w, x, t, m, n - 1);
    }
}

/// Whether two geometries have a point in common.
pub fn intersects<F: Fn(Question) -> u8, M: Fn(Coord, Coord) -> Coord>(
    plane: &Plane<F, M>,
    a: &Geometry<u64>,
    b: &Geometry<u64>,
) -> (r: bool)
    requires
        plane.steady(),
    ensures
        r == shapes_meet(plane@, a@, b@),
{
    if !a.is_valid() || !b.is_valid() {
        return false;
    }
    let s: Vec<Part> = parts(a);
    let t: Vec<Part> = parts(b);
    plane.some_parts_intersect(&s, &t)
}

/// Whether two geometries have no point in common.
pub fn disjoint<F: Fn(Question) -> u8, M: Fn(Coord, Coord) -> Coord>(
    plane: &Plane<F, M>,
    a: &Geometry<u64>,
    b: &Geometry<u64>,
) -> (r: bool)
    requires
        plane.steady(),
    ensures
        r == !shapes_meet(plane@, a@, b@),
{
    !intersects(plane, a, b)
}

/// Whether every point of `b` lies inside `a`.
pub fn contains<F: Fn(Question) -> u8, M: Fn(Coord, Coord) -> Coord>(
    plane: &Plane<F, M>,
    a: &Geometry<u64>,
    b: &Geometry<u64>,
) -> (r: bool)
    requires
        plane.steady(),
    ensures
        r == contains_relation(plane@, a@, b@),
{
    a.is_valid() && b.is_valid() && plane.geometry_holds(a, b)
}

/// Whether every point of `a` lies inside `b`.
pub fn within<F: Fn(Question) -> u8, M: Fn(Coord, Coord) -> Coord>(
    plane: &Plane<F, M>,
    a: &Geometry<u64>,
    b: &Geometry<u64>,
) -> (r: bool)
    requires
        plane.steady(),
    ensures
        r == contains_relation(plane@, b@, a@),
{
    contains(plane, b, a)
}

/// Whether two geometries are the same.
pub fn equals<F: Fn(Question) -> u8, M: Fn(Coord, Coord) -> Coord>(
    plane: &Plane<F, M>,
    a: &Geometry<u64>,
    b: &Geometry<u64>,
) -> (r: bool)
    requires
        plane.steady(),
    ensures
        r == equals_relation(plane@, a@, b@),
{
    a.is_valid() && b.is_valid() && plane.same_geometry(a, b)
}

/// Whether two geometries meet, but not in their insides.
pub fn touches<F: Fn(Question) -> u8, M: Fn(Coord, Coord) -> Coord>(
    plane: &Plane<F, M>,
    a: &Geometry<u64>,
    b: &Geometry<u64>,
) -> (r: bool)
    requires
        plane.steady(),
    ensures
        r == touches_relation(plane@, a@, b@),
{
    intersects(plane, a, b) && !plane.interiors_intersect(a, b)
}

/// Whether two geometries cross.
pub fn crosses<F: Fn(Question) -> u8, M: Fn(Coord, Coord) -> Coord>(
    plane: &Plane<F, M>,
    a: &Geometry<u64>,
    b: &Geometry<u64>,
) -> (r: bool)
    requires
        plane.steady(),
    ensures
        r == crosses_relation(plane@, a@, b@),
{
    if !a.is_valid() || !b.is_valid() || !plane.interiors_intersect(a, b) {
        return false;
    }
    match (a, b) {
        (Geometry::LineString(s), Geometry::LineString(t)) => plane.lines_intersect(
            &s.points,
            &t.points,
        ) && !plane.same_line(&s.points, &t.points) && !plane.lines_share(&s.points, &t.points),
        (Geometry::LineString(l), Geometry::Polygon(p)) => plane.line_reaches_into(
            l,
            p,
            Loc::Inside,
        ) && plane.line_reaches_into(l, p, Loc::Outside),
        (Geometry::Polygon(p), Geometry::LineString(l)) => plane.line_reaches_into(
            l,
            p,
            Loc::Inside,
        ) && plane.line_reaches_into(l, p, Loc::Outside),
        (Geometry::Point(p), Geometry::LineString(l)) => plane.inside_line(p, &l.points),
        (Geometry::LineString(l), Geometry::Point(p)) => plane.inside_line(p, &l.points),
        _ => false,
    }
}

/// Whether two geometries of one dimension share some of their insides and
/// neither equals or contains the other.
pub fn overlaps<F: Fn(Question) -> u8, M: Fn(Coord, Coord) -> Coord>(
    plane: &Plane<F, M>,
    a: &Geometry<u64>,
    b: &Geometry<u64>,
) -> (r: bool)
    requires
        plane.steady(),
    ensures
        r == overlaps_relation(plane@, a@, b@),
{
    a.is_valid() && b.is_valid() && a.dimension() == b.dimension() && plane.interiors_intersect(
        a,
        b,
    ) && !plane.same_geometry(a, b) && !plane.geometry_holds(a, b) && !plane.geometry_holds(b, a)
}

impl<F: Fn(Question) -> u8, M: Fn(Coord, Coord) -> Coord> Plane<F, M> {
    fn inside_line(&self, p: &Point<u64>, points: &Vec<Point<u64>>) -> (r: bool)
        requires
            self.steady(),
        ensures
            r == point_inside_line(self@, point_view(*p), points_view(points@)),
    {
        if !self.point_on_line(p, points) {
            return false;
        }
        let ghost s = points_view(points@);
        let mut i: usize = 0;
        while i < points.len()
            invariant
                i <= points@.len(),
                self.steady(),
                s == points_view(points@),
                forall|k: int| 0 <= k < i ==> !same(self@, #[trigger] s[k], point_view(*p)),
            decreases points@.len() - i,
        {
            assert(s[i as int] == point_view(points@[i as int]));
            if self.same_point(&points[i], p) {
                return false;
            }
            i = i + 1;
        }
        true
    }
}

/// A geometry with a coordinate that is not finite stands in no relation to
/// any geometry.
pub proof fn law_invalid_is_unrelated(w: PlaneView, a: Shape<u64>, b: Shape<u64>)
    requires
        !shape_valid(a) || !shape_valid(b),
    ensures
        !shapes_meet(w, a, b),
        !contains_relation(w, a, b),
        !equals_relation(w, a, b),
        !touches_relation(w, a, b),
        !crosses_relation(w, a, b),
        !overlaps_relation(w, a, b),
{
}

/// Geometries that overlap have one dimension, and neither equals or contains
/// the other.
pub proof fn law_overlap(w: PlaneView, a: Shape<u64>, b: Shape<u64>)
    requires
        overlaps_relation(w, a, b),
    ensures
        dimension_of(a) == dimension_of(b),
        !equals_relation(w, a, b),
        !contains_relation(w, a, b),
        !contains_relation(w, b, a),
{
}

/// Geometries that touch meet, and they do not cross.
pub proof fn law_touching_is_not_crossing(w: PlaneView, a: Shape<u64>, b: Shape<u64>)
    requires
        touches_relation(w, a, b),
    ensures
        shapes_meet(w, a, b),
        !crosses_relation(w, a, b),
{
}

} // verus!
