//! How far geometries are apart.

use vstd::prelude::*;

use crate::floats::{bits_less, bits_smaller, less, smaller};
use crate::spatial::geometry::{
    lines_view, point_view, points_view, rings_view, shape_valid, Geometry, LineString, Point,
    Polygon, Shape,
};
use crate::spatial::plane::{coord, polygon_loc, Coord, Loc, Plane, PlaneView, Question};
use crate::spatial::predicates::{
    any_parts_meet, part_views, parts, parts_of, shapes_meet, Part,
};

verus! {

/// A length that takes arithmetic on coordinates.
#[derive(Clone, Copy, Debug)]
pub enum Measure {
    /// From a point to another.
    Points(Coord, Coord),
    /// From a point to the segment between two others.
    Segment(Coord, Coord, Coord),
}

/// Infinity.
pub const INFINITY: u64 = 0x7ff0_0000_0000_0000;

/// What stands for a distance that there is not.
pub const NO_NUMBER: u64 = 0x7ff8_0000_0000_0000;

/// Lengths, as they are handed in.
pub struct Ruler<D> {
    pub length: D,
}

/// Lengths.
pub type Lengths = spec_fn(Measure) -> u64;

impl<D: Fn(Measure) -> u64> Ruler<D> {
    /// Every length is given, and always the same.
    pub open spec fn steady(&self) -> bool {
        &&& forall|m: Measure| #[trigger] self.length.requires((m,))
        &&& forall|m: Measure, r: u64, s: u64|
            #[trigger] self.length.ensures((m,), r) && #[trigger] self.length.ensures((m,), s)
                ==> r == s
    }

    fn measured(&self, m: Measure) -> (r: u64)
        requires
            self.steady(),
        ensures
            r == self@(m),
    {
        (self.length)(m)
    }
}

impl<D: Fn(Measure) -> u64> View for Ruler<D> {
    type V = Lengths;

    open spec fn view(&self) -> Lengths {
        |m: Measure| choose|r: u64| self.length.ensures((m,), r)
    }
}

/// The smallest distance of a point from the first `n` segments of a line.
pub open spec fn to_segments(d: Lengths, p: Coord, s: Seq<Coord>, n: int) -> u64
    decreases n,
{
    if n <= 0 {
        INFINITY
    } else {
        smaller(to_segments(d, p, s, n - 1), d(Measure::Segment(p, s[n - 1], s[n])))
    }
}

/// The distance of a point from a line.
pub open spec fn point_to_line(d: Lengths, p: Coord, s: Seq<Coord>) -> u64 {
    if s.len() == 0 {
        INFINITY
    } else if s.len() == 1 {
        d(Measure::Points(p, s[0]))
    } else {
        to_segments(d, p, s, s.len() - 1)
    }
}

/// The smallest distance of the first `n` points from a line.
pub open spec fn points_to_line(d: Lengths, s: Seq<Coord>, t: Seq<Coord>, n: int, from: u64) -> u64
    decreases n,
{
    if n <= 0 {
        from
    } else {
        smaller(points_to_line(d, s, t, n - 1, from), point_to_line(d, s[n - 1], t))
    }
}

/// The distance of two lines: that of the points of each from the other.
pub open spec fn line_to_line(d: Lengths, s: Seq<Coord>, t: Seq<Coord>) -> u64 {
    if s.len() == 0 || t.len() == 0 {
        INFINITY
    } else {
        let first = points_to_line(d, s, t, s.len() as int, INFINITY);
        points_to_line(d, t, s, t.len() as int, first)
    }
}

/// The smallest distance of a point from the first `n` rings.
pub open spec fn point_to_rings(d: Lengths, p: Coord, r: Seq<Seq<Coord>>, n: int) -> u64
    decreases n,
{
    if n <= 0 {
        INFINITY
    } else {
        smaller(point_to_rings(d, p, r, n - 1), point_to_line(d, p, r[n - 1]))
    }
}

/// The distance of a point from a polygon.
pub open spec fn point_to_polygon(w: PlaneView, d: Lengths, p: Coord, r: Seq<Seq<Coord>>) -> u64 {
    match polygon_loc(w, p, r) {
        Loc::Outside => point_to_rings(d, p, r, r.len() as int),
        _ => 0,
    }
}

/// The smallest distance of the first `n` points from a polygon.
pub open spec fn points_to_polygon(
    w: PlaneView,
    d: Lengths,
    s: Seq<Coord>,
    r: Seq<Seq<Coord>>,
    n: int,
    from: u64,
) -> u64
    decreases n,
{
    if n <= 0 {
        from
    } else {
        smaller(points_to_polygon(w, d, s, r, n - 1, from), point_to_polygon(w, d, s[n - 1], r))
    }
}

/// The smallest distance of a line from the first `n` rings.
pub open spec fn line_to_rings(
    d: Lengths,
    s: Seq<Coord>,
    r: Seq<Seq<Coord>>,
    n: int,
    from: u64,
) -> u64
    decreases n,
{
    if n <= 0 {
        from
    } else {
        smaller(line_to_rings(d, s, r, n - 1, from), line_to_line(d, s, r[n - 1]))
    }
}

/// The distance of a line from a polygon: that of its points, and that of the
/// rings from it.
pub open spec fn line_to_polygon(
    w: PlaneView,
    d: Lengths,
    s: Seq<Coord>,
    r: Seq<Seq<Coord>>,
) -> u64 {
    let first = points_to_polygon(w, d, s, r, s.len() as int, INFINITY);
    line_to_rings(d, s, r, r.len() as int, first)
}

/// The smallest distance of the corners of the first `n` rings from a polygon.
pub open spec fn rings_to_polygon(
    w: PlaneView,
    d: Lengths,
    r: Seq<Seq<Coord>>,
    q: Seq<Seq<Coord>>,
    n: int,
    from: u64,
) -> u64
    decreases n,
{
    if n <= 0 {
        from
    } else {
        let s = r[n - 1];
        points_to_polygon(w, d, s, q, s.len() as int, rings_to_polygon(w, d, r, q, n - 1, from))
    }
}

/// The distance of two polygons: that of the corners of each, those of its
/// holes too, from the other.
pub open spec fn polygon_to_polygon(
    w: PlaneView,
    d: Lengths,
    r: Seq<Seq<Coord>>,
    q: Seq<Seq<Coord>>,
) -> u64 {
    let first = rings_to_polygon(w, d, r, q, r.len() as int, INFINITY);
    rings_to_polygon(w, d, q, r, q.len() as int, first)
}

/// The distance of two parts.
pub open spec fn part_distance(w: PlaneView, d: Lengths, x: Shape<u64>, y: Shape<u64>) -> u64 {
    match (x, y) {
        (Shape::Point(p), Shape::Point(q)) => d(Measure::Points(p, q)),
        (Shape::Point(p), Shape::LineString(s)) => point_to_line(d, p, s),
        (Shape::LineString(s), Shape::Point(p)) => point_to_line(d, p, s),
        (Shape::Point(p), Shape::Polygon(r)) => point_to_polygon(w, d, p, r),
        (Shape::Polygon(r), Shape::Point(p)) => point_to_polygon(w, d, p, r),
        (Shape::LineString(s), Shape::LineString(t)) => line_to_line(d, s, t),
        (Shape::LineString(s), Shape::Polygon(r)) => line_to_polygon(w, d, s, r),
        (Shape::Polygon(r), Shape::LineString(s)) => line_to_polygon(w, d, s, r),
        (Shape::Polygon(r), Shape::Polygon(q)) => polygon_to_polygon(w, d, r, q),
        _ => INFINITY,
    }
}

/// The one that is less, or the first.
pub open spec fn lesser(a: u64, b: u64) -> u64 {
    if less(b, a) {
        b
    } else {
        a
    }
}

/// The smallest distance of a part from the first `n` others.
pub open spec fn part_to_parts(
    w: PlaneView,
    d: Lengths,
    x: Shape<u64>,
    t: Seq<Shape<u64>>,
    n: int,
    from: u64,
) -> u64
    decreases n,
{
    if n <= 0 {
        from
    } else {
        lesser(part_to_parts(w, d, x, t, n - 1, from), part_distance(w, d, x, t[n - 1]))
    }
}

/// The smallest distance of the first `n` parts from others.
pub open spec fn parts_to_parts(
    w: PlaneView,
    d: Lengths,
    s: Seq<Shape<u64>>,
    t: Seq<Shape<u64>>,
    n: int,
) -> u64
    decreases n,
{
    if n <= 0 {
        INFINITY
    } else {
        part_to_parts(w, d, s[n - 1], t, t.len() as int, parts_to_parts(w, d, s, t, n - 1))
    }
}

/// Whether a geometry is a point, a line or a polygon.
pub open spec fn is_part(g: Shape<u64>) -> bool {
    g is Point || g is LineString || g is Polygon
}

/// The distance of two geometries: 0 where they meet, and of those made of
/// several parts the smallest one between parts; no number where a coordinate
/// is not finite.
pub open spec fn shape_distance(w: PlaneView, d: Lengths, a: Shape<u64>, b: Shape<u64>) -> u64 {
    if !shape_valid(a) || !shape_valid(b) {
        NO_NUMBER
    } else if any_parts_meet(w, parts_of(a), parts_of(b)) {
        0
    } else if is_part(a) && is_part(b) {
        part_distance(w, d, a, b)
    } else {
        parts_to_parts(w, d, parts_of(a), parts_of(b), parts_of(a).len() as int)
    }
}

impl<D: Fn(Measure) -> u64> Ruler<D> {
    fn point_line_distance(&self, p: Coord, points: &Vec<Point<u64>>) -> (r: u64)
        requires
            self.steady(),
        ensures
            r == point_to_line(self@, p, points_view(points@)),
    {
        let ghost s = points_view(points@);
        if points.len() == 0 {
            return INFINITY;
        }
        if points.len() == 1 {
            assert(s[0] == point_view(points@[0]));
            return self.measured(Measure::Points(p, coord(&points[0])));
        }
        let mut min: u64 = INFINITY;
        let mut i: usize = 1;
        while i < points.len()
            invariant
                1 <= i <= points@.len(),
                self.steady(),
                s == points_view(points@),
                min == to_segments(self@, p, s, i - 1),
            decreases points@.len() - i,
        {
            let a: Coord = coord(&points[i - 1]);
            let b: Coord = coord(&points[i]);
            assert(s[i - 1] == a && s[i as int] == b);
            min = bits_smaller(min, self.measured(Measure::Segment(p, a, b)));
            i = i + 1;
        }
        min
    }

    fn points_line_distance(
        &self,
        a: &Vec<Point<u64>>,
        b: &Vec<Point<u64>>,
        from: u64,
    ) -> (r: u64)
        requires
            self.steady(),
        ensures
            r == points_to_line(
                self@,
                points_view(a@),
                points_view(b@),
                a@.len() as int,
                from,
            ),
    {
        let ghost s = points_view(a@);
        let mut min: u64 = from;
        let mut i: usize = 0;
        while i < a.len()
            invariant
                i <= a@.len(),
                self.steady(),
                s == points_view(a@),
                min == points_to_line(self@, s, points_view(b@), i as int, from),
            decreases a@.len() - i,
        {
            assert(s[i as int] == point_view(a@[i as int]));
            min = bits_smaller(min, self.point_line_distance(coord(&a[i]), b));
            i = i + 1;
        }
        min
    }

    fn line_line_distance(&self, a: &Vec<Point<u64>>, b: &Vec<Point<u64>>) -> (r: u64)
        requires
            self.steady(),
        ensures
            r == line_to_line(self@, points_view(a@), points_view(b@)),
    {
        if a.len() == 0 || b.len() == 0 {
            return INFINITY;
        }
        let first: u64 = self.points_line_distance(a, b, INFINITY);
        self.points_line_distance(b, a, first)
    }

    fn point_rings_distance(&self, p: Coord, poly: &Polygon<u64>) -> (r: u64)
        requires
            self.steady(),
        ensures
            r == point_to_rings(self@, p, rings_view(*poly), rings_view(*poly).len() as int),
    {
        let ghost rings = rings_view(*poly);
        assert(rings[0] == points_view(poly.exterior.points@));
        let mut min: u64 = bits_smaller(
            INFINITY,
            self.point_line_distance(p, &poly.exterior.points),
        );
        assert(point_to_rings(self@, p, rings, 0) == INFINITY);
        let mut k: usize = 0;
        while k < poly.interiors.len()
            invariant
                k <= poly.interiors@.len(),
                self.steady(),
                rings == rings_view(*poly),
                rings.len() == poly.interiors@.len() + 1,
                min == point_to_rings(self@, p, rings, k + 1),
            decreases poly.interiors@.len() - k,
        {
            assert(rings[k + 1] == lines_view(poly.interiors@)[k as int]);
            min = bits_smaller(min, self.point_line_distance(p, &poly.interiors[k].points));
            k = k + 1;
        }
        min
    }

    fn line_rings_distance(&self, a: &Vec<Point<u64>>, poly: &Polygon<u64>, from: u64) -> (r: u64)
        requires
            self.steady(),
        ensures
            r == line_to_rings(
                self@,
                points_view(a@),
                rings_view(*poly),
                rings_view(*poly).len() as int,
                from,
            ),
    {
        let ghost rings = rings_view(*poly);
        let ghost s = points_view(a@);
        assert(rings[0] == points_view(poly.exterior.points@));
        let mut min: u64 = bits_smaller(from, self.line_line_distance(a, &poly.exterior.points));
        assert(line_to_rings(self@, s, rings, 0, from) == from);
        let mut k: usize = 0;
        while k < poly.interiors.len()
            invariant
                k <= poly.interiors@.len(),
                self.steady(),
                s == points_view(a@),
                rings == rings_view(*poly),
                rings.len() == poly.interiors@.len() + 1,
                min == line_to_rings(self@, s, rings, k + 1, from),
            decreases poly.interiors@.len() - k,
        {
            assert(rings[k + 1] == lines_view(poly.interiors@)[k as int]);
            min = bits_smaller(min, self.line_line_distance(a, &poly.interiors[k].points));
            k = k + 1;
        }
        min
    }
}

fn point_polygon_distance<
    F: Fn(Question) -> u8,
    M: Fn(Coord, Coord) -> Coord,
    D: Fn(Measure) -> u64,
>(plane: &Plane<F, M>, ruler: &Ruler<D>, p: Coord, poly: &Polygon<u64>) -> (r: u64)
    requires
        plane.steady(),
        ruler.steady(),
    ensures
        r == point_to_polygon(plane@, ruler@, p, rings_view(*poly)),
{
    match plane.point_in_polygon(p, poly) {
        Loc::Outside => ruler.point_rings_distance(p, poly),
        _ => 0,
    }
}

fn points_polygon_distance<
    F: Fn(Question) -> u8,
    M: Fn(Coord, Coord) -> Coord,
    D: Fn(Measure) -> u64,
>(
    plane: &Plane<F, M>,
    ruler: &Ruler<D>,
    a: &Vec<Point<u64>>,
    poly: &Polygon<u64>,
    from: u64,
) -> (r: u64)
    requires
        plane.steady(),
        ruler.steady(),
    ensures
        r == points_to_polygon(
            plane@,
            ruler@,
            points_view(a@),
            rings_view(*poly),
            a@.len() as int,
            from,
        ),
{
    let ghost s = points_view(a@);
    let mut min: u64 = from;
    let mut i: usize = 0;
    while i < a.len()
        invariant
            i <= a@.len(),
            plane.steady(),
            ruler.steady(),
            s == points_view(a@),
            min == points_to_polygon(plane@, ruler@, s, rings_view(*poly), i as int, from),
        decreases a@.len() - i,
    {
        assert(s[i as int] == point_view(a@[i as int]));
        min = bits_smaller(min, point_polygon_distance(plane, ruler, coord(&a[i]), poly));
        i = i + 1;
    }
    min
}

fn line_polygon_distance<
    F: Fn(Question) -> u8,
    M: Fn(Coord, Coord) -> Coord,
    D: Fn(Measure) -> u64,
>(plane: &Plane<F, M>, ruler: &Ruler<D>, l: &LineString<u64>, poly: &Polygon<u64>) -> (r: u64)
    requires
        plane.steady(),
        ruler.steady(),
    ensures
        r == line_to_polygon(plane@, ruler@, points_view(l.points@), rings_view(*poly)),
{
    let first: u64 = points_polygon_distance(plane, ruler, &l.points, poly, INFINITY);
    ruler.line_rings_distance(&l.points, poly, first)
}

fn rings_polygon_distance<
    F: Fn(Question) -> u8,
    M: Fn(Coord, Coord) -> Coord,
    D: Fn(Measure) -> u64,
>(
    plane: &Plane<F, M>,
    ruler: &Ruler<D>,
    a: &Polygon<u64>,
    b: &Polygon<u64>,
    from: u64,
) -> (r: u64)
    requires
        plane.steady(),
        ruler.steady(),
    ensures
        r == rings_to_polygon(
            plane@,
            ruler@,
            rings_view(*a),
            rings_view(*b),
            rings_view(*a).len() as int,
            from,
        ),
{
    let ghost rings = rings_view(*a);
    let ghost q = rings_view(*b);
    assert(rings[0] == points_view(a.exterior.points@));
    assert(rings_to_polygon(plane@, ruler@, rings, q, 0, from) == from);
    let mut min: u64 = points_polygon_distance(plane, ruler, &a.exterior.points, b, from);
    let mut i: usize = 0;
    while i < a.interiors.len()
        invariant
            i <= a.interiors@.len(),
            plane.steady(),
            ruler.steady(),
            rings == rings_view(*a),
            q == rings_view(*b),
            rings.len() == a.interiors@.len() + 1,
            min == rings_to_polygon(plane@, ruler@, rings, q, i + 1, from),
        decreases a.interiors@.len() - i,
    {
        assert(rings[i + 1] == points_view(a.interiors@[i as int].points@));
        min = points_polygon_distance(plane, ruler, &a.interiors[i].points, b, min);
        i = i + 1;
    }
    min
}

fn polygon_polygon_distance<
    F: Fn(Question) -> u8,
    M: Fn(Coord, Coord) -> Coord,
    D: Fn(Measure) -> u64,
>(plane: &Plane<F, M>, ruler: &Ruler<D>, a: &Polygon<u64>, b: &Polygon<u64>) -> (r: u64)
    requires
        plane.steady(),
        ruler.steady(),
    ensures
        r == polygon_to_polygon(plane@, ruler@, rings_view(*a), rings_view(*b)),
{
    let first: u64 = rings_polygon_distance(plane, ruler, a, b, INFINITY);
    rings_polygon_distance(plane, ruler, b, a, first)
}

fn distance_of_parts<F: Fn(Question) -> u8, M: Fn(Coord, Coord) -> Coord, D: Fn(Measure) -> u64>(
    plane: &Plane<F, M>,
    ruler: &Ruler<D>,
    x: &Part,
    y: &Part,
) -> (r: u64)
    requires
        plane.steady(),
        ruler.steady(),
    ensures
        r == part_distance(plane@, ruler@, x@, y@),
{
    match (x, y) {
        (Part::Point(p), Part::Point(q)) => ruler.measured(Measure::Points(coord(p), coord(q))),
        (Part::Point(p), Part::Line(l)) => ruler.point_line_distance(coord(p), &l.points),
        (Part::Line(l), Part::Point(p)) => ruler.point_line_distance(coord(p), &l.points),
        (Part::Point(p), Part::Polygon(r)) => point_polygon_distance(plane, ruler, coord(p), r),
        (Part::Polygon(r), Part::Point(p)) => point_polygon_distance(plane, ruler, coord(p), r),
        (Part::Line(s), Part::Line(t)) => ruler.line_line_distance(&s.points, &t.points),
        (Part::Line(l), Part::Polygon(r)) => line_polygon_distance(plane, ruler, l, r),
        (Part::Polygon(r), Part::Line(l)) => line_polygon_distance(plane, ruler, l, r),
        (Part::Polygon(r), Part::Polygon(q)) => polygon_polygon_distance(plane, ruler, r, q),
    }
}

fn is_simple(g: &Geometry<u64>) -> (r: bool)
    ensures
        r == is_part(g@),
{
    match g {
        Geometry::Point(_) => true,
        Geometry::LineString(_) => true,
        Geometry::Polygon(_) => true,
        _ => false,
    }
}

/// The distance of two geometries.
pub fn distance<F: Fn(Question) -> u8, M: Fn(Coord, Coord) -> Coord, D: Fn(Measure) -> u64>(
    plane: &Plane<F, M>,
    ruler: &Ruler<D>,
    a: &Geometry<u64>,
    b: &Geometry<u64>,
) -> (r: u64)
    requires
        plane.steady(),
        ruler.steady(),
    ensures
        r == shape_distance(plane@, ruler@, a@, b@),
{
    if !a.is_valid() || !b.is_valid() {
        return NO_NUMBER;
    }
    let s: Vec<Part> = parts(a);
    let t: Vec<Part> = parts(b);
    let ghost x = part_views(s@);
    let ghost y = part_views(t@);
    if plane.some_parts_intersect(&s, &t) {
        return 0;
    }
    if is_simple(a) && is_simple(b) {
        assert(x.len() == 1 && y.len() == 1 && x[0] == a@ && y[0] == b@);
        assert(s@.len() == 1 && t@.len() == 1);
        assert(x[0] == s@[0]@);
        assert(y[0] == t@[0]@);
        return distance_of_parts(plane, ruler, &s[0], &t[0]);
    }
    let mut min: u64 = INFINITY;
    let mut i: usize = 0;
    while i < s.len()
        invariant
            i <= s@.len(),
            plane.steady(),
            ruler.steady(),
            x == part_views(s@),
            y == part_views(t@),
            min == parts_to_parts(plane@, ruler@, x, y, i as int),
        decreases s@.len() - i,
    {
        let ghost from = min;
        let mut j: usize = 0;
        while j < t.len()
            invariant
                j <= t@.len(),
                i < s@.len(),
                plane.steady(),
                ruler.steady(),
                x == part_views(s@),
                y == part_views(t@),
                min == part_to_parts(plane@, ruler@, x[i as int], y, j as int, from),
            decreases t@.len() - j,
        {
            assert(x[i as int] == s@[i as int]@ && y[j as int] == t@[j as int]@);
            let d: u64 = distance_of_parts(plane, ruler, &s[i], &t[j]);
            if bits_less(d, min) {
                min = d;
            }
            j = j + 1;
        }
        i = i + 1;
    }
    min
}

/// Geometries that meet are at no distance.
pub proof fn law_meeting_is_no_distance(w: PlaneView, d: Lengths, a: Shape<u64>, b: Shape<u64>)
    requires
        shapes_meet(w, a, b),
    ensures
        shape_distance(w, d, a, b) == 0,
{
}

} // verus!
