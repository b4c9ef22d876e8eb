//! Points, lines and rings in the plane, as far as they can be told from the
//! answers to a few questions that take arithmetic on coordinates.

use vstd::prelude::*;

use crate::floats::{bits_equal, bits_less, equal, less};
use crate::spatial::geometry::{
    lines_view, point_view, points_view, rings_view, LineString, Point, Polygon,
};

verus! {

/// The coordinates of a point.
pub type Coord = (u64, u64);

/// A question about points that takes arithmetic on their coordinates.
#[derive(Clone, Copy, Debug)]
pub enum Question {
    /// How the way from the first point over the second to the third turns: 0
    /// for straight on, 1 and 2 for the two sides.
    Turn(Coord, Coord, Coord),
    /// Whether the third point lies in the box of the first two: 1 or 0.
    Along(Coord, Coord, Coord),
    /// Whether two points are taken for one: 1 or 0.
    Same(Coord, Coord),
    /// Whether the line through the first two points passes the height of the
    /// third to the right of it: 1 or 0.
    Beyond(Coord, Coord, Coord),
    /// Whether the way from the first point over the second to the third does
    /// not turn left: 1 or 0.
    NotLeft(Coord, Coord, Coord),
}

/// Arithmetic on coordinates, as it is handed in.
pub struct Plane<F, M> {
    /// Answers questions.
    pub ask: F,
    /// The point half-way between two.
    pub middle: M,
}

/// Arithmetic on coordinates.
pub struct PlaneView {
    pub ask: spec_fn(Question) -> u8,
    pub middle: spec_fn(Coord, Coord) -> Coord,
}

impl<F: Fn(Question) -> u8, M: Fn(Coord, Coord) -> Coord> Plane<F, M> {
    /// Every question is answered, and always in the same way.
    pub open spec fn steady(&self) -> bool {
        &&& forall|q: Question| #[trigger] self.ask.requires((q,))
        &&& forall|q: Question, r: u8, s: u8|
            #[trigger] self.ask.ensures((q,), r) && #[trigger] self.ask.ensures((q,), s) ==> r == s
        &&& forall|a: Coord, b: Coord| #[trigger] self.middle.requires((a, b))
        &&& forall|a: Coord, b: Coord, r: Coord, s: Coord|
            #[trigger] self.middle.ensures((a, b), r) && #[trigger] self.middle.ensures((a, b), s)
                ==> r == s
    }

    /// The answer to a question.
    pub fn asked(&self, q: Question) -> (r: u8)
        requires
            self.steady(),
        ensures
            r == (self@.ask)(q),
    {
        (self.ask)(q)
    }

    fn halfway(&self, a: Coord, b: Coord) -> (r: Coord)
        requires
            self.steady(),
        ensures
            r == (self@.middle)(a, b),
    {
        (self.middle)(a, b)
    }
}

impl<F: Fn(Question) -> u8, M: Fn(Coord, Coord) -> Coord> View for Plane<F, M> {
    type V = PlaneView;

    open spec fn view(&self) -> PlaneView {
        PlaneView {
            ask: |q: Question| choose|r: u8| self.ask.ensures((q,), r),
            middle: |a: Coord, b: Coord| choose|r: Coord| self.middle.ensures((a, b), r),
        }
    }
}

/// Whether two points are taken for one.
pub open spec fn same(w: PlaneView, a: Coord, b: Coord) -> bool {
    (w.ask)(Question::Same(a, b)) == 1
}

/// Whether a point lies on a segment.
pub open spec fn on_segment(w: PlaneView, p: Coord, a: Coord, b: Coord) -> bool {
    (w.ask)(Question::Turn(a, b, p)) == 0 && (w.ask)(Question::Along(a, b, p)) == 1
}

/// Whether a point lies on a line.
pub open spec fn on_line(w: PlaneView, p: Coord, s: Seq<Coord>) -> bool {
    exists|k: int| 0 <= k < s.len() - 1 && on_segment(w, p, #[trigger] s[k], s[k + 1])
}

/// Where a point lies to a ring or a polygon.
#[derive(Copy, Clone, Debug, PartialEq, Eq, Structural)]
pub enum Loc {
    Outside,
    Boundary,
    Inside,
}

/// The point that follows another in a ring.
pub open spec fn after(s: Seq<Coord>, k: int) -> Coord {
    if k + 1 < s.len() {
        s[k + 1]
    } else {
        s[0]
    }
}

/// How many edges a ring has: its last point need not repeat the first.
pub open spec fn edge_count(s: Seq<Coord>) -> int {
    if equal(s[0].0, s[s.len() - 1].0) && equal(s[0].1, s[s.len() - 1].1) {
        s.len() - 1
    } else {
        s.len() as int
    }
}

/// Whether a point lies on an edge of a ring.
pub open spec fn on_ring(w: PlaneView, p: Coord, s: Seq<Coord>) -> bool {
    exists|k: int| 0 <= k < edge_count(s) && on_segment(w, p, #[trigger] s[k], after(s, k))
}

/// Whether an edge passes the height of a point to the right of it.
pub open spec fn passes(w: PlaneView, p: Coord, a: Coord, b: Coord) -> bool {
    less(p.1, a.1) != less(p.1, b.1) && (w.ask)(Question::Beyond(a, b, p)) == 1
}

/// Whether an odd number of the first `n` edges pass to the right of a point.
pub open spec fn odd_passes(w: PlaneView, p: Coord, s: Seq<Coord>, n: int) -> bool
    decreases n,
{
    if n <= 0 {
        false
    } else {
        odd_passes(w, p, s, n - 1) != passes(w, p, s[n - 1], after(s, n - 1))
    }
}

/// Where a point lies to a ring.
pub open spec fn ring_loc(w: PlaneView, p: Coord, s: Seq<Coord>) -> Loc {
    if s.len() == 0 {
        Loc::Outside
    } else if s.len() == 1 {
        if same(w, p, s[0]) {
            Loc::Boundary
        } else {
            Loc::Outside
        }
    } else if s.len() == 2 {
        if on_segment(w, p, s[0], s[1]) {
            Loc::Boundary
        } else {
            Loc::Outside
        }
    } else if on_ring(w, p, s) {
        Loc::Boundary
    } else if odd_passes(w, p, s, edge_count(s)) {
        Loc::Inside
    } else {
        Loc::Outside
    }
}

/// Where a point lies that is inside the outer ring, from the holes from `k`
/// on: the first hole that it is on or in decides.
pub open spec fn hole_loc(w: PlaneView, p: Coord, rings: Seq<Seq<Coord>>, k: int) -> Loc
    decreases rings.len() - k,
{
    if !(0 <= k < rings.len()) {
        Loc::Inside
    } else {
        match ring_loc(w, p, rings[k]) {
            Loc::Boundary => Loc::Boundary,
            Loc::Inside => Loc::Outside,
            Loc::Outside => hole_loc(w, p, rings, k + 1),
        }
    }
}

/// Where a point lies to a polygon: the outer ring, then the holes.
#[verifier::opaque]
pub open spec fn polygon_loc(w: PlaneView, p: Coord, rings: Seq<Seq<Coord>>) -> Loc {
    if rings.len() == 0 {
        Loc::Outside
    } else {
        match ring_loc(w, p, rings[0]) {
            Loc::Inside => hole_loc(w, p, rings, 1),
            other => other,
        }
    }
}

/// Whether two segments have a point in common.
#[verifier::opaque]
pub open spec fn segments_meet(w: PlaneView, a: Coord, b: Coord, c: Coord, d: Coord) -> bool {
    let o1 = (w.ask)(Question::Turn(a, b, c));
    let o2 = (w.ask)(Question::Turn(a, b, d));
    let o3 = (w.ask)(Question::Turn(c, d, a));
    let o4 = (w.ask)(Question::Turn(c, d, b));
    ||| o1 != o2 && o3 != o4
    ||| o1 == 0 && (w.ask)(Question::Along(a, b, c)) == 1
    ||| o2 == 0 && (w.ask)(Question::Along(a, b, d)) == 1
    ||| o3 == 0 && (w.ask)(Question::Along(c, d, a)) == 1
    ||| o4 == 0 && (w.ask)(Question::Along(c, d, b)) == 1
}

/// Whether a segment meets a line.
pub open spec fn segment_meets_line(w: PlaneView, a: Coord, b: Coord, t: Seq<Coord>) -> bool {
    exists|k: int| 0 <= k < t.len() - 1 && segments_meet(w, a, b, #[trigger] t[k], t[k + 1])
}

/// Whether two lines meet.
pub open spec fn lines_meet(w: PlaneView, s: Seq<Coord>, t: Seq<Coord>) -> bool {
    exists|k: int| 0 <= k < s.len() - 1 && segment_meets_line(w, #[trigger] s[k], s[k + 1], t)
}

/// Whether a line meets one of some lines.
pub open spec fn meets_any(w: PlaneView, s: Seq<Coord>, lines: Seq<Seq<Coord>>) -> bool {
    exists|k: int| 0 <= k < lines.len() && lines_meet(w, s, #[trigger] lines[k])
}

/// Whether one of some lines meets one of others.
pub open spec fn any_meets_any(w: PlaneView, a: Seq<Seq<Coord>>, b: Seq<Seq<Coord>>) -> bool {
    exists|k: int| 0 <= k < a.len() && meets_any(w, #[trigger] a[k], b)
}

/// Whether one of the points lies there.
pub open spec fn any_at(w: PlaneView, s: Seq<Coord>, rings: Seq<Seq<Coord>>, at: Loc) -> bool {
    exists|k: int| 0 <= k < s.len() && polygon_loc(w, #[trigger] s[k], rings) == at
}

/// Whether all of the points lie there.
pub open spec fn all_at(w: PlaneView, s: Seq<Coord>, rings: Seq<Seq<Coord>>, at: Loc) -> bool {
    forall|k: int| 0 <= k < s.len() ==> polygon_loc(w, #[trigger] s[k], rings) == at
}

/// Whether the middle of a segment lies there.
#[verifier::opaque]
pub open spec fn middle_at(
    w: PlaneView,
    a: Coord,
    b: Coord,
    rings: Seq<Seq<Coord>>,
    at: Loc,
) -> bool {
    polygon_loc(w, (w.middle)(a, b), rings) == at
}

/// Whether the middle of a segment of the line lies there.
pub open spec fn any_middle_at(
    w: PlaneView,
    s: Seq<Coord>,
    rings: Seq<Seq<Coord>>,
    at: Loc,
) -> bool {
    exists|k: int| 0 <= k < s.len() - 1 && middle_at(w, #[trigger] s[k], s[k + 1], rings, at)
}

/// Whether one of the rings has the middle of a segment there.
pub open spec fn any_ring_middle_at(
    w: PlaneView,
    a: Seq<Seq<Coord>>,
    rings: Seq<Seq<Coord>>,
    at: Loc,
) -> bool {
    exists|k: int| 0 <= k < a.len() && any_middle_at(w, #[trigger] a[k], rings, at)
}

/// Whether two segments lie on one straight line and overlap.
#[verifier::opaque]
pub open spec fn segments_overlap(w: PlaneView, a: Coord, b: Coord, c: Coord, d: Coord) -> bool {
    &&& (w.ask)(Question::Turn(a, b, c)) == 0
    &&& (w.ask)(Question::Turn(a, b, d)) == 0
    &&& (w.ask)(Question::Along(a, b, c)) == 1 || (w.ask)(Question::Along(a, b, d)) == 1 || (
    w.ask)(Question::Along(c, d, a)) == 1 || (w.ask)(Question::Along(c, d, b)) == 1
}

/// Whether a segment overlaps with one of the line.
pub open spec fn segment_overlaps_line(w: PlaneView, a: Coord, b: Coord, t: Seq<Coord>) -> bool {
    exists|k: int| 0 <= k < t.len() - 1 && segments_overlap(w, a, b, #[trigger] t[k], t[k + 1])
}

/// Whether two lines have overlapping segments.
pub open spec fn lines_overlap(w: PlaneView, s: Seq<Coord>, t: Seq<Coord>) -> bool {
    exists|k: int| 0 <= k < s.len() - 1 && segment_overlaps_line(w, #[trigger] s[k], s[k + 1], t)
}

/// Whether two lines have the same points in the same order.
pub open spec fn same_forward(w: PlaneView, s: Seq<Coord>, t: Seq<Coord>) -> bool {
    forall|k: int| 0 <= k < s.len() ==> same(w, #[trigger] s[k], t[k])
}

/// Whether two lines have the same points in opposite order.
pub open spec fn same_backward(w: PlaneView, s: Seq<Coord>, t: Seq<Coord>) -> bool {
    forall|k: int| 0 <= k < s.len() ==> same(w, #[trigger] s[k], t[t.len() - 1 - k])
}

/// Whether two lines are the same, in either direction.
pub open spec fn same_path(w: PlaneView, s: Seq<Coord>, t: Seq<Coord>) -> bool {
    s.len() == t.len() && (same_forward(w, s, t) || same_backward(w, s, t))
}

/// Whether one of the lines from `from` on is the given one.
pub open spec fn path_among(w: PlaneView, s: Seq<Coord>, t: Seq<Seq<Coord>>, from: int) -> bool {
    exists|j: int| from <= j < t.len() && same_path(w, s, #[trigger] t[j])
}

/// Whether two polygons have the same outer ring, equally many holes, and each
/// hole of the first is one of the second.
pub open spec fn same_polygon(w: PlaneView, a: Seq<Seq<Coord>>, b: Seq<Seq<Coord>>) -> bool {
    &&& a.len() == b.len()
    &&& a.len() > 0 ==> same_path(w, a[0], b[0])
    &&& forall|k: int| 1 <= k < a.len() ==> path_among(w, #[trigger] a[k], b, 1)
}

/// The coordinates of a point.
pub fn coord(p: &Point<u64>) -> (r: Coord)
    ensures
        r == point_view(*p),
{
    (p.x, p.y)
}

impl<F: Fn(Question) -> u8, M: Fn(Coord, Coord) -> Coord> Plane<F, M> {
    /// Whether two points are taken for one.
    pub fn same_point(&self, a: &Point<u64>, b: &Point<u64>) -> (r: bool)
        requires
            self.steady(),
        ensures
            r == same(self@, point_view(*a), point_view(*b)),
    {
        self.asked(Question::Same(coord(a), coord(b))) == 1
    }

    pub(crate) fn on_segment(&self, p: Coord, a: &Point<u64>, b: &Point<u64>) -> (r: bool)
        requires
            self.steady(),
        ensures
            r == on_segment(self@, p, point_view(*a), point_view(*b)),
    {
        self.asked(Question::Turn(coord(a), coord(b), p)) == 0 && self.asked(
            Question::Along(coord(a), coord(b), p),
        ) == 1
    }

    /// Whether a point lies on a line.
    pub fn point_on_line(&self, p: &Point<u64>, points: &Vec<Point<u64>>) -> (r: bool)
        requires
            self.steady(),
        ensures
            r == on_line(self@, point_view(*p), points_view(points@)),
    {
        let ghost s = points_view(points@);
        let mut i: usize = 1;
        while i < points.len()
            invariant
                i >= 1,
                self.steady(),
                s == points_view(points@),
                forall|k: int|
                    0 <= k < i - 1 && k < s.len() - 1 ==> !on_segment(
                        self@,
                        point_view(*p),
                        #[trigger] s[k],
                        s[k + 1],
                    ),
            decreases points@.len() - i,
        {
            assert(s[i - 1] == point_view(points@[i - 1]) && s[i as int] == point_view(
                points@[i as int],
            ));
            if self.on_segment(coord(p), &points[i - 1], &points[i]) {
                return true;
            }
            i = i + 1;
        }
        false
    }

    fn point_in_ring(&self, p: Coord, points: &Vec<Point<u64>>) -> (r: Loc)
        requires
            self.steady(),
        ensures
            r == ring_loc(self@, p, points_view(points@)),
    {
        let ghost s = points_view(points@);
        let n: usize = points.len();
        if n == 0 {
            return Loc::Outside;
        }
        assert(s[0] == point_view(points@[0]));
        assert(s[n - 1] == point_view(points@[n - 1]));
        if n == 1 {
            return if self.asked(Question::Same(p, coord(&points[0]))) == 1 {
                Loc::Boundary
            } else {
                Loc::Outside
            };
        }
        if n == 2 {
            return if self.on_segment(p, &points[0], &points[1]) {
                Loc::Boundary
            } else {
                Loc::Outside
            };
        }
        let closed: bool = bits_equal(points[0].x, points[n - 1].x) && bits_equal(
            points[0].y,
            points[n - 1].y,
        );
        let edges: usize = if closed {
            n - 1
        } else {
            n
        };
        let mut i: usize = 0;
        while i < edges
            invariant
                i <= edges,
                edges <= n,
                n == points@.len(),
                n >= 3,
                edges == edge_count(s),
                s == points_view(points@),
                self.steady(),
                forall|k: int|
                    0 <= k < i ==> !on_segment(self@, p, #[trigger] s[k], after(s, k)),
            decreases edges - i,
        {
            let j: usize = if i + 1 < n {
                i + 1
            } else {
                0
            };
            assert(s[i as int] == point_view(points@[i as int]) && after(s, i as int)
                == point_view(points@[j as int]));
            if self.on_segment(p, &points[i], &points[j]) {
                return Loc::Boundary;
            }
            i = i + 1;
        }
        let mut inside: bool = false;
        let mut i: usize = 0;
        while i < edges
            invariant
                i <= edges,
                edges <= n,
                n == points@.len(),
                n >= 3,
                s == points_view(points@),
                self.steady(),
                inside == odd_passes(self@, p, s, i as int),
            decreases edges - i,
        {
            let j: usize = if i + 1 < n {
                i + 1
            } else {
                0
            };
            let a: Coord = coord(&points[i]);
            let b: Coord = coord(&points[j]);
            assert(s[i as int] == a && after(s, i as int) == b);
            if bits_less(p.1, a.1) != bits_less(p.1, b.1) && self.asked(Question::Beyond(a, b, p))
                == 1 {
                inside = !inside;
            }
            i = i + 1;
        }
        if inside {
            Loc::Inside
        } else {
            Loc::Outside
        }
    }

    /// Where a point lies to a polygon.
    pub fn point_in_polygon(&self, p: Coord, poly: &Polygon<u64>) -> (r: Loc)
        requires
            self.steady(),
        ensures
            r == polygon_loc(self@, p, rings_view(*poly)),
    {
        proof {
            reveal(polygon_loc);
        }
        let ghost rings = rings_view(*poly);
        assert(rings[0] == points_view(poly.exterior.points@));
        match self.point_in_ring(p, &poly.exterior.points) {
            Loc::Boundary => {
                return Loc::Boundary;
            },
            Loc::Outside => {
                return Loc::Outside;
            },
            Loc::Inside => {},
        }
        let mut k: usize = 0;
        while k < poly.interiors.len()
            invariant
                k <= poly.interiors@.len(),
                self.steady(),
                rings == rings_view(*poly),
                rings.len() == poly.interiors@.len() + 1,
                polygon_loc(self@, p, rings) == hole_loc(self@, p, rings, k + 1),
            decreases poly.interiors@.len() - k,
        {
            assert(rings[k + 1] == lines_view(poly.interiors@)[k as int]);
            match self.point_in_ring(p, &poly.interiors[k].points) {
                Loc::Boundary => {
                    return Loc::Boundary;
                },
                Loc::Inside => {
                    return Loc::Outside;
                },
                Loc::Outside => {},
            }
            k = k + 1;
        }
        Loc::Inside
    }

    fn segments_intersect(&self, a: Coord, b: Coord, c: Coord, d: Coord) -> (r: bool)
        requires
            self.steady(),
        ensures
            r == segments_meet(self@, a, b, c, d),
    {
        proof {
            reveal(segments_meet);
        }
        let o1: u8 = self.asked(Question::Turn(a, b, c));
        let o2: u8 = self.asked(Question::Turn(a, b, d));
        let o3: u8 = self.asked(Question::Turn(c, d, a));
        let o4: u8 = self.asked(Question::Turn(c, d, b));
        if o1 != o2 && o3 != o4 {
            return true;
        }
        if o1 == 0 && self.asked(Question::Along(a, b, c)) == 1 {
            return true;
        }
        if o2 == 0 && self.asked(Question::Along(a, b, d)) == 1 {
            return true;
        }
        if o3 == 0 && self.asked(Question::Along(c, d, a)) == 1 {
            return true;
        }
        o4 == 0 && self.asked(Question::Along(c, d, b)) == 1
    }

    fn segment_intersects(&self, a: Coord, b: Coord, points: &Vec<Point<u64>>) -> (r: bool)
        requires
            self.steady(),
        ensures
            r == segment_meets_line(self@, a, b, points_view(points@)),
    {
        let ghost t = points_view(points@);
        let mut i: usize = 1;
        while i < points.len()
            invariant
                i >= 1,
                self.steady(),
                t == points_view(points@),
                forall|k: int|
                    0 <= k < i - 1 && k < t.len() - 1 ==> !segments_meet(
                        self@,
                        a,
                        b,
                        #[trigger] t[k],
                        t[k + 1],
                    ),
            decreases points@.len() - i,
        {
            assert(t[i - 1] == point_view(points@[i - 1]) && t[i as int] == point_view(
                points@[i as int],
            ));
            if self.segments_intersect(a, b, coord(&points[i - 1]), coord(&points[i])) {
                return true;
            }
            i = i + 1;
        }
        false
    }

    /// Whether two lines meet.
    pub fn lines_intersect(&self, a: &Vec<Point<u64>>, b: &Vec<Point<u64>>) -> (r: bool)
        requires
            self.steady(),
        ensures
            r == lines_meet(self@, points_view(a@), points_view(b@)),
    {
        let ghost s = points_view(a@);
        let ghost t = points_view(b@);
        let mut i: usize = 1;
        while i < a.len()
            invariant
                i >= 1,
                self.steady(),
                s == points_view(a@),
                t == points_view(b@),
                forall|k: int|
                    0 <= k < i - 1 && k < s.len() - 1 ==> !segment_meets_line(
                        self@,
                        #[trigger] s[k],
                        s[k + 1],
                        t,
                    ),
            decreases a@.len() - i,
        {
            assert(s[i - 1] == point_view(a@[i - 1]) && s[i as int] == point_view(a@[i as int]));
            if self.segment_intersects(coord(&a[i - 1]), coord(&a[i]), b) {
                return true;
            }
            i = i + 1;
        }
        false
    }

    /// Whether a line meets a ring of a polygon.
    pub fn line_meets_rings(&self, a: &Vec<Point<u64>>, poly: &Polygon<u64>) -> (r: bool)
        requires
            self.steady(),
        ensures
            r == meets_any(self@, points_view(a@), rings_view(*poly)),
    {
        let ghost rings = rings_view(*poly);
        let ghost s = points_view(a@);
        assert(rings[0] == points_view(poly.exterior.points@));
        if self.lines_intersect(a, &poly.exterior.points) {
            return true;
        }
        let mut k: usize = 0;
        while k < poly.interiors.len()
            invariant
                k <= poly.interiors@.len(),
                self.steady(),
                s == points_view(a@),
                rings == rings_view(*poly),
                rings.len() == poly.interiors@.len() + 1,
                forall|j: int| 0 <= j <= k ==> !lines_meet(self@, s, #[trigger] rings[j]),
            decreases poly.interiors@.len() - k,
        {
            assert(rings[k + 1] == lines_view(poly.interiors@)[k as int]);
            if self.lines_intersect(a, &poly.interiors[k].points) {
                assert(lines_meet(self@, s, rings[k + 1]));
                return true;
            }
            k = k + 1;
        }
        false
    }

    /// Whether a ring of a polygon meets a ring of another.
    pub fn rings_meet(&self, a: &Polygon<u64>, b: &Polygon<u64>) -> (r: bool)
        requires
            self.steady(),
        ensures
            r == any_meets_any(self@, rings_view(*a), rings_view(*b)),
    {
        let ghost rings = rings_view(*a);
        let ghost others = rings_view(*b);
        assert(rings[0] == points_view(a.exterior.points@));
        if self.line_meets_rings(&a.exterior.points, b) {
            return true;
        }
        let mut k: usize = 0;
        while k < a.interiors.len()
            invariant
                k <= a.interiors@.len(),
                self.steady(),
                others == rings_view(*b),
                rings == rings_view(*a),
                rings.len() == a.interiors@.len() + 1,
                forall|j: int| 0 <= j <= k ==> !meets_any(self@, #[trigger] rings[j], others),
            decreases a.interiors@.len() - k,
        {
            assert(rings[k + 1] == lines_view(a.interiors@)[k as int]);
            if self.line_meets_rings(&a.interiors[k].points, b) {
                assert(meets_any(self@, rings[k + 1], others));
                return true;
            }
            k = k + 1;
        }
        false
    }

    /// Whether one of the points lies there.
    pub fn some_point_at(&self, a: &Vec<Point<u64>>, poly: &Polygon<u64>, at: Loc) -> (r: bool)
        requires
            self.steady(),
        ensures
            r == any_at(self@, points_view(a@), rings_view(*poly), at),
    {
        let ghost s = points_view(a@);
        let mut i: usize = 0;
        while i < a.len()
            invariant
                i <= a@.len(),
                self.steady(),
                s == points_view(a@),
                forall|k: int|
                    0 <= k < i ==> polygon_loc(self@, #[trigger] s[k], rings_view(*poly)) != at,
            decreases a@.len() - i,
        {
            assert(s[i as int] == point_view(a@[i as int]));
            if self.point_in_polygon(coord(&a[i]), poly) == at {
                return true;
            }
            i = i + 1;
        }
        false
    }

    /// Whether all of the points lie there.
    pub fn every_point_at(&self, a: &Vec<Point<u64>>, poly: &Polygon<u64>, at: Loc) -> (r: bool)
        requires
            self.steady(),
        ensures
            r == all_at(self@, points_view(a@), rings_view(*poly), at),
    {
        let ghost s = points_view(a@);
        let mut i: usize = 0;
        while i < a.len()
            invariant
                i <= a@.len(),
                self.steady(),
                s == points_view(a@),
                forall|k: int|
                    0 <= k < i ==> polygon_loc(self@, #[trigger] s[k], rings_view(*poly)) == at,
            decreases a@.len() - i,
        {
            assert(s[i as int] == point_view(a@[i as int]));
            if self.point_in_polygon(coord(&a[i]), poly) != at {
                return false;
            }
            i = i + 1;
        }
        true
    }

    fn middle_is_at(
        &self,
        a: &Point<u64>,
        b: &Point<u64>,
        poly: &Polygon<u64>,
        at: Loc,
    ) -> (r: bool)
        requires
            self.steady(),
        ensures
            r == middle_at(self@, point_view(*a), point_view(*b), rings_view(*poly), at),
    {
        proof {
            reveal(middle_at);
        }
        let m: Coord = self.halfway(coord(a), coord(b));
        self.point_in_polygon(m, poly) == at
    }

    /// Whether the middle of a segment of the line lies there.
    pub fn some_middle_at(&self, a: &Vec<Point<u64>>, poly: &Polygon<u64>, at: Loc) -> (r: bool)
        requires
            self.steady(),
        ensures
            r == any_middle_at(self@, points_view(a@), rings_view(*poly), at),
    {
        let ghost s = points_view(a@);
        let mut i: usize = 1;
        while i < a.len()
            invariant
                i >= 1,
                self.steady(),
                s == points_view(a@),
                forall|k: int|
                    0 <= k < i - 1 && k < s.len() - 1 ==> !middle_at(
                        self@,
                        #[trigger] s[k],
                        s[k + 1],
                        rings_view(*poly),
                        at,
                    ),
            decreases a@.len() - i,
        {
            assert(s[i - 1] == point_view(a@[i - 1]) && s[i as int] == point_view(a@[i as int]));
            if self.middle_is_at(&a[i - 1], &a[i], poly, at) {
                return true;
            }
            i = i + 1;
        }
        false
    }

    /// Whether a ring of the first polygon has the middle of a segment there.
    pub fn some_ring_middle_at(&self, a: &Polygon<u64>, poly: &Polygon<u64>, at: Loc) -> (r: bool)
        requires
            self.steady(),
        ensures
            r == any_ring_middle_at(self@, rings_view(*a), rings_view(*poly), at),
    {
        let ghost rings = rings_view(*a);
        let ghost others = rings_view(*poly);
        assert(rings[0] == points_view(a.exterior.points@));
        if self.some_middle_at(&a.exterior.points, poly, at) {
            return true;
        }
        let mut k: usize = 0;
        while k < a.interiors.len()
            invariant
                k <= a.interiors@.len(),
                self.steady(),
                others == rings_view(*poly),
                rings == rings_view(*a),
                rings.len() == a.interiors@.len() + 1,
                forall|j: int|
                    0 <= j <= k ==> !any_middle_at(self@, #[trigger] rings[j], others, at),
            decreases a.interiors@.len() - k,
        {
            assert(rings[k + 1] == lines_view(a.interiors@)[k as int]);
            if self.some_middle_at(&a.interiors[k].points, poly, at) {
                assert(any_middle_at(self@, rings[k + 1], others, at));
                return true;
            }
            k = k + 1;
        }
        false
    }

    fn segments_share(&self, a: Coord, b: Coord, c: Coord, d: Coord) -> (r: bool)
        requires
            self.steady(),
        ensures
            r == segments_overlap(self@, a, b, c, d),
    {
        proof {
            reveal(segments_overlap);
        }
        self.asked(Question::Turn(a, b, c)) == 0 && self.asked(Question::Turn(a, b, d)) == 0 && (
        self.asked(Question::Along(a, b, c)) == 1 || self.asked(Question::Along(a, b, d)) == 1
            || self.asked(Question::Along(c, d, a)) == 1 || self.asked(Question::Along(c, d, b))
            == 1)
    }

    fn segment_shares(&self, a: Coord, b: Coord, points: &Vec<Point<u64>>) -> (r: bool)
        requires
            self.steady(),
        ensures
            r == segment_overlaps_line(self@, a, b, points_view(points@)),
    {
        let ghost t = points_view(points@);
        let mut i: usize = 1;
        while i < points.len()
            invariant
                i >= 1,
                self.steady(),
                t == points_view(points@),
                forall|k: int|
                    0 <= k < i - 1 && k < t.len() - 1 ==> !segments_overlap(
                        self@,
                        a,
                        b,
                        #[trigger] t[k],
                        t[k + 1],
                    ),
            decreases points@.len() - i,
        {
            assert(t[i - 1] == point_view(points@[i - 1]) && t[i as int] == point_view(
                points@[i as int],
            ));
            if self.segments_share(a, b, coord(&points[i - 1]), coord(&points[i])) {
                return true;
            }
            i = i + 1;
        }
        false
    }

    /// Whether two lines have overlapping segments.
    pub fn lines_share(&self, a: &Vec<Point<u64>>, b: &Vec<Point<u64>>) -> (r: bool)
        requires
            self.steady(),
        ensures
            r == lines_overlap(self@, points_view(a@), points_view(b@)),
    {
        let ghost s = points_view(a@);
        let ghost t = points_view(b@);
        let mut i: usize = 1;
        while i < a.len()
            invariant
                i >= 1,
                self.steady(),
                s == points_view(a@),
                t == points_view(b@),
                forall|k: int|
                    0 <= k < i - 1 && k < s.len() - 1 ==> !segment_overlaps_line(
                        self@,
                        #[trigger] s[k],
                        s[k + 1],
                        t,
                    ),
            decreases a@.len() - i,
        {
            assert(s[i - 1] == point_view(a@[i - 1]) && s[i as int] == point_view(a@[i as int]));
            if self.segment_shares(coord(&a[i - 1]), coord(&a[i]), b) {
                return true;
            }
            i = i + 1;
        }
        false
    }

    /// Whether two lines are the same, in either direction.
    pub fn same_line(&self, a: &Vec<Point<u64>>, b: &Vec<Point<u64>>) -> (r: bool)
        requires
            self.steady(),
        ensures
            r == same_path(self@, points_view(a@), points_view(b@)),
    {
        let ghost s = points_view(a@);
        let ghost t = points_view(b@);
        let n: usize = a.len();
        if n != b.len() {
            return false;
        }
        let mut forward: bool = true;
        let mut i: usize = 0;
        while i < n && forward
            invariant
                i <= n,
                n == a@.len(),
                n == b@.len(),
                self.steady(),
                s == points_view(a@),
                t == points_view(b@),
                forward ==> forall|k: int| 0 <= k < i ==> same(self@, #[trigger] s[k], t[k]),
                !forward ==> !same_forward(self@, s, t),
            decreases n - i,
        {
            assert(s[i as int] == point_view(a@[i as int]));
            assert(t[i as int] == point_view(b@[i as int]));
            forward = self.same_point(&a[i], &b[i]);
            i = i + 1;
        }
        if forward {
            return true;
        }
        let mut j: usize = 0;
        while j < n
            invariant
                j <= n,
                n == a@.len(),
                n == b@.len(),
                self.steady(),
                s == points_view(a@),
                t == points_view(b@),
                !same_forward(self@, s, t),
                forall|k: int|
                    0 <= k < j ==> same(self@, #[trigger] s[k], t[t.len() - 1 - k]),
            decreases n - j,
        {
            assert(s[j as int] == point_view(a@[j as int]));
            assert(t[n - 1 - j] == point_view(b@[n - 1 - j]));
            if !self.same_point(&a[j], &b[n - 1 - j]) {
                return false;
            }
            j = j + 1;
        }
        true
    }

    /// Whether a line is among others.
    pub fn line_among(&self, a: &Vec<Point<u64>>, lines: &Vec<LineString<u64>>) -> (r: bool)
        requires
            self.steady(),
        ensures
            r == path_among(self@, points_view(a@), lines_view(lines@), 0),
    {
        let ghost s = points_view(a@);
        let ghost t = lines_view(lines@);
        let mut j: usize = 0;
        while j < lines.len()
            invariant
                j <= lines@.len(),
                self.steady(),
                s == points_view(a@),
                t == lines_view(lines@),
                forall|k: int| 0 <= k < j ==> !same_path(self@, s, #[trigger] t[k]),
            decreases lines@.len() - j,
        {
            assert(t[j as int] == points_view(lines@[j as int].points@));
            if self.same_line(a, &lines[j].points) {
                return true;
            }
            j = j + 1;
        }
        false
    }

    /// Whether two polygons are the same.
    pub fn same_polygons(&self, a: &Polygon<u64>, b: &Polygon<u64>) -> (r: bool)
        requires
            self.steady(),
        ensures
            r == same_polygon(self@, rings_view(*a), rings_view(*b)),
    {
        let ghost x = rings_view(*a);
        let ghost y = rings_view(*b);
        assert(x[0] == points_view(a.exterior.points@));
        assert(y[0] == points_view(b.exterior.points@));
        if a.interiors.len() != b.interiors.len() {
            return false;
        }
        if !self.same_line(&a.exterior.points, &b.exterior.points) {
            return false;
        }
        let mut k: usize = 0;
        while k < a.interiors.len()
            invariant
                k <= a.interiors@.len(),
                self.steady(),
                x == rings_view(*a),
                y == rings_view(*b),
                x.len() == a.interiors@.len() + 1,
                y.len() == b.interiors@.len() + 1,
                forall|j: int| 1 <= j <= k ==> path_among(self@, #[trigger] x[j], y, 1),
            decreases a.interiors@.len() - k,
        {
            let ghost holes = lines_view(b.interiors@);
            assert(x[k + 1] == points_view(a.interiors@[k as int].points@)) by {
                assert(x[k + 1] == lines_view(a.interiors@)[k as int]);
            }
            let found: bool = self.line_among(&a.interiors[k].points, &b.interiors);
            assert(found == path_among(self@, x[k + 1], y, 1)) by {
                if found {
                    let j = choose|j: int|
                        0 <= j < holes.len() && same_path(self@, x[k + 1], #[trigger] holes[j]);
                    assert(y[j + 1] == holes[j]);
                }
                if path_among(self@, x[k + 1], y, 1) {
                    let j = choose|j: int|
                        1 <= j < y.len() && same_path(self@, x[k + 1], #[trigger] y[j]);
                    assert(holes[j - 1] == y[j]);
                }
            }
            if !found {
                return false;
            }
            k = k + 1;
        }
        true
    }
}

} // verus!
