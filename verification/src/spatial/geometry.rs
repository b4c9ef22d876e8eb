//! OGC Simple Features geometries.
//!
//! Coordinates are of any type: bits of floating-point numbers where they are
//! compared or stored, texts of numbers where they are written or read.

use vstd::prelude::*;

use crate::floats::{
    at_most, bits_at_most, bits_equal, bits_larger, bits_less, bits_smaller, equal, finite_bits,
    is_finite, is_nan, larger, less, smaller,
};

verus! {

/// A point.
#[derive(Copy, Clone, Debug, PartialEq, Eq)]
pub struct Point<C> {
    pub x: C,
    pub y: C,
}

/// A row of points.
#[derive(Clone, Debug, PartialEq, Eq)]
pub struct LineString<C> {
    pub points: Vec<Point<C>>,
}

/// An outer ring and the rings of holes.
#[derive(Clone, Debug, PartialEq, Eq)]
pub struct Polygon<C> {
    pub exterior: LineString<C>,
    pub interiors: Vec<LineString<C>>,
}

/// Points.
#[derive(Clone, Debug, PartialEq, Eq)]
pub struct MultiPoint<C> {
    pub points: Vec<Point<C>>,
}

/// Line strings.
#[derive(Clone, Debug, PartialEq, Eq)]
pub struct MultiLineString<C> {
    pub linestrings: Vec<LineString<C>>,
}

/// Polygons.
#[derive(Clone, Debug, PartialEq, Eq)]
pub struct MultiPolygon<C> {
    pub polygons: Vec<Polygon<C>>,
}

/// A geometry of any kind.
#[derive(Debug, PartialEq, Eq)]
pub enum Geometry<C> {
    Point(Point<C>),
    LineString(LineString<C>),
    Polygon(Polygon<C>),
    MultiPoint(MultiPoint<C>),
    MultiLineString(MultiLineString<C>),
    MultiPolygon(MultiPolygon<C>),
    GeometryCollection(Vec<Geometry<C>>),
}

/// The mathematical value of a [`Geometry`]. A polygon is the list of its rings,
/// the outer one first.
#[verifier::reject_recursive_types(T)]
pub enum Shape<T> {
    Point((T, T)),
    LineString(Seq<(T, T)>),
    Polygon(Seq<Seq<(T, T)>>),
    MultiPoint(Seq<(T, T)>),
    MultiLineString(Seq<Seq<(T, T)>>),
    MultiPolygon(Seq<Seq<Seq<(T, T)>>>),
    Collection(Seq<Shape<T>>),
}

/// The value of a point.
pub open spec fn point_view<C: View>(p: Point<C>) -> (C::V, C::V) {
    (p.x@, p.y@)
}

/// The values of points.
pub open spec fn points_view<C: View>(s: Seq<Point<C>>) -> Seq<(C::V, C::V)> {
    s.map_values(|p: Point<C>| point_view(p))
}

/// The values of line strings.
pub open spec fn lines_view<C: View>(s: Seq<LineString<C>>) -> Seq<Seq<(C::V, C::V)>> {
    s.map_values(|l: LineString<C>| points_view(l.points@))
}

/// The rings of a polygon.
pub open spec fn rings_view<C: View>(p: Polygon<C>) -> Seq<Seq<(C::V, C::V)>> {
    seq![points_view(p.exterior.points@)] + lines_view(p.interiors@)
}

/// The rings of polygons.
pub open spec fn polygons_view<C: View>(s: Seq<Polygon<C>>) -> Seq<Seq<Seq<(C::V, C::V)>>> {
    s.map_values(|p: Polygon<C>| rings_view(p))
}

/// The value of a geometry.
pub open spec fn shape_of<C: View>(g: Geometry<C>) -> Shape<C::V>
    decreases g,
{
    match g {
        Geometry::Point(p) => Shape::Point(point_view(p)),
        Geometry::LineString(l) => Shape::LineString(points_view(l.points@)),
        Geometry::Polygon(p) => Shape::Polygon(rings_view(p)),
        Geometry::MultiPoint(m) => Shape::MultiPoint(points_view(m.points@)),
        Geometry::MultiLineString(m) => Shape::MultiLineString(lines_view(m.linestrings@)),
        Geometry::MultiPolygon(m) => Shape::MultiPolygon(polygons_view(m.polygons@)),
        Geometry::GeometryCollection(v) => Shape::Collection(shapes_of(v@)),
    }
}

/// The values of geometries.
pub open spec fn shapes_of<C: View>(s: Seq<Geometry<C>>) -> Seq<Shape<C::V>>
    decreases s,
{
    if s.len() == 0 {
        seq![]
    } else {
        shapes_of(s.drop_last()).push(shape_of(s.last()))
    }
}

/// The geometries of a collection, one by one.
pub proof fn lemma_shapes_of<C: View>(s: Seq<Geometry<C>>)
    ensures
        shapes_of(s).len() == s.len(),
        forall|i: int| 0 <= i < s.len() ==> #[trigger] shapes_of(s)[i] == shape_of(s[i]),
    decreases s.len(),
{
    if s.len() > 0 {
        lemma_shapes_of(s.drop_last());
    }
}

impl<C: View> View for Geometry<C> {
    type V = Shape<C::V>;

    open spec fn view(&self) -> Shape<C::V> {
        shape_of(*self)
    }
}

impl<C> Point<C> {
    /// A point.
    pub fn new(x: C, y: C) -> (res: Self)
        ensures
            res == (Point { x, y }),
    {
        Point { x, y }
    }
}

impl Point<u64> {
    /// Whether both coordinates are finite.
    pub open spec fn valid(self) -> bool {
        is_finite(self.x) && is_finite(self.y)
    }

    /// Whether both coordinates are finite.
    pub fn is_valid(&self) -> (r: bool)
        ensures
            r == self.valid(),
    {
        finite_bits(self.x) && finite_bits(self.y)
    }
}

/// Points from pairs of coordinates.
pub open spec fn points_of<C>(coords: Seq<(C, C)>) -> Seq<Point<C>> {
    coords.map_values(|c: (C, C)| Point { x: c.0, y: c.1 })
}

impl<C> LineString<C> {
    /// A line string.
    pub fn new(points: Vec<Point<C>>) -> (res: Self)
        ensures
            res.points@ == points@,
    {
        LineString { points }
    }

    /// The number of points.
    pub fn len(&self) -> (r: usize)
        ensures
            r == self.points@.len(),
    {
        self.points.len()
    }

    /// Whether there are no points.
    pub fn is_empty(&self) -> (r: bool)
        ensures
            r == (self.points@.len() == 0),
    {
        self.points.len() == 0
    }
}

impl<C: Copy> LineString<C> {
    /// A line string from pairs of coordinates.
    pub fn from_xy(coords: &[(C, C)]) -> (res: Self)
        ensures
            res.points@ == points_of(coords@),
    {
        let mut points: Vec<Point<C>> = Vec::new();
        let mut i: usize = 0;
        while i < coords.len()
            invariant
                i <= coords@.len(),
                points@.len() == i,
                forall|k: int| 0 <= k < i ==> #[trigger] points@[k] == points_of(coords@)[k],
            decreases coords@.len() - i,
        {
            points.push(Point { x: coords[i].0, y: coords[i].1 });
            i = i + 1;
        }
        assert(points@ =~= points_of(coords@));
        LineString { points }
    }

    /// The pairs of points that follow each other.
    pub fn segments(&self) -> (r: Vec<(Point<C>, Point<C>)>)
        ensures
            r@.len() == (if self.points@.len() == 0 {
                0
            } else {
                (self.points@.len() - 1) as nat
            }),
            forall|i: int|
                0 <= i < r@.len() ==> #[trigger] r@[i] == (self.points@[i], self.points@[i + 1]),
    {
        let mut out: Vec<(Point<C>, Point<C>)> = Vec::new();
        let mut i: usize = 1;
        while i < self.points.len()
            invariant
                1 <= i,
                i <= self.points@.len() || i == 1,
                out@.len() == i - 1,
                forall|k: int|
                    0 <= k < out@.len() ==> #[trigger] out@[k] == (
                        self.points@[k],
                        self.points@[k + 1],
                    ),
            decreases self.points@.len() - i,
        {
            out.push((self.points[i - 1], self.points[i]));
            i = i + 1;
        }
        out
    }
}

impl<C> Polygon<C> {
    /// A polygon with holes.
    pub fn new(exterior: LineString<C>, interiors: Vec<LineString<C>>) -> (res: Self)
        ensures
            res == (Polygon { exterior, interiors }),
    {
        Polygon { exterior, interiors }
    }

    /// A polygon without holes.
    pub fn from_exterior(exterior: LineString<C>) -> (res: Self)
        ensures
            res.exterior == exterior,
            res.interiors@.len() == 0,
    {
        Polygon { exterior, interiors: Vec::new() }
    }

    /// The rings: the outer one, then those of the holes.
    pub fn rings(&self) -> (r: Vec<&LineString<C>>)
        ensures
            r@.len() == self.interiors@.len() + 1,
            *r@[0] == self.exterior,
            forall|i: int| 0 < i < r@.len() ==> *(#[trigger] r@[i]) == self.interiors@[i - 1],
    {
        let mut out: Vec<&LineString<C>> = Vec::new();
        out.push(&self.exterior);
        let mut i: usize = 0;
        while i < self.interiors.len()
            invariant
                i <= self.interiors@.len(),
                out@.len() == i + 1,
                *out@[0] == self.exterior,
                forall|k: int|
                    0 < k < out@.len() ==> *(#[trigger] out@[k]) == self.interiors@[k - 1],
            decreases self.interiors@.len() - i,
        {
            out.push(&self.interiors[i]);
            i = i + 1;
        }
        out
    }
}

/// A polygon from its rings, the outer one first.
pub fn polygon_of_rings<C: View>(rings: Vec<LineString<C>>) -> (r: Polygon<C>)
    requires
        rings@.len() > 0,
    ensures
        rings_view(r) == lines_view(rings@),
{
    let ghost all = lines_view(rings@);
    let mut rest: Vec<LineString<C>> = rings;
    let exterior: LineString<C> = rest.remove(0);
    let p: Polygon<C> = Polygon { exterior, interiors: rest };
    assert(rings_view(p) =~= all);
    p
}

impl<C> MultiPoint<C> {
    /// Points.
    pub fn new(points: Vec<Point<C>>) -> (res: Self)
        ensures
            res.points@ == points@,
    {
        MultiPoint { points }
    }
}

impl<C> MultiLineString<C> {
    /// Line strings.
    pub fn new(linestrings: Vec<LineString<C>>) -> (res: Self)
        ensures
            res.linestrings@ == linestrings@,
    {
        MultiLineString { linestrings }
    }
}

impl<C> MultiPolygon<C> {
    /// Polygons.
    pub fn new(polygons: Vec<Polygon<C>>) -> (res: Self)
        ensures
            res.polygons@ == polygons@,
    {
        MultiPolygon { polygons }
    }
}

/// The dimension of a shape: 0 for points, 1 for lines, 2 for areas; of a
/// collection the highest one.
pub open spec fn dimension_of<T>(g: Shape<T>) -> u8
    decreases g,
{
    match g {
        Shape::Point(_) => 0,
        Shape::MultiPoint(_) => 0,
        Shape::LineString(_) => 1,
        Shape::MultiLineString(_) => 1,
        Shape::Polygon(_) => 2,
        Shape::MultiPolygon(_) => 2,
        Shape::Collection(s) => highest_dimension(s),
    }
}

/// The highest dimension; 0 of none.
pub open spec fn highest_dimension<T>(s: Seq<Shape<T>>) -> u8
    decreases s,
{
    if s.len() == 0 {
        0
    } else {
        let rest = highest_dimension(s.drop_last());
        let last = dimension_of(s.last());
        if last > rest {
            last
        } else {
            rest
        }
    }
}

/// Whether a shape holds no points, lines, rings or parts.
pub open spec fn shape_empty<T>(g: Shape<T>) -> bool {
    match g {
        Shape::Point(_) => false,
        Shape::LineString(p) => p.len() == 0,
        Shape::Polygon(r) => r[0].len() == 0,
        Shape::MultiPoint(p) => p.len() == 0,
        Shape::MultiLineString(l) => l.len() == 0,
        Shape::MultiPolygon(p) => p.len() == 0,
        Shape::Collection(s) => s.len() == 0,
    }
}

impl<C> Geometry<C> {
    /// A point.
    pub fn point(x: C, y: C) -> (res: Self)
        ensures
            res == Geometry::Point(Point { x, y }),
    {
        Geometry::Point(Point { x, y })
    }
}

impl<C: Copy> Geometry<C> {
    /// A line string from pairs of coordinates.
    pub fn line_string(coords: &[(C, C)]) -> (res: Self)
        ensures
            res matches Geometry::LineString(l) && l.points@ == points_of(coords@),
    {
        Geometry::LineString(LineString::from_xy(coords))
    }

    /// A polygon without holes from the pairs of coordinates of its ring.
    pub fn polygon(exterior: &[(C, C)]) -> (res: Self)
        ensures
            res matches Geometry::Polygon(p) && p.exterior.points@ == points_of(exterior@)
                && p.interiors@.len() == 0,
    {
        Geometry::Polygon(Polygon::from_exterior(LineString::from_xy(exterior)))
    }
}

impl<C: View> Geometry<C> {
    /// The dimension: 0 for points, 1 for lines, 2 for areas; of a collection
    /// the highest one.
    pub fn dimension(&self) -> (r: u8)
        ensures
            r == dimension_of(self@),
        decreases self,
    {
        match self {
            Geometry::Point(_) => 0,
            Geometry::MultiPoint(_) => 0,
            Geometry::LineString(_) => 1,
            Geometry::MultiLineString(_) => 1,
            Geometry::Polygon(_) => 2,
            Geometry::MultiPolygon(_) => 2,
            Geometry::GeometryCollection(v) => {
                let mut best: u8 = 0;
                let mut i: usize = 0;
                let ghost all = shapes_of(v@);
                proof {
                    lemma_shapes_of(v@);
                    assert(all.take(0) =~= seq![]);
                }
                while i < v.len()
                    invariant
                        i <= v@.len(),
                        all == shapes_of(v@),
                        all.len() == v@.len(),
                        forall|k: int| 0 <= k < v@.len() ==> #[trigger] all[k] == shape_of(v@[k]),
                        best == highest_dimension(all.take(i as int)),
                        decreases_to!(self => v),
                    decreases v@.len() - i,
                {
                    proof {
                        assert(all.take(i + 1).drop_last() =~= all.take(i as int));
                        assert(all.take(i + 1).last() == all[i as int]);
                        assert(decreases_to!(self => v, v@, v@[i as int]));
                    }
                    let d: u8 = v[i].dimension();
                    if d > best {
                        best = d;
                    }
                    i = i + 1;
                }
                assert(all.take(i as int) =~= all);
                best
            },
        }
    }

    /// Whether the geometry holds no points, lines, rings or parts.
    pub fn is_empty(&self) -> (r: bool)
        ensures
            r == shape_empty(self@),
    {
        match self {
            Geometry::Point(_) => false,
            Geometry::LineString(l) => l.points.len() == 0,
            Geometry::Polygon(p) => p.exterior.points.len() == 0,
            Geometry::MultiPoint(m) => m.points.len() == 0,
            Geometry::MultiLineString(m) => m.linestrings.len() == 0,
            Geometry::MultiPolygon(m) => m.polygons.len() == 0,
            Geometry::GeometryCollection(v) => {
                proof {
                    lemma_shapes_of(v@);
                }
                v.len() == 0
            },
        }
    }
}

impl<C> Geometry<C> {
    /// The parts of a collection; of any other geometry itself.
    pub fn components(&self) -> (r: Vec<&Geometry<C>>)
        ensures
            match *self {
                Geometry::GeometryCollection(v) => r@.len() == v@.len() && forall|i: int|
                    0 <= i < v@.len() ==> *(#[trigger] r@[i]) == v@[i],
                _ => r@.len() == 1 && *r@[0] == *self,
            },
    {
        let mut out: Vec<&Geometry<C>> = Vec::new();
        match self {
            Geometry::GeometryCollection(v) => {
                let mut i: usize = 0;
                while i < v.len()
                    invariant
                        i <= v@.len(),
                        out@.len() == i,
                        forall|k: int| 0 <= k < i ==> *(#[trigger] out@[k]) == v@[k],
                    decreases v@.len() - i,
                {
                    out.push(&v[i]);
                    i = i + 1;
                }
            },
            _ => {
                out.push(self);
            },
        }
        out
    }
}

impl<C> From<Point<C>> for Geometry<C> {
    fn from(p: Point<C>) -> (r: Self) {
        Geometry::Point(p)
    }
}

impl<C> vstd::std_specs::convert::FromSpecImpl<Point<C>> for Geometry<C> {
    open spec fn obeys_from_spec() -> bool {
        true
    }

    open spec fn from_spec(p: Point<C>) -> Self {
        Geometry::Point(p)
    }
}

impl<C> From<LineString<C>> for Geometry<C> {
    fn from(l: LineString<C>) -> (r: Self) {
        Geometry::LineString(l)
    }
}

impl<C> vstd::std_specs::convert::FromSpecImpl<LineString<C>> for Geometry<C> {
    open spec fn obeys_from_spec() -> bool {
        true
    }

    open spec fn from_spec(l: LineString<C>) -> Self {
        Geometry::LineString(l)
    }
}

impl<C> From<Polygon<C>> for Geometry<C> {
    fn from(p: Polygon<C>) -> (r: Self) {
        Geometry::Polygon(p)
    }
}

impl<C> vstd::std_specs::convert::FromSpecImpl<Polygon<C>> for Geometry<C> {
    open spec fn obeys_from_spec() -> bool {
        true
    }

    open spec fn from_spec(p: Polygon<C>) -> Self {
        Geometry::Polygon(p)
    }
}

/// A box with sides along the axes.
#[derive(Copy, Clone, Debug, PartialEq, Eq, Structural)]
pub struct BoundingBox {
    pub min_x: u64,
    pub min_y: u64,
    pub max_x: u64,
    pub max_y: u64,
}

impl BoundingBox {
    /// Whether a point lies in the box or on its boundary.
    pub open spec fn holds(self, p: (u64, u64)) -> bool {
        at_most(self.min_x, p.0) && at_most(p.0, self.max_x) && at_most(self.min_y, p.1)
            && at_most(p.1, self.max_y)
    }

    /// Whether a box lies in the box.
    pub open spec fn holds_box(self, other: BoundingBox) -> bool {
        at_most(self.min_x, other.min_x) && at_most(other.max_x, self.max_x) && at_most(
            self.min_y,
            other.min_y,
        ) && at_most(other.max_y, self.max_y)
    }

    /// Whether neither box lies beside, above or below the other.
    pub open spec fn meets(self, other: BoundingBox) -> bool {
        !(less(self.max_x, other.min_x) || less(other.max_x, self.min_x) || less(
            self.max_y,
            other.min_y,
        ) || less(other.max_y, self.min_y))
    }

    /// The box around two boxes.
    pub open spec fn joined(self, other: BoundingBox) -> BoundingBox {
        BoundingBox {
            min_x: smaller(self.min_x, other.min_x),
            min_y: smaller(self.min_y, other.min_y),
            max_x: larger(self.max_x, other.max_x),
            max_y: larger(self.max_y, other.max_y),
        }
    }

    /// A box; the bounds of each axis are given together.
    pub fn new(min_x: u64, max_x: u64, min_y: u64, max_y: u64) -> (res: Self)
        ensures
            res == (BoundingBox { min_x, min_y, max_x, max_y }),
    {
        BoundingBox { min_x, min_y, max_x, max_y }
    }

    /// A box from its lower and its upper corner.
    pub fn from_corners(min_x: u64, min_y: u64, max_x: u64, max_y: u64) -> (res: Self)
        ensures
            res == (BoundingBox { min_x, min_y, max_x, max_y }),
    {
        BoundingBox { min_x, min_y, max_x, max_y }
    }

    /// The box of a point.
    pub fn from_point(p: Point<u64>) -> (res: Self)
        ensures
            res == point_box((p.x, p.y)),
    {
        BoundingBox { min_x: p.x, min_y: p.y, max_x: p.x, max_y: p.y }
    }

    /// Whether a point lies in the box or on its boundary.
    pub fn contains(&self, p: Point<u64>) -> (r: bool)
        ensures
            r == self.holds((p.x, p.y)),
    {
        bits_at_most(self.min_x, p.x) && bits_at_most(p.x, self.max_x) && bits_at_most(
            self.min_y,
            p.y,
        ) && bits_at_most(p.y, self.max_y)
    }

    /// Whether a box lies in the box.
    pub fn contains_bbox(&self, other: &BoundingBox) -> (r: bool)
        ensures
            r == self.holds_box(*other),
    {
        bits_at_most(self.min_x, other.min_x) && bits_at_most(other.max_x, self.max_x)
            && bits_at_most(self.min_y, other.min_y) && bits_at_most(other.max_y, self.max_y)
    }

    /// Whether neither box lies beside, above or below the other.
    pub fn intersects(&self, other: &BoundingBox) -> (r: bool)
        ensures
            r == self.meets(*other),
    {
        !(bits_less(self.max_x, other.min_x) || bits_less(other.max_x, self.min_x) || bits_less(
            self.max_y,
            other.min_y,
        ) || bits_less(other.max_y, self.min_y))
    }

    /// The box around two boxes.
    pub fn union(&self, other: &BoundingBox) -> (r: BoundingBox)
        ensures
            r == self.joined(*other),
    {
        BoundingBox {
            min_x: bits_smaller(self.min_x, other.min_x),
            min_y: bits_smaller(self.min_y, other.min_y),
            max_x: bits_larger(self.max_x, other.max_x),
            max_y: bits_larger(self.max_y, other.max_y),
        }
    }

    /// The box around two boxes.
    pub fn merge(&self, other: &BoundingBox) -> (r: BoundingBox)
        ensures
            r == self.joined(*other),
    {
        self.union(other)
    }
}

/// The box of a point.
pub open spec fn point_box(p: (u64, u64)) -> BoundingBox {
    BoundingBox { min_x: p.0, min_y: p.1, max_x: p.0, max_y: p.1 }
}

/// The box around what two boxes hold, where they are there.
pub open spec fn joined_boxes(a: Option<BoundingBox>, b: Option<BoundingBox>) -> Option<
    BoundingBox,
> {
    match (a, b) {
        (None, None) => None,
        (None, Some(y)) => Some(y),
        (Some(x), None) => Some(x),
        (Some(x), Some(y)) => Some(x.joined(y)),
    }
}

/// The box around points; `None` for no points.
pub open spec fn points_box(s: Seq<(u64, u64)>) -> Option<BoundingBox>
    decreases s.len(),
{
    if s.len() == 0 {
        None
    } else {
        joined_boxes(points_box(s.drop_last()), Some(point_box(s.last())))
    }
}

/// The box around line strings.
pub open spec fn lines_box(s: Seq<Seq<(u64, u64)>>) -> Option<BoundingBox>
    decreases s.len(),
{
    if s.len() == 0 {
        None
    } else {
        joined_boxes(lines_box(s.drop_last()), points_box(s.last()))
    }
}

/// The box around the outer rings of polygons.
pub open spec fn polygons_box(s: Seq<Seq<Seq<(u64, u64)>>>) -> Option<BoundingBox>
    decreases s.len(),
{
    if s.len() == 0 {
        None
    } else {
        joined_boxes(polygons_box(s.drop_last()), points_box(s.last()[0]))
    }
}

/// The box around a shape; `None` for an empty one.
pub open spec fn shape_box(g: Shape<u64>) -> Option<BoundingBox>
    decreases g,
{
    match g {
        Shape::Point(p) => Some(point_box(p)),
        Shape::LineString(p) => points_box(p),
        Shape::Polygon(r) => points_box(r[0]),
        Shape::MultiPoint(p) => points_box(p),
        Shape::MultiLineString(l) => lines_box(l),
        Shape::MultiPolygon(p) => polygons_box(p),
        Shape::Collection(s) => shapes_box(s),
    }
}

/// The box around shapes.
pub open spec fn shapes_box(s: Seq<Shape<u64>>) -> Option<BoundingBox>
    decreases s,
{
    if s.len() == 0 {
        None
    } else {
        joined_boxes(shapes_box(s.drop_last()), shape_box(s.last()))
    }
}

fn join_boxes(a: Option<BoundingBox>, b: Option<BoundingBox>) -> (r: Option<BoundingBox>)
    ensures
        r == joined_boxes(a, b),
{
    match (a, b) {
        (None, None) => None,
        (None, Some(y)) => Some(y),
        (Some(x), None) => Some(x),
        (Some(x), Some(y)) => Some(x.union(&y)),
    }
}

fn box_of_points(points: &Vec<Point<u64>>) -> (r: Option<BoundingBox>)
    ensures
        r == points_box(points_view(points@)),
{
    let ghost all = points_view(points@);
    let mut acc: Option<BoundingBox> = None;
    let mut i: usize = 0;
    assert(all.take(0) =~= seq![]);
    while i < points.len()
        invariant
            i <= points@.len(),
            all == points_view(points@),
            acc == points_box(all.take(i as int)),
        decreases points@.len() - i,
    {
        proof {
            assert(all.take(i + 1).drop_last() =~= all.take(i as int));
            assert(all.take(i + 1).last() == all[i as int]);
        }
        acc = join_boxes(acc, Some(BoundingBox::from_point(points[i])));
        i = i + 1;
    }
    assert(all.take(i as int) =~= all);
    acc
}

impl LineString<u64> {
    /// Whether the first point is the last one.
    pub fn is_closed(&self) -> (r: bool)
        ensures
            r == (self.points@.len() >= 2 && equal(self.points@[0].x, self.points@.last().x)
                && equal(self.points@[0].y, self.points@.last().y)),
    {
        let n: usize = self.points.len();
        n >= 2 && bits_equal(self.points[0].x, self.points[n - 1].x) && bits_equal(
            self.points[0].y,
            self.points[n - 1].y,
        )
    }

    /// The box around the points; `None` for no points.
    pub fn bounding_box(&self) -> (r: Option<BoundingBox>)
        ensures
            r == points_box(points_view(self.points@)),
    {
        box_of_points(&self.points)
    }
}

impl Polygon<u64> {
    /// The box around the outer ring.
    pub fn bounding_box(&self) -> (r: Option<BoundingBox>)
        ensures
            r == points_box(rings_view(*self)[0]),
    {
        self.exterior.bounding_box()
    }
}

impl MultiPoint<u64> {
    /// The box around the points; `None` for no points.
    pub fn bounding_box(&self) -> (r: Option<BoundingBox>)
        ensures
            r == points_box(points_view(self.points@)),
    {
        box_of_points(&self.points)
    }
}

impl MultiLineString<u64> {
    /// The box around the line strings; `None` for no points.
    pub fn bounding_box(&self) -> (r: Option<BoundingBox>)
        ensures
            r == lines_box(lines_view(self.linestrings@)),
    {
        let ghost all = lines_view(self.linestrings@);
        let mut acc: Option<BoundingBox> = None;
        let mut i: usize = 0;
        assert(all.take(0) =~= seq![]);
        while i < self.linestrings.len()
            invariant
                i <= self.linestrings@.len(),
                all == lines_view(self.linestrings@),
                acc == lines_box(all.take(i as int)),
            decreases self.linestrings@.len() - i,
        {
            proof {
                assert(all.take(i + 1).drop_last() =~= all.take(i as int));
                assert(all.take(i + 1).last() == all[i as int]);
            }
            acc = join_boxes(acc, self.linestrings[i].bounding_box());
            i = i + 1;
        }
        assert(all.take(i as int) =~= all);
        acc
    }
}

impl MultiPolygon<u64> {
    /// The box around the outer rings; `None` for no points.
    pub fn bounding_box(&self) -> (r: Option<BoundingBox>)
        ensures
            r == polygons_box(polygons_view(self.polygons@)),
    {
        let ghost all = polygons_view(self.polygons@);
        let mut acc: Option<BoundingBox> = None;
        let mut i: usize = 0;
        assert(all.take(0) =~= seq![]);
        while i < self.polygons.len()
            invariant
                i <= self.polygons@.len(),
                all == polygons_view(self.polygons@),
                acc == polygons_box(all.take(i as int)),
            decreases self.polygons@.len() - i,
        {
            proof {
                assert(all.take(i + 1).drop_last() =~= all.take(i as int));
                assert(all.take(i + 1).last() == all[i as int]);
            }
            acc = join_boxes(acc, self.polygons[i].bounding_box());
            i = i + 1;
        }
        assert(all.take(i as int) =~= all);
        acc
    }
}

/// Whether all coordinates of points are finite.
pub open spec fn points_valid(s: Seq<(u64, u64)>) -> bool {
    forall|i: int| 0 <= i < s.len() ==> is_finite((#[trigger] s[i]).0) && is_finite(s[i].1)
}

/// Whether all coordinates of line strings are finite.
pub open spec fn lines_valid(s: Seq<Seq<(u64, u64)>>) -> bool {
    forall|i: int| 0 <= i < s.len() ==> points_valid(#[trigger] s[i])
}

/// Whether all coordinates of polygons are finite.
pub open spec fn polygons_valid(s: Seq<Seq<Seq<(u64, u64)>>>) -> bool {
    forall|i: int| 0 <= i < s.len() ==> lines_valid(#[trigger] s[i])
}

/// Whether all coordinates of a shape are finite.
pub open spec fn shape_valid(g: Shape<u64>) -> bool
    decreases g,
{
    match g {
        Shape::Point(p) => is_finite(p.0) && is_finite(p.1),
        Shape::LineString(p) => points_valid(p),
        Shape::Polygon(r) => lines_valid(r),
        Shape::MultiPoint(p) => points_valid(p),
        Shape::MultiLineString(l) => lines_valid(l),
        Shape::MultiPolygon(p) => polygons_valid(p),
        Shape::Collection(s) => shapes_valid(s),
    }
}

/// Whether all coordinates of shapes are finite.
pub open spec fn shapes_valid(s: Seq<Shape<u64>>) -> bool
    decreases s,
{
    s.len() == 0 || shapes_valid(s.drop_last()) && shape_valid(s.last())
}

fn all_points_valid(points: &Vec<Point<u64>>) -> (r: bool)
    ensures
        r == points_valid(points_view(points@)),
{
    let ghost all = points_view(points@);
    let mut i: usize = 0;
    while i < points.len()
        invariant
            i <= points@.len(),
            all == points_view(points@),
            forall|k: int|
                0 <= k < i ==> is_finite((#[trigger] all[k]).0) && is_finite(all[k].1),
        decreases points@.len() - i,
    {
        assert(all[i as int] == point_view(points@[i as int]));
        if !points[i].is_valid() {
            return false;
        }
        i = i + 1;
    }
    true
}

fn all_lines_valid(lines: &Vec<LineString<u64>>) -> (r: bool)
    ensures
        r == lines_valid(lines_view(lines@)),
{
    let ghost all = lines_view(lines@);
    let mut i: usize = 0;
    while i < lines.len()
        invariant
            i <= lines@.len(),
            all == lines_view(lines@),
            forall|k: int| 0 <= k < i ==> points_valid(#[trigger] all[k]),
        decreases lines@.len() - i,
    {
        assert(all[i as int] == points_view(lines@[i as int].points@));
        if !all_points_valid(&lines[i].points) {
            return false;
        }
        i = i + 1;
    }
    true
}

fn polygon_valid(p: &Polygon<u64>) -> (r: bool)
    ensures
        r == lines_valid(rings_view(*p)),
{
    let ghost rings = rings_view(*p);
    let ghost inner = lines_view(p.interiors@);
    let a: bool = all_points_valid(&p.exterior.points);
    let b: bool = all_lines_valid(&p.interiors);
    proof {
        assert(rings[0] == points_view(p.exterior.points@));
        if a && b {
            assert forall|i: int| 0 <= i < rings.len() implies points_valid(#[trigger] rings[i]) by {
                if i > 0 {
                    assert(rings[i] == inner[i - 1]);
                }
            }
        }
        if lines_valid(rings) {
            assert forall|i: int| 0 <= i < inner.len() implies points_valid(#[trigger] inner[i]) by {
                assert(rings[i + 1] == inner[i]);
            }
        }
    }
    a && b
}

fn all_polygons_valid(polygons: &Vec<Polygon<u64>>) -> (r: bool)
    ensures
        r == polygons_valid(polygons_view(polygons@)),
{
    let ghost all = polygons_view(polygons@);
    let mut i: usize = 0;
    while i < polygons.len()
        invariant
            i <= polygons@.len(),
            all == polygons_view(polygons@),
            forall|k: int| 0 <= k < i ==> lines_valid(#[trigger] all[k]),
        decreases polygons@.len() - i,
    {
        assert(all[i as int] == rings_view(polygons@[i as int]));
        if !polygon_valid(&polygons[i]) {
            return false;
        }
        i = i + 1;
    }
    true
}

impl Geometry<u64> {
    /// The box around the geometry; `None` for an empty one.
    pub fn bounding_box(&self) -> (r: Option<BoundingBox>)
        ensures
            r == shape_box(self@),
        decreases self,
    {
        match self {
            Geometry::Point(p) => Some(BoundingBox::from_point(*p)),
            Geometry::LineString(l) => l.bounding_box(),
            Geometry::Polygon(p) => p.bounding_box(),
            Geometry::MultiPoint(m) => m.bounding_box(),
            Geometry::MultiLineString(m) => m.bounding_box(),
            Geometry::MultiPolygon(m) => m.bounding_box(),
            Geometry::GeometryCollection(v) => {
                let mut acc: Option<BoundingBox> = None;
                let mut i: usize = 0;
                let ghost all = shapes_of(v@);
                proof {
                    lemma_shapes_of(v@);
                    assert(all.take(0) =~= seq![]);
                }
                while i < v.len()
                    invariant
                        i <= v@.len(),
                        all == shapes_of(v@),
                        all.len() == v@.len(),
                        forall|k: int| 0 <= k < v@.len() ==> #[trigger] all[k] == shape_of(v@[k]),
                        acc == shapes_box(all.take(i as int)),
                        decreases_to!(self => v),
                    decreases v@.len() - i,
                {
                    proof {
                        assert(all.take(i + 1).drop_last() =~= all.take(i as int));
                        assert(all.take(i + 1).last() == all[i as int]);
                        assert(decreases_to!(self => v, v@, v@[i as int]));
                    }
                    acc = join_boxes(acc, v[i].bounding_box());
                    i = i + 1;
                }
                assert(all.take(i as int) =~= all);
                acc
            },
        }
    }

    /// Whether all coordinates are finite.
    pub fn is_valid(&self) -> (r: bool)
        ensures
            r == shape_valid(self@),
        decreases self,
    {
        match self {
            Geometry::Point(p) => p.is_valid(),
            Geometry::LineString(l) => all_points_valid(&l.points),
            Geometry::Polygon(p) => polygon_valid(p),
            Geometry::MultiPoint(m) => all_points_valid(&m.points),
            Geometry::MultiLineString(m) => all_lines_valid(&m.linestrings),
            Geometry::MultiPolygon(m) => all_polygons_valid(&m.polygons),
            Geometry::GeometryCollection(v) => {
                let mut ok: bool = true;
                let mut i: usize = 0;
                let ghost all = shapes_of(v@);
                proof {
                    lemma_shapes_of(v@);
                    assert(all.take(0) =~= seq![]);
                }
                while i < v.len()
                    invariant
                        i <= v@.len(),
                        all == shapes_of(v@),
                        all.len() == v@.len(),
                        forall|k: int| 0 <= k < v@.len() ==> #[trigger] all[k] == shape_of(v@[k]),
                        ok == shapes_valid(all.take(i as int)),
                        decreases_to!(self => v),
                    decreases v@.len() - i,
                {
                    proof {
                        assert(all.take(i + 1).drop_last() =~= all.take(i as int));
                        assert(all.take(i + 1).last() == all[i as int]);
                        assert(decreases_to!(self => v, v@, v@[i as int]));
                    }
                    let here: bool = v[i].is_valid();
                    ok = ok && here;
                    i = i + 1;
                }
                assert(all.take(i as int) =~= all);
                ok
            },
        }
    }
}

/// The box around points holds each of them, if all are numbers.
pub proof fn law_box_holds_points(s: Seq<(u64, u64)>, i: int)
    requires
        0 <= i < s.len(),
        forall|k: int| 0 <= k < s.len() ==> !is_nan((#[trigger] s[k]).0) && !is_nan(s[k].1),
    ensures
        points_box(s) matches Some(b) && b.holds(s[i]),
    decreases s.len(),
{
    let front = s.drop_last();
    assert forall|k: int| 0 <= k < front.len() implies !is_nan((#[trigger] front[k]).0) && !is_nan(
        front[k].1,
    ) by {
        assert(front[k] == s[k]);
    }
    assert(!is_nan(s[s.len() - 1].0));
    if i < front.len() {
        law_box_holds_points(front, i);
        assert(front[i] == s[i]);
    } else if front.len() > 0 {
        law_box_holds_points(front, 0);
    } else {
        assert(points_box(front) is None);
    }
}

/// The box around two boxes holds what either of them holds.
pub proof fn law_joined_box_holds_both(a: BoundingBox, b: BoundingBox, p: (u64, u64))
    requires
        a.holds(p) || b.holds(p),
    ensures
        a.joined(b).holds(p),
{
}

/// Two boxes meet in either order.
pub proof fn law_meeting_is_mutual(a: BoundingBox, b: BoundingBox)
    ensures
        a.meets(b) == b.meets(a),
{
}

/// Boxes that hold the same point meet.
pub proof fn law_common_point_meets(a: BoundingBox, b: BoundingBox, p: (u64, u64))
    requires
        a.holds(p),
        b.holds(p),
    ensures
        a.meets(b),
{
}

/// A box in a box holds no point that the outer one does not hold.
pub proof fn law_inner_box(a: BoundingBox, b: BoundingBox, p: (u64, u64))
    requires
        a.holds_box(b),
        b.holds(p),
    ensures
        a.holds(p),
{
}

} // verus!
