//! The area around a geometry, and convex hulls.

use vstd::prelude::*;

use crate::floats::{at_most, bits_at_most, bits_less, less};
use crate::spatial::geometry::{
    lemma_shapes_of, lines_view, point_view, points_box, points_view, polygons_view, rings_view,
    shape_of, shapes_of, BoundingBox, Geometry, LineString, MultiLineString, MultiPoint,
    MultiPolygon, Point, Polygon, Shape,
};
use crate::spatial::plane::{coord, same, Coord, Plane, PlaneView, Question};

verus! {

/// Whether a point goes before another: by the first coordinate, then by the
/// second.
pub open spec fn goes_before(a: Coord, b: Coord) -> bool {
    less(a.0, b.0) || (!less(b.0, a.0) && less(a.1, b.1))
}

/// Where a point goes among the first `n` sorted ones: behind all that it does
/// not go before.
pub open spec fn point_place(sorted: Seq<Coord>, x: Coord, n: int) -> int
    decreases n,
{
    if n > 0 && goes_before(x, sorted[n - 1]) {
        point_place(sorted, x, n - 1)
    } else {
        n
    }
}

/// The first `n` points sorted; equal ones keep their order.
pub open spec fn sorted_points(s: Seq<Coord>, n: int) -> Seq<Coord>
    decreases n,
{
    if n <= 0 {
        seq![]
    } else {
        let before = sorted_points(s, n - 1);
        before.insert(point_place(before, s[n - 1], before.len() as int), s[n - 1])
    }
}

/// The first `n` points without those that are taken for the one kept before.
pub open spec fn distinct(w: PlaneView, s: Seq<Coord>, n: int) -> Seq<Coord>
    decreases n,
{
    if n <= 0 {
        seq![]
    } else {
        let kept = distinct(w, s, n - 1);
        if kept.len() > 0 && same(w, s[n - 1], kept.last()) {
            kept
        } else {
            kept.push(s[n - 1])
        }
    }
}

/// A chain without the points at its end, beyond the first `keep`, from which
/// the way to a point does not turn left.
pub open spec fn trimmed(w: PlaneView, chain: Seq<Coord>, p: Coord, keep: int) -> Seq<Coord>
    decreases chain.len(),
{
    if chain.len() > keep && chain.len() >= 2 && (w.ask)(
        Question::NotLeft(chain[chain.len() - 2], chain[chain.len() - 1], p),
    ) == 1 {
        trimmed(w, chain.drop_last(), p, keep)
    } else {
        chain
    }
}

/// The chain below the first `n` points.
pub open spec fn lower_chain(w: PlaneView, s: Seq<Coord>, n: int) -> Seq<Coord>
    decreases n,
{
    if n <= 0 {
        seq![]
    } else {
        trimmed(w, lower_chain(w, s, n - 1), s[n - 1], 1).push(s[n - 1])
    }
}

/// A chain that goes on above the last `n` points, from the last one back.
pub open spec fn upper_chain(w: PlaneView, s: Seq<Coord>, chain: Seq<Coord>, n: int) -> Seq<Coord>
    decreases n,
{
    if n <= 0 {
        chain
    } else {
        trimmed(
            w,
            upper_chain(w, s, chain, n - 1),
            s[s.len() - n],
            chain.len() as int,
        ).push(s[s.len() - n])
    }
}

/// The convex hull of points, as a closed ring; of at most two points the
/// points themselves.
pub open spec fn hull(w: PlaneView, points: Seq<Coord>) -> Seq<Coord> {
    if points.len() <= 2 {
        points
    } else {
        let sorted = sorted_points(points, points.len() as int);
        let s = distinct(w, sorted, sorted.len() as int);
        if s.len() <= 2 {
            s
        } else {
            let around = upper_chain(w, s, lower_chain(w, s, s.len() as int), s.len() as int);
            around.drop_last().push(around[0])
        }
    }
}

fn is_before(a: Coord, b: Coord) -> (r: bool)
    ensures
        r == goes_before(a, b),
{
    bits_less(a.0, b.0) || (!bits_less(b.0, a.0) && bits_less(a.1, b.1))
}

fn sort_points(points: &Vec<Coord>) -> (r: Vec<Coord>)
    ensures
        r@ == sorted_points(points@, points@.len() as int),
{
    let mut out: Vec<Coord> = Vec::new();
    let mut n: usize = 0;
    while n < points.len()
        invariant
            n <= points@.len(),
            out@ == sorted_points(points@, n as int),
        decreases points@.len() - n,
    {
        let x: Coord = points[n];
        let mut p: usize = out.len();
        while p > 0 && is_before(x, out[p - 1])
            invariant
                p <= out@.len(),
                point_place(out@, x, p as int) == point_place(out@, x, out@.len() as int),
            decreases p,
        {
            p = p - 1;
        }
        out.insert(p, x);
        n = n + 1;
    }
    out
}

proof fn lemma_trimmed(w: PlaneView, chain: Seq<Coord>, p: Coord, keep: int)
    ensures
        trimmed(w, chain, p, keep).len() <= chain.len(),
        chain.len() >= keep ==> trimmed(w, chain, p, keep).len() >= keep,
        chain.len() >= 1 ==> trimmed(w, chain, p, keep).len() >= 1,
        trimmed(w, chain, p, keep) == chain.take(trimmed(w, chain, p, keep).len() as int),
    decreases chain.len(),
{
    if chain.len() > keep && chain.len() >= 2 && (w.ask)(
        Question::NotLeft(chain[chain.len() - 2], chain[chain.len() - 1], p),
    ) == 1 {
        lemma_trimmed(w, chain.drop_last(), p, keep);
        let n = trimmed(w, chain, p, keep).len() as int;
        assert(chain.drop_last().take(n) =~= chain.take(n));
    } else {
        assert(chain.take(chain.len() as int) =~= chain);
    }
}

proof fn lemma_lower_len(w: PlaneView, s: Seq<Coord>, n: int)
    requires
        0 <= n <= s.len(),
    ensures
        n > 0 ==> lower_chain(w, s, n).len() >= 1,
        n > 1 ==> lower_chain(w, s, n).len() >= 2,
    decreases n,
{
    if n > 0 {
        lemma_lower_len(w, s, n - 1);
        lemma_trimmed(w, lower_chain(w, s, n - 1), s[n - 1], 1);
    }
}

impl<F: Fn(Question) -> u8, M: Fn(Coord, Coord) -> Coord> Plane<F, M> {
    fn keep_distinct(&self, s: &Vec<Coord>) -> (r: Vec<Coord>)
        requires
            self.steady(),
        ensures
            r@ == distinct(self@, s@, s@.len() as int),
    {
        let mut out: Vec<Coord> = Vec::new();
        let mut n: usize = 0;
        while n < s.len()
            invariant
                n <= s@.len(),
                self.steady(),
                out@ == distinct(self@, s@, n as int),
            decreases s@.len() - n,
        {
            let x: Coord = s[n];
            let m: usize = out.len();
            if !(m > 0 && self.asked(Question::Same(x, out[m - 1])) == 1) {
                out.push(x);
            }
            n = n + 1;
        }
        out
    }

    fn extend_chain(&self, chain: &mut Vec<Coord>, p: Coord, keep: usize)
        requires
            self.steady(),
        ensures
            final(chain)@ == trimmed(self@, old(chain)@, p, keep as int).push(p),
    {
        let ghost whole = trimmed(self@, chain@, p, keep as int);
        while chain.len() > keep && chain.len() >= 2 && self.asked(
            Question::NotLeft(chain[chain.len() - 2], chain[chain.len() - 1], p),
        ) == 1
            invariant
                self.steady(),
                whole == trimmed(self@, chain@, p, keep as int),
            decreases chain@.len(),
        {
            chain.pop();
        }
        chain.push(p);
    }

    /// The convex hull of points.
    pub fn convex_hull(&self, points: &Vec<Coord>) -> (r: Vec<Coord>)
        requires
            self.steady(),
        ensures
            r@ == hull(self@, points@),
    {
        if points.len() <= 2 {
            return copy_coords(points);
        }
        let sorted: Vec<Coord> = sort_points(points);
        let s: Vec<Coord> = self.keep_distinct(&sorted);
        let n: usize = s.len();
        if n <= 2 {
            return s;
        }
        let mut chain: Vec<Coord> = Vec::new();
        let mut i: usize = 0;
        while i < n
            invariant
                i <= n,
                n == s@.len(),
                self.steady(),
                chain@ == lower_chain(self@, s@, i as int),
            decreases n - i,
        {
            self.extend_chain(&mut chain, s[i], 1);
            i = i + 1;
        }
        let ghost lower = chain@;
        let keep: usize = chain.len();
        let mut k: usize = 0;
        proof {
            lemma_lower_len(self@, s@, n as int);
        }
        while k < n
            invariant
                k <= n,
                n == s@.len(),
                keep == lower.len(),
                keep >= 1,
                chain@.len() >= keep,
                chain@.len() >= 1,
                self.steady(),
                chain@ == upper_chain(self@, s@, lower, k as int),
            decreases n - k,
        {
            proof {
                lemma_trimmed(self@, chain@, s@[n - 1 - k], keep as int);
            }
            self.extend_chain(&mut chain, s[n - 1 - k], keep);
            k = k + 1;
        }
        let first: Coord = chain[0];
        chain.pop();
        chain.push(first);
        chain
    }
}

fn copy_coords(s: &Vec<Coord>) -> (r: Vec<Coord>)
    ensures
        r@ == s@,
{
    let mut out: Vec<Coord> = Vec::new();
    let mut i: usize = 0;
    while i < s.len()
        invariant
            i <= s@.len(),
            out@ == s@.take(i as int),
        decreases s@.len() - i,
    {
        out.push(s[i]);
        i = i + 1;
        assert(out@ =~= s@.take(i as int));
    }
    assert(out@ =~= s@);
    out
}

proof fn lemma_sorted_among(s: Seq<Coord>, n: int, x: Coord)
    requires
        0 <= n <= s.len(),
        sorted_points(s, n).contains(x),
    ensures
        s.contains(x),
    decreases n,
{
    if n > 0 {
        let before = sorted_points(s, n - 1);
        let p = point_place(before, s[n - 1], before.len() as int);
        lemma_point_place(before, s[n - 1], before.len() as int);
        let k = choose|k: int| 0 <= k < sorted_points(s, n).len() && sorted_points(s, n)[k] == x;
        if k != p {
            let j = if k < p { k } else { k - 1 };
            assert(before[j] == x);
            lemma_sorted_among(s, n - 1, x);
        }
    }
}

proof fn lemma_point_place(sorted: Seq<Coord>, x: Coord, n: int)
    requires
        0 <= n <= sorted.len(),
    ensures
        0 <= point_place(sorted, x, n) <= n,
    decreases n,
{
    if n > 0 && goes_before(x, sorted[n - 1]) {
        lemma_point_place(sorted, x, n - 1);
    }
}

proof fn lemma_distinct_among(w: PlaneView, s: Seq<Coord>, n: int, x: Coord)
    requires
        0 <= n <= s.len(),
        distinct(w, s, n).contains(x),
    ensures
        s.contains(x),
    decreases n,
{
    if n > 0 {
        let kept = distinct(w, s, n - 1);
        if x != s[n - 1] {
            assert(kept.contains(x)) by {
                let d = distinct(w, s, n);
                let k = choose|k: int| 0 <= k < d.len() && d[k] == x;
                assert(kept[k] == x);
            }
            lemma_distinct_among(w, s, n - 1, x);
        }
    }
}

proof fn lemma_lower_among(w: PlaneView, s: Seq<Coord>, n: int, x: Coord)
    requires
        0 <= n <= s.len(),
        lower_chain(w, s, n).contains(x),
    ensures
        s.contains(x),
    decreases n,
{
    if n > 0 && x != s[n - 1] {
        let chain = lower_chain(w, s, n - 1);
        let cut = trimmed(w, chain, s[n - 1], 1);
        lemma_trimmed(w, chain, s[n - 1], 1);
        let k = choose|k: int| 0 <= k < lower_chain(w, s, n).len() && lower_chain(w, s, n)[k] == x;
        assert(cut[k] == x && chain[k] == x);
        lemma_lower_among(w, s, n - 1, x);
    }
}

proof fn lemma_upper_among(w: PlaneView, s: Seq<Coord>, chain: Seq<Coord>, n: int, x: Coord)
    requires
        0 <= n <= s.len(),
        upper_chain(w, s, chain, n).contains(x),
    ensures
        s.contains(x) || chain.contains(x),
    decreases n,
{
    if n > 0 && x != s[s.len() - n] {
        let before = upper_chain(w, s, chain, n - 1);
        let cut = trimmed(w, before, s[s.len() - n], chain.len() as int);
        lemma_trimmed(w, before, s[s.len() - n], chain.len() as int);
        let now = upper_chain(w, s, chain, n);
        let k = choose|k: int| 0 <= k < now.len() && now[k] == x;
        assert(cut[k] == x && before[k] == x);
        lemma_upper_among(w, s, chain, n - 1, x);
    }
}

/// The corners of a convex hull are among the points that it is made from.
pub proof fn law_hull_corners_are_points(w: PlaneView, points: Seq<Coord>, x: Coord)
    requires
        hull(w, points).contains(x),
    ensures
        points.contains(x),
{
    if points.len() > 2 {
        let n = points.len() as int;
        let sorted = sorted_points(points, n);
        let s = distinct(w, sorted, sorted.len() as int);
        if s.contains(x) {
            lemma_distinct_among(w, sorted, sorted.len() as int, x);
            lemma_sorted_among(points, n, x);
        } else {
            let lower = lower_chain(w, s, s.len() as int);
            let around = upper_chain(w, s, lower, s.len() as int);
            let h = hull(w, points);
            let k = choose|k: int| 0 <= k < h.len() && h[k] == x;
            lemma_lower_len(w, s, s.len() as int);
            lemma_upper_len(w, s, lower, s.len() as int);
            assert(around.contains(x)) by {
                if k < h.len() - 1 {
                    assert(around[k] == x);
                } else {
                    assert(around[0] == x);
                }
            }
            lemma_upper_among(w, s, lower, s.len() as int, x);
            if lower.contains(x) {
                lemma_lower_among(w, s, s.len() as int, x);
            }
        }
    }
}

proof fn lemma_upper_len(w: PlaneView, s: Seq<Coord>, chain: Seq<Coord>, n: int)
    requires
        0 <= n <= s.len(),
        chain.len() >= 1,
    ensures
        upper_chain(w, s, chain, n).len() >= chain.len(),
        n > 0 ==> upper_chain(w, s, chain, n).len() > chain.len(),
    decreases n,
{
    if n > 0 {
        lemma_upper_len(w, s, chain, n - 1);
        lemma_trimmed(
            w,
            upper_chain(w, s, chain, n - 1),
            s[s.len() - n],
            chain.len() as int,
        );
    }
}

/// A convex hull of more than two distinct points is a closed ring.
pub proof fn law_hull_is_closed(w: PlaneView, points: Seq<Coord>)
    requires
        points.len() > 2,
        hull(w, points).len() > 2,
    ensures
        hull(w, points)[0] == hull(w, points).last(),
{
    let sorted = sorted_points(points, points.len() as int);
    let s = distinct(w, sorted, sorted.len() as int);
    if s.len() > 2 {
        let lower = lower_chain(w, s, s.len() as int);
        lemma_lower_len(w, s, s.len() as int);
        lemma_upper_len(w, s, lower, s.len() as int);
    }
}

/// Shapes of a given distance, as they are handed in.
pub struct Brush<R, G> {
    /// The closed ring around a point.
    pub ring: R,
    /// A box, grown to all sides.
    pub grown: G,
}

/// Shapes of a given distance.
pub struct BrushView {
    pub ring: spec_fn(Coord) -> Seq<Coord>,
    pub grown: spec_fn(BoundingBox) -> BoundingBox,
}

impl<R: Fn(Coord) -> Vec<Coord>, G: Fn(BoundingBox) -> BoundingBox> Brush<R, G> {
    /// Every shape is given, and always the same.
    pub open spec fn steady(&self) -> bool {
        &&& forall|p: Coord| #[trigger] self.ring.requires((p,))
        &&& forall|p: Coord, r: Vec<Coord>, s: Vec<Coord>|
            #[trigger] self.ring.ensures((p,), r) && #[trigger] self.ring.ensures((p,), s) ==> r@
                == s@
        &&& forall|b: BoundingBox| #[trigger] self.grown.requires((b,))
        &&& forall|b: BoundingBox, r: BoundingBox, s: BoundingBox|
            #[trigger] self.grown.ensures((b,), r) && #[trigger] self.grown.ensures((b,), s) ==> r
                == s
    }

    fn ring_around(&self, p: Coord) -> (r: Vec<Coord>)
        requires
            self.steady(),
        ensures
            r@ == (self@.ring)(p),
    {
        (self.ring)(p)
    }

    fn grown_box(&self, b: BoundingBox) -> (r: BoundingBox)
        requires
            self.steady(),
        ensures
            r == (self@.grown)(b),
    {
        (self.grown)(b)
    }
}

impl<R: Fn(Coord) -> Vec<Coord>, G: Fn(BoundingBox) -> BoundingBox> View for Brush<R, G> {
    type V = BrushView;

    open spec fn view(&self) -> BrushView {
        BrushView {
            ring: |p: Coord| (choose|r: Vec<Coord>| self.ring.ensures((p,), r))@,
            grown: |b: BoundingBox| choose|r: BoundingBox| self.grown.ensures((b,), r),
        }
    }
}

/// The corners of a box, around it.
pub open spec fn corners(b: BoundingBox) -> Seq<Coord> {
    seq![(b.min_x, b.min_y), (b.max_x, b.min_y), (b.max_x, b.max_y), (b.min_x, b.max_y)]
}

/// The points of the rings around the first `n` points.
pub open spec fn rings_around(b: BrushView, s: Seq<Coord>, n: int) -> Seq<Coord>
    decreases n,
{
    if n <= 0 {
        seq![]
    } else {
        rings_around(b, s, n - 1) + (b.ring)(s[n - 1])
    }
}

/// The points of the rings around the points of the first `n` lines.
pub open spec fn line_rings_around(b: BrushView, l: Seq<Seq<Coord>>, n: int) -> Seq<Coord>
    decreases n,
{
    if n <= 0 {
        seq![]
    } else {
        line_rings_around(b, l, n - 1) + rings_around(b, l[n - 1], l[n - 1].len() as int)
    }
}

/// The corners of the grown boxes of the first `n` polygons; one without
/// points has none.
pub open spec fn grown_corners(b: BrushView, p: Seq<Seq<Seq<Coord>>>, n: int) -> Seq<Coord>
    decreases n,
{
    if n <= 0 {
        seq![]
    } else {
        match points_box(p[n - 1][0]) {
            Some(x) => grown_corners(b, p, n - 1) + corners((b.grown)(x)),
            None => grown_corners(b, p, n - 1),
        }
    }
}

/// The area around a geometry: a ring around a point, a grown box around a
/// polygon, and the convex hull of such shapes around several.
pub open spec fn area_around(w: PlaneView, b: BrushView, g: Shape<u64>) -> Shape<u64>
    decreases g,
{
    match g {
        Shape::Point(p) => Shape::Polygon(seq![(b.ring)(p)]),
        Shape::LineString(s) => Shape::Polygon(seq![hull(w, rings_around(b, s, s.len() as int))]),
        Shape::MultiPoint(s) => Shape::Polygon(seq![hull(w, rings_around(b, s, s.len() as int))]),
        Shape::Polygon(r) => match points_box(r[0]) {
            Some(x) => {
                let c = corners((b.grown)(x));
                Shape::Polygon(seq![c.push(c[0])])
            },
            None => g,
        },
        Shape::MultiLineString(l) => Shape::Polygon(
            seq![hull(w, line_rings_around(b, l, l.len() as int))],
        ),
        Shape::MultiPolygon(p) => Shape::Polygon(
            seq![hull(w, grown_corners(b, p, p.len() as int))],
        ),
        Shape::Collection(s) => Shape::Collection(areas_around(w, b, s)),
    }
}

/// The areas around geometries.
pub open spec fn areas_around(w: PlaneView, b: BrushView, s: Seq<Shape<u64>>) -> Seq<Shape<u64>>
    decreases s,
{
    if s.len() == 0 {
        seq![]
    } else {
        areas_around(w, b, s.drop_last()).push(area_around(w, b, s.last()))
    }
}

/// The geometry itself for a distance that is not above zero, else the area
/// around it.
pub open spec fn buffer_of(
    w: PlaneView,
    b: BrushView,
    g: Shape<u64>,
    distance: u64,
) -> Shape<u64> {
    if at_most(distance, 0) {
        g
    } else {
        area_around(w, b, g)
    }
}

fn line_of(s: &Vec<Coord>) -> (r: LineString<u64>)
    ensures
        points_view(r.points@) == s@,
{
    let mut points: Vec<Point<u64>> = Vec::new();
    let mut i: usize = 0;
    assert(points_view(points@) =~= s@.take(0));
    while i < s.len()
        invariant
            i <= s@.len(),
            points_view(points@) == s@.take(i as int),
        decreases s@.len() - i,
    {
        let ghost before = points@;
        let p: Point<u64> = Point { x: s[i].0, y: s[i].1 };
        points.push(p);
        i = i + 1;
        assert(points_view(points@) =~= points_view(before).push(point_view(p)));
        assert(points_view(points@) =~= s@.take(i as int));
    }
    assert(s@.take(i as int) =~= s@);
    LineString { points }
}

fn polygon_of(s: &Vec<Coord>) -> (r: Geometry<u64>)
    ensures
        r@ == Shape::Polygon(seq![s@]),
{
    let p: Polygon<u64> = Polygon { exterior: line_of(s), interiors: Vec::new() };
    assert(rings_view(p) =~= seq![s@]);
    Geometry::Polygon(p)
}

fn append_coords(out: &mut Vec<Coord>, more: &Vec<Coord>)
    ensures
        final(out)@ == old(out)@ + more@,
{
    let ghost front = out@;
    let mut i: usize = 0;
    assert(out@ =~= front + more@.take(0));
    while i < more.len()
        invariant
            i <= more@.len(),
            out@ == front + more@.take(i as int),
        decreases more@.len() - i,
    {
        out.push(more[i]);
        i = i + 1;
        assert(out@ =~= front + more@.take(i as int));
    }
    assert(more@.take(i as int) =~= more@);
}

fn push_corners(out: &mut Vec<Coord>, b: BoundingBox)
    ensures
        final(out)@ == old(out)@ + corners(b),
{
    out.push((b.min_x, b.min_y));
    out.push((b.max_x, b.min_y));
    out.push((b.max_x, b.max_y));
    out.push((b.min_x, b.max_y));
    assert(out@ =~= old(out)@ + corners(b));
}

impl<R: Fn(Coord) -> Vec<Coord>, G: Fn(BoundingBox) -> BoundingBox> Brush<R, G> {
    fn around_points(&self, points: &Vec<Point<u64>>, out: &mut Vec<Coord>)
        requires
            self.steady(),
        ensures
            final(out)@ == old(out)@ + rings_around(
                self@,
                points_view(points@),
                points@.len() as int,
            ),
    {
        let ghost front = out@;
        let ghost s = points_view(points@);
        let mut i: usize = 0;
        assert(out@ =~= front + rings_around(self@, s, 0));
        while i < points.len()
            invariant
                i <= points@.len(),
                self.steady(),
                s == points_view(points@),
                out@ == front + rings_around(self@, s, i as int),
            decreases points@.len() - i,
        {
            assert(s[i as int] == point_view(points@[i as int]));
            let ring: Vec<Coord> = self.ring_around(coord(&points[i]));
            append_coords(out, &ring);
            i = i + 1;
            assert(out@ =~= front + rings_around(self@, s, i as int));
        }
    }

    fn around_lines(&self, lines: &Vec<LineString<u64>>) -> (r: Vec<Coord>)
        requires
            self.steady(),
        ensures
            r@ == line_rings_around(self@, lines_view(lines@), lines@.len() as int),
    {
        let ghost l = lines_view(lines@);
        let mut out: Vec<Coord> = Vec::new();
        let mut i: usize = 0;
        while i < lines.len()
            invariant
                i <= lines@.len(),
                self.steady(),
                l == lines_view(lines@),
                out@ == line_rings_around(self@, l, i as int),
            decreases lines@.len() - i,
        {
            assert(l[i as int] == points_view(lines@[i as int].points@));
            self.around_points(&lines[i].points, &mut out);
            i = i + 1;
        }
        out
    }

    fn around_polygons(&self, polys: &Vec<Polygon<u64>>) -> (r: Vec<Coord>)
        requires
            self.steady(),
        ensures
            r@ == grown_corners(self@, polygons_view(polys@), polys@.len() as int),
    {
        let ghost p = polygons_view(polys@);
        let mut out: Vec<Coord> = Vec::new();
        let mut i: usize = 0;
        while i < polys.len()
            invariant
                i <= polys@.len(),
                self.steady(),
                p == polygons_view(polys@),
                out@ == grown_corners(self@, p, i as int),
            decreases polys@.len() - i,
        {
            assert(p[i as int] == rings_view(polys@[i as int]));
            match polys[i].bounding_box() {
                Some(b) => {
                    let x: BoundingBox = self.grown_box(b);
                    push_corners(&mut out, x);
                },
                None => {},
            }
            i = i + 1;
        }
        out
    }
}

fn copy_points(s: &Vec<Point<u64>>) -> (r: Vec<Point<u64>>)
    ensures
        r@ == s@,
{
    let mut out: Vec<Point<u64>> = Vec::new();
    let mut i: usize = 0;
    while i < s.len()
        invariant
            i <= s@.len(),
            out@ == s@.take(i as int),
        decreases s@.len() - i,
    {
        out.push(s[i]);
        i = i + 1;
        assert(out@ =~= s@.take(i as int));
    }
    assert(out@ =~= s@);
    out
}

fn copy_lines(s: &Vec<LineString<u64>>) -> (r: Vec<LineString<u64>>)
    ensures
        lines_view(r@) == lines_view(s@),
{
    let ghost all = lines_view(s@);
    let mut out: Vec<LineString<u64>> = Vec::new();
    let mut i: usize = 0;
    assert(lines_view(out@) =~= all.take(0));
    while i < s.len()
        invariant
            i <= s@.len(),
            all == lines_view(s@),
            lines_view(out@) == all.take(i as int),
        decreases s@.len() - i,
    {
        let ghost before = out@;
        assert(all[i as int] == points_view(s@[i as int].points@));
        let line: LineString<u64> = LineString { points: copy_points(&s[i].points) };
        let ghost here = points_view(line.points@);
        out.push(line);
        i = i + 1;
        assert(lines_view(out@) =~= lines_view(before).push(here));
        assert(lines_view(out@) =~= all.take(i as int));
    }
    assert(all.take(i as int) =~= all);
    out
}

fn copy_polygon(p: &Polygon<u64>) -> (r: Polygon<u64>)
    ensures
        rings_view(r) == rings_view(*p),
{
    let r: Polygon<u64> = Polygon {
        exterior: LineString { points: copy_points(&p.exterior.points) },
        interiors: copy_lines(&p.interiors),
    };
    assert(rings_view(r) =~= rings_view(*p));
    r
}

fn copy_polygons(s: &Vec<Polygon<u64>>) -> (r: Vec<Polygon<u64>>)
    ensures
        polygons_view(r@) == polygons_view(s@),
{
    let ghost all = polygons_view(s@);
    let mut out: Vec<Polygon<u64>> = Vec::new();
    let mut i: usize = 0;
    assert(polygons_view(out@) =~= all.take(0));
    while i < s.len()
        invariant
            i <= s@.len(),
            all == polygons_view(s@),
            polygons_view(out@) == all.take(i as int),
        decreases s@.len() - i,
    {
        let ghost before = out@;
        assert(all[i as int] == rings_view(s@[i as int]));
        let p: Polygon<u64> = copy_polygon(&s[i]);
        let ghost here = rings_view(p);
        out.push(p);
        i = i + 1;
        assert(polygons_view(out@) =~= polygons_view(before).push(here));
        assert(polygons_view(out@) =~= all.take(i as int));
    }
    assert(all.take(i as int) =~= all);
    out
}

/// A copy of a geometry.
pub fn copy_geometry(g: &Geometry<u64>) -> (r: Geometry<u64>)
    ensures
        r@ == g@,
    decreases g,
{
    match g {
        Geometry::Point(p) => Geometry::Point(*p),
        Geometry::LineString(l) => Geometry::LineString(
            LineString { points: copy_points(&l.points) },
        ),
        Geometry::Polygon(p) => Geometry::Polygon(copy_polygon(p)),
        Geometry::MultiPoint(m) => Geometry::MultiPoint(
            MultiPoint { points: copy_points(&m.points) },
        ),
        Geometry::MultiLineString(m) => Geometry::MultiLineString(
            MultiLineString { linestrings: copy_lines(&m.linestrings) },
        ),
        Geometry::MultiPolygon(m) => Geometry::MultiPolygon(
            MultiPolygon { polygons: copy_polygons(&m.polygons) },
        ),
        Geometry::GeometryCollection(v) => {
            let ghost all = shapes_of(v@);
            let mut out: Vec<Geometry<u64>> = Vec::new();
            let mut i: usize = 0;
            proof {
                lemma_shapes_of(v@);
                lemma_shapes_of(out@);
                assert(shapes_of(out@) =~= all.take(0));
            }
            while i < v.len()
                invariant
                    i <= v@.len(),
                    all.len() == v@.len(),
                    forall|k: int| 0 <= k < v@.len() ==> #[trigger] all[k] == shape_of(v@[k]),
                    shapes_of(out@) == all.take(i as int),
                    decreases_to!(g => v),
                decreases v@.len() - i,
            {
                let ghost before = out@;
                assert(all[i as int] == shape_of(v@[i as int]));
                assert(decreases_to!(g => v, v@, v@[i as int]));
                let x: Geometry<u64> = copy_geometry(&v[i]);
                out.push(x);
                i = i + 1;
                proof {
                    lemma_shapes_of(before);
                    lemma_shapes_of(out@);
                    assert(shapes_of(out@) =~= shapes_of(before).push(shape_of(x)));
                    assert(shapes_of(out@) =~= all.take(i as int));
                }
            }
            assert(all.take(i as int) =~= all);
            Geometry::GeometryCollection(out)
        },
    }
}

fn area<
    F: Fn(Question) -> u8,
    M: Fn(Coord, Coord) -> Coord,
    R: Fn(Coord) -> Vec<Coord>,
    G: Fn(BoundingBox) -> BoundingBox,
>(plane: &Plane<F, M>, brush: &Brush<R, G>, g: &Geometry<u64>) -> (r: Geometry<u64>)
    requires
        plane.steady(),
        brush.steady(),
    ensures
        r@ == area_around(plane@, brush@, g@),
    decreases g,
{
    match g {
        Geometry::Point(p) => {
            let ring: Vec<Coord> = brush.ring_around(coord(p));
            polygon_of(&ring)
        },
        Geometry::LineString(l) => {
            let mut pts: Vec<Coord> = Vec::new();
            brush.around_points(&l.points, &mut pts);
            assert(pts@ =~= rings_around(brush@, points_view(l.points@), l.points@.len() as int));
            polygon_of(&plane.convex_hull(&pts))
        },
        Geometry::MultiPoint(m) => {
            let mut pts: Vec<Coord> = Vec::new();
            brush.around_points(&m.points, &mut pts);
            assert(pts@ =~= rings_around(brush@, points_view(m.points@), m.points@.len() as int));
            polygon_of(&plane.convex_hull(&pts))
        },
        Geometry::Polygon(p) => match p.bounding_box() {
            Some(b) => {
                let x: BoundingBox = brush.grown_box(b);
                let mut pts: Vec<Coord> = Vec::new();
                push_corners(&mut pts, x);
                assert(pts@ =~= corners(x));
                pts.push((x.min_x, x.min_y));
                polygon_of(&pts)
            },
            None => Geometry::Polygon(copy_polygon(p)),
        },
        Geometry::MultiLineString(m) => {
            let pts: Vec<Coord> = brush.around_lines(&m.linestrings);
            polygon_of(&plane.convex_hull(&pts))
        },
        Geometry::MultiPolygon(m) => {
            let pts: Vec<Coord> = brush.around_polygons(&m.polygons);
            polygon_of(&plane.convex_hull(&pts))
        },
        Geometry::GeometryCollection(v) => {
            let ghost all = shapes_of(v@);
            let mut out: Vec<Geometry<u64>> = Vec::new();
            let mut i: usize = 0;
            proof {
                lemma_shapes_of(v@);
                lemma_shapes_of(out@);
                assert(shapes_of(out@) =~= areas_around(plane@, brush@, all.take(0)));
            }
            while i < v.len()
                invariant
                    i <= v@.len(),
                    plane.steady(),
                    brush.steady(),
                    all.len() == v@.len(),
                    forall|k: int| 0 <= k < v@.len() ==> #[trigger] all[k] == shape_of(v@[k]),
                    shapes_of(out@) == areas_around(plane@, brush@, all.take(i as int)),
                    decreases_to!(g => v),
                decreases v@.len() - i,
            {
                let ghost before = out@;
                assert(all[i as int] == shape_of(v@[i as int]));
                assert(decreases_to!(g => v, v@, v@[i as int]));
                assert(all.take(i + 1).drop_last() =~= all.take(i as int));
                let x: Geometry<u64> = area(plane, brush, &v[i]);
                out.push(x);
                i = i + 1;
                proof {
                    lemma_shapes_of(before);
                    lemma_shapes_of(out@);
                    assert(shapes_of(out@) =~= shapes_of(before).push(shape_of(x)));
                }
            }
            assert(all.take(i as int) =~= all);
            Geometry::GeometryCollection(out)
        },
    }
}

/// The area within a distance of a geometry, roughly; `brush` gives the shapes
/// of that distance.
pub fn buffer<
    F: Fn(Question) -> u8,
    M: Fn(Coord, Coord) -> Coord,
    R: Fn(Coord) -> Vec<Coord>,
    G: Fn(BoundingBox) -> BoundingBox,
>(
    plane: &Plane<F, M>,
    brush: &Brush<R, G>,
    geom: &Geometry<u64>,
    distance: u64,
) -> (r: Geometry<u64>)
    requires
        plane.steady(),
        brush.steady(),
    ensures
        r@ == buffer_of(plane@, brush@, geom@, distance),
{
    if bits_at_most(distance, 0) {
        return copy_geometry(geom);
    }
    area(plane, brush, geom)
}

} // verus!
