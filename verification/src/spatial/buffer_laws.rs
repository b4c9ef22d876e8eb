//! What the convex hull of points and the area around a geometry are.

use vstd::prelude::*;

use crate::floats::{at_most, is_nan, less};
use crate::spatial::buffer::{
    area_around, buffer_of, corners, distinct, goes_before, hull, lower_chain, point_place,
    rings_around, sorted_points, trimmed, upper_chain, BrushView,
};
use crate::spatial::geometry::{points_box, Shape};
use crate::spatial::plane::{same, Coord, PlaneView, Question};

verus! {

/// Whether the way over three corners turns left.
pub open spec fn turns_left(w: PlaneView, s: Seq<Coord>, i: int) -> bool {
    (w.ask)(Question::NotLeft(s[i], s[i + 1], s[i + 2])) != 1
}

/// Whether the way over the corners from `from` on turns left at each.
pub open spec fn bends_left(w: PlaneView, s: Seq<Coord>, from: int) -> bool {
    forall|i: int| from <= i && i + 2 < s.len() ==> #[trigger] turns_left(w, s, i)
}

proof fn lemma_trimmed(w: PlaneView, chain: Seq<Coord>, p: Coord, keep: int, from: int)
    requires
        0 <= from,
        keep >= 1,
        chain.len() >= keep,
        from + 1 >= keep,
        bends_left(w, chain, from),
    ensures
        ({
            let t = trimmed(w, chain, p, keep);
            &&& keep <= t.len() <= chain.len()
            &&& t == chain.take(t.len() as int)
            &&& bends_left(w, t.push(p), from)
        }),
    decreases chain.len(),
{
    let t = trimmed(w, chain, p, keep);
    if chain.len() > keep && chain.len() >= 2 && (w.ask)(
        Question::NotLeft(chain[chain.len() - 2], chain[chain.len() - 1], p),
    ) == 1 {
        let c = chain.drop_last();
        assert forall|i: int| from <= i && i + 2 < c.len() implies #[trigger] turns_left(w, c, i) by {
            assert(turns_left(w, chain, i));
        }
        lemma_trimmed(w, c, p, keep, from);
        assert(t =~= chain.take(t.len() as int));
    } else {
        assert(t == chain);
        assert(chain.take(chain.len() as int) =~= chain);
        let u = t.push(p);
        assert forall|i: int| from <= i && i + 2 < u.len() implies #[trigger] turns_left(w, u, i) by {
            if i + 2 < chain.len() {
                assert(turns_left(w, chain, i));
                assert(u[i] == chain[i] && u[i + 1] == chain[i + 1] && u[i + 2] == chain[i + 2]);
            } else {
                assert(i == chain.len() - 2);
                assert(u[i + 2] == p);
                assert(chain.len() > keep);
            }
        }
    }
}

proof fn lemma_lower(w: PlaneView, s: Seq<Coord>, n: int)
    requires
        1 <= n <= s.len(),
    ensures
        ({
            let c = lower_chain(w, s, n);
            &&& c.len() >= 1
            &&& c[0] == s[0]
            &&& c.last() == s[n - 1]
            &&& bends_left(w, c, 0)
        }),
    decreases n,
{
    if n == 1 {
        reveal_with_fuel(lower_chain, 2);
        assert(trimmed(w, Seq::<Coord>::empty(), s[0], 1) =~= seq![]);
        assert(lower_chain(w, s, 1) =~= seq![s[0]]);
    } else {
        lemma_lower(w, s, n - 1);
        lemma_trimmed(w, lower_chain(w, s, n - 1), s[n - 1], 1, 0);
    }
}

/// The lower side of the hull of sorted points goes from the first to the last
/// of them and turns left at each corner.
pub proof fn law_lower_side(w: PlaneView, s: Seq<Coord>)
    requires
        s.len() >= 1,
    ensures
        ({
            let c = lower_chain(w, s, s.len() as int);
            &&& c[0] == s[0]
            &&& c.last() == s.last()
            &&& bends_left(w, c, 0)
        }),
{
    lemma_lower(w, s, s.len() as int);
}

proof fn lemma_upper(w: PlaneView, s: Seq<Coord>, chain: Seq<Coord>, n: int)
    requires
        0 <= n <= s.len(),
        chain.len() >= 1,
    ensures
        ({
            let c = upper_chain(w, s, chain, n);
            &&& c.len() >= chain.len()
            &&& c.take(chain.len() as int) == chain
            &&& n >= 1 ==> c.len() > chain.len() && c.last() == s[s.len() - n]
            &&& bends_left(w, c, chain.len() - 1)
        }),
    decreases n,
{
    if n == 0 {
        assert(chain.take(chain.len() as int) =~= chain);
    } else {
        lemma_upper(w, s, chain, n - 1);
        let before = upper_chain(w, s, chain, n - 1);
        let p = s[s.len() - n];
        lemma_trimmed(w, before, p, chain.len() as int, chain.len() - 1);
        let t = trimmed(w, before, p, chain.len() as int);
        let c = upper_chain(w, s, chain, n);
        assert(c == t.push(p));
        assert(c.take(chain.len() as int) =~= before.take(chain.len() as int)) by {
            assert(t == before.take(t.len() as int));
        }
    }
}

/// The upper side goes on from there back to the first point, and turns left at
/// each corner.
pub proof fn law_upper_side(w: PlaneView, s: Seq<Coord>, chain: Seq<Coord>)
    requires
        s.len() >= 1,
        chain.len() >= 1,
    ensures
        ({
            let c = upper_chain(w, s, chain, s.len() as int);
            &&& c.len() > chain.len()
            &&& c.take(chain.len() as int) == chain
            &&& c.last() == s[0]
            &&& bends_left(w, c, chain.len() - 1)
        }),
{
    lemma_upper(w, s, chain, s.len() as int);
}

proof fn lemma_point_place(sorted: Seq<Coord>, x: Coord, n: int)
    requires
        0 <= n <= sorted.len(),
    ensures
        0 <= point_place(sorted, x, n) <= n,
        forall|k: int| point_place(sorted, x, n) <= k < n ==> goes_before(x, #[trigger] sorted[k]),
        point_place(sorted, x, n) > 0 ==> !goes_before(x, sorted[point_place(sorted, x, n) - 1]),
    decreases n,
{
    if n > 0 && goes_before(x, sorted[n - 1]) {
        lemma_point_place(sorted, x, n - 1);
    }
}

/// Whether all coordinates are numbers.
pub open spec fn are_numbers(s: Seq<Coord>) -> bool {
    forall|i: int| 0 <= i < s.len() ==> !is_nan((#[trigger] s[i]).0) && !is_nan(s[i].1)
}

/// Whether a point is left of another, or below it at the same place.
pub open spec fn left_or_below(a: Coord, b: Coord) -> bool {
    less(a.0, b.0) || (!less(b.0, a.0) && at_most(a.1, b.1))
}

/// The points of a hull are taken from left to right, and from below at the
/// same place; none is lost.
pub proof fn law_sorted_points(s: Seq<Coord>, n: int)
    requires
        0 <= n <= s.len(),
        are_numbers(s),
    ensures
        sorted_points(s, n).to_multiset() == s.take(n).to_multiset(),
        are_numbers(sorted_points(s, n)),
        forall|i: int, j: int|
            0 <= i < j < sorted_points(s, n).len() ==> left_or_below(
                #[trigger] sorted_points(s, n)[i],
                #[trigger] sorted_points(s, n)[j],
            ),
    decreases n,
{
    broadcast use vstd::seq_lib::group_to_multiset_ensures;

    let r = sorted_points(s, n);
    if n == 0 {
        assert(s.take(0) =~= Seq::<Coord>::empty());
    } else {
        law_sorted_points(s, n - 1);
        let before = sorted_points(s, n - 1);
        let x = s[n - 1];
        let p = point_place(before, x, before.len() as int);
        lemma_point_place(before, x, before.len() as int);
        assert(s.take(n) =~= s.take(n - 1).push(x));
        assert(r == before.insert(p, x));
        assert forall|i: int| 0 <= i < r.len() implies !is_nan((#[trigger] r[i]).0) && !is_nan(
            r[i].1,
        ) by {
            if i < p {
                assert(r[i] == before[i]);
            } else if i > p {
                assert(r[i] == before[i - 1]);
            }
        }
        assert forall|i: int, j: int| 0 <= i < j < r.len() implies left_or_below(
            #[trigger] r[i],
            #[trigger] r[j],
        ) by {
            if j == p {
                assert(r[i] == before[i]);
                assert(left_or_below(before[p - 1], x));
                if i < p - 1 {
                    assert(left_or_below(before[i], before[p - 1]));
                }
            } else if i == p {
                assert(r[j] == before[j - 1]);
                assert(goes_before(x, before[j - 1]));
            } else {
                let a = if i < p {
                    i
                } else {
                    i - 1
                };
                let b = if j < p {
                    j
                } else {
                    j - 1
                };
                assert(left_or_below(before[a], before[b]));
            }
        }
    }
}

/// The hull of more than two different points holds the leftmost and the
/// rightmost of them.
pub proof fn law_hull_extremes(w: PlaneView, points: Seq<Coord>)
    requires
        points.len() > 2,
    ensures
        ({
            let sorted = sorted_points(points, points.len() as int);
            let s = distinct(w, sorted, sorted.len() as int);
            s.len() > 2 ==> hull(w, points)[0] == s[0] && hull(w, points).contains(s.last())
        }),
{
    let sorted = sorted_points(points, points.len() as int);
    let s = distinct(w, sorted, sorted.len() as int);
    if s.len() > 2 {
        let n = s.len() as int;
        let lower = lower_chain(w, s, n);
        law_lower_side(w, s);
        law_upper_side(w, s, lower);
        let c = upper_chain(w, s, lower, n);
        let h = hull(w, points);
        let k = lower.len() - 1;
        assert(c.take(lower.len() as int)[k] == lower[k]);
        assert(c.take(lower.len() as int)[0] == lower[0]);
        assert(h[k] == s.last());
    }
}

/// Consecutive points that are kept are not taken for one, and every point left
/// out is taken for the one kept before it.
pub proof fn law_distinct_points(w: PlaneView, s: Seq<Coord>, n: int)
    requires
        1 <= n <= s.len(),
    ensures
        distinct(w, s, n).len() >= 1,
        distinct(w, s, n)[0] == s[0],
        distinct(w, s, n).last() == s[n - 1] || same(
            w,
            s[n - 1],
            distinct(w, s, n).last(),
        ),
        forall|i: int|
            1 <= i < distinct(w, s, n).len() ==> !same(
                w,
                #[trigger] distinct(w, s, n)[i],
                distinct(w, s, n)[i - 1],
            ),
    decreases n,
{
    if n == 1 {
        reveal_with_fuel(distinct, 2);
        assert(distinct(w, s, 1) =~= seq![s[0]]);
    } else {
        law_distinct_points(w, s, n - 1);
    }
}

/// Around a polygon is its grown box: a closed ring over its four corners.
pub proof fn law_area_of_polygon(w: PlaneView, b: BrushView, r: Seq<Seq<Coord>>)
    requires
        points_box(r[0]) is Some,
    ensures
        ({
            let g = (b.grown)(points_box(r[0])->0);
            area_around(w, b, Shape::Polygon(r)) == Shape::Polygon(
                seq![
                    seq![
                        (g.min_x, g.min_y),
                        (g.max_x, g.min_y),
                        (g.max_x, g.max_y),
                        (g.min_x, g.max_y),
                        (g.min_x, g.min_y),
                    ],
                ],
            )
        }),
{
    let g = (b.grown)(points_box(r[0])->0);
    let c = corners(g);
    assert(c.push(c[0]) =~= seq![
        (g.min_x, g.min_y),
        (g.max_x, g.min_y),
        (g.max_x, g.max_y),
        (g.min_x, g.max_y),
        (g.min_x, g.min_y),
    ]);
}

proof fn lemma_rings(b: BrushView, s: Seq<Coord>, n: int, p: Coord)
    requires
        0 <= n <= s.len(),
    ensures
        rings_around(b, s, n).contains(p) <==> exists|i: int|
            0 <= i < n && (b.ring)(#[trigger] s[i]).contains(p),
    decreases n,
{
    if n > 0 {
        lemma_rings(b, s, n - 1, p);
        let before = rings_around(b, s, n - 1);
        let here = (b.ring)(s[n - 1]);
        let all = rings_around(b, s, n);
        if before.contains(p) {
            assert(all[before.index_of(p)] == p);
        }
        if here.contains(p) {
            assert(all[before.len() + here.index_of(p)] == p);
        }
        if all.contains(p) {
            let k = all.index_of(p);
            if k < before.len() {
                assert(before[k] == p);
            } else {
                assert(here[k - before.len()] == p);
            }
        }
    }
}

/// The area around a line is the hull of the rings around its corners; around a
/// point it is the ring; without a distance above zero it is the geometry.
pub proof fn law_area_of_line(w: PlaneView, b: BrushView, s: Seq<Coord>, p: Coord, distance: u64)
    ensures
        exists|around: Seq<Coord>|
            #![auto]
            area_around(w, b, Shape::LineString(s)) == Shape::<u64>::Polygon(
                seq![hull(w, around)],
            ) && area_around(w, b, Shape::MultiPoint(s)) == area_around(w, b, Shape::LineString(s))
                && (around.contains(p) <==> exists|i: int|
                0 <= i < s.len() && (b.ring)(#[trigger] s[i]).contains(p)),
        area_around(w, b, Shape::Point(p)) == Shape::<u64>::Polygon(seq![(b.ring)(p)]),
        at_most(distance, 0) ==> buffer_of(w, b, Shape::LineString(s), distance)
            == Shape::<u64>::LineString(s),
        less(0, distance) ==> buffer_of(w, b, Shape::LineString(s), distance) == area_around(
            w,
            b,
            Shape::LineString(s),
        ),
{
    let around = rings_around(b, s, s.len() as int);
    lemma_rings(b, s, s.len() as int, p);
    assert(area_around(w, b, Shape::LineString(s)) == Shape::<u64>::Polygon(
        seq![hull(w, around)],
    ));
}

} // verus!
