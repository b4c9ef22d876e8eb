use cendb::spatial::buffer::{buffer, copy_geometry, Brush};
use cendb::spatial::distance::{distance, Measure, Ruler};
use cendb::spatial::geometry::{
    BoundingBox, Geometry, LineString, MultiPoint, Point, Polygon,
};
use cendb::spatial::plane::{Coord, Loc, Plane, Question};
use cendb::spatial::predicates::{
    contains, crosses, disjoint, equals, intersects, overlaps, touches, within,
};
use cendb::spatial::rtree::{Gauge, RTree, Reach};

const EPS: f64 = 1e-12;

fn b(x: f64) -> u64 {
    x.to_bits()
}

fn f(bits: u64) -> f64 {
    f64::from_bits(bits)
}

fn at(x: f64, y: f64) -> Point<u64> {
    Point::new(b(x), b(y))
}

fn pairs(coords: &[(f64, f64)]) -> Vec<(u64, u64)> {
    coords.iter().map(|(x, y)| (b(*x), b(*y))).collect()
}

fn line(coords: &[(f64, f64)]) -> LineString<u64> {
    LineString::from_xy(&pairs(coords))
}

fn point(x: f64, y: f64) -> Geometry<u64> {
    Geometry::point(b(x), b(y))
}

fn line_string(coords: &[(f64, f64)]) -> Geometry<u64> {
    Geometry::line_string(&pairs(coords))
}

fn polygon(coords: &[(f64, f64)]) -> Geometry<u64> {
    Geometry::polygon(&pairs(coords))
}

fn place(x: f64, y: f64) -> Coord {
    (b(x), b(y))
}

fn cross(o: Coord, a: Coord, c: Coord) -> f64 {
    (f(a.0) - f(o.0)) * (f(c.1) - f(o.1)) - (f(a.1) - f(o.1)) * (f(c.0) - f(o.0))
}

fn answer(question: Question) -> u8 {
    match question {
        Question::Turn(p, q, r) => {
            let val = (f(q.1) - f(p.1)) * (f(r.0) - f(q.0)) - (f(q.0) - f(p.0)) * (f(r.1) - f(q.1));
            if val.abs() < EPS {
                0
            } else if val > 0.0 {
                1
            } else {
                2
            }
        }
        Question::Along(p, q, r) => {
            let inside = f(r.0) >= f(p.0).min(f(q.0)) - EPS
                && f(r.0) <= f(p.0).max(f(q.0)) + EPS
                && f(r.1) >= f(p.1).min(f(q.1)) - EPS
                && f(r.1) <= f(p.1).max(f(q.1)) + EPS;
            inside as u8
        }
        Question::Same(p, q) => {
            ((f(p.0) - f(q.0)).abs() < EPS && (f(p.1) - f(q.1)).abs() < EPS) as u8
        }
        Question::Beyond(p, q, r) => {
            let x = f(p.0) + (f(r.1) - f(p.1)) * (f(q.0) - f(p.0)) / (f(q.1) - f(p.1));
            (x > f(r.0)) as u8
        }
        Question::NotLeft(p, q, r) => (cross(p, q, r) <= 0.0) as u8,
    }
}

fn middle(p: Coord, q: Coord) -> Coord {
    place((f(p.0) + f(q.0)) / 2.0, (f(p.1) + f(q.1)) / 2.0)
}

fn plane() -> Plane<impl Fn(Question) -> u8, impl Fn(Coord, Coord) -> Coord> {
    Plane { ask: answer, middle }
}

fn apart(p: Coord, q: Coord) -> f64 {
    let dx = f(p.0) - f(q.0);
    let dy = f(p.1) - f(q.1);
    (dx * dx + dy * dy).sqrt()
}

fn length(measure: Measure) -> u64 {
    match measure {
        Measure::Points(p, q) => b(apart(p, q)),
        Measure::Segment(p, a, c) => {
            let (dx, dy) = (f(c.0) - f(a.0), f(c.1) - f(a.1));
            let square = dx * dx + dy * dy;
            if square < EPS {
                return b(apart(p, a));
            }
            let along = (f(p.0) - f(a.0)) * dx + (f(p.1) - f(a.1)) * dy;
            let t = (along / square).clamp(0.0, 1.0);
            b(apart(p, place(f(a.0) + t * dx, f(a.1) + t * dy)))
        }
    }
}

fn ruler() -> Ruler<impl Fn(Measure) -> u64> {
    Ruler { length }
}

fn circle(center: Coord, r: f64) -> Vec<Coord> {
    let mut ring: Vec<Coord> = (0..16)
        .map(|i| {
            let theta = 2.0 * std::f64::consts::PI * (i as f64) / 16.0;
            place(f(center.0) + r * theta.cos(), f(center.1) + r * theta.sin())
        })
        .collect();
    ring.push(ring[0]);
    ring
}

fn buffered(geom: &Geometry<u64>, by: f64) -> Geometry<u64> {
    let brush = Brush {
        ring: |p: Coord| circle(p, by),
        grown: |bb: BoundingBox| BoundingBox::from_corners(
            b(f(bb.min_x) - by),
            b(f(bb.min_y) - by),
            b(f(bb.max_x) + by),
            b(f(bb.max_y) + by),
        ),
    };
    buffer(&plane(), &brush, geom, b(by))
}

fn extent(min_x: f64, max_x: f64, min_y: f64, max_y: f64) -> BoundingBox {
    BoundingBox::new(b(min_x), b(max_x), b(min_y), b(max_y))
}

fn center(bb: BoundingBox) -> Coord {
    place((f(bb.min_x) + f(bb.max_x)) / 2.0, (f(bb.min_y) + f(bb.max_y)) / 2.0)
}

fn bbox_within_distance(a: &BoundingBox, c: &BoundingBox, dist: f64) -> bool {
    let gap = |low: f64, high: f64, other_low: f64, other_high: f64| {
        if high < other_low {
            other_low - high
        } else if other_high < low {
            low - other_high
        } else {
            0.0
        }
    };
    let dx = gap(f(a.min_x), f(a.max_x), f(c.min_x), f(c.max_x));
    let dy = gap(f(a.min_y), f(a.max_y), f(c.min_y), f(c.max_y));
    dx * dx + dy * dy <= dist * dist
}

fn nearest(tree: &RTree, x: f64, y: f64, k: usize) -> Vec<(u64, f64)> {
    let reach = Reach { apart: |bb: BoundingBox| b(apart(center(bb), place(x, y))) };
    tree.knn(&reach, k).into_iter().map(|(id, bits)| (id, f(bits))).collect()
}

fn within_reach(tree: &RTree, geom: &Geometry<u64>, dist: f64) -> Vec<(u64, f64)> {
    let gauge = Gauge {
        near: |a: BoundingBox, c: BoundingBox| bbox_within_distance(&a, &c, dist),
        center,
    };
    tree.query_within_distance(&plane(), &ruler(), &gauge, geom, b(dist))
        .into_iter()
        .map(|(id, bits)| (id, f(bits)))
        .collect()
}

fn unit_square() -> Polygon<u64> {
    Polygon::from_exterior(line(&[
        (0.0, 0.0),
        (1.0, 0.0),
        (1.0, 1.0),
        (0.0, 1.0),
        (0.0, 0.0),
    ]))
}

fn square_at(minx: f64, miny: f64, maxx: f64, maxy: f64) -> Polygon<u64> {
    Polygon::from_exterior(line(&[
        (minx, miny),
        (maxx, miny),
        (maxx, maxy),
        (minx, maxy),
        (minx, miny),
    ]))
}

#[test]
fn intersects_point_polygon_inside() {
    let poly = unit_square();
    let p = point(0.5, 0.5);
    assert!(intersects(&plane(), &p, &Geometry::Polygon(poly)));
}

#[test]
fn intersects_point_polygon_outside() {
    let poly = unit_square();
    let p = point(2.0, 2.0);
    assert!(!intersects(&plane(), &p, &Geometry::Polygon(poly)));
}

#[test]
fn intersects_line_crosses_polygon() {
    let poly = unit_square();
    let ls = line_string(&[(-1.0, 0.5), (2.0, 0.5)]);
    assert!(intersects(&plane(), &ls, &Geometry::Polygon(poly)));
}

#[test]
fn intersects_polygon_polygon_overlap() {
    let a = square_at(0.0, 0.0, 2.0, 2.0);
    let b = square_at(1.0, 1.0, 3.0, 3.0);
    assert!(intersects(&plane(), &Geometry::Polygon(a), &Geometry::Polygon(b)));
}

#[test]
fn intersects_polygon_polygon_disjoint() {
    let a = square_at(0.0, 0.0, 1.0, 1.0);
    let b = square_at(10.0, 10.0, 11.0, 11.0);
    assert!(!intersects(&plane(), &Geometry::Polygon(a), &Geometry::Polygon(b)));
}

#[test]
fn contains_polygon_point_inside() {
    let poly = unit_square();
    let p = point(0.5, 0.5);
    assert!(contains(&plane(), &Geometry::Polygon(poly), &p));
}

#[test]
fn contains_polygon_point_on_boundary() {
    let poly = unit_square();
    let p = point(0.0, 0.5);
    assert!(!contains(&plane(), &Geometry::Polygon(poly), &p));
}

#[test]
fn contains_polygon_point_outside() {
    let poly = unit_square();
    let p = point(2.0, 2.0);
    assert!(!contains(&plane(), &Geometry::Polygon(poly), &p));
}

#[test]
fn within_is_inverse_of_contains() {
    let poly = Geometry::Polygon(unit_square());
    let p = point(0.5, 0.5);
    assert!(contains(&plane(), &poly, &p));
    assert!(within(&plane(), &p, &poly));
}

#[test]
fn equals_points() {
    let p = point(1.0, 2.0);
    let q = point(1.0, 2.0);
    let r = point(1.0, 3.0);
    assert!(equals(&plane(), &p, &q));
    assert!(!equals(&plane(), &p, &r));
}

#[test]
fn equals_linestrings_reversed() {
    let a = line_string(&[(0.0, 0.0), (1.0, 1.0), (2.0, 2.0)]);
    let b = line_string(&[(2.0, 2.0), (1.0, 1.0), (0.0, 0.0)]);
    assert!(equals(&plane(), &a, &b));
}

#[test]
fn equals_polygons_reversed() {
    let a = polygon(&[(0.0, 0.0), (1.0, 0.0), (1.0, 1.0), (0.0, 1.0), (0.0, 0.0)]);
    let b = polygon(&[(0.0, 0.0), (0.0, 1.0), (1.0, 1.0), (1.0, 0.0), (0.0, 0.0)]);
    assert!(equals(&plane(), &a, &b));
}

#[test]
fn disjoint_points() {
    let a = point(0.0, 0.0);
    let b = point(1.0, 1.0);
    assert!(disjoint(&plane(), &a, &b));
    assert!(!intersects(&plane(), &a, &b));
}

#[test]
fn touches_polygons_share_edge() {
    let a = Geometry::Polygon(square_at(0.0, 0.0, 1.0, 1.0));
    let b = Geometry::Polygon(square_at(1.0, 0.0, 2.0, 1.0));
    assert!(touches(&plane(), &a, &b));
}

#[test]
fn touches_point_on_polygon_boundary() {
    let poly = Geometry::Polygon(unit_square());
    let p = point(0.0, 0.5);
    assert!(touches(&plane(), &poly, &p));
}

#[test]
fn crosses_line_polygon() {
    let poly = Geometry::Polygon(unit_square());
    let ls = line_string(&[(-1.0, 0.5), (2.0, 0.5)]);
    assert!(crosses(&plane(), &ls, &poly));
}

#[test]
fn crosses_line_line() {
    let a = line_string(&[(-1.0, 0.0), (2.0, 0.0)]);
    let b = line_string(&[(0.5, -1.0), (0.5, 2.0)]);
    assert!(crosses(&plane(), &a, &b));
}

#[test]
fn overlaps_polygons() {
    let a = Geometry::Polygon(square_at(0.0, 0.0, 2.0, 2.0));
    let b = Geometry::Polygon(square_at(1.0, 1.0, 3.0, 3.0));
    assert!(overlaps(&plane(), &a, &b));
}

#[test]
fn overlaps_not_when_one_contains_other() {
    let a = Geometry::Polygon(square_at(0.0, 0.0, 4.0, 4.0));
    let b = Geometry::Polygon(square_at(1.0, 1.0, 2.0, 2.0));
    assert!(!overlaps(&plane(), &a, &b));
}

#[test]
fn distance_point_point() {
    let a = point(0.0, 0.0);
    let b = point(3.0, 4.0);
    assert!((f(distance(&plane(), &ruler(), &a, &b)) - 5.0).abs() < 1e-9);
}

#[test]
fn distance_point_line() {
    let a = point(0.0, 1.0);
    let b = line_string(&[(-1.0, 0.0), (1.0, 0.0)]);
    assert!((f(distance(&plane(), &ruler(), &a, &b)) - 1.0).abs() < 1e-9);
}

#[test]
fn distance_point_polygon_inside_is_zero() {
    let a = point(0.5, 0.5);
    let b = Geometry::Polygon(unit_square());
    assert_eq!(f(distance(&plane(), &ruler(), &a, &b)), 0.0);
}

#[test]
fn buffer_point_returns_polygon_containing_point() {
    let p = point(0.0, 0.0);
    let buf = buffered(&p, 1.0);
    match buf {
        Geometry::Polygon(poly) => {
            let g = Geometry::Polygon(poly);
            assert!(contains(&plane(), &g, &p) || intersects(&plane(), &g, &p));
            let inside_pt = point(0.5, 0.0);
            assert!(intersects(&plane(), &g, &inside_pt));
            let outside_pt = point(2.0, 0.0);
            assert!(!intersects(&plane(), &g, &outside_pt));
        }
        _ => panic!("buffer of point should be a polygon"),
    }
}

#[test]
fn buffer_linestring_contains_neighbours() {
    let ls = line_string(&[(0.0, 0.0), (1.0, 0.0)]);
    let buf = buffered(&ls, 0.5);
    match buf {
        Geometry::Polygon(poly) => {
            let g = Geometry::Polygon(poly);
            let near = point(0.5, 0.25);
            assert!(intersects(&plane(), &g, &near));
            let far = point(0.5, 5.0);
            assert!(!intersects(&plane(), &g, &far));
        }
        _ => panic!("buffer of linestring should be a polygon"),
    }
}

#[test]
fn convex_hull_basic() {
    let pts = vec![
        place(0.0, 0.0),
        place(1.0, 0.0),
        place(0.0, 1.0),
        place(0.5, 0.5),
    ];
    let hull = plane().convex_hull(&pts);
    assert!(hull.len() == 4);
}

#[test]
fn insert_and_search_bbox() {
    let mut tree = RTree::new();
    tree.insert_point(1, at(10.0, 10.0));
    tree.insert_point(2, at(50.0, 50.0));
    tree.insert_point(3, at(90.0, 90.0));

    let results = tree.search(&extent(0.0, 20.0, 0.0, 20.0));
    assert_eq!(results, vec![1]);

    let results = tree.search(&extent(40.0, 100.0, 40.0, 100.0));
    assert!(results.contains(&2));
    assert!(results.contains(&3));
}

#[test]
fn knn_search() {
    let mut tree = RTree::new();
    for i in 0..100u64 {
        tree.insert_point(i, at(i as f64, i as f64));
    }

    let results = nearest(&tree, 50.0, 50.0, 3);
    assert_eq!(results.len(), 3);
    assert_eq!(results[0].0, 50);
}

#[test]
fn query_intersects_point() {
    let mut tree = RTree::new();
    tree.insert_geometry(1, polygon(&[(0.0, 0.0), (10.0, 0.0), (10.0, 10.0), (0.0, 10.0), (0.0, 0.0)]));
    tree.insert_geometry(2, polygon(&[(100.0, 100.0), (110.0, 100.0), (110.0, 110.0), (100.0, 110.0), (100.0, 100.0)]));

    let q = point(5.0, 5.0);
    let hits = tree.query_intersects(&plane(), &q);
    assert_eq!(hits, vec![1]);

    let q = point(105.0, 105.0);
    let hits = tree.query_intersects(&plane(), &q);
    assert_eq!(hits, vec![2]);

    let q = point(50.0, 50.0);
    let hits = tree.query_intersects(&plane(), &q);
    assert!(hits.is_empty());
}

#[test]
fn query_intersects_polygon() {
    let mut tree = RTree::new();
    tree.insert_geometry(1, polygon(&[(0.0, 0.0), (10.0, 0.0), (10.0, 10.0), (0.0, 10.0), (0.0, 0.0)]));
    tree.insert_geometry(2, polygon(&[(100.0, 100.0), (110.0, 100.0), (110.0, 110.0), (100.0, 110.0), (100.0, 100.0)]));

    let q = polygon(&[(5.0, 5.0), (15.0, 5.0), (15.0, 15.0), (5.0, 15.0), (5.0, 5.0)]);
    let hits = tree.query_intersects(&plane(), &q);
    assert_eq!(hits, vec![1]);
}

#[test]
fn query_within_distance_point() {
    let mut tree = RTree::new();
    tree.insert_geometry(1, point(0.0, 0.0));
    tree.insert_geometry(2, point(10.0, 0.0));
    tree.insert_geometry(3, point(100.0, 0.0));

    let q = point(5.0, 0.0);
    let hits = within_reach(&tree, &q, 6.0);
    assert_eq!(hits.len(), 2);
    assert!(hits.iter().any(|(id, d)| *id == 1 && (*d - 5.0).abs() < 1e-9));
    assert!(hits.iter().any(|(id, d)| *id == 2 && (*d - 5.0).abs() < 1e-9));

    assert!(hits[0].1 <= hits[1].1);
}

#[test]
fn query_within_distance_excludes_far_points() {
    let mut tree = RTree::new();
    tree.insert_geometry(1, point(0.0, 0.0));
    tree.insert_geometry(2, point(100.0, 100.0));

    let q = point(0.0, 0.0);
    let hits = within_reach(&tree, &q, 5.0);
    assert_eq!(hits.len(), 1);
    assert_eq!(hits[0].0, 1);
    assert!(hits[0].1.abs() < 1e-9);
}

#[test]
fn query_contains_polygon() {
    let mut tree = RTree::new();
    tree.insert_geometry(1, polygon(&[(0.0, 0.0), (100.0, 0.0), (100.0, 100.0), (0.0, 100.0), (0.0, 0.0)]));
    tree.insert_geometry(2, polygon(&[(0.0, 0.0), (1.0, 0.0), (1.0, 1.0), (0.0, 1.0), (0.0, 0.0)]));

    let q = point(50.0, 50.0);
    let hits = tree.query_contains(&plane(), &q);
    assert_eq!(hits, vec![1]);
}

#[test]
fn query_intersects_with_bbox_only_entry() {
    let mut tree = RTree::new();
    tree.insert_bbox(1, extent(0.0, 10.0, 0.0, 10.0));
    tree.insert_bbox(2, extent(100.0, 110.0, 100.0, 110.0));

    let q = point(5.0, 5.0);
    let hits = tree.query_intersects(&plane(), &q);
    assert_eq!(hits, vec![1]);
}

#[test]
fn bbox_within_distance_helper() {
    let a = extent(0.0, 1.0, 0.0, 1.0);
    let b = extent(3.0, 4.0, 0.0, 1.0);
    assert!(bbox_within_distance(&a, &b, 2.0));
    assert!(bbox_within_distance(&a, &b, 3.0));
    assert!(!bbox_within_distance(&a, &b, 1.0));
}

#[test]
fn lines_that_cross_are_no_distance_apart() {
    let a = line_string(&[(-1.0, 0.0), (1.0, 0.0)]);
    let c = line_string(&[(0.0, -1.0), (0.0, 1.0)]);
    assert_eq!(f(distance(&plane(), &ruler(), &a, &c)), 0.0);
    let d = line_string(&[(-1.0, 3.0), (1.0, 3.0)]);
    assert_eq!(f(distance(&plane(), &ruler(), &a, &d)), 3.0);

    let road = line_string(&[(0.0, 0.0), (1.0, 0.0), (3.0, 0.0)]);
    assert!(contains(&plane(), &line_string(&[(0.0, 0.0), (2.0, 0.0)]), &point(1.0, 0.0)));
    assert!(contains(&plane(), &road, &point(1.0, 0.0)));
    assert!(!contains(&plane(), &road, &point(0.0, 0.0)));
    assert!(!contains(&plane(), &road, &point(1.0, 1.0)));
    assert!(contains(&plane(), &road, &line_string(&[(0.5, 0.0), (2.0, 0.0)])));
    assert!(!contains(&plane(), &road, &line_string(&[(0.5, 0.0), (2.0, 1.0)])));
    assert!(!contains(&plane(), &road, &line_string(&[(0.5, 0.0), (4.0, 0.0)])));
    assert!(within(&plane(), &point(2.0, 0.0), &road));
    assert!(contains(&plane(), &point(1.0, 0.0), &point(1.0, 0.0)));
    assert!(!contains(&plane(), &point(1.0, 0.0), &road));
    let ring = line_string(&[(0.0, 0.0), (2.0, 0.0), (1.0, 2.0), (0.0, 0.0)]);
    assert!(contains(&plane(), &ring, &point(0.0, 0.0)));
    let mut tree = RTree::new();
    tree.insert_geometry(7, road);
    assert_eq!(tree.query_contains(&plane(), &point(2.0, 0.0)), vec![7]);
}

#[test]
fn collections_are_taken_part_by_part() {
    let square = Geometry::Polygon(unit_square());
    let some = Geometry::MultiPoint(MultiPoint::new(vec![at(9.0, 9.0), at(0.5, 0.5)]));
    let none = Geometry::MultiPoint(MultiPoint::new(vec![at(9.0, 9.0), at(8.0, 8.0)]));
    assert!(intersects(&plane(), &some, &square));
    assert!(!intersects(&plane(), &none, &square));
    assert!(disjoint(&plane(), &none, &square));
    let inside = Geometry::MultiPoint(MultiPoint::new(vec![at(0.25, 0.5), at(0.5, 0.5)]));
    let nested = Geometry::GeometryCollection(vec![inside]);
    assert!(intersects(&plane(), &nested, &square));
    assert!(contains(&plane(), &square, &nested));
    assert!(!contains(&plane(), &square, &some));
    assert!(!contains(&plane(), &Geometry::GeometryCollection(vec![]), &square));
    let away = f(distance(&plane(), &ruler(), &none, &square));
    assert!((away - 98.0f64.sqrt()).abs() < 1e-9);
}

#[test]
fn shapes_that_are_not_finite_meet_nothing() {
    let odd = point(f64::NAN, 0.0);
    let square = Geometry::Polygon(unit_square());
    assert!(!intersects(&plane(), &odd, &square));
    assert!(!equals(&plane(), &odd, &odd));
    assert!(!touches(&plane(), &odd, &square));
    assert!(!crosses(&plane(), &odd, &square));
    assert!(!contains(&plane(), &square, &odd));
    assert!(f(distance(&plane(), &ruler(), &odd, &square)).is_nan());
}

#[test]
fn holes_and_touching_lines() {
    let a = line_string(&[(0.0, 0.0), (1.0, 0.0)]);
    let c = line_string(&[(1.0, 0.0), (2.0, 0.0)]);
    assert_eq!(
        touches(&plane(), &a, &c) && crosses(&plane(), &a, &c),
        false
    );

    let ring = [(0.0, 0.0), (4.0, 0.0), (4.0, 4.0), (0.0, 4.0), (0.0, 0.0)];
    let hole = [(1.0, 1.0), (3.0, 1.0), (3.0, 3.0), (1.0, 3.0), (1.0, 1.0)];
    let poly = Polygon::new(line(&ring), vec![line(&hole)]);
    assert_eq!(plane().point_in_polygon(place(2.0, 2.0), &poly), Loc::Outside);
    assert_eq!(plane().point_in_polygon(place(0.5, 0.5), &poly), Loc::Inside);
    assert_eq!(plane().point_in_polygon(place(1.0, 2.0), &poly), Loc::Boundary);
    assert_eq!(plane().point_in_polygon(place(9.0, 2.0), &poly), Loc::Outside);
    let g = Geometry::Polygon(poly);
    assert!(!intersects(&plane(), &g, &point(2.0, 2.0)));
    assert!(!contains(&plane(), &a, &g) && !overlaps(&plane(), &a, &g));

    let outer = [(0.0, 0.0), (10.0, 0.0), (10.0, 10.0), (0.0, 10.0), (0.0, 0.0)];
    let dent = [(1.0, 1.0), (5.0, 4.0), (9.0, 1.0), (9.0, 9.0), (1.0, 9.0), (1.0, 1.0)];
    let frame = Geometry::Polygon(Polygon::new(line(&outer), vec![line(&dent)]));
    let bar = polygon(&[(3.0, 5.0), (7.0, 5.0), (7.0, 6.0), (3.0, 6.0), (3.0, 5.0)]);
    assert!((f(distance(&plane(), &ruler(), &frame, &bar)) - 1.0).abs() < 1e-9);
    assert!((f(distance(&plane(), &ruler(), &bar, &frame)) - 1.0).abs() < 1e-9);
    let away = f(distance(&plane(), &ruler(), &g, &point(2.0, 2.0)));
    assert!((away - 1.0).abs() < 1e-9);
}

#[test]
fn hull_leaves_out_inner_points() {
    let pts = vec![
        place(0.0, 0.0),
        place(2.0, 0.0),
        place(2.0, 2.0),
        place(0.0, 2.0),
        place(1.0, 1.0),
        place(0.0, 0.0),
    ];
    assert_eq!(
        plane().convex_hull(&pts),
        vec![
            place(0.0, 0.0),
            place(2.0, 0.0),
            place(2.0, 2.0),
            place(0.0, 2.0),
            place(0.0, 0.0),
        ]
    );
    let two = vec![place(1.0, 1.0), place(0.0, 0.0)];
    assert_eq!(plane().convex_hull(&two), two);
}

#[test]
fn buffers_of_lines_and_polygons() {
    let l = line_string(&[(0.0, 0.0), (1.0, 0.0)]);
    assert_eq!(buffered(&l, 0.0), l);
    assert_eq!(buffered(&l, -1.0), l);
    assert_eq!(copy_geometry(&l), l);

    let grown = buffered(&Geometry::Polygon(unit_square()), 1.0);
    assert_eq!(
        grown,
        polygon(&[(-1.0, -1.0), (2.0, -1.0), (2.0, 2.0), (-1.0, 2.0), (-1.0, -1.0)])
    );
    let many = Geometry::GeometryCollection(vec![point(0.0, 0.0), Geometry::Polygon(unit_square())]);
    match buffered(&many, 1.0) {
        Geometry::GeometryCollection(parts) => assert_eq!(parts[1], grown),
        _ => panic!("expected a collection"),
    }
}

#[test]
fn trees_tell_their_size() {
    let mut tree = RTree::default();
    assert!(tree.is_empty());
    tree.insert_point(2, at(1.0, 1.0));
    assert_eq!(tree.len(), 1);
    assert_eq!(tree.search_point(at(1.0, 1.0)), vec![2]);
    assert!(tree.search_point(at(1.0, 2.0)).is_empty());
    let far = nearest(&tree, 4.0, 5.0, 10);
    assert_eq!(far, vec![(2, 5.0)]);
    tree.insert_geometry(3, Geometry::GeometryCollection(vec![]));
    assert_eq!(tree.search_point(at(0.0, 0.0)), vec![3]);
}
