use cendb::spatial::geometry::{
    BoundingBox, Geometry, LineString, MultiLineString, MultiPoint, MultiPolygon, Point, Polygon,
};

fn b(x: f64) -> u64 {
    x.to_bits()
}

fn f(bits: u64) -> f64 {
    f64::from_bits(bits)
}

fn at(x: f64, y: f64) -> Point<u64> {
    Point::new(b(x), b(y))
}

fn pairs(coords: &[(f64, f64)]) -> Vec<(u64, u64)> {
    coords.iter().map(|(x, y)| (b(*x), b(*y))).collect()
}

fn line(coords: &[(f64, f64)]) -> LineString<u64> {
    LineString::from_xy(&pairs(coords))
}

fn point(x: f64, y: f64) -> Geometry<u64> {
    Geometry::point(b(x), b(y))
}

fn line_string(coords: &[(f64, f64)]) -> Geometry<u64> {
    Geometry::line_string(&pairs(coords))
}

fn polygon(coords: &[(f64, f64)]) -> Geometry<u64> {
    Geometry::polygon(&pairs(coords))
}

fn corners(min_x: f64, min_y: f64, max_x: f64, max_y: f64) -> BoundingBox {
    BoundingBox::from_corners(b(min_x), b(min_y), b(max_x), b(max_y))
}

#[test]
fn linestring_closed_and_bbox() {
    let ls = line(&[(0.0, 0.0), (1.0, 0.0), (1.0, 1.0), (0.0, 0.0)]);
    assert!(ls.is_closed());
    assert_eq!(ls.len(), 4);
    let bb = ls.bounding_box().unwrap();
    assert_eq!(bb, corners(0.0, 0.0, 1.0, 1.0));
}

#[test]
fn polygon_with_hole() {
    let exterior = line(&[(0.0, 0.0), (10.0, 0.0), (10.0, 10.0), (0.0, 10.0), (0.0, 0.0)]);
    let hole = line(&[(2.0, 2.0), (4.0, 2.0), (4.0, 4.0), (2.0, 4.0), (2.0, 2.0)]);
    let poly = Polygon::new(exterior.clone(), vec![hole.clone()]);
    assert_eq!(poly.exterior, exterior);
    assert_eq!(poly.interiors.len(), 1);
    assert_eq!(poly.interiors[0], hole);
    let bb = poly.bounding_box().unwrap();
    assert_eq!(bb, corners(0.0, 0.0, 10.0, 10.0));
}

#[test]
fn bbox_union_intersects_contains() {
    let a = corners(0.0, 0.0, 2.0, 2.0);
    let b = corners(1.0, 1.0, 3.0, 3.0);
    let c = corners(10.0, 10.0, 12.0, 12.0);

    assert!(a.intersects(&b));
    assert!(!a.intersects(&c));

    let u = a.union(&b);
    assert_eq!(u, corners(0.0, 0.0, 3.0, 3.0));

    assert!(a.contains(at(1.0, 1.0)));
    assert!(a.contains(at(0.0, 0.0)));
    assert!(!a.contains(at(2.5, 1.0)));

    let inner = corners(0.5, 0.5, 1.5, 1.5);
    assert!(a.contains_bbox(&inner));
    assert!(!a.contains_bbox(&b));
}

#[test]
fn geometry_dimension_and_bbox() {
    let pt = point(1.0, 2.0);
    let ls = line_string(&[(0.0, 0.0), (1.0, 1.0)]);
    let poly = polygon(&[(0.0, 0.0), (1.0, 0.0), (1.0, 1.0), (0.0, 1.0), (0.0, 0.0)]);
    assert_eq!(pt.dimension(), 0);
    assert_eq!(ls.dimension(), 1);
    assert_eq!(poly.dimension(), 2);
    assert!(pt.bounding_box().is_some());
}

#[test]
fn boxes_hold_the_points_of_all_parts() {
    let many = Geometry::MultiPoint(MultiPoint::new(vec![at(1.0, 5.0), at(-2.0, 0.0)]));
    assert_eq!(many.bounding_box(), Some(corners(-2.0, 0.0, 1.0, 5.0)));
    let lines = Geometry::MultiLineString(MultiLineString::new(vec![
        line(&[(0.0, 0.0), (1.0, 1.0)]),
        line(&[(7.0, -1.0)]),
    ]));
    assert_eq!(lines.bounding_box(), Some(corners(0.0, -1.0, 7.0, 1.0)));
    let areas = Geometry::MultiPolygon(MultiPolygon::new(vec![Polygon::from_exterior(line(&[
        (0.0, 0.0),
        (2.0, 0.0),
        (0.0, 2.0),
        (0.0, 0.0),
    ]))]));
    assert_eq!(areas.bounding_box(), Some(corners(0.0, 0.0, 2.0, 2.0)));
    let all = Geometry::GeometryCollection(vec![many, lines, areas]);
    assert_eq!(all.bounding_box(), Some(corners(-2.0, -1.0, 7.0, 5.0)));
    assert_eq!(all.dimension(), 2);
    assert_eq!(all.components().len(), 3);
    assert!(all.is_valid());
    let nothing: Geometry<u64> = Geometry::GeometryCollection(vec![]);
    assert!(nothing.is_empty());
    assert_eq!(nothing.bounding_box(), None);
}

#[test]
fn points_lines_and_boxes() {
    assert!(at(1.0, 2.0).is_valid());
    assert!(!at(f64::NAN, 2.0).is_valid());
    assert!(!at(1.0, f64::INFINITY).is_valid());
    assert!(!line_string(&[(0.0, 0.0), (f64::NEG_INFINITY, 1.0)]).is_valid());
    assert_eq!(f(b(-0.0)), 0.0);

    let l = line(&[(0.0, 0.0), (1.0, 0.0), (1.0, 1.0)]);
    assert_eq!(l.segments(), vec![(at(0.0, 0.0), at(1.0, 0.0)), (at(1.0, 0.0), at(1.0, 1.0))]);
    assert!(!l.is_closed());
    assert!(line(&[(0.0, 0.0), (1.0, 1.0), (-0.0, 0.0)]).is_closed());
    assert!(line(&[]).is_empty());
    let p = Polygon::new(line(&[]), vec![line(&[]), line(&[])]);
    assert_eq!(p.rings().len(), 3);
    assert_eq!(Geometry::from(at(1.0, 1.0)), point(1.0, 1.0));

    let one = BoundingBox::from_point(at(3.0, 4.0));
    assert_eq!(one, corners(3.0, 4.0, 3.0, 4.0));
    assert_eq!(one.merge(&corners(0.0, 0.0, 1.0, 1.0)), corners(0.0, 0.0, 3.0, 4.0));
    assert_eq!(BoundingBox::new(b(0.0), b(1.0), b(2.0), b(3.0)), corners(0.0, 2.0, 1.0, 3.0));
}
