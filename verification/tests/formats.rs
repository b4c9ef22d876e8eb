use cendb::error::CenStatus;
use cendb::spatial::geojson::{from_geojson, to_geojson};
use cendb::spatial::geometry::{
    Geometry, LineString, MultiLineString, MultiPoint, MultiPolygon, Point, Polygon,
};
use cendb::spatial::wkb::{from_wkb, to_wkb, BYTE_ORDER_LE};
use cendb::spatial::wkt::{from_wkt, to_wkt};

fn b(x: f64) -> u64 {
    x.to_bits()
}

fn f(bits: u64) -> f64 {
    f64::from_bits(bits)
}

fn at(x: f64, y: f64) -> Point<u64> {
    Point::new(b(x), b(y))
}

fn pairs(coords: &[(f64, f64)]) -> Vec<(u64, u64)> {
    coords.iter().map(|(x, y)| (b(*x), b(*y))).collect()
}

fn line(coords: &[(f64, f64)]) -> LineString<u64> {
    LineString::from_xy(&pairs(coords))
}

fn point(x: f64, y: f64) -> Geometry<u64> {
    Geometry::point(b(x), b(y))
}

fn line_string(coords: &[(f64, f64)]) -> Geometry<u64> {
    Geometry::line_string(&pairs(coords))
}

fn polygon(coords: &[(f64, f64)]) -> Geometry<u64> {
    Geometry::polygon(&pairs(coords))
}

fn number_text(bits: &u64) -> String {
    let x = f(*bits);
    if x == x.trunc() && x.abs() < 1e16 {
        format!("{}", x as i64)
    } else {
        format!("{}", x)
    }
}

fn number_bits(text: &String) -> u64 {
    b(text.parse::<f64>().unwrap())
}

fn map_points<A, C>(points: &Vec<Point<A>>, one: &dyn Fn(&A) -> C) -> Vec<Point<C>> {
    points.iter().map(|p| Point::new(one(&p.x), one(&p.y))).collect()
}

fn map_line<A, C>(l: &LineString<A>, one: &dyn Fn(&A) -> C) -> LineString<C> {
    LineString::new(map_points(&l.points, one))
}

fn map_polygon<A, C>(p: &Polygon<A>, one: &dyn Fn(&A) -> C) -> Polygon<C> {
    Polygon::new(
        map_line(&p.exterior, one),
        p.interiors.iter().map(|r| map_line(r, one)).collect(),
    )
}

fn map_geometry<A, C>(g: &Geometry<A>, one: &dyn Fn(&A) -> C) -> Geometry<C> {
    match g {
        Geometry::Point(p) => Geometry::point(one(&p.x), one(&p.y)),
        Geometry::LineString(l) => Geometry::LineString(map_line(l, one)),
        Geometry::Polygon(p) => Geometry::Polygon(map_polygon(p, one)),
        Geometry::MultiPoint(m) => Geometry::MultiPoint(MultiPoint::new(map_points(&m.points, one))),
        Geometry::MultiLineString(m) => Geometry::MultiLineString(MultiLineString::new(
            m.linestrings.iter().map(|l| map_line(l, one)).collect(),
        )),
        Geometry::MultiPolygon(m) => Geometry::MultiPolygon(MultiPolygon::new(
            m.polygons.iter().map(|p| map_polygon(p, one)).collect(),
        )),
        Geometry::GeometryCollection(gs) => {
            Geometry::GeometryCollection(gs.iter().map(|g| map_geometry(g, one)).collect())
        }
    }
}

fn as_text(g: &Geometry<u64>) -> Geometry<String> {
    map_geometry(g, &number_text)
}

fn as_bits(g: &Geometry<String>) -> Geometry<u64> {
    map_geometry(g, &number_bits)
}

#[test]
fn wkt_point_roundtrip() {
    let g = point(1.0, 2.0);
    let s = to_wkt(&as_text(&g));
    assert_eq!(s, "POINT (1 2)");
    let g2 = as_bits(&from_wkt(&s).unwrap());
    assert!(g == g2);
}

#[test]
fn wkt_linestring_roundtrip() {
    let g = line_string(&[(0.0, 0.0), (1.0, 1.0), (2.0, 2.0)]);
    let s = to_wkt(&as_text(&g));
    let g2 = as_bits(&from_wkt(&s).unwrap());
    assert!(g == g2);
}

#[test]
fn wkt_polygon_roundtrip() {
    let g = polygon(&[(0.0, 0.0), (1.0, 0.0), (1.0, 1.0), (0.0, 1.0), (0.0, 0.0)]);
    let s = to_wkt(&as_text(&g));
    let g2 = as_bits(&from_wkt(&s).unwrap());
    assert!(g == g2);
}

#[test]
fn wkt_multipoint_roundtrip() {
    let g = Geometry::MultiPoint(MultiPoint::new(vec![at(1.0, 2.0), at(3.0, 4.0)]));
    let s = to_wkt(&as_text(&g));
    let g2 = as_bits(&from_wkt(&s).unwrap());
    assert!(g == g2);
}

#[test]
fn wkt_multilinestring_roundtrip() {
    let g = Geometry::MultiLineString(MultiLineString::new(vec![
        line(&[(0.0, 0.0), (1.0, 1.0)]),
        line(&[(2.0, 2.0), (3.0, 3.0)]),
    ]));
    let s = to_wkt(&as_text(&g));
    let g2 = as_bits(&from_wkt(&s).unwrap());
    assert!(g == g2);
}

#[test]
fn wkt_multipolygon_roundtrip() {
    let g = Geometry::MultiPolygon(MultiPolygon::new(vec![
        Polygon::from_exterior(line(&[
            (0.0, 0.0),
            (1.0, 0.0),
            (1.0, 1.0),
            (0.0, 0.0),
        ])),
        Polygon::from_exterior(line(&[
            (2.0, 2.0),
            (3.0, 2.0),
            (3.0, 3.0),
            (2.0, 2.0),
        ])),
    ]));
    let s = to_wkt(&as_text(&g));
    let g2 = as_bits(&from_wkt(&s).unwrap());
    assert!(g == g2);
}

#[test]
fn wkt_geometrycollection_roundtrip() {
    let g = Geometry::GeometryCollection(vec![
        point(1.0, 2.0),
        line_string(&[(0.0, 0.0), (1.0, 1.0)]),
    ]);
    let s = to_wkt(&as_text(&g));
    let g2 = as_bits(&from_wkt(&s).unwrap());
    assert!(g == g2);
}

#[test]
fn wkt_negative_coordinates() {
    let g = point(-1.5, 2.7);
    let s = to_wkt(&as_text(&g));
    assert_eq!(s, "POINT (-1.5 2.7)");
    let g2 = as_bits(&from_wkt(&s).unwrap());
    assert!(g == g2);
}

#[test]
fn wkb_point_roundtrip() {
    let g = point(1.5, -2.5);
    let bytes = to_wkb(&g);
    assert_eq!(bytes[0], BYTE_ORDER_LE);
    let g2 = from_wkb(&bytes).unwrap();
    assert!(g == g2);
}

#[test]
fn wkb_linestring_roundtrip() {
    let g = line_string(&[(0.0, 0.0), (1.0, 1.0), (2.0, 2.0)]);
    let bytes = to_wkb(&g);
    let g2 = from_wkb(&bytes).unwrap();
    assert!(g == g2);
}

#[test]
fn wkb_polygon_roundtrip() {
    let g = polygon(&[(0.0, 0.0), (1.0, 0.0), (1.0, 1.0), (0.0, 1.0), (0.0, 0.0)]);
    let bytes = to_wkb(&g);
    let g2 = from_wkb(&bytes).unwrap();
    assert!(g == g2);
}

#[test]
fn wkb_multipoint_roundtrip() {
    let g = Geometry::MultiPoint(MultiPoint::new(vec![at(1.0, 2.0), at(3.0, 4.0)]));
    let bytes = to_wkb(&g);
    let g2 = from_wkb(&bytes).unwrap();
    assert!(g == g2);
}

#[test]
fn wkb_multilinestring_roundtrip() {
    let g = Geometry::MultiLineString(MultiLineString::new(vec![
        line(&[(0.0, 0.0), (1.0, 1.0)]),
        line(&[(2.0, 2.0), (3.0, 3.0)]),
    ]));
    let bytes = to_wkb(&g);
    let g2 = from_wkb(&bytes).unwrap();
    assert!(g == g2);
}

#[test]
fn wkb_multipolygon_roundtrip() {
    let g = Geometry::MultiPolygon(MultiPolygon::new(vec![
        Polygon::from_exterior(line(&[(0.0, 0.0), (1.0, 0.0), (1.0, 1.0), (0.0, 0.0)])),
        Polygon::from_exterior(line(&[(2.0, 2.0), (3.0, 2.0), (3.0, 3.0), (2.0, 2.0)])),
    ]));
    let bytes = to_wkb(&g);
    let g2 = from_wkb(&bytes).unwrap();
    assert!(g == g2);
}

#[test]
fn geojson_point_roundtrip() {
    let g = point(1.0, 2.0);
    let s = to_geojson(&as_text(&g));
    assert!(s.contains("\"type\":\"Point\""));
    let g2 = as_bits(&from_geojson(&s).unwrap());
    assert!(g == g2);
}

#[test]
fn geojson_linestring_roundtrip() {
    let g = line_string(&[(0.0, 0.0), (1.0, 1.0), (2.0, 2.0)]);
    let s = to_geojson(&as_text(&g));
    let g2 = as_bits(&from_geojson(&s).unwrap());
    assert!(g == g2);
}

#[test]
fn geojson_polygon_roundtrip() {
    let g = polygon(&[(0.0, 0.0), (1.0, 0.0), (1.0, 1.0), (0.0, 1.0), (0.0, 0.0)]);
    let s = to_geojson(&as_text(&g));
    let g2 = as_bits(&from_geojson(&s).unwrap());
    assert!(g == g2);
}

#[test]
fn geojson_multipoint_roundtrip() {
    let g = Geometry::MultiPoint(MultiPoint::new(vec![at(1.0, 2.0), at(3.0, 4.0)]));
    let s = to_geojson(&as_text(&g));
    let g2 = as_bits(&from_geojson(&s).unwrap());
    assert!(g == g2);
}

#[test]
fn geojson_multilinestring_roundtrip() {
    let g = Geometry::MultiLineString(MultiLineString::new(vec![
        line(&[(0.0, 0.0), (1.0, 1.0)]),
        line(&[(2.0, 2.0), (3.0, 3.0)]),
    ]));
    let s = to_geojson(&as_text(&g));
    let g2 = as_bits(&from_geojson(&s).unwrap());
    assert!(g == g2);
}

#[test]
fn geojson_multipolygon_roundtrip() {
    let g = Geometry::MultiPolygon(MultiPolygon::new(vec![
        Polygon::from_exterior(line(&[(0.0, 0.0), (1.0, 0.0), (1.0, 1.0), (0.0, 0.0)])),
        Polygon::from_exterior(line(&[(2.0, 2.0), (3.0, 2.0), (3.0, 3.0), (2.0, 2.0)])),
    ]));
    let s = to_geojson(&as_text(&g));
    let g2 = as_bits(&from_geojson(&s).unwrap());
    assert!(g == g2);
}

#[test]
fn geojson_geometrycollection_roundtrip() {
    let g = Geometry::GeometryCollection(vec![
        point(1.0, 2.0),
        line_string(&[(0.0, 0.0), (1.0, 1.0)]),
    ]);
    let s = to_geojson(&as_text(&g));
    let g2 = as_bits(&from_geojson(&s).unwrap());
    assert!(g == g2);
}

#[test]
fn geojson_with_whitespace_parses() {
    let s = r#"{
        "type": "Point",
        "coordinates": [1.5, -2.5]
    }"#;
    let g = as_bits(&from_geojson(s).unwrap());
    match g {
        Geometry::Point(p) => {
            assert!((f(p.x) - 1.5).abs() < 1e-9);
            assert!((f(p.y) - (-2.5)).abs() < 1e-9);
        }
        _ => panic!("expected point"),
    }
}

#[test]
fn wkt_bad_input_returns_error() {
    assert!(from_wkt("NOTAGEOMETRY").is_err());
    assert!(from_wkt("POINT (").is_err());
}

#[test]
fn wkb_bad_input_returns_error() {
    assert!(from_wkb(&[]).is_err());
    assert!(from_wkb(&[1, 99, 0, 0, 0]).is_err());
}

#[test]
fn geojson_bad_input_returns_error() {
    assert!(from_geojson("not json").is_err());
    assert!(from_geojson("{\"type\":\"Unknown\"}").is_err());
}

#[test]
fn every_kind_has_its_wkt() {
    let ring = [(0.0, 0.0), (1.0, 0.0), (0.5, 1.0), (0.0, 0.0)];
    assert_eq!(
        to_wkt(&as_text(&polygon(&ring))),
        "POLYGON ((0 0, 1 0, 0.5 1, 0 0))"
    );
    assert_eq!(to_wkt(&as_text(&line_string(&ring[..2]))), "LINESTRING (0 0, 1 0)");
    let parsed = from_wkt("  point(  1e3   -2.50 ) ").unwrap();
    assert_eq!(as_bits(&parsed), point(1000.0, -2.5));
}

#[test]
fn empty_shapes_are_read() {
    let nothing = as_bits(&from_wkt("GEOMETRYCOLLECTION EMPTY").unwrap());
    assert_eq!(nothing, Geometry::GeometryCollection(vec![]));
    let no_line = as_bits(&from_wkt("LineString EMPTY").unwrap());
    assert_eq!(no_line, line_string(&[]));
    match as_bits(&from_wkt("POINT EMPTY").unwrap()) {
        Geometry::Point(p) => assert!(f(p.x).is_nan() && f(p.y).is_nan()),
        _ => panic!("expected a point"),
    }
    let flat = as_bits(&from_wkt("MULTIPOINT Z ((1 2), 3 4)").unwrap());
    assert_eq!(flat, Geometry::MultiPoint(MultiPoint::new(vec![at(1.0, 2.0), at(3.0, 4.0)])));
}

#[test]
fn broken_wkt_is_refused() {
    for text in ["", "POINT", "POINT (1)", "POINT (1 x)", "LINESTRING (1 2, 3)", "POLYGON (1 2)"] {
        assert_eq!(from_wkt(text).unwrap_err().status, CenStatus::ErrSyntax);
    }
}

#[test]
fn every_kind_has_its_geojson() {
    assert_eq!(
        to_geojson(&as_text(&point(1.0, 2.5))),
        "{\"type\":\"Point\",\"coordinates\":[1,2.5]}"
    );
    let parsed = from_geojson("{\"coordinates\":[3,4],\"x\":[true,null,\"a\\u0041\"],\"type\":\"Point\"}");
    assert_eq!(as_bits(&parsed.unwrap()), point(3.0, 4.0));
}

#[test]
fn broken_geojson_is_refused() {
    for text in [
        "",
        "{",
        "{\"type\":\"Point\"}",
        "{\"type\":\"Point\",\"coordinates\":[1]}",
        "{\"type\":\"Point\",\"coordinates\":\"a\"}",
        "[1,2]",
    ] {
        assert_eq!(from_geojson(text).unwrap_err().status, CenStatus::ErrSyntax);
    }
}

#[test]
fn wkb_has_a_known_layout() {
    let bytes = to_wkb(&point(1.0, -2.0));
    let mut expected = vec![1, 1, 0, 0, 0];
    expected.extend(1.0f64.to_le_bytes());
    expected.extend((-2.0f64).to_le_bytes());
    assert_eq!(bytes, expected);
    let big_endian: Vec<u8> = [0, 0, 0, 0, 1]
        .into_iter()
        .chain(1.0f64.to_be_bytes())
        .chain((-2.0f64).to_be_bytes())
        .collect();
    assert_eq!(
        from_wkb(&big_endian).unwrap_err().message,
        "unsupported WKB byte order: 0 (only little-endian=1 supported)"
    );
    assert!(from_wkb(&bytes[..20]).is_err());
    let nested = Geometry::GeometryCollection(vec![point(0.0, 0.0), Geometry::GeometryCollection(vec![])]);
    assert_eq!(from_wkb(&to_wkb(&nested)).unwrap(), nested);
}
