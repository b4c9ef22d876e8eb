use cendb::error::CenStatus;
use cendb::spatial::crs::{route, transform, Crs, Projection, Route};
use cendb::spatial::geometry::Point;
use cendb::spatial::plane::Coord;

const MAX_EXTENT: f64 = 20037508.34;

fn at(x: f64, y: f64) -> Point<u64> {
    Point::new(x.to_bits(), y.to_bits())
}

fn to_metres(p: Coord) -> Coord {
    let x = f64::from_bits(p.0) * MAX_EXTENT / 180.0;
    let lat = f64::from_bits(p.1).clamp(-85.05112878, 85.05112878);
    let y = ((90.0 + lat).to_radians() / 2.0).tan().ln() * MAX_EXTENT / std::f64::consts::PI;
    (x.to_bits(), y.to_bits())
}

fn to_degrees(p: Coord) -> Coord {
    let pi = std::f64::consts::PI;
    let lon = f64::from_bits(p.0) * 180.0 / MAX_EXTENT;
    let angle = 2.0 * (f64::from_bits(p.1) * pi / MAX_EXTENT).exp().atan() - pi / 2.0;
    (lon.to_bits(), (180.0 / pi * angle).to_bits())
}

fn projection() -> Projection<impl Fn(Coord) -> Coord, impl Fn(Coord) -> Coord> {
    Projection { to_metres, to_degrees }
}

#[test]
fn wgs84_to_webmercator_origin() {
    let p = at(0.0, 0.0);
    let out = transform(&projection(), &p, &Crs::Wgs84, &Crs::WebMercator).unwrap();
    assert!(f64::from_bits(out.x).abs() < 1e-6);
    assert!(f64::from_bits(out.y).abs() < 1e-6);
}

#[test]
fn webmercator_to_wgs84_origin() {
    let p = at(0.0, 0.0);
    let out = transform(&projection(), &p, &Crs::WebMercator, &Crs::Wgs84).unwrap();
    assert!(f64::from_bits(out.x).abs() < 1e-9);
    assert!(f64::from_bits(out.y).abs() < 1e-9);
}

#[test]
fn roundtrip_wgs84_webmercator_london() {
    let london = at(-0.1278, 51.5074);
    let merc = transform(&projection(), &london, &Crs::Wgs84, &Crs::WebMercator).unwrap();
    let back = transform(&projection(), &merc, &Crs::WebMercator, &Crs::Wgs84).unwrap();
    assert!((f64::from_bits(back.x) - f64::from_bits(london.x)).abs() < 1e-6, "lon mismatch: {} vs {}", f64::from_bits(back.x), f64::from_bits(london.x));
    assert!((f64::from_bits(back.y) - f64::from_bits(london.y)).abs() < 1e-6, "lat mismatch: {} vs {}", f64::from_bits(back.y), f64::from_bits(london.y));
}

#[test]
fn london_known_webmercator_coordinates() {
    let london = at(-0.1278, 51.5074);
    let merc = transform(&projection(), &london, &Crs::Wgs84, &Crs::WebMercator).unwrap();
    assert!((f64::from_bits(merc.x) - (-14226.63)).abs() < 1.0, "x: {}", f64::from_bits(merc.x));
    assert!((f64::from_bits(merc.y) - 6711508.16).abs() < 50.0, "y: {}", f64::from_bits(merc.y));
}

#[test]
fn transform_identity_when_same_crs() {
    let p = at(1.0, 2.0);
    let out = transform(&projection(), &p, &Crs::Wgs84, &Crs::Wgs84).unwrap();
    assert_eq!(out, p);
}

#[test]
fn unsupported_transform_returns_error() {
    let p = at(1.0, 2.0);
    let res = transform(&projection(), &p, &Crs::Wgs84, &Crs::Epsg(2154));
    assert!(res.is_err());
    if let Err(e) = res {
        assert_eq!(e.status, CenStatus::ErrInternal);
    }
}

#[test]
fn crs_epsg_codes() {
    assert_eq!(Crs::Wgs84.epsg_code(), Some(4326));
    assert_eq!(Crs::WebMercator.epsg_code(), Some(3857));
    assert_eq!(Crs::Epsg(2154).epsg_code(), Some(2154));
    assert_eq!(Crs::Custom { name: "x".into(), wkt: "x".into() }.epsg_code(), None);
}

#[test]
fn wgs84_to_webmercator_antimeridian_wraps() {
    let p = at(180.0, 0.0);
    let out = transform(&projection(), &p, &Crs::Wgs84, &Crs::WebMercator).unwrap();
    assert!((f64::from_bits(out.x) - MAX_EXTENT).abs() < 1e-3);
}

#[test]
fn systems_and_routes_have_names() {
    assert_eq!(Crs::Wgs84.name(), "WGS84 (EPSG:4326)");
    assert_eq!(Crs::WebMercator.name(), "Web Mercator (EPSG:3857)");
    assert_eq!(Crs::Epsg(7).name(), "EPSG (generic)");
    assert_eq!(Crs::Epsg(7).show(), "Epsg(7)");
    let own = Crs::Custom { name: "mine".to_string(), wkt: "w".to_string() };
    assert_eq!(own.name(), "mine");
    assert_eq!(own.show(), "Custom(mine)");
    assert!(own.same(&own));
    assert!(!own.same(&Crs::Wgs84));

    let e = route(&Crs::Epsg(1), &Crs::Wgs84).err().unwrap();
    assert_eq!(
        e.message,
        "unsupported CRS transform: Epsg(1) -> Wgs84 (only Wgs84 <-> WebMercator is implemented)"
    );
    assert!(route(&Crs::Epsg(1), &Crs::Epsg(1)).is_err());
    assert!(matches!(route(&Crs::Wgs84, &Crs::Wgs84), Ok(Route::Same)));
}
