use cendb::spatial::geohash::{
    bits_of_hash, decode_geohash, encode_geohash, geohash_bounds, halvings, hash_of_bits,
    hash_of_halvings, GeohashPrecision, Halver,
};

fn b(x: f64) -> u64 {
    x.to_bits()
}

fn half(low: u64, high: u64) -> u64 {
    b((f64::from_bits(low) + f64::from_bits(high)) / 2.0)
}

fn halver() -> Halver<impl Fn(u64, u64) -> u64> {
    Halver { half }
}

fn decoded(hash: &str) -> (f64, f64) {
    let (lat, lon) = decode_geohash(&halver(), hash);
    (f64::from_bits(lat), f64::from_bits(lon))
}

fn bounds(hash: &str) -> (f64, f64, f64, f64) {
    let (a, c, d, e) = geohash_bounds(&halver(), hash);
    (f64::from_bits(a), f64::from_bits(c), f64::from_bits(d), f64::from_bits(e))
}

#[test]
fn encode_decode_roundtrip() {
    let lat = 52.5200;
    let lon = 13.4050;
    let hash = encode_geohash(&halver(), b(lat), b(lon), GeohashPrecision(12));
    let (dec_lat, dec_lon) = decoded(&hash);
    assert!((dec_lat - lat).abs() < 0.001);
    assert!((dec_lon - lon).abs() < 0.001);
}

#[test]
fn nearby_points_have_common_prefix() {
    let h1 = encode_geohash(&halver(), b(52.5200), b(13.4050), GeohashPrecision(8));
    let h2 = encode_geohash(&halver(), b(52.5201), b(13.4051), GeohashPrecision(8));
    let common = h1.chars().zip(h2.chars()).take_while(|(a, b)| a == b).count();
    assert!(common >= 6, "expected common prefix >= 6, got {} ({} vs {})", common, h1, h2);
}

#[test]
fn distant_points_have_short_common_prefix() {
    let berlin = encode_geohash(&halver(), b(52.52), b(13.40), GeohashPrecision(8));
    let tokyo = encode_geohash(&halver(), b(35.68), b(139.76), GeohashPrecision(8));
    let common = berlin.chars().zip(tokyo.chars()).take_while(|(a, b)| a == b).count();
    assert!(common < 3, "distant points should have short common prefix, got {}", common);
}

#[test]
fn geohash_bounds_correct() {
    let hash = encode_geohash(&halver(), b(0.001), b(0.001), GeohashPrecision(2));
    let (min_lat, max_lat, min_lon, max_lon) = bounds(&hash);
    assert!(min_lat <= 0.001 && max_lat >= 0.001, "lat range {}..{} should contain 0.001", min_lat, max_lat);
    assert!(min_lon <= 0.001 && max_lon >= 0.001, "lon range {}..{} should contain 0.001", min_lon, max_lon);
}

#[test]
fn a_known_place_has_its_hash() {
    assert_eq!(encode_geohash(&halver(), b(57.64911), b(10.40744), GeohashPrecision(11)), "u4pruydqqvj");
    assert_eq!(GeohashPrecision::default().0, 12);
    assert_eq!(encode_geohash(&halver(), b(0.0), b(0.0), GeohashPrecision(0)), "");

    let long = encode_geohash(&halver(), b(48.1), b(11.5), GeohashPrecision(9));
    let short = encode_geohash(&halver(), b(48.1), b(11.5), GeohashPrecision(4));
    assert!(long.starts_with(&short));
}

#[test]
fn bits_and_letters_agree() {
    let bits = bits_of_hash("u4");
    assert_eq!(bits, vec![true, true, false, true, false, false, false, true, false, false]);
    assert_eq!(hash_of_bits(&bits), "u4");
    let (lon, lat) = halvings("u4");
    assert_eq!(hash_of_halvings(&lon, &lat, GeohashPrecision(2)), "u4");
}
