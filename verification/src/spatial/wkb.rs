//! Geometries as Well-Known Binary, little-endian.

use vstd::prelude::*;

use crate::bytes::{
    get_le32, get_le64, law_le32_round_trip, law_le64_round_trip, le32, le64, push_le32, push_le64,
    read_le32, read_le64,
};
use crate::error::{syntax_error, CenError, CenResult, ErrorView};
use crate::spatial::geometry::{
    lemma_shapes_of, lines_view, point_view, points_view, polygon_of_rings, polygons_view,
    rings_view, shape_of, shapes_of, Geometry, LineString, MultiLineString, MultiPoint,
    MultiPolygon, Point, Polygon, Shape,
};
use crate::text::{decimal, decimal_string};
use crate::utf8::{lemma_stands_at_split, stands_at};

verus! {

/// The mark of little-endian byte order.
pub const BYTE_ORDER_LE: u8 = 1;

/// The code of a kind of geometry.
pub open spec fn kind_code<T>(g: Shape<T>) -> u32 {
    match g {
        Shape::Point(_) => 1,
        Shape::LineString(_) => 2,
        Shape::Polygon(_) => 3,
        Shape::MultiPoint(_) => 4,
        Shape::MultiLineString(_) => 5,
        Shape::MultiPolygon(_) => 6,
        Shape::Collection(_) => 7,
    }
}

/// The byte order and the code of a kind.
pub open spec fn header(code: u32) -> Seq<u8> {
    seq![BYTE_ORDER_LE] + le32(code)
}

/// The two coordinates of a point.
pub open spec fn point_bytes(p: (u64, u64)) -> Seq<u8> {
    le64(p.0) + le64(p.1)
}

/// Points, one after the other.
pub open spec fn points_bytes(s: Seq<(u64, u64)>) -> Seq<u8>
    decreases s.len(),
{
    if s.len() == 0 {
        seq![]
    } else {
        points_bytes(s.drop_last()) + point_bytes(s.last())
    }
}

/// The number of points and the points.
pub open spec fn line_bytes(s: Seq<(u64, u64)>) -> Seq<u8> {
    le32(s.len() as u32) + points_bytes(s)
}

/// Rings, one after the other.
pub open spec fn rings_bytes(s: Seq<Seq<(u64, u64)>>) -> Seq<u8>
    decreases s.len(),
{
    if s.len() == 0 {
        seq![]
    } else {
        rings_bytes(s.drop_last()) + line_bytes(s.last())
    }
}

/// The number of rings and the rings.
pub open spec fn polygon_bytes(s: Seq<Seq<(u64, u64)>>) -> Seq<u8> {
    le32(s.len() as u32) + rings_bytes(s)
}

/// Points as geometries of their own.
pub open spec fn point_records(s: Seq<(u64, u64)>) -> Seq<u8>
    decreases s.len(),
{
    if s.len() == 0 {
        seq![]
    } else {
        point_records(s.drop_last()) + (header(1) + point_bytes(s.last()))
    }
}

/// Line strings as geometries of their own.
pub open spec fn line_records(s: Seq<Seq<(u64, u64)>>) -> Seq<u8>
    decreases s.len(),
{
    if s.len() == 0 {
        seq![]
    } else {
        line_records(s.drop_last()) + (header(2) + line_bytes(s.last()))
    }
}

/// Polygons as geometries of their own.
pub open spec fn polygon_records(s: Seq<Seq<Seq<(u64, u64)>>>) -> Seq<u8>
    decreases s.len(),
{
    if s.len() == 0 {
        seq![]
    } else {
        polygon_records(s.drop_last()) + (header(3) + polygon_bytes(s.last()))
    }
}

/// A geometry in binary.
pub open spec fn shape_bytes(g: Shape<u64>) -> Seq<u8>
    decreases g,
{
    header(kind_code(g)) + match g {
        Shape::Point(p) => point_bytes(p),
        Shape::LineString(p) => line_bytes(p),
        Shape::Polygon(r) => polygon_bytes(r),
        Shape::MultiPoint(p) => le32(p.len() as u32) + point_records(p),
        Shape::MultiLineString(l) => le32(l.len() as u32) + line_records(l),
        Shape::MultiPolygon(p) => le32(p.len() as u32) + polygon_records(p),
        Shape::Collection(s) => le32(s.len() as u32) + shapes_bytes(s),
    }
}

/// Geometries in binary, one after the other.
pub open spec fn shapes_bytes(s: Seq<Shape<u64>>) -> Seq<u8>
    decreases s,
{
    if s.len() == 0 {
        seq![]
    } else {
        shapes_bytes(s.drop_last()) + shape_bytes(s.last())
    }
}

fn write_header(code: u32, out: &mut Vec<u8>)
    ensures
        final(out)@ == old(out)@ + header(code),
{
    out.push(BYTE_ORDER_LE);
    push_le32(out, code);
    assert(out@ =~= old(out)@ + header(code));
}

fn write_point(p: &Point<u64>, out: &mut Vec<u8>)
    ensures
        final(out)@ == old(out)@ + point_bytes(point_view(*p)),
{
    push_le64(out, p.x);
    push_le64(out, p.y);
    assert(out@ =~= old(out)@ + point_bytes(point_view(*p)));
}

#[verifier::truncate]
fn count_of(n: usize) -> (r: u32)
    ensures
        r == n as u32,
{
    n as u32
}

fn write_line(points: &Vec<Point<u64>>, out: &mut Vec<u8>)
    ensures
        final(out)@ == old(out)@ + line_bytes(points_view(points@)),
{
    let ghost all = points_view(points@);
    push_le32(out, count_of(points.len()));
    let ghost front = out@;
    let mut i: usize = 0;
    assert(all.take(0) =~= seq![]);
    assert(out@ =~= front + points_bytes(all.take(0)));
    while i < points.len()
        invariant
            i <= points@.len(),
            all == points_view(points@),
            out@ == front + points_bytes(all.take(i as int)),
        decreases points@.len() - i,
    {
        proof {
            assert(all.take(i + 1).drop_last() =~= all.take(i as int));
            assert(all.take(i + 1).last() == all[i as int]);
        }
        write_point(&points[i], out);
        i = i + 1;
        assert(out@ =~= front + points_bytes(all.take(i as int)));
    }
    assert(all.take(i as int) =~= all);
    assert(out@ =~= old(out)@ + line_bytes(all));
}

fn write_rings(p: &Polygon<u64>, out: &mut Vec<u8>)
    ensures
        final(out)@ == old(out)@ + polygon_bytes(rings_view(*p)),
{
    let ghost all = rings_view(*p);
    let rings: Vec<&LineString<u64>> = p.rings();
    push_le32(out, count_of(rings.len()));
    let ghost front = out@;
    let mut i: usize = 0;
    assert(all.take(0) =~= seq![]);
    assert(out@ =~= front + rings_bytes(all.take(0)));
    while i < rings.len()
        invariant
            i <= rings@.len(),
            rings@.len() == all.len(),
            all == rings_view(*p),
            *rings@[0] == p.exterior,
            forall|k: int| 0 < k < rings@.len() ==> *(#[trigger] rings@[k]) == p.interiors@[k - 1],
            out@ == front + rings_bytes(all.take(i as int)),
        decreases rings@.len() - i,
    {
        proof {
            assert(all.take(i + 1).drop_last() =~= all.take(i as int));
            assert(all.take(i + 1).last() == all[i as int]);
            assert(all[i as int] == points_view(rings@[i as int].points@)) by {
                if i > 0 {
                    assert(all[i as int] == lines_view(p.interiors@)[i - 1]);
                }
            }
        }
        write_line(&rings[i].points, out);
        i = i + 1;
        assert(out@ =~= front + rings_bytes(all.take(i as int)));
    }
    assert(all.take(i as int) =~= all);
    assert(out@ =~= old(out)@ + polygon_bytes(all));
}

fn write_multi_point(m: &MultiPoint<u64>, out: &mut Vec<u8>)
    ensures
        final(out)@ == old(out)@ + (le32(points_view(m.points@).len() as u32) + point_records(
            points_view(m.points@),
        )),
{
    let ghost all = points_view(m.points@);
    push_le32(out, count_of(m.points.len()));
    let ghost front = out@;
    let mut i: usize = 0;
    assert(all.take(0) =~= seq![]);
    assert(out@ =~= front + point_records(all.take(0)));
    while i < m.points.len()
        invariant
            i <= m.points@.len(),
            all == points_view(m.points@),
            out@ == front + point_records(all.take(i as int)),
        decreases m.points@.len() - i,
    {
        proof {
            assert(all.take(i + 1).drop_last() =~= all.take(i as int));
            assert(all.take(i + 1).last() == all[i as int]);
        }
        write_header(1, out);
        write_point(&m.points[i], out);
        i = i + 1;
        assert(out@ =~= front + point_records(all.take(i as int)));
    }
    assert(all.take(i as int) =~= all);
    assert(out@ =~= old(out)@ + (le32(all.len() as u32) + point_records(all)));
}

fn write_multi_line(m: &MultiLineString<u64>, out: &mut Vec<u8>)
    ensures
        final(out)@ == old(out)@ + (le32(lines_view(m.linestrings@).len() as u32) + line_records(
            lines_view(m.linestrings@),
        )),
{
    let ghost all = lines_view(m.linestrings@);
    push_le32(out, count_of(m.linestrings.len()));
    let ghost front = out@;
    let mut i: usize = 0;
    assert(all.take(0) =~= seq![]);
    assert(out@ =~= front + line_records(all.take(0)));
    while i < m.linestrings.len()
        invariant
            i <= m.linestrings@.len(),
            all == lines_view(m.linestrings@),
            out@ == front + line_records(all.take(i as int)),
        decreases m.linestrings@.len() - i,
    {
        proof {
            assert(all.take(i + 1).drop_last() =~= all.take(i as int));
            assert(all.take(i + 1).last() == all[i as int]);
        }
        write_header(2, out);
        write_line(&m.linestrings[i].points, out);
        i = i + 1;
        assert(out@ =~= front + line_records(all.take(i as int)));
    }
    assert(all.take(i as int) =~= all);
    assert(out@ =~= old(out)@ + (le32(all.len() as u32) + line_records(all)));
}

fn write_multi_polygon(m: &MultiPolygon<u64>, out: &mut Vec<u8>)
    ensures
        final(out)@ == old(out)@ + (le32(polygons_view(m.polygons@).len() as u32) + polygon_records(
            polygons_view(m.polygons@),
        )),
{
    let ghost all = polygons_view(m.polygons@);
    push_le32(out, count_of(m.polygons.len()));
    let ghost front = out@;
    let mut i: usize = 0;
    assert(all.take(0) =~= seq![]);
    assert(out@ =~= front + polygon_records(all.take(0)));
    while i < m.polygons.len()
        invariant
            i <= m.polygons@.len(),
            all == polygons_view(m.polygons@),
            out@ == front + polygon_records(all.take(i as int)),
        decreases m.polygons@.len() - i,
    {
        proof {
            assert(all.take(i + 1).drop_last() =~= all.take(i as int));
            assert(all.take(i + 1).last() == all[i as int]);
        }
        write_header(3, out);
        write_rings(&m.polygons[i], out);
        i = i + 1;
        assert(out@ =~= front + polygon_records(all.take(i as int)));
    }
    assert(all.take(i as int) =~= all);
    assert(out@ =~= old(out)@ + (le32(all.len() as u32) + polygon_records(all)));
}

fn write_wkb(g: &Geometry<u64>, out: &mut Vec<u8>)
    ensures
        final(out)@ == old(out)@ + shape_bytes(g@),
    decreases g,
{
    match g {
        Geometry::Point(p) => {
            write_header(1, out);
            write_point(p, out);
        },
        Geometry::LineString(l) => {
            write_header(2, out);
            write_line(&l.points, out);
        },
        Geometry::Polygon(p) => {
            write_header(3, out);
            write_rings(p, out);
        },
        Geometry::MultiPoint(m) => {
            write_header(4, out);
            write_multi_point(m, out);
        },
        Geometry::MultiLineString(m) => {
            write_header(5, out);
            write_multi_line(m, out);
        },
        Geometry::MultiPolygon(m) => {
            write_header(6, out);
            write_multi_polygon(m, out);
        },
        Geometry::GeometryCollection(v) => {
            let ghost all = shapes_of(v@);
            write_header(7, out);
            push_le32(out, count_of(v.len()));
            let ghost front = out@;
            let mut i: usize = 0;
            proof {
                lemma_shapes_of(v@);
                assert(all.take(0) =~= seq![]);
                assert(out@ =~= front + shapes_bytes(all.take(0)));
            }
            while i < v.len()
                invariant
                    i <= v@.len(),
                    all == shapes_of(v@),
                    all.len() == v@.len(),
                    forall|k: int| 0 <= k < v@.len() ==> #[trigger] all[k] == shape_of(v@[k]),
                    out@ == front + shapes_bytes(all.take(i as int)),
                    decreases_to!(g => v),
                decreases v@.len() - i,
            {
                proof {
                    assert(all.take(i + 1).drop_last() =~= all.take(i as int));
                    assert(all.take(i + 1).last() == all[i as int]);
                    assert(decreases_to!(g => v, v@, v@[i as int]));
                }
                write_wkb(&v[i], out);
                i = i + 1;
                assert(out@ =~= front + shapes_bytes(all.take(i as int)));
            }
            assert(all.take(i as int) =~= all);
        },
    }
    assert(out@ =~= old(out)@ + shape_bytes(g@));
}

/// Writes a geometry.
pub fn to_wkb(geom: &Geometry<u64>) -> (r: Vec<u8>)
    ensures
        r@ == shape_bytes(geom@),
{
    let mut out: Vec<u8> = Vec::new();
    write_wkb(geom, &mut out);
    assert(out@ =~= shape_bytes(geom@));
    out
}

/// What a reader gives: a value and the place after it.
pub open spec fn u32_at(b: Seq<u8>, i: int) -> Result<(u32, int), ErrorView> {
    if i + 4 > b.len() {
        Err(syntax_error("WKB EOF reading u32"@))
    } else {
        Ok((read_le32(b, i), i + 4))
    }
}

/// The point at a place.
pub open spec fn point_at(b: Seq<u8>, i: int) -> Result<((u64, u64), int), ErrorView> {
    if i + 16 > b.len() {
        Err(syntax_error("WKB EOF reading f64"@))
    } else {
        Ok(((read_le64(b, i), read_le64(b, i + 8)), i + 16))
    }
}

/// `n` points from a place on, after those that were read already.
pub open spec fn points_at(b: Seq<u8>, i: int, n: nat, acc: Seq<(u64, u64)>) -> Result<
    (Seq<(u64, u64)>, int),
    ErrorView,
>
    decreases n,
{
    if n == 0 {
        Ok((acc, i))
    } else {
        match point_at(b, i) {
            Err(e) => Err(e),
            Ok(x) => points_at(b, x.1, (n - 1) as nat, acc.push(x.0)),
        }
    }
}

/// The number of points and the points at a place.
pub open spec fn line_at(b: Seq<u8>, i: int) -> Result<(Seq<(u64, u64)>, int), ErrorView> {
    match u32_at(b, i) {
        Err(e) => Err(e),
        Ok(x) => points_at(b, x.1, x.0 as nat, seq![]),
    }
}

/// `n` rings from a place on, after those that were read already.
pub open spec fn rings_at(b: Seq<u8>, i: int, n: nat, acc: Seq<Seq<(u64, u64)>>) -> Result<
    (Seq<Seq<(u64, u64)>>, int),
    ErrorView,
>
    decreases n,
{
    if n == 0 {
        Ok((acc, i))
    } else {
        match line_at(b, i) {
            Err(e) => Err(e),
            Ok(x) => rings_at(b, x.1, (n - 1) as nat, acc.push(x.0)),
        }
    }
}

/// The error for a part of the wrong kind.
pub open spec fn wrong_part(want: u32) -> ErrorView {
    syntax_error(
        if want == 1 {
            "MULTIPOINT child not a point"@
        } else if want == 2 {
            "MULTILINESTRING child not a linestring"@
        } else {
            "MULTIPOLYGON child not a polygon"@
        },
    )
}

/// `n` geometries from a place on, after those that were read already. They are
/// of the wanted kind; 0 stands for any kind.
pub open spec fn parts_at(b: Seq<u8>, i: int, n: nat, want: u32, acc: Seq<Shape<u64>>) -> Result<
    (Seq<Shape<u64>>, int),
    ErrorView,
>
    decreases b.len() - i, n + 1,
{
    if n == 0 {
        Ok((acc, i))
    } else {
        match shape_at(b, i) {
            Err(e) => Err(e),
            Ok(x) => if want != 0 && kind_code(x.0) != want {
                Err(wrong_part(want))
            } else if i < x.1 <= b.len() {
                parts_at(b, x.1, (n - 1) as nat, want, acc.push(x.0))
            } else {
                Err(syntax_error("WKB EOF reading u8"@))
            },
        }
    }
}

/// The geometry whose parts were read.
pub open spec fn shape_of_parts(code: u32, parts: Seq<Shape<u64>>) -> Shape<u64> {
    if code == 4 {
        Shape::MultiPoint(parts.map_values(|g: Shape<u64>| g->Point_0))
    } else if code == 5 {
        Shape::MultiLineString(parts.map_values(|g: Shape<u64>| g->LineString_0))
    } else if code == 6 {
        Shape::MultiPolygon(parts.map_values(|g: Shape<u64>| g->Polygon_0))
    } else {
        Shape::Collection(parts)
    }
}

/// The geometry at a place and the place after it.
pub open spec fn shape_at(b: Seq<u8>, i: int) -> Result<(Shape<u64>, int), ErrorView>
    decreases b.len() - i, 0nat,
{
    if !(0 <= i < b.len()) {
        Err(syntax_error("WKB EOF reading u8"@))
    } else if b[i] != BYTE_ORDER_LE {
        Err(
            syntax_error(
                "unsupported WKB byte order: "@ + decimal(b[i] as nat)
                    + " (only little-endian=1 supported)"@,
            ),
        )
    } else {
        match u32_at(b, i + 1) {
            Err(e) => Err(e),
            Ok(code) => if code.0 == 1 {
                match point_at(b, code.1) {
                    Err(e) => Err(e),
                    Ok(x) => Ok((Shape::Point(x.0), x.1)),
                }
            } else if code.0 == 2 {
                match line_at(b, code.1) {
                    Err(e) => Err(e),
                    Ok(x) => Ok((Shape::LineString(x.0), x.1)),
                }
            } else if code.0 == 0 || code.0 > 7 {
                Err(syntax_error("unknown WKB geometry type code: "@ + decimal(code.0 as nat)))
            } else {
                match u32_at(b, code.1) {
                    Err(e) => Err(e),
                    Ok(n) => if code.0 == 3 {
                        match rings_at(b, n.1, n.0 as nat, seq![]) {
                            Err(e) => Err(e),
                            Ok(x) => if x.0.len() == 0 {
                                Err(syntax_error("WKB polygon has no rings"@))
                            } else {
                                Ok((Shape::Polygon(x.0), x.1))
                            },
                        }
                    } else {
                        match parts_at(
                            b,
                            n.1,
                            n.0 as nat,
                            if code.0 == 7 {
                                0
                            } else {
                                (code.0 - 3) as u32
                            },
                            seq![],
                        ) {
                            Err(e) => Err(e),
                            Ok(x) => Ok((shape_of_parts(code.0, x.0), x.1)),
                        }
                    },
                }
            },
        }
    }
}

/// The geometry that bytes begin with.
pub open spec fn wkb_shape(b: Seq<u8>) -> Result<Shape<u64>, ErrorView> {
    match shape_at(b, 0) {
        Err(e) => Err(e),
        Ok(x) => Ok(x.0),
    }
}

fn read_u32_le(b: &[u8], i: usize) -> (r: CenResult<(u32, usize)>)
    requires
        i <= b@.len(),
    ensures
        match r {
            Ok(x) => u32_at(b@, i as int) == Ok::<(u32, int), ErrorView>((x.0, x.1 as int)) && x.1
                == i + 4 && x.1 <= b@.len(),
            Err(e) => u32_at(b@, i as int) == Err::<(u32, int), ErrorView>(e@),
        },
{
    if b.len() - i < 4 {
        return Err(CenError::syntax("WKB EOF reading u32"));
    }
    Ok((get_le32(b, i), i + 4))
}

fn read_point(b: &[u8], i: usize) -> (r: CenResult<(Point<u64>, usize)>)
    requires
        i <= b@.len(),
    ensures
        match r {
            Ok(x) => point_at(b@, i as int) == Ok::<((u64, u64), int), ErrorView>(
                (point_view(x.0), x.1 as int),
            ) && x.1 == i + 16 && x.1 <= b@.len(),
            Err(e) => point_at(b@, i as int) == Err::<((u64, u64), int), ErrorView>(e@),
        },
{
    if b.len() - i < 16 {
        return Err(CenError::syntax("WKB EOF reading f64"));
    }
    Ok((Point { x: get_le64(b, i), y: get_le64(b, i + 8) }, i + 16))
}

fn read_line(b: &[u8], i: usize) -> (r: CenResult<(Vec<Point<u64>>, usize)>)
    requires
        i <= b@.len(),
    ensures
        match r {
            Ok(x) => line_at(b@, i as int) == Ok::<(Seq<(u64, u64)>, int), ErrorView>(
                (points_view(x.0@), x.1 as int),
            ) && i < x.1 <= b@.len(),
            Err(e) => line_at(b@, i as int) == Err::<(Seq<(u64, u64)>, int), ErrorView>(e@),
        },
{
    let (n, start) = match read_u32_le(b, i) {
        Ok(x) => x,
        Err(e) => {
            return Err(e);
        },
    };
    let mut pts: Vec<Point<u64>> = Vec::new();
    let mut at: usize = start;
    let mut k: u32 = 0;
    assert(points_view(pts@) =~= seq![]);
    while k < n
        invariant
            k <= n,
            i < at <= b@.len(),
            line_at(b@, i as int) == points_at(
                b@,
                at as int,
                (n - k) as nat,
                points_view(pts@),
            ),
        decreases n - k,
    {
        let ghost done = points_view(pts@);
        match read_point(b, at) {
            Err(e) => {
                return Err(e);
            },
            Ok(x) => {
                pts.push(x.0);
                at = x.1;
                assert(points_view(pts@) =~= done.push(point_view(x.0)));
            },
        }
        k = k + 1;
    }
    Ok((pts, at))
}

fn read_rings(b: &[u8], i: usize, n: u32) -> (r: CenResult<(Vec<LineString<u64>>, usize)>)
    requires
        i <= b@.len(),
    ensures
        match r {
            Ok(x) => rings_at(b@, i as int, n as nat, seq![]) == Ok::<
                (Seq<Seq<(u64, u64)>>, int),
                ErrorView,
            >((lines_view(x.0@), x.1 as int)) && i <= x.1 <= b@.len(),
            Err(e) => rings_at(b@, i as int, n as nat, seq![]) == Err::<
                (Seq<Seq<(u64, u64)>>, int),
                ErrorView,
            >(e@),
        },
{
    let mut rings: Vec<LineString<u64>> = Vec::new();
    let mut at: usize = i;
    let mut k: u32 = 0;
    assert(lines_view(rings@) =~= seq![]);
    while k < n
        invariant
            k <= n,
            i <= at <= b@.len(),
            rings_at(b@, i as int, n as nat, seq![]) == rings_at(
                b@,
                at as int,
                (n - k) as nat,
                lines_view(rings@),
            ),
        decreases n - k,
    {
        let ghost done = lines_view(rings@);
        match read_line(b, at) {
            Err(e) => {
                return Err(e);
            },
            Ok(x) => {
                let ghost here = points_view(x.0@);
                rings.push(LineString { points: x.0 });
                at = x.1;
                assert(lines_view(rings@) =~= done.push(here));
            },
        }
        k = k + 1;
    }
    Ok((rings, at))
}

/// Points as geometries.
pub open spec fn as_points(s: Seq<(u64, u64)>) -> Seq<Shape<u64>> {
    s.map_values(|p: (u64, u64)| Shape::Point(p))
}

/// Line strings as geometries.
pub open spec fn as_lines(s: Seq<Seq<(u64, u64)>>) -> Seq<Shape<u64>> {
    s.map_values(|p: Seq<(u64, u64)>| Shape::LineString(p))
}

/// Polygons as geometries.
pub open spec fn as_polygons(s: Seq<Seq<Seq<(u64, u64)>>>) -> Seq<Shape<u64>> {
    s.map_values(|p: Seq<Seq<(u64, u64)>>| Shape::Polygon(p))
}

fn read_multi_point(b: &[u8], i: usize, n: u32) -> (r: CenResult<(Geometry<u64>, usize)>)
    requires
        i <= b@.len(),
    ensures
        match r {
            Ok(x) => parts_at(b@, i as int, n as nat, 1, seq![]) matches Ok(y) && x.0@
                == shape_of_parts(4, y.0) && x.1 == y.1 && i <= x.1 <= b@.len(),
            Err(e) => parts_at(b@, i as int, n as nat, 1, seq![]) matches Err(f) && e@ == f,
        },
    decreases b@.len() - i, 1nat,
{
    let mut pts: Vec<Point<u64>> = Vec::new();
    let mut at: usize = i;
    let mut k: u32 = 0;
    assert(as_points(points_view(pts@)) =~= seq![]);
    while k < n
        invariant
            k <= n,
            i <= at <= b@.len(),
            parts_at(b@, i as int, n as nat, 1, seq![]) == parts_at(
                b@,
                at as int,
                (n - k) as nat,
                1,
                as_points(points_view(pts@)),
            ),
        decreases n - k,
    {
        let ghost done = as_points(points_view(pts@));
        match read_geometry(b, at) {
            Err(e) => {
                return Err(e);
            },
            Ok(x) => match x.0 {
                Geometry::Point(p) => {
                    pts.push(p);
                    at = x.1;
                    assert(as_points(points_view(pts@)) =~= done.push(
                        Shape::Point(point_view(p)),
                    ));
                },
                _ => {
                    return Err(CenError::syntax("MULTIPOINT child not a point"));
                },
            },
        }
        k = k + 1;
    }
    let g: Geometry<u64> = Geometry::MultiPoint(MultiPoint { points: pts });
    assert(shape_of_parts(4, as_points(points_view(pts@)))->MultiPoint_0 =~= points_view(pts@));
    Ok((g, at))
}

fn read_multi_line(b: &[u8], i: usize, n: u32) -> (r: CenResult<(Geometry<u64>, usize)>)
    requires
        i <= b@.len(),
    ensures
        match r {
            Ok(x) => parts_at(b@, i as int, n as nat, 2, seq![]) matches Ok(y) && x.0@
                == shape_of_parts(5, y.0) && x.1 == y.1 && i <= x.1 <= b@.len(),
            Err(e) => parts_at(b@, i as int, n as nat, 2, seq![]) matches Err(f) && e@ == f,
        },
    decreases b@.len() - i, 1nat,
{
    let mut lines: Vec<LineString<u64>> = Vec::new();
    let mut at: usize = i;
    let mut k: u32 = 0;
    assert(as_lines(lines_view(lines@)) =~= seq![]);
    while k < n
        invariant
            k <= n,
            i <= at <= b@.len(),
            parts_at(b@, i as int, n as nat, 2, seq![]) == parts_at(
                b@,
                at as int,
                (n - k) as nat,
                2,
                as_lines(lines_view(lines@)),
            ),
        decreases n - k,
    {
        let ghost done = as_lines(lines_view(lines@));
        match read_geometry(b, at) {
            Err(e) => {
                return Err(e);
            },
            Ok(x) => match x.0 {
                Geometry::LineString(l) => {
                    let ghost here = points_view(l.points@);
                    lines.push(l);
                    at = x.1;
                    assert(as_lines(lines_view(lines@)) =~= done.push(Shape::LineString(here)));
                },
                _ => {
                    return Err(CenError::syntax("MULTILINESTRING child not a linestring"));
                },
            },
        }
        k = k + 1;
    }
    let g: Geometry<u64> = Geometry::MultiLineString(MultiLineString { linestrings: lines });
    assert(shape_of_parts(5, as_lines(lines_view(lines@)))->MultiLineString_0 =~= lines_view(
        lines@,
    ));
    Ok((g, at))
}

fn read_multi_polygon(b: &[u8], i: usize, n: u32) -> (r: CenResult<(Geometry<u64>, usize)>)
    requires
        i <= b@.len(),
    ensures
        match r {
            Ok(x) => parts_at(b@, i as int, n as nat, 3, seq![]) matches Ok(y) && x.0@
                == shape_of_parts(6, y.0) && x.1 == y.1 && i <= x.1 <= b@.len(),
            Err(e) => parts_at(b@, i as int, n as nat, 3, seq![]) matches Err(f) && e@ == f,
        },
    decreases b@.len() - i, 1nat,
{
    let mut polys: Vec<Polygon<u64>> = Vec::new();
    let mut at: usize = i;
    let mut k: u32 = 0;
    assert(as_polygons(polygons_view(polys@)) =~= seq![]);
    while k < n
        invariant
            k <= n,
            i <= at <= b@.len(),
            parts_at(b@, i as int, n as nat, 3, seq![]) == parts_at(
                b@,
                at as int,
                (n - k) as nat,
                3,
                as_polygons(polygons_view(polys@)),
            ),
        decreases n - k,
    {
        let ghost done = as_polygons(polygons_view(polys@));
        match read_geometry(b, at) {
            Err(e) => {
                return Err(e);
            },
            Ok(x) => match x.0 {
                Geometry::Polygon(p) => {
                    let ghost here = rings_view(p);
                    polys.push(p);
                    at = x.1;
                    assert(as_polygons(polygons_view(polys@)) =~= done.push(Shape::Polygon(here)));
                },
                _ => {
                    return Err(CenError::syntax("MULTIPOLYGON child not a polygon"));
                },
            },
        }
        k = k + 1;
    }
    let g: Geometry<u64> = Geometry::MultiPolygon(MultiPolygon { polygons: polys });
    assert(shape_of_parts(6, as_polygons(polygons_view(polys@)))->MultiPolygon_0 =~= polygons_view(
        polys@,
    ));
    Ok((g, at))
}

fn read_collection(b: &[u8], i: usize, n: u32) -> (r: CenResult<(Geometry<u64>, usize)>)
    requires
        i <= b@.len(),
    ensures
        match r {
            Ok(x) => parts_at(b@, i as int, n as nat, 0, seq![]) matches Ok(y) && x.0@
                == shape_of_parts(7, y.0) && x.1 == y.1 && i <= x.1 <= b@.len(),
            Err(e) => parts_at(b@, i as int, n as nat, 0, seq![]) matches Err(f) && e@ == f,
        },
    decreases b@.len() - i, 1nat,
{
    let mut parts: Vec<Geometry<u64>> = Vec::new();
    let mut at: usize = i;
    let mut k: u32 = 0;
    assert(shapes_of(parts@) =~= seq![]);
    while k < n
        invariant
            k <= n,
            i <= at <= b@.len(),
            parts_at(b@, i as int, n as nat, 0, seq![]) == parts_at(
                b@,
                at as int,
                (n - k) as nat,
                0,
                shapes_of(parts@),
            ),
        decreases n - k,
    {
        let ghost done = parts@;
        match read_geometry(b, at) {
            Err(e) => {
                return Err(e);
            },
            Ok(x) => {
                let ghost here = x.0;
                parts.push(x.0);
                at = x.1;
                proof {
                    assert(parts@.drop_last() =~= done);
                    assert(parts@.last() == here);
                }
            },
        }
        k = k + 1;
    }
    Ok((Geometry::GeometryCollection(parts), at))
}

fn read_geometry(b: &[u8], i: usize) -> (r: CenResult<(Geometry<u64>, usize)>)
    requires
        i <= b@.len(),
    ensures
        match r {
            Ok(x) => shape_at(b@, i as int) matches Ok(y) && x.0@ == y.0 && x.1 == y.1 && i < x.1
                <= b@.len(),
            Err(e) => shape_at(b@, i as int) matches Err(f) && e@ == f,
        },
    decreases b@.len() - i, 0nat,
{
    if i >= b.len() {
        return Err(CenError::syntax("WKB EOF reading u8"));
    }
    let order: u8 = b[i];
    if order != BYTE_ORDER_LE {
        let shown: String = decimal_string(order as u64);
        let mut text: String = "unsupported WKB byte order: ".to_owned();
        text.append(shown.as_str());
        text.append(" (only little-endian=1 supported)");
        return Err(CenError::syntax(text.as_str()));
    }
    let (code, at) = match read_u32_le(b, i + 1) {
        Ok(x) => x,
        Err(e) => {
            return Err(e);
        },
    };
    if code == 1 {
        return match read_point(b, at) {
            Ok(x) => Ok((Geometry::Point(x.0), x.1)),
            Err(e) => Err(e),
        };
    }
    if code == 2 {
        return match read_line(b, at) {
            Ok(x) => Ok((Geometry::LineString(LineString { points: x.0 }), x.1)),
            Err(e) => Err(e),
        };
    }
    if code == 0 || code > 7 {
        let shown: String = decimal_string(code as u64);
        let mut text: String = "unknown WKB geometry type code: ".to_owned();
        text.append(shown.as_str());
        return Err(CenError::syntax(text.as_str()));
    }
    let (n, start) = match read_u32_le(b, at) {
        Ok(x) => x,
        Err(e) => {
            return Err(e);
        },
    };
    if code == 3 {
        match read_rings(b, start, n) {
            Ok(x) => {
                assert(lines_view(x.0@).len() == x.0@.len());
                if x.0.len() == 0 {
                    return Err(CenError::syntax("WKB polygon has no rings"));
                }
                Ok((Geometry::Polygon(polygon_of_rings(x.0)), x.1))
            },
            Err(e) => Err(e),
        }
    } else if code == 4 {
        read_multi_point(b, start, n)
    } else if code == 5 {
        read_multi_line(b, start, n)
    } else if code == 6 {
        read_multi_polygon(b, start, n)
    } else {
        read_collection(b, start, n)
    }
}

/// Reads the geometry that bytes begin with.
pub fn from_wkb(bytes: &[u8]) -> (r: CenResult<Geometry<u64>>)
    ensures
        match r {
            Ok(g) => wkb_shape(bytes@) matches Ok(s) && g@ == s,
            Err(e) => wkb_shape(bytes@) matches Err(f) && e@ == f,
        },
{
    match read_geometry(bytes, 0) {
        Ok(x) => Ok(x.0),
        Err(e) => Err(e),
    }
}

/// Whether every number of points, rings and parts fits 32 bits, and every
/// polygon has a ring.
pub open spec fn counts_fit(g: Shape<u64>) -> bool
    decreases g,
{
    match g {
        Shape::Point(_) => true,
        Shape::LineString(p) => p.len() <= u32::MAX,
        Shape::Polygon(r) => rings_fit(r),
        Shape::MultiPoint(p) => p.len() <= u32::MAX,
        Shape::MultiLineString(l) => lines_fit(l),
        Shape::MultiPolygon(p) => p.len() <= u32::MAX && forall|i: int|
            0 <= i < p.len() ==> rings_fit(#[trigger] p[i]),
        Shape::Collection(s) => s.len() <= u32::MAX && all_fit(s),
    }
}

/// Whether the numbers of line strings and of their points fit 32 bits.
pub open spec fn lines_fit(s: Seq<Seq<(u64, u64)>>) -> bool {
    s.len() <= u32::MAX && forall|i: int|
        0 <= i < s.len() ==> (#[trigger] s[i]).len() <= u32::MAX
}

/// Whether there are rings, and their numbers fit 32 bits.
pub open spec fn rings_fit(s: Seq<Seq<(u64, u64)>>) -> bool {
    s.len() > 0 && lines_fit(s)
}

/// Whether the counts of all geometries fit.
pub open spec fn all_fit(s: Seq<Shape<u64>>) -> bool
    decreases s,
{
    s.len() == 0 || all_fit(s.drop_last()) && counts_fit(s.last())
}

proof fn lemma_u32_read(b: Seq<u8>, i: int, x: u32)
    requires
        stands_at(b, i, le32(x)),
    ensures
        u32_at(b, i) == Ok::<(u32, int), ErrorView>((x, i + 4)),
{
    law_le32_round_trip(x, b, i);
}

proof fn lemma_point_read(b: Seq<u8>, i: int, p: (u64, u64))
    requires
        stands_at(b, i, point_bytes(p)),
    ensures
        point_at(b, i) == Ok::<((u64, u64), int), ErrorView>((p, i + 16)),
        point_bytes(p).len() == 16,
{
    lemma_stands_at_split(b, i, le64(p.0), le64(p.1));
    assert(le64(p.0).len() == 8);
    assert(le64(p.1).len() == 8);
    law_le64_round_trip(p.0, b, i);
    law_le64_round_trip(p.1, b, i + 8);
}

proof fn lemma_points_read(b: Seq<u8>, i: int, s: Seq<(u64, u64)>, m: nat, acc: Seq<(u64, u64)>)
    requires
        stands_at(b, i, points_bytes(s)),
    ensures
        points_at(b, i, s.len() + m, acc) == points_at(b, i + points_bytes(s).len(), m, acc + s),
    decreases s.len(),
{
    if s.len() == 0 {
        assert(acc + s =~= acc);
    } else {
        let front = s.drop_last();
        let j = i + points_bytes(front).len();
        lemma_stands_at_split(b, i, points_bytes(front), point_bytes(s.last()));
        lemma_points_read(b, i, front, m + 1, acc);
        lemma_point_read(b, j, s.last());
        assert((acc + front).push(s.last()) =~= acc + s);
    }
}

proof fn lemma_line_read(b: Seq<u8>, i: int, s: Seq<(u64, u64)>)
    requires
        stands_at(b, i, line_bytes(s)),
        s.len() <= u32::MAX,
    ensures
        line_at(b, i) == Ok::<(Seq<(u64, u64)>, int), ErrorView>((s, i + line_bytes(s).len())),
{
    let n = s.len() as u32;
    lemma_stands_at_split(b, i, le32(n), points_bytes(s));
    lemma_u32_read(b, i, n);
    lemma_points_read(b, i + 4, s, 0, seq![]);
    assert(Seq::<(u64, u64)>::empty() + s =~= s);
    assert(le32(n).len() == 4);
}

proof fn lemma_rings_read(
    b: Seq<u8>,
    i: int,
    s: Seq<Seq<(u64, u64)>>,
    m: nat,
    acc: Seq<Seq<(u64, u64)>>,
)
    requires
        stands_at(b, i, rings_bytes(s)),
        forall|k: int| 0 <= k < s.len() ==> (#[trigger] s[k]).len() <= u32::MAX,
    ensures
        rings_at(b, i, s.len() + m, acc) == rings_at(b, i + rings_bytes(s).len(), m, acc + s),
    decreases s.len(),
{
    if s.len() == 0 {
        assert(acc + s =~= acc);
    } else {
        let front = s.drop_last();
        let j = i + rings_bytes(front).len();
        lemma_stands_at_split(b, i, rings_bytes(front), line_bytes(s.last()));
        assert forall|k: int| 0 <= k < front.len() implies (#[trigger] front[k]).len()
            <= u32::MAX by {
            assert(front[k] == s[k]);
        }
        assert(s[s.len() - 1].len() <= u32::MAX);
        lemma_rings_read(b, i, front, m + 1, acc);
        lemma_line_read(b, j, s.last());
        assert((acc + front).push(s.last()) =~= acc + s);
    }
}

proof fn lemma_header_read(b: Seq<u8>, i: int, code: u32, body: Seq<u8>)
    requires
        stands_at(b, i, header(code) + body),
    ensures
        0 <= i < b.len(),
        b[i] == BYTE_ORDER_LE,
        u32_at(b, i + 1) == Ok::<(u32, int), ErrorView>((code, i + 5)),
        stands_at(b, i + 5, body),
        header(code).len() == 5,
{
    lemma_stands_at_split(b, i, header(code), body);
    lemma_stands_at_split(b, i, seq![BYTE_ORDER_LE], le32(code));
    assert(b.subrange(i, i + 1)[0] == BYTE_ORDER_LE);
    lemma_u32_read(b, i + 1, code);
    assert(le32(code).len() == 4);
}

proof fn lemma_point_record(b: Seq<u8>, i: int, p: (u64, u64))
    requires
        stands_at(b, i, header(1) + point_bytes(p)),
    ensures
        shape_at(b, i) == Ok::<(Shape<u64>, int), ErrorView>(
            (Shape::Point(p), i + (header(1) + point_bytes(p)).len()),
        ),
{
    lemma_header_read(b, i, 1, point_bytes(p));
    lemma_point_read(b, i + 5, p);
}

proof fn lemma_line_record(b: Seq<u8>, i: int, s: Seq<(u64, u64)>)
    requires
        stands_at(b, i, header(2) + line_bytes(s)),
        s.len() <= u32::MAX,
    ensures
        shape_at(b, i) == Ok::<(Shape<u64>, int), ErrorView>(
            (Shape::LineString(s), i + (header(2) + line_bytes(s)).len()),
        ),
{
    lemma_header_read(b, i, 2, line_bytes(s));
    lemma_line_read(b, i + 5, s);
}

proof fn lemma_polygon_record(b: Seq<u8>, i: int, s: Seq<Seq<(u64, u64)>>)
    requires
        stands_at(b, i, header(3) + polygon_bytes(s)),
        rings_fit(s),
    ensures
        shape_at(b, i) == Ok::<(Shape<u64>, int), ErrorView>(
            (Shape::Polygon(s), i + (header(3) + polygon_bytes(s)).len()),
        ),
{
    let n = s.len() as u32;
    lemma_header_read(b, i, 3, polygon_bytes(s));
    lemma_stands_at_split(b, i + 5, le32(n), rings_bytes(s));
    lemma_u32_read(b, i + 5, n);
    assert(le32(n).len() == 4);
    lemma_rings_read(b, i + 9, s, 0, seq![]);
    assert(Seq::<Seq<(u64, u64)>>::empty() + s =~= s);
}

proof fn lemma_points_parts(
    b: Seq<u8>,
    i: int,
    s: Seq<(u64, u64)>,
    m: nat,
    acc: Seq<Shape<u64>>,
)
    requires
        stands_at(b, i, point_records(s)),
    ensures
        parts_at(b, i, s.len() + m, 1, acc) == parts_at(
            b,
            i + point_records(s).len(),
            m,
            1,
            acc + as_points(s),
        ),
    decreases s.len(),
{
    if s.len() == 0 {
        assert(acc + as_points(s) =~= acc);
    } else {
        let front = s.drop_last();
        let j = i + point_records(front).len();
        let record = header(1) + point_bytes(s.last());
        lemma_stands_at_split(b, i, point_records(front), record);
        lemma_points_parts(b, i, front, m + 1, acc);
        lemma_point_record(b, j, s.last());
        assert((acc + as_points(front)).push(Shape::Point(s.last())) =~= acc + as_points(s));
    }
}

proof fn lemma_lines_parts(
    b: Seq<u8>,
    i: int,
    s: Seq<Seq<(u64, u64)>>,
    m: nat,
    acc: Seq<Shape<u64>>,
)
    requires
        stands_at(b, i, line_records(s)),
        forall|k: int| 0 <= k < s.len() ==> (#[trigger] s[k]).len() <= u32::MAX,
    ensures
        parts_at(b, i, s.len() + m, 2, acc) == parts_at(
            b,
            i + line_records(s).len(),
            m,
            2,
            acc + as_lines(s),
        ),
    decreases s.len(),
{
    if s.len() == 0 {
        assert(acc + as_lines(s) =~= acc);
    } else {
        let front = s.drop_last();
        let j = i + line_records(front).len();
        let record = header(2) + line_bytes(s.last());
        lemma_stands_at_split(b, i, line_records(front), record);
        assert forall|k: int| 0 <= k < front.len() implies (#[trigger] front[k]).len()
            <= u32::MAX by {
            assert(front[k] == s[k]);
        }
        assert(s[s.len() - 1].len() <= u32::MAX);
        lemma_lines_parts(b, i, front, m + 1, acc);
        lemma_line_record(b, j, s.last());
        assert((acc + as_lines(front)).push(Shape::LineString(s.last())) =~= acc + as_lines(s));
    }
}

proof fn lemma_polygons_parts(
    b: Seq<u8>,
    i: int,
    s: Seq<Seq<Seq<(u64, u64)>>>,
    m: nat,
    acc: Seq<Shape<u64>>,
)
    requires
        stands_at(b, i, polygon_records(s)),
        forall|k: int| 0 <= k < s.len() ==> rings_fit(#[trigger] s[k]),
    ensures
        parts_at(b, i, s.len() + m, 3, acc) == parts_at(
            b,
            i + polygon_records(s).len(),
            m,
            3,
            acc + as_polygons(s),
        ),
    decreases s.len(),
{
    if s.len() == 0 {
        assert(acc + as_polygons(s) =~= acc);
    } else {
        let front = s.drop_last();
        let j = i + polygon_records(front).len();
        let record = header(3) + polygon_bytes(s.last());
        lemma_stands_at_split(b, i, polygon_records(front), record);
        assert forall|k: int| 0 <= k < front.len() implies rings_fit(#[trigger] front[k]) by {
            assert(front[k] == s[k]);
        }
        assert(rings_fit(s[s.len() - 1]));
        lemma_polygons_parts(b, i, front, m + 1, acc);
        lemma_polygon_record(b, j, s.last());
        assert((acc + as_polygons(front)).push(Shape::Polygon(s.last())) =~= acc + as_polygons(s));
    }
}

/// The kind of the parts of a geometry of a kind; 0 stands for any kind.
spec fn part_kind(code: u32) -> u32 {
    if code == 7 {
        0
    } else {
        (code - 3) as u32
    }
}

proof fn lemma_parts_read(b: Seq<u8>, i: int, code: u32, n: u32, records: Seq<u8>)
    requires
        stands_at(b, i, header(code) + (le32(n) + records)),
        4 <= code <= 7,
    ensures
        stands_at(b, i + 9, records),
        (header(code) + (le32(n) + records)).len() == 9 + records.len(),
        shape_at(b, i) == match parts_at(b, i + 9, n as nat, part_kind(code), seq![]) {
            Err(e) => Err::<(Shape<u64>, int), ErrorView>(e),
            Ok(x) => Ok((shape_of_parts(code, x.0), x.1)),
        },
{
    lemma_header_read(b, i, code, le32(n) + records);
    lemma_stands_at_split(b, i + 5, le32(n), records);
    lemma_u32_read(b, i + 5, n);
    assert(le32(n).len() == 4);
}

proof fn lemma_multi_point_read(b: Seq<u8>, i: int, p: Seq<(u64, u64)>)
    requires
        stands_at(b, i, shape_bytes(Shape::MultiPoint(p))),
        p.len() <= u32::MAX,
    ensures
        shape_at(b, i) == Ok::<(Shape<u64>, int), ErrorView>(
            (Shape::MultiPoint(p), i + shape_bytes(Shape::MultiPoint(p)).len()),
        ),
{
    lemma_parts_read(b, i, 4, p.len() as u32, point_records(p));
    lemma_points_parts(b, i + 9, p, 0, seq![]);
    assert(Seq::<Shape<u64>>::empty() + as_points(p) =~= as_points(p));
    assert(shape_of_parts(4, as_points(p))->MultiPoint_0 =~= p);
}

proof fn lemma_multi_line_read(b: Seq<u8>, i: int, l: Seq<Seq<(u64, u64)>>)
    requires
        stands_at(b, i, shape_bytes(Shape::MultiLineString(l))),
        lines_fit(l),
    ensures
        shape_at(b, i) == Ok::<(Shape<u64>, int), ErrorView>(
            (Shape::MultiLineString(l), i + shape_bytes(Shape::MultiLineString(l)).len()),
        ),
{
    lemma_parts_read(b, i, 5, l.len() as u32, line_records(l));
    lemma_lines_parts(b, i + 9, l, 0, seq![]);
    assert(Seq::<Shape<u64>>::empty() + as_lines(l) =~= as_lines(l));
    assert(shape_of_parts(5, as_lines(l))->MultiLineString_0 =~= l);
}

proof fn lemma_multi_polygon_read(b: Seq<u8>, i: int, p: Seq<Seq<Seq<(u64, u64)>>>)
    requires
        stands_at(b, i, shape_bytes(Shape::MultiPolygon(p))),
        counts_fit(Shape::MultiPolygon(p)),
    ensures
        shape_at(b, i) == Ok::<(Shape<u64>, int), ErrorView>(
            (Shape::MultiPolygon(p), i + shape_bytes(Shape::MultiPolygon(p)).len()),
        ),
{
    lemma_parts_read(b, i, 6, p.len() as u32, polygon_records(p));
    lemma_polygons_parts(b, i + 9, p, 0, seq![]);
    assert(Seq::<Shape<u64>>::empty() + as_polygons(p) =~= as_polygons(p));
    assert(shape_of_parts(6, as_polygons(p))->MultiPolygon_0 =~= p);
}

proof fn lemma_shape_size(g: Shape<u64>)
    ensures
        shape_bytes(g).len() >= 5,
{
    assert(header(kind_code(g)).len() == 5) by {
        assert(le32(kind_code(g)).len() == 4);
    }
}

proof fn lemma_shapes_read(
    b: Seq<u8>,
    i: int,
    s: Seq<Shape<u64>>,
    m: nat,
    acc: Seq<Shape<u64>>,
)
    requires
        stands_at(b, i, shapes_bytes(s)),
        all_fit(s),
    ensures
        parts_at(b, i, s.len() + m, 0, acc) == parts_at(
            b,
            i + shapes_bytes(s).len(),
            m,
            0,
            acc + s,
        ),
    decreases s,
{
    if s.len() == 0 {
        assert(acc + s =~= acc);
    } else {
        let front = s.drop_last();
        let j = i + shapes_bytes(front).len();
        lemma_stands_at_split(b, i, shapes_bytes(front), shape_bytes(s.last()));
        lemma_shapes_read(b, i, front, m + 1, acc);
        lemma_shape_read(b, j, s.last());
        lemma_shape_size(s.last());
        assert((acc + front).push(s.last()) =~= acc + s);
    }
}

proof fn lemma_shape_read(b: Seq<u8>, i: int, g: Shape<u64>)
    requires
        stands_at(b, i, shape_bytes(g)),
        counts_fit(g),
    ensures
        shape_at(b, i) == Ok::<(Shape<u64>, int), ErrorView>((g, i + shape_bytes(g).len())),
    decreases g,
{
    match g {
        Shape::Point(p) => {
            lemma_point_record(b, i, p);
        },
        Shape::LineString(p) => {
            lemma_line_record(b, i, p);
        },
        Shape::Polygon(r) => {
            lemma_polygon_record(b, i, r);
        },
        Shape::MultiPoint(p) => {
            lemma_multi_point_read(b, i, p);
        },
        Shape::MultiLineString(l) => {
            lemma_multi_line_read(b, i, l);
        },
        Shape::MultiPolygon(p) => {
            lemma_multi_polygon_read(b, i, p);
        },
        Shape::Collection(s) => {
            lemma_parts_read(b, i, 7, s.len() as u32, shapes_bytes(s));
            lemma_shapes_read(b, i + 9, s, 0, seq![]);
            assert(Seq::<Shape<u64>>::empty() + s =~= s);
        },
    }
}

/// Reading what was written gives the geometry back, whatever follows it.
pub proof fn law_wkb_round_trip(g: Shape<u64>, rest: Seq<u8>)
    requires
        counts_fit(g),
    ensures
        wkb_shape(shape_bytes(g) + rest) == Ok::<Shape<u64>, ErrorView>(g),
{
    let b = shape_bytes(g) + rest;
    assert(b.subrange(0, shape_bytes(g).len() as int) =~= shape_bytes(g));
    lemma_shape_read(b, 0, g);
}

} // verus!
