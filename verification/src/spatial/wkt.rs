//! Geometries as Well-Known Text. Coordinates are the texts of numbers.

use vstd::prelude::*;

use crate::error::{outcome, syntax_error, CenError, CenResult, ErrorView};
use crate::numbers::{
    denotes_float, digits_end, is_float_text, is_plain_decimal, lemma_plain_decimal, sign_end,
    skip_sign,
};
use crate::scan::{
    char_at, error_at, holds_at, lemma_holds_char, lemma_holds_split, lemma_holds_whole,
    lemma_space_end, message_at, offset, offset_at, peek, skip_ws, space_end, Read,
};
use crate::spatial::geometry::{
    lemma_shapes_of, lines_view, point_view, points_view, polygon_of_rings, polygons_view,
    rings_view, shape_of, shapes_of, Geometry, LineString, MultiLineString, MultiPoint,
    MultiPolygon, Point, Polygon, Shape,
};
use crate::text::{
    ascii_uppercase, chars_of, debug_char, debug_of_char, is_alphabetic, is_digit, is_letter,
    is_space, same_text, string_of, upper_case, with_number, Text,
};

verus! {

/// What stands before an item of a list: nothing before the first one.
pub open spec fn comma(before: nat) -> Text {
    if before == 0 {
        seq![]
    } else {
        ", "@
    }
}

/// The coordinates of a point.
pub open spec fn coord_text(p: (Text, Text)) -> Text {
    p.0 + " "@ + p.1
}

/// Texts with commas between them.
pub open spec fn list_text(parts: Seq<Text>) -> Text
    decreases parts.len(),
{
    if parts.len() == 0 {
        seq![]
    } else {
        list_text(parts.drop_last()) + comma(parts.drop_last().len()) + parts.last()
    }
}

/// A text in brackets.
pub open spec fn bracketed(s: Text) -> Text {
    "("@ + s + ")"@
}

/// The coordinates of each point.
pub open spec fn coord_parts(s: Seq<(Text, Text)>) -> Seq<Text> {
    Seq::new(s.len(), |k: int| coord_text(s[k]))
}

/// The coordinates of points.
pub open spec fn coords_text(s: Seq<(Text, Text)>) -> Text {
    list_text(coord_parts(s))
}

/// Each ring, in brackets.
pub open spec fn ring_parts(s: Seq<Seq<(Text, Text)>>) -> Seq<Text> {
    Seq::new(s.len(), |k: int| bracketed(coords_text(s[k])))
}

/// Rings, each in brackets.
pub open spec fn rings_text(s: Seq<Seq<(Text, Text)>>) -> Text {
    list_text(ring_parts(s))
}

/// Each point, in brackets.
pub open spec fn bracketed_parts(s: Seq<(Text, Text)>) -> Seq<Text> {
    Seq::new(s.len(), |k: int| bracketed(coord_text(s[k])))
}

/// Points, each in brackets.
pub open spec fn bracketed_text(s: Seq<(Text, Text)>) -> Text {
    list_text(bracketed_parts(s))
}

/// Each polygon, in brackets.
pub open spec fn polygon_parts(s: Seq<Seq<Seq<(Text, Text)>>>) -> Seq<Text> {
    Seq::new(s.len(), |k: int| bracketed(rings_text(s[k])))
}

/// Polygons, each in brackets.
pub open spec fn polygons_text(s: Seq<Seq<Seq<(Text, Text)>>>) -> Text {
    list_text(polygon_parts(s))
}

/// The word for a kind of geometry.
pub open spec fn kind_word(g: Shape<Text>) -> Text {
    match g {
        Shape::Point(_) => "POINT"@,
        Shape::LineString(_) => "LINESTRING"@,
        Shape::Polygon(_) => "POLYGON"@,
        Shape::MultiPoint(_) => "MULTIPOINT"@,
        Shape::MultiLineString(_) => "MULTILINESTRING"@,
        Shape::MultiPolygon(_) => "MULTIPOLYGON"@,
        Shape::Collection(_) => "GEOMETRYCOLLECTION"@,
    }
}

/// A geometry as text.
pub open spec fn shape_text(g: Shape<Text>) -> Text
    decreases g,
{
    kind_word(g) + " ("@ + match g {
        Shape::Point(p) => coord_text(p),
        Shape::LineString(p) => coords_text(p),
        Shape::Polygon(r) => rings_text(r),
        Shape::MultiPoint(p) => bracketed_text(p),
        Shape::MultiLineString(l) => rings_text(l),
        Shape::MultiPolygon(p) => polygons_text(p),
        Shape::Collection(s) => shapes_text(s),
    } + ")"@
}

/// Geometries as text.
pub open spec fn shapes_text(s: Seq<Shape<Text>>) -> Text
    decreases s,
{
    if s.len() == 0 {
        seq![]
    } else {
        shapes_text(s.drop_last()) + comma(s.drop_last().len()) + shape_text(s.last())
    }
}

fn write_comma(before: usize, out: &mut String)
    ensures
        final(out)@ == old(out)@ + comma(before as nat),
{
    if before > 0 {
        out.append(", ");
    }
    assert(out@ =~= old(out)@ + comma(before as nat));
}

fn write_coord(p: &Point<String>, out: &mut String)
    ensures
        final(out)@ == old(out)@ + coord_text(point_view(*p)),
{
    out.append(p.x.as_str());
    out.append(" ");
    out.append(p.y.as_str());
    assert(out@ =~= old(out)@ + coord_text(point_view(*p)));
}

fn write_coord_list(points: &Vec<Point<String>>, out: &mut String)
    ensures
        final(out)@ == old(out)@ + coords_text(points_view(points@)),
{
    let ghost all = coord_parts(points_view(points@));
    let ghost front = out@;
    let mut i: usize = 0;
    assert(all.take(0) =~= seq![]);
    assert(out@ =~= front + list_text(all.take(0)));
    while i < points.len()
        invariant
            i <= points@.len(),
            all == coord_parts(points_view(points@)),
            out@ == front + list_text(all.take(i as int)),
        decreases points@.len() - i,
    {
        proof {
            assert(all.take(i + 1).drop_last() =~= all.take(i as int));
            assert(all.take(i + 1).last() == all[i as int]);
        }
        write_comma(i, out);
        write_coord(&points[i], out);
        i = i + 1;
        assert(out@ =~= front + list_text(all.take(i as int)));
    }
    assert(all.take(i as int) =~= all);
}

fn write_bracketed(points: &Vec<Point<String>>, out: &mut String)
    ensures
        final(out)@ == old(out)@ + bracketed_text(points_view(points@)),
{
    let ghost all = bracketed_parts(points_view(points@));
    let ghost front = out@;
    let mut i: usize = 0;
    assert(all.take(0) =~= seq![]);
    assert(out@ =~= front + list_text(all.take(0)));
    while i < points.len()
        invariant
            i <= points@.len(),
            all == bracketed_parts(points_view(points@)),
            out@ == front + list_text(all.take(i as int)),
        decreases points@.len() - i,
    {
        proof {
            assert(all.take(i + 1).drop_last() =~= all.take(i as int));
            assert(all.take(i + 1).last() == all[i as int]);
        }
        write_comma(i, out);
        out.append("(");
        write_coord(&points[i], out);
        out.append(")");
        i = i + 1;
        assert(out@ =~= front + list_text(all.take(i as int)));
    }
    assert(all.take(i as int) =~= all);
}

fn write_lines(lines: &Vec<LineString<String>>, out: &mut String)
    ensures
        final(out)@ == old(out)@ + rings_text(lines_view(lines@)),
{
    let ghost all = ring_parts(lines_view(lines@));
    let ghost front = out@;
    let mut i: usize = 0;
    assert(all.take(0) =~= seq![]);
    assert(out@ =~= front + list_text(all.take(0)));
    while i < lines.len()
        invariant
            i <= lines@.len(),
            all == ring_parts(lines_view(lines@)),
            out@ == front + list_text(all.take(i as int)),
        decreases lines@.len() - i,
    {
        proof {
            assert(all.take(i + 1).drop_last() =~= all.take(i as int));
            assert(all.take(i + 1).last() == all[i as int]);
        }
        write_comma(i, out);
        out.append("(");
        write_coord_list(&lines[i].points, out);
        out.append(")");
        i = i + 1;
        assert(out@ =~= front + list_text(all.take(i as int)));
    }
    assert(all.take(i as int) =~= all);
}

fn write_ring_list(p: &Polygon<String>, out: &mut String)
    ensures
        final(out)@ == old(out)@ + rings_text(rings_view(*p)),
{
    let ghost views = rings_view(*p);
    let ghost all = ring_parts(views);
    let ghost front = out@;
    let rings: Vec<&LineString<String>> = p.rings();
    let mut i: usize = 0;
    assert(all.take(0) =~= seq![]);
    assert(out@ =~= front + list_text(all.take(0)));
    while i < rings.len()
        invariant
            i <= rings@.len(),
            rings@.len() == all.len(),
            views == rings_view(*p),
            all == ring_parts(views),
            *rings@[0] == p.exterior,
            forall|k: int| 0 < k < rings@.len() ==> *(#[trigger] rings@[k]) == p.interiors@[k - 1],
            out@ == front + list_text(all.take(i as int)),
        decreases rings@.len() - i,
    {
        proof {
            assert(all.take(i + 1).drop_last() =~= all.take(i as int));
            assert(all.take(i + 1).last() == all[i as int]);
            assert(views[i as int] == points_view(rings@[i as int].points@)) by {
                if i > 0 {
                    assert(views[i as int] == lines_view(p.interiors@)[i - 1]);
                }
            }
        }
        write_comma(i, out);
        out.append("(");
        write_coord_list(&rings[i].points, out);
        out.append(")");
        i = i + 1;
        assert(out@ =~= front + list_text(all.take(i as int)));
    }
    assert(all.take(i as int) =~= all);
}

fn write_polygons(polys: &Vec<Polygon<String>>, out: &mut String)
    ensures
        final(out)@ == old(out)@ + polygons_text(polygons_view(polys@)),
{
    let ghost all = polygon_parts(polygons_view(polys@));
    let ghost front = out@;
    let mut i: usize = 0;
    assert(all.take(0) =~= seq![]);
    assert(out@ =~= front + list_text(all.take(0)));
    while i < polys.len()
        invariant
            i <= polys@.len(),
            all == polygon_parts(polygons_view(polys@)),
            out@ == front + list_text(all.take(i as int)),
        decreases polys@.len() - i,
    {
        proof {
            assert(all.take(i + 1).drop_last() =~= all.take(i as int));
            assert(all.take(i + 1).last() == all[i as int]);
        }
        write_comma(i, out);
        out.append("(");
        write_ring_list(&polys[i], out);
        out.append(")");
        i = i + 1;
        assert(out@ =~= front + list_text(all.take(i as int)));
    }
    assert(all.take(i as int) =~= all);
}

fn write_kind(g: &Geometry<String>, out: &mut String)
    ensures
        final(out)@ == old(out)@ + (kind_word(g@) + " ("@),
{
    match g {
        Geometry::Point(_) => out.append("POINT"),
        Geometry::LineString(_) => out.append("LINESTRING"),
        Geometry::Polygon(_) => out.append("POLYGON"),
        Geometry::MultiPoint(_) => out.append("MULTIPOINT"),
        Geometry::MultiLineString(_) => out.append("MULTILINESTRING"),
        Geometry::MultiPolygon(_) => out.append("MULTIPOLYGON"),
        Geometry::GeometryCollection(_) => out.append("GEOMETRYCOLLECTION"),
    }
    out.append(" (");
    assert(out@ =~= old(out)@ + (kind_word(g@) + " ("@));
}

fn write_wkt(g: &Geometry<String>, out: &mut String)
    ensures
        final(out)@ == old(out)@ + shape_text(g@),
    decreases g,
{
    write_kind(g, out);
    match g {
        Geometry::Point(p) => {
            write_coord(p, out);
        },
        Geometry::LineString(l) => {
            write_coord_list(&l.points, out);
        },
        Geometry::Polygon(p) => {
            write_ring_list(p, out);
        },
        Geometry::MultiPoint(m) => {
            write_bracketed(&m.points, out);
        },
        Geometry::MultiLineString(m) => {
            write_lines(&m.linestrings, out);
        },
        Geometry::MultiPolygon(m) => {
            write_polygons(&m.polygons, out);
        },
        Geometry::GeometryCollection(v) => {
            let ghost all = shapes_of(v@);
            let ghost front = out@;
            let mut i: usize = 0;
            proof {
                lemma_shapes_of(v@);
                assert(all.take(0) =~= seq![]);
                assert(out@ =~= front + shapes_text(all.take(0)));
            }
            while i < v.len()
                invariant
                    i <= v@.len(),
                    all == shapes_of(v@),
                    all.len() == v@.len(),
                    forall|k: int| 0 <= k < v@.len() ==> #[trigger] all[k] == shape_of(v@[k]),
                    out@ == front + shapes_text(all.take(i as int)),
                    decreases_to!(g => v),
                decreases v@.len() - i,
            {
                proof {
                    assert(all.take(i + 1).drop_last() =~= all.take(i as int));
                    assert(all.take(i + 1).last() == all[i as int]);
                    assert(decreases_to!(g => v, v@, v@[i as int]));
                }
                write_comma(i, out);
                write_wkt(&v[i], out);
                i = i + 1;
                assert(out@ =~= front + shapes_text(all.take(i as int)));
            }
            assert(all.take(i as int) =~= all);
        },
    }
    out.append(")");
    assert(out@ =~= old(out)@ + shape_text(g@));
}

/// Writes a geometry.
pub fn to_wkt(geom: &Geometry<String>) -> (r: String)
    ensures
        r@ == shape_text(geom@),
{
    let mut out: String = String::new();
    write_wkt(geom, &mut out);
    assert(out@ =~= shape_text(geom@));
    out
}

/// Reading one item of a list.
pub type Item<X> = spec_fn(Text, int) -> Read<X>;

/// Where the text goes on behind the given character.
pub open spec fn eaten(t: Text, i: int, c: char) -> Result<int, ErrorView> {
    let k = space_end(t, i);
    if char_at(t, k) == Some(c) {
        Ok(k + 1)
    } else {
        Err(
            syntax_error(
                message_at("expected '"@ + seq![c] + "' at offset "@, t, k) + ", got "@
                    + debug_char(char_at(t, k)),
            ),
        )
    }
}

/// Where the letters that go on at `i` end.
pub open spec fn word_end(t: Text, i: int) -> int
    decreases t.len() - i,
{
    if 0 <= i < t.len() && is_letter(t[i]) {
        word_end(t, i + 1)
    } else {
        i
    }
}

/// The word at a place.
pub open spec fn ident_at(t: Text, i: int) -> Read<Text> {
    let k = space_end(t, i);
    let e = word_end(t, k);
    if e == k {
        Err(syntax_error(message_at("expected identifier at offset "@, t, k)))
    } else {
        Ok((t.subrange(k, e), e))
    }
}

/// Where a number ends whose scan stands at `i`, and whether it holds a digit.
/// A point counts once and before the exponent, an exponent once and behind a
/// digit.
pub open spec fn number_end(t: Text, i: int, dot: bool, exp: bool, digit: bool) -> (int, bool)
    decreases t.len() - i,
{
    if 0 <= i < t.len() && is_digit(t[i]) {
        number_end(t, i + 1, dot, exp, true)
    } else if 0 <= i < t.len() && t[i] == '.' && !dot && !exp {
        number_end(t, i + 1, true, exp, digit)
    } else if 0 <= i < t.len() && (t[i] == 'e' || t[i] == 'E') && !exp && digit {
        number_end(t, sign_end(t, i + 1), dot, true, digit)
    } else {
        (i, digit)
    }
}

/// The text of a number at a place.
pub open spec fn number_at(t: Text, i: int) -> Read<Text> {
    let k = space_end(t, i);
    let e = number_end(t, sign_end(t, k), false, false, false);
    let s = t.subrange(k, e.0);
    if !e.1 {
        Err(syntax_error(message_at("expected number at offset "@, t, k)))
    } else if !is_float_text(s) {
        Err(syntax_error("bad number '"@ + s + "': invalid float literal"@))
    } else {
        Ok((s, e.0))
    }
}

/// A point at a place.
pub open spec fn point_at(t: Text, i: int) -> Read<(Text, Text)> {
    match number_at(t, i) {
        Err(e) => Err(e),
        Ok((x, k)) => match number_at(t, k) {
            Err(e) => Err(e),
            Ok((y, z)) => Ok(((x, y), z)),
        },
    }
}

/// A point at a place, in brackets or not.
pub open spec fn token_at(t: Text, i: int) -> Read<(Text, Text)> {
    let k = space_end(t, i);
    if char_at(t, k) == Some('(') {
        match point_at(t, k + 1) {
            Err(e) => Err(e),
            Ok((p, z)) => match eaten(t, z, ')') {
                Err(e) => Err(e),
                Ok(end) => Ok((p, end)),
            },
        }
    } else {
        point_at(t, k)
    }
}

/// Whether another item follows, and where.
pub open spec fn after_item(t: Text, i: int) -> Read<bool> {
    let k = space_end(t, i);
    match char_at(t, k) {
        Some(',') => Ok((true, k + 1)),
        Some(')') => Ok((false, k + 1)),
        _ => Err(syntax_error(message_at("expected ',' or ')' at offset "@, t, k))),
    }
}

/// Whether the list that starts at a place is empty, and where it goes on.
pub open spec fn list_start(t: Text, i: int) -> Read<bool> {
    match eaten(t, i, '(') {
        Err(e) => Err(e),
        Ok(j) => {
            let k = space_end(t, j);
            if char_at(t, k) == Some(')') {
                Ok((true, k + 1))
            } else {
                Ok((false, k))
            }
        },
    }
}

/// The items of a list from the next one on.
pub open spec fn list_rest<X>(t: Text, i: int, item: Item<X>, acc: Seq<X>) -> Read<Seq<X>>
    decreases t.len() - i,
{
    match item(t, i) {
        Err(e) => Err(e),
        Ok((x, k)) => match after_item(t, k) {
            Err(e) => Err(e),
            Ok((more, z)) => if !more {
                Ok((acc.push(x), z))
            } else if i < z <= t.len() {
                list_rest(t, z, item, acc.push(x))
            } else {
                Err(syntax_error(seq![]))
            },
        },
    }
}

/// The items of the list at a place.
pub open spec fn list_at<X>(t: Text, i: int, item: Item<X>) -> Read<Seq<X>> {
    match list_start(t, i) {
        Err(e) => Err(e),
        Ok((true, z)) => Ok((seq![], z)),
        Ok((false, k)) => list_rest(t, k, item, seq![]),
    }
}

/// Points as items.
pub open spec fn points() -> Item<(Text, Text)> {
    |t: Text, i: int| point_at(t, i)
}

/// Points, in brackets or not, as items.
pub open spec fn tokens() -> Item<(Text, Text)> {
    |t: Text, i: int| token_at(t, i)
}

/// Rings as items.
pub open spec fn rings() -> Item<Seq<(Text, Text)>> {
    |t: Text, i: int| list_at(t, i, points())
}

/// A polygon at a place.
pub open spec fn polygon_at(t: Text, i: int) -> Read<Seq<Seq<(Text, Text)>>> {
    match list_at(t, i, rings()) {
        Err(e) => Err(e),
        Ok((r, k)) => if r.len() == 0 {
            Err(syntax_error("polygon has no rings"@))
        } else {
            Ok((r, k))
        },
    }
}

/// Polygons as items.
pub open spec fn polygons() -> Item<Seq<Seq<(Text, Text)>>> {
    |t: Text, i: int| polygon_at(t, i)
}

/// The geometry of a kind that holds nothing.
pub open spec fn empty_shape(kind: Text) -> Shape<Text> {
    if kind == "POINT"@ {
        Shape::Point(("NaN"@, "NaN"@))
    } else if kind == "LINESTRING"@ {
        Shape::LineString(seq![])
    } else if kind == "POLYGON"@ {
        Shape::Polygon(seq![seq![]])
    } else if kind == "MULTIPOINT"@ {
        Shape::MultiPoint(seq![])
    } else if kind == "MULTILINESTRING"@ {
        Shape::MultiLineString(seq![])
    } else if kind == "MULTIPOLYGON"@ {
        Shape::MultiPolygon(seq![])
    } else {
        Shape::Collection(seq![])
    }
}

/// Behind a mark for further dimensions, where one stands, and behind the
/// white space about it.
pub open spec fn marker_end(t: Text, i: int) -> int {
    let k = space_end(t, i);
    if char_at(t, k) == Some('Z') || char_at(t, k) == Some('M') {
        space_end(t, word_end(t, k))
    } else {
        k
    }
}

/// Whether the word for an empty geometry stands at a place.
pub open spec fn empty_word(t: Text, i: int) -> bool {
    char_at(t, i) == Some('E') && ascii_uppercase(t.subrange(i, word_end(t, i))) == "EMPTY"@
}

/// What a geometry that holds no others is, from its kind and the place of its
/// bracket.
#[verifier::opaque]
pub open spec fn plain_at(t: Text, i: int, kind: Text) -> Read<Shape<Text>> {
    if kind == "POINT"@ {
        match eaten(t, i, '(') {
            Err(e) => Err(e),
            Ok(k) => match point_at(t, k) {
                Err(e) => Err(e),
                Ok((p, z)) => match eaten(t, z, ')') {
                    Err(e) => Err(e),
                    Ok(end) => Ok((Shape::Point(p), end)),
                },
            },
        }
    } else if kind == "LINESTRING"@ {
        match list_at(t, i, points()) {
            Err(e) => Err(e),
            Ok((p, z)) => Ok((Shape::LineString(p), z)),
        }
    } else if kind == "POLYGON"@ {
        match polygon_at(t, i) {
            Err(e) => Err(e),
            Ok((r, z)) => Ok((Shape::Polygon(r), z)),
        }
    } else if kind == "MULTIPOINT"@ {
        match list_at(t, i, tokens()) {
            Err(e) => Err(e),
            Ok((p, z)) => Ok((Shape::MultiPoint(p), z)),
        }
    } else if kind == "MULTILINESTRING"@ {
        match list_at(t, i, rings()) {
            Err(e) => Err(e),
            Ok((r, z)) => Ok((Shape::MultiLineString(r), z)),
        }
    } else if kind == "MULTIPOLYGON"@ {
        match list_at(t, i, polygons()) {
            Err(e) => Err(e),
            Ok((p, z)) => Ok((Shape::MultiPolygon(p), z)),
        }
    } else {
        Err(syntax_error("unknown WKT geometry type: "@ + kind))
    }
}

/// The geometry at a place.
pub open spec fn shape_at(t: Text, i: int) -> Read<Shape<Text>>
    decreases t.len() - i, 0int,
{
    match ident_at(t, i) {
        Err(e) => Err(e),
        Ok((word, w)) => {
            let kind = ascii_uppercase(word);
            let k = marker_end(t, w);
            if empty_word(t, k) {
                Ok((empty_shape(kind), word_end(t, k)))
            } else if kind != "GEOMETRYCOLLECTION"@ {
                plain_at(t, k, kind)
            } else {
                match list_start(t, k) {
                    Err(e) => Err(e),
                    Ok((true, z)) => Ok((Shape::Collection(seq![]), z)),
                    Ok((false, z)) => if i < z <= t.len() {
                        match shapes_rest(t, z, seq![]) {
                            Err(e) => Err(e),
                            Ok((s, end)) => Ok((Shape::Collection(s), end)),
                        }
                    } else {
                        Err(syntax_error(seq![]))
                    },
                }
            }
        },
    }
}

/// The geometries of a collection from the next one on.
pub open spec fn shapes_rest(t: Text, i: int, acc: Seq<Shape<Text>>) -> Read<Seq<Shape<Text>>>
    decreases t.len() - i, 1int,
{
    match shape_at(t, i) {
        Err(e) => Err(e),
        Ok((x, k)) => match after_item(t, k) {
            Err(e) => Err(e),
            Ok((more, z)) => if !more {
                Ok((acc.push(x), z))
            } else if i < z <= t.len() {
                shapes_rest(t, z, acc.push(x))
            } else {
                Err(syntax_error(seq![]))
            },
        },
    }
}

/// The geometry that a text denotes, or why it denotes none.
pub open spec fn wkt_shape(t: Text) -> Result<Shape<Text>, ErrorView> {
    match shape_at(t, 0) {
        Err(e) => Err(e),
        Ok((g, k)) => {
            let end = space_end(t, k);
            if end < t.len() {
                Err(syntax_error(message_at("trailing characters in WKT at offset "@, t, end)))
            } else {
                Ok(g)
            }
        },
    }
}

fn eat(t: &[char], i: usize, c: char) -> (r: CenResult<usize>)
    requires
        i <= t@.len(),
    ensures
        match r {
            Ok(k) => eaten(t@, i as int, c) == Ok::<int, ErrorView>(k as int) && i < k <= t@.len(),
            Err(e) => eaten(t@, i as int, c) == Err::<int, ErrorView>(e@),
        },
{
    let k: usize = skip_ws(t, i);
    let got: Option<char> = peek(t, k);
    if got == Some(c) {
        return Ok(k + 1);
    }
    let mut head: String = String::new();
    head.append("expected '");
    head.push(c);
    head.append("' at offset ");
    proof {
        assert(head@ =~= "expected '"@ + seq![c] + "' at offset "@);
    }
    let n: usize = offset_at(t, k);
    let mut m: String = with_number(head.as_str(), n);
    m.append(", got ");
    m.append(debug_of_char(got).as_str());
    Err(CenError::syntax(m.as_str()))
}

fn skip_word(t: &[char], i: usize) -> (r: usize)
    requires
        i <= t@.len(),
    ensures
        r == word_end(t@, i as int),
        i <= r <= t@.len(),
{
    let mut k: usize = i;
    while k < t.len() && is_alphabetic(t[k])
        invariant
            i <= k <= t@.len(),
            word_end(t@, k as int) == word_end(t@, i as int),
        decreases t@.len() - k,
    {
        k = k + 1;
    }
    k
}

fn eat_ident(t: &[char], i: usize) -> (r: CenResult<(String, usize)>)
    requires
        i <= t@.len(),
    ensures
        match r {
            Ok(x) => ident_at(t@, i as int) == Ok::<(Text, int), ErrorView>((x.0@, x.1 as int)) && i
                < x.1 <= t@.len(),
            Err(e) => ident_at(t@, i as int) == Err::<(Text, int), ErrorView>(e@),
        },
{
    let k: usize = skip_ws(t, i);
    let e: usize = skip_word(t, k);
    if e == k {
        return Err(error_at("expected identifier at offset ", t, k));
    }
    Ok((string_of(t, k, e), e))
}

fn scan_number(t: &[char], i: usize) -> (r: (usize, bool))
    requires
        i <= t@.len(),
    ensures
        (r.0 as int, r.1) == number_end(t@, i as int, false, false, false),
        i <= r.0 <= t@.len(),
        r.1 ==> i < r.0,
{
    let mut k: usize = i;
    let mut dot: bool = false;
    let mut exp: bool = false;
    let mut digit: bool = false;
    while k < t.len()
        invariant
            i <= k <= t@.len(),
            digit ==> i < k,
            number_end(t@, k as int, dot, exp, digit) == number_end(
                t@,
                i as int,
                false,
                false,
                false,
            ),
        ensures
            i <= k <= t@.len(),
            digit ==> i < k,
            (k as int, digit) == number_end(t@, i as int, false, false, false),
        decreases t@.len() - k,
    {
        let c: char = t[k];
        if '0' <= c && c <= '9' {
            digit = true;
            k = k + 1;
        } else if c == '.' && !dot && !exp {
            dot = true;
            k = k + 1;
        } else if (c == 'e' || c == 'E') && !exp && digit {
            exp = true;
            k = skip_sign(t, k + 1);
        } else {
            break;
        }
    }
    (k, digit)
}

fn eat_number(t: &[char], i: usize) -> (r: CenResult<(String, usize)>)
    requires
        i <= t@.len(),
    ensures
        match r {
            Ok(x) => number_at(t@, i as int) == Ok::<(Text, int), ErrorView>((x.0@, x.1 as int))
                && i < x.1 <= t@.len(),
            Err(e) => number_at(t@, i as int) == Err::<(Text, int), ErrorView>(e@),
        },
{
    let k: usize = skip_ws(t, i);
    let first: usize = skip_sign(t, k);
    let (e, digit) = scan_number(t, first);
    if !digit {
        return Err(error_at("expected number at offset ", t, k));
    }
    let s: String = string_of(t, k, e);
    if !denotes_float(s.as_str()) {
        let mut m: String = String::new();
        m.append("bad number '");
        m.append(s.as_str());
        m.append("': invalid float literal");
        assert(m@ =~= "bad number '"@ + s@ + "': invalid float literal"@);
        return Err(CenError::syntax(m.as_str()));
    }
    Ok((s, e))
}

fn eat_point(t: &[char], i: usize) -> (r: CenResult<(Point<String>, usize)>)
    requires
        i <= t@.len(),
    ensures
        match r {
            Ok(x) => point_at(t@, i as int) == Ok::<((Text, Text), int), ErrorView>(
                (point_view(x.0), x.1 as int),
            ) && i < x.1 <= t@.len(),
            Err(e) => point_at(t@, i as int) == Err::<((Text, Text), int), ErrorView>(e@),
        },
{
    let (x, k) = match eat_number(t, i) {
        Ok(x) => x,
        Err(e) => {
            return Err(e);
        },
    };
    let (y, z) = match eat_number(t, k) {
        Ok(y) => y,
        Err(e) => {
            return Err(e);
        },
    };
    Ok((Point { x, y }, z))
}

fn eat_point_token(t: &[char], i: usize) -> (r: CenResult<(Point<String>, usize)>)
    requires
        i <= t@.len(),
    ensures
        match r {
            Ok(x) => token_at(t@, i as int) == Ok::<((Text, Text), int), ErrorView>(
                (point_view(x.0), x.1 as int),
            ) && i < x.1 <= t@.len(),
            Err(e) => token_at(t@, i as int) == Err::<((Text, Text), int), ErrorView>(e@),
        },
{
    let k: usize = skip_ws(t, i);
    if peek(t, k) == Some('(') {
        let (p, z) = match eat_point(t, k + 1) {
            Ok(x) => x,
            Err(e) => {
                return Err(e);
            },
        };
        match eat(t, z, ')') {
            Ok(end) => Ok((p, end)),
            Err(e) => Err(e),
        }
    } else {
        eat_point(t, k)
    }
}

fn next_item(t: &[char], i: usize) -> (r: CenResult<(bool, usize)>)
    requires
        i <= t@.len(),
    ensures
        match r {
            Ok(x) => after_item(t@, i as int) == Ok::<(bool, int), ErrorView>((x.0, x.1 as int))
                && i < x.1 <= t@.len(),
            Err(e) => after_item(t@, i as int) == Err::<(bool, int), ErrorView>(e@),
        },
{
    let k: usize = skip_ws(t, i);
    match peek(t, k) {
        Some(',') => Ok((true, k + 1)),
        Some(')') => Ok((false, k + 1)),
        _ => Err(error_at("expected ',' or ')' at offset ", t, k)),
    }
}

fn start_list(t: &[char], i: usize) -> (r: CenResult<(bool, usize)>)
    requires
        i <= t@.len(),
    ensures
        match r {
            Ok(x) => list_start(t@, i as int) == Ok::<(bool, int), ErrorView>((x.0, x.1 as int))
                && i < x.1 <= t@.len(),
            Err(e) => list_start(t@, i as int) == Err::<(bool, int), ErrorView>(e@),
        },
{
    let j: usize = match eat(t, i, '(') {
        Ok(j) => j,
        Err(e) => {
            return Err(e);
        },
    };
    let k: usize = skip_ws(t, j);
    if peek(t, k) == Some(')') {
        Ok((true, k + 1))
    } else {
        Ok((false, k))
    }
}

fn eat_coord_list(t: &[char], i: usize) -> (r: CenResult<(Vec<Point<String>>, usize)>)
    requires
        i <= t@.len(),
    ensures
        match r {
            Ok(x) => list_at(t@, i as int, points()) == Ok::<(Seq<(Text, Text)>, int), ErrorView>(
                (points_view(x.0@), x.1 as int),
            ) && i < x.1 <= t@.len(),
            Err(e) => list_at(t@, i as int, points()) == Err::<
                (Seq<(Text, Text)>, int),
                ErrorView,
            >(e@),
        },
{
    let mut pts: Vec<Point<String>> = Vec::new();
    assert(points_view(pts@) =~= seq![]);
    let (done, first) = match start_list(t, i) {
        Ok(x) => x,
        Err(e) => {
            return Err(e);
        },
    };
    if done {
        return Ok((pts, first));
    }
    let mut at: usize = first;
    loop
        invariant
            i < at <= t@.len(),
            list_at(t@, i as int, points()) == list_rest(
                t@,
                at as int,
                points(),
                points_view(pts@),
            ),
        decreases t@.len() - at,
    {
        let ghost before = points_view(pts@);
        let (p, k) = match eat_point(t, at) {
            Ok(x) => x,
            Err(e) => {
                return Err(e);
            },
        };
        pts.push(p);
        assert(points_view(pts@) =~= before.push(point_view(p)));
        match next_item(t, k) {
            Err(e) => {
                return Err(e);
            },
            Ok((more, z)) => {
                if !more {
                    return Ok((pts, z));
                }
                at = z;
            },
        }
    }
}

fn eat_token_list(t: &[char], i: usize) -> (r: CenResult<(Vec<Point<String>>, usize)>)
    requires
        i <= t@.len(),
    ensures
        match r {
            Ok(x) => list_at(t@, i as int, tokens()) == Ok::<(Seq<(Text, Text)>, int), ErrorView>(
                (points_view(x.0@), x.1 as int),
            ) && i < x.1 <= t@.len(),
            Err(e) => list_at(t@, i as int, tokens()) == Err::<
                (Seq<(Text, Text)>, int),
                ErrorView,
            >(e@),
        },
{
    let mut pts: Vec<Point<String>> = Vec::new();
    assert(points_view(pts@) =~= seq![]);
    let (done, first) = match start_list(t, i) {
        Ok(x) => x,
        Err(e) => {
            return Err(e);
        },
    };
    if done {
        return Ok((pts, first));
    }
    let mut at: usize = first;
    loop
        invariant
            i < at <= t@.len(),
            list_at(t@, i as int, tokens()) == list_rest(
                t@,
                at as int,
                tokens(),
                points_view(pts@),
            ),
        decreases t@.len() - at,
    {
        let ghost before = points_view(pts@);
        let (p, k) = match eat_point_token(t, at) {
            Ok(x) => x,
            Err(e) => {
                return Err(e);
            },
        };
        pts.push(p);
        assert(points_view(pts@) =~= before.push(point_view(p)));
        match next_item(t, k) {
            Err(e) => {
                return Err(e);
            },
            Ok((more, z)) => {
                if !more {
                    return Ok((pts, z));
                }
                at = z;
            },
        }
    }
}

fn eat_ring_list(t: &[char], i: usize) -> (r: CenResult<(Vec<LineString<String>>, usize)>)
    requires
        i <= t@.len(),
    ensures
        match r {
            Ok(x) => list_at(t@, i as int, rings()) == Ok::<
                (Seq<Seq<(Text, Text)>>, int),
                ErrorView,
            >((lines_view(x.0@), x.1 as int)) && i < x.1 <= t@.len(),
            Err(e) => list_at(t@, i as int, rings()) == Err::<
                (Seq<Seq<(Text, Text)>>, int),
                ErrorView,
            >(e@),
        },
{
    let mut lines: Vec<LineString<String>> = Vec::new();
    assert(lines_view(lines@) =~= seq![]);
    let (done, first) = match start_list(t, i) {
        Ok(x) => x,
        Err(e) => {
            return Err(e);
        },
    };
    if done {
        return Ok((lines, first));
    }
    let mut at: usize = first;
    loop
        invariant
            i < at <= t@.len(),
            list_at(t@, i as int, rings()) == list_rest(
                t@,
                at as int,
                rings(),
                lines_view(lines@),
            ),
        decreases t@.len() - at,
    {
        let ghost before = lines_view(lines@);
        let (pts, k) = match eat_coord_list(t, at) {
            Ok(x) => x,
            Err(e) => {
                return Err(e);
            },
        };
        let ghost here = points_view(pts@);
        lines.push(LineString { points: pts });
        assert(lines_view(lines@) =~= before.push(here));
        match next_item(t, k) {
            Err(e) => {
                return Err(e);
            },
            Ok((more, z)) => {
                if !more {
                    return Ok((lines, z));
                }
                at = z;
            },
        }
    }
}

fn eat_polygon(t: &[char], i: usize) -> (r: CenResult<(Polygon<String>, usize)>)
    requires
        i <= t@.len(),
    ensures
        match r {
            Ok(x) => polygon_at(t@, i as int) == Ok::<(Seq<Seq<(Text, Text)>>, int), ErrorView>(
                (rings_view(x.0), x.1 as int),
            ) && i < x.1 <= t@.len(),
            Err(e) => polygon_at(t@, i as int) == Err::<(Seq<Seq<(Text, Text)>>, int), ErrorView>(
                e@,
            ),
        },
{
    let (lines, k) = match eat_ring_list(t, i) {
        Ok(x) => x,
        Err(e) => {
            return Err(e);
        },
    };
    if lines.len() == 0 {
        return Err(CenError::syntax("polygon has no rings"));
    }
    Ok((polygon_of_rings(lines), k))
}

fn eat_polygon_list(t: &[char], i: usize) -> (r: CenResult<(Vec<Polygon<String>>, usize)>)
    requires
        i <= t@.len(),
    ensures
        match r {
            Ok(x) => list_at(t@, i as int, polygons()) == Ok::<
                (Seq<Seq<Seq<(Text, Text)>>>, int),
                ErrorView,
            >((polygons_view(x.0@), x.1 as int)) && i < x.1 <= t@.len(),
            Err(e) => list_at(t@, i as int, polygons()) == Err::<
                (Seq<Seq<Seq<(Text, Text)>>>, int),
                ErrorView,
            >(e@),
        },
{
    let mut polys: Vec<Polygon<String>> = Vec::new();
    assert(polygons_view(polys@) =~= seq![]);
    let (done, first) = match start_list(t, i) {
        Ok(x) => x,
        Err(e) => {
            return Err(e);
        },
    };
    if done {
        return Ok((polys, first));
    }
    let mut at: usize = first;
    loop
        invariant
            i < at <= t@.len(),
            list_at(t@, i as int, polygons()) == list_rest(
                t@,
                at as int,
                polygons(),
                polygons_view(polys@),
            ),
        decreases t@.len() - at,
    {
        let ghost before = polygons_view(polys@);
        let (p, k) = match eat_polygon(t, at) {
            Ok(x) => x,
            Err(e) => {
                return Err(e);
            },
        };
        polys.push(p);
        assert(polygons_view(polys@) =~= before.push(rings_view(p)));
        match next_item(t, k) {
            Err(e) => {
                return Err(e);
            },
            Ok((more, z)) => {
                if !more {
                    return Ok((polys, z));
                }
                at = z;
            },
        }
    }
}

fn empty_geometry(kind: &str) -> (r: Geometry<String>)
    ensures
        r@ == empty_shape(kind@),
{
    if same_text(kind, "POINT") {
        let x: String = "NaN".to_string();
        let y: String = "NaN".to_string();
        Geometry::Point(Point { x, y })
    } else if same_text(kind, "LINESTRING") {
        let line: LineString<String> = LineString { points: Vec::new() };
        assert(points_view(line.points@) =~= seq![]);
        Geometry::LineString(line)
    } else if same_text(kind, "POLYGON") {
        let poly: Polygon<String> = Polygon {
            exterior: LineString { points: Vec::new() },
            interiors: Vec::new(),
        };
        assert(points_view(poly.exterior.points@) =~= seq![]);
        assert(rings_view(poly) =~= seq![seq![]]);
        Geometry::Polygon(poly)
    } else if same_text(kind, "MULTIPOINT") {
        let m: MultiPoint<String> = MultiPoint { points: Vec::new() };
        assert(points_view(m.points@) =~= seq![]);
        Geometry::MultiPoint(m)
    } else if same_text(kind, "MULTILINESTRING") {
        let m: MultiLineString<String> = MultiLineString { linestrings: Vec::new() };
        assert(lines_view(m.linestrings@) =~= seq![]);
        Geometry::MultiLineString(m)
    } else if same_text(kind, "MULTIPOLYGON") {
        let m: MultiPolygon<String> = MultiPolygon { polygons: Vec::new() };
        assert(polygons_view(m.polygons@) =~= seq![]);
        Geometry::MultiPolygon(m)
    } else {
        let none: Vec<Geometry<String>> = Vec::new();
        assert(shapes_of(none@) =~= seq![]) by {
            lemma_shapes_of(none@);
        }
        Geometry::GeometryCollection(none)
    }
}

fn skip_marker(t: &[char], i: usize) -> (r: usize)
    requires
        i <= t@.len(),
    ensures
        r == marker_end(t@, i as int),
        i <= r <= t@.len(),
{
    let k: usize = skip_ws(t, i);
    let c: Option<char> = peek(t, k);
    if c == Some('Z') || c == Some('M') {
        let w: usize = skip_word(t, k);
        skip_ws(t, w)
    } else {
        k
    }
}

fn at_empty_word(t: &[char], i: usize) -> (r: bool)
    requires
        i <= t@.len(),
    ensures
        r == empty_word(t@, i as int),
{
    if peek(t, i) != Some('E') {
        return false;
    }
    let w: usize = skip_word(t, i);
    let word: String = string_of(t, i, w);
    same_text(upper_case(word.as_str()).as_str(), "EMPTY")
}

fn parse_plain(t: &[char], i: usize, kind: &str) -> (r: CenResult<(Geometry<String>, usize)>)
    requires
        i <= t@.len(),
    ensures
        match r {
            Ok(x) => plain_at(t@, i as int, kind@) == Ok::<(Shape<Text>, int), ErrorView>(
                (x.0@, x.1 as int),
            ) && i < x.1 <= t@.len(),
            Err(e) => plain_at(t@, i as int, kind@) == Err::<(Shape<Text>, int), ErrorView>(e@),
        },
{
    proof {
        reveal(plain_at);
    }
    if same_text(kind, "POINT") {
        let k: usize = match eat(t, i, '(') {
            Ok(k) => k,
            Err(e) => {
                return Err(e);
            },
        };
        let (p, z) = match eat_point(t, k) {
            Ok(x) => x,
            Err(e) => {
                return Err(e);
            },
        };
        match eat(t, z, ')') {
            Ok(end) => Ok((Geometry::Point(p), end)),
            Err(e) => Err(e),
        }
    } else if same_text(kind, "LINESTRING") {
        match eat_coord_list(t, i) {
            Ok((points, z)) => Ok((Geometry::LineString(LineString { points }), z)),
            Err(e) => Err(e),
        }
    } else if same_text(kind, "POLYGON") {
        match eat_polygon(t, i) {
            Ok((p, z)) => Ok((Geometry::Polygon(p), z)),
            Err(e) => Err(e),
        }
    } else if same_text(kind, "MULTIPOINT") {
        match eat_token_list(t, i) {
            Ok((points, z)) => Ok((Geometry::MultiPoint(MultiPoint { points }), z)),
            Err(e) => Err(e),
        }
    } else if same_text(kind, "MULTILINESTRING") {
        match eat_ring_list(t, i) {
            Ok((linestrings, z)) => Ok(
                (Geometry::MultiLineString(MultiLineString { linestrings }), z),
            ),
            Err(e) => Err(e),
        }
    } else if same_text(kind, "MULTIPOLYGON") {
        match eat_polygon_list(t, i) {
            Ok((polygons, z)) => Ok((Geometry::MultiPolygon(MultiPolygon { polygons }), z)),
            Err(e) => Err(e),
        }
    } else {
        let mut m: String = String::new();
        m.append("unknown WKT geometry type: ");
        m.append(kind);
        assert(m@ =~= "unknown WKT geometry type: "@ + kind@);
        Err(CenError::syntax(m.as_str()))
    }
}

fn parse_geometry(t: &[char], i: usize) -> (r: CenResult<(Geometry<String>, usize)>)
    requires
        i <= t@.len(),
    ensures
        match r {
            Ok(x) => shape_at(t@, i as int) == Ok::<(Shape<Text>, int), ErrorView>(
                (x.0@, x.1 as int),
            ) && i < x.1 <= t@.len(),
            Err(e) => shape_at(t@, i as int) == Err::<(Shape<Text>, int), ErrorView>(e@),
        },
    decreases t@.len() - i,
{
    let (word, w) = match eat_ident(t, i) {
        Ok(x) => x,
        Err(e) => {
            return Err(e);
        },
    };
    let kind: String = upper_case(word.as_str());
    let k: usize = skip_marker(t, w);
    if at_empty_word(t, k) {
        let end: usize = skip_word(t, k);
        return Ok((empty_geometry(kind.as_str()), end));
    }
    if !same_text(kind.as_str(), "GEOMETRYCOLLECTION") {
        return parse_plain(t, k, kind.as_str());
    }
    let mut parts: Vec<Geometry<String>> = Vec::new();
    proof {
        lemma_shapes_of(parts@);
        assert(shapes_of(parts@) =~= seq![]);
    }
    let (done, first) = match start_list(t, k) {
        Ok(x) => x,
        Err(e) => {
            return Err(e);
        },
    };
    if done {
        return Ok((Geometry::GeometryCollection(parts), first));
    }
    let ghost all = shapes_rest(t@, first as int, seq![]);
    let mut at: usize = first;
    loop
        invariant
            i < at <= t@.len(),
            shape_at(t@, i as int) == (match all {
                Err(e) => Err::<(Shape<Text>, int), ErrorView>(e),
                Ok((s, end)) => Ok((Shape::Collection(s), end)),
            }),
            all == shapes_rest(t@, at as int, shapes_of(parts@)),
        decreases t@.len() - at,
    {
        let ghost before = parts@;
        let (g, z) = match parse_geometry(t, at) {
            Ok(x) => x,
            Err(e) => {
                return Err(e);
            },
        };
        parts.push(g);
        proof {
            lemma_shapes_of(before);
            lemma_shapes_of(parts@);
            assert(shapes_of(parts@) =~= shapes_of(before).push(shape_of(g)));
        }
        match next_item(t, z) {
            Err(e) => {
                return Err(e);
            },
            Ok((more, end)) => {
                if !more {
                    return Ok((Geometry::GeometryCollection(parts), end));
                }
                at = end;
            },
        }
    }
}

/// Reads a geometry.
pub fn from_wkt(input: &str) -> (r: CenResult<Geometry<String>>)
    ensures
        outcome(r) == wkt_shape(input@),
{
    let chars: Vec<char> = chars_of(input);
    let t: &[char] = chars.as_slice();
    match parse_geometry(t, 0) {
        Err(e) => Err(e),
        Ok((g, k)) => {
            let end: usize = skip_ws(t, k);
            if end < t.len() {
                return Err(error_at("trailing characters in WKT at offset ", t, end));
            }
            Ok(g)
        },
    }
}

/// A text that is read as one number, whole.
pub open spec fn is_number_text(s: Text) -> bool {
    &&& s.len() > 0
    &&& !is_space(s[0])
    &&& number_end(s, sign_end(s, 0), false, false, false) == (s.len() as int, true)
    &&& is_float_text(s)
}

/// Both coordinates are numbers.
pub open spec fn point_written(p: (Text, Text)) -> bool {
    is_number_text(p.0) && is_number_text(p.1)
}

/// The coordinates of all points are numbers.
pub open spec fn points_written(s: Seq<(Text, Text)>) -> bool {
    forall|k: int| 0 <= k < s.len() ==> point_written(#[trigger] s[k])
}

/// The coordinates of all rings are numbers.
pub open spec fn rings_written(s: Seq<Seq<(Text, Text)>>) -> bool {
    forall|k: int| 0 <= k < s.len() ==> points_written(#[trigger] s[k])
}

/// All polygons have rings, whose coordinates are numbers.
pub open spec fn polygons_written(s: Seq<Seq<Seq<(Text, Text)>>>) -> bool {
    forall|k: int| 0 <= k < s.len() ==> (#[trigger] s[k]).len() > 0 && rings_written(s[k])
}

/// All coordinates are numbers, and every polygon has rings.
pub open spec fn written(g: Shape<Text>) -> bool
    decreases g,
{
    match g {
        Shape::Point(p) => point_written(p),
        Shape::LineString(p) => points_written(p),
        Shape::Polygon(r) => r.len() > 0 && rings_written(r),
        Shape::MultiPoint(p) => points_written(p),
        Shape::MultiLineString(l) => rings_written(l),
        Shape::MultiPolygon(p) => polygons_written(p),
        Shape::Collection(s) => all_written(s),
    }
}

/// All of the geometries are written.
pub open spec fn all_written(s: Seq<Shape<Text>>) -> bool
    decreases s,
{
    s.len() == 0 || (all_written(s.drop_last()) && written(s.last()))
}

proof fn lemma_all_written(s: Seq<Shape<Text>>, k: int)
    requires
        all_written(s),
        0 <= k < s.len(),
    ensures
        written(s[k]),
    decreases s.len(),
{
    if k < s.len() - 1 {
        lemma_all_written(s.drop_last(), k);
        assert(s.drop_last()[k] == s[k]);
    }
}

/// A character that ends a number and an item stands at a place.
spec fn stops(t: Text, i: int) -> bool {
    0 <= i < t.len() && (t[i] == ' ' || t[i] == ',' || t[i] == ')')
}

proof fn lemma_number_end(t: Text, p: int, s: Text, j: int, dot: bool, exp: bool, digit: bool)
    requires
        holds_at(t, p, s),
        0 <= j <= s.len(),
        stops(t, p + s.len()),
    ensures
        number_end(t, p + j, dot, exp, digit) == (
            p + number_end(s, j, dot, exp, digit).0,
            number_end(s, j, dot, exp, digit).1,
        ),
    decreases s.len() - j,
{
    if j < s.len() {
        lemma_holds_char(t, p, s, j);
        if j + 1 < s.len() {
            lemma_holds_char(t, p, s, j + 1);
        }
        if is_digit(s[j]) {
            lemma_number_end(t, p, s, j + 1, dot, exp, true);
        } else if s[j] == '.' && !dot && !exp {
            lemma_number_end(t, p, s, j + 1, true, exp, digit);
        } else if (s[j] == 'e' || s[j] == 'E') && !exp && digit {
            assert(sign_end(t, p + j + 1) == p + sign_end(s, j + 1));
            lemma_number_end(t, p, s, sign_end(s, j + 1), dot, true, digit);
        }
    } else {
        assert(p >= 0) by {
            reveal(holds_at);
        }
    }
}

proof fn lemma_number(t: Text, p: int, s: Text)
    requires
        is_number_text(s),
        holds_at(t, p, s),
        stops(t, p + s.len()),
    ensures
        number_at(t, p) == Ok::<(Text, int), ErrorView>((s, p + s.len())),
{
    lemma_holds_char(t, p, s, 0);
    if s.len() > 1 {
        lemma_holds_char(t, p, s, 1);
    }
    assert(space_end(t, p) == p);
    assert(sign_end(t, p) == p + sign_end(s, 0));
    lemma_number_end(t, p, s, sign_end(s, 0), false, false, false);
    assert(t.subrange(p, p + s.len()) == s) by {
        reveal(holds_at);
    }
}

proof fn lemma_point(t: Text, p: int, x: (Text, Text))
    requires
        point_written(x),
        holds_at(t, p, coord_text(x)),
        stops(t, p + coord_text(x).len()),
    ensures
        point_at(t, p) == Ok::<((Text, Text), int), ErrorView>((x, p + coord_text(x).len())),
{
    reveal_strlit(" ");
    lemma_holds_split(t, p, x.0 + " "@, x.1);
    lemma_holds_split(t, p, x.0, " "@);
    let k = p + x.0.len();
    lemma_holds_char(t, k, " "@, 0);
    lemma_number(t, p, x.0);
    assert(p + (x.0 + " "@).len() == k + 1);
    lemma_number(t, k + 1, x.1);
    lemma_space(t, k);
}

proof fn lemma_space(t: Text, i: int)
    requires
        char_at(t, i) == Some(' '),
    ensures
        space_end(t, i) == space_end(t, i + 1),
{
    assert(is_space(' '));
}

/// Wherever the text of an item stands, the item is read.
spec fn item_reads<X>(t: Text, item: Item<X>, part: Text, x: X) -> bool {
    forall|j: int|
        #[trigger] holds_at(t, j, part) && stops(t, j + part.len()) ==> item(t, j) == Ok::<
            (X, int),
            ErrorView,
        >((x, j + part.len()))
}

/// White space before an item does not count.
spec fn skips_space<X>(t: Text, item: Item<X>) -> bool {
    forall|j: int| char_at(t, j) == Some(' ') ==> #[trigger] item(t, j) == item(t, j + 1)
}

/// The text of an item starts with neither white space nor a closing bracket.
spec fn opens(part: Text) -> bool {
    part.len() > 0 && !is_space(part[0]) && part[0] != ')'
}

spec fn items_read<X>(t: Text, item: Item<X>, parts: Seq<Text>, xs: Seq<X>) -> bool {
    &&& parts.len() == xs.len()
    &&& forall|k: int|
        0 <= k < parts.len() ==> item_reads(t, item, #[trigger] parts[k], xs[k]) && opens(parts[k])
}

proof fn lemma_list_prefix(parts: Seq<Text>, k: int)
    requires
        0 <= k <= parts.len(),
    ensures
        list_text(parts.take(k)).len() <= list_text(parts).len(),
        list_text(parts) == list_text(parts.take(k)) + list_text(parts).skip(
            list_text(parts.take(k)).len() as int,
        ),
    decreases parts.len() - k,
{
    let whole = list_text(parts);
    let a = list_text(parts.take(k));
    if k < parts.len() {
        lemma_list_prefix(parts, k + 1);
        let b = list_text(parts.take(k + 1));
        assert(parts.take(k + 1).drop_last() =~= parts.take(k));
        assert(whole =~= a + whole.skip(a.len() as int)) by {
            assert forall|m: int| 0 <= m < a.len() implies whole[m] == a[m] by {
                assert(whole[m] == b[m]);
            }
        }
    } else {
        assert(parts.take(k) =~= parts);
        assert(whole =~= a + whole.skip(a.len() as int));
    }
}

/// Where the `k`th item of a list is looked for.
spec fn item_start(i: int, parts: Seq<Text>, k: int) -> int {
    i + list_text(parts.take(k)).len() + if k == 0 {
        0int
    } else {
        1int
    }
}

proof fn lemma_list_step(t: Text, i: int, parts: Seq<Text>, k: int)
    requires
        holds_at(t, i, list_text(parts) + ")"@),
        0 <= k < parts.len(),
    ensures
        ({
            let b = list_text(parts.take(k + 1));
            let from = i + b.len() - parts[k].len();
            &&& holds_at(t, from, parts[k])
            &&& stops(t, i + b.len())
            &&& t[i + b.len()] == (if k + 1 < parts.len() {
                ','
            } else {
                ')'
            })
            &&& k == 0 ==> from == item_start(i, parts, k)
            &&& k > 0 ==> from == item_start(i, parts, k) + 1 && char_at(
                t,
                item_start(i, parts, k),
            ) == Some(' ')
        }),
{
    reveal_strlit(")");
    reveal_strlit(", ");
    let whole = list_text(parts);
    let a = list_text(parts.take(k));
    let b = list_text(parts.take(k + 1));
    lemma_list_prefix(parts, k + 1);
    assert(parts.take(k + 1).drop_last() =~= parts.take(k));
    assert(b == a + comma(k as nat) + parts[k]);
    let rest = whole.skip(b.len() as int);
    assert(whole + ")"@ =~= b + (rest + ")"@));
    lemma_holds_split(t, i, b, rest + ")"@);
    lemma_holds_split(t, i, a + comma(k as nat), parts[k]);
    lemma_holds_split(t, i, a, comma(k as nat));
    if k > 0 {
        lemma_holds_char(t, i + a.len(), ", "@, 1);
    }
    lemma_holds_char(t, i + b.len(), rest + ")"@, 0);
    if k + 1 < parts.len() {
        lemma_list_prefix(parts, k + 2);
        let c = list_text(parts.take(k + 2));
        assert(parts.take(k + 2).drop_last() =~= parts.take(k + 1));
        assert(c == b + comma((k + 1) as nat) + parts[k + 1]);
        assert(whole[b.len() as int] == c[b.len() as int]);
        assert(rest[0] == ',');
    } else {
        assert(parts.take(k + 1) =~= parts);
        assert(rest =~= seq![]);
    }
}

proof fn lemma_list_rest<X>(
    t: Text,
    i: int,
    item: Item<X>,
    xs: Seq<X>,
    parts: Seq<Text>,
    k: int,
)
    requires
        items_read(t, item, parts, xs),
        skips_space(t, item),
        holds_at(t, i, list_text(parts) + ")"@),
        0 <= k < parts.len(),
    ensures
        list_rest(t, item_start(i, parts, k), item, xs.take(k)) == Ok::<(Seq<X>, int), ErrorView>(
            (xs, i + list_text(parts).len() + 1),
        ),
    decreases parts.len() - k,
{
    lemma_list_step(t, i, parts, k);
    let b = list_text(parts.take(k + 1));
    let from = i + b.len() - parts[k].len();
    let at = item_start(i, parts, k);
    assert(item_reads(t, item, parts[k], xs[k]));
    assert(item(t, from) == Ok::<(X, int), ErrorView>((xs[k], i + b.len())));
    assert(item(t, at) == item(t, from));
    let end = i + b.len();
    assert(space_end(t, end) == end);
    assert(xs.take(k).push(xs[k]) =~= xs.take(k + 1));
    if k + 1 < parts.len() {
        assert(item_start(i, parts, k + 1) == end + 1);
        assert(parts[k].len() > 0);
        lemma_list_rest(t, i, item, xs, parts, k + 1);
    } else {
        assert(parts.take(k + 1) =~= parts);
        assert(xs.take(k + 1) =~= xs);
    }
}

proof fn lemma_list<X>(t: Text, i: int, item: Item<X>, xs: Seq<X>, parts: Seq<Text>)
    requires
        items_read(t, item, parts, xs),
        skips_space(t, item),
        holds_at(t, i, bracketed(list_text(parts))),
    ensures
        list_at(t, i, item) == Ok::<(Seq<X>, int), ErrorView>(
            (xs, i + bracketed(list_text(parts)).len()),
        ),
        parts.len() > 0 ==> list_start(t, i) == Ok::<(bool, int), ErrorView>((false, i + 1))
            && list_rest(t, i + 1, item, seq![]) == Ok::<(Seq<X>, int), ErrorView>(
            (xs, i + bracketed(list_text(parts)).len()),
        ),
        parts.len() == 0 ==> list_start(t, i) == Ok::<(bool, int), ErrorView>((true, i + 2)),
{
    reveal_strlit("(");
    reveal_strlit(")");
    let whole = list_text(parts);
    assert(bracketed(whole) =~= "("@ + (whole + ")"@));
    lemma_holds_split(t, i, "("@, whole + ")"@);
    lemma_holds_char(t, i, "("@, 0);
    assert(space_end(t, i) == i);
    if parts.len() == 0 {
        lemma_holds_char(t, i + 1, whole + ")"@, 0);
        assert(space_end(t, i + 1) == i + 1);
        assert(xs =~= seq![]);
    } else {
        lemma_list_step(t, i + 1, parts, 0);
        assert(opens(parts[0]));
        assert(parts.take(0) =~= seq![]);
        assert(parts.take(1).drop_last() =~= seq![]);
        assert(list_text(parts.take(1)) =~= parts[0]);
        lemma_holds_char(t, i + 1, parts[0], 0);
        assert(space_end(t, i + 1) == i + 1);
        lemma_list_rest(t, i + 1, item, xs, parts, 0);
        assert(xs.take(0) =~= seq![]);
    }
}

proof fn lemma_coord_list(t: Text, i: int, s: Seq<(Text, Text)>)
    requires
        points_written(s),
        holds_at(t, i, bracketed(coords_text(s))),
    ensures
        list_at(t, i, points()) == Ok::<(Seq<(Text, Text)>, int), ErrorView>(
            (s, i + bracketed(coords_text(s)).len()),
        ),
{
    let parts = coord_parts(s);
    assert forall|k: int| 0 <= k < parts.len() implies item_reads(
        t,
        points(),
        #[trigger] parts[k],
        s[k],
    ) && opens(parts[k]) by {
        assert(point_written(s[k]));
        assert forall|j: int| #[trigger]
            holds_at(t, j, parts[k]) && stops(t, j + parts[k].len()) implies points()(t, j) == Ok::<
            ((Text, Text), int),
            ErrorView,
        >((s[k], j + parts[k].len())) by {
            lemma_point(t, j, s[k]);
        }
        assert(parts[k][0] == s[k].0[0]);
        lemma_number_start(s[k].0);
    }
    assert forall|j: int| char_at(t, j) == Some(' ') implies #[trigger] points()(t, j) == points()(
        t,
        j + 1,
    ) by {
        lemma_space(t, j);
    }
    lemma_list(t, i, points(), s, parts);
}

proof fn lemma_number_start(s: Text)
    requires
        is_number_text(s),
    ensures
        s[0] != ')',
{
    if s[0] == ')' {
        assert(number_end(s, 0, false, false, false) == (0int, false));
    }
}

proof fn lemma_token_list(t: Text, i: int, s: Seq<(Text, Text)>)
    requires
        points_written(s),
        holds_at(t, i, bracketed(bracketed_text(s))),
    ensures
        list_at(t, i, tokens()) == Ok::<(Seq<(Text, Text)>, int), ErrorView>(
            (s, i + bracketed(bracketed_text(s)).len()),
        ),
{
    let parts = bracketed_parts(s);
    assert forall|k: int| 0 <= k < parts.len() implies item_reads(
        t,
        tokens(),
        #[trigger] parts[k],
        s[k],
    ) && opens(parts[k]) by {
        assert(point_written(s[k]));
        reveal_strlit("(");
        reveal_strlit(")");
        assert forall|j: int| #[trigger]
            holds_at(t, j, parts[k]) && stops(t, j + parts[k].len()) implies tokens()(t, j) == Ok::<
            ((Text, Text), int),
            ErrorView,
        >((s[k], j + parts[k].len())) by {
            let c = coord_text(s[k]);
            lemma_holds_split(t, j, "("@ + c, ")"@);
            lemma_holds_split(t, j, "("@, c);
            lemma_holds_char(t, j, "("@, 0);
            lemma_holds_char(t, j + 1 + c.len(), ")"@, 0);
            assert(space_end(t, j) == j);
            lemma_point(t, j + 1, s[k]);
            assert(space_end(t, j + 1 + c.len()) == j + 1 + c.len());
        }
        assert(parts[k][0] == '(');
    }
    assert forall|j: int| char_at(t, j) == Some(' ') implies #[trigger] tokens()(t, j) == tokens()(
        t,
        j + 1,
    ) by {
        lemma_space(t, j);
    }
    lemma_list(t, i, tokens(), s, parts);
}

proof fn lemma_ring_list(t: Text, i: int, s: Seq<Seq<(Text, Text)>>)
    requires
        rings_written(s),
        holds_at(t, i, bracketed(rings_text(s))),
    ensures
        list_at(t, i, rings()) == Ok::<(Seq<Seq<(Text, Text)>>, int), ErrorView>(
            (s, i + bracketed(rings_text(s)).len()),
        ),
{
    let parts = ring_parts(s);
    assert forall|k: int| 0 <= k < parts.len() implies item_reads(
        t,
        rings(),
        #[trigger] parts[k],
        s[k],
    ) && opens(parts[k]) by {
        reveal_strlit("(");
        assert(points_written(s[k]));
        assert forall|j: int| #[trigger]
            holds_at(t, j, parts[k]) && stops(t, j + parts[k].len()) implies rings()(t, j) == Ok::<
            (Seq<(Text, Text)>, int),
            ErrorView,
        >((s[k], j + parts[k].len())) by {
            lemma_coord_list(t, j, s[k]);
        }
        assert(parts[k][0] == '(');
    }
    assert forall|j: int| char_at(t, j) == Some(' ') implies #[trigger] rings()(t, j) == rings()(
        t,
        j + 1,
    ) by {
        lemma_space(t, j);
    }
    lemma_list(t, i, rings(), s, parts);
}

proof fn lemma_polygon_list(t: Text, i: int, s: Seq<Seq<Seq<(Text, Text)>>>)
    requires
        polygons_written(s),
        holds_at(t, i, bracketed(polygons_text(s))),
    ensures
        list_at(t, i, polygons()) == Ok::<(Seq<Seq<Seq<(Text, Text)>>>, int), ErrorView>(
            (s, i + bracketed(polygons_text(s)).len()),
        ),
{
    let parts = polygon_parts(s);
    assert forall|k: int| 0 <= k < parts.len() implies item_reads(
        t,
        polygons(),
        #[trigger] parts[k],
        s[k],
    ) && opens(parts[k]) by {
        reveal_strlit("(");
        assert(s[k].len() > 0 && rings_written(s[k]));
        assert forall|j: int| #[trigger]
            holds_at(t, j, parts[k]) && stops(t, j + parts[k].len()) implies polygons()(t, j)
            == Ok::<(Seq<Seq<(Text, Text)>>, int), ErrorView>((s[k], j + parts[k].len())) by {
            lemma_ring_list(t, j, s[k]);
        }
        assert(parts[k][0] == '(');
    }
    assert forall|j: int| char_at(t, j) == Some(' ') implies #[trigger] polygons()(t, j)
        == polygons()(t, j + 1) by {
        lemma_space(t, j);
    }
    lemma_list(t, i, polygons(), s, parts);
}

spec fn is_upper_word(w: Text) -> bool {
    w.len() > 0 && forall|k: int| 0 <= k < w.len() ==> 'A' <= #[trigger] w[k] <= 'Z'
}

proof fn lemma_word_end(t: Text, p: int, w: Text, k: int)
    requires
        holds_at(t, p, w),
        is_upper_word(w),
        0 <= k <= w.len(),
        char_at(t, p + w.len()) == Some(' '),
    ensures
        word_end(t, p + k) == p + w.len(),
    decreases w.len() - k,
{
    lemma_holds_char(t, p, w, 0);
    if k < w.len() {
        lemma_holds_char(t, p, w, k);
        lemma_word_end(t, p, w, k + 1);
    }
}

proof fn lemma_word(t: Text, p: int, w: Text)
    requires
        holds_at(t, p, w + " ("@),
        is_upper_word(w),
    ensures
        ident_at(t, p) == Ok::<(Text, int), ErrorView>((w, p + w.len())),
        ascii_uppercase(w) == w,
        marker_end(t, p + w.len()) == p + w.len() + 1,
        !empty_word(t, p + w.len() + 1),
{
    reveal_strlit(" (");
    lemma_holds_split(t, p, w, " ("@);
    lemma_holds_char(t, p + w.len(), " ("@, 0);
    lemma_holds_char(t, p + w.len(), " ("@, 1);
    lemma_holds_char(t, p, w, 0);
    assert(space_end(t, p) == p);
    lemma_word_end(t, p, w, 0);
    assert(t.subrange(p, p + w.len()) == w) by {
        reveal(holds_at);
    }
    assert(ascii_uppercase(w) =~= w);
    lemma_space(t, p + w.len());
    assert(space_end(t, p + w.len() + 1) == p + w.len() + 1);
}

proof fn lemma_kind_words(g: Shape<Text>)
    ensures
        is_upper_word(kind_word(g)),
        g is Point <==> kind_word(g) == "POINT"@,
        g is LineString <==> kind_word(g) == "LINESTRING"@,
        g is Polygon <==> kind_word(g) == "POLYGON"@,
        g is MultiPoint <==> kind_word(g) == "MULTIPOINT"@,
        g is MultiLineString <==> kind_word(g) == "MULTILINESTRING"@,
        g is MultiPolygon <==> kind_word(g) == "MULTIPOLYGON"@,
        g is Collection <==> kind_word(g) == "GEOMETRYCOLLECTION"@,
{
    reveal_strlit("POINT");
    reveal_strlit("LINESTRING");
    reveal_strlit("POLYGON");
    reveal_strlit("MULTIPOINT");
    reveal_strlit("MULTILINESTRING");
    reveal_strlit("MULTIPOLYGON");
    reveal_strlit("GEOMETRYCOLLECTION");
    assert("LINESTRING"@[0] != "MULTIPOINT"@[0]);
    assert("POINT"@.len() == 5 && "LINESTRING"@.len() == 10 && "POLYGON"@.len() == 7);
    assert("MULTIPOINT"@.len() == 10 && "MULTILINESTRING"@.len() == 15);
    assert("MULTIPOLYGON"@.len() == 12 && "GEOMETRYCOLLECTION"@.len() == 18);
}

/// Geometries as items.
spec fn shapes() -> Item<Shape<Text>> {
    |t: Text, i: int| shape_at(t, i)
}

spec fn shape_parts(s: Seq<Shape<Text>>) -> Seq<Text> {
    Seq::new(s.len(), |k: int| shape_text(s[k]))
}

proof fn lemma_shapes_text(s: Seq<Shape<Text>>)
    ensures
        shapes_text(s) == list_text(shape_parts(s)),
    decreases s.len(),
{
    if s.len() > 0 {
        lemma_shapes_text(s.drop_last());
        assert(shape_parts(s).drop_last() =~= shape_parts(s.drop_last()));
    }
}

proof fn lemma_shapes_rest(t: Text, i: int, acc: Seq<Shape<Text>>)
    ensures
        shapes_rest(t, i, acc) == list_rest(t, i, shapes(), acc),
    decreases t.len() - i,
{
    if let Ok((x, k)) = shape_at(t, i) {
        if let Ok((more, z)) = after_item(t, k) {
            if more && i < z <= t.len() {
                lemma_shapes_rest(t, z, acc.push(x));
            }
        }
    }
}

/// What a geometry holds, as it is written between its brackets.
spec fn inner_text(g: Shape<Text>) -> Text {
    match g {
        Shape::Point(x) => coord_text(x),
        Shape::LineString(x) => coords_text(x),
        Shape::Polygon(r) => rings_text(r),
        Shape::MultiPoint(x) => bracketed_text(x),
        Shape::MultiLineString(l) => rings_text(l),
        Shape::MultiPolygon(x) => polygons_text(x),
        Shape::Collection(s) => shapes_text(s),
    }
}

proof fn lemma_frame(t: Text, p: int, g: Shape<Text>)
    requires
        holds_at(t, p, shape_text(g)),
    ensures
        ({
            let w = kind_word(g);
            let k = p + w.len() + 1;
            &&& ident_at(t, p) == Ok::<(Text, int), ErrorView>((w, p + w.len()))
            &&& ascii_uppercase(w) == w
            &&& marker_end(t, p + w.len()) == k
            &&& !empty_word(t, k)
            &&& holds_at(t, k, bracketed(inner_text(g)))
            &&& p + shape_text(g).len() == k + bracketed(inner_text(g)).len()
            &&& 0 <= p && p + shape_text(g).len() <= t.len()
            &&& opens(shape_text(g))
        }),
{
    reveal_strlit(" (");
    reveal_strlit("(");
    reveal_strlit(")");
    reveal_strlit(" ");
    let w = kind_word(g);
    let inner = inner_text(g);
    lemma_kind_words(g);
    assert(shape_text(g) =~= (w + " ("@) + (inner + ")"@));
    lemma_holds_split(t, p, w + " ("@, inner + ")"@);
    lemma_word(t, p, w);
    assert(" ("@ =~= " "@ + "("@);
    assert(shape_text(g) =~= (w + " "@) + bracketed(inner));
    lemma_holds_split(t, p, w + " "@, bracketed(inner));
    lemma_holds_char(t, p, shape_text(g), 0);
    assert(shape_text(g)[0] == w[0]);
}

proof fn lemma_plain(t: Text, k: int, g: Shape<Text>)
    requires
        written(g),
        holds_at(t, k, bracketed(inner_text(g))),
        !(g is Collection),
    ensures
        plain_at(t, k, kind_word(g)) == Ok::<(Shape<Text>, int), ErrorView>(
            (g, k + bracketed(inner_text(g)).len()),
        ),
{
    reveal(plain_at);
    lemma_kind_words(g);
    match g {
        Shape::Point(x) => {
            lemma_point_body(t, k, x);
        },
        Shape::LineString(x) => {
            lemma_coord_list(t, k, x);
        },
        Shape::Polygon(r) => {
            lemma_ring_list(t, k, r);
        },
        Shape::MultiPoint(x) => {
            lemma_token_list(t, k, x);
        },
        Shape::MultiLineString(l) => {
            lemma_ring_list(t, k, l);
        },
        Shape::MultiPolygon(x) => {
            lemma_polygon_list(t, k, x);
        },
        Shape::Collection(_) => {},
    }
}

proof fn lemma_shape_opens(g: Shape<Text>)
    ensures
        opens(shape_text(g)),
{
    lemma_kind_words(g);
    assert(shape_text(g)[0] == kind_word(g)[0]);
}

proof fn lemma_shape(t: Text, p: int, g: Shape<Text>)
    requires
        written(g),
        holds_at(t, p, shape_text(g)),
    ensures
        shape_at(t, p) == Ok::<(Shape<Text>, int), ErrorView>((g, p + shape_text(g).len())),
    decreases g, 1int,
{
    lemma_frame(t, p, g);
    lemma_kind_words(g);
    let k = p + kind_word(g).len() + 1;
    if let Shape::Collection(s) = g {
        lemma_collection(t, k, s);
        lemma_shapes_rest(t, k + 1, seq![]);
        assert(s.len() == 0 ==> s =~= seq![]);
        lemma_collection_at(t, p, kind_word(g), k);
    } else {
        lemma_plain(t, k, g);
        lemma_plain_at(t, p, kind_word(g), k);
    }
}

proof fn lemma_plain_at(t: Text, p: int, w: Text, k: int)
    requires
        ident_at(t, p) == Ok::<(Text, int), ErrorView>((w, p + w.len())),
        ascii_uppercase(w) == w,
        marker_end(t, p + w.len()) == k,
        !empty_word(t, k),
        w != "GEOMETRYCOLLECTION"@,
    ensures
        shape_at(t, p) == plain_at(t, k, w),
{
}

proof fn lemma_collection_at(t: Text, p: int, w: Text, k: int)
    requires
        ident_at(t, p) == Ok::<(Text, int), ErrorView>((w, p + w.len())),
        ascii_uppercase(w) == w,
        marker_end(t, p + w.len()) == k,
        !empty_word(t, k),
        w == "GEOMETRYCOLLECTION"@,
        list_start(t, k) is Ok,
        p < k < t.len(),
    ensures
        ({
            let z = list_start(t, k)->Ok_0;
            &&& z.0 ==> shape_at(t, p) == Ok::<(Shape<Text>, int), ErrorView>(
                (Shape::Collection(seq![]), z.1),
            )
            &&& !z.0 && z.1 == k + 1 ==> shape_at(t, p) == (match shapes_rest(t, k + 1, seq![]) {
                Err(e) => Err::<(Shape<Text>, int), ErrorView>(e),
                Ok((s, end)) => Ok((Shape::Collection(s), end)),
            })
        }),
{
}

proof fn lemma_collection(t: Text, k: int, s: Seq<Shape<Text>>)
    requires
        all_written(s),
        holds_at(t, k, bracketed(shapes_text(s))),
    ensures
        s.len() > 0 ==> list_start(t, k) == Ok::<(bool, int), ErrorView>((false, k + 1))
            && list_rest(t, k + 1, shapes(), seq![]) == Ok::<(Seq<Shape<Text>>, int), ErrorView>(
            (s, k + bracketed(shapes_text(s)).len()),
        ),
        s.len() == 0 ==> list_start(t, k) == Ok::<(bool, int), ErrorView>((true, k + 2)) && k + 2
            == k + bracketed(shapes_text(s)).len(),
    decreases s, 0int,
{
    let parts = shape_parts(s);
    lemma_shapes_text(s);
    assert forall|m: int| 0 <= m < parts.len() implies item_reads(
        t,
        shapes(),
        #[trigger] parts[m],
        s[m],
    ) && opens(parts[m]) by {
        lemma_all_written(s, m);
        assert forall|j: int| #[trigger]
            holds_at(t, j, parts[m]) && stops(t, j + parts[m].len()) implies shapes()(t, j) == Ok::<
            (Shape<Text>, int),
            ErrorView,
        >((s[m], j + parts[m].len())) by {
            lemma_shape(t, j, s[m]);
        }
        lemma_shape_opens(s[m]);
    }
    assert forall|j: int| char_at(t, j) == Some(' ') implies #[trigger] shapes()(t, j) == shapes()(
        t,
        j + 1,
    ) by {
        lemma_shape_space(t, j);
    }
    lemma_list(t, k, shapes(), s, parts);
    reveal_strlit("(");
    reveal_strlit(")");
}

proof fn lemma_point_body(t: Text, k: int, x: (Text, Text))
    requires
        point_written(x),
        holds_at(t, k, bracketed(coord_text(x))),
    ensures
        plain_at(t, k, "POINT"@) == Ok::<(Shape<Text>, int), ErrorView>(
            (Shape::Point(x), k + bracketed(coord_text(x)).len()),
        ),
{
    reveal(plain_at);
    reveal_strlit("(");
    reveal_strlit(")");
    let c = coord_text(x);
    lemma_holds_split(t, k, "("@ + c, ")"@);
    lemma_holds_split(t, k, "("@, c);
    lemma_holds_char(t, k, "("@, 0);
    lemma_holds_char(t, k + 1 + c.len(), ")"@, 0);
    assert(space_end(t, k) == k);
    lemma_point(t, k + 1, x);
    assert(space_end(t, k + 1 + c.len()) == k + 1 + c.len());
}

proof fn lemma_word_bounds(t: Text, i: int)
    requires
        0 <= i <= t.len(),
    ensures
        i <= word_end(t, i) <= t.len(),
    decreases t.len() - i,
{
    if i < t.len() && is_letter(t[i]) {
        lemma_word_bounds(t, i + 1);
    }
}

proof fn lemma_shape_space(t: Text, j: int)
    requires
        char_at(t, j) == Some(' '),
    ensures
        shape_at(t, j) == shape_at(t, j + 1),
{
    lemma_space(t, j);
    assert(ident_at(t, j) == ident_at(t, j + 1));
    if let Ok((word, w)) = ident_at(t, j) {
        lemma_space_end(t, j + 1);
        let k = space_end(t, j + 1);
        lemma_word_bounds(t, k);
        lemma_space_end(t, w);
        lemma_word_bounds(t, space_end(t, w));
        lemma_space_end(t, word_end(t, space_end(t, w)));
        let m = marker_end(t, w);
        lemma_space_end(t, m);
        if char_at(t, space_end(t, m)) == Some('(') {
            lemma_space_end(t, space_end(t, m) + 1);
        }
    }
}

proof fn lemma_digits(s: Text, j: int, dot: bool, exp: bool, digit: bool)
    requires
        0 <= j <= s.len(),
    ensures
        j <= digits_end(s, j) <= s.len(),
        number_end(s, j, dot, exp, digit) == number_end(
            s,
            digits_end(s, j),
            dot,
            exp,
            digit || digits_end(s, j) > j,
        ),
    decreases s.len() - j,
{
    if j < s.len() && is_digit(s[j]) {
        lemma_digits(s, j + 1, dot, exp, true);
    }
}

/// A decimal in its plain form is read as one number.
pub proof fn law_plain_decimals_are_read(s: Text)
    requires
        is_plain_decimal(s),
    ensures
        is_number_text(s),
{
    lemma_plain_decimal(s);
    let i = sign_end(s, 0);
    let a = digits_end(s, i);
    assert(s.len() > 0 && i == (if s[0] == '-' {
        1int
    } else {
        0int
    }));
    lemma_digits(s, i, false, false, false);
    if a < s.len() {
        lemma_digits(s, a + 1, true, false, true);
    }
}

/// Reading what is written gives the geometry back, where the coordinates are
/// the texts of numbers and every polygon has rings.
pub proof fn law_wkt_round_trip(g: Shape<Text>)
    requires
        written(g),
    ensures
        wkt_shape(shape_text(g)) == Ok::<Shape<Text>, ErrorView>(g),
{
    let t = shape_text(g);
    lemma_holds_whole(t);
    lemma_shape(t, 0, g);
    assert(space_end(t, t.len() as int) == t.len());
}

} // verus!
