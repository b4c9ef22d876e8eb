//! Geometries as GeoJSON. Coordinates are the texts of numbers.

use vstd::prelude::*;

use crate::error::{outcome, syntax_error, CenError, CenResult, ErrorView};
use crate::numbers::{
    digits_end, is_float_text, is_plain_decimal, lemma_digits_end, lemma_plain_decimal, sign_end,
};
use crate::scan::{
    char_at, error_at, holds_at, lemma_holds_char, lemma_holds_split, lemma_holds_whole,
    message_at, skip_ws, space_end,
};
use crate::spatial::geometry::{
    lemma_shapes_of, lines_view, point_view, points_view, polygon_of_rings, polygons_view,
    rings_view, shape_of, shapes_of, Geometry, LineString, MultiLineString, MultiPoint,
    MultiPolygon, Point, Polygon, Shape,
};
use crate::spatial::json::{
    chars_rest, exponent_end, field, fraction_end, items_rest, json_view, key_at,
    lemma_values_view, member_index, members_rest, next_at, number_at, number_end, parse_value,
    scalar_at, string_at, value_at, values_view, JsonValue, JsonView,
};
use crate::text::{chars_of, is_digit, is_space, same_text, Text};

verus! {

/// Texts with commas between them.
pub open spec fn joined(parts: Seq<Text>) -> Text
    decreases parts.len(),
{
    if parts.len() == 0 {
        seq![]
    } else if parts.len() == 1 {
        parts[0]
    } else {
        joined(parts.drop_last()) + ","@ + parts.last()
    }
}

/// A text in square brackets.
pub open spec fn in_brackets(s: Text) -> Text {
    "["@ + s + "]"@
}

/// The coordinates of a point.
pub open spec fn coord_text(p: (Text, Text)) -> Text {
    p.0 + ","@ + p.1
}

/// Each point, in brackets.
pub open spec fn point_parts(s: Seq<(Text, Text)>) -> Seq<Text> {
    Seq::new(s.len(), |k: int| in_brackets(coord_text(s[k])))
}

/// Points, each in brackets.
pub open spec fn points_text(s: Seq<(Text, Text)>) -> Text {
    joined(point_parts(s))
}

/// Each ring, in brackets.
pub open spec fn ring_parts(s: Seq<Seq<(Text, Text)>>) -> Seq<Text> {
    Seq::new(s.len(), |k: int| in_brackets(points_text(s[k])))
}

/// Rings, each in brackets.
pub open spec fn rings_text(s: Seq<Seq<(Text, Text)>>) -> Text {
    joined(ring_parts(s))
}

/// Each polygon, in brackets.
pub open spec fn polygon_parts(s: Seq<Seq<Seq<(Text, Text)>>>) -> Seq<Text> {
    Seq::new(s.len(), |k: int| in_brackets(rings_text(s[k])))
}

/// Polygons, each in brackets.
pub open spec fn polygons_text(s: Seq<Seq<Seq<(Text, Text)>>>) -> Text {
    joined(polygon_parts(s))
}

/// The name of a kind of geometry.
pub open spec fn kind_name(g: Shape<Text>) -> Text {
    match g {
        Shape::Point(_) => "Point"@,
        Shape::LineString(_) => "LineString"@,
        Shape::Polygon(_) => "Polygon"@,
        Shape::MultiPoint(_) => "MultiPoint"@,
        Shape::MultiLineString(_) => "MultiLineString"@,
        Shape::MultiPolygon(_) => "MultiPolygon"@,
        Shape::Collection(_) => "GeometryCollection"@,
    }
}

/// The key under which a geometry holds what it is made of.
pub open spec fn content_key(g: Shape<Text>) -> Text {
    if g is Collection {
        "geometries"@
    } else {
        "coordinates"@
    }
}

/// An object with a type and an array under a key.
pub open spec fn frame(kind: Text, key: Text, content: Text) -> Text {
    "{\"type\":\""@ + kind + "\",\""@ + key + "\":"@ + in_brackets(content) + "}"@
}

/// A geometry as text.
pub open spec fn shape_text(g: Shape<Text>) -> Text
    decreases g,
{
    frame(
        kind_name(g),
        content_key(g),
        match g {
            Shape::Point(p) => coord_text(p),
            Shape::LineString(p) => points_text(p),
            Shape::Polygon(r) => rings_text(r),
            Shape::MultiPoint(p) => points_text(p),
            Shape::MultiLineString(l) => rings_text(l),
            Shape::MultiPolygon(p) => polygons_text(p),
            Shape::Collection(s) => shapes_text(s),
        },
    )
}

/// Geometries as text.
pub open spec fn shapes_text(s: Seq<Shape<Text>>) -> Text
    decreases s,
{
    if s.len() == 0 {
        seq![]
    } else if s.len() == 1 {
        shape_text(s.last())
    } else {
        shapes_text(s.drop_last()) + ","@ + shape_text(s.last())
    }
}

/// What a list is once another part follows.
proof fn lemma_joined_step(parts: Seq<Text>, k: int)
    requires
        0 <= k < parts.len(),
    ensures
        joined(parts.take(k + 1)) == (if k == 0 {
            parts[k]
        } else {
            joined(parts.take(k)) + ","@ + parts[k]
        }),
{
    assert(parts.take(k + 1).drop_last() =~= parts.take(k));
    assert(parts.take(k + 1).last() == parts[k]);
}

fn write_comma(before: usize, out: &mut String)
    ensures
        final(out)@ == (if before > 0 {
            old(out)@ + ","@
        } else {
            old(out)@
        }),
{
    if before > 0 {
        out.append(",");
    }
}

fn write_coord(p: &Point<String>, out: &mut String)
    ensures
        final(out)@ == old(out)@ + coord_text(point_view(*p)),
{
    out.append(p.x.as_str());
    out.append(",");
    out.append(p.y.as_str());
    assert(out@ =~= old(out)@ + coord_text(point_view(*p)));
}

fn write_json_pts(pts: &Vec<Point<String>>, out: &mut String)
    ensures
        final(out)@ == old(out)@ + points_text(points_view(pts@)),
{
    let ghost all = point_parts(points_view(pts@));
    let ghost front = out@;
    let mut i: usize = 0;
    assert(out@ =~= front + joined(all.take(0)));
    while i < pts.len()
        invariant
            i <= pts@.len(),
            all == point_parts(points_view(pts@)),
            out@ == front + joined(all.take(i as int)),
        decreases pts@.len() - i,
    {
        proof {
            lemma_joined_step(all, i as int);
            assert(all.take(0) =~= seq![]);
        }
        write_comma(i, out);
        out.append("[");
        write_coord(&pts[i], out);
        out.append("]");
        i = i + 1;
        assert(out@ =~= front + joined(all.take(i as int)));
    }
    assert(all.take(i as int) =~= all);
}

fn write_json_lines(lines: &Vec<LineString<String>>, out: &mut String)
    ensures
        final(out)@ == old(out)@ + rings_text(lines_view(lines@)),
{
    let ghost all = ring_parts(lines_view(lines@));
    let ghost front = out@;
    let mut i: usize = 0;
    assert(out@ =~= front + joined(all.take(0)));
    while i < lines.len()
        invariant
            i <= lines@.len(),
            all == ring_parts(lines_view(lines@)),
            out@ == front + joined(all.take(i as int)),
        decreases lines@.len() - i,
    {
        proof {
            lemma_joined_step(all, i as int);
            assert(all.take(0) =~= seq![]);
        }
        write_comma(i, out);
        out.append("[");
        write_json_pts(&lines[i].points, out);
        out.append("]");
        i = i + 1;
        assert(out@ =~= front + joined(all.take(i as int)));
    }
    assert(all.take(i as int) =~= all);
}

fn write_json_rings(p: &Polygon<String>, out: &mut String)
    ensures
        final(out)@ == old(out)@ + rings_text(rings_view(*p)),
{
    let ghost views = rings_view(*p);
    let ghost all = ring_parts(views);
    let ghost front = out@;
    let rings: Vec<&LineString<String>> = p.rings();
    let mut i: usize = 0;
    assert(out@ =~= front + joined(all.take(0)));
    while i < rings.len()
        invariant
            i <= rings@.len(),
            rings@.len() == all.len(),
            views == rings_view(*p),
            all == ring_parts(views),
            *rings@[0] == p.exterior,
            forall|k: int| 0 < k < rings@.len() ==> *(#[trigger] rings@[k]) == p.interiors@[k - 1],
            out@ == front + joined(all.take(i as int)),
        decreases rings@.len() - i,
    {
        proof {
            lemma_joined_step(all, i as int);
            assert(all.take(0) =~= seq![]);
            assert(views[i as int] == points_view(rings@[i as int].points@)) by {
                if i > 0 {
                    assert(views[i as int] == lines_view(p.interiors@)[i - 1]);
                }
            }
        }
        write_comma(i, out);
        out.append("[");
        write_json_pts(&rings[i].points, out);
        out.append("]");
        i = i + 1;
        assert(out@ =~= front + joined(all.take(i as int)));
    }
    assert(all.take(i as int) =~= all);
}

fn write_json_polygons(polys: &Vec<Polygon<String>>, out: &mut String)
    ensures
        final(out)@ == old(out)@ + polygons_text(polygons_view(polys@)),
{
    let ghost all = polygon_parts(polygons_view(polys@));
    let ghost front = out@;
    let mut i: usize = 0;
    assert(out@ =~= front + joined(all.take(0)));
    while i < polys.len()
        invariant
            i <= polys@.len(),
            all == polygon_parts(polygons_view(polys@)),
            out@ == front + joined(all.take(i as int)),
        decreases polys@.len() - i,
    {
        proof {
            lemma_joined_step(all, i as int);
            assert(all.take(0) =~= seq![]);
        }
        write_comma(i, out);
        out.append("[");
        write_json_rings(&polys[i], out);
        out.append("]");
        i = i + 1;
        assert(out@ =~= front + joined(all.take(i as int)));
    }
    assert(all.take(i as int) =~= all);
}

fn write_kind(g: &Geometry<String>, out: &mut String)
    ensures
        final(out)@ == old(out)@ + ("{\"type\":\""@ + kind_name(g@) + "\",\""@ + content_key(g@)
            + "\":"@ + "["@),
{
    out.append("{\"type\":\"");
    match g {
        Geometry::Point(_) => out.append("Point"),
        Geometry::LineString(_) => out.append("LineString"),
        Geometry::Polygon(_) => out.append("Polygon"),
        Geometry::MultiPoint(_) => out.append("MultiPoint"),
        Geometry::MultiLineString(_) => out.append("MultiLineString"),
        Geometry::MultiPolygon(_) => out.append("MultiPolygon"),
        Geometry::GeometryCollection(_) => out.append("GeometryCollection"),
    }
    out.append("\",\"");
    match g {
        Geometry::GeometryCollection(_) => out.append("geometries"),
        _ => out.append("coordinates"),
    }
    out.append("\":");
    out.append("[");
    assert(out@ =~= old(out)@ + ("{\"type\":\""@ + kind_name(g@) + "\",\""@ + content_key(g@)
        + "\":"@ + "["@));
}

fn write_geojson(g: &Geometry<String>, out: &mut String)
    ensures
        final(out)@ == old(out)@ + shape_text(g@),
    decreases g,
{
    write_kind(g, out);
    match g {
        Geometry::Point(p) => {
            write_coord(p, out);
        },
        Geometry::LineString(l) => {
            write_json_pts(&l.points, out);
        },
        Geometry::Polygon(p) => {
            write_json_rings(p, out);
        },
        Geometry::MultiPoint(m) => {
            write_json_pts(&m.points, out);
        },
        Geometry::MultiLineString(m) => {
            write_json_lines(&m.linestrings, out);
        },
        Geometry::MultiPolygon(m) => {
            write_json_polygons(&m.polygons, out);
        },
        Geometry::GeometryCollection(v) => {
            let ghost all = shapes_of(v@);
            let ghost front = out@;
            let mut i: usize = 0;
            proof {
                lemma_shapes_of(v@);
                assert(out@ =~= front + shapes_text(all.take(0)));
            }
            while i < v.len()
                invariant
                    i <= v@.len(),
                    all == shapes_of(v@),
                    all.len() == v@.len(),
                    forall|k: int| 0 <= k < v@.len() ==> #[trigger] all[k] == shape_of(v@[k]),
                    out@ == front + shapes_text(all.take(i as int)),
                    decreases_to!(g => v),
                decreases v@.len() - i,
            {
                proof {
                    assert(all.take(i + 1).drop_last() =~= all.take(i as int));
                    assert(all.take(i + 1).last() == all[i as int]);
                    assert(all.take(0) =~= seq![]);
                    assert(decreases_to!(g => v, v@, v@[i as int]));
                }
                write_comma(i, out);
                write_geojson(&v[i], out);
                i = i + 1;
                assert(out@ =~= front + shapes_text(all.take(i as int)));
            }
            assert(all.take(i as int) =~= all);
        },
    }
    out.append("]");
    out.append("}");
    assert(out@ =~= old(out)@ + shape_text(g@));
}

/// Writes a geometry.
pub fn to_geojson(geom: &Geometry<String>) -> (r: String)
    ensures
        r@ == shape_text(geom@),
{
    let mut out: String = String::new();
    write_geojson(geom, &mut out);
    assert(out@ =~= shape_text(geom@));
    out
}

/// The point of a coordinate array.
pub open spec fn coord_of(v: JsonView) -> Result<(Text, Text), ErrorView> {
    match v {
        JsonView::Array(a) => if a.len() < 2 {
            Err(syntax_error("coordinate array must have at least 2 elements"@))
        } else {
            match (a[0], a[1]) {
                (JsonView::Number(x), JsonView::Number(y)) => Ok((x, y)),
                (JsonView::Number(_), _) => Err(syntax_error("y coordinate not a number"@)),
                _ => Err(syntax_error("x coordinate not a number"@)),
            }
        },
        _ => Err(syntax_error("expected coordinate array"@)),
    }
}

/// The points of coordinate arrays, from the `k`th on.
pub open spec fn coords_from(a: Seq<JsonView>, k: int, acc: Seq<(Text, Text)>) -> Result<
    Seq<(Text, Text)>,
    ErrorView,
>
    decreases a.len() - k,
{
    if !(0 <= k < a.len()) {
        Ok(acc)
    } else {
        match coord_of(a[k]) {
            Err(e) => Err(e),
            Ok(p) => coords_from(a, k + 1, acc.push(p)),
        }
    }
}

/// The points of an array of coordinate arrays.
pub open spec fn coords_of(v: JsonView) -> Result<Seq<(Text, Text)>, ErrorView> {
    match v {
        JsonView::Array(a) => coords_from(a, 0, seq![]),
        _ => Err(syntax_error("expected coordinates array"@)),
    }
}

/// The rings of arrays, from the `k`th on.
pub open spec fn rings_from(a: Seq<JsonView>, k: int, acc: Seq<Seq<(Text, Text)>>) -> Result<
    Seq<Seq<(Text, Text)>>,
    ErrorView,
>
    decreases a.len() - k,
{
    if !(0 <= k < a.len()) {
        Ok(acc)
    } else {
        match coords_of(a[k]) {
            Err(e) => Err(e),
            Ok(r) => rings_from(a, k + 1, acc.push(r)),
        }
    }
}

/// The rings of an array.
pub open spec fn rings_of(v: JsonView) -> Result<Seq<Seq<(Text, Text)>>, ErrorView> {
    match v {
        JsonView::Array(a) => rings_from(a, 0, seq![]),
        _ => Err(syntax_error("expected rings array"@)),
    }
}

/// The polygons of arrays, from the `k`th on.
pub open spec fn polygons_from(
    a: Seq<JsonView>,
    k: int,
    acc: Seq<Seq<Seq<(Text, Text)>>>,
) -> Result<Seq<Seq<Seq<(Text, Text)>>>, ErrorView>
    decreases a.len() - k,
{
    if !(0 <= k < a.len()) {
        Ok(acc)
    } else {
        match rings_of(a[k]) {
            Err(e) => Err(e),
            Ok(r) => if r.len() == 0 {
                Err(syntax_error("MultiPolygon child has no rings"@))
            } else {
                polygons_from(a, k + 1, acc.push(r))
            },
        }
    }
}

/// The name that an object gives as its type.
pub open spec fn type_of(v: JsonView) -> Option<Text> {
    match field(v, "type"@) {
        Some(JsonView::Text(s)) => Some(s),
        _ => None,
    }
}

/// What a geometry that holds no others is, from its kind and its object.
#[verifier::opaque]
pub open spec fn plain_shape(kind: Text, v: JsonView) -> Result<Shape<Text>, ErrorView> {
    let content = field(v, "coordinates"@);
    if kind == "Point"@ {
        match content {
            None => Err(syntax_error("Point missing coordinates"@)),
            Some(c) => match coord_of(c) {
                Err(e) => Err(e),
                Ok(p) => Ok(Shape::Point(p)),
            },
        }
    } else if kind == "LineString"@ {
        match content {
            None => Err(syntax_error("LineString missing coordinates"@)),
            Some(c) => match coords_of(c) {
                Err(e) => Err(e),
                Ok(p) => Ok(Shape::LineString(p)),
            },
        }
    } else if kind == "Polygon"@ {
        match content {
            None => Err(syntax_error("Polygon missing coordinates"@)),
            Some(c) => match rings_of(c) {
                Err(e) => Err(e),
                Ok(r) => if r.len() == 0 {
                    Err(syntax_error("Polygon has no rings"@))
                } else {
                    Ok(Shape::Polygon(r))
                },
            },
        }
    } else if kind == "MultiPoint"@ {
        match content {
            None => Err(syntax_error("MultiPoint missing coordinates"@)),
            Some(c) => match coords_of(c) {
                Err(e) => Err(e),
                Ok(p) => Ok(Shape::MultiPoint(p)),
            },
        }
    } else if kind == "MultiLineString"@ {
        match content {
            None => Err(syntax_error("MultiLineString missing coordinates"@)),
            Some(c) => match rings_of(c) {
                Err(e) => Err(e),
                Ok(r) => Ok(Shape::MultiLineString(r)),
            },
        }
    } else if kind == "MultiPolygon"@ {
        match content {
            Some(JsonView::Array(a)) => match polygons_from(a, 0, seq![]) {
                Err(e) => Err(e),
                Ok(p) => Ok(Shape::MultiPolygon(p)),
            },
            _ => Err(syntax_error("MultiPolygon missing coordinates"@)),
        }
    } else {
        Err(syntax_error("unknown GeoJSON geometry type: "@ + kind))
    }
}

/// The geometry of an object.
pub open spec fn json_shape(v: JsonView) -> Result<Shape<Text>, ErrorView>
    decreases v, 0int,
{
    match type_of(v) {
        None => Err(syntax_error("GeoJSON missing 'type' field"@)),
        Some(kind) => if kind != "GeometryCollection"@ {
            plain_shape(kind, v)
        } else {
            match v {
                JsonView::Object(m) => {
                    let k = member_index(m, "geometries"@, 0);
                    if 0 <= k < m.len() {
                        match m[k].1 {
                            JsonView::Array(a) => match json_shapes(a, 0, seq![]) {
                                Err(e) => Err(e),
                                Ok(s) => Ok(Shape::Collection(s)),
                            },
                            _ => Err(no_geometries()),
                        }
                    } else {
                        Err(no_geometries())
                    }
                },
                _ => Err(no_geometries()),
            }
        },
    }
}

/// That a collection does not say what it holds.
pub open spec fn no_geometries() -> ErrorView {
    syntax_error("GeometryCollection missing 'geometries' field"@)
}

/// The geometries of objects, from the `k`th on.
pub open spec fn json_shapes(a: Seq<JsonView>, k: int, acc: Seq<Shape<Text>>) -> Result<
    Seq<Shape<Text>>,
    ErrorView,
>
    decreases a, a.len() - k,
{
    if !(0 <= k < a.len()) {
        Ok(acc)
    } else {
        match json_shape(a[k]) {
            Err(e) => Err(e),
            Ok(g) => json_shapes(a, k + 1, acc.push(g)),
        }
    }
}

/// The geometry that a text denotes, or why it denotes none.
pub open spec fn geojson_shape(t: Text) -> Result<Shape<Text>, ErrorView> {
    match value_at(t, 0) {
        Err(e) => Err(e),
        Ok((v, k)) => {
            let end = space_end(t, k);
            if end < t.len() {
                Err(syntax_error(message_at("trailing characters in GeoJSON at offset "@, t, end)))
            } else {
                json_shape(v)
            }
        },
    }
}

fn copy_text(s: &String) -> (r: String)
    ensures
        r@ == s@,
{
    let mut out: String = String::new();
    out.append(s.as_str());
    assert(out@ =~= s@);
    out
}

fn json_as_coord_array(v: &JsonValue) -> (r: CenResult<Point<String>>)
    ensures
        match r {
            Ok(p) => coord_of(v@) == Ok::<(Text, Text), ErrorView>(point_view(p)),
            Err(e) => coord_of(v@) == Err::<(Text, Text), ErrorView>(e@),
        },
{
    match v {
        JsonValue::Array(a) => {
            proof {
                lemma_values_view(a@);
            }
            if a.len() < 2 {
                return Err(CenError::syntax("coordinate array must have at least 2 elements"));
            }
            assert(values_view(a@)[0] == json_view(a@[0]));
            assert(values_view(a@)[1] == json_view(a@[1]));
            match &a[0] {
                JsonValue::Number(x) => match &a[1] {
                    JsonValue::Number(y) => Ok(Point { x: copy_text(x), y: copy_text(y) }),
                    _ => Err(CenError::syntax("y coordinate not a number")),
                },
                _ => Err(CenError::syntax("x coordinate not a number")),
            }
        },
        _ => Err(CenError::syntax("expected coordinate array")),
    }
}

fn json_as_coord_list(v: &JsonValue) -> (r: CenResult<Vec<Point<String>>>)
    ensures
        match r {
            Ok(p) => coords_of(v@) == Ok::<Seq<(Text, Text)>, ErrorView>(points_view(p@)),
            Err(e) => coords_of(v@) == Err::<Seq<(Text, Text)>, ErrorView>(e@),
        },
{
    match v {
        JsonValue::Array(a) => {
            let ghost all = values_view(a@);
            proof {
                lemma_values_view(a@);
            }
            let mut pts: Vec<Point<String>> = Vec::new();
            let mut k: usize = 0;
            assert(points_view(pts@) =~= seq![]);
            while k < a.len()
                invariant
                    k <= a@.len(),
                    all.len() == a@.len(),
                    forall|i: int| 0 <= i < a@.len() ==> #[trigger] all[i] == json_view(a@[i]),
                    coords_of(v@) == coords_from(all, k as int, points_view(pts@)),
                decreases a@.len() - k,
            {
                let ghost before = points_view(pts@);
                assert(all[k as int] == json_view(a@[k as int]));
                match json_as_coord_array(&a[k]) {
                    Err(e) => {
                        return Err(e);
                    },
                    Ok(p) => {
                        pts.push(p);
                        assert(points_view(pts@) =~= before.push(point_view(p)));
                    },
                }
                k = k + 1;
            }
            Ok(pts)
        },
        _ => Err(CenError::syntax("expected coordinates array")),
    }
}

fn json_as_ring_list(v: &JsonValue) -> (r: CenResult<Vec<LineString<String>>>)
    ensures
        match r {
            Ok(l) => rings_of(v@) == Ok::<Seq<Seq<(Text, Text)>>, ErrorView>(lines_view(l@)),
            Err(e) => rings_of(v@) == Err::<Seq<Seq<(Text, Text)>>, ErrorView>(e@),
        },
{
    match v {
        JsonValue::Array(a) => {
            let ghost all = values_view(a@);
            proof {
                lemma_values_view(a@);
            }
            let mut rings: Vec<LineString<String>> = Vec::new();
            let mut k: usize = 0;
            assert(lines_view(rings@) =~= seq![]);
            while k < a.len()
                invariant
                    k <= a@.len(),
                    all.len() == a@.len(),
                    forall|i: int| 0 <= i < a@.len() ==> #[trigger] all[i] == json_view(a@[i]),
                    rings_of(v@) == rings_from(all, k as int, lines_view(rings@)),
                decreases a@.len() - k,
            {
                let ghost before = lines_view(rings@);
                assert(all[k as int] == json_view(a@[k as int]));
                match json_as_coord_list(&a[k]) {
                    Err(e) => {
                        return Err(e);
                    },
                    Ok(points) => {
                        let ghost here = points_view(points@);
                        rings.push(LineString { points });
                        assert(lines_view(rings@) =~= before.push(here));
                    },
                }
                k = k + 1;
            }
            Ok(rings)
        },
        _ => Err(CenError::syntax("expected rings array")),
    }
}

fn json_as_polygons(a: &Vec<JsonValue>) -> (r: CenResult<Vec<Polygon<String>>>)
    ensures
        match r {
            Ok(p) => polygons_from(values_view(a@), 0, seq![]) == Ok::<
                Seq<Seq<Seq<(Text, Text)>>>,
                ErrorView,
            >(polygons_view(p@)),
            Err(e) => polygons_from(values_view(a@), 0, seq![]) == Err::<
                Seq<Seq<Seq<(Text, Text)>>>,
                ErrorView,
            >(e@),
        },
{
    let ghost all = values_view(a@);
    proof {
        lemma_values_view(a@);
    }
    let mut polys: Vec<Polygon<String>> = Vec::new();
    let mut k: usize = 0;
    assert(polygons_view(polys@) =~= seq![]);
    while k < a.len()
        invariant
            k <= a@.len(),
            all == values_view(a@),
            all.len() == a@.len(),
            forall|i: int| 0 <= i < a@.len() ==> #[trigger] all[i] == json_view(a@[i]),
            polygons_from(all, 0, seq![]) == polygons_from(
                all,
                k as int,
                polygons_view(polys@),
            ),
        decreases a@.len() - k,
    {
        let ghost before = polygons_view(polys@);
        assert(all[k as int] == json_view(a@[k as int]));
        match json_as_ring_list(&a[k]) {
            Err(e) => {
                return Err(e);
            },
            Ok(rings) => {
                if rings.len() == 0 {
                    return Err(CenError::syntax("MultiPolygon child has no rings"));
                }
                let p: Polygon<String> = polygon_of_rings(rings);
                polys.push(p);
                assert(polygons_view(polys@) =~= before.push(rings_view(p)));
            },
        }
        k = k + 1;
    }
    Ok(polys)
}

fn plain_geometry(kind: &str, v: &JsonValue) -> (r: CenResult<Geometry<String>>)
    ensures
        outcome(r) == plain_shape(kind@, v@),
{
    proof {
        reveal(plain_shape);
    }
    let content: Option<&JsonValue> = v.get("coordinates");
    if same_text(kind, "Point") {
        match content {
            None => Err(CenError::syntax("Point missing coordinates")),
            Some(c) => match json_as_coord_array(c) {
                Err(e) => Err(e),
                Ok(p) => Ok(Geometry::Point(p)),
            },
        }
    } else if same_text(kind, "LineString") {
        match content {
            None => Err(CenError::syntax("LineString missing coordinates")),
            Some(c) => match json_as_coord_list(c) {
                Err(e) => Err(e),
                Ok(points) => Ok(Geometry::LineString(LineString { points })),
            },
        }
    } else if same_text(kind, "Polygon") {
        match content {
            None => Err(CenError::syntax("Polygon missing coordinates")),
            Some(c) => match json_as_ring_list(c) {
                Err(e) => Err(e),
                Ok(rings) => {
                    if rings.len() == 0 {
                        Err(CenError::syntax("Polygon has no rings"))
                    } else {
                        Ok(Geometry::Polygon(polygon_of_rings(rings)))
                    }
                },
            },
        }
    } else if same_text(kind, "MultiPoint") {
        match content {
            None => Err(CenError::syntax("MultiPoint missing coordinates")),
            Some(c) => match json_as_coord_list(c) {
                Err(e) => Err(e),
                Ok(points) => Ok(Geometry::MultiPoint(MultiPoint { points })),
            },
        }
    } else if same_text(kind, "MultiLineString") {
        match content {
            None => Err(CenError::syntax("MultiLineString missing coordinates")),
            Some(c) => match json_as_ring_list(c) {
                Err(e) => Err(e),
                Ok(linestrings) => Ok(Geometry::MultiLineString(MultiLineString { linestrings })),
            },
        }
    } else if same_text(kind, "MultiPolygon") {
        match content {
            Some(JsonValue::Array(a)) => match json_as_polygons(a) {
                Err(e) => Err(e),
                Ok(polygons) => Ok(Geometry::MultiPolygon(MultiPolygon { polygons })),
            },
            _ => Err(CenError::syntax("MultiPolygon missing coordinates")),
        }
    } else {
        let mut m: String = String::new();
        m.append("unknown GeoJSON geometry type: ");
        m.append(kind);
        assert(m@ =~= "unknown GeoJSON geometry type: "@ + kind@);
        Err(CenError::syntax(m.as_str()))
    }
}

fn json_to_geometry(v: &JsonValue) -> (r: CenResult<Geometry<String>>)
    ensures
        outcome(r) == json_shape(v@),
    decreases *v,
{
    let kind: &String = match v.get("type") {
        Some(JsonValue::Text(s)) => s,
        _ => {
            return Err(CenError::syntax("GeoJSON missing 'type' field"));
        },
    };
    if !same_text(kind.as_str(), "GeometryCollection") {
        return plain_geometry(kind.as_str(), v);
    }
    let inner: Option<&JsonValue> = v.get("geometries");
    match inner {
        Some(JsonValue::Array(a)) => {
            let ghost all = values_view(a@);
            proof {
                lemma_values_view(a@);
            }
            let mut parts: Vec<Geometry<String>> = Vec::new();
            let mut k: usize = 0;
            proof {
                lemma_shapes_of(parts@);
                assert(shapes_of(parts@) =~= seq![]);
                assert(decreases_to!(*v => *inner->Some_0, a));
            }
            while k < a.len()
                invariant
                    k <= a@.len(),
                    all.len() == a@.len(),
                    forall|i: int| 0 <= i < a@.len() ==> #[trigger] all[i] == json_view(a@[i]),
                    json_shape(v@) == (match json_shapes(all, 0, seq![]) {
                        Err(e) => Err::<Shape<Text>, ErrorView>(e),
                        Ok(s) => Ok(Shape::Collection(s)),
                    }),
                    json_shapes(all, 0, seq![]) == json_shapes(all, k as int, shapes_of(parts@)),
                    decreases_to!(*v => *a),
                decreases a@.len() - k,
            {
                let ghost before = parts@;
                assert(all[k as int] == json_view(a@[k as int]));
                assert(decreases_to!(*v => *a, a@, a@[k as int]));
                match json_to_geometry(&a[k]) {
                    Err(e) => {
                        return Err(e);
                    },
                    Ok(g) => {
                        parts.push(g);
                        proof {
                            lemma_shapes_of(before);
                            lemma_shapes_of(parts@);
                            assert(shapes_of(parts@) =~= shapes_of(before).push(shape_of(g)));
                        }
                    },
                }
                k = k + 1;
            }
            Ok(Geometry::GeometryCollection(parts))
        },
        _ => Err(CenError::syntax("GeometryCollection missing 'geometries' field")),
    }
}

/// Reads a geometry.
pub fn from_geojson(input: &str) -> (r: CenResult<Geometry<String>>)
    ensures
        outcome(r) == geojson_shape(input@),
{
    let chars: Vec<char> = chars_of(input);
    let t: &[char] = chars.as_slice();
    match parse_value(t, 0) {
        Err(e) => Err(e),
        Ok((v, k)) => {
            let end: usize = skip_ws(t, k);
            if end < t.len() {
                return Err(error_at("trailing characters in GeoJSON at offset ", t, end));
            }
            json_to_geometry(&v)
        },
    }
}

/// A text that is read as one number, whole.
pub open spec fn is_number_text(s: Text) -> bool {
    &&& s.len() > 0
    &&& s[0] == '-' || s[0] == '+' || is_digit(s[0])
    &&& number_end(s, 0) == s.len()
    &&& is_float_text(s)
}

/// Both coordinates are numbers.
pub open spec fn point_written(p: (Text, Text)) -> bool {
    is_number_text(p.0) && is_number_text(p.1)
}

/// The coordinates of all points are numbers.
pub open spec fn points_written(s: Seq<(Text, Text)>) -> bool {
    forall|k: int| 0 <= k < s.len() ==> point_written(#[trigger] s[k])
}

/// The coordinates of all rings are numbers.
pub open spec fn rings_written(s: Seq<Seq<(Text, Text)>>) -> bool {
    forall|k: int| 0 <= k < s.len() ==> points_written(#[trigger] s[k])
}

/// All polygons have rings, whose coordinates are numbers.
pub open spec fn polygons_written(s: Seq<Seq<Seq<(Text, Text)>>>) -> bool {
    forall|k: int| 0 <= k < s.len() ==> (#[trigger] s[k]).len() > 0 && rings_written(s[k])
}

/// All coordinates are numbers, and every polygon has rings.
pub open spec fn written(g: Shape<Text>) -> bool
    decreases g,
{
    match g {
        Shape::Point(p) => point_written(p),
        Shape::LineString(p) => points_written(p),
        Shape::Polygon(r) => r.len() > 0 && rings_written(r),
        Shape::MultiPoint(p) => points_written(p),
        Shape::MultiLineString(l) => rings_written(l),
        Shape::MultiPolygon(p) => polygons_written(p),
        Shape::Collection(s) => all_written(s),
    }
}

/// All of the geometries are written.
pub open spec fn all_written(s: Seq<Shape<Text>>) -> bool
    decreases s,
{
    s.len() == 0 || (all_written(s.drop_last()) && written(s.last()))
}

proof fn lemma_all_written(s: Seq<Shape<Text>>, k: int)
    requires
        all_written(s),
        0 <= k < s.len(),
    ensures
        written(s[k]),
    decreases s.len(),
{
    if k < s.len() - 1 {
        lemma_all_written(s.drop_last(), k);
        assert(s.drop_last()[k] == s[k]);
    }
}

/// A character that ends a number and an item stands at a place.
spec fn stops(t: Text, i: int) -> bool {
    0 <= i < t.len() && (t[i] == ',' || t[i] == ']' || t[i] == '}')
}

proof fn lemma_digits_local(t: Text, p: int, s: Text, j: int)
    requires
        holds_at(t, p, s),
        0 <= j <= s.len(),
        stops(t, p + s.len()),
    ensures
        digits_end(t, p + j) == p + digits_end(s, j),
        j <= digits_end(s, j) <= s.len(),
    decreases s.len() - j,
{
    if j < s.len() {
        lemma_holds_char(t, p, s, j);
        if is_digit(s[j]) {
            lemma_digits_local(t, p, s, j + 1);
        }
    } else {
        assert(p >= 0) by {
            reveal(holds_at);
        }
    }
}

proof fn lemma_char_local(t: Text, p: int, s: Text, j: int)
    requires
        holds_at(t, p, s),
        0 <= j <= s.len(),
        stops(t, p + s.len()),
    ensures
        j < s.len() ==> char_at(t, p + j) == char_at(s, j),
        sign_end(t, p + j) == p + sign_end(s, j),
        j == s.len() ==> char_at(t, p + j) == Some(t[p + j]) && char_at(s, j) is None,
{
    if j < s.len() {
        lemma_holds_char(t, p, s, j);
    } else {
        assert(p >= 0) by {
            reveal(holds_at);
        }
    }
}

proof fn lemma_number_local(t: Text, p: int, s: Text)
    requires
        holds_at(t, p, s),
        stops(t, p + s.len()),
    ensures
        number_end(t, p) == p + number_end(s, 0),
{
    lemma_char_local(t, p, s, 0);
    let a = sign_end(s, 0);
    lemma_digits_local(t, p, s, a);
    let b = digits_end(s, a);
    lemma_char_local(t, p, s, b);
    if char_at(s, b) == Some('.') {
        lemma_digits_local(t, p, s, b + 1);
    }
    let c = fraction_end(s, b);
    assert(fraction_end(t, p + b) == p + c);
    lemma_char_local(t, p, s, c);
    if char_at(s, c) == Some('e') || char_at(s, c) == Some('E') {
        lemma_char_local(t, p, s, c + 1);
        lemma_digits_local(t, p, s, sign_end(s, c + 1));
    }
}

proof fn lemma_number(t: Text, p: int, s: Text)
    requires
        is_number_text(s),
        holds_at(t, p, s),
        stops(t, p + s.len()),
    ensures
        value_at(t, p) == Ok::<(JsonView, int), ErrorView>((JsonView::Number(s), p + s.len())),
{
    lemma_holds_char(t, p, s, 0);
    assert(space_end(t, p) == p);
    lemma_number_local(t, p, s);
    assert(t.subrange(p, p + s.len()) == s) by {
        reveal(holds_at);
    }
    assert(value_at(t, p) == scalar_at(t, p));
    assert(scalar_at(t, p) == number_at(t, p));
}

/// Wherever the text of a value stands, the value is read.
spec fn part_reads(t: Text, part: Text, v: JsonView) -> bool {
    forall|j: int|
        #[trigger] holds_at(t, j, part) && stops(t, j + part.len()) ==> value_at(t, j) == Ok::<
            (JsonView, int),
            ErrorView,
        >((v, j + part.len()))
}

/// The text of an item starts with neither white space nor a closing bracket.
spec fn opens(part: Text) -> bool {
    part.len() > 0 && !is_space(part[0]) && part[0] != ']'
}

spec fn parts_read(t: Text, parts: Seq<Text>, vals: Seq<JsonView>) -> bool {
    &&& parts.len() == vals.len()
    &&& forall|k: int|
        0 <= k < parts.len() ==> part_reads(t, #[trigger] parts[k], vals[k]) && opens(parts[k])
}

proof fn lemma_joined_prefix(parts: Seq<Text>, k: int)
    requires
        0 <= k <= parts.len(),
    ensures
        joined(parts.take(k)).len() <= joined(parts).len(),
        joined(parts) == joined(parts.take(k)) + joined(parts).skip(
            joined(parts.take(k)).len() as int,
        ),
    decreases parts.len() - k,
{
    let whole = joined(parts);
    let a = joined(parts.take(k));
    if k < parts.len() {
        lemma_joined_prefix(parts, k + 1);
        lemma_joined_step(parts, k);
        let b = joined(parts.take(k + 1));
        assert(parts.take(0) =~= seq![]);
        assert(whole =~= a + whole.skip(a.len() as int)) by {
            assert forall|m: int| 0 <= m < a.len() implies whole[m] == a[m] by {
                assert(whole[m] == b[m]);
            }
        }
    } else {
        assert(parts.take(k) =~= parts);
        assert(whole =~= a + whole.skip(a.len() as int));
    }
}

/// Where the `k`th item of an array stands.
spec fn item_start(i: int, parts: Seq<Text>, k: int) -> int {
    i + joined(parts.take(k)).len() + if k == 0 {
        0int
    } else {
        1int
    }
}

proof fn lemma_item_step(t: Text, i: int, parts: Seq<Text>, k: int)
    requires
        holds_at(t, i, joined(parts) + "]"@),
        0 <= k < parts.len(),
    ensures
        ({
            let end = i + joined(parts.take(k + 1)).len();
            &&& holds_at(t, item_start(i, parts, k), parts[k])
            &&& end == item_start(i, parts, k) + parts[k].len()
            &&& stops(t, end)
            &&& t[end] == (if k + 1 < parts.len() {
                ','
            } else {
                ']'
            })
        }),
{
    reveal_strlit("]");
    reveal_strlit(",");
    let whole = joined(parts);
    let a = joined(parts.take(k));
    let b = joined(parts.take(k + 1));
    lemma_joined_prefix(parts, k + 1);
    lemma_joined_step(parts, k);
    assert(parts.take(0) =~= seq![]);
    let rest = whole.skip(b.len() as int);
    assert(whole + "]"@ =~= b + (rest + "]"@));
    lemma_holds_split(t, i, b, rest + "]"@);
    if k > 0 {
        lemma_holds_split(t, i, a + ","@, parts[k]);
    }
    lemma_holds_char(t, i + b.len(), rest + "]"@, 0);
    if k + 1 < parts.len() {
        lemma_joined_prefix(parts, k + 2);
        lemma_joined_step(parts, k + 1);
        let c = joined(parts.take(k + 2));
        assert(whole[b.len() as int] == c[b.len() as int]);
        assert(rest[0] == ',');
    } else {
        assert(parts.take(k + 1) =~= parts);
        assert(rest =~= seq![]);
    }
}

proof fn lemma_items_rest(t: Text, i: int, vals: Seq<JsonView>, parts: Seq<Text>, k: int)
    requires
        parts_read(t, parts, vals),
        holds_at(t, i, joined(parts) + "]"@),
        0 <= k < parts.len(),
    ensures
        items_rest(t, item_start(i, parts, k), vals.take(k)) == Ok::<(JsonView, int), ErrorView>(
            (JsonView::Array(vals), i + joined(parts).len() + 1),
        ),
    decreases parts.len() - k,
{
    lemma_item_step(t, i, parts, k);
    let at = item_start(i, parts, k);
    let end = at + parts[k].len();
    assert(part_reads(t, parts[k], vals[k]));
    assert(opens(parts[k]));
    assert(value_at(t, at) == Ok::<(JsonView, int), ErrorView>((vals[k], end)));
    assert(space_end(t, end) == end);
    assert(vals.take(k).push(vals[k]) =~= vals.take(k + 1));
    if k + 1 < parts.len() {
        assert(item_start(i, parts, k + 1) == end + 1);
        assert(next_at(t, end, ']') == Ok::<(bool, int), ErrorView>((true, end + 1)));
        lemma_items_rest(t, i, vals, parts, k + 1);
    } else {
        assert(parts.take(k + 1) =~= parts);
        assert(vals.take(k + 1) =~= vals);
        assert(next_at(t, end, ']') == Ok::<(bool, int), ErrorView>((false, end + 1)));
    }
}

proof fn lemma_items(t: Text, i: int, parts: Seq<Text>, vals: Seq<JsonView>)
    requires
        parts_read(t, parts, vals),
        holds_at(t, i, in_brackets(joined(parts))),
    ensures
        value_at(t, i) == Ok::<(JsonView, int), ErrorView>(
            (JsonView::Array(vals), i + in_brackets(joined(parts)).len()),
        ),
{
    reveal_strlit("[");
    reveal_strlit("]");
    let whole = joined(parts);
    assert(in_brackets(whole) =~= "["@ + (whole + "]"@));
    lemma_holds_split(t, i, "["@, whole + "]"@);
    lemma_holds_char(t, i, "["@, 0);
    assert(space_end(t, i) == i);
    lemma_holds_char(t, i + 1, whole + "]"@, 0);
    if parts.len() == 0 {
        assert(space_end(t, i + 1) == i + 1);
        assert(vals =~= seq![]);
    } else {
        lemma_item_step(t, i + 1, parts, 0);
        assert(opens(parts[0]));
        assert(parts.take(0) =~= seq![]);
        lemma_holds_char(t, i + 1, parts[0], 0);
        assert(space_end(t, i + 1) == i + 1);
        lemma_items_rest(t, i + 1, vals, parts, 0);
        assert(vals.take(0) =~= seq![]);
    }
}

/// A text without quotes and backslashes.
spec fn is_plain(s: Text) -> bool {
    forall|k: int| 0 <= k < s.len() ==> #[trigger] s[k] != '"' && s[k] != '\\'
}

proof fn lemma_chars(t: Text, p: int, s: Text, j: int)
    requires
        is_plain(s),
        holds_at(t, p, s),
        0 <= j <= s.len(),
        char_at(t, p + s.len()) == Some('"'),
    ensures
        chars_rest(t, p + j, s.take(j)) == Ok::<(Text, int), ErrorView>((s, p + s.len() + 1)),
    decreases s.len() - j,
{
    if j < s.len() {
        lemma_holds_char(t, p, s, j);
        assert(s.take(j).push(s[j]) =~= s.take(j + 1));
        lemma_chars(t, p, s, j + 1);
    } else {
        assert(p >= 0) by {
            reveal(holds_at);
        }
        assert(s.take(j) =~= s);
    }
}

proof fn lemma_string(t: Text, p: int, s: Text)
    requires
        is_plain(s),
        holds_at(t, p, s),
        char_at(t, p - 1) == Some('"'),
        char_at(t, p + s.len()) == Some('"'),
    ensures
        string_at(t, p - 1) == Ok::<(Text, int), ErrorView>((s, p + s.len() + 1)),
{
    assert(space_end(t, p - 1) == p - 1);
    lemma_chars(t, p, s, 0);
    assert(s.take(0) =~= seq![]);
}

/// The object that a geometry is written as.
spec fn object_of(kind: Text, key: Text, vals: Seq<JsonView>) -> JsonView {
    JsonView::Object(seq![("type"@, JsonView::Text(kind)), (key, JsonView::Array(vals))])
}

proof fn lemma_frame_parts(t: Text, i: int, kind: Text, key: Text, content: Text)
    requires
        holds_at(t, i, frame(kind, key, content)),
    ensures
        ({
            let a = i + 9 + kind.len();
            let b = a + 3 + key.len();
            &&& 0 <= i && i + frame(kind, key, content).len() <= t.len()
            &&& t[i] == '{'
            &&& holds_at(t, i + 2, "type"@)
            &&& t[i + 1] == '"' && t[i + 6] == '"' && t[i + 7] == ':' && t[i + 8] == '"'
            &&& holds_at(t, i + 9, kind)
            &&& t[a] == '"' && t[a + 1] == ',' && t[a + 2] == '"'
            &&& holds_at(t, a + 3, key)
            &&& t[b] == '"' && t[b + 1] == ':'
            &&& holds_at(t, b + 2, in_brackets(content))
            &&& t[b + 2 + in_brackets(content).len()] == '}'
            &&& i + frame(kind, key, content).len() == b + 3 + in_brackets(content).len()
        }),
{
    reveal_strlit("{\"type\":\"");
    reveal_strlit("\",\"");
    reveal_strlit("\":");
    reveal_strlit("}");
    reveal_strlit("type");
    let head = "{\"type\":\""@;
    let inner = in_brackets(content);
    lemma_holds_split(t, i, head + kind + "\",\""@ + key + "\":"@ + inner, "}"@);
    lemma_holds_split(t, i, head + kind + "\",\""@ + key + "\":"@, inner);
    lemma_holds_split(t, i, head + kind + "\",\""@ + key, "\":"@);
    lemma_holds_split(t, i, head + kind + "\",\""@, key);
    lemma_holds_split(t, i, head + kind, "\",\""@);
    lemma_holds_split(t, i, head, kind);
    assert(head =~= (seq!['{', '"'] + "type"@) + seq!['"', ':', '"']);
    lemma_holds_split(t, i, seq!['{', '"'] + "type"@, seq!['"', ':', '"']);
    lemma_holds_split(t, i, seq!['{', '"'], "type"@);
    lemma_holds_char(t, i, head, 0);
    lemma_holds_char(t, i, head, 1);
    lemma_holds_char(t, i, head, 6);
    lemma_holds_char(t, i, head, 7);
    lemma_holds_char(t, i, head, 8);
    let a = i + 9 + kind.len();
    lemma_holds_char(t, a, "\",\""@, 0);
    lemma_holds_char(t, a, "\",\""@, 1);
    lemma_holds_char(t, a, "\",\""@, 2);
    let b = a + 3 + key.len();
    lemma_holds_char(t, b, "\":"@, 0);
    lemma_holds_char(t, b, "\":"@, 1);
    lemma_holds_char(t, b + 2 + inner.len(), "}"@, 0);
}

proof fn lemma_object(
    t: Text,
    i: int,
    kind: Text,
    key: Text,
    parts: Seq<Text>,
    vals: Seq<JsonView>,
)
    requires
        holds_at(t, i, frame(kind, key, joined(parts))),
        is_plain(kind),
        is_plain(key),
        parts_read(t, parts, vals),
    ensures
        value_at(t, i) == Ok::<(JsonView, int), ErrorView>(
            (object_of(kind, key, vals), i + frame(kind, key, joined(parts)).len()),
        ),
{
    reveal_strlit("type");
    lemma_frame_parts(t, i, kind, key, joined(parts));
    let a = i + 9 + kind.len();
    let b = a + 3 + key.len();
    let c = b + 2 + in_brackets(joined(parts)).len();
    lemma_items(t, b + 2, parts, vals);
    lemma_member(t, i + 1, "type"@, i + 8);
    lemma_string(t, i + 9, kind);
    assert(space_end(t, i + 8) == i + 8);
    assert(value_at(t, i + 8) == scalar_at(t, i + 8));
    assert(value_at(t, i + 8) == Ok::<(JsonView, int), ErrorView>((JsonView::Text(kind), a + 1)));
    lemma_member(t, a + 2, key, b + 2);
    lemma_next(t, a + 1, true);
    lemma_next(t, c, false);
    let first = seq![("type"@, JsonView::Text(kind))];
    let empty: Seq<(Text, JsonView)> = seq![];
    assert(empty.push(("type"@, JsonView::Text(kind))) =~= first);
    assert(members_rest(t, a + 2, first) == Ok::<(JsonView, int), ErrorView>(
        (JsonView::Object(first.push((key, JsonView::Array(vals)))), c + 1),
    ));
    assert(members_rest(t, i + 1, empty) == members_rest(t, a + 2, first));
    assert(first.push((key, JsonView::Array(vals))) =~= seq![
        ("type"@, JsonView::Text(kind)),
        (key, JsonView::Array(vals)),
    ]);
    assert(space_end(t, i) == i);
    assert(space_end(t, i + 1) == i + 1);
}

proof fn lemma_member(t: Text, i: int, key: Text, end: int)
    requires
        is_plain(key),
        holds_at(t, i + 1, key),
        end == i + key.len() + 3,
        0 <= i && end <= t.len(),
        t[i] == '"',
        t[end - 2] == '"',
        t[end - 1] == ':',
    ensures
        key_at(t, i) == Ok::<(Text, int), ErrorView>((key, end)),
{
    lemma_string(t, i + 1, key);
    assert(space_end(t, end - 1) == end - 1);
}

proof fn lemma_next(t: Text, i: int, more: bool)
    requires
        0 <= i < t.len(),
        t[i] == (if more {
            ','
        } else {
            '}'
        }),
    ensures
        next_at(t, i, '}') == Ok::<(bool, int), ErrorView>((more, i + 1)),
{
    assert(space_end(t, i) == i);
}

spec fn coord_json(p: (Text, Text)) -> Seq<JsonView> {
    seq![JsonView::Number(p.0), JsonView::Number(p.1)]
}

spec fn points_json(s: Seq<(Text, Text)>) -> Seq<JsonView> {
    Seq::new(s.len(), |k: int| JsonView::Array(coord_json(s[k])))
}

spec fn rings_json(s: Seq<Seq<(Text, Text)>>) -> Seq<JsonView> {
    Seq::new(s.len(), |k: int| JsonView::Array(points_json(s[k])))
}

spec fn polygons_json(s: Seq<Seq<Seq<(Text, Text)>>>) -> Seq<JsonView> {
    Seq::new(s.len(), |k: int| JsonView::Array(rings_json(s[k])))
}

spec fn shape_json(g: Shape<Text>) -> JsonView
    decreases g,
{
    object_of(
        kind_name(g),
        content_key(g),
        match g {
            Shape::Point(p) => coord_json(p),
            Shape::LineString(p) => points_json(p),
            Shape::Polygon(r) => rings_json(r),
            Shape::MultiPoint(p) => points_json(p),
            Shape::MultiLineString(l) => rings_json(l),
            Shape::MultiPolygon(p) => polygons_json(p),
            Shape::Collection(s) => shapes_json(s),
        },
    )
}

spec fn shapes_json(s: Seq<Shape<Text>>) -> Seq<JsonView>
    decreases s,
{
    if s.len() == 0 {
        seq![]
    } else {
        shapes_json(s.drop_last()).push(shape_json(s.last()))
    }
}

proof fn lemma_shapes_json(s: Seq<Shape<Text>>)
    ensures
        shapes_json(s).len() == s.len(),
        forall|i: int| 0 <= i < s.len() ==> #[trigger] shapes_json(s)[i] == shape_json(s[i]),
    decreases s.len(),
{
    if s.len() > 0 {
        lemma_shapes_json(s.drop_last());
    }
}

spec fn coord_parts(p: (Text, Text)) -> Seq<Text> {
    seq![p.0, p.1]
}

proof fn lemma_coord_parts(t: Text, p: (Text, Text))
    requires
        point_written(p),
    ensures
        joined(coord_parts(p)) == coord_text(p),
        parts_read(t, coord_parts(p), coord_json(p)),
{
    let parts = coord_parts(p);
    let vals = coord_json(p);
    let one = parts.drop_last();
    assert(one =~= seq![p.0]);
    assert(joined(one) == p.0);
    assert(joined(parts) == joined(one) + ","@ + p.1);
    assert forall|k: int| 0 <= k < parts.len() implies part_reads(
        t,
        #[trigger] parts[k],
        vals[k],
    ) && opens(parts[k]) by {
        assert forall|j: int| #[trigger]
            holds_at(t, j, parts[k]) && stops(t, j + parts[k].len()) implies value_at(t, j) == Ok::<
            (JsonView, int),
            ErrorView,
        >((vals[k], j + parts[k].len())) by {
            lemma_number(t, j, parts[k]);
        }
    }
}

proof fn lemma_bracket_opens(s: Text)
    ensures
        opens(in_brackets(s)),
{
    reveal_strlit("[");
    assert(in_brackets(s)[0] == '[');
}

proof fn lemma_point_parts(t: Text, s: Seq<(Text, Text)>)
    requires
        points_written(s),
    ensures
        parts_read(t, point_parts(s), points_json(s)),
{
    let parts = point_parts(s);
    let vals = points_json(s);
    assert forall|k: int| 0 <= k < parts.len() implies part_reads(
        t,
        #[trigger] parts[k],
        vals[k],
    ) && opens(parts[k]) by {
        assert(point_written(s[k]));
        lemma_coord_parts(t, s[k]);
        assert forall|j: int| #[trigger]
            holds_at(t, j, parts[k]) && stops(t, j + parts[k].len()) implies value_at(t, j) == Ok::<
            (JsonView, int),
            ErrorView,
        >((vals[k], j + parts[k].len())) by {
            lemma_items(t, j, coord_parts(s[k]), coord_json(s[k]));
        }
        lemma_bracket_opens(coord_text(s[k]));
    }
}

proof fn lemma_ring_parts(t: Text, s: Seq<Seq<(Text, Text)>>)
    requires
        rings_written(s),
    ensures
        parts_read(t, ring_parts(s), rings_json(s)),
{
    let parts = ring_parts(s);
    let vals = rings_json(s);
    assert forall|k: int| 0 <= k < parts.len() implies part_reads(
        t,
        #[trigger] parts[k],
        vals[k],
    ) && opens(parts[k]) by {
        assert(points_written(s[k]));
        lemma_point_parts(t, s[k]);
        assert forall|j: int| #[trigger]
            holds_at(t, j, parts[k]) && stops(t, j + parts[k].len()) implies value_at(t, j) == Ok::<
            (JsonView, int),
            ErrorView,
        >((vals[k], j + parts[k].len())) by {
            lemma_items(t, j, point_parts(s[k]), points_json(s[k]));
        }
        lemma_bracket_opens(points_text(s[k]));
    }
}

proof fn lemma_polygon_parts(t: Text, s: Seq<Seq<Seq<(Text, Text)>>>)
    requires
        polygons_written(s),
    ensures
        parts_read(t, polygon_parts(s), polygons_json(s)),
{
    let parts = polygon_parts(s);
    let vals = polygons_json(s);
    assert forall|k: int| 0 <= k < parts.len() implies part_reads(
        t,
        #[trigger] parts[k],
        vals[k],
    ) && opens(parts[k]) by {
        assert(s[k].len() > 0 && rings_written(s[k]));
        lemma_ring_parts(t, s[k]);
        assert forall|j: int| #[trigger]
            holds_at(t, j, parts[k]) && stops(t, j + parts[k].len()) implies value_at(t, j) == Ok::<
            (JsonView, int),
            ErrorView,
        >((vals[k], j + parts[k].len())) by {
            lemma_items(t, j, ring_parts(s[k]), rings_json(s[k]));
        }
        lemma_bracket_opens(rings_text(s[k]));
    }
}

proof fn lemma_names(g: Shape<Text>)
    ensures
        is_plain(kind_name(g)),
        is_plain(content_key(g)),
        content_key(g) != "type"@,
        "coordinates"@ != "type"@,
        g is Point <==> kind_name(g) == "Point"@,
        g is LineString <==> kind_name(g) == "LineString"@,
        g is Polygon <==> kind_name(g) == "Polygon"@,
        g is MultiPoint <==> kind_name(g) == "MultiPoint"@,
        g is MultiLineString <==> kind_name(g) == "MultiLineString"@,
        g is MultiPolygon <==> kind_name(g) == "MultiPolygon"@,
        g is Collection <==> kind_name(g) == "GeometryCollection"@,
{
    reveal_strlit("Point");
    reveal_strlit("LineString");
    reveal_strlit("Polygon");
    reveal_strlit("MultiPoint");
    reveal_strlit("MultiLineString");
    reveal_strlit("MultiPolygon");
    reveal_strlit("GeometryCollection");
    reveal_strlit("geometries");
    reveal_strlit("coordinates");
    reveal_strlit("type");
    assert("LineString"@[0] != "MultiPoint"@[0]);
    assert("coordinates"@.len() != "type"@.len());
    assert("geometries"@.len() != "type"@.len());
    assert("Point"@.len() == 5 && "LineString"@.len() == 10 && "Polygon"@.len() == 7);
    assert("MultiPoint"@.len() == 10 && "MultiLineString"@.len() == 15);
    assert("MultiPolygon"@.len() == 12 && "GeometryCollection"@.len() == 18);
}

spec fn shape_parts(s: Seq<Shape<Text>>) -> Seq<Text> {
    Seq::new(s.len(), |k: int| shape_text(s[k]))
}

proof fn lemma_shapes_text(s: Seq<Shape<Text>>)
    ensures
        shapes_text(s) == joined(shape_parts(s)),
    decreases s.len(),
{
    if s.len() > 0 {
        lemma_shapes_text(s.drop_last());
        assert(shape_parts(s).drop_last() =~= shape_parts(s.drop_last()));
    }
}

proof fn lemma_shape_read(t: Text, p: int, g: Shape<Text>)
    requires
        written(g),
        holds_at(t, p, shape_text(g)),
    ensures
        value_at(t, p) == Ok::<(JsonView, int), ErrorView>(
            (shape_json(g), p + shape_text(g).len()),
        ),
    decreases g, 1int,
{
    lemma_names(g);
    let kind = kind_name(g);
    let key = content_key(g);
    match g {
        Shape::Point(x) => {
            lemma_coord_parts(t, x);
            lemma_object(t, p, kind, key, coord_parts(x), coord_json(x));
        },
        Shape::LineString(x) => {
            lemma_point_parts(t, x);
            lemma_object(t, p, kind, key, point_parts(x), points_json(x));
        },
        Shape::Polygon(r) => {
            lemma_ring_parts(t, r);
            lemma_object(t, p, kind, key, ring_parts(r), rings_json(r));
        },
        Shape::MultiPoint(x) => {
            lemma_point_parts(t, x);
            lemma_object(t, p, kind, key, point_parts(x), points_json(x));
        },
        Shape::MultiLineString(l) => {
            lemma_ring_parts(t, l);
            lemma_object(t, p, kind, key, ring_parts(l), rings_json(l));
        },
        Shape::MultiPolygon(x) => {
            lemma_polygon_parts(t, x);
            lemma_object(t, p, kind, key, polygon_parts(x), polygons_json(x));
        },
        Shape::Collection(s) => {
            lemma_shapes_text(s);
            lemma_shape_parts(t, s);
            lemma_object(t, p, kind, key, shape_parts(s), shapes_json(s));
        },
    }
}

proof fn lemma_shape_parts(t: Text, s: Seq<Shape<Text>>)
    requires
        all_written(s),
    ensures
        parts_read(t, shape_parts(s), shapes_json(s)),
    decreases s, 0int,
{
    lemma_shapes_json(s);
    let parts = shape_parts(s);
    let vals = shapes_json(s);
    assert forall|k: int| 0 <= k < parts.len() implies part_reads(
        t,
        #[trigger] parts[k],
        vals[k],
    ) && opens(parts[k]) by {
        lemma_all_written(s, k);
        assert forall|j: int| #[trigger]
            holds_at(t, j, parts[k]) && stops(t, j + parts[k].len()) implies value_at(t, j) == Ok::<
            (JsonView, int),
            ErrorView,
        >((vals[k], j + parts[k].len())) by {
            lemma_shape_read(t, j, s[k]);
        }
        lemma_shape_opens(s[k]);
    }
}

proof fn lemma_shape_opens(g: Shape<Text>)
    ensures
        opens(shape_text(g)),
{
    reveal_strlit("{\"type\":\"");
    assert(shape_text(g)[0] == '{');
}

proof fn lemma_fields(kind: Text, key: Text, vals: Seq<JsonView>)
    requires
        key != "type"@,
    ensures
        type_of(object_of(kind, key, vals)) == Some(kind),
        field(object_of(kind, key, vals), key) == Some(JsonView::Array(vals)),
        ({
            let m = object_of(kind, key, vals)->Object_0;
            member_index(m, key, 0) == 1 && m.len() == 2 && m[1].1 == JsonView::Array(vals)
        }),
{
    let m = object_of(kind, key, vals)->Object_0;
    assert(member_index(m, "type"@, 0) == 0);
    assert(member_index(m, key, 1) == 1);
    assert(member_index(m, key, 0) == 1);
}

proof fn lemma_coords_from(s: Seq<(Text, Text)>, k: int)
    requires
        0 <= k <= s.len(),
    ensures
        coords_from(points_json(s), k, s.take(k)) == Ok::<Seq<(Text, Text)>, ErrorView>(s),
    decreases s.len() - k,
{
    if k < s.len() {
        assert(s.take(k).push(s[k]) =~= s.take(k + 1));
        lemma_coords_from(s, k + 1);
    } else {
        assert(s.take(k) =~= s);
    }
}

proof fn lemma_coords_of(s: Seq<(Text, Text)>)
    ensures
        coords_of(JsonView::Array(points_json(s))) == Ok::<Seq<(Text, Text)>, ErrorView>(s),
{
    lemma_coords_from(s, 0);
    assert(s.take(0) =~= seq![]);
}

proof fn lemma_rings_from(s: Seq<Seq<(Text, Text)>>, k: int)
    requires
        0 <= k <= s.len(),
    ensures
        rings_from(rings_json(s), k, s.take(k)) == Ok::<Seq<Seq<(Text, Text)>>, ErrorView>(s),
    decreases s.len() - k,
{
    if k < s.len() {
        lemma_coords_of(s[k]);
        assert(s.take(k).push(s[k]) =~= s.take(k + 1));
        lemma_rings_from(s, k + 1);
    } else {
        assert(s.take(k) =~= s);
    }
}

proof fn lemma_rings_of(s: Seq<Seq<(Text, Text)>>)
    ensures
        rings_of(JsonView::Array(rings_json(s))) == Ok::<Seq<Seq<(Text, Text)>>, ErrorView>(s),
{
    lemma_rings_from(s, 0);
    assert(s.take(0) =~= seq![]);
}

proof fn lemma_polygons_from(s: Seq<Seq<Seq<(Text, Text)>>>, k: int)
    requires
        0 <= k <= s.len(),
        polygons_written(s),
    ensures
        polygons_from(polygons_json(s), k, s.take(k)) == Ok::<
            Seq<Seq<Seq<(Text, Text)>>>,
            ErrorView,
        >(s),
    decreases s.len() - k,
{
    if k < s.len() {
        assert(s[k].len() > 0);
        lemma_rings_of(s[k]);
        assert(s.take(k).push(s[k]) =~= s.take(k + 1));
        lemma_polygons_from(s, k + 1);
    } else {
        assert(s.take(k) =~= s);
    }
}

proof fn lemma_plain_shape(g: Shape<Text>)
    requires
        written(g),
        !(g is Collection),
    ensures
        plain_shape(kind_name(g), shape_json(g)) == Ok::<Shape<Text>, ErrorView>(g),
{
    reveal(plain_shape);
    lemma_names(g);
    let vals = match g {
        Shape::Point(p) => coord_json(p),
        Shape::LineString(p) => points_json(p),
        Shape::Polygon(r) => rings_json(r),
        Shape::MultiPoint(p) => points_json(p),
        Shape::MultiLineString(l) => rings_json(l),
        Shape::MultiPolygon(p) => polygons_json(p),
        Shape::Collection(_) => seq![],
    };
    lemma_fields(kind_name(g), content_key(g), vals);
    match g {
        Shape::Point(_) => {},
        Shape::LineString(p) => {
            lemma_coords_of(p);
        },
        Shape::Polygon(r) => {
            lemma_rings_of(r);
        },
        Shape::MultiPoint(p) => {
            lemma_coords_of(p);
        },
        Shape::MultiLineString(l) => {
            lemma_rings_of(l);
        },
        Shape::MultiPolygon(p) => {
            lemma_polygons_from(p, 0);
            assert(p.take(0) =~= seq![]);
        },
        Shape::Collection(_) => {},
    }
}

proof fn lemma_json_shape(g: Shape<Text>)
    requires
        written(g),
    ensures
        json_shape(shape_json(g)) == Ok::<Shape<Text>, ErrorView>(g),
    decreases g, 1int,
{
    lemma_names(g);
    match g {
        Shape::Collection(s) => {
            lemma_fields(kind_name(g), content_key(g), shapes_json(s));
            lemma_json_shapes(s, 0);
            assert(s.take(0) =~= seq![]);
        },
        _ => {
            lemma_plain_shape(g);
            let v = shape_json(g)->Object_0[1].1->Array_0;
            lemma_fields(kind_name(g), content_key(g), v);
            assert(shape_json(g) == object_of(kind_name(g), content_key(g), v));
        },
    }
}

proof fn lemma_json_shapes(s: Seq<Shape<Text>>, k: int)
    requires
        0 <= k <= s.len(),
        all_written(s),
    ensures
        json_shapes(shapes_json(s), k, s.take(k)) == Ok::<Seq<Shape<Text>>, ErrorView>(s),
    decreases s, s.len() - k,
{
    lemma_shapes_json(s);
    if k < s.len() {
        lemma_all_written(s, k);
        lemma_json_shape(s[k]);
        assert(s.take(k).push(s[k]) =~= s.take(k + 1));
        lemma_json_shapes(s, k + 1);
    } else {
        assert(s.take(k) =~= s);
    }
}

/// A decimal in its plain form is read as one number.
pub proof fn law_plain_decimals_are_read(s: Text)
    requires
        is_plain_decimal(s),
    ensures
        is_number_text(s),
{
    lemma_plain_decimal(s);
    let i = sign_end(s, 0);
    assert(s.len() > 0 && i == (if s[0] == '-' {
        1int
    } else {
        0int
    }));
    let a = digits_end(s, i);
    lemma_digits_end(s, i);
    if a < s.len() {
        lemma_digits_end(s, a + 1);
    }
    assert(fraction_end(s, a) == s.len());
    assert(exponent_end(s, s.len() as int) == s.len());
}

/// Reading what is written gives the geometry back, where the coordinates are
/// the texts of numbers and every polygon has rings.
pub proof fn law_geojson_round_trip(g: Shape<Text>)
    requires
        written(g),
    ensures
        geojson_shape(shape_text(g)) == Ok::<Shape<Text>, ErrorView>(g),
{
    let t = shape_text(g);
    lemma_holds_whole(t);
    lemma_shape_read(t, 0, g);
    lemma_json_shape(g);
    assert(space_end(t, t.len() as int) == t.len());
}

} // verus!
