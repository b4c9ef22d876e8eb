//! How empty geometries are read.

use vstd::prelude::*;

use crate::error::ErrorView;
use crate::scan::space_end;
use crate::spatial::geometry::Shape;
use crate::spatial::wkt::{
    empty_shape, empty_word, ident_at, marker_end, shape_at, wkt_shape, word_end,
};
use crate::text::{ascii_uppercase, is_letter};
use crate::text_laws::{is_in_any_case, lemma_any_case};

verus! {

/// Whether a word names the kind of a geometry.
pub open spec fn names_kind(word: Seq<char>, g: Shape<Seq<char>>) -> bool {
    match g {
        Shape::Point(_) => is_in_any_case(word, "POINT"@),
        Shape::LineString(_) => is_in_any_case(word, "LINESTRING"@),
        Shape::Polygon(_) => is_in_any_case(word, "POLYGON"@),
        Shape::MultiPoint(_) => is_in_any_case(word, "MULTIPOINT"@),
        Shape::MultiLineString(_) => is_in_any_case(word, "MULTILINESTRING"@),
        Shape::MultiPolygon(_) => is_in_any_case(word, "MULTIPOLYGON"@),
        Shape::Collection(_) => is_in_any_case(word, "GEOMETRYCOLLECTION"@),
    }
}

/// Whether a geometry holds nothing: no points, lines, polygons or parts, a
/// polygon one empty ring, a point no coordinates.
pub open spec fn holds_nothing(g: Shape<Seq<char>>) -> bool {
    match g {
        Shape::Point(p) => p == ("NaN"@, "NaN"@),
        Shape::LineString(s) => s == Seq::<(Seq<char>, Seq<char>)>::empty(),
        Shape::Polygon(r) => r == seq![Seq::<(Seq<char>, Seq<char>)>::empty()],
        Shape::MultiPoint(s) => s == Seq::<(Seq<char>, Seq<char>)>::empty(),
        Shape::MultiLineString(s) => s == Seq::<Seq<(Seq<char>, Seq<char>)>>::empty(),
        Shape::MultiPolygon(s) => s == Seq::<Seq<Seq<(Seq<char>, Seq<char>)>>>::empty(),
        Shape::Collection(s) => s == Seq::<Shape<Seq<char>>>::empty(),
    }
}

proof fn lemma_word_end(t: Seq<char>, i: int, e: int)
    requires
        0 <= i <= e <= t.len(),
        forall|k: int| i <= k < e ==> is_letter(#[trigger] t[k]),
        e < t.len() ==> !is_letter(t[e]),
    ensures
        word_end(t, i) == e,
    decreases e - i,
{
    if i < e {
        assert(is_letter(t[i]));
        lemma_word_end(t, i + 1, e);
    }
}

/// A word for a kind in any case and the word `EMPTY` are read as the geometry
/// of that kind that holds nothing.
pub proof fn law_empty_geometry(word: Seq<char>, g: Shape<Seq<char>>)
    requires
        names_kind(word, g),
        holds_nothing(g),
    ensures
        wkt_shape(word + " EMPTY"@) == Ok::<Shape<Seq<char>>, ErrorView>(g),
{
    reveal_strlit("POINT");
    reveal_strlit("LINESTRING");
    reveal_strlit("POLYGON");
    reveal_strlit("MULTIPOINT");
    reveal_strlit("MULTILINESTRING");
    reveal_strlit("MULTIPOLYGON");
    reveal_strlit("GEOMETRYCOLLECTION");
    reveal_strlit(" EMPTY");
    reveal_strlit("EMPTY");
    let t = word + " EMPTY"@;
    let n = word.len() as int;
    let kind = ascii_uppercase(word);
    lemma_kind(word, g);
    assert forall|k: int| 0 <= k < n implies is_letter(#[trigger] t[k]) && t[k] == word[k] by {
        assert(is_letter(word[k]));
    }
    assert(t[n] == ' ');
    assert(space_end(t, 0) == 0) by {
        assert(is_letter(t[0]));
    }
    lemma_word_end(t, 0, n);
    assert(t.subrange(0, n) =~= word);
    assert(ident_at(t, 0) == Ok::<(Seq<char>, int), ErrorView>((word, n)));
    assert(t[n + 1] == 'E' && t[n + 2] == 'M' && t[n + 3] == 'P' && t[n + 4] == 'T' && t[n + 5]
        == 'Y');
    assert(space_end(t, n + 1) == n + 1);
    assert(space_end(t, n) == n + 1);
    assert(marker_end(t, n) == n + 1);
    assert forall|k: int| n + 1 <= k < n + 6 implies is_letter(#[trigger] t[k]) by {}
    lemma_word_end(t, n + 1, n + 6);
    assert(ascii_uppercase(t.subrange(n + 1, n + 6)) =~= "EMPTY"@);
    assert(empty_word(t, n + 1));
    assert(shape_at(t, 0) == Ok::<(Shape<Seq<char>>, int), ErrorView>((empty_shape(kind), n + 6)));
    assert(space_end(t, n + 6) == n + 6);
}

proof fn lemma_letters(word: Seq<char>, capital: Seq<char>)
    requires
        is_in_any_case(word, capital),
        forall|i: int| 0 <= i < capital.len() ==> 'A' <= #[trigger] capital[i] <= 'Z',
    ensures
        forall|i: int| 0 <= i < word.len() ==> is_letter(#[trigger] word[i]),
        ascii_uppercase(word) == capital,
{
    assert forall|i: int| 0 <= i < word.len() implies is_letter(#[trigger] word[i]) by {
        assert('A' <= capital[i] <= 'Z');
    }
    lemma_any_case(word, capital);
}

proof fn lemma_kind(word: Seq<char>, g: Shape<Seq<char>>)
    requires
        names_kind(word, g),
        holds_nothing(g),
    ensures
        word.len() > 0,
        forall|i: int| 0 <= i < word.len() ==> is_letter(#[trigger] word[i]),
        empty_shape(ascii_uppercase(word)) == g,
{
    reveal_strlit("POINT");
    reveal_strlit("LINESTRING");
    reveal_strlit("POLYGON");
    reveal_strlit("MULTIPOINT");
    reveal_strlit("MULTILINESTRING");
    reveal_strlit("MULTIPOLYGON");
    reveal_strlit("GEOMETRYCOLLECTION");
    assert("LINESTRING"@[0] != "MULTIPOINT"@[0]);
    match g {
        Shape::Point(_) => {
            lemma_letters(word, "POINT"@);
        },
        Shape::LineString(_) => {
            lemma_letters(word, "LINESTRING"@);
        },
        Shape::Polygon(_) => {
            lemma_letters(word, "POLYGON"@);
        },
        Shape::MultiPoint(_) => {
            lemma_letters(word, "MULTIPOINT"@);
        },
        Shape::MultiLineString(_) => {
            lemma_letters(word, "MULTILINESTRING"@);
        },
        Shape::MultiPolygon(_) => {
            lemma_letters(word, "MULTIPOLYGON"@);
        },
        Shape::Collection(_) => {
            lemma_letters(word, "GEOMETRYCOLLECTION"@);
        },
    }
}

} // verus!
