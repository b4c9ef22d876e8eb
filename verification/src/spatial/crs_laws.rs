//! How points are carried between coordinate systems.

use vstd::prelude::*;

use crate::error::ErrorView;
use crate::spatial::crs::{carried, code_of, CrsView, ProjectionView};
use crate::spatial::plane::Coord;

verus! {

/// A point is carried to metres for the web and to degrees for the globe, stays
/// as it is within one of the two, and cannot be carried between others.
pub proof fn law_carried(v: ProjectionView, p: Coord, a: CrsView, b: CrsView)
    ensures
        a is Wgs84 && b is WebMercator ==> carried(v, p, a, b) == Ok::<Coord, ErrorView>((v.to_metres)(p)),
        a is WebMercator && b is Wgs84 ==> carried(v, p, a, b) == Ok::<Coord, ErrorView>((v.to_degrees)(p)),
        a == b && (a is Wgs84 || a is WebMercator) ==> carried(v, p, a, b) == Ok::<Coord, ErrorView>(p),
        a is Epsg || a is Custom || b is Epsg || b is Custom ==> carried(v, p, a, b) is Err,
{
}

/// Where the two ways undo each other, a point carried there and back is where
/// it was.
pub proof fn law_there_and_back(v: ProjectionView, p: Coord, a: CrsView, b: CrsView)
    requires
        forall|q: Coord| #[trigger] (v.to_degrees)((v.to_metres)(q)) == q,
        a is Wgs84,
        b is WebMercator,
    ensures
        carried(v, p, a, b) matches Ok(q) && carried(v, q, b, a) == Ok::<Coord, ErrorView>(p),
{
}

/// The codes of the two known systems are their own; a custom system has none.
pub proof fn law_codes(a: CrsView, n: u32)
    ensures
        code_of(CrsView::Epsg(n)) == Some(n),
        a is Custom <==> code_of(a) is None,
        code_of(CrsView::Wgs84) != code_of(CrsView::WebMercator),
{
}

} // verus!
