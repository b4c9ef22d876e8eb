//! Coordinate reference systems and which of them a point can be carried
//! between.

use vstd::prelude::*;

use crate::error::{internal_error, CenError, CenResult, ErrorView};
use crate::spatial::geometry::Point;
use crate::spatial::plane::Coord;
use crate::text::{decimal, decimal_string, same_text, Text};

verus! {

/// A coordinate reference system.
#[derive(Clone, Debug)]
pub enum Crs {
    /// Longitude and latitude in degrees (EPSG:4326).
    Wgs84,
    /// Metres on the spherical Mercator projection (EPSG:3857).
    WebMercator,
    /// Any other system with an EPSG code.
    Epsg(u32),
    /// A system with a name and a definition.
    Custom { name: String, wkt: String },
}

/// The mathematical value of a [`Crs`].
pub enum CrsView {
    Wgs84,
    WebMercator,
    Epsg(u32),
    Custom { name: Text, wkt: Text },
}

impl View for Crs {
    type V = CrsView;

    open spec fn view(&self) -> CrsView {
        match self {
            Crs::Wgs84 => CrsView::Wgs84,
            Crs::WebMercator => CrsView::WebMercator,
            Crs::Epsg(c) => CrsView::Epsg(*c),
            Crs::Custom { name, wkt } => CrsView::Custom { name: name@, wkt: wkt@ },
        }
    }
}

/// The EPSG code of a system.
pub open spec fn code_of(c: CrsView) -> Option<u32> {
    match c {
        CrsView::Wgs84 => Some(4326),
        CrsView::WebMercator => Some(3857),
        CrsView::Epsg(n) => Some(n),
        CrsView::Custom { .. } => None,
    }
}

/// A system as messages show it.
pub open spec fn shown(c: CrsView) -> Text {
    match c {
        CrsView::Wgs84 => "Wgs84"@,
        CrsView::WebMercator => "WebMercator"@,
        CrsView::Epsg(n) => "Epsg("@ + decimal(n as nat) + ")"@,
        CrsView::Custom { name, .. } => "Custom("@ + name + ")"@,
    }
}

impl Crs {
    /// The EPSG code for this system, if it has one.
    pub fn epsg_code(&self) -> (r: Option<u32>)
        ensures
            r == code_of(self@),
    {
        match self {
            Crs::Wgs84 => Some(4326),
            Crs::WebMercator => Some(3857),
            Crs::Epsg(c) => Some(*c),
            Crs::Custom { .. } => None,
        }
    }

    /// A name for people.
    pub fn name(&self) -> (r: &str)
        ensures
            r@ == (match self@ {
                CrsView::Wgs84 => "WGS84 (EPSG:4326)"@,
                CrsView::WebMercator => "Web Mercator (EPSG:3857)"@,
                CrsView::Epsg(_) => "EPSG (generic)"@,
                CrsView::Custom { name, .. } => name,
            }),
    {
        match self {
            Crs::Wgs84 => "WGS84 (EPSG:4326)",
            Crs::WebMercator => "Web Mercator (EPSG:3857)",
            Crs::Epsg(_) => "EPSG (generic)",
            Crs::Custom { name, .. } => name.as_str(),
        }
    }

    /// The system as messages show it.
    pub fn show(&self) -> (r: String)
        ensures
            r@ == shown(self@),
    {
        let mut out: String = String::new();
        match self {
            Crs::Wgs84 => out.append("Wgs84"),
            Crs::WebMercator => out.append("WebMercator"),
            Crs::Epsg(c) => {
                out.append("Epsg(");
                out.append(decimal_string(*c as u64).as_str());
                out.append(")");
            },
            Crs::Custom { name, .. } => {
                out.append("Custom(");
                out.append(name.as_str());
                out.append(")");
            },
        }
        assert(out@ =~= shown(self@));
        out
    }

    /// Whether two systems are the same.
    pub fn same(&self, other: &Crs) -> (r: bool)
        ensures
            r == (self@ == other@),
    {
        match (self, other) {
            (Crs::Wgs84, Crs::Wgs84) => true,
            (Crs::WebMercator, Crs::WebMercator) => true,
            (Crs::Epsg(a), Crs::Epsg(b)) => *a == *b,
            (Crs::Custom { name, wkt }, Crs::Custom { name: n, wkt: w }) => same_text(
                name.as_str(),
                n.as_str(),
            ) && same_text(wkt.as_str(), w.as_str()),
            _ => false,
        }
    }
}

/// How a point is carried from one system to another.
#[derive(Clone, Copy, Debug, PartialEq, Eq, Structural)]
pub enum Route {
    /// It stays as it is.
    Same,
    /// From degrees to metres.
    ToWebMercator,
    /// From metres to degrees.
    ToWgs84,
}

/// How points are carried between two systems. Only the two systems that are
/// built in have routes, to each other and to themselves.
pub open spec fn route_between(from: CrsView, to: CrsView) -> Result<Route, ErrorView> {
    if from == to && (from == CrsView::Wgs84 || from == CrsView::WebMercator) {
        Ok(Route::Same)
    } else if from == CrsView::Wgs84 && to == CrsView::WebMercator {
        Ok(Route::ToWebMercator)
    } else if from == CrsView::WebMercator && to == CrsView::Wgs84 {
        Ok(Route::ToWgs84)
    } else {
        Err(
            internal_error(
                "unsupported CRS transform: "@ + shown(from) + " -> "@ + shown(to)
                    + " (only Wgs84 <-> WebMercator is implemented)"@,
            ),
        )
    }
}

/// Decides how points are carried between two systems.
pub fn route(from: &Crs, to: &Crs) -> (r: CenResult<Route>)
    ensures
        match r {
            Ok(x) => route_between(from@, to@) == Ok::<Route, ErrorView>(x),
            Err(e) => route_between(from@, to@) == Err::<Route, ErrorView>(e@),
        },
{
    match (from, to) {
        (Crs::Wgs84, Crs::Wgs84) => Ok(Route::Same),
        (Crs::WebMercator, Crs::WebMercator) => Ok(Route::Same),
        (Crs::Wgs84, Crs::WebMercator) => Ok(Route::ToWebMercator),
        (Crs::WebMercator, Crs::Wgs84) => Ok(Route::ToWgs84),
        _ => {
            let mut m: String = String::new();
            m.append("unsupported CRS transform: ");
            m.append(from.show().as_str());
            m.append(" -> ");
            m.append(to.show().as_str());
            m.append(" (only Wgs84 <-> WebMercator is implemented)");
            assert(m@ =~= "unsupported CRS transform: "@ + shown(from@) + " -> "@ + shown(to@)
                + " (only Wgs84 <-> WebMercator is implemented)"@);
            Err(CenError::internal(m.as_str()))
        },
    }
}

/// The arithmetic between degrees and metres, as it is handed in.
pub struct Projection<A, B> {
    /// From degrees to metres.
    pub to_metres: A,
    /// From metres to degrees.
    pub to_degrees: B,
}

/// The arithmetic between degrees and metres.
pub struct ProjectionView {
    pub to_metres: spec_fn(Coord) -> Coord,
    pub to_degrees: spec_fn(Coord) -> Coord,
}

impl<A: Fn(Coord) -> Coord, B: Fn(Coord) -> Coord> Projection<A, B> {
    /// Every point is carried over, and always to the same place.
    pub open spec fn steady(&self) -> bool {
        &&& forall|p: Coord| #[trigger] self.to_metres.requires((p,))
        &&& forall|p: Coord, r: Coord, s: Coord|
            #[trigger] self.to_metres.ensures((p,), r) && #[trigger] self.to_metres.ensures((p,), s)
                ==> r == s
        &&& forall|p: Coord| #[trigger] self.to_degrees.requires((p,))
        &&& forall|p: Coord, r: Coord, s: Coord|
            #[trigger] self.to_degrees.ensures((p,), r) && #[trigger] self.to_degrees.ensures(
                (p,),
                s,
            ) ==> r == s
    }

    fn metres(&self, p: Coord) -> (r: Coord)
        requires
            self.steady(),
        ensures
            r == (self@.to_metres)(p),
    {
        (self.to_metres)(p)
    }

    fn degrees(&self, p: Coord) -> (r: Coord)
        requires
            self.steady(),
        ensures
            r == (self@.to_degrees)(p),
    {
        (self.to_degrees)(p)
    }
}

impl<A: Fn(Coord) -> Coord, B: Fn(Coord) -> Coord> View for Projection<A, B> {
    type V = ProjectionView;

    open spec fn view(&self) -> ProjectionView {
        ProjectionView {
            to_metres: |p: Coord| choose|r: Coord| self.to_metres.ensures((p,), r),
            to_degrees: |p: Coord| choose|r: Coord| self.to_degrees.ensures((p,), r),
        }
    }
}

/// A point, carried from one system to another, or that it cannot be.
pub open spec fn carried(v: ProjectionView, p: Coord, from: CrsView, to: CrsView) -> Result<
    Coord,
    ErrorView,
> {
    match route_between(from, to) {
        Err(e) => Err(e),
        Ok(Route::Same) => Ok(p),
        Ok(Route::ToWebMercator) => Ok((v.to_metres)(p)),
        Ok(Route::ToWgs84) => Ok((v.to_degrees)(p)),
    }
}

/// Carries a point from one system to another.
pub fn transform<A: Fn(Coord) -> Coord, B: Fn(Coord) -> Coord>(
    projection: &Projection<A, B>,
    point: &Point<u64>,
    from: &Crs,
    to: &Crs,
) -> (r: CenResult<Point<u64>>)
    requires
        projection.steady(),
    ensures
        match r {
            Ok(p) => carried(projection@, (point.x, point.y), from@, to@) == Ok::<Coord, ErrorView>(
                (p.x, p.y),
            ),
            Err(e) => carried(projection@, (point.x, point.y), from@, to@) == Err::<
                Coord,
                ErrorView,
            >(e@),
        },
{
    let p: Coord = (point.x, point.y);
    let (x, y) = match route(from, to) {
        Err(e) => {
            return Err(e);
        },
        Ok(Route::Same) => p,
        Ok(Route::ToWebMercator) => projection.metres(p),
        Ok(Route::ToWgs84) => projection.degrees(p),
    };
    Ok(Point { x, y })
}

/// The route back exists exactly where the route there does, and undoes it.
pub proof fn law_routes_go_back(from: CrsView, to: CrsView)
    ensures
        route_between(from, to) is Ok <==> route_between(to, from) is Ok,
        route_between(from, to) == Ok::<Route, ErrorView>(Route::Same) ==> from == to,
        route_between(from, to) is Ok ==> route_between(from, from) is Ok,
        route_between(from, to) == Ok::<Route, ErrorView>(Route::ToWebMercator) <==> route_between(
            to,
            from,
        ) == Ok::<Route, ErrorView>(Route::ToWgs84),
{
}

} // verus!
