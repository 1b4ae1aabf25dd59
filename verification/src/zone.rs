//! Polygon zones: which geometry types a zone may be, and the zone errors.
//! Reading WKT and testing points against the polygon are floating point and
//! belong to the caller.

use vstd::prelude::*;
use crate::text::decimal;

verus! {

/// Error of a WKT zone argument.
#[derive(Debug, Clone, PartialEq, Eq)]
pub enum ZoneError {
    /// The WKT does not parse.
    Parse(String),
    /// A geometry type other than POLYGON or MULTIPOLYGON.
    Unsupported(String),
    /// A coordinate that is NaN or infinite.
    NonFinite,
}

/// The type of a parsed geometry.
#[derive(Clone, Copy, Debug, PartialEq, Eq, Structural)]
pub enum GeometryKind {
    Point,
    LineString,
    Polygon,
    MultiPoint,
    MultiLineString,
    MultiPolygon,
    GeometryCollection,
    /// Any other type the geometry library knows.
    Other,
}

/// The name a geometry type is reported by.
pub open spec fn kind_name(k: GeometryKind) -> Seq<char> {
    match k {
        GeometryKind::Point => "POINT"@,
        GeometryKind::LineString => "LINESTRING"@,
        GeometryKind::MultiPoint => "MULTIPOINT"@,
        GeometryKind::MultiLineString => "MULTILINESTRING"@,
        GeometryKind::GeometryCollection => "GEOMETRYCOLLECTION"@,
        _ => "geometry"@,
    }
}

/// Accepts POLYGON and MULTIPOLYGON (a polygon is kept as a one-element
/// multipolygon); rejects every other type by name.
pub fn check_zone_kind(k: GeometryKind) -> (r: Result<(), ZoneError>)
    ensures
        (k == GeometryKind::Polygon || k == GeometryKind::MultiPolygon) ==> r is Ok,
        !(k == GeometryKind::Polygon || k == GeometryKind::MultiPolygon) ==> (r matches Err(
            ZoneError::Unsupported(n),
        ) && n@ == kind_name(k)),
{
    match k {
        GeometryKind::Polygon => Ok(()),
        GeometryKind::MultiPolygon => Ok(()),
        GeometryKind::Point => Err(ZoneError::Unsupported(String::from_str("POINT"))),
        GeometryKind::LineString => Err(ZoneError::Unsupported(String::from_str("LINESTRING"))),
        GeometryKind::MultiPoint => Err(ZoneError::Unsupported(String::from_str("MULTIPOINT"))),
        GeometryKind::MultiLineString => Err(
            ZoneError::Unsupported(String::from_str("MULTILINESTRING")),
        ),
        GeometryKind::GeometryCollection => Err(
            ZoneError::Unsupported(String::from_str("GEOMETRYCOLLECTION")),
        ),
        GeometryKind::Other => Err(ZoneError::Unsupported(String::from_str("geometry"))),
    }
}

impl ZoneError {
    /// The text of the error.
    pub fn message(&self) -> (m: String)
        ensures
            m@ == match self {
                ZoneError::Parse(e) => "invalid WKT zone: "@ + e@,
                ZoneError::Unsupported(t) => "unsupported zone type "@ + t@
                    + " (POLYGON/MULTIPOLYGON only)"@,
                ZoneError::NonFinite => "zone coordinates must be finite"@,
            },
    {
        match self {
            ZoneError::Parse(e) => {
                let mut m = String::from_str("invalid WKT zone: ");
                m.append(e.as_str());
                m
            },
            ZoneError::Unsupported(t) => {
                let mut m = String::from_str("unsupported zone type ");
                m.append(t.as_str());
                m.append(" (POLYGON/MULTIPOLYGON only)");
                m
            },
            ZoneError::NonFinite => String::from_str("zone coordinates must be finite"),
        }
    }
}

} // verus!
