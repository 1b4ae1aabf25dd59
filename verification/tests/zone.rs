use cog_engine::zone::{check_zone_kind, GeometryKind, ZoneError};

#[test]
fn only_polygons_make_zones() {
    assert!(check_zone_kind(GeometryKind::Polygon).is_ok());
    assert!(check_zone_kind(GeometryKind::MultiPolygon).is_ok());
    assert_eq!(
        check_zone_kind(GeometryKind::Point),
        Err(ZoneError::Unsupported("POINT".to_string()))
    );
    assert_eq!(
        check_zone_kind(GeometryKind::MultiLineString),
        Err(ZoneError::Unsupported("MULTILINESTRING".to_string()))
    );
    assert_eq!(
        check_zone_kind(GeometryKind::Other),
        Err(ZoneError::Unsupported("geometry".to_string()))
    );
}

#[test]
fn zone_error_messages() {
    assert_eq!(
        ZoneError::Unsupported("POINT".to_string()).message(),
        "unsupported zone type POINT (POLYGON/MULTIPOLYGON only)"
    );
    assert_eq!(
        ZoneError::Parse("bad".to_string()).message(),
        "invalid WKT zone: bad"
    );
    assert_eq!(ZoneError::NonFinite.message(), "zone coordinates must be finite");
}
