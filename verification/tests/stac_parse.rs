use cog_engine::json_text::parse_json;
use cog_engine::stac::{
    parse_stac_bytes, parse_stac_page_bytes, search_limit, search_max_rows, RowCap, DEFAULT_MAX_ROWS,
};
use cog_engine::json::{Json, JsonNumber};
use cog_engine::stac::{
    apply_next, build_search_body, parse_stac_page, search_step, BandStats,
    SearchStep, StacAssetRow, StacError,
};

fn number_f64(n: &JsonNumber) -> f64 {
    match n {
        JsonNumber::PosInt(u) => *u as f64,
        JsonNumber::NegInt(i) => *i as f64,
        JsonNumber::Float(bits) => f64::from_bits(*bits),
    }
}

fn bbox_f64(r: &StacAssetRow) -> Option<[f64; 4]> {
    r.bbox.map(|b| [number_f64(&b[0]), number_f64(&b[1]), number_f64(&b[2]), number_f64(&b[3])])
}

/// Bytes → rows.
fn parse_doc(bytes: &[u8]) -> Result<Vec<StacAssetRow>, StacError> {
    parse_stac_bytes(bytes)
}

fn doc_json(text: &str) -> Json {
    parse_json(text.as_bytes()).expect("json")
}

const ITEM: &str = r#"{
  "type": "Feature", "id": "solo", "collection": "c1",
  "bbox": [1.0, 2.0, 3.0, 4.0],
  "properties": { "datetime": "2026-01-01T00:00:00Z" },
  "assets": { "cog": { "href": "a.tif", "type": "image/tiff" } }
}"#;

#[test]
fn parses_single_item() {
    let rows = parse_doc(ITEM.as_bytes()).expect("valid STAC");
    assert_eq!(rows.len(), 1);
    let r = &rows[0];
    assert_eq!(r.item_id, "solo");
    assert_eq!(r.collection.as_deref(), Some("c1"));
    assert_eq!(r.datetime.as_deref(), Some("2026-01-01T00:00:00Z"));
    assert_eq!((r.asset_key.as_str(), r.href.as_str()), ("cog", "a.tif"));
    assert_eq!(r.media_type.as_deref(), Some("image/tiff"));
    assert_eq!(bbox_f64(r), Some([1.0, 2.0, 3.0, 4.0]));
}

#[test]
fn parses_item_collection_with_graceful_degradation() {
    let doc = format!(
        r#"{{"type": "FeatureCollection", "features": [{ITEM},
            {{"type": "Feature", "id": "bare", "properties": {{}},
              "assets": {{"data": {{"href": "b.tif"}}}}}}]}}"#
    );
    let rows = parse_doc(doc.as_bytes()).expect("valid STAC");
    assert_eq!(rows.len(), 2);
    let bare = rows.iter().find(|r| r.item_id == "bare").expect("bare");
    assert_eq!(bare.collection, None);
    assert_eq!(bare.datetime, None);
    assert_eq!(bare.bbox, None);
    assert_eq!(bare.media_type, None);
}

#[test]
fn rejects_invalid_documents() {
    assert!(parse_doc(b"{ not json").is_err());
    assert!(
        parse_doc(br#"{"type": "Unknown"}"#).is_err(),
        "unknown type"
    );
    let rows = parse_doc(
        br#"{"type": "Feature", "id": "x", "properties": {},
             "assets": {"broken": {}, "ok": {"href": "h.tif"}}}"#,
    )
    .expect("valid");
    assert_eq!(rows.len(), 1);
    assert_eq!(rows[0].asset_key, "ok");
}

#[test]
fn three_dimensional_bbox_drops_z() {
    let rows = parse_doc(
        br#"{"type": "Feature", "id": "z", "bbox": [10.0, 20.0, -5.0, 30.0, 40.0, 99.0],
             "properties": {}, "assets": {"a": {"href": "h.tif"}}}"#,
    )
    .expect("valid");
    assert_eq!(bbox_f64(&rows[0]), Some([10.0, 20.0, 30.0, 40.0]));
    let rows = parse_doc(
        br#"{"type": "Feature", "id": "w", "bbox": [1.0, 2.0, 3.0, 4.0, 5.0],
             "properties": {}, "assets": {"a": {"href": "h.tif"}}}"#,
    )
    .expect("valid");
    assert_eq!(rows[0].bbox, None);
}

#[test]
fn raster_bands_statistics_keep_their_places() {
    let doc = br#"{"type": "Feature", "id": "s", "properties": {},
        "assets": {
          "red": {"href": "r.tif", "raster:bands": [
              {"statistics": {"minimum": 1, "maximum": 65535, "mean": 32768.5, "stddev": 18918.9}}]},
          "rgb": {"href": "c.tif", "raster:bands": [
              {"statistics": {"minimum": 0, "maximum": 255, "mean": 100.5}},
              {"statistics": {"stddev": 73.2}},
              {}]},
          "nostats": {"href": "n.tif"}
        }}"#;
    let rows = parse_doc(doc).expect("valid STAC");
    let get = |k: &str| rows.iter().find(|r| r.asset_key == k).expect(k);
    let n = |o: Option<JsonNumber>| o.map(|x| number_f64(&x));

    let bands = get("red").band_stats.as_ref().expect("raster:bands");
    assert_eq!(bands.len(), 1);
    assert_eq!(
        (n(bands[0].min), n(bands[0].max), n(bands[0].mean), n(bands[0].stddev)),
        (Some(1.0), Some(65535.0), Some(32768.5), Some(18918.9))
    );
    let bands = get("rgb").band_stats.as_ref().expect("raster:bands");
    assert_eq!(bands.len(), 3);
    assert_eq!(bands[0].stddev, None);
    assert_eq!(n(bands[1].stddev), Some(73.2));
    assert_eq!(
        bands[2],
        BandStats { min: None, max: None, mean: None, stddev: None }
    );
    assert!(get("nostats").band_stats.is_none());
}

#[test]
fn item_without_id_is_an_error() {
    assert_eq!(
        parse_doc(br#"{"type": "Feature", "assets": {}}"#),
        Err(StacError::Parse("item without id".to_string()))
    );
    assert_eq!(
        parse_doc(br#"{"type": "FeatureCollection"}"#),
        Err(StacError::Parse("FeatureCollection without features".to_string()))
    );
    assert_eq!(
        parse_doc(br#"{"type": "Unknown"}"#),
        Err(StacError::Parse(
            "unsupported document type Some(\"Unknown\") (expected Feature or FeatureCollection)".to_string()
        ))
    );
    assert_eq!(
        parse_doc(br#"{"id": "x"}"#),
        Err(StacError::Parse(
            "unsupported document type None (expected Feature or FeatureCollection)".to_string()
        ))
    );
    assert_eq!(
        StacError::Parse("m".to_string()).message(),
        "invalid STAC document: m"
    );
}

#[test]
fn search_page_rows_and_next_link() {
    let page = doc_json(
        r#"{"type": "FeatureCollection",
            "features": [{"type": "Feature", "id": "i1", "assets": {"a": {"href": "1.tif"}}}],
            "links": [{"rel": "self", "href": "s"},
                      {"rel": "next", "href": "https://api/search?page=2"},
                      {"rel": "next", "href": "ignored"}]}"#,
    );
    let p = parse_stac_page(&page).expect("page");
    assert_eq!(p.rows.len(), 1);
    let next = p.next.expect("next");
    assert_eq!(next.href, "https://api/search?page=2");
    assert_eq!(next.method, "GET");
    assert!(next.body.is_none());
    assert!(!next.merge);

    let single = doc_json(r#"{"type": "Feature", "id": "x"}"#);
    assert_eq!(
        parse_stac_page(&single).unwrap_err(),
        StacError::Parse("search response must be a FeatureCollection".to_string())
    );
    let nohref = doc_json(
        r#"{"type": "FeatureCollection", "features": [], "links": [{"rel": "next"}]}"#,
    );
    assert!(parse_stac_page(&nohref).expect("page").next.is_none());
}

#[test]
fn next_body_merges_over_original() {
    let original = doc_json(r#"{"collections": ["c"], "limit": 10, "datetime": "d"}"#);
    let page = doc_json(
        r#"{"type": "FeatureCollection", "features": [],
            "links": [{"rel": "next", "href": "h", "method": "POST", "merge": true,
                       "body": {"token": "t2", "limit": 20}}]}"#,
    );
    let next = parse_stac_page(&page).unwrap().next.unwrap();
    let (h, m, b) = apply_next(&original, &next);
    assert_eq!((h.as_str(), m.as_str()), ("h", "POST"));
    let b = b.expect("body");
    let fields = match b {
        Json::Object(f) => f,
        _ => panic!("object"),
    };
    let get = |k: &str| fields.iter().find(|(n, _)| n == k).map(|(_, v)| v.clone());
    assert!(matches!(get("limit"), Some(Json::Number(JsonNumber::PosInt(20)))));
    assert!(matches!(get("token"), Some(Json::Str(ref s)) if s == "t2"));
    assert!(matches!(get("datetime"), Some(Json::Str(ref s)) if s == "d"));
    assert!(get("collections").is_some());
    assert_eq!(fields.len(), 4);

    let plain = doc_json(
        r#"{"type": "FeatureCollection", "features": [],
            "links": [{"rel": "next", "href": "h", "method": "POST", "body": {"token": "t3"}}]}"#,
    );
    let next = parse_stac_page(&plain).unwrap().next.unwrap();
    let (_, _, b) = apply_next(&original, &next);
    match b {
        Some(Json::Object(f)) => assert_eq!(f.len(), 1),
        _ => panic!("body"),
    }
}

#[test]
fn search_body_has_only_set_fields() {
    let body = build_search_body(
        Some(&["sentinel-2-l2a".to_string()]),
        None,
        Some("2026-07-01T00:00:00Z/2026-07-12T23:59:59Z"),
        Some(100),
    );
    let fields = match body {
        Json::Object(f) => f,
        _ => panic!("object"),
    };
    let names: Vec<&str> = fields.iter().map(|(k, _)| k.as_str()).collect();
    assert_eq!(names, ["collections", "datetime", "limit"]);
    assert!(matches!(fields[2].1, Json::Number(JsonNumber::PosInt(100))));
    let empty = build_search_body(None, None, None, None);
    assert!(matches!(empty, Json::Object(ref f) if f.is_empty()));
    let b = build_search_body(None, Some([JsonNumber::Float(126f64.to_bits()); 4]), None, None);
    assert!(matches!(b, Json::Object(ref f) if f.len() == 1 && f[0].0 == "bbox"));
}

/// A cap that the caller gave.
fn cap(rows: usize) -> RowCap {
    RowCap { rows, explicit: true }
}

#[test]
fn search_stops_at_the_row_limit_or_without_next() {
    let original = doc_json("{}");
    let page_text = r#"{"type": "FeatureCollection",
        "features": [{"type": "Feature", "id": "a", "assets": {"x": {"href": "1"}, "y": {"href": "2"}}}],
        "links": [{"rel": "next", "href": "p2"}]}"#;
    let mut rows = Vec::new();
    let step = search_step(&mut rows, parse_stac_page(&doc_json(page_text)).unwrap(), cap(3), &original);
    assert_eq!(rows.len(), 2);
    match step {
        SearchStep::Fetch(h, m, b) => {
            assert_eq!((h.as_str(), m.as_str()), ("p2", "GET"));
            assert!(b.is_none());
        }
        _ => panic!("should continue"),
    }
    let step = search_step(&mut rows, parse_stac_page(&doc_json(page_text)).unwrap(), cap(3), &original);
    assert!(matches!(step, SearchStep::Stop));
    assert_eq!(rows.len(), 3);
    assert_eq!(rows[2].asset_key, "x");

    let empty_with_next = r#"{"type": "FeatureCollection", "features": [], "links": [{"rel": "next", "href": "p"}]}"#;
    let mut rows = Vec::new();
    let step = search_step(&mut rows, parse_stac_page(&doc_json(empty_with_next)).unwrap(), cap(10), &original);
    assert!(matches!(step, SearchStep::Stop));
}

#[test]
fn search_arguments_are_checked() {
    assert_eq!(search_limit(None), Ok(None));
    assert_eq!(search_limit(Some(0)), Ok(Some(0)));
    assert_eq!(search_limit(Some(100)), Ok(Some(100)));
    assert_eq!(search_limit(Some(4294967295)), Ok(Some(u32::MAX)));
    let msg = "read_stac_search: limit must be a positive integer".to_string();
    assert_eq!(search_limit(Some(-1)), Err(msg.clone()));
    assert_eq!(search_limit(Some(4294967296)), Err(msg));
    assert_eq!(search_max_rows(None), Ok(RowCap { rows: DEFAULT_MAX_ROWS, explicit: false }));
    assert_eq!(DEFAULT_MAX_ROWS, 1000);
    assert_eq!(search_max_rows(Some(5)), Ok(RowCap { rows: 5, explicit: true }));
    let msg = "read_stac_search: max_rows must be a positive integer".to_string();
    assert_eq!(search_max_rows(Some(0)), Err(msg.clone()));
    assert_eq!(search_max_rows(Some(-3)), Err(msg));
}

const TWO_ROW_PAGE: &str = r#"{"type": "FeatureCollection",
    "features": [{"type": "Feature", "id": "a", "assets": {"x": {"href": "1"}, "y": {"href": "2"}}}],
    "links": [{"rel": "next", "href": "p2"}]}"#;

#[test]
fn default_cap_fails_rather_than_dropping_rows() {
    let original = doc_json("{}");
    let default = RowCap { rows: 3, explicit: false };
    let mut rows = Vec::new();
    let step = search_step(&mut rows, parse_stac_page_bytes(TWO_ROW_PAGE.as_bytes()).unwrap(), default, &original);
    assert!(matches!(step, SearchStep::Fetch(..)));
    let step = search_step(&mut rows, parse_stac_page_bytes(TWO_ROW_PAGE.as_bytes()).unwrap(), default, &original);
    match step {
        SearchStep::TooManyRows(m) => assert_eq!(
            m,
            "read_stac_search: more than 3 rows match and the default row cap would drop some; pass max_rows to truncate or raise the cap"
        ),
        _ => panic!("the default cap never drops rows"),
    }
    assert_eq!(rows.len(), 4);
    // exactly at the default cap: go on, the next page decides
    let mut rows = Vec::new();
    let at_cap = RowCap { rows: 2, explicit: false };
    let step = search_step(&mut rows, parse_stac_page_bytes(TWO_ROW_PAGE.as_bytes()).unwrap(), at_cap, &original);
    assert!(matches!(step, SearchStep::Fetch(..)));
    let last = r#"{"type": "FeatureCollection", "features": []}"#;
    let step = search_step(&mut rows, parse_stac_page_bytes(last.as_bytes()).unwrap(), at_cap, &original);
    assert!(matches!(step, SearchStep::Stop));
    assert_eq!(rows.len(), 2);
}

#[test]
fn bytes_that_are_not_json_are_a_parse_error() {
    match parse_stac_bytes(b"{ not json") {
        Err(StacError::Parse(m)) => assert!(!m.is_empty()),
        _ => panic!("not JSON"),
    }
    match parse_stac_page_bytes(b"[1, 2") {
        Err(StacError::Parse(m)) => assert!(m.contains("EOF")),
        _ => panic!("not JSON"),
    }
    assert!(parse_json(b"").is_err());
}

#[test]
fn parsed_json_keeps_numbers_and_fields() {
    let j = parse_json(br#"{"b": [1, -2, 2.5, 18446744073709551615], "a": "t", "n": null, "t": true}"#).unwrap();
    match j {
        Json::Object(f) => {
            let keys: Vec<&str> = f.iter().map(|(k, _)| k.as_str()).collect();
            assert_eq!(keys, vec!["a", "b", "n", "t"]);
            match &f[1].1 {
                Json::Array(items) => {
                    assert!(matches!(items[0], Json::Number(JsonNumber::PosInt(1))));
                    assert!(matches!(items[1], Json::Number(JsonNumber::NegInt(-2))));
                    assert!(matches!(items[2], Json::Number(JsonNumber::Float(b)) if b == 2.5f64.to_bits()));
                    assert!(matches!(items[3], Json::Number(JsonNumber::PosInt(u64::MAX))));
                }
                _ => panic!("array"),
            }
            assert!(matches!(f[0].1, Json::Str(ref s) if s == "t"));
            assert!(matches!(f[2].1, Json::Null));
            assert!(matches!(f[3].1, Json::Bool(true)));
        }
        _ => panic!("object"),
    }
}
