//! STAC documents → (item, asset) rows, STAC API search pages, the search
//! request body and the next-page request. The bytes are parsed by
//! `json_text::parse_json`; this module reads the parsed value. Missing collection,
//! datetime, bbox or media type read as `None`; an asset without `href` is
//! skipped; an item without `id`, or a document of an unknown type, is an
//! error.

use vstd::prelude::*;
use crate::text::{decimal, push_decimal};
use crate::json_text::{json_error_of, json_of_bytes, parse_json};
use crate::json::{
    copy_json,
    as_array_spec, as_bool, as_bool_spec, as_number, as_number_spec, as_object_spec, as_string,
    as_text_spec, elems_view, field_of, fields_view, get, get_field, get_spec, lemma_array_view,
    lemma_object_view, text_opt, view_opt, view_owned, Json, JsonNumber, JsonView,
};

verus! {

/// `raster:bands` statistics of one band; each field is `None` when absent
/// or not a number.
#[derive(Clone, Copy, Debug, PartialEq, Eq, Structural)]
pub struct BandStats {
    pub min: Option<JsonNumber>,
    pub max: Option<JsonNumber>,
    pub mean: Option<JsonNumber>,
    pub stddev: Option<JsonNumber>,
}

/// One (item, asset) row.
#[derive(Clone, Debug, PartialEq)]
pub struct StacAssetRow {
    pub item_id: String,
    pub collection: Option<String>,
    pub datetime: Option<String>,
    pub asset_key: String,
    pub href: String,
    pub media_type: Option<String>,
    /// `[xmin, ymin, xmax, ymax]`; from a 3D bbox the z values are dropped.
    pub bbox: Option<[JsonNumber; 4]>,
    /// `raster:bands` statistics, one per band, when the asset has them.
    pub band_stats: Option<Vec<BandStats>>,
}

/// A row as mathematics.
pub struct StacRowView {
    pub item_id: Seq<char>,
    pub collection: Option<Seq<char>>,
    pub datetime: Option<Seq<char>>,
    pub asset_key: Seq<char>,
    pub href: Seq<char>,
    pub media_type: Option<Seq<char>>,
    pub bbox: Option<Seq<JsonNumber>>,
    pub band_stats: Option<Seq<BandStats>>,
}

impl View for StacAssetRow {
    type V = StacRowView;

    open spec fn view(&self) -> StacRowView {
        StacRowView {
            item_id: self.item_id@,
            collection: text_opt(self.collection),
            datetime: text_opt(self.datetime),
            asset_key: self.asset_key@,
            href: self.href@,
            media_type: text_opt(self.media_type),
            bbox: match self.bbox {
                Some(b) => Some(b@),
                None => None,
            },
            band_stats: match self.band_stats {
                Some(v) => Some(v@),
                None => None,
            },
        }
    }
}

/// Error of a STAC document.
#[derive(Debug, Clone, PartialEq, Eq)]
pub enum StacError {
    Parse(String),
}

impl StacError {
    /// The text of the error.
    pub fn message(&self) -> (m: String)
        ensures
            m@ == match self {
                StacError::Parse(msg) => "invalid STAC document: "@ + msg@,
            },
    {
        match self {
            StacError::Parse(msg) => {
                let mut m = String::from_str("invalid STAC document: ");
                m.append(msg.as_str());
                m
            },
        }
    }
}

/// Views of a list of rows.
pub open spec fn rows_view(rows: Seq<StacAssetRow>) -> Seq<StacRowView> {
    rows.map_values(|r: StacAssetRow| r@)
}

/// Four numbers, or `None` if any is not a number.
pub open spec fn four_numbers(a: JsonView, b: JsonView, c: JsonView, d: JsonView) -> Option<
    Seq<JsonNumber>,
> {
    match (
        as_number_spec(Some(a)),
        as_number_spec(Some(b)),
        as_number_spec(Some(c)),
        as_number_spec(Some(d)),
    ) {
        (Some(x0), Some(x1), Some(x2), Some(x3)) => Some(seq![x0, x1, x2, x3]),
        _ => None,
    }
}

/// The bbox of an item: four numbers, or six of which the z values are
/// dropped.
pub open spec fn bbox_of(v: Option<JsonView>) -> Option<Seq<JsonNumber>> {
    match as_array_spec(v) {
        Some(a) => if a.len() == 4 {
            four_numbers(a[0], a[1], a[2], a[3])
        } else if a.len() == 6 {
            four_numbers(a[0], a[1], a[3], a[4])
        } else {
            None
        },
        None => None,
    }
}

/// The statistics of one `raster:bands` entry.
pub open spec fn stats_of(b: JsonView) -> BandStats {
    let st = get_spec(Some(b), "statistics"@);
    BandStats {
        min: as_number_spec(get_spec(st, "minimum"@)),
        max: as_number_spec(get_spec(st, "maximum"@)),
        mean: as_number_spec(get_spec(st, "mean"@)),
        stddev: as_number_spec(get_spec(st, "stddev"@)),
    }
}

/// What every row of an item shares.
pub struct ItemInfo {
    pub item_id: Seq<char>,
    pub collection: Option<Seq<char>>,
    pub datetime: Option<Seq<char>>,
    pub bbox: Option<Seq<JsonNumber>>,
}

/// The shared part of an item's rows; `None` without an `id`.
pub open spec fn item_info(item: JsonView) -> Option<ItemInfo> {
    match as_text_spec(get_spec(Some(item), "id"@)) {
        None => None,
        Some(id) => Some(
            ItemInfo {
                item_id: id,
                collection: as_text_spec(get_spec(Some(item), "collection"@)),
                datetime: as_text_spec(get_spec(get_spec(Some(item), "properties"@), "datetime"@)),
                bbox: bbox_of(get_spec(Some(item), "bbox"@)),
            },
        ),
    }
}

/// The row of one asset; `None` without `href`.
pub open spec fn asset_row(info: ItemInfo, key: Seq<char>, asset: JsonView) -> Option<StacRowView> {
    match as_text_spec(get_spec(Some(asset), "href"@)) {
        None => None,
        Some(href) => Some(
            StacRowView {
                item_id: info.item_id,
                collection: info.collection,
                datetime: info.datetime,
                asset_key: key,
                href,
                media_type: as_text_spec(get_spec(Some(asset), "type"@)),
                bbox: info.bbox,
                band_stats: match as_array_spec(get_spec(Some(asset), "raster:bands"@)) {
                    Some(bands) => Some(bands.map_values(|b: JsonView| stats_of(b))),
                    None => None,
                },
            },
        ),
    }
}

/// The rows of a list of assets, in order.
pub open spec fn asset_rows(info: ItemInfo, assets: Seq<(Seq<char>, JsonView)>) -> Seq<StacRowView>
    decreases assets.len(),
{
    if assets.len() == 0 {
        Seq::empty()
    } else {
        let prev = asset_rows(info, assets.drop_last());
        match asset_row(info, assets.last().0, assets.last().1) {
            Some(r) => prev.push(r),
            None => prev,
        }
    }
}

/// The rows of an item; `None` when it has no `id`.
pub open spec fn item_rows_spec(item: JsonView) -> Option<Seq<StacRowView>> {
    match item_info(item) {
        None => None,
        Some(info) => Some(
            match as_object_spec(get_spec(Some(item), "assets"@)) {
                Some(assets) => asset_rows(info, assets),
                None => Seq::empty(),
            },
        ),
    }
}

/// The bbox field of an item.
fn read_bbox(v: Option<&Json>) -> (r: Option<[JsonNumber; 4]>)
    ensures
        match r {
            Some(b) => Some(b@),
            None => None::<Seq<JsonNumber>>,
        } == bbox_of(view_opt(v)),
{
    match v {
        Some(Json::Array(a)) => {
            proof {
                lemma_array_view(*a);
            }
            let ghost av = elems_view(a@);
            let idx: [usize; 4] = if a.len() == 4 {
                [0, 1, 2, 3]
            } else if a.len() == 6 {
                [0, 1, 3, 4]
            } else {
                return None;
            };
            let n0 = as_number(Some(&a[idx[0]]));
            let n1 = as_number(Some(&a[idx[1]]));
            let n2 = as_number(Some(&a[idx[2]]));
            let n3 = as_number(Some(&a[idx[3]]));
            match (n0, n1, n2, n3) {
                (Some(x0), Some(x1), Some(x2), Some(x3)) => {
                    let b = [x0, x1, x2, x3];
                    proof {
                        assert(b@ =~= seq![x0, x1, x2, x3]);
                    }
                    Some(b)
                },
                _ => None,
            }
        },
        _ => None,
    }
}

/// The statistics of one `raster:bands` entry.
fn read_stats(b: &Json) -> (r: BandStats)
    ensures
        r == stats_of(b@),
{
    let st = get_field(b, "statistics");
    BandStats {
        min: as_number(get(st, "minimum")),
        max: as_number(get(st, "maximum")),
        mean: as_number(get(st, "mean")),
        stddev: as_number(get(st, "stddev")),
    }
}

/// The `raster:bands` statistics of an asset.
fn read_band_stats(v: Option<&Json>) -> (r: Option<Vec<BandStats>>)
    ensures
        match r {
            Some(s) => Some(s@),
            None => None::<Seq<BandStats>>,
        } == match as_array_spec(view_opt(v)) {
            Some(bands) => Some(bands.map_values(|b: JsonView| stats_of(b))),
            None => None,
        },
{
    match v {
        Some(Json::Array(a)) => {
            proof {
                lemma_array_view(*a);
            }
            let ghost av = elems_view(a@);
            let mut out: Vec<BandStats> = Vec::new();
            let mut i: usize = 0;
            while i < a.len()
                invariant
                    i <= a@.len(),
                    av == elems_view(a@),
                    out@ =~= av.take(i as int).map_values(|b: JsonView| stats_of(b)),
                decreases a@.len() - i,
            {
                let s = read_stats(&a[i]);
                out.push(s);
                proof {
                    assert(av[i as int] == a@[i as int]@);
                    assert(av.take(i + 1).map_values(|b: JsonView| stats_of(b)) =~= av.take(
                        i as int,
                    ).map_values(|b: JsonView| stats_of(b)).push(stats_of(av[i as int])));
                }
                i = i + 1;
            }
            proof {
                assert(av.take(i as int) =~= av);
            }
            Some(out)
        },
        _ => None,
    }
}

/// The (item, asset) rows of one STAC item, assets in the order of the
/// fields of its `assets` object.
pub fn item_rows(item: &Json) -> (r: Result<Vec<StacAssetRow>, StacError>)
    ensures
        item_rows_spec(item@) is None ==> (r matches Err(StacError::Parse(m)) && m@ == "item without id"@),
        item_rows_spec(item@) matches Some(rows) ==> (r matches Ok(v) && rows_view(v@) == rows),
{
    let item_id = match as_string(get_field(item, "id")) {
        Some(id) => id,
        None => {
            return Err(StacError::Parse(String::from_str("item without id")));
        },
    };
    let collection = as_string(get_field(item, "collection"));
    let datetime = as_string(get(get_field(item, "properties"), "datetime"));
    let bbox = read_bbox(get_field(item, "bbox"));
    let ghost info = item_info(item@)->Some_0;
    let mut out: Vec<StacAssetRow> = Vec::new();
    match get_field(item, "assets") {
        Some(Json::Object(assets)) => {
            proof {
                lemma_object_view(*assets);
            }
            let ghost fv = fields_view(assets@);
            let mut i: usize = 0;
            while i < assets.len()
                invariant
                    i <= assets@.len(),
                    fv == fields_view(assets@),
                    item_id@ == info.item_id,
                    text_opt(collection) == info.collection,
                    text_opt(datetime) == info.datetime,
                    match bbox {
                        Some(b) => Some(b@),
                        None => None::<Seq<JsonNumber>>,
                    } == info.bbox,
                    rows_view(out@) =~= asset_rows(info, fv.take(i as int)),
                decreases assets@.len() - i,
            {
                let ghost prev = out@;
                let asset = &assets[i].1;
                match as_string(get_field(asset, "href")) {
                    Some(href) => {
                        let row = StacAssetRow {
                            item_id: item_id.clone(),
                            collection: collection.clone(),
                            datetime: datetime.clone(),
                            asset_key: assets[i].0.clone(),
                            href,
                            media_type: as_string(get_field(asset, "type")),
                            bbox,
                            band_stats: read_band_stats(get_field(asset, "raster:bands")),
                        };
                        out.push(row);
                    },
                    None => {},
                }
                proof {
                    let t = fv.take(i + 1);
                    assert(t.drop_last() =~= fv.take(i as int));
                    assert(t.last() == fv[i as int]);
                    assert(fv[i as int] == (assets@[i as int].0@, assets@[i as int].1@));
                    assert(rows_view(out@) =~= asset_rows(info, t));
                }
                i = i + 1;
            }
            proof {
                assert(fv.take(i as int) =~= fv);
            }
        },
        _ => {
            proof {
                assert(rows_view(out@) =~= Seq::<StacRowView>::empty());
            }
        },
    }
    Ok(out)
}

/// The rows of the items of a FeatureCollection, in order; `None` when an
/// item has no `id`.
pub open spec fn collection_rows(items: Seq<JsonView>) -> Option<Seq<StacRowView>>
    decreases items.len(),
{
    if items.len() == 0 {
        Some(Seq::empty())
    } else {
        match collection_rows(items.drop_last()) {
            None => None,
            Some(prev) => match item_rows_spec(items.last()) {
                None => None,
                Some(r) => Some(prev + r),
            },
        }
    }
}

/// The `type` of a document.
pub open spec fn doc_type(doc: JsonView) -> Option<Seq<char>> {
    as_text_spec(get_spec(Some(doc), "type"@))
}

/// The Debug rendering of `Some(s)` for a string `s` (`Some("…")`, with the
/// string escaped).
pub uninterp spec fn debug_some_of(s: Seq<char>) -> Seq<char>;

/// `format!("{:?}", Some(s))` for a string `s`.
#[verifier::external_body]
fn debug_some(s: &str) -> (r: String)
    ensures
        r@ == debug_some_of(s@),
{
    format!("{:?}", Some(s))
}

/// The message for a document of another type (`None` when it has no
/// string `type`).
pub open spec fn unsupported_type_message(t: Option<Seq<char>>) -> Seq<char> {
    "unsupported document type "@ + match t {
        Some(s) => debug_some_of(s),
        None => "None"@,
    } + " (expected Feature or FeatureCollection)"@
}

/// The rows of all items of a list, in order; stops at the first item
/// without `id`.
fn items_rows(items: &Vec<Json>) -> (r: Result<Vec<StacAssetRow>, StacError>)
    ensures
        collection_rows(elems_view(items@)) is None ==> (r matches Err(StacError::Parse(m)) && m@
            == "item without id"@),
        collection_rows(elems_view(items@)) matches Some(rows) ==> (r matches Ok(v) && rows_view(v@)
            == rows),
{
    let ghost iv = elems_view(items@);
    let mut out: Vec<StacAssetRow> = Vec::new();
    let mut i: usize = 0;
    while i < items.len()
        invariant
            i <= items@.len(),
            iv == elems_view(items@),
            collection_rows(iv.take(i as int)) matches Some(rows) && rows_view(out@) =~= rows,
        decreases items@.len() - i,
    {
        let ghost t = iv.take(i + 1);
        proof {
            assert(t.drop_last() =~= iv.take(i as int));
            assert(t.last() == items@[i as int]@);
        }
        match item_rows(&items[i]) {
            Err(e) => {
                proof {
                    assert(collection_rows(t) is None);
                    lemma_collection_rows_prefix_none(iv, i + 1);
                }
                return Err(e);
            },
            Ok(mut rows) => {
                let ghost prev = out@;
                let ghost got = rows@;
                out.append(&mut rows);
                proof {
                    assert(rows_view(out@) =~= rows_view(prev) + rows_view(got)) by {
                        assert(out@ =~= prev + got);
                    }
                }
            },
        }
        i = i + 1;
    }
    proof {
        assert(iv.take(i as int) =~= iv);
    }
    Ok(out)
}

/// Once an item lacks an `id`, every longer prefix fails too.
proof fn lemma_collection_rows_prefix_none(items: Seq<JsonView>, n: int)
    requires
        0 <= n <= items.len(),
        collection_rows(items.take(n)) is None,
    ensures
        collection_rows(items) is None,
    decreases items.len() - n,
{
    if n < items.len() {
        let t = items.take(n + 1);
        assert(t.drop_last() =~= items.take(n));
        lemma_collection_rows_prefix_none(items, n + 1);
    } else {
        assert(items.take(n) =~= items);
    }
}

/// Appending an item to a list appends that item's rows to the list's rows,
/// after them: the rows of a collection come feature by feature, in feature
/// order; an item without `id` fails the whole list.
pub proof fn lemma_collection_rows_push(items: Seq<JsonView>, item: JsonView)
    ensures
        collection_rows(items.push(item)) == match (collection_rows(items), item_rows_spec(item)) {
            (Some(a), Some(b)) => Some(a + b),
            _ => None::<Seq<StacRowView>>,
        },
{
    assert(items.push(item).drop_last() =~= items);
}

/// The rows of the first `n` features are a prefix of the rows of all
/// features (so cutting the result at a row cap keeps the earliest
/// features' rows), and the rows of the first feature come first.
pub proof fn lemma_collection_rows_prefix(items: Seq<JsonView>, n: int)
    requires
        0 <= n <= items.len(),
        collection_rows(items) is Some,
    ensures
        collection_rows(items.take(n)) is Some,
        collection_rows(items).unwrap().take(collection_rows(items.take(n)).unwrap().len() as int)
            == collection_rows(items.take(n)).unwrap(),
        collection_rows(items.take(n)).unwrap().len() <= collection_rows(items).unwrap().len(),
        n >= 1 ==> collection_rows(items.take(1)) == item_rows_spec(items[0]),
    decreases items.len() - n,
{
    if n < items.len() {
        lemma_collection_rows_prefix(items, n + 1);
        let t = items.take(n + 1);
        assert(t.drop_last() =~= items.take(n));
        lemma_collection_rows_push(items.take(n), items[n]);
        assert(items.take(n).push(items[n]) =~= t);
        let all = collection_rows(items).unwrap();
        let big = collection_rows(t).unwrap();
        let small = collection_rows(items.take(n)).unwrap();
        assert(big =~= small + item_rows_spec(items[n]).unwrap());
        assert(all.take(small.len() as int) =~= small) by {
            assert(all.take(big.len() as int) == big);
            assert forall|j: int| 0 <= j < small.len() implies all[j] == small[j] by {
                assert(all.take(big.len() as int)[j] == all[j]);
                assert(big[j] == small[j]);
            }
        }
    } else {
        assert(items.take(n) =~= items);
        assert(collection_rows(items).unwrap().take(collection_rows(items).unwrap().len() as int)
            =~= collection_rows(items).unwrap());
    }
    if n >= 1 {
        let one = items.take(1);
        assert(Seq::<JsonView>::empty().push(items[0]) =~= one);
        lemma_collection_rows_push(Seq::<JsonView>::empty(), items[0]);
        assert(collection_rows(Seq::<JsonView>::empty()) == Some(Seq::<StacRowView>::empty()));
        match item_rows_spec(items[0]) {
            Some(r) => {
                assert(Seq::<StacRowView>::empty() + r =~= r);
            },
            None => {},
        }
    }
}

/// What reading a STAC document gives: the rows of an Item, or of every
/// item of an ItemCollection; the error for a collection without `features`,
/// an item without `id`, or a document of another type.
pub open spec fn stac_rows_result(doc: JsonView, r: Result<Vec<StacAssetRow>, StacError>) -> bool {
    &&& doc_type(doc) == Some("Feature"@) ==> match item_rows_spec(doc) {
        None => r matches Err(StacError::Parse(m)) && m@ == "item without id"@,
        Some(rows) => r matches Ok(v) && rows_view(v@) == rows,
    }
    &&& doc_type(doc) == Some("FeatureCollection"@) ==> match as_array_spec(
        get_spec(Some(doc), "features"@),
    ) {
        None => r matches Err(StacError::Parse(m)) && m@ == "FeatureCollection without features"@,
        Some(items) => match collection_rows(items) {
            None => r matches Err(StacError::Parse(m)) && m@ == "item without id"@,
            Some(rows) => r matches Ok(v) && rows_view(v@) == rows,
        },
    }
    &&& doc_type(doc) != Some("Feature"@) && doc_type(doc) != Some("FeatureCollection"@) ==> (
    r matches Err(StacError::Parse(m)) && m@ == unsupported_type_message(doc_type(doc)))
}

/// The rows of a STAC Item ("Feature") or ItemCollection
/// ("FeatureCollection").
pub fn parse_stac(doc: &Json) -> (r: Result<Vec<StacAssetRow>, StacError>)
    ensures
        stac_rows_result(doc@, r),
{
    proof {
        reveal_strlit("Feature");
        reveal_strlit("FeatureCollection");
    }
    let t = as_string(get_field(doc, "type"));
    let feature = String::from_str("Feature");
    let collection = String::from_str("FeatureCollection");
    match t {
        Some(ts) => {
            if ts == feature {
                proof {
                    assert(doc_type(doc@) == Some("Feature"@));
                    assert("Feature"@.len() == 7);
                    assert("FeatureCollection"@.len() == 17);
                    assert("Feature"@ != "FeatureCollection"@);
                }
                return item_rows(doc);
            }
            if ts == collection {
                match get_field(doc, "features") {
                    Some(Json::Array(items)) => {
                        proof {
                            lemma_array_view(*items);
                        }
                        return items_rows(items);
                    },
                    _ => {
                        return Err(StacError::Parse(String::from_str("FeatureCollection without features")));
                    },
                }
            }
            let mut m = String::from_str("unsupported document type ");
            m.append(debug_some(ts.as_str()).as_str());
            m.append(" (expected Feature or FeatureCollection)");
            Err(StacError::Parse(m))
        },
        None => {
            let mut m = String::from_str("unsupported document type ");
            m.append("None");
            m.append(" (expected Feature or FeatureCollection)");
            Err(StacError::Parse(m))
        },
    }
}

/// The rel=next link of a search response: where and how to ask for the
/// next page (GET unless the link says otherwise; a POST link may carry a
/// body, to be merged over the original request body when `merge` is set).
#[derive(Clone, Debug)]
pub struct StacNext {
    pub href: String,
    pub method: String,
    pub body: Option<Json>,
    pub merge: bool,
}

/// A next link as mathematics.
pub struct StacNextView {
    pub href: Seq<char>,
    pub method: Seq<char>,
    pub body: Option<JsonView>,
    pub merge: bool,
}

impl View for StacNext {
    type V = StacNextView;

    open spec fn view(&self) -> StacNextView {
        StacNextView {
            href: self.href@,
            method: self.method@,
            body: view_owned(self.body),
            merge: self.merge,
        }
    }
}

/// One page of a search response: its rows and the next link.
#[derive(Debug)]
pub struct StacPage {
    pub rows: Vec<StacAssetRow>,
    pub next: Option<StacNext>,
}

/// The first link whose `rel` is "next".
pub open spec fn first_next_link(links: Seq<JsonView>) -> Option<JsonView>
    decreases links.len(),
{
    if links.len() == 0 {
        None
    } else if as_text_spec(get_spec(Some(links[0]), "rel"@)) == Some("next"@) {
        Some(links[0])
    } else {
        first_next_link(links.drop_first())
    }
}

/// The next link of a search response: the first rel=next link, if it has
/// an `href`.
pub open spec fn next_of(doc: JsonView) -> Option<StacNextView> {
    match as_array_spec(get_spec(Some(doc), "links"@)) {
        None => None,
        Some(links) => match first_next_link(links) {
            None => None,
            Some(l) => match as_text_spec(get_spec(Some(l), "href"@)) {
                None => None,
                Some(h) => Some(
                    StacNextView {
                        href: h,
                        method: match as_text_spec(get_spec(Some(l), "method"@)) {
                            Some(m) => m,
                            None => "GET"@,
                        },
                        body: get_spec(Some(l), "body"@),
                        merge: match as_bool_spec(get_spec(Some(l), "merge"@)) {
                            Some(b) => b,
                            None => false,
                        },
                    },
                ),
            },
        },
    }
}

proof fn lemma_first_next_link_skip(s: Seq<JsonView>, i: int)
    requires
        0 <= i <= s.len(),
        forall|j: int| 0 <= j < i ==> as_text_spec(get_spec(Some(#[trigger] s[j]), "rel"@)) != Some("next"@),
    ensures
        first_next_link(s) == first_next_link(s.skip(i)),
    decreases i,
{
    if i == 0 {
        assert(s.skip(0) =~= s);
    } else {
        lemma_first_next_link_skip(s, i - 1);
        let t = s.skip(i - 1);
        assert(t.len() > 0);
        assert(t[0] == s[i - 1]);
        assert(t.drop_first() =~= s.skip(i));
        assert(first_next_link(t) == first_next_link(t.drop_first()));
    }
}

/// Reads the next link of a search response.
fn read_next(doc: &Json) -> (r: Option<StacNext>)
    ensures
        match r {
            Some(n) => Some(n@),
            None => None::<StacNextView>,
        } == next_of(doc@),
{
    let links = match get_field(doc, "links") {
        Some(Json::Array(links)) => links,
        _ => {
            return None;
        },
    };
    proof {
        lemma_array_view(*links);
    }
    let ghost lv = elems_view(links@);
    let next = String::from_str("next");
    let mut i: usize = 0;
    while i < links.len()
        invariant
            i <= links@.len(),
            lv == elems_view(links@),
            next@ == "next"@,
            get_spec(Some(doc@), "links"@) == Some(JsonView::Array(lv)),
            forall|j: int| 0 <= j < i ==> as_text_spec(get_spec(Some(#[trigger] lv[j]), "rel"@)) != Some("next"@),
        decreases links@.len() - i,
    {
        let l = &links[i];
        proof {
            assert(lv[i as int] == l@);
        }
        let rel = as_string(get_field(l, "rel"));
        let is_next = match &rel {
            Some(r) => *r == next,
            None => false,
        };
        if is_next {
            proof {
                lemma_first_next_link_skip(lv, i as int);
                assert(lv.skip(i as int).len() > 0);
                assert(lv.skip(i as int)[0] == lv[i as int]);
                assert(first_next_link(lv.skip(i as int)) == Some(lv[i as int]));
            }
            let href = match as_string(get_field(l, "href")) {
                Some(h) => h,
                None => {
                    return None;
                },
            };
            let method = match as_string(get_field(l, "method")) {
                Some(m) => m,
                None => String::from_str("GET"),
            };
            let body = match get_field(l, "body") {
                Some(b) => Some(b.clone()),
                None => None,
            };
            let merge = match as_bool(get_field(l, "merge")) {
                Some(m) => m,
                None => false,
            };
            return Some(StacNext { href, method, body, merge });
        }
        i = i + 1;
    }
    proof {
        lemma_first_next_link_skip(lv, i as int);
        assert(lv.skip(i as int).len() == 0);
    }
    None
}

/// What reading a search response gives: the rows of its items and its next
/// link; the error for a response that is not a FeatureCollection, has no
/// `features`, or holds an item without `id`.
pub open spec fn stac_page_result(doc: JsonView, r: Result<StacPage, StacError>) -> bool {
    &&& doc_type(doc) != Some("FeatureCollection"@) ==> (r matches Err(StacError::Parse(m)) && m@
        == "search response must be a FeatureCollection"@)
    &&& doc_type(doc) == Some("FeatureCollection"@) ==> match as_array_spec(
        get_spec(Some(doc), "features"@),
    ) {
        None => r matches Err(StacError::Parse(m)) && m@ == "FeatureCollection without features"@,
        Some(items) => match collection_rows(items) {
            None => r matches Err(StacError::Parse(m)) && m@ == "item without id"@,
            Some(rows) => r matches Ok(page) && rows_view(page.rows@) == rows && match page.next {
                Some(n) => Some(n@),
                None => None::<StacNextView>,
            } == next_of(doc),
        },
    }
}

/// One page of a STAC API search response (a FeatureCollection): its rows and
/// its rel=next link.
pub fn parse_stac_page(doc: &Json) -> (r: Result<StacPage, StacError>)
    ensures
        stac_page_result(doc@, r),
{
    let t = as_string(get_field(doc, "type"));
    let collection = String::from_str("FeatureCollection");
    let is_collection = match &t {
        Some(ts) => *ts == collection,
        None => false,
    };
    if !is_collection {
        return Err(StacError::Parse(String::from_str("search response must be a FeatureCollection")));
    }
    let rows = match get_field(doc, "features") {
        Some(Json::Array(items)) => {
            proof {
                lemma_array_view(*items);
            }
            items_rows(items)?
        },
        _ => {
            return Err(StacError::Parse(String::from_str("FeatureCollection without features")));
        },
    };
    let next = read_next(doc);
    Ok(StacPage { rows, next })
}

/// Index of the first field named `k`.
pub open spec fn key_index(fields: Seq<(Seq<char>, JsonView)>, k: Seq<char>) -> Option<nat>
    decreases fields.len(),
{
    if fields.len() == 0 {
        None
    } else if fields[0].0 == k {
        Some(0)
    } else {
        match key_index(fields.drop_first(), k) {
            Some(i) => Some(i + 1),
            None => None,
        }
    }
}

/// `map.insert(k, v)` on an object's fields: the value of the field named
/// `k` is replaced, or the field is added at the end.
pub open spec fn obj_insert(fields: Seq<(Seq<char>, JsonView)>, k: Seq<char>, v: JsonView) -> Seq<
    (Seq<char>, JsonView),
> {
    match key_index(fields, k) {
        Some(i) => fields.update(i as int, (k, v)),
        None => fields.push((k, v)),
    }
}

/// The fields of `base` with those of `extra` inserted over them, in order.
pub open spec fn merge_fields(
    base: Seq<(Seq<char>, JsonView)>,
    extra: Seq<(Seq<char>, JsonView)>,
) -> Seq<(Seq<char>, JsonView)>
    decreases extra.len(),
{
    if extra.len() == 0 {
        base
    } else {
        obj_insert(merge_fields(base, extra.drop_last()), extra.last().0, extra.last().1)
    }
}

/// The body of the next request: the link's body, merged over the original
/// body's fields when `merge` is set (a non-object original counts as empty,
/// a non-object link body adds nothing).
pub open spec fn next_body(original: JsonView, next: StacNextView) -> Option<JsonView> {
    match next.body {
        None => None,
        Some(nb) => if next.merge {
            let base = match original {
                JsonView::Object(f) => f,
                _ => Seq::empty(),
            };
            let extra = match nb {
                JsonView::Object(f) => f,
                _ => Seq::empty(),
            };
            Some(JsonView::Object(merge_fields(base, extra)))
        } else {
            Some(nb)
        },
    }
}

proof fn lemma_key_index_skip(s: Seq<(Seq<char>, JsonView)>, i: int, k: Seq<char>)
    requires
        0 <= i <= s.len(),
        forall|j: int| 0 <= j < i ==> (#[trigger] s[j]).0 != k,
    ensures
        key_index(s, k) == match key_index(s.skip(i), k) {
            Some(n) => Some((n + i) as nat),
            None => None,
        },
    decreases i,
{
    if i == 0 {
        assert(s.skip(0) =~= s);
    } else {
        lemma_key_index_skip(s, i - 1, k);
        let t = s.skip(i - 1);
        assert(t.len() > 0);
        assert(t[0] == s[i - 1]);
        assert(t.drop_first() =~= s.skip(i));
    }
}

/// Inserts field `k` with value `v`: replaces the first field named `k`, or
/// appends.
fn insert_field(fields: &mut Vec<(String, Json)>, k: String, v: Json)
    ensures
        fields_view(final(fields)@) == obj_insert(fields_view(old(fields)@), k@, v@),
{
    let ghost fv = fields_view(fields@);
    let mut i: usize = 0;
    while i < fields.len()
        invariant
            i <= fields@.len(),
            fv == fields_view(fields@),
            fields@ == old(fields)@,
            forall|j: int| 0 <= j < i ==> (#[trigger] fv[j]).0 != k@,
        decreases fields@.len() - i,
    {
        if fields[i].0 == k {
            proof {
                lemma_key_index_skip(fv, i as int, k@);
                assert(fv.skip(i as int).len() > 0);
                assert(fv.skip(i as int)[0] == fv[i as int]);
                assert(fv[i as int] == (fields@[i as int].0@, fields@[i as int].1@));
                assert(fv[i as int].0 == k@);
                assert(key_index(fv.skip(i as int), k@) == Some(0nat));
                assert(key_index(fv, k@) == Some(i as nat));
            }
            fields.set(i, (k, v));
            proof {
                assert(fields_view(fields@) =~= fv.update(i as int, (k@, v@)));
            }
            return;
        }
        i = i + 1;
    }
    proof {
        lemma_key_index_skip(fv, i as int, k@);
        assert(fv.skip(i as int).len() == 0);
    }
    fields.push((k, v));
    proof {
        assert(fields_view(fields@) =~= fv.push((k@, v@)));
    }
}

/// The next request of a search: `(href, method, body)`; the body is the
/// link's body, merged over the original request body's fields when the link
/// says `merge` (the link's fields win).
pub fn apply_next(original: &Json, next: &StacNext) -> (r: (String, String, Option<Json>))
    ensures
        r.0@ == next.href@,
        r.1@ == next.method@,
        view_owned(r.2) == next_body(original@, next@),
{
    let body = match &next.body {
        None => None,
        Some(nb) => {
            if next.merge {
                let mut merged: Vec<(String, Json)> = match copy_json(original) {
                    Json::Object(f) => {
                        proof {
                            lemma_object_view(f);
                        }
                        f
                    },
                    _ => Vec::new(),
                };
                let ghost base = fields_view(merged@);
                let ghost extra: Seq<(Seq<char>, JsonView)> = match nb@ {
                    JsonView::Object(f) => f,
                    _ => Seq::empty(),
                };
                match nb {
                    Json::Object(nf) => {
                        proof {
                            lemma_object_view(*nf);
                        }
                        let mut i: usize = 0;
                        while i < nf.len()
                            invariant
                                i <= nf@.len(),
                                extra == fields_view(nf@),
                                fields_view(merged@) == merge_fields(base, extra.take(i as int)),
                            decreases nf@.len() - i,
                        {
                            let k = nf[i].0.clone();
                            let v = nf[i].1.clone();
                            insert_field(&mut merged, k, v);
                            proof {
                                let t = extra.take(i + 1);
                                assert(t.drop_last() =~= extra.take(i as int));
                                assert(t.last() == extra[i as int]);
                                assert(extra[i as int] == (nf@[i as int].0@, nf@[i as int].1@));
                            }
                            i = i + 1;
                        }
                        proof {
                            assert(extra.take(i as int) =~= extra);
                        }
                    },
                    _ => {
                        proof {
                            assert(extra.take(0) =~= Seq::<(Seq<char>, JsonView)>::empty());
                        }
                    },
                }
                proof {
                    lemma_object_view(merged);
                    assert(base == match original@ {
                        JsonView::Object(f) => f,
                        _ => Seq::empty(),
                    });
                    assert(next@.body == Some(nb@));
                    assert(Json::Object(merged)@ == JsonView::Object(merge_fields(base, extra)));
                }
                let out = Json::Object(merged);
                Some(out)
            } else {
                Some(nb.clone())
            }
        },
    };
    (next.href.clone(), next.method.clone(), body)
}

/// Reads a STAC document from its bytes: a document that does not parse is
/// `StacError::Parse` with the parser's message; otherwise as `parse_stac`.
pub fn parse_stac_bytes(bytes: &[u8]) -> (r: Result<Vec<StacAssetRow>, StacError>)
    ensures
        json_of_bytes(bytes@) is None ==> (r matches Err(StacError::Parse(m)) && m@ == json_error_of(
            bytes@,
        )),
        json_of_bytes(bytes@) matches Some(d) ==> stac_rows_result(d, r),
{
    match parse_json(bytes) {
        Ok(doc) => parse_stac(&doc),
        Err(m) => Err(StacError::Parse(m)),
    }
}

/// Reads one search response from its bytes: a response that does not parse
/// is `StacError::Parse` with the parser's message; otherwise as
/// `parse_stac_page`.
pub fn parse_stac_page_bytes(bytes: &[u8]) -> (r: Result<StacPage, StacError>)
    ensures
        json_of_bytes(bytes@) is None ==> (r matches Err(StacError::Parse(m)) && m@ == json_error_of(
            bytes@,
        )),
        json_of_bytes(bytes@) matches Some(d) ==> stac_page_result(d, r),
{
    match parse_json(bytes) {
        Ok(doc) => parse_stac_page(&doc),
        Err(m) => Err(StacError::Parse(m)),
    }
}

/// The fields of a search request body: those given, in the order
/// collections, bbox, datetime, limit.
pub open spec fn search_body_fields(
    collections: Option<Seq<Seq<char>>>,
    bbox: Option<Seq<JsonNumber>>,
    datetime: Option<Seq<char>>,
    limit: Option<u32>,
) -> Seq<(Seq<char>, JsonView)> {
    let f0 = Seq::<(Seq<char>, JsonView)>::empty();
    let f1 = match collections {
        Some(c) => f0.push(("collections"@, JsonView::Array(c.map_values(|x: Seq<char>| JsonView::Str(x))))),
        None => f0,
    };
    let f2 = match bbox {
        Some(b) => f1.push(("bbox"@, JsonView::Array(b.map_values(|n: JsonNumber| JsonView::Number(n))))),
        None => f1,
    };
    let f3 = match datetime {
        Some(d) => f2.push(("datetime"@, JsonView::Str(d))),
        None => f2,
    };
    match limit {
        Some(l) => f3.push(("limit"@, JsonView::Number(JsonNumber::PosInt(l as u64)))),
        None => f3,
    }
}

/// Looking a field up after appending one: an earlier field of that name
/// wins, else the appended field if it has the name.
proof fn lemma_field_of_push(f: Seq<(Seq<char>, JsonView)>, k: Seq<char>, v: JsonView, key: Seq<char>)
    ensures
        field_of(f.push((k, v)), key) == if field_of(f, key) is Some {
            field_of(f, key)
        } else if k == key {
            Some(v)
        } else {
            None
        },
    decreases f.len(),
{
    let g = f.push((k, v));
    if f.len() == 0 {
        assert(g.drop_first() =~= Seq::<(Seq<char>, JsonView)>::empty());
    } else {
        assert(g.drop_first() =~= f.drop_first().push((k, v)));
        lemma_field_of_push(f.drop_first(), k, v, key);
    }
}

/// The search body holds each given parameter under its own name, as given:
/// `collections` the names in order, `bbox` the four numbers in the given
/// order, `datetime` the text, `limit` the number; a parameter not given has
/// no field.
pub proof fn lemma_search_body_fields(
    collections: Option<Seq<Seq<char>>>,
    bbox: Option<Seq<JsonNumber>>,
    datetime: Option<Seq<char>>,
    limit: Option<u32>,
)
    ensures
        ({
            let fs = search_body_fields(collections, bbox, datetime, limit);
            &&& bbox is Some && bbox->0.len() == 4 ==> field_of(fs, "bbox"@) == Some(
                JsonView::Array(
                    seq![
                        JsonView::Number(bbox->0[0]),
                        JsonView::Number(bbox->0[1]),
                        JsonView::Number(bbox->0[2]),
                        JsonView::Number(bbox->0[3]),
                    ],
                ),
            )
            &&& bbox is None ==> field_of(fs, "bbox"@) is None
            &&& collections is Some ==> field_of(fs, "collections"@) == Some(
                JsonView::Array(
                    Seq::new(collections->0.len(), |i: int| JsonView::Str(collections->0[i])),
                ),
            )
            &&& collections is None ==> field_of(fs, "collections"@) is None
            &&& datetime is Some ==> field_of(fs, "datetime"@) == Some(JsonView::Str(datetime->0))
            &&& datetime is None ==> field_of(fs, "datetime"@) is None
            &&& limit is Some ==> field_of(fs, "limit"@) == Some(
                JsonView::Number(JsonNumber::PosInt(limit->0 as u64)),
            )
            &&& limit is None ==> field_of(fs, "limit"@) is None
        }),
{
    reveal_strlit("bbox");
    reveal_strlit("collections");
    reveal_strlit("datetime");
    reveal_strlit("limit");
    let f0 = Seq::<(Seq<char>, JsonView)>::empty();
    let f1 = match collections {
        Some(c) => f0.push(("collections"@, JsonView::Array(c.map_values(|t: Seq<char>| JsonView::Str(t))))),
        None => f0,
    };
    let f2 = match bbox {
        Some(b) => f1.push(("bbox"@, JsonView::Array(b.map_values(|v: JsonNumber| JsonView::Number(v))))),
        None => f1,
    };
    let f3 = match datetime {
        Some(d) => f2.push(("datetime"@, JsonView::Str(d))),
        None => f2,
    };
    let keys = seq!["collections"@, "bbox"@, "datetime"@, "limit"@];
    assert("collections"@.len() == 11 && "bbox"@.len() == 4 && "datetime"@.len() == 8
        && "limit"@.len() == 5);
    assert forall|key: Seq<char>| #[trigger] keys.contains(key) implies field_of(
        search_body_fields(collections, bbox, datetime, limit),
        key,
    ) == (if key == "collections"@ && collections is Some {
        Some(JsonView::Array(collections->0.map_values(|t: Seq<char>| JsonView::Str(t))))
    } else if key == "bbox"@ && bbox is Some {
        Some(JsonView::Array(bbox->0.map_values(|v: JsonNumber| JsonView::Number(v))))
    } else if key == "datetime"@ && datetime is Some {
        Some(JsonView::Str(datetime->0))
    } else if key == "limit"@ && limit is Some {
        Some(JsonView::Number(JsonNumber::PosInt(limit->0 as u64)))
    } else {
        None
    }) by {
        assert(field_of(f0, key) is None);
        match collections {
            Some(c) => {
                lemma_field_of_push(f0, "collections"@, JsonView::Array(c.map_values(|t: Seq<char>| JsonView::Str(t))), key);
            },
            None => {},
        }
        match bbox {
            Some(b) => {
                lemma_field_of_push(f1, "bbox"@, JsonView::Array(b.map_values(|v: JsonNumber| JsonView::Number(v))), key);
            },
            None => {},
        }
        match datetime {
            Some(d) => {
                lemma_field_of_push(f2, "datetime"@, JsonView::Str(d), key);
            },
            None => {},
        }
        match limit {
            Some(l) => {
                lemma_field_of_push(f3, "limit"@, JsonView::Number(JsonNumber::PosInt(l as u64)), key);
            },
            None => {},
        }
    }
    assert(keys.contains("collections"@)) by { assert(keys[0] == "collections"@); }
    assert(keys.contains("bbox"@)) by { assert(keys[1] == "bbox"@); }
    assert(keys.contains("datetime"@)) by { assert(keys[2] == "datetime"@); }
    assert(keys.contains("limit"@)) by { assert(keys[3] == "limit"@); }
    if bbox is Some && bbox->0.len() == 4 {
        let b = bbox->0;
        assert(b.map_values(|v: JsonNumber| JsonView::Number(v)) =~= seq![
            JsonView::Number(b[0]),
            JsonView::Number(b[1]),
            JsonView::Number(b[2]),
            JsonView::Number(b[3]),
        ]);
    }
    if collections is Some {
        let c = collections->0;
        assert(c.map_values(|t: Seq<char>| JsonView::Str(t)) =~= Seq::new(
            c.len(),
            |i: int| JsonView::Str(c[i]),
        ));
    }
}

/// The POST /search request body (STAC API Item Search): only the parameters
/// that are set become fields.
pub fn build_search_body(
    collections: Option<&[String]>,
    bbox: Option<[JsonNumber; 4]>,
    datetime: Option<&str>,
    limit: Option<u32>,
) -> (r: Json)
    ensures
        r@ == JsonView::Object(
            search_body_fields(
                match collections {
                    Some(c) => Some(c@.map_values(|x: String| x@)),
                    None => None,
                },
                match bbox {
                    Some(b) => Some(b@),
                    None => None,
                },
                match datetime {
                    Some(d) => Some(d@),
                    None => None,
                },
                limit,
            ),
        ),
        r@ is Object,
        bbox is Some ==> field_of(r@->Object_0, "bbox"@) == Some(
            JsonView::Array(
                seq![
                    JsonView::Number(bbox->0@[0]),
                    JsonView::Number(bbox->0@[1]),
                    JsonView::Number(bbox->0@[2]),
                    JsonView::Number(bbox->0@[3]),
                ],
            ),
        ),
        bbox is None ==> field_of(r@->Object_0, "bbox"@) is None,
        collections is Some ==> field_of(r@->Object_0, "collections"@) == Some(
            JsonView::Array(Seq::new(collections->0@.len(), |i: int| JsonView::Str(collections->0@[i]@))),
        ),
        collections is None ==> field_of(r@->Object_0, "collections"@) is None,
        datetime is Some ==> field_of(r@->Object_0, "datetime"@) == Some(JsonView::Str(datetime->0@)),
        datetime is None ==> field_of(r@->Object_0, "datetime"@) is None,
        limit is Some ==> field_of(r@->Object_0, "limit"@) == Some(
            JsonView::Number(JsonNumber::PosInt(limit->0 as u64)),
        ),
        limit is None ==> field_of(r@->Object_0, "limit"@) is None,
{
    let ghost cv = match collections {
        Some(c) => Some(c@.map_values(|x: String| x@)),
        None => None,
    };
    let ghost bv = match bbox {
        Some(b) => Some(b@),
        None => None,
    };
    let ghost dv = match datetime {
        Some(d) => Some(d@),
        None => None,
    };
    proof {
        lemma_search_body_fields(cv, bv, dv, limit);
        if collections is Some {
            let c = collections->0@;
            assert(Seq::new(c.map_values(|x: String| x@).len(), |i: int| JsonView::Str(c.map_values(|x: String| x@)[i]))
                =~= Seq::new(c.len(), |i: int| JsonView::Str(c[i]@)));
        }
    }
    let mut body: Vec<(String, Json)> = Vec::new();
    let ghost f0 = fields_view(body@);
    proof {
        assert(f0 =~= Seq::<(Seq<char>, JsonView)>::empty());
    }
    match collections {
        Some(c) => {
            let mut items: Vec<Json> = Vec::new();
            let mut i: usize = 0;
            while i < c.len()
                invariant
                    i <= c@.len(),
                    elems_view(items@) =~= c@.take(i as int).map_values(|x: String| x@).map_values(
                        |x: Seq<char>| JsonView::Str(x),
                    ),
                decreases c@.len() - i,
            {
                let ghost prev = items@;
                let e = Json::Str(c[i].clone());
                proof {
                    assert(e@ == JsonView::Str(c@[i as int]@));
                }
                items.push(e);
                proof {
                    assert(elems_view(items@) =~= elems_view(prev).push(e@));
                    assert(c@.take(i + 1).map_values(|x: String| x@).map_values(|x: Seq<char>| JsonView::Str(x))
                        =~= c@.take(i as int).map_values(|x: String| x@).map_values(|x: Seq<char>| JsonView::Str(x)).push(
                        JsonView::Str(c@[i as int]@),
                    ));
                }
                i = i + 1;
            }
            proof {
                assert(c@.take(i as int) =~= c@);
                lemma_array_view(items);
            }
            let ghost before = body@;
            body.push((String::from_str("collections"), Json::Array(items)));
            proof {
                assert(fields_view(body@) =~= fields_view(before).push(
                    ("collections"@, JsonView::Array(c@.map_values(|x: String| x@).map_values(|x: Seq<char>| JsonView::Str(x)))),
                ));
            }
        },
        None => {},
    }
    match bbox {
        Some(b) => {
            let mut items: Vec<Json> = Vec::new();
            let mut i: usize = 0;
            while i < 4
                invariant
                    i <= 4,
                    elems_view(items@) =~= b@.take(i as int).map_values(|n: JsonNumber| JsonView::Number(n)),
                decreases 4 - i,
            {
                let ghost prev = items@;
                let e = Json::Number(b[i]);
                proof {
                    assert(e@ == JsonView::Number(b@[i as int]));
                }
                items.push(e);
                proof {
                    assert(elems_view(items@) =~= elems_view(prev).push(e@));
                    assert(b@.take(i + 1).map_values(|n: JsonNumber| JsonView::Number(n)) =~= b@.take(
                        i as int,
                    ).map_values(|n: JsonNumber| JsonView::Number(n)).push(JsonView::Number(b@[i as int])));
                }
                i = i + 1;
            }
            proof {
                assert(b@.take(4) =~= b@);
                lemma_array_view(items);
            }
            let ghost before = body@;
            body.push((String::from_str("bbox"), Json::Array(items)));
            proof {
                assert(fields_view(body@) =~= fields_view(before).push(
                    ("bbox"@, JsonView::Array(b@.map_values(|n: JsonNumber| JsonView::Number(n)))),
                ));
            }
        },
        None => {},
    }
    match datetime {
        Some(d) => {
            let ghost before = body@;
            body.push((String::from_str("datetime"), Json::Str(String::from_str(d))));
            proof {
                assert(fields_view(body@) =~= fields_view(before).push(("datetime"@, JsonView::Str(d@))));
            }
        },
        None => {},
    }
    match limit {
        Some(l) => {
            let ghost before = body@;
            body.push((String::from_str("limit"), Json::Number(JsonNumber::PosInt(l as u64))));
            proof {
                assert(fields_view(body@) =~= fields_view(before).push(
                    ("limit"@, JsonView::Number(JsonNumber::PosInt(l as u64))),
                ));
            }
        },
        None => {},
    }
    proof {
        lemma_object_view(body);
    }
    Json::Object(body)
}

/// What a search does after a page arrived.
#[derive(Debug)]
pub enum SearchStep {
    /// The result is complete.
    Stop,
    /// Request the next page: `(href, method, body)`.
    Fetch(String, String, Option<Json>),
    /// The search fails: more rows match than the default cap, and without
    /// an explicit `max_rows` no row may be dropped. The message says so.
    TooManyRows(String),
}

/// The client's row cap of a search: the number of rows, and whether the
/// caller gave it (`max_rows`) or it is the default. Only a given cap may cut
/// the result; reaching past the default cap is an error.
#[derive(Clone, Copy, Debug, PartialEq, Eq)]
pub struct RowCap {
    pub rows: usize,
    pub explicit: bool,
}

/// The message of a search that matches more rows than the default cap.
pub open spec fn too_many_rows_message(cap: usize) -> Seq<char> {
    "read_stac_search: more than "@ + decimal(cap as nat)
        + " rows match and the default row cap would drop some; pass max_rows to truncate or raise the cap"@
}

/// Takes in one search page: its rows are appended to `rows`. With a cap that
/// the caller gave, the rows are cut at it and the search stops once it is
/// reached; with the default cap, going past it is `TooManyRows` (no row is
/// dropped silently). Otherwise the search continues with the page's next
/// link unless there is none or the page was empty (an empty page with a next
/// link would loop).
pub fn search_step(rows: &mut Vec<StacAssetRow>, page: StacPage, cap: RowCap, original: &Json) -> (r:
    SearchStep)
    ensures
        cap.explicit && old(rows)@.len() + page.rows@.len() >= cap.rows ==> {
            &&& final(rows)@ == (old(rows)@ + page.rows@).take(cap.rows as int)
            &&& r is Stop
        },
        !cap.explicit && old(rows)@.len() + page.rows@.len() > cap.rows ==> {
            &&& final(rows)@ == old(rows)@ + page.rows@
            &&& r matches SearchStep::TooManyRows(m) && m@ == too_many_rows_message(cap.rows)
        },
        (if cap.explicit {
            old(rows)@.len() + page.rows@.len() < cap.rows
        } else {
            old(rows)@.len() + page.rows@.len() <= cap.rows
        }) ==> {
            &&& final(rows)@ == old(rows)@ + page.rows@
            &&& (page.next is None || page.rows@.len() == 0) ==> r is Stop
            &&& (page.next is Some && page.rows@.len() > 0) ==> (r matches SearchStep::Fetch(h, m, b)
                && h@ == page.next->Some_0.href@ && m@ == page.next->Some_0.method@ && view_owned(b)
                == next_body(original@, page.next->Some_0@))
        },
{
    let StacPage { rows: mut page_rows, next } = page;
    let got = page_rows.len();
    rows.append(&mut page_rows);
    if cap.explicit && rows.len() >= cap.rows {
        rows.truncate(cap.rows);
        return SearchStep::Stop;
    }
    if !cap.explicit && rows.len() > cap.rows {
        let mut m = String::from_str("read_stac_search: more than ");
        push_decimal(&mut m, cap.rows as u64);
        m.append(" rows match and the default row cap would drop some; pass max_rows to truncate or raise the cap");
        return SearchStep::TooManyRows(m);
    }
    match next {
        None => SearchStep::Stop,
        Some(n) => {
            if got == 0 {
                SearchStep::Stop
            } else {
                let (h, m, b) = apply_next(original, &n);
                SearchStep::Fetch(h, m, b)
            }
        },
    }
}

/// Row cap of a search when `max_rows` is not given.
pub const DEFAULT_MAX_ROWS: usize = 1000;

/// The `limit` argument of a search (the server's page size hint): any
/// value that fits in `u32`, or none.
pub fn search_limit(v: Option<i64>) -> (r: Result<Option<u32>, String>)
    ensures
        v is None ==> r == Ok::<Option<u32>, String>(None),
        v matches Some(n) ==> (0 <= n <= u32::MAX <==> r is Ok),
        v matches Some(n) ==> (r matches Ok(l) ==> l == Some(n as u32)),
        r matches Err(m) ==> m@ == "read_stac_search: limit must be a positive integer"@,
{
    match v {
        None => Ok(None),
        Some(n) => {
            if 0 <= n && n <= 0xffff_ffff {
                Ok(Some(n as u32))
            } else {
                Err(String::from_str("read_stac_search: limit must be a positive integer"))
            }
        },
    }
}

/// The `max_rows` argument of a search (the client's row cap): a positive
/// count that the caller gave, or `DEFAULT_MAX_ROWS` as the default cap.
pub fn search_max_rows(v: Option<i64>) -> (r: Result<RowCap, String>)
    ensures
        v is None ==> r == Ok::<RowCap, String>(RowCap { rows: DEFAULT_MAX_ROWS, explicit: false }),
        v matches Some(n) ==> (0 < n <= usize::MAX <==> r is Ok),
        v matches Some(n) ==> (r matches Ok(c) ==> c.rows == n && c.explicit),
        r matches Err(m) ==> m@ == "read_stac_search: max_rows must be a positive integer"@,
{
    match v {
        None => Ok(RowCap { rows: DEFAULT_MAX_ROWS, explicit: false }),
        Some(n) => {
            if 0 < n && (n as u64) <= (usize::MAX as u64) {
                Ok(RowCap { rows: n as usize, explicit: true })
            } else {
                Err(String::from_str("read_stac_search: max_rows must be a positive integer"))
            }
        },
    }
}

/// The value of the last field named `key`.
pub open spec fn last_field_of(fields: Seq<(Seq<char>, JsonView)>, key: Seq<char>) -> Option<JsonView>
    decreases fields.len(),
{
    if fields.len() == 0 {
        None
    } else if fields.last().0 == key {
        Some(fields.last().1)
    } else {
        last_field_of(fields.drop_last(), key)
    }
}

/// A found index is in range and holds the key.
pub proof fn lemma_key_index_valid(s: Seq<(Seq<char>, JsonView)>, k: Seq<char>)
    ensures
        key_index(s, k) matches Some(i) ==> i < s.len() && s[i as int].0 == k,
        key_index(s, k) is None ==> forall|j: int| 0 <= j < s.len() ==> (#[trigger] s[j]).0 != k,
    decreases s.len(),
{
    if s.len() > 0 {
        lemma_key_index_valid(s.drop_first(), k);
        assert forall|j: int| 0 < j < s.len() implies (#[trigger] s[j]).0 == s.drop_first()[j - 1].0 by {}
    }
}

/// Inserting a field sets that field and leaves every other field's value.
pub proof fn lemma_field_of_insert(
    f: Seq<(Seq<char>, JsonView)>,
    k: Seq<char>,
    v: JsonView,
    k2: Seq<char>,
)
    ensures
        field_of(obj_insert(f, k, v), k2) == if k2 == k {
            Some(v)
        } else {
            field_of(f, k2)
        },
    decreases f.len(),
{
    let g = obj_insert(f, k, v);
    if f.len() == 0 {
        assert(g == seq![(k, v)]);
        assert(g.drop_first().len() == 0);
        assert(field_of(g, k2) == if g[0].0 == k2 { Some(g[0].1) } else { field_of(g.drop_first(), k2) });
    } else if f[0].0 == k {
        assert(key_index(f, k) == Some(0nat));
        assert(g[0] == (k, v));
        assert(g.drop_first() =~= f.drop_first());
        assert(field_of(g, k2) == if g[0].0 == k2 { Some(g[0].1) } else { field_of(g.drop_first(), k2) });
        assert(field_of(f, k2) == if f[0].0 == k2 { Some(f[0].1) } else { field_of(f.drop_first(), k2) });
    } else {
        let t = f.drop_first();
        lemma_field_of_insert(t, k, v, k2);
        lemma_key_index_valid(t, k);
        let gt = obj_insert(t, k, v);
        match key_index(t, k) {
            Some(i) => {
                assert(key_index(f, k) == Some((i + 1) as nat));
                assert(g =~= f.update((i + 1) as int, (k, v)));
                assert(g.drop_first() =~= gt);
            },
            None => {
                assert(key_index(f, k) is None);
                assert(g.drop_first() =~= gt);
            },
        }
        assert(g[0] == f[0]);
        assert(g.len() > 0);
        assert(field_of(g, k2) == if g[0].0 == k2 { Some(g[0].1) } else { field_of(g.drop_first(), k2) });
        assert(field_of(f, k2) == if f[0].0 == k2 { Some(f[0].1) } else { field_of(t, k2) });
    }
}

/// Merging: a field of the link body wins over the original body's field of
/// the same name; the original's other fields stay.
pub proof fn lemma_merge_fields(
    base: Seq<(Seq<char>, JsonView)>,
    extra: Seq<(Seq<char>, JsonView)>,
    k: Seq<char>,
)
    ensures
        field_of(merge_fields(base, extra), k) == match last_field_of(extra, k) {
            Some(v) => Some(v),
            None => field_of(base, k),
        },
    decreases extra.len(),
{
    if extra.len() > 0 {
        lemma_merge_fields(base, extra.drop_last(), k);
        lemma_field_of_insert(merge_fields(base, extra.drop_last()), extra.last().0, extra.last().1, k);
    }
}

} // verus!
