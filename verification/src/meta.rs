//! Tile-table model: per-IFD header values → levels with their tile grids,
//! the integer accessors of the metadata, and the row-major tile listing.
//! Georeference arithmetic (origins, pixel sizes, bounding boxes in world
//! units) is floating point and lives with the caller; this module decides
//! whether a georeference exists and computes the pixel extent of each tile.

use vstd::prelude::*;
use crate::text::{decimal, push_decimal};
use crate::tile_key::{
    lemma_tile_key_roundtrip, pack_tile_key, tile_key_fields, tile_key_value, MAX_TILE_INDEX,
};

verus! {

/// Tile grid of one level (the full-resolution IFD or an overview).
#[derive(Clone, Copy, Debug, PartialEq, Eq, Structural)]
pub struct LevelMeta {
    pub level: u8,
    pub image_width: u32,
    pub image_height: u32,
    pub tile_width: u32,
    pub tile_height: u32,
    pub tiles_x: u32,
    pub tiles_y: u32,
}

/// The header values of one IFD that the model reads.
#[derive(Clone, Copy, Debug, PartialEq, Eq)]
pub struct IfdInfo {
    pub image_width: u32,
    pub image_height: u32,
    pub tile_width: Option<u32>,
    pub tile_height: Option<u32>,
    /// Tiles across and down, as the TIFF reader counts them.
    pub tile_count: Option<(usize, usize)>,
    pub samples_per_pixel: u16,
    /// Number of values of ModelPixelScale, if the tag is present.
    pub model_pixel_scale_len: Option<usize>,
    /// Number of values of ModelTiepoint, if the tag is present.
    pub model_tiepoint_len: Option<usize>,
    /// ProjectedCSTypeGeoKey, if the GeoKey directory has it.
    pub projected_type: Option<u16>,
    /// GeographicTypeGeoKey, if the GeoKey directory has it.
    pub geographic_type: Option<u16>,
}

/// Integer part of a georeference: the EPSG code, projected before
/// geographic. The origin and pixel size are floating point and kept by the
/// caller alongside.
#[derive(Clone, Copy, Debug, PartialEq, Eq, Structural)]
pub struct GeoKeys {
    pub epsg: Option<u32>,
}

/// Metadata of a COG: levels in IFD order (0 = full resolution), the
/// georeference if the first IFD has one, and the band count.
#[derive(Clone, Debug, PartialEq)]
pub struct CogMeta {
    pub levels: Vec<LevelMeta>,
    pub georef: Option<GeoKeys>,
    pub num_bands: u32,
}

/// One tile of the listing. `cols`/`rows` are the physical TIFF tile size,
/// not clipped at the image edge.
#[derive(Clone, Copy, Debug, PartialEq, Eq, Structural)]
pub struct TileRow {
    pub id: u64,
    pub level: u8,
    pub tile_x: u32,
    pub tile_y: u32,
    pub cols: u32,
    pub rows: u32,
}

/// Errors of the metadata model.
#[derive(Debug, PartialEq, Eq)]
pub enum MetaError {
    /// An IFD without tile structure: not a COG.
    NotTiled { level: usize },
    /// Beyond what a tile key can hold (level 255, 24-bit tile indices).
    KeyOverflow(String),
    /// The TIFF reader failed.
    Tiff(String),
    /// A bounding-box filter that is not valid.
    InvalidFilter(String),
    /// A bounding-box filter on a COG without georeference.
    FilterWithoutGeoref,
    /// A world-coordinate lookup on a COG without georeference.
    NotGeoreferenced,
}

/// The message of a level-count overflow at IFD `i`.
pub open spec fn level_overflow_message(i: nat) -> Seq<char> {
    "more than 256 levels ("@ + decimal(i) + ")"@
}

/// The message of a tile grid too large for 24-bit indices.
pub open spec fn grid_overflow_message(tx: nat, ty: nat) -> Seq<char> {
    "tile grid "@ + decimal(tx) + "x"@ + decimal(ty) + " exceeds 24-bit index"@
}

/// What IFD `i` contributes: its level, or the error it raises.
pub open spec fn level_result(info: IfdInfo, i: nat) -> Result<LevelMeta, MetaError> {
    if i > 255 {
        Err(MetaError::KeyOverflow(arbitrary()))
    } else if info.tile_width is None || info.tile_height is None || info.tile_count is None {
        Err(MetaError::NotTiled { level: i as usize })
    } else {
        let tx = (info.tile_count->0).0 as u32;
        let ty = (info.tile_count->0).1 as u32;
        if tx > MAX_TILE_INDEX + 1 || ty > MAX_TILE_INDEX + 1 {
            Err(MetaError::KeyOverflow(arbitrary()))
        } else {
            Ok(LevelMeta {
                level: i as u8,
                image_width: info.image_width,
                image_height: info.image_height,
                tile_width: info.tile_width->0,
                tile_height: info.tile_height->0,
                tiles_x: tx,
                tiles_y: ty,
            })
        }
    }
}

/// The error value IFD `i` raises, message included.
pub open spec fn level_error_matches(info: IfdInfo, i: nat, e: MetaError) -> bool {
    match level_result(info, i) {
        Ok(_) => false,
        Err(MetaError::NotTiled { level }) => e == MetaError::NotTiled { level },
        Err(_) => if i > 255 {
            e matches MetaError::KeyOverflow(m) && m@ == level_overflow_message(i)
        } else {
            e matches MetaError::KeyOverflow(m) && m@ == grid_overflow_message(
                ((info.tile_count->0).0 as u32) as nat,
                ((info.tile_count->0).1 as u32) as nat,
            )
        },
    }
}

/// A level whose tile indices fit in tile keys.
pub open spec fn level_valid(l: LevelMeta) -> bool {
    l.tiles_x <= MAX_TILE_INDEX + 1 && l.tiles_y <= MAX_TILE_INDEX + 1
}

/// Whether the first IFD carries a usable georeference, and its EPSG code.
pub open spec fn georef_of(info: IfdInfo) -> Option<GeoKeys> {
    match (info.model_pixel_scale_len, info.model_tiepoint_len) {
        (Some(s), Some(t)) => if s < 2 || t < 6 {
            None
        } else {
            Some(
                GeoKeys {
                    epsg: if info.projected_type is Some {
                        Some(info.projected_type->0 as u32)
                    } else if info.geographic_type is Some {
                        Some(info.geographic_type->0 as u32)
                    } else {
                        None
                    },
                },
            )
        },
        _ => None,
    }
}

/// The levels of a metadata value can all be keyed.
pub open spec fn meta_valid(m: CogMeta) -> bool {
    forall|i: int| 0 <= i < m.levels@.len() ==> level_valid(#[trigger] m.levels@[i])
}

/// The georeference decision for the first IFD.
pub fn georef_from_ifd(info: &IfdInfo) -> (g: Option<GeoKeys>)
    ensures
        g == georef_of(*info),
        g is Some <==> (info.model_pixel_scale_len is Some && info.model_pixel_scale_len->0 >= 2
            && info.model_tiepoint_len is Some && info.model_tiepoint_len->0 >= 6),
        g is Some && info.projected_type is Some ==> g.unwrap().epsg == Some(
            info.projected_type->0 as u32,
        ),
        g is Some && info.projected_type is None && info.geographic_type is Some ==> g.unwrap().epsg
            == Some(info.geographic_type->0 as u32),
        g is Some && info.projected_type is None && info.geographic_type is None ==> g.unwrap().epsg
            is None,
{
    match (info.model_pixel_scale_len, info.model_tiepoint_len) {
        (Some(s), Some(t)) => {
            if s < 2 || t < 6 {
                None
            } else {
                let epsg = match info.projected_type {
                    Some(p) => Some(p as u32),
                    None => match info.geographic_type {
                        Some(g) => Some(g as u32),
                        None => None,
                    },
                };
                Some(GeoKeys { epsg })
            }
        },
        _ => None,
    }
}

/// Builds the tile grid of every IFD, in IFD order; fails on the first IFD
/// that is not tiled or whose level or grid does not fit a tile key.
pub fn build_levels(ifds: &[IfdInfo]) -> (r: Result<Vec<LevelMeta>, MetaError>)
    ensures
        r matches Ok(levels) ==> {
            &&& levels@.len() == ifds@.len()
            &&& forall|i: int| 0 <= i < ifds@.len() ==> level_result(#[trigger] ifds@[i], i as nat) == Ok::<LevelMeta, MetaError>(levels@[i])
            &&& forall|i: int| 0 <= i < ifds@.len() ==> {
                let l = #[trigger] levels@[i];
                let info = ifds@[i];
                &&& l.level == i
                &&& l.image_width == info.image_width
                &&& l.image_height == info.image_height
                &&& info.tile_width == Some(l.tile_width)
                &&& info.tile_height == Some(l.tile_height)
                &&& info.tile_count matches Some(c) && l.tiles_x == c.0 as u32 && l.tiles_y == c.1 as u32
            }
        },
        r matches Err(e) ==> exists|i: int|
            0 <= i < ifds@.len() && level_error_matches(#[trigger] ifds@[i], i as nat, e) && forall|j: int|
                0 <= j < i ==> level_result(#[trigger] ifds@[j], j as nat) is Ok,
        (forall|i: int| 0 <= i < ifds@.len() ==> level_result(#[trigger] ifds@[i], i as nat) is Ok)
            ==> r is Ok,
{
    let mut levels: Vec<LevelMeta> = Vec::new();
    let mut i: usize = 0;
    while i < ifds.len()
        invariant
            i <= ifds@.len(),
            levels@.len() == i,
            forall|j: int| 0 <= j < i ==> level_result(#[trigger] ifds@[j], j as nat) == Ok::<LevelMeta, MetaError>(levels@[j]),
        decreases ifds@.len() - i,
    {
        let info = ifds[i];
        if i > 255 {
            let mut m = String::from_str("more than 256 levels (");
            push_decimal(&mut m, i as u64);
            m.append(")");
            let e = MetaError::KeyOverflow(m);
            proof {
                assert(level_error_matches(ifds@[i as int], i as nat, e));
            }
            return Err(e);
        }
        let level = i as u8;
        let (tile_width, tile_height) = match (info.tile_width, info.tile_height) {
            (Some(w), Some(h)) => (w, h),
            _ => {
                return Err(MetaError::NotTiled { level: i });
            },
        };
        let (cx, cy) = match info.tile_count {
            Some(c) => c,
            None => {
                return Err(MetaError::NotTiled { level: i });
            },
        };
        let tiles_x = cx as u32;
        let tiles_y = cy as u32;
        if tiles_x > MAX_TILE_INDEX + 1 || tiles_y > MAX_TILE_INDEX + 1 {
            let mut m = String::from_str("tile grid ");
            push_decimal(&mut m, tiles_x as u64);
            m.append("x");
            push_decimal(&mut m, tiles_y as u64);
            m.append(" exceeds 24-bit index");
            let e = MetaError::KeyOverflow(m);
            proof {
                assert(level_error_matches(ifds@[i as int], i as nat, e));
            }
            return Err(e);
        }
        levels.push(
            LevelMeta {
                level,
                image_width: info.image_width,
                image_height: info.image_height,
                tile_width,
                tile_height,
                tiles_x,
                tiles_y,
            },
        );
        i = i + 1;
    }
    Ok(levels)
}

/// Reads the header values of every IFD into metadata: levels in IFD order,
/// the georeference of the first IFD, and its band count (SamplesPerPixel;
/// zero without IFDs).
pub fn build_meta(ifds: &[IfdInfo]) -> (r: Result<CogMeta, MetaError>)
    ensures
        r matches Ok(m) ==> {
            &&& m.levels@.len() == ifds@.len()
            &&& forall|i: int| 0 <= i < ifds@.len() ==> level_result(#[trigger] ifds@[i], i as nat) == Ok::<LevelMeta, MetaError>(m.levels@[i])
            &&& forall|i: int| 0 <= i < ifds@.len() ==> {
                let l = #[trigger] m.levels@[i];
                let info = ifds@[i];
                &&& l.level == i
                &&& l.image_width == info.image_width
                &&& l.image_height == info.image_height
                &&& info.tile_width == Some(l.tile_width)
                &&& info.tile_height == Some(l.tile_height)
                &&& info.tile_count matches Some(c) && l.tiles_x == c.0 as u32 && l.tiles_y == c.1 as u32
            }
            &&& m.num_bands == if ifds@.len() > 0 { ifds@[0].samples_per_pixel as u32 } else { 0 }
            &&& m.georef == if ifds@.len() > 0 { georef_of(ifds@[0]) } else { None }
            &&& meta_valid(m)
        },
        r matches Err(e) ==> exists|i: int|
            0 <= i < ifds@.len() && level_error_matches(#[trigger] ifds@[i], i as nat, e) && forall|j: int|
                0 <= j < i ==> level_result(#[trigger] ifds@[j], j as nat) is Ok,
        r is Ok <==> forall|i: int| 0 <= i < ifds@.len() ==> level_result(#[trigger] ifds@[i], i as nat) is Ok,
{
    let num_bands: u32 = if ifds.len() > 0 { ifds[0].samples_per_pixel as u32 } else { 0 };
    let georef = if ifds.len() > 0 { georef_from_ifd(&ifds[0]) } else { None };
    match build_levels(ifds) {
        Ok(levels) => {
            let m = CogMeta { levels, georef, num_bands };
            proof {
                assert forall|i: int| 0 <= i < m.levels@.len() implies level_valid(#[trigger] m.levels@[i]) by {
                    assert(level_result(ifds@[i], i as nat) == Ok::<LevelMeta, MetaError>(m.levels@[i]));
                }
            }
            Ok(m)
        },
        Err(e) => {
            proof {
                let i = choose|i: int|
                    0 <= i < ifds@.len() && level_error_matches(#[trigger] ifds@[i], i as nat, e) && forall|j: int|
                        0 <= j < i ==> level_result(#[trigger] ifds@[j], j as nat) is Ok;
                assert(level_result(ifds@[i], i as nat) is Err);
            }
            Err(e)
        },
    }
}

/// The level of IFD `i` is that IFD's own grid: level number `i`, the IFD's
/// image width and height (not swapped), its tile width and height, and its
/// tile counts across and down (as `u32`). It exists exactly when `i` fits a
/// level number, the IFD has a tile size and tile counts, and the counts fit
/// 24-bit tile indices.
pub proof fn lemma_level_of_ifd(info: IfdInfo, i: nat)
    ensures
        level_result(info, i) is Ok <==> {
            &&& i <= 255
            &&& info.tile_width is Some
            &&& info.tile_height is Some
            &&& info.tile_count matches Some(c) && c.0 as u32 <= MAX_TILE_INDEX + 1 && c.1 as u32
                <= MAX_TILE_INDEX + 1
        },
        level_result(info, i) matches Ok(l) ==> {
            &&& l.level == i
            &&& l.image_width == info.image_width
            &&& l.image_height == info.image_height
            &&& info.tile_width == Some(l.tile_width)
            &&& info.tile_height == Some(l.tile_height)
            &&& info.tile_count matches Some(c) && l.tiles_x == c.0 as u32 && l.tiles_y == c.1 as u32
        },
{
}

/// The georeference of an IFD exists exactly when it has a ModelPixelScale
/// of at least 2 values and a ModelTiepoint of at least 6; its EPSG code is
/// the ProjectedCSTypeGeoKey whenever that key is present (with or without a
/// GeographicTypeGeoKey), else the GeographicTypeGeoKey, and none only when
/// both keys are absent.
pub proof fn lemma_georef_cases(info: IfdInfo)
    ensures
        georef_of(info) is Some <==> (info.model_pixel_scale_len is Some && info.model_pixel_scale_len->0 >= 2
            && info.model_tiepoint_len is Some && info.model_tiepoint_len->0 >= 6),
        georef_of(info) is Some && info.projected_type is Some ==> georef_of(info).unwrap().epsg == Some(
            info.projected_type->0 as u32,
        ),
        georef_of(info) is Some && info.projected_type is None && info.geographic_type is Some ==> georef_of(info).unwrap().epsg
            == Some(info.geographic_type->0 as u32),
        georef_of(info) is Some && info.projected_type is None && info.geographic_type is None ==> georef_of(info).unwrap().epsg
            is None,
{
}

/// The "EPSG:<code>" name of a code.
pub open spec fn crs_name(epsg: u32) -> Seq<char> {
    "EPSG:"@ + decimal(epsg as nat)
}

/// The EPSG code of the georeference, if both exist.
pub open spec fn meta_epsg(m: CogMeta) -> Option<u32> {
    match m.georef {
        Some(g) => g.epsg,
        None => None,
    }
}

/// The tile of level `l` at `(x, y)`.
pub open spec fn row_of(l: LevelMeta, x: nat, y: nat) -> TileRow {
    TileRow {
        id: tile_key_value(l.level, x as u32, y as u32) as u64,
        level: l.level,
        tile_x: x as u32,
        tile_y: y as u32,
        cols: l.tile_width,
        rows: l.tile_height,
    }
}

/// Row `y` of level `l`, left to right.
pub open spec fn line_rows(l: LevelMeta, y: nat) -> Seq<TileRow> {
    Seq::new(l.tiles_x as nat, |x: int| row_of(l, x as nat, y))
}

/// The first `ny` rows of level `l`, top to bottom.
pub open spec fn level_rows(l: LevelMeta, ny: nat) -> Seq<TileRow>
    decreases ny,
{
    if ny == 0 {
        Seq::empty()
    } else {
        level_rows(l, (ny - 1) as nat) + line_rows(l, (ny - 1) as nat)
    }
}

/// Every tile of every level: level by level, row by row, left to right.
pub open spec fn all_rows(levels: Seq<LevelMeta>) -> Seq<TileRow>
    decreases levels.len(),
{
    if levels.len() == 0 {
        Seq::empty()
    } else {
        all_rows(levels.drop_last()) + level_rows(levels.last(), levels.last().tiles_y as nat)
    }
}

/// Number of tiles of a level.
pub open spec fn tile_count_of(l: LevelMeta) -> nat {
    l.tiles_x as nat * l.tiles_y as nat
}

/// Number of tiles of all the levels together.
pub open spec fn tile_total(levels: Seq<LevelMeta>) -> nat
    decreases levels.len(),
{
    if levels.len() == 0 {
        0
    } else {
        tile_total(levels.drop_last()) + tile_count_of(levels.last())
    }
}

/// Tile number `k` of level `l` in reading order: column `k % tiles_x`, row
/// `k / tiles_x`, keyed by its level and indices, with the level's tile size.
pub open spec fn level_tile(l: LevelMeta, k: nat) -> TileRow {
    let x = k % (l.tiles_x as nat);
    let y = k / (l.tiles_x as nat);
    TileRow {
        id: tile_key_value(l.level, x as u32, y as u32) as u64,
        level: l.level,
        tile_x: x as u32,
        tile_y: y as u32,
        cols: l.tile_width,
        rows: l.tile_height,
    }
}

/// Tile number `k` of a level lies inside the level's grid: its column is
/// below `tiles_x` and its row below `tiles_y`.
pub proof fn lemma_level_tile_in_grid(l: LevelMeta, k: nat)
    requires
        k < tile_count_of(l),
    ensures
        level_tile(l, k).tile_x < l.tiles_x,
        level_tile(l, k).tile_y < l.tiles_y,
        level_tile(l, k).tile_x as int + level_tile(l, k).tile_y as int * l.tiles_x as int == k,
{
    let tx = l.tiles_x as int;
    let ty = l.tiles_y as int;
    assert(tx > 0) by (nonlinear_arith)
        requires
            k < tx * ty,
            tx >= 0,
            ty >= 0,
    ;
    vstd::arithmetic::div_mod::lemma_fundamental_div_mod(k as int, tx);
    let x = k as int % tx;
    let y = k as int / tx;
    assert(0 <= x < tx);
    assert(y >= 0) by {
        vstd::arithmetic::div_mod::lemma_div_pos_is_pos(k as int, tx);
    }
    assert(y < ty) by (nonlinear_arith)
        requires
            k == tx * y + x,
            0 <= x,
            k < tx * ty,
            tx > 0,
    ;
    assert(k == x + y * tx) by (nonlinear_arith)
        requires
            k == tx * y + x,
    ;
    assert(level_tile(l, k).tile_x as int == x);
    assert(level_tile(l, k).tile_y as int == y);
}

/// The rows of one level are its `tiles_x * tiles_y` tiles in reading order.
proof fn lemma_level_rows_index(l: LevelMeta, ny: nat)
    ensures
        level_rows(l, ny).len() == ny * l.tiles_x as nat,
        forall|k: nat| k < ny * l.tiles_x as nat ==> #[trigger] level_rows(l, ny)[k as int]
            == level_tile(l, k),
    decreases ny,
{
    if ny > 0 {
        let tx = l.tiles_x as nat;
        lemma_level_rows_index(l, (ny - 1) as nat);
        let a = level_rows(l, (ny - 1) as nat);
        let b = line_rows(l, (ny - 1) as nat);
        assert(level_rows(l, ny) == a + b);
        assert((ny - 1) as nat * tx + tx == ny * tx) by (nonlinear_arith)
            requires
                ny > 0,
        ;
        assert forall|k: nat| k < ny * tx implies #[trigger] level_rows(l, ny)[k as int]
            == level_tile(l, k) by {
            if k < a.len() {
                assert(level_rows(l, ny)[k as int] == a[k as int]);
            } else {
                let x = k - a.len();
                assert(level_rows(l, ny)[k as int] == b[x]);
                vstd::arithmetic::div_mod::lemma_fundamental_div_mod_converse(
                    k as int,
                    tx as int,
                    ny - 1,
                    x,
                );
            }
        }
    } else {
        assert(0 * l.tiles_x as nat == 0) by (nonlinear_arith);
    }
}

/// The listing holds every tile of every level exactly once, level by level
/// in IFD order, and within a level in reading order: the tiles of level
/// `li` follow those of the levels before it, and tile number `k` of the
/// level is at column `k % tiles_x` and row `k / tiles_x` (so each row of the
/// grid is walked left to right before the next row down).
pub proof fn lemma_tile_listing(levels: Seq<LevelMeta>)
    ensures
        all_rows(levels).len() == tile_total(levels),
        forall|li: int|
            0 <= li < levels.len() ==> tile_total(#[trigger] levels.take(li)) + tile_count_of(
                levels[li],
            ) <= tile_total(levels),
        forall|li: int, k: nat|
            #![trigger level_tile(levels[li], k)]
            0 <= li < levels.len() && k < tile_count_of(levels[li]) ==> all_rows(
                levels,
            )[tile_total(levels.take(li)) + k as int] == level_tile(levels[li], k),
    decreases levels.len(),
{
    if levels.len() > 0 {
        let init = levels.drop_last();
        let l = levels.last();
        lemma_tile_listing(init);
        lemma_level_rows_index(l, l.tiles_y as nat);
        let a = all_rows(init);
        let b = level_rows(l, l.tiles_y as nat);
        assert(all_rows(levels) == a + b);
        assert(l.tiles_y as nat * l.tiles_x as nat == tile_count_of(l)) by (nonlinear_arith);
        assert forall|li: int|
            0 <= li < levels.len() implies tile_total(#[trigger] levels.take(li)) + tile_count_of(
                levels[li],
            ) <= tile_total(levels) by {
            if li < levels.len() - 1 {
                assert(levels.take(li) =~= init.take(li));
                assert(tile_total(init.take(li)) + tile_count_of(init[li]) <= tile_total(init));
            } else {
                assert(levels.take(li) =~= init);
            }
        }
        assert forall|li: int, k: nat|
            #![trigger level_tile(levels[li], k)]
            0 <= li < levels.len() && k < tile_count_of(levels[li]) implies all_rows(
                levels,
            )[tile_total(levels.take(li)) + k as int] == level_tile(levels[li], k) by {
            if li < levels.len() - 1 {
                assert(levels.take(li) =~= init.take(li));
                assert(levels[li] == init[li]);
                assert(level_tile(init[li], k) == level_tile(levels[li], k));
                assert(tile_total(init.take(li)) + k < a.len());
                assert(all_rows(levels)[tile_total(levels.take(li)) + k as int] == a[tile_total(init.take(li)) + k as int]);
            } else {
                assert(levels.take(li) =~= init);
                assert(levels[li] == l);
                assert(k < b.len());
                assert(all_rows(levels)[tile_total(levels.take(li)) + k as int] == b[k as int]);
            }
        }
    }
}

/// Pixel extent of tile `(tx, ty)` of a level: columns `[x0, x1)` and rows
/// `[y0, y1)`, clipped at the image edge.
pub open spec fn tile_extent(l: LevelMeta, tx: nat, ty: nat) -> (int, int, int, int) {
    let x1 = (tx + 1) * l.tile_width;
    let y1 = (ty + 1) * l.tile_height;
    (
        tx * l.tile_width,
        if x1 < l.image_width { x1 } else { l.image_width as int },
        ty * l.tile_height,
        if y1 < l.image_height { y1 } else { l.image_height as int },
    )
}

impl CogMeta {
    /// The CRS as "EPSG:<code>"; `None` without georeference or EPSG code.
    pub fn crs(&self) -> (r: Option<String>)
        ensures
            meta_epsg(*self) is None ==> r is None,
            meta_epsg(*self) matches Some(e) ==> (r matches Some(s) && s@ == crs_name(e)),
    {
        match self.georef {
            Some(g) => match g.epsg {
                Some(e) => {
                    let mut s = String::from_str("EPSG:");
                    push_decimal(&mut s, e as u64);
                    Some(s)
                },
                None => None,
            },
            None => None,
        }
    }

    /// Width of level 0 in pixels; `None` without levels.
    pub fn width(&self) -> (r: Option<u32>)
        ensures
            r == (if self.levels@.len() > 0 { Some(self.levels@[0].image_width) } else { None::<u32> }),
    {
        if self.levels.len() > 0 {
            Some(self.levels[0].image_width)
        } else {
            None
        }
    }

    /// Height of level 0 in pixels; `None` without levels.
    pub fn height(&self) -> (r: Option<u32>)
        ensures
            r == (if self.levels@.len() > 0 { Some(self.levels@[0].image_height) } else { None::<u32> }),
    {
        if self.levels.len() > 0 {
            Some(self.levels[0].image_height)
        } else {
            None
        }
    }

    /// The EPSG code, 0 when there is none.
    pub fn srid(&self) -> (r: u32)
        ensures
            r == match meta_epsg(*self) {
                Some(e) => e,
                None => 0,
            },
    {
        match self.georef {
            Some(g) => match g.epsg {
                Some(e) => e,
                None => 0,
            },
            None => 0,
        }
    }

    /// The nodata value of the 1-based `band`: the file's nodata for a band
    /// in range, `None` otherwise.
    pub fn band_nodata<N: Copy>(&self, band: u32, nodata: Option<N>) -> (r: Option<N>)
        ensures
            r == (if 1 <= band <= self.num_bands { nodata } else { None::<N> }),
    {
        if band == 0 || band > self.num_bands {
            return None;
        }
        nodata
    }
}

/// Pixel extent of tile `(tx, ty)` of level `l`: `(x0, x1, y0, y1)`, the
/// right and bottom edges clipped at the image.
pub fn tile_pixel_extent(l: &LevelMeta, tx: u32, ty: u32) -> (r: (u64, u64, u64, u64))
    ensures
        (r.0 as int, r.1 as int, r.2 as int, r.3 as int) == tile_extent(*l, tx as nat, ty as nat),
{
    proof {
        assert((tx as int + 1) * (l.tile_width as int) <= 0x1_0000_0000 * 0xFFFF_FFFF) by (nonlinear_arith)
            requires
                0 <= tx < 0x1_0000_0000,
                0 <= l.tile_width < 0x1_0000_0000,
        ;
        assert((ty as int + 1) * (l.tile_height as int) <= 0x1_0000_0000 * 0xFFFF_FFFF) by (nonlinear_arith)
            requires
                0 <= ty < 0x1_0000_0000,
                0 <= l.tile_height < 0x1_0000_0000,
        ;
        assert(tx as int * l.tile_width as int <= (tx as int + 1) * (l.tile_width as int)) by (nonlinear_arith)
            requires 0 <= tx, 0 <= l.tile_width;
        assert(ty as int * l.tile_height as int <= (ty as int + 1) * (l.tile_height as int)) by (nonlinear_arith)
            requires 0 <= ty, 0 <= l.tile_height;
    }
    let x0 = tx as u64 * l.tile_width as u64;
    let x1 = (tx as u64 + 1) * l.tile_width as u64;
    let y0 = ty as u64 * l.tile_height as u64;
    let y1 = (ty as u64 + 1) * l.tile_height as u64;
    let x1 = if x1 < l.image_width as u64 { x1 } else { l.image_width as u64 };
    let y1 = if y1 < l.image_height as u64 { y1 } else { l.image_height as u64 };
    (x0, x1, y0, y1)
}

/// Lists every tile: level by level (IFD order), row by row, left to right,
/// each with its tile key as id.
pub fn enumerate_tiles(meta: &CogMeta) -> (rows: Vec<TileRow>)
    requires
        meta_valid(*meta),
    ensures
        rows@ == all_rows(meta.levels@),
        rows@.len() == tile_total(meta.levels@),
        forall|li: int|
            0 <= li < meta.levels@.len() ==> tile_total(#[trigger] meta.levels@.take(li))
                + tile_count_of(meta.levels@[li]) <= rows@.len(),
        forall|li: int, k: nat|
            #![trigger level_tile(meta.levels@[li], k)]
            0 <= li < meta.levels@.len() && k < tile_count_of(meta.levels@[li]) ==> rows@[tile_total(
                meta.levels@.take(li),
            ) + k as int] == level_tile(meta.levels@[li], k),
{
    proof {
        lemma_tile_listing(meta.levels@);
    }
    let mut rows: Vec<TileRow> = Vec::new();
    let mut li: usize = 0;
    while li < meta.levels.len()
        invariant
            li <= meta.levels@.len(),
            meta_valid(*meta),
            rows@ == all_rows(meta.levels@.take(li as int)),
        decreases meta.levels@.len() - li,
    {
        let l = meta.levels[li];
        proof {
            assert(level_valid(meta.levels@[li as int]));
        }
        let ghost prefix = rows@;
        let mut y: u32 = 0;
        while y < l.tiles_y
            invariant
                y <= l.tiles_y,
                level_valid(l),
                rows@ == prefix + level_rows(l, y as nat),
            decreases l.tiles_y - y,
        {
            let mut x: u32 = 0;
            let ghost before = rows@;
            while x < l.tiles_x
                invariant
                    x <= l.tiles_x,
                    y < l.tiles_y,
                    level_valid(l),
                    rows@ == before + line_rows(l, y as nat).take(x as int),
                decreases l.tiles_x - x,
            {
                let id = match pack_tile_key(l.level, x, y) {
                    Some(k) => k,
                    None => {
                        proof {
                            assert(false);
                        }
                        0
                    },
                };
                rows.push(
                    TileRow { id, level: l.level, tile_x: x, tile_y: y, cols: l.tile_width, rows: l.tile_height },
                );
                proof {
                    assert(line_rows(l, y as nat).take(x + 1) =~= line_rows(l, y as nat).take(x as int).push(
                        row_of(l, x as nat, y as nat),
                    ));
                }
                x = x + 1;
            }
            proof {
                assert(line_rows(l, y as nat).take(x as int) =~= line_rows(l, y as nat));
                assert(level_rows(l, (y + 1) as nat) == level_rows(l, y as nat) + line_rows(l, y as nat));
                assert(rows@ =~= prefix + level_rows(l, (y + 1) as nat));
            }
            y = y + 1;
        }
        proof {
            let t = meta.levels@.take(li + 1);
            assert(t.drop_last() =~= meta.levels@.take(li as int));
            assert(t.last() == l);
            assert(rows@ =~= all_rows(t));
        }
        li = li + 1;
    }
    proof {
        assert(meta.levels@.take(li as int) =~= meta.levels@);
    }
    rows
}

impl MetaError {
    /// The text of the error.
    pub fn message(&self) -> (m: String)
        ensures
            m@ == match self {
                MetaError::NotTiled { level } => "IFD "@ + decimal(*level as nat)
                    + " is not tiled — not a valid COG"@,
                MetaError::KeyOverflow(msg) => "tile key overflow: "@ + msg@,
                MetaError::Tiff(msg) => "TIFF read error: "@ + msg@,
                MetaError::InvalidFilter(msg) => "invalid bbox filter: "@ + msg@,
                MetaError::FilterWithoutGeoref => "bbox filter requires a georeferenced COG (no geo tags found)"@,
                MetaError::NotGeoreferenced => "coordinate lookup requires a georeferenced COG (no geo tags found)"@,
            },
    {
        match self {
            MetaError::NotTiled { level } => {
                let mut m = String::from_str("IFD ");
                push_decimal(&mut m, *level as u64);
                m.append(" is not tiled — not a valid COG");
                m
            },
            MetaError::KeyOverflow(msg) => {
                let mut m = String::from_str("tile key overflow: ");
                m.append(msg.as_str());
                m
            },
            MetaError::Tiff(msg) => {
                let mut m = String::from_str("TIFF read error: ");
                m.append(msg.as_str());
                m
            },
            MetaError::InvalidFilter(msg) => {
                let mut m = String::from_str("invalid bbox filter: ");
                m.append(msg.as_str());
                m
            },
            MetaError::FilterWithoutGeoref => String::from_str(
                "bbox filter requires a georeferenced COG (no geo tags found)",
            ),
            MetaError::NotGeoreferenced => String::from_str(
                "coordinate lookup requires a georeferenced COG (no geo tags found)",
            ),
        }
    }
}

/// Position of a level-0 pixel: the tile that holds it and its offset inside
/// that tile.
pub open spec fn pixel_location(l: LevelMeta, col: nat, row: nat) -> (nat, nat, nat, nat) {
    (col / (l.tile_width as nat), row / (l.tile_height as nat), row % (l.tile_height as nat), col % (l.tile_width as nat))
}

/// The tile `(tile_x, tile_y)` that holds pixel `(col, row)` and the pixel's
/// `(row, col)` inside it.
pub fn locate_pixel(l: &LevelMeta, col: u64, row: u64) -> (r: (u64, u64, u64, u64))
    requires
        l.tile_width > 0,
        l.tile_height > 0,
    ensures
        (r.0 as nat, r.1 as nat, r.2 as nat, r.3 as nat) == pixel_location(*l, col as nat, row as nat),
{
    let tw = l.tile_width as u64;
    let th = l.tile_height as u64;
    (col / tw, row / th, row % th, col % tw)
}

/// Layout of the samples of a decoded tile.
#[derive(Clone, Copy, Debug, PartialEq, Eq, Structural)]
pub enum SampleLayout {
    /// Shape (height, width, bands).
    Chunky,
    /// Shape (bands, height, width).
    Planar,
    /// A layout the reader does not read.
    Unknown,
}

/// Index of sample `(row, col, band0)` in a decoded tile of shape
/// `(d0, d1, d2)`, or `None` when it lies outside the shape or the layout is
/// unknown.
pub open spec fn sample_index_spec(layout: SampleLayout, shape: (usize, usize, usize), row: usize, col: usize, band0: usize) -> Option<int> {
    let (d0, d1, d2) = shape;
    match layout {
        SampleLayout::Chunky => if row >= d0 || col >= d1 || band0 >= d2 {
            None
        } else {
            Some((row * d1 + col) * d2 + band0)
        },
        SampleLayout::Planar => if band0 >= d0 || row >= d1 || col >= d2 {
            None
        } else {
            Some((band0 * d1 + row) * d2 + col)
        },
        SampleLayout::Unknown => None,
    }
}

/// Where sample `(row, col, band0)` sits in the flat data of a decoded tile.
pub fn sample_index(layout: SampleLayout, shape: (usize, usize, usize), row: usize, col: usize, band0: usize) -> (r: Option<usize>)
    requires
        shape.0 * shape.1 * shape.2 <= usize::MAX,
    ensures
        match r {
            Some(i) => Some(i as int),
            None => None::<int>,
        } == sample_index_spec(layout, shape, row, col, band0),
        r matches Some(i) ==> i < shape.0 * shape.1 * shape.2,
{
    let (d0, d1, d2) = shape;
    match layout {
        SampleLayout::Chunky => {
            if row >= d0 || col >= d1 || band0 >= d2 {
                return None;
            }
            proof {
                assert((row * d1 + col) * d2 + band0 < d0 * d1 * d2) by (nonlinear_arith)
                    requires
                        row < d0,
                        col < d1,
                        band0 < d2,
                ;
                assert(row * d1 + col < d0 * d1) by (nonlinear_arith)
                    requires
                        row < d0,
                        col < d1,
                ;
                assert(row * d1 <= d0 * d1) by (nonlinear_arith)
                    requires
                        row < d0,
                ;
                assert((row * d1 + col) * d2 <= d0 * d1 * d2) by (nonlinear_arith)
                    requires
                        row * d1 + col < d0 * d1,
                ;
                assert(d0 * d1 <= d0 * d1 * d2) by (nonlinear_arith)
                    requires
                        d2 >= 1,
                ;
                assert(row * d1 <= (row * d1 + col) * d2) by (nonlinear_arith)
                    requires
                        d2 >= 1,
                ;
            }
            Some((row * d1 + col) * d2 + band0)
        },
        SampleLayout::Planar => {
            if band0 >= d0 || row >= d1 || col >= d2 {
                return None;
            }
            proof {
                assert((band0 * d1 + row) * d2 + col < d0 * d1 * d2) by (nonlinear_arith)
                    requires
                        band0 < d0,
                        row < d1,
                        col < d2,
                ;
                assert(band0 * d1 + row < d0 * d1) by (nonlinear_arith)
                    requires
                        band0 < d0,
                        row < d1,
                ;
                assert(band0 * d1 <= d0 * d1) by (nonlinear_arith)
                    requires
                        band0 < d0,
                ;
                assert((band0 * d1 + row) * d2 <= d0 * d1 * d2) by (nonlinear_arith)
                    requires
                        band0 * d1 + row < d0 * d1,
                ;
                assert(d0 * d1 <= d0 * d1 * d2) by (nonlinear_arith)
                    requires
                        d2 >= 1,
                ;
                assert(band0 * d1 <= (band0 * d1 + row) * d2) by (nonlinear_arith)
                    requires
                        d2 >= 1,
                ;
            }
            Some((band0 * d1 + row) * d2 + col)
        },
        SampleLayout::Unknown => None,
    }
}

/// Every listed tile's id unpacks to its own level and indices, and its
/// indices lie inside its level's grid: ids tell tiles apart.
pub proof fn lemma_tile_ids_decode(levels: Seq<LevelMeta>)
    requires
        forall|i: int| 0 <= i < levels.len() ==> level_valid(#[trigger] levels[i]),
    ensures
        forall|j: int| 0 <= j < all_rows(levels).len() ==> {
            let r = #[trigger] all_rows(levels)[j];
            tile_key_fields(r.id) == (r.level, r.tile_x, r.tile_y)
        },
    decreases levels.len(),
{
    if levels.len() > 0 {
        let init = levels.drop_last();
        lemma_tile_ids_decode(init);
        let l = levels.last();
        assert(level_valid(levels[levels.len() - 1]));
        lemma_level_rows_decode(l, l.tiles_y as nat);
        let a = all_rows(init);
        let b = level_rows(l, l.tiles_y as nat);
        assert(all_rows(levels) == a + b);
        assert forall|j: int| 0 <= j < all_rows(levels).len() implies {
            let r = #[trigger] all_rows(levels)[j];
            tile_key_fields(r.id) == (r.level, r.tile_x, r.tile_y)
        } by {
            if j < a.len() {
                assert(all_rows(levels)[j] == a[j]);
            } else {
                assert(all_rows(levels)[j] == b[j - a.len()]);
            }
        }
    }
}

proof fn lemma_level_rows_decode(l: LevelMeta, ny: nat)
    requires
        level_valid(l),
        ny <= l.tiles_y,
    ensures
        forall|j: int| 0 <= j < level_rows(l, ny).len() ==> {
            let r = #[trigger] level_rows(l, ny)[j];
            tile_key_fields(r.id) == (r.level, r.tile_x, r.tile_y)
        },
    decreases ny,
{
    if ny > 0 {
        lemma_level_rows_decode(l, (ny - 1) as nat);
        let a = level_rows(l, (ny - 1) as nat);
        let b = line_rows(l, (ny - 1) as nat);
        assert(level_rows(l, ny) == a + b);
        assert forall|j: int| 0 <= j < level_rows(l, ny).len() implies {
            let r = #[trigger] level_rows(l, ny)[j];
            tile_key_fields(r.id) == (r.level, r.tile_x, r.tile_y)
        } by {
            if j < a.len() {
                assert(level_rows(l, ny)[j] == a[j]);
            } else {
                let x = j - a.len();
                assert(level_rows(l, ny)[j] == b[x]);
                assert(b[x] == row_of(l, x as nat, (ny - 1) as nat));
                lemma_tile_key_roundtrip(l.level, x as u32, (ny - 1) as u32);
            }
        }
    }
}

} // verus!
