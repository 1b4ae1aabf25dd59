use cog_engine::meta::{
    build_meta, enumerate_tiles, georef_from_ifd, locate_pixel, sample_index, tile_pixel_extent,
    CogMeta, GeoKeys, IfdInfo, LevelMeta, MetaError, SampleLayout, TileRow,
};

fn level(level: u8, w: u32, h: u32, tx: u32, ty: u32) -> LevelMeta {
    LevelMeta {
        level,
        image_width: w,
        image_height: h,
        tile_width: 256,
        tile_height: 256,
        tiles_x: tx,
        tiles_y: ty,
    }
}

fn basic_meta(georef: Option<GeoKeys>) -> CogMeta {
    CogMeta {
        levels: vec![level(0, 512, 512, 2, 2), level(1, 256, 256, 1, 1)],
        georef,
        num_bands: 1,
    }
}

fn utm52() -> GeoKeys {
    GeoKeys { epsg: Some(32652) }
}

fn ifd(w: u32, h: u32, tile: Option<u32>, count: Option<(usize, usize)>) -> IfdInfo {
    IfdInfo {
        image_width: w,
        image_height: h,
        tile_width: tile,
        tile_height: tile,
        tile_count: count,
        samples_per_pixel: 1,
        model_pixel_scale_len: None,
        model_tiepoint_len: None,
        projected_type: None,
        geographic_type: None,
    }
}

#[test]
fn enumerates_all_levels_in_row_major_order() {
    let rows: Vec<TileRow> = enumerate_tiles(&basic_meta(None));
    assert_eq!(rows.len(), 5);
    let coords: Vec<(u8, u32, u32)> = rows.iter().map(|r| (r.level, r.tile_x, r.tile_y)).collect();
    assert_eq!(
        coords,
        [(0, 0, 0), (0, 1, 0), (0, 0, 1), (0, 1, 1), (1, 0, 0)]
    );
    assert_eq!(rows[1].id, 16777216);
    assert_eq!(rows[4].id, 281474976710656);
    assert!(rows.iter().all(|r| (r.cols, r.rows) == (256, 256)));
}

#[test]
fn dimension_accessors_read_level0() {
    let meta = basic_meta(None);
    assert_eq!(meta.width(), Some(512));
    assert_eq!(meta.height(), Some(512));
    let empty = CogMeta {
        levels: vec![],
        georef: None,
        num_bands: 0,
    };
    assert_eq!(empty.width(), None);
    assert_eq!(empty.height(), None);
}

#[test]
fn srid_follows_sedona_zero_convention() {
    assert_eq!(basic_meta(Some(utm52())).srid(), 32652);
    assert_eq!(basic_meta(None).srid(), 0);
    let no_epsg = GeoKeys { epsg: None };
    assert_eq!(basic_meta(Some(no_epsg)).srid(), 0);
}

#[test]
fn band_nodata_is_one_based_and_null_out_of_range() {
    let meta = basic_meta(None);
    let nodata = Some(0.0f64);
    assert_eq!(meta.band_nodata(1, nodata), Some(0.0));
    assert_eq!(meta.band_nodata(0, nodata), None, "band 0 is out of range (1-based)");
    assert_eq!(meta.band_nodata(2, nodata), None, "only one band");
    let mb = CogMeta {
        levels: vec![level(0, 64, 64, 1, 1)],
        georef: Some(utm52()),
        num_bands: 3,
    };
    let unset: Option<f64> = None;
    assert_eq!(mb.band_nodata(1, unset), None);
    assert_eq!(mb.band_nodata(3, unset), None);
    assert_eq!(mb.band_nodata(4, unset), None);
}

#[test]
fn crs_names_the_epsg_code() {
    assert_eq!(basic_meta(Some(utm52())).crs(), Some("EPSG:32652".to_string()));
    assert_eq!(basic_meta(None).crs(), None);
    assert_eq!(basic_meta(Some(GeoKeys { epsg: None })).crs(), None);
    assert_eq!(basic_meta(Some(GeoKeys { epsg: Some(4326) })).crs(), Some("EPSG:4326".to_string()));
    assert_eq!(basic_meta(Some(GeoKeys { epsg: Some(0) })).crs(), Some("EPSG:0".to_string()));
}

#[test]
fn edge_tile_extents_clip_to_the_image() {
    // 400x300 image with 256px tiles: right and bottom tiles are clipped
    let l0 = level(0, 400, 300, 2, 2);
    assert_eq!(tile_pixel_extent(&l0, 0, 0), (0, 256, 0, 256));
    assert_eq!(tile_pixel_extent(&l0, 1, 0), (256, 400, 0, 256));
    assert_eq!(tile_pixel_extent(&l0, 1, 1), (256, 400, 256, 300));
    let l1 = level(1, 200, 150, 1, 1);
    assert_eq!(tile_pixel_extent(&l1, 0, 0), (0, 200, 0, 150));
}

#[test]
fn build_meta_reads_levels_bands_and_georef() {
    let mut first = ifd(512, 512, Some(256), Some((2, 2)));
    first.samples_per_pixel = 3;
    first.model_pixel_scale_len = Some(3);
    first.model_tiepoint_len = Some(6);
    first.projected_type = Some(32652);
    first.geographic_type = Some(4326);
    let meta = build_meta(&[first, ifd(256, 256, Some(256), Some((1, 1)))]).expect("valid");
    assert_eq!(meta.levels, vec![level(0, 512, 512, 2, 2), level(1, 256, 256, 1, 1)]);
    assert_eq!(meta.num_bands, 3);
    assert_eq!(meta.georef, Some(GeoKeys { epsg: Some(32652) }));

    let empty = build_meta(&[]).expect("no IFDs is no error");
    assert_eq!((empty.levels.len(), empty.num_bands, empty.georef), (0, 0, None));
}

#[test]
fn build_meta_rejects_untiled_and_oversized() {
    let untiled = build_meta(&[ifd(512, 512, Some(256), Some((2, 2))), ifd(256, 256, None, None)]);
    assert_eq!(untiled, Err(MetaError::NotTiled { level: 1 }));
    assert_eq!(
        untiled.unwrap_err().message(),
        "IFD 1 is not tiled — not a valid COG"
    );
    let no_count = build_meta(&[ifd(512, 512, Some(256), None)]);
    assert_eq!(no_count, Err(MetaError::NotTiled { level: 0 }));

    let huge = build_meta(&[ifd(1, 1, Some(1), Some((1 << 24, 3)))]).expect("fits exactly");
    assert_eq!(huge.levels[0].tiles_x, 1 << 24);
    let too_huge = build_meta(&[ifd(1, 1, Some(1), Some(((1 << 24) + 1, 3)))]);
    assert_eq!(
        too_huge,
        Err(MetaError::KeyOverflow("tile grid 16777217x3 exceeds 24-bit index".to_string()))
    );

    let many: Vec<IfdInfo> = (0..257).map(|_| ifd(1, 1, Some(1), Some((1, 1)))).collect();
    assert_eq!(
        build_meta(&many),
        Err(MetaError::KeyOverflow("more than 256 levels (256)".to_string()))
    );
    assert_eq!(build_meta(&many[..256]).expect("256 levels fit").levels[255].level, 255);
}

#[test]
fn georef_needs_both_tags_with_enough_values() {
    let mut i = ifd(1, 1, Some(1), Some((1, 1)));
    assert_eq!(georef_from_ifd(&i), None);
    i.model_pixel_scale_len = Some(2);
    i.model_tiepoint_len = Some(5);
    assert_eq!(georef_from_ifd(&i), None);
    i.model_tiepoint_len = Some(6);
    assert_eq!(georef_from_ifd(&i), Some(GeoKeys { epsg: None }));
    i.geographic_type = Some(4326);
    assert_eq!(georef_from_ifd(&i), Some(GeoKeys { epsg: Some(4326) }));
    i.projected_type = Some(32652);
    assert_eq!(georef_from_ifd(&i), Some(GeoKeys { epsg: Some(32652) }));
    i.model_pixel_scale_len = Some(1);
    assert_eq!(georef_from_ifd(&i), None);
}

#[test]
fn meta_error_messages() {
    assert_eq!(MetaError::Tiff("x".to_string()).message(), "TIFF read error: x");
    assert_eq!(
        MetaError::KeyOverflow("y".to_string()).message(),
        "tile key overflow: y"
    );
    assert_eq!(
        MetaError::InvalidFilter("z".to_string()).message(),
        "invalid bbox filter: z"
    );
    assert_eq!(
        MetaError::FilterWithoutGeoref.message(),
        "bbox filter requires a georeferenced COG (no geo tags found)"
    );
    assert_eq!(
        MetaError::NotGeoreferenced.message(),
        "coordinate lookup requires a georeferenced COG (no geo tags found)"
    );
}

#[test]
fn pixel_location_and_sample_index() {
    let l0 = level(0, 512, 512, 2, 2);
    assert_eq!(locate_pixel(&l0, 300, 10), (1, 0, 10, 44));
    assert_eq!(locate_pixel(&l0, 0, 511), (0, 1, 255, 0));
    // chunky (h, w, bands)
    assert_eq!(sample_index(SampleLayout::Chunky, (256, 256, 3), 1, 2, 1), Some((256 + 2) * 3 + 1));
    assert_eq!(sample_index(SampleLayout::Chunky, (256, 256, 3), 1, 2, 3), None);
    // planar (bands, h, w)
    assert_eq!(sample_index(SampleLayout::Planar, (3, 256, 256), 1, 2, 2), Some((2 * 256 + 1) * 256 + 2));
    assert_eq!(sample_index(SampleLayout::Planar, (3, 256, 256), 256, 0, 0), None);
    assert_eq!(sample_index(SampleLayout::Unknown, (3, 256, 256), 0, 0, 0), None);
}
