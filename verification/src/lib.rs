//! Verified core of a GDAL-free Cloud-Optimized GeoTIFF reader: the tile-table
//! model, tile keys, level validation, byte-range sources, the tile and reader
//! caches, the browser reader registry, STAC document rows and search
//! pagination, zonal statistics, and the row-batch layout of the SQL
//! functions.

pub mod assoc;
pub mod batch;
pub mod json;
pub mod json_text;
pub mod meta;
pub mod path;
pub mod reader_cache;
pub mod registry;
pub mod sample;
pub mod source;
pub mod stac;
pub mod text;
pub mod tile_cache;
pub mod tile_key;
pub mod zonal;
pub mod zone;

pub use tile_key::{pack_tile_key, unpack_tile_key, MAX_TILE_INDEX};
