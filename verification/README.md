# duckdb-cog

A GDAL-free reader of Cloud-Optimized GeoTIFFs for DuckDB and the browser.

- `src/` — `cog_engine`, the verified core (Verus): tile keys, the tile-table
  model built from IFD header values, byte-range contracts and whole-document
  reads, the decoded-tile cache state machine, the reader cache and the
  browser reader registry, STAC document rows and search pagination, zonal
  statistic names and values, row-batch layout for the SQL functions.
- `app/` — what surrounds the core: byte sources and their I/O (files, object
  stores, HTTP range requests), the TIFF decoder glue, floating-point
  georeference arithmetic and polygon zones, the DuckDB table and scalar
  functions, and the WebAssembly bindings.
- `tests/` — tests of the core.

Notes on the core:

- The caches and the registry keep their entries in association lists (a
  `Vec` of key/value pairs with unique keys, read as a map in `src/assoc.rs`)
  rather than `HashMap`. With `String` keys, the specifications that Verus
  gives `HashMap` do not carry what these contracts need (which entry a key
  finds, how many entries remain after an insert or a removal), while a list
  lets every operation be proved against its map view. Entry counts here are
  small (at most the configured capacity, 64 readers in the browser).
- `read_stac_search` caps its result at `max_rows` when given. Without it the
  default cap of 1,000 rows is a ceiling, not a cut: a search that matches
  more rows fails instead of silently dropping some.
- A whole-document read (`read_stac`) accepts documents up to and including
  64 MiB: after a full 64 MiB read, one probe of one byte more decides.
