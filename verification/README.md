# onebrc_rust

Per-station temperature statistics (minimum, maximum, count and sum, in tenths of a
degree) over measurement files made of lines `name;value\n`, computed by a series of
variants that trade simplicity for speed. Every variant is a verified library function
whose contract is stated against one specification of the format and of the statistics.

## Layout

- `src/format.rs`, `src/stats.rs`, `src/layout.rs`: the line format, the records of a
  buffer, the statistics of a list of records, and where records lie in a buffer.
- `src/table.rs`, `src/stations.rs`, `src/fxmap.rs`: the statistics tables (an
  open-addressing table keyed by packed names, a list of stations, and a hash map with
  the `rustc-hash` hasher).
- `src/bits.rs`, `src/delims.rs`, `src/scan.rs`, `src/reader.rs`, `src/search.rs`,
  `src/pages.rs`: delimiter bitmasks, block scanners, the block reader, the `memchr`
  searches and page touching.
- `src/ver4.rs` ... `src/ver22.rs`: the variants; `src/ver17_lines.rs` and
  `src/ver21_batches.rs` hold what their block readers read.
- `tests/`: tests on concrete buffers, each variant checked against a plain reference
  aggregation.
- `app/`: the command-line driver: maps the measurement file, runs the chosen variants,
  prints timings, and holds the variants that compute in `f32`.
