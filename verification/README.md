# mothcdc

Content-defined chunking with a *caterpillar* coalescing layer, verified with
Verus.

Data is cut into chunks whose boundaries are defined by the data itself: a chunk
ends behind the first four-byte window whose (hashed) value is minimal among the
allowed positions. Runs of identical adjacent chunks are put into one record.

- `src/` is the library. `model.rs` says mathematically what chunking is,
  `scalar.rs` and `simd.rs` hold the searches and scans, `mincdc.rs` the plain
  chunkers, `caterpillar.rs` and `moth.rs` the coalescing ones, `capi.rs` the core
  of the C interface, and `laws.rs` what holds of the library as a whole: nothing
  is lost, sizes are respected, an edit is local, every search width places the
  same boundaries, and it makes no difference how a reader fragments its data.
- `app/` drives the streaming chunkers from `std::io::Read`, offers iterators, and
  exports the C symbol.
- `tests/` runs the library.

The streaming chunkers hold their reader but do not read: ask `ensure` for the
room there is, read, report to `on_read`, and call `next`.
