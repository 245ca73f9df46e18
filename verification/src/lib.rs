//! Content-defined chunking with a *caterpillar* coalescing layer for metadata
//! efficiency on redundant data.
//!
//! The core chunking algorithm lives in [`mincdc`]; the coalescing layer, built
//! on top of it, lives in [`caterpillar`]. The default [`MothChunker`] and
//! [`MothReadChunker`] use the robust hashed boundary selector and hand out
//! [`Segment`]s. A segment is either one ordinary chunk or a maximal run of
//! identical adjacent chunks; use [`Segment::dedup_key`] for storage and
//! [`Segment::len`] for its logical byte length.
//!
//! What chunking is, mathematically, stands in [`model`]: a [`model::Rule`] cuts
//! data into chunks, and `coalesce` puts runs of them into segments. The
//! contracts of the chunkers say that they do just that, and [`laws`] proves what
//! follows: that nothing is lost, that sizes are respected, that an edit is
//! local, and that it makes no difference how a reader fragments its data.
//! [`meaning`] ties the terms of the contracts to plain arithmetic on the bytes.

mod buffer;
pub mod capi;
pub mod caterpillar;
pub mod laws;
pub mod meaning;
pub mod mincdc;
pub mod model;
pub mod moth;
pub mod scalar;
pub mod simd;

pub use caterpillar::{CaterpillarChunker, CaterpillarReadChunker, Segment};
pub use mincdc::Chunk;
pub use moth::{MothChunker, MothReadChunker};
