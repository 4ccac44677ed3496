//! A minimal full-text search engine over a line-oriented corpus, built on
//! verified algorithms for intersecting sorted sequences.
//!
//! The crate has four parts:
//! - [`intersection`]: three algorithms (two-pointer, binary-search probing,
//!   galloping search) that intersect ascending integer sequences, proved to
//!   return the same result;
//! - [`posting`]: per-document hit counters with saturating arithmetic and the
//!   relevance score derived from them;
//! - [`text`]: tokenization and normalization of corpus text;
//! - [`search_engine`]: the inverted index built from a corpus, queried by
//!   folding posting lists through galloping intersection.

pub mod intersection;
pub mod posting;
pub mod search_engine;
pub mod text;
