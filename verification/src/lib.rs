//! Incremental embedding pipeline and similarity search engine.
//!
//! Documents are split into addressable sections, each section is embedded
//! by a remote provider, the vectors are cached keyed by document identity
//! and modification time, and free-text queries are answered by ranking the
//! cached sections against the query's embedding.

pub mod batcher;
pub mod cleaner;
pub mod csv_format;
pub mod differ;
pub mod errors;
pub mod extract;
pub mod provider;
pub mod ranker;
pub mod rows;
pub mod strutil;

use vstd::prelude::*;

verus! {

/// The number of characters a cleaned unit is truncated to.
pub const MAX_TOKEN_LENGTH: usize = 8191;

} // verus!
