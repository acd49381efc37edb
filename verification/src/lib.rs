//! Core of a retrieval-augmented assistant for a game wiki: a crawler state
//! machine, a text chunker, a deterministic fixed-point embedding generator,
//! and a vector store with cosine-similarity search.
//!
//! All vector arithmetic is done in fixed-point integers: an entry of
//! [`SCALE`] stands for the real value 1.0.  The surrounding application is
//! responsible for converting any floating-point vectors obtained from a
//! remote embedding provider into this representation.

use vstd::prelude::*;

pub mod chars;
pub mod chat;
pub mod chunker;
pub mod config;
pub mod crawler;
pub mod embedding;
pub mod errors;
pub mod mathx;
pub mod ollama;
pub mod pipeline;
pub mod record;
pub mod similarity;
pub mod store;
pub mod validation;
pub mod wikiparse;

verus! {

/// Number of entries in every embedding vector produced by this crate.
pub const EMBED_DIM: usize = 384;

/// Fixed-point scale: a vector entry of `SCALE` stands for the real value 1.0.
pub const SCALE: i64 = 1000;

/// Largest magnitude an embedding entry may have; keeps all similarity
/// arithmetic inside `i128`.
pub const COMP_MAX: i64 = 1000000;

/// Largest vector length the similarity arithmetic accepts.
pub const DIM_MAX: usize = 65536;

/// An embedding vector is well formed when every entry is bounded by
/// `COMP_MAX` in magnitude and the vector is not absurdly long.
pub open spec fn valid_vector(v: Seq<i64>) -> bool {
    &&& v.len() <= DIM_MAX as int
    &&& forall|i: int| 0 <= i < v.len() ==> -COMP_MAX <= #[trigger] v[i] <= COMP_MAX
}

} // verus!
