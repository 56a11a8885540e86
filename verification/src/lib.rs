//! An embeddable fuzzy text-search engine over a small in-memory collection of
//! records (an identifier plus a weighted title and url field).
//!
//! The engine exchanges flat byte buffers with its host: newline-separated
//! record lines with NUL-separated fields on the way in, newline-separated
//! `url NUL title` lines on the way out. Approximate per-field matching is
//! delegated to the `fuse_rust` crate; everything around it — wire codec,
//! record store, fixed-point score aggregation, ranking and the relevance
//! cutoff — is verified.

pub mod codec;
pub mod engine;
pub mod rank;
pub mod record;
pub mod score;
pub mod store;

pub use engine::SearchEngine;
pub use record::Record;
pub use score::{FieldWeightScheme, MatchConfig};
pub use store::RecordStore;
