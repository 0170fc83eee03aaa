//! An in-memory vector database with a persistent binary snapshot.
//!
//! Collections hold fixed-dimensional vectors of 32-bit floats, carried
//! throughout this crate as their IEEE-754 bit patterns (`u32`), together
//! with optional string metadata. Queries are exact brute-force top-k over
//! a total order on score bit patterns; snapshots are a fixed little-endian
//! byte format with a proved decode-encode round trip.

pub mod codec;
pub mod collection;
pub mod db;
pub mod distance;
pub mod embedding;
pub mod error;
pub mod llm_args;
pub mod score;
pub mod topk;

pub use collection::{Collection, SimilarityResult};
pub use db::Db;
pub use distance::Distance;
pub use embedding::Embedding;
pub use error::Error;
pub use llm_args::{LLMModelArgs, TokenizerSource};
pub use score::MetadataEqualities;
pub use topk::ScoreIndex;
