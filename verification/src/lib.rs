//! Client-side layer of a vector-similarity search engine: the closed
//! taxonomy of engine errors, and the fusion of several named, independently
//! ranked result lists into one bounded ranking.
//!
//! The arithmetic on scores is the caller's. Lists and weights are generic in
//! the type of a score, which this crate never looks into. What it decides
//! is the rest: which accumulator slot an entry is summed into, which weight
//! and which normalization rule apply to a list, and how the summed items
//! are ordered and cut. The ordering goes by a signed 64-bit key of each
//! sum, made from the bit pattern of the sum by `score_key`.

pub mod error;
pub mod fusion;
pub mod name_map;
pub mod name_order;
pub mod rerank;
pub mod score_key;
pub mod types;

pub use error::{check_status, Error, ErrorView, StatusCode};
pub use fusion::{index_items, score_items, select_top_n, ItemIndex, ScoredItem};
pub use name_map::NameMap;
pub use name_order::{place, Placement};
pub use rerank::{RrfReRanker, WeightedReRanker};
pub use score_key::{score_bits, score_key};
pub use types::{MetricType, Normalization};
