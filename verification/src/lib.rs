//! A small in-process fuzzy full-text search engine.
//!
//! A fixed corpus of short phrases is indexed once; free-text queries are then
//! answered with the documents ranked by relevance, tolerating typos through
//! bounded edit-distance matching on individual words.

pub mod dictionary;
pub mod error;
pub mod lex;
pub mod matcher;
pub mod ranking;
pub mod scoring;
pub mod tokenizer;
pub mod weights;
pub mod word_index;

pub use dictionary::FuzzyMatcherBuilder;
pub use error::{ConstructionError, QueryAutomatonError};
pub use matcher::FuzzyMatcher;
pub use ranking::ScoreAccumulator;
pub use weights::{Config, WeightRule};
pub use word_index::WordIndex;
