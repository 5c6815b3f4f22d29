//! An in-memory full-text search core: TF-IDF vector-space ranking over an
//! inverted index, with optional edit-distance fuzzy matching, metadata
//! filtering, snippet extraction and word-level highlighting.
//!
//! Scores are fixed-point integers: a score of [`math::SCALE`] stands for 1.0.

pub mod math;
pub mod text;
pub mod distance;
pub mod assoc;
pub mod rank;
pub mod algorithms;
pub mod engine;
pub mod api;
pub mod models;
pub mod laws;
