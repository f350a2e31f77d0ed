//! Offline hand-strength tables for a 52-card game: tie-aware strength ranks
//! for every board and hole combination, and the bucket histograms derived
//! from them.
//!
//! The evaluator that scores a hand and the indexer that assigns table slots
//! stay outside: the builders take outcomes and slots as plain values.

pub mod buckets;
pub mod cards;
pub mod clusters;
pub mod counting;
pub mod histograms;
pub mod ochs;
pub mod rank_laws;
pub mod ranks;
pub mod river;
pub mod strengths;
pub mod suits;
pub mod vectors;
