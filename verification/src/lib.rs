//! A spaced-repetition scheduling core: a per-card memory model
//! (stability, difficulty, retrievability), the review-outcome update
//! algorithm that evolves that model, a keyed store of per-card states,
//! the due-queue selection policy that builds a bounded study session,
//! and a statistics aggregator over the store.
//!
//! Quantities the domain treats as real numbers (probabilities,
//! stabilities, difficulties, intervals) are held in fixed-point form:
//! a value `v` stands for the real number `v / 1000`.

pub mod config;
pub mod memory;
pub mod scheduler;
pub mod cards;
pub mod store;
pub mod select;
pub mod stats;
pub mod paths;
pub mod errors;
