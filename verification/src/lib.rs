//! A linear-chain conditional random field engine.
//!
//! The crate builds sequence-labeling models from annotated training data and
//! answers inference queries over them: most-probable label sequence (Viterbi),
//! partition function, and path probabilities.  All scores are kept in a
//! fixed-point log domain so that every numeric step is exact integer
//! arithmetic with proved bounds.

pub mod context;
pub mod data;
pub mod dict;
pub mod errors;
pub mod features;
pub mod fixed;
pub mod model;
pub mod serial;
pub mod tagger;
pub mod trainer;
