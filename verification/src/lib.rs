//! The logic of a memory store: triple extraction, temporal grounding, the
//! unified node/edge substrate with its backfill drivers and parity verifier,
//! and the synthesis engine. Everything here computes; reading and writing the
//! database, calling a language model and floating-point arithmetic belong to
//! the program around it.

pub mod hashing;
pub mod json;
pub mod ranking;
pub mod score;
pub mod substrate;
pub mod synthesis;
pub mod temporal_dim;
pub mod temporal_grounding;
pub mod text;
pub mod time;
pub mod time_phrases;
pub mod triple;
pub mod triple_extractor;
pub mod turn_window;
