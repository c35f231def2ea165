//! Synthesis: clusters of related memories, the synthesis gate in front of the language
//! model, insights, their provenance, and sets of an entity's attributes.

pub mod cluster;
pub mod discovery;
pub mod engine;
pub mod entity_sets;
pub mod gate;
pub mod insight;
pub mod neighbors;
pub mod provenance;
pub mod sampling;
pub mod types;
pub mod vp_tree;
