//! The unified substrate: one table of nodes and one of edges.

pub mod attributes;
pub mod backfill;
pub mod identity;
pub mod spot_check;
pub mod triple_backfill;
pub mod types;
pub mod verify;
