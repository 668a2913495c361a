//! Radix partitioning of (key, payload) tuples for the build phase of a
//! hash join: a partition plan, two partitioning methods and the flat
//! tuple format.
pub mod count_move;
pub mod format;
pub mod generate;
pub mod hash;
pub mod independent;
pub mod laws;
pub mod model;
pub mod plan;
pub mod tuple;
