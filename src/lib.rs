//! A procedurally growing, self-avoiding tree of line segments.
//!
//! All geometry is fixed-point: a coordinate is an `i64` counting steps of
//! `1 / UNIT` in a normalized space centered at the origin, and a growth
//! fraction counts steps of `1 / GROWTH_FULL`.
pub mod arena;
pub mod branching;
pub mod draw;
pub mod geometry;
pub mod growth;
pub mod random;
pub mod spatial;
pub mod tree_node;
