//! Depth-first pathfinding on a rectangular grid with blocked cells.
//!
//! A [`board::Board`] maps each coordinate of a fixed-size grid to a
//! [`board::SquareKind`].  The traversal engine in [`engine`] runs a
//! deterministic depth-first search from the start cell to the end cell,
//! marking explored cells and reconstructing the discovered route through
//! parent links held by [`node::Node`] values.

pub mod board;
pub mod engine;
pub mod laws;
pub mod node;
