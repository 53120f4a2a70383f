//! Shortest paths on a uniform 2-D grid with diagonal adjacency, found by
//! A* search.
//!
//! The grid is an arena: a vector of nodes addressed by stable index, with
//! neighbor and parent relations stored as indices. `grid` builds and wires
//! the arena, `heuristic` supplies the default integer heuristic, and
//! `search` runs the A* loop and reconstructs the path.

pub mod grid;
pub mod heuristic;
pub mod laws;
pub mod search;
