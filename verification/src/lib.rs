//! Wave function collapse on a rectangular lattice of connector tiles.
//!
//! A grid holds, for every position, the set of tile variants still possible
//! there. One solver step resolves a cell of maximum entropy to a single
//! variant and prunes candidates through a worklist until nothing changes.

pub mod catalog;
pub mod cell;
pub mod error;
pub mod grid;
pub mod lattice;
pub mod laws;
pub mod propagation;
pub mod random;
pub mod ranking;
pub mod render;
pub mod solver;
