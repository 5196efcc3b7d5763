//! What can go wrong when a grid is set up or solved.

use vstd::prelude::*;

verus! {

/// A grid cannot be built from the given dimensions and catalog.
#[derive(Clone, Copy, Debug, PartialEq, Eq, Structural)]
pub enum ConfigurationError {
    /// The width or the height is zero.
    EmptyGrid,
    /// The catalog offers no tile.
    EmptyCatalog,
}

/// A cell that still had to be resolved has no candidate left.
#[derive(Clone, Copy, Debug, PartialEq, Eq, Structural)]
pub struct ContradictionError {}

} // verus!
