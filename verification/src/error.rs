//! Errors reported by prototype generation and constraint propagation.

use vstd::prelude::*;

verus! {

/// What can go wrong while building or collapsing a grid.
#[derive(Debug, PartialEq, Eq, Structural, Copy, Clone)]
pub enum WfcError {
    /// A socket listing left at least one direction without an open/closed
    /// flag, so the adjacency contract of the tile is incomplete.
    ConfigurationError,
    /// Propagation filtered some cell's candidate set down to nothing: no
    /// tile can legally occupy that cell and generation cannot proceed.
    PropagationContradiction,
}

} // verus!
