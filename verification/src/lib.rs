//! Maze and puzzle resolution engine.
//!
//! The crate turns a square grid of cell markers into a graph, finds one
//! shortest route between the start and end markers, enumerates every simple
//! route between them, and computes the canonical move sequence of the
//! n-ring disengagement puzzle.

use vstd::prelude::*;

pub mod a_star;
pub mod dfs;
pub mod grid;
pub mod rings;
pub mod tally;

pub use a_star::find_shortest_path;
pub use dfs::find_all_paths;
pub use grid::build_graph;
pub use grid::Field;
pub use grid::Graph;
pub use grid::Point;
pub use rings::solve_rings;

verus! {

/// The input matrix violates the start/end-marker or square-matrix invariants.
#[derive(Clone, Copy, PartialEq, Eq, Structural, Debug)]
pub enum MalformedGridError {
    /// Missing or duplicate start/end marker.
    MissingOrDuplicateMarker,
    /// Non-square or empty matrix.
    NonSquareOrEmpty,
}

/// The end field is unreachable from the start field.
#[derive(Clone, Copy, PartialEq, Eq, Structural, Debug)]
pub struct NoPathFoundError;

/// Degenerate ring-puzzle size (zero rings).
#[derive(Clone, Copy, PartialEq, Eq, Structural, Debug)]
pub struct InvalidRingCountError;

} // verus!
