//! Solver for the liquid-sorting puzzle: tubes of a fixed height hold
//! stacks of colored units; a move pours the top run of one tube onto an
//! empty tube or onto the same color; the goal is one color per tube.
//!
//! The search works on canonical states (tubes sorted), generates moves
//! with forced merges and completions first, and reconstructs the moves in
//! the tube numbers of the puzzle as given.

use vstd::prelude::*;

pub mod bfs_solver;
pub mod canonical;
pub mod dfs_solver;
pub mod graph;
pub mod moves;
pub mod replay;
pub mod solver;
pub mod store;
pub mod tube;

pub use crate::bfs_solver::BFSSolver;
pub use crate::canonical::get_transform;
pub use crate::dfs_solver::DFSSolver;
pub use crate::moves::{next_moves, Move};
pub use crate::solver::{SolutionStep, Solver};
pub use crate::tube::{all_same, get_tube_stat, is_solved, pour, pour_back, TubeStats};

verus! {

/// A single tube, bottom slot first; zero is an empty slot.
pub type Tube = Vec<u8>;

} // verus!
