//! A solver for digit/operator equation-guessing puzzles.
//!
//! Candidate strings over a fixed 24-symbol alphabet are generated by a
//! backtracking search, pruned by per-position and per-count constraints
//! compiled from guess feedback, and confirmed by an expression evaluator
//! that understands floor brackets, factorial and a permutation operator.

pub mod chars;
pub mod numbers;
pub mod reduce;
pub mod eval;
pub mod knowledge;
pub mod search;
pub mod solver;

pub use knowledge::{Tile, TileState, Conflict, GlobalKnowledge};
pub use solver::SumzleSolver;
