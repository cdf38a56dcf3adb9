//! Puzzle states and search solutions.

pub mod solution;
pub mod state;

pub use solution::Solution;
pub use state::State;
