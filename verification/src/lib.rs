//! An n-puzzle solving library: sliding-tile states on an n x n grid with a
//! spiral goal layout, admissible distance estimators, score policies, a
//! parity-based solvability check, and a weighted best-first search engine.

pub mod algorithm;
pub mod generation;
pub mod puzzle;
