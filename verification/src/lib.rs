//! Solver core for nonogram-style logic puzzles.
//!
//! A puzzle is a rectangular grid in which every row and every column carries
//! a sequence of run-length hints: the lengths of the contiguous blocks of
//! filled cells in that line, in order.  The crate enumerates the candidate
//! patterns of a line, deduces forced cells from their overlap, propagates
//! deductions over the whole grid to a fixpoint, searches for solutions by
//! backtracking under a solution cap and a deadline, validates hint sets, and
//! derives hints back from a filled grid.

pub mod backtrack;
pub mod clock;
pub mod data;
pub mod hint_generator;
pub mod line_solver;
pub mod logical_solver;
pub mod pattern;
pub mod solve;
pub mod types;
pub mod validator;
