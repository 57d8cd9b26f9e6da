//! A solver for Sudoku puzzles and their variants (anti-king, anti-knight,
//! non-consecutive) that finds every solution of a puzzle.
//!
//! Each cell holds the set of digits that are still possible in it
//! ([`cell`]). Committing a digit to a cell rules it out wherever the rules
//! forbid it, and commits in turn every cell that is left with a single
//! digit ([`board`]). The search branches on the digit and region with the
//! fewest open cells and hands out every board on which nothing is left
//! open ([`search`]).
//!
//! What the executable code does is stated over a mathematical model of the
//! board ([`grid`]) by the functions `propagate` ([`propagate`]) and
//! `all_solutions` ([`search`]). Of these the crate proves that
//! propagation is sound ([`propagate`]), that it keeps a settled board
//! settled ([`settle`]), and that the search hands out exactly the
//! solutions of a puzzle, each once ([`laws`], [`complete`], [`puzzle`]).

pub mod board;
pub mod cell;
pub mod complete;
pub mod config;
pub mod grid;
pub mod laws;
pub mod narrate;
pub mod propagate;
pub mod puzzle;
pub mod region;
pub mod rules;
pub mod search;
pub mod settle;
pub mod text;
pub mod trace;
