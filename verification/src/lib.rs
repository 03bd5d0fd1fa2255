//! A verified solver for the generalized sliding-tile puzzle (N x N grid of
//! numbered tiles plus one blank).  The library models boards as flat
//! permutations of `0..size*size` (0 is the blank), offers three heuristics
//! and three frontier-ordering strategies, checks solvability by inversion
//! parity, and runs a deduplicated best-first search that returns the path
//! from the input board to the goal together with cost metrics.

pub mod evaluator;
pub mod generator;
pub mod heuristic;
pub mod map;
pub mod node;
pub mod parity;
pub mod parser;
pub mod solver;
pub mod state;
pub mod visited;
