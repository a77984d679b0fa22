//! Sliding-tile puzzle search engine: grid model, admissible heuristics with
//! incremental updates, solvability check and several best-first searches.

pub mod grid;
pub mod sums;
pub mod node;
pub mod heuristic;
pub mod checker;
pub mod solver;
pub mod closed;
pub mod open;
pub mod astar;
pub mod generator;
pub mod astar_iterative_deepening;
pub mod algorithm;
pub mod astar_iterative;
pub mod astar_genetic;
pub mod astar_iterative_limited;
pub mod parser;
pub mod puzzle_generator;
pub mod runner;
