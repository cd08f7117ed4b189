pub mod board;
pub mod frontier;
pub mod heuristic;
pub mod search;
