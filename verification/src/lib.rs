pub mod board;
mod frontier;
pub mod solver;
