//! Perfect mazes carved by randomized depth-first search (recursive
//! backtracking) over the odd-coordinate lattice of a rectangular grid.

pub mod lattice;
pub mod maze;
mod rng;

pub use maze::Maze;
