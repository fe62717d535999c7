//! Minimum-turn path search through a rectangular grid maze.
//!
//! The grid model and the direction bitset live in [`maze`]; the two solvers,
//! a data-parallel flood relaxation and a best-first priority search, live in
//! its submodules. [`header`] reads the line that gives the maze's size.
pub mod header;
pub mod maze;

pub use header::read_xy;
pub use maze::astar::astar;
pub use maze::flood::{flood, iteration};
pub use maze::{solve, Alg, Dir, Field, Maze, Outcome, ANY, DOWN, LEFT, RIGHT, UP};
