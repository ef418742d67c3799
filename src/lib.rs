//! Rule engine of a sliding-tile merging puzzle on a 4x4 grid.

pub mod board;
pub mod input;
pub mod lane;
mod random;

pub use board::{Board, Direction};
pub use input::{Key, UserInput};
