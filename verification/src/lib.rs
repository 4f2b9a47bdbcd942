//! Maze generation, solving and measuring, with every carving step checked
//! against the grid it will be replayed on.

pub mod maze;
pub mod random;
pub mod seed;
pub mod tiles;
