//! Rules engine of a falling-block puzzle game: the piece catalogue, the
//! walled grid, collision and placement rules, the rotation transform, and
//! the line-clear/compaction algorithm.
#![allow(non_snake_case)]

pub mod board;
pub mod piece;

pub use board::Board;
pub use board::Dir;
pub use piece::Block;
pub use piece::Cell;
pub use piece::Point;
