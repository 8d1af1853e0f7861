//! The data model: cells, groups of cells, and the board that owns them.

pub mod board;
pub mod cell;
pub mod group;

pub use board::{Board, BoardView};
pub use cell::{Cell, CellView};
pub use group::Group;
