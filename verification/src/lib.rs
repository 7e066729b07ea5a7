//! Core of a minesweeper game: a dense two-dimensional grid and the board
//! algorithms built on it (bomb placement, adjacency counts, flood-fill
//! reveal, first-click bomb relocation, and win evaluation).
//!
//! Rendering, input handling and audio are external collaborators: they
//! construct a [`board::Board`], call its operations in response to player
//! events, and read its state back for drawing.

pub mod board;
pub mod coords;
pub mod grid;
pub mod rng;

pub use board::Board;
pub use board::BoardModel;
pub use board::CellResponse;
pub use board::CellState;
pub use board::CellType;
pub use coords::Aabb2i;
pub use coords::Vec2i;
pub use coords::vec2i_range;
pub use grid::Grid;
pub use grid::GridModel;
