//! Core mechanics of the tile-merging puzzle game 2048: a grid of
//! power-of-two tiles that compress and merge when slid in one of four
//! directions, with a new tile spawned after every successful move, and a
//! terminal-box renderer for the grid.
//!
//! Cells hold exponents: 0 is an empty cell, and a cell with exponent `n`
//! holds the tile of value `2^n`.

pub mod grid;
pub mod pipes;
pub mod render;
pub mod row;
pub mod text;

pub use grid::ConstructionError;
pub use grid::Direction;
pub use grid::GameOverSignal;
pub use grid::Grid;
pub use pipes::select_preset;
pub use pipes::PipeMap;
