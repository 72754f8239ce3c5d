//! A lazily-filled Minesweeper board. The board is not sampled in advance:
//! whenever a hidden configuration must be shown, every still-undecided
//! cell is committed to bug or bug-free so that each opened cell's declared
//! count stays satisfied, biased toward a target bug density.

pub mod field;
pub mod fill;
pub mod game;
pub mod grid;
pub mod laws;
pub mod proposal;
mod strings;
