//! Verified core of a Minesweeper puzzle: a grid of cells with deferred bomb
//! placement, flood-fill reveal of zero-count regions, and a win/lose status
//! query. The presentation layer around it is ordinary, unverified code.

pub mod grid;
pub mod laws;

pub use crate::grid::CellState;
pub use crate::grid::CellStatus;
pub use crate::grid::GenerateError;
pub use crate::grid::Mines;
pub use crate::grid::Status;
