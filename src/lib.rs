//! Rule engine of a grid-based mine-detection puzzle: the minefield, bomb
//! placement, neighbour counting, flood-fill reveal, flag budget and outcome.

pub mod cell;
pub mod coordinates;
pub mod dimensions;
pub mod field;
pub mod minesweeper;
