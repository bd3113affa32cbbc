use vstd::prelude::*;

verus! {

/// What a cell holds: nothing (with its neighbour count once revealed) or a bomb.
#[allow(non_camel_case_types)]
#[derive(Clone, Copy, PartialEq, Eq, Structural, Debug)]
pub enum CellType {
    EMPTY(Option<u8>),
    BOMB,
}

/// What the player currently sees of a cell.
#[allow(non_camel_case_types)]
#[derive(Clone, Copy, PartialEq, Eq, Structural, Debug)]
pub enum CellState {
    UNKNOWN,
    FLAGGED,
    EXPOSED,
}

/// A cell is its content paired with its visibility.
pub type Cell = (CellType, CellState);

pub open spec fn is_bomb(c: Cell) -> bool {
    c.0 is BOMB
}

/// A cell that a reveal may still open: hidden, and not a bomb.
pub open spec fn hidden_empty(c: Cell) -> bool {
    c.0 is EMPTY && c.1 == CellState::UNKNOWN
}

} // verus!
