use vstd::prelude::*;

verus! {

/// A pair of coordinates: a column `x` and a row `y`, or a width and a height.
#[derive(Clone, Copy, Debug, PartialEq, Eq)]
pub struct XY<T> {
    pub x: T,
    pub y: T,
}

/// What the player sees of a cell.
#[derive(Clone, Copy, Debug, PartialEq, Eq, Structural)]
pub enum CellState {
    /// A closed cell.
    Closed,
    /// An unopened cell which has been flagged.
    Flagged,
    /// An exposed cell, containing the number of neighbouring mines.
    Open(u8),
}

/// A single square - or cell - on the game field.
#[derive(Clone, Copy, Debug, PartialEq, Eq, Structural)]
pub struct Cell {
    pub state: CellState,
    pub is_mine: bool,
}

impl Cell {
    /// The cell of a fresh field: closed and without a mine.
    pub open spec fn fresh() -> Cell {
        Cell { state: CellState::Closed, is_mine: false }
    }

    pub fn new() -> (r: Cell)
        ensures
            r == Cell::fresh(),
    {
        Cell { is_mine: false, state: CellState::Closed }
    }

    /// Cells that still count against a win: every cell not open, and every mine.
    pub open spec fn counts_as_closed(self) -> bool {
        !(self.state is Open) || self.is_mine
    }
}

} // verus!
