//! The cell of a Minesweeper grid and the result of a play.

use vstd::prelude::*;

verus! {

/// Returned by the digging operation so the caller knows whether the game
/// should continue.
#[derive(PartialEq, Eq, Structural, Clone, Copy, Debug)]
pub enum GameResult {
    Lost,
    Won,
    Continue,
}

/// Possible value of a cell. A `Number` holds the count of adjacent mines,
/// which is between 1 and 8; a cell with no adjacent mine stays `Empty`.
#[derive(PartialEq, Eq, Structural, Clone, Copy, Debug)]
pub enum CellValue {
    Empty,
    Mine,
    Number(u8),
}

impl CellValue {
    /// Is this value a `Number`?
    pub fn is_number(&self) -> (r: bool)
        ensures
            r == (*self is Number),
    {
        match self {
            CellValue::Number(_) => true,
            _ => false,
        }
    }
}

/// A cell on the playing board.
#[derive(PartialEq, Eq, Structural, Clone, Copy, Debug)]
pub struct Cell {
    /// Whether the player already dug this cell.
    pub dug: bool,
    /// Whether the player marked this cell as a suspected mine.
    pub marked: bool,
    pub value: CellValue,
}

impl Cell {
    /// A cell counts toward the remaining safe cells while it is not a mine
    /// and not yet dug; the game is won once no such cell is left.
    pub open spec fn is_safe_undug(self) -> bool {
        !self.dug && !(self.value is Mine)
    }

    /// The state every cell has right after construction of the board.
    pub open spec fn is_fresh(self) -> bool {
        !self.dug && !self.marked && self.value is Empty
    }
}

} // verus!
