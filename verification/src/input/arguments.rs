//! The variables of a game: the numbers of rows, columns and mines.

use vstd::prelude::*;

verus! {

/// The parameters a game is created with. The surrounding input layer reads
/// and validates them; the board only requires that the mines fit on the
/// grid, which `Board::new` states as its precondition.
pub struct Parameters {
    /// Number of rows of the board.
    rows: u8,
    /// Number of columns of the board.
    columns: u8,
    /// Number of mines on the board.
    mines: u8,
}

impl Parameters {
    pub closed spec fn spec_rows(self) -> u8 {
        self.rows
    }

    pub closed spec fn spec_columns(self) -> u8 {
        self.columns
    }

    pub closed spec fn spec_mines(self) -> u8 {
        self.mines
    }

    /// Constructor.
    pub fn new(rows: u8, columns: u8, mines: u8) -> (r: Parameters)
        ensures
            r.spec_rows() == rows,
            r.spec_columns() == columns,
            r.spec_mines() == mines,
    {
        Parameters { rows, columns, mines }
    }

    /// Rows getter.
    pub fn rows(&self) -> (r: u8)
        ensures
            r == self.spec_rows(),
    {
        self.rows
    }

    /// Columns getter.
    pub fn columns(&self) -> (r: u8)
        ensures
            r == self.spec_columns(),
    {
        self.columns
    }

    /// Mines getter.
    pub fn mines(&self) -> (r: u8)
        ensures
            r == self.spec_mines(),
    {
        self.mines
    }
}

} // verus!
