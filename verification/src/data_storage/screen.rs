//! Positions on the screen.
use vstd::prelude::*;

verus! {

/// A position on the screen: a column and a row.
#[derive(Debug, Clone, Copy, PartialEq, Eq, PartialOrd, Ord, Structural)]
pub struct Coord {
    col: usize,
    row: usize,
}

impl Coord {
    /// The column.
    pub closed spec fn spec_col(&self) -> usize {
        self.col
    }

    /// The row.
    pub closed spec fn spec_row(&self) -> usize {
        self.row
    }

    /// The position at column `col` and row `row`.
    pub fn new(col: usize, row: usize) -> (c: Self)
        ensures
            c.spec_col() == col,
            c.spec_row() == row,
    {
        Self { col, row }
    }

    /// Moves to column `col`.
    pub fn set_col(&mut self, col: usize)
        ensures
            final(self).spec_col() == col,
            final(self).spec_row() == old(self).spec_row(),
    {
        self.col = col;
    }

    /// Moves to row `row`.
    pub fn set_row(&mut self, row: usize)
        ensures
            final(self).spec_row() == row,
            final(self).spec_col() == old(self).spec_col(),
    {
        self.row = row;
    }

    /// The column.
    pub fn get_col(&self) -> (c: usize)
        ensures
            c == self.spec_col(),
    {
        self.col
    }

    /// The row.
    pub fn get_row(&self) -> (r: usize)
        ensures
            r == self.spec_row(),
    {
        self.row
    }
}

} // verus!
