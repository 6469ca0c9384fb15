//! The 81-cell grid and the positions that index into it.

use vstd::prelude::*;

verus! {

/// One cell of the 9x9 grid, identified by row and column, both in 0..9.
#[derive(Copy, Clone, PartialEq, Eq, Structural)]
pub struct Position {
    pub row: usize,
    pub col: usize,
}

/// Index of the cell (r, c) in the flat 81-cell sequence.
pub open spec fn cell_index(r: int, c: int) -> int {
    r * 9 + c
}

/// The 9x9 grid, stored row-major as 81 cells. A cell holds 0 when empty,
/// otherwise one of the symbols 1..=9.
#[derive(Debug)]
pub struct SudokuBoard {
    board: Vec<u8>,
}

impl View for SudokuBoard {
    type V = Seq<u8>;

    closed spec fn view(&self) -> Seq<u8> {
        self.board@
    }
}

impl SudokuBoard {
    /// A well-formed grid has exactly 81 cells, each holding 0..=9.
    pub open spec fn wf(&self) -> bool {
        grid_wf(self@)
    }

    pub fn get_tile_value(&self, row: usize, col: usize) -> (v: u8)
        requires
            self.wf(),
            row < 9,
            col < 9,
        ensures
            v == self@[cell_index(row as int, col as int)],
            v <= 9,
    {
        self.board[row * 9 + col]
    }

    pub fn set_tile_value(&mut self, row: usize, col: usize, value: u8)
        requires
            old(self).wf(),
            row < 9,
            col < 9,
            value <= 9,
        ensures
            final(self).wf(),
            final(self)@ == old(self)@.update(cell_index(row as int, col as int), value),
    {
        self.board[row * 9 + col] = value;
    }

    /// Wraps 81 prepared cell values as a grid.
    pub fn from_cells(cells: Vec<u8>) -> (r: Self)
        requires
            cells@.len() == 81,
            forall|i: int| 0 <= i < 81 ==> #[trigger] cells@[i] <= 9,
        ensures
            r.wf(),
            r@ == cells@,
    {
        SudokuBoard { board: cells }
    }

    /// An independent copy of the grid, so that a snapshot never shares
    /// storage with the live grid it was taken from.
    pub fn clone(&self) -> (r: Self)
        ensures
            r@ == self@,
    {
        let mut b: Vec<u8> = Vec::new();
        let mut i: usize = 0;
        while i < self.board.len()
            invariant
                i <= self.board@.len(),
                b@ == self.board@.subrange(0, i as int),
            decreases self.board@.len() - i,
        {
            b.push(self.board[i]);
            i = i + 1;
        }
        proof {
            assert(b@ =~= self.board@);
        }
        SudokuBoard { board: b }
    }
}

/// A sequence of cells forms a well-formed grid: 81 cells, each 0..=9.
pub open spec fn grid_wf(s: Seq<u8>) -> bool {
    s.len() == 81 && forall|i: int| 0 <= i < 81 ==> s[i] <= 9
}

} // verus!
