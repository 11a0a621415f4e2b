//! The board: the grid of digits and, derived from it, one table each for
//! rows, columns and boxes that records which digits are in use.

use vstd::prelude::*;
use crate::rules::{
    blank_grid, box_has, col_has, complete, consistent, flat, in_grid, is_digit, legal, lemma_clear,
    lemma_place, row_has, shaped, with_cell,
};

verus! {

/// A 9×9 Sudoku board with its presence tables.
pub struct Sudoku {
    grid: [[u8; 9]; 9],
    rows: [[bool; 10]; 9],
    cols: [[bool; 10]; 9],
    boxes: [[bool; 10]; 9],
}

impl View for Sudoku {
    type V = Seq<Seq<u8>>;

    /// The grid as nine rows of nine entries; `0` is a blank.
    closed spec fn view(&self) -> Seq<Seq<u8>> {
        Seq::new(9, |r: int| Seq::new(9, |c: int| self.grid[r][c]))
    }
}

impl Sudoku {
    /// Whether the row table records digit `d` in row `r`.
    pub closed spec fn row_used(&self, r: int, d: int) -> bool {
        self.rows[r][d]
    }

    /// Whether the column table records digit `d` in column `c`.
    pub closed spec fn col_used(&self, c: int, d: int) -> bool {
        self.cols[c][d]
    }

    /// Whether the box table records digit `d` in box `b`.
    pub closed spec fn box_used(&self, b: int, d: int) -> bool {
        self.boxes[b][d]
    }

    /// The board's invariant: the grid is shaped and consistent, and each
    /// presence table says exactly which digits its line holds.
    pub open spec fn wf(&self) -> bool {
        &&& shaped(self@)
        &&& consistent(self@)
        &&& forall|r: int, d: int|
            0 <= r < 9 && is_digit(d) ==> #[trigger] self.row_used(r, d) == row_has(self@, r, d)
        &&& forall|c: int, d: int|
            0 <= c < 9 && is_digit(d) ==> #[trigger] self.col_used(c, d) == col_has(self@, c, d)
        &&& forall|b: int, d: int|
            0 <= b < 9 && is_digit(d) ==> #[trigger] self.box_used(b, d) == box_has(self@, b, d)
    }

    /// An empty board: every cell blank, no digit in use.
    pub fn new() -> (s: Sudoku)
        ensures
            s.wf(),
            s@ == blank_grid(),
    {
        let s = Sudoku {
            grid: [[0u8; 9]; 9],
            rows: [[false; 10]; 9],
            cols: [[false; 10]; 9],
            boxes: [[false; 10]; 9],
        };
        assert(s@ =~~= blank_grid());
        s
    }

    /// The grid as a flat sequence of 81 entries, row after row.
    pub fn get_grid(&self) -> (cells: Vec<u8>)
        ensures
            cells@ == flat(self@),
    {
        let mut cells: Vec<u8> = Vec::new();
        let mut r: usize = 0;
        while r < 9
            invariant
                r <= 9,
                cells@.len() == r * 9,
                forall|i: int| 0 <= i < cells@.len() ==> cells@[i] == self@[i / 9][i % 9],
            decreases 9 - r,
        {
            let mut c: usize = 0;
            while c < 9
                invariant
                    r < 9,
                    c <= 9,
                    cells@.len() == r * 9 + c,
                    forall|i: int| 0 <= i < cells@.len() ==> cells@[i] == self@[i / 9][i % 9],
                decreases 9 - c,
            {
                cells.push(self.grid[r][c]);
                c += 1;
            }
            r += 1;
        }
        assert(cells@ =~= flat(self@));
        cells
    }

    /// The entry at `(r, c)`: a digit, or `0` for a blank.
    pub fn digit_at(&self, r: usize, c: usize) -> (d: u8)
        requires
            in_grid(r as int, c as int),
        ensures
            d == self@[r as int][c as int],
    {
        self.grid[r][c]
    }

    /// The first blank cell in row-major order, if the grid has one.
    pub fn find_blank(&self) -> (found: Option<(usize, usize)>)
        ensures
            match found {
                Some((r, c)) => {
                    &&& in_grid(r as int, c as int)
                    &&& self@[r as int][c as int] == 0
                    &&& forall|r2: int, c2: int|
                        in_grid(r2, c2) && (r2 < r || (r2 == r && c2 < c))
                            ==> #[trigger] self@[r2][c2] != 0
                },
                None => complete(self@),
            },
    {
        let mut r: usize = 0;
        while r < 9
            invariant
                r <= 9,
                forall|r2: int, c2: int|
                    in_grid(r2, c2) && r2 < r ==> #[trigger] self@[r2][c2] != 0,
            decreases 9 - r,
        {
            let mut c: usize = 0;
            while c < 9
                invariant
                    r < 9,
                    c <= 9,
                    forall|r2: int, c2: int|
                        in_grid(r2, c2) && (r2 < r || (r2 == r && c2 < c))
                            ==> #[trigger] self@[r2][c2] != 0,
                decreases 9 - c,
            {
                if self.grid[r][c] == 0 {
                    return Some((r, c));
                }
                c += 1;
            }
            r += 1;
        }
        None
    }

    /// Whether digit `num` may be placed at `(r, c)`: it stands nowhere in
    /// that cell's row, column or box.
    pub fn is_safe(&self, r: usize, c: usize, num: u8) -> (ok: bool)
        requires
            self.wf(),
            in_grid(r as int, c as int),
            is_digit(num as int),
        ensures
            ok == legal(self@, r as int, c as int, num as int),
    {
        let b: usize = (r / 3) * 3 + c / 3;
        let d: usize = num as usize;
        assert(self.row_used(r as int, d as int) == row_has(self@, r as int, d as int));
        assert(self.col_used(c as int, d as int) == col_has(self@, c as int, d as int));
        assert(self.box_used(b as int, d as int) == box_has(self@, b as int, d as int));
        !self.rows[r][d] && !self.cols[c][d] && !self.boxes[b][d]
    }

    /// Places digit `num` at the blank cell `(r, c)` (`place`), or clears
    /// the cell, which holds `num` (`!place`). The grid and the three
    /// presence tables change together.
    pub fn place_num(&mut self, r: usize, c: usize, num: u8, place: bool)
        requires
            old(self).wf(),
            in_grid(r as int, c as int),
            is_digit(num as int),
            place ==> old(self)@[r as int][c as int] == 0 && legal(
                old(self)@,
                r as int,
                c as int,
                num as int,
            ),
            !place ==> old(self)@[r as int][c as int] == num,
        ensures
            final(self).wf(),
            final(self)@ == with_cell(old(self)@, r as int, c as int, if place { num } else { 0 }),
    {
        let b: usize = (r / 3) * 3 + c / 3;
        let d: usize = num as usize;
        let ghost g = self@;
        let ghost v: u8 = if place { num } else { 0 };
        self.grid[r][c] = if place { num } else { 0 };
        self.rows[r][d] = place;
        self.cols[c][d] = place;
        self.boxes[b][d] = place;
        assert(self@ =~~= with_cell(g, r as int, c as int, v));
        proof {
            if place {
                lemma_place(g, r as int, c as int, num);
            } else {
                lemma_clear(g, r as int, c as int);
            }
            assert forall|r2: int, d2: int| 0 <= r2 < 9 && is_digit(d2) implies
                #[trigger] self.row_used(r2, d2) == row_has(self@, r2, d2) by {
                assert(old(self).row_used(r2, d2) == row_has(g, r2, d2));
            }
            assert forall|c2: int, d2: int| 0 <= c2 < 9 && is_digit(d2) implies
                #[trigger] self.col_used(c2, d2) == col_has(self@, c2, d2) by {
                assert(old(self).col_used(c2, d2) == col_has(g, c2, d2));
            }
            assert forall|b2: int, d2: int| 0 <= b2 < 9 && is_digit(d2) implies
                #[trigger] self.box_used(b2, d2) == box_has(self@, b2, d2) by {
                assert(old(self).box_used(b2, d2) == box_has(g, b2, d2));
            }
        }
    }

    /// An independent copy of the board.
    pub fn clone(&self) -> (copy: Sudoku)
        ensures
            copy == *self,
    {
        Sudoku { grid: self.grid, rows: self.rows, cols: self.cols, boxes: self.boxes }
    }
}

} // verus!
