//! The rules of Sudoku, stated over a grid of nine rows of nine digits.
//!
//! A grid is a `Seq<Seq<u8>>`; `0` is a blank cell. Everything here is
//! ghost code: the contracts of the board are written in these terms.

use vstd::prelude::*;

verus! {

/// The index of the 3×3 box that holds cell `(r, c)`.
pub open spec fn box_of(r: int, c: int) -> int {
    (r / 3) * 3 + c / 3
}

/// `(r, c)` is a cell of the grid.
pub open spec fn in_grid(r: int, c: int) -> bool {
    0 <= r < 9 && 0 <= c < 9
}

/// `d` is one of the digits 1 to 9.
pub open spec fn is_digit(d: int) -> bool {
    1 <= d <= 9
}

/// Nine rows of nine entries, each entry blank or a digit.
pub open spec fn shaped(g: Seq<Seq<u8>>) -> bool {
    &&& g.len() == 9
    &&& forall|r: int| 0 <= r < 9 ==> (#[trigger] g[r]).len() == 9
    &&& forall|r: int, c: int| in_grid(r, c) ==> #[trigger] g[r][c] <= 9
}

/// Two different cells that share a row, a column or a box.
pub open spec fn peers(r1: int, c1: int, r2: int, c2: int) -> bool {
    &&& (r1 != r2 || c1 != c2)
    &&& (r1 == r2 || c1 == c2 || box_of(r1, c1) == box_of(r2, c2))
}

/// No digit stands twice in a row, a column or a box.
pub open spec fn consistent(g: Seq<Seq<u8>>) -> bool {
    forall|r1: int, c1: int, r2: int, c2: int|
        in_grid(r1, c1) && in_grid(r2, c2) && peers(r1, c1, r2, c2) && #[trigger] g[r1][c1] != 0
            ==> g[r1][c1] != #[trigger] g[r2][c2]
}

/// No cell is blank.
pub open spec fn complete(g: Seq<Seq<u8>>) -> bool {
    forall|r: int, c: int| in_grid(r, c) ==> #[trigger] g[r][c] != 0
}

/// `s` keeps every digit that `g` holds.
pub open spec fn extends(s: Seq<Seq<u8>>, g: Seq<Seq<u8>>) -> bool {
    forall|r: int, c: int|
        in_grid(r, c) && #[trigger] g[r][c] != 0 ==> #[trigger] s[r][c] == g[r][c]
}

/// `s` is a solution of `g`: a complete, consistent grid that keeps every
/// digit of `g`.
pub open spec fn solves(s: Seq<Seq<u8>>, g: Seq<Seq<u8>>) -> bool {
    shaped(s) && complete(s) && consistent(s) && extends(s, g)
}

/// `g` has at least one solution.
pub open spec fn solvable(g: Seq<Seq<u8>>) -> bool {
    exists|s: Seq<Seq<u8>>| solves(s, g)
}

/// Digit `d` stands somewhere in row `r`.
pub open spec fn row_has(g: Seq<Seq<u8>>, r: int, d: int) -> bool {
    exists|c: int| 0 <= c < 9 && #[trigger] g[r][c] == d
}

/// Digit `d` stands somewhere in column `c`.
pub open spec fn col_has(g: Seq<Seq<u8>>, c: int, d: int) -> bool {
    exists|r: int| 0 <= r < 9 && #[trigger] g[r][c] == d
}

/// Digit `d` stands somewhere in box `b`.
pub open spec fn box_has(g: Seq<Seq<u8>>, b: int, d: int) -> bool {
    exists|r: int, c: int| in_grid(r, c) && box_of(r, c) == b && #[trigger] g[r][c] == d
}

/// Digit `d` stands nowhere in the row, the column or the box of `(r, c)`.
pub open spec fn legal(g: Seq<Seq<u8>>, r: int, c: int, d: int) -> bool {
    !row_has(g, r, d) && !col_has(g, c, d) && !box_has(g, box_of(r, c), d)
}

/// The grid `g` with cell `(r, c)` set to `d`.
pub open spec fn with_cell(g: Seq<Seq<u8>>, r: int, c: int, d: u8) -> Seq<Seq<u8>> {
    g.update(r, g[r].update(c, d))
}

/// `h` is `g` with some cells blanked: every cell of `h` holds what it
/// holds in `g`, or nothing.
pub open spec fn blanked_from(h: Seq<Seq<u8>>, g: Seq<Seq<u8>>) -> bool {
    forall|r: int, c: int| in_grid(r, c) ==> #[trigger] h[r][c] == g[r][c] || h[r][c] == 0
}

/// The grid with every cell blank.
pub open spec fn blank_grid() -> Seq<Seq<u8>> {
    Seq::new(9, |r: int| Seq::new(9, |c: int| 0u8))
}

/// The 81 cells of `g`, row after row.
pub open spec fn flat(g: Seq<Seq<u8>>) -> Seq<u8> {
    Seq::new(81, |i: int| g[i / 9][i % 9])
}

/// What placing a digit at a blank, legal cell does: the grid stays
/// consistent, and exactly the digit's own row, column and box gain it.
pub proof fn lemma_place(g: Seq<Seq<u8>>, r: int, c: int, d: u8)
    requires
        shaped(g),
        consistent(g),
        in_grid(r, c),
        is_digit(d as int),
        g[r][c] == 0,
        legal(g, r, c, d as int),
    ensures
        shaped(with_cell(g, r, c, d)),
        consistent(with_cell(g, r, c, d)),
        forall|r2: int, d2: int|
            0 <= r2 < 9 && is_digit(d2) ==> #[trigger] row_has(with_cell(g, r, c, d), r2, d2) == (
            row_has(g, r2, d2) || (r2 == r && d2 == d)),
        forall|c2: int, d2: int|
            0 <= c2 < 9 && is_digit(d2) ==> #[trigger] col_has(with_cell(g, r, c, d), c2, d2) == (
            col_has(g, c2, d2) || (c2 == c && d2 == d)),
        forall|b2: int, d2: int|
            0 <= b2 < 9 && is_digit(d2) ==> #[trigger] box_has(with_cell(g, r, c, d), b2, d2) == (
            box_has(g, b2, d2) || (b2 == box_of(r, c) && d2 == d)),
{
    let h = with_cell(g, r, c, d);
    assert forall|r2: int, c2: int| in_grid(r2, c2) implies #[trigger] h[r2][c2] == (if r2 == r
        && c2 == c {
        d
    } else {
        g[r2][c2]
    }) by {}
    assert(h[r][c] == d);
    assert forall|r2: int, d2: int| 0 <= r2 < 9 && is_digit(d2) implies #[trigger] row_has(
        h,
        r2,
        d2,
    ) == (row_has(g, r2, d2) || (r2 == r && d2 == d)) by {
        if row_has(g, r2, d2) {
            let c3 = choose|c3: int| 0 <= c3 < 9 && #[trigger] g[r2][c3] == d2;
            assert(h[r2][c3] == d2);
        }
        if row_has(h, r2, d2) {
            let c3 = choose|c3: int| 0 <= c3 < 9 && #[trigger] h[r2][c3] == d2;
            if !(r2 == r && c3 == c) {
                assert(g[r2][c3] == d2);
            }
        }
    }
    assert forall|c2: int, d2: int| 0 <= c2 < 9 && is_digit(d2) implies #[trigger] col_has(
        h,
        c2,
        d2,
    ) == (col_has(g, c2, d2) || (c2 == c && d2 == d)) by {
        if col_has(g, c2, d2) {
            let r3 = choose|r3: int| 0 <= r3 < 9 && #[trigger] g[r3][c2] == d2;
            assert(h[r3][c2] == d2);
        }
        if col_has(h, c2, d2) {
            let r3 = choose|r3: int| 0 <= r3 < 9 && #[trigger] h[r3][c2] == d2;
            if !(r3 == r && c2 == c) {
                assert(g[r3][c2] == d2);
            }
        }
    }
    assert forall|b2: int, d2: int| 0 <= b2 < 9 && is_digit(d2) implies #[trigger] box_has(
        h,
        b2,
        d2,
    ) == (box_has(g, b2, d2) || (b2 == box_of(r, c) && d2 == d)) by {
        if box_has(g, b2, d2) {
            let (r3, c3) = choose|r3: int, c3: int|
                in_grid(r3, c3) && box_of(r3, c3) == b2 && #[trigger] g[r3][c3] == d2;
            assert(h[r3][c3] == d2);
        }
        if box_has(h, b2, d2) {
            let (r3, c3) = choose|r3: int, c3: int|
                in_grid(r3, c3) && box_of(r3, c3) == b2 && #[trigger] h[r3][c3] == d2;
            if !(r3 == r && c3 == c) {
                assert(g[r3][c3] == d2);
            }
        }
    }
    assert forall|r1: int, c1: int, r2: int, c2: int|
        in_grid(r1, c1) && in_grid(r2, c2) && peers(r1, c1, r2, c2) && #[trigger] h[r1][c1]
            != 0 implies h[r1][c1] != #[trigger] h[r2][c2] by {
        if r1 == r && c1 == c {
            assert(g[r2][c2] != d);
        } else if r2 == r && c2 == c {
            assert(g[r1][c1] != d);
        } else {
            assert(g[r1][c1] != g[r2][c2]);
        }
    }
}

/// What clearing a filled cell does: the grid stays consistent, and exactly
/// the cell's own row, column and box lose its digit.
pub proof fn lemma_clear(g: Seq<Seq<u8>>, r: int, c: int)
    requires
        shaped(g),
        consistent(g),
        in_grid(r, c),
        g[r][c] != 0,
    ensures
        shaped(with_cell(g, r, c, 0)),
        consistent(with_cell(g, r, c, 0)),
        forall|r2: int, d2: int|
            0 <= r2 < 9 && is_digit(d2) ==> #[trigger] row_has(with_cell(g, r, c, 0), r2, d2) == (
            row_has(g, r2, d2) && !(r2 == r && d2 == g[r][c])),
        forall|c2: int, d2: int|
            0 <= c2 < 9 && is_digit(d2) ==> #[trigger] col_has(with_cell(g, r, c, 0), c2, d2) == (
            col_has(g, c2, d2) && !(c2 == c && d2 == g[r][c])),
        forall|b2: int, d2: int|
            0 <= b2 < 9 && is_digit(d2) ==> #[trigger] box_has(with_cell(g, r, c, 0), b2, d2) == (
            box_has(g, b2, d2) && !(b2 == box_of(r, c) && d2 == g[r][c])),
{
    let h = with_cell(g, r, c, 0);
    let d = g[r][c];
    assert forall|r2: int, c2: int| in_grid(r2, c2) implies #[trigger] h[r2][c2] == (if r2 == r
        && c2 == c {
        0u8
    } else {
        g[r2][c2]
    }) by {}
    assert(h[r][c] == 0);
    assert forall|r2: int, d2: int| 0 <= r2 < 9 && is_digit(d2) implies #[trigger] row_has(
        h,
        r2,
        d2,
    ) == (row_has(g, r2, d2) && !(r2 == r && d2 == d)) by {
        if row_has(g, r2, d2) && !(r2 == r && d2 == d) {
            let c3 = choose|c3: int| 0 <= c3 < 9 && #[trigger] g[r2][c3] == d2;
            assert(h[r2][c3] == d2);
        }
        if row_has(h, r2, d2) {
            let c3 = choose|c3: int| 0 <= c3 < 9 && #[trigger] h[r2][c3] == d2;
            assert(g[r2][c3] == d2);
            if r2 == r && d2 == d {
                assert(peers(r, c, r2, c3));
            }
        }
    }
    assert forall|c2: int, d2: int| 0 <= c2 < 9 && is_digit(d2) implies #[trigger] col_has(
        h,
        c2,
        d2,
    ) == (col_has(g, c2, d2) && !(c2 == c && d2 == d)) by {
        if col_has(g, c2, d2) && !(c2 == c && d2 == d) {
            let r3 = choose|r3: int| 0 <= r3 < 9 && #[trigger] g[r3][c2] == d2;
            assert(h[r3][c2] == d2);
        }
        if col_has(h, c2, d2) {
            let r3 = choose|r3: int| 0 <= r3 < 9 && #[trigger] h[r3][c2] == d2;
            assert(g[r3][c2] == d2);
            if c2 == c && d2 == d {
                assert(peers(r, c, r3, c2));
            }
        }
    }
    assert forall|b2: int, d2: int| 0 <= b2 < 9 && is_digit(d2) implies #[trigger] box_has(
        h,
        b2,
        d2,
    ) == (box_has(g, b2, d2) && !(b2 == box_of(r, c) && d2 == d)) by {
        if box_has(g, b2, d2) && !(b2 == box_of(r, c) && d2 == d) {
            let (r3, c3) = choose|r3: int, c3: int|
                in_grid(r3, c3) && box_of(r3, c3) == b2 && #[trigger] g[r3][c3] == d2;
            assert(h[r3][c3] == d2);
        }
        if box_has(h, b2, d2) {
            let (r3, c3) = choose|r3: int, c3: int|
                in_grid(r3, c3) && box_of(r3, c3) == b2 && #[trigger] h[r3][c3] == d2;
            assert(g[r3][c3] == d2);
            if b2 == box_of(r, c) && d2 == d {
                assert(peers(r, c, r3, c3));
            }
        }
    }
    assert forall|r1: int, c1: int, r2: int, c2: int|
        in_grid(r1, c1) && in_grid(r2, c2) && peers(r1, c1, r2, c2) && #[trigger] h[r1][c1]
            != 0 implies h[r1][c1] != #[trigger] h[r2][c2] by {
        if r2 == r && c2 == c {
        } else {
            assert(g[r1][c1] != g[r2][c2]);
        }
    }
}

} // verus!
