//! Laws of the library: what holds of every complete grid, of every
//! placement, and of every carving.

use vstd::prelude::*;
use vstd::set_lib::{lemma_int_range, lemma_len_subset, lemma_subset_equality, set_int_range};
use crate::carver::{carved, cells_in_grid, holes_kept, lemma_blank_cell, lemma_carved, removable};
use crate::rules::{
    blank_grid, blanked_from, box_has, box_of, col_has, complete, consistent, extends, in_grid, is_digit, legal,
    lemma_place, peers, row_has, shaped, solvable, solves, with_cell,
};
use crate::solutions::{
    blanks, blanks_in, lemma_blanks_in_with_cell, lemma_complete_unique, lemma_solvable_count,
    lemma_up_to_two_subset, solution_count, solutions, uniquely_solvable,
};

verus! {

/// Nine different digits are all the digits: each of 1 to 9 is among them.
pub proof fn lemma_nine_distinct_digits(vals: Seq<int>)
    requires
        vals.len() == 9,
        vals.no_duplicates(),
        forall|i: int| 0 <= i < 9 ==> is_digit(#[trigger] vals[i]),
    ensures
        forall|d: int| is_digit(d) ==> vals.contains(d),
{
    let digits = set_int_range(1, 10);
    let seen = vals.to_set();
    lemma_int_range(1, 10);
    vals.unique_seq_to_set();
    assert forall|d: int| seen.contains(d) implies digits.contains(d) by {
        let i = choose|i: int| 0 <= i < vals.len() && vals[i] == d;
        assert(is_digit(vals[i]));
    }
    assert(seen.subset_of(digits));
    lemma_len_subset(seen, digits);
    lemma_subset_equality(seen, digits);
    assert forall|d: int| is_digit(d) implies vals.contains(d) by {
        assert(digits.contains(d));
        assert(seen.contains(d));
    }
}

/// In a complete, consistent grid every row holds each digit exactly once.
pub proof fn lemma_rows_hold_each_digit_once(g: Seq<Seq<u8>>)
    requires
        shaped(g),
        complete(g),
        consistent(g),
    ensures
        forall|r: int, d: int| 0 <= r < 9 && is_digit(d) ==> #[trigger] row_has(g, r, d),
        forall|r: int, c1: int, c2: int|
            0 <= r < 9 && 0 <= c1 < 9 && 0 <= c2 < 9 && #[trigger] g[r][c1] == #[trigger] g[r][c2]
                ==> c1 == c2,
{
    assert forall|r: int, c1: int, c2: int|
        0 <= r < 9 && 0 <= c1 < 9 && 0 <= c2 < 9 && #[trigger] g[r][c1] == #[trigger] g[r][c2]
        implies c1 == c2 by {
        if c1 != c2 {
            assert(peers(r, c1, r, c2));
            assert(g[r][c1] != 0);
        }
    }
    assert forall|r: int, d: int| 0 <= r < 9 && is_digit(d) implies #[trigger] row_has(
        g,
        r,
        d,
    ) by {
        let vals = Seq::new(9, |c: int| g[r][c] as int);
        assert forall|i: int| 0 <= i < 9 implies is_digit(#[trigger] vals[i]) by {
            assert(g[r][i] != 0 && g[r][i] <= 9);
        }
        lemma_nine_distinct_digits(vals);
        let c = choose|c: int| 0 <= c < vals.len() && vals[c] == d;
        assert(g[r][c] == d);
    }
}

/// In a complete, consistent grid every column holds each digit exactly
/// once.
pub proof fn lemma_columns_hold_each_digit_once(g: Seq<Seq<u8>>)
    requires
        shaped(g),
        complete(g),
        consistent(g),
    ensures
        forall|c: int, d: int| 0 <= c < 9 && is_digit(d) ==> #[trigger] col_has(g, c, d),
        forall|c: int, r1: int, r2: int|
            0 <= c < 9 && 0 <= r1 < 9 && 0 <= r2 < 9 && #[trigger] g[r1][c] == #[trigger] g[r2][c]
                ==> r1 == r2,
{
    assert forall|c: int, r1: int, r2: int|
        0 <= c < 9 && 0 <= r1 < 9 && 0 <= r2 < 9 && #[trigger] g[r1][c] == #[trigger] g[r2][c]
        implies r1 == r2 by {
        if r1 != r2 {
            assert(peers(r1, c, r2, c));
            assert(g[r1][c] != 0);
        }
    }
    assert forall|c: int, d: int| 0 <= c < 9 && is_digit(d) implies #[trigger] col_has(
        g,
        c,
        d,
    ) by {
        let vals = Seq::new(9, |r: int| g[r][c] as int);
        assert forall|i: int| 0 <= i < 9 implies is_digit(#[trigger] vals[i]) by {
            assert(g[i][c] != 0 && g[i][c] <= 9);
        }
        lemma_nine_distinct_digits(vals);
        let r = choose|r: int| 0 <= r < vals.len() && vals[r] == d;
        assert(g[r][c] == d);
    }
}

/// In a complete, consistent grid every box holds each digit exactly once.
pub proof fn lemma_boxes_hold_each_digit_once(g: Seq<Seq<u8>>)
    requires
        shaped(g),
        complete(g),
        consistent(g),
    ensures
        forall|b: int, d: int| 0 <= b < 9 && is_digit(d) ==> #[trigger] box_has(g, b, d),
        forall|r1: int, c1: int, r2: int, c2: int|
            in_grid(r1, c1) && in_grid(r2, c2) && box_of(r1, c1) == box_of(r2, c2)
                && #[trigger] g[r1][c1] == #[trigger] g[r2][c2] ==> r1 == r2 && c1 == c2,
{
    assert forall|r1: int, c1: int, r2: int, c2: int|
        in_grid(r1, c1) && in_grid(r2, c2) && box_of(r1, c1) == box_of(r2, c2)
            && #[trigger] g[r1][c1] == #[trigger] g[r2][c2] implies r1 == r2 && c1 == c2 by {
        if r1 != r2 || c1 != c2 {
            assert(peers(r1, c1, r2, c2));
            assert(g[r1][c1] != 0);
        }
    }
    assert forall|b: int, d: int| 0 <= b < 9 && is_digit(d) implies #[trigger] box_has(
        g,
        b,
        d,
    ) by {
        let r0 = (b / 3) * 3;
        let c0 = (b % 3) * 3;
        let vals = Seq::new(9, |k: int| g[r0 + k / 3][c0 + k % 3] as int);
        assert forall|k: int| 0 <= k < 9 implies is_digit(#[trigger] vals[k]) by {
            assert(in_grid(r0 + k / 3, c0 + k % 3));
            assert(g[r0 + k / 3][c0 + k % 3] != 0 && g[r0 + k / 3][c0 + k % 3] <= 9);
        }
        assert forall|i: int, j: int| 0 <= i < 9 && 0 <= j < 9 && i != j implies vals[i]
            != vals[j] by {
            assert(in_grid(r0 + i / 3, c0 + i % 3));
            assert(in_grid(r0 + j / 3, c0 + j % 3));
            assert(box_of(r0 + i / 3, c0 + i % 3) == b);
            assert(box_of(r0 + j / 3, c0 + j % 3) == b);
        }
        lemma_nine_distinct_digits(vals);
        let k = choose|k: int| 0 <= k < vals.len() && vals[k] == d;
        assert(in_grid(r0 + k / 3, c0 + k % 3));
        assert(box_of(r0 + k / 3, c0 + k % 3) == b);
        assert(g[r0 + k / 3][c0 + k % 3] == d);
    }
}

/// A complete, consistent grid: each row is the row above shifted by
/// three, and by one more at every third row.
pub open spec fn shifted_grid() -> Seq<Seq<u8>> {
    Seq::new(9, |r: int| Seq::new(9, |c: int| (((r % 3) * 3 + r / 3 + c) % 9 + 1) as u8))
}

/// The blank grid can be completed, so generation on a new board succeeds.
pub proof fn lemma_blank_grid_solvable()
    ensures
        shaped(shifted_grid()),
        complete(shifted_grid()),
        consistent(shifted_grid()),
        solves(shifted_grid(), blank_grid()),
        solvable(blank_grid()),
{
    let w = shifted_grid();
    assert forall|r: int, c: int| in_grid(r, c) implies #[trigger] w[r][c] == ((r % 3) * 3 + r / 3
        + c) % 9 + 1 by {}
    assert forall|r1: int, c1: int, r2: int, c2: int|
        in_grid(r1, c1) && in_grid(r2, c2) && peers(r1, c1, r2, c2) && #[trigger] w[r1][c1]
            != 0 implies w[r1][c1] != #[trigger] w[r2][c2] by {
        lemma_shift_differs(r1, c1, r2, c2);
    }
    assert forall|r: int, c: int| in_grid(r, c) && #[trigger] blank_grid()[r][c] != 0 implies
        #[trigger] w[r][c] == blank_grid()[r][c] by {}
    assert(shaped(w));
    assert(complete(w));
    assert(consistent(w));
    assert(extends(w, blank_grid()));
    assert(solves(w, blank_grid()));
}

/// Two peers differ in the shifted grid.
proof fn lemma_shift_differs(r1: int, c1: int, r2: int, c2: int)
    requires
        in_grid(r1, c1),
        in_grid(r2, c2),
        peers(r1, c1, r2, c2),
    ensures
        ((r1 % 3) * 3 + r1 / 3 + c1) % 9 != ((r2 % 3) * 3 + r2 / 3 + c2) % 9,
{
    let a = (r1 % 3) * 3 + r1 / 3 + c1;
    let b = (r2 % 3) * 3 + r2 / 3 + c2;
    let q1 = r1 / 3;
    let m1 = r1 % 3;
    let q2 = r2 / 3;
    let m2 = r2 % 3;
    assert(r1 == 3 * q1 + m1 && 0 <= m1 < 3 && 0 <= q1 < 3);
    assert(r2 == 3 * q2 + m2 && 0 <= m2 < 3 && 0 <= q2 < 3);
    assert(-9 < a - b < 9 && a != b) by {
        if r1 == r2 {
            assert(a - b == c1 - c2);
        } else if c1 == c2 {
            assert(a - b == 3 * (m1 - m2) + (q1 - q2));
        } else {
            let k1 = c1 / 3;
            let k2 = c2 / 3;
            assert(c1 == 3 * k1 + c1 % 3 && c2 == 3 * k2 + c2 % 3);
            assert(q1 * 3 + k1 == q2 * 3 + k2);
            assert(0 <= k1 < 3 && 0 <= k2 < 3);
            assert(q1 == q2 && k1 == k2);
            assert(a - b == 3 * (m1 - m2) + (c1 % 3 - c2 % 3));
        }
    }
    if a % 9 == b % 9 {
        lemma_close_residues(a, b);
    }
}

/// Two numbers less than nine apart with the same remainder by nine are
/// equal.
proof fn lemma_close_residues(a: int, b: int)
    requires
        -9 < a - b < 9,
        a % 9 == b % 9,
    ensures
        a == b,
{
    assert(a == 9 * (a / 9) + a % 9);
    assert(b == 9 * (b / 9) + b % 9);
}

/// After digit `d` was placed at the blank cell `(r, c)`, `d` is legal
/// neither there nor at any cell of the same row, column or box; whether
/// another digit is legal at `(r, c)` is as it was before.
pub proof fn lemma_placed_digit_blocks(g: Seq<Seq<u8>>, r: int, c: int, d: u8)
    requires
        shaped(g),
        consistent(g),
        in_grid(r, c),
        is_digit(d as int),
        g[r][c] == 0,
        legal(g, r, c, d as int),
    ensures
        forall|r2: int, c2: int|
            in_grid(r2, c2) && (r2 == r || c2 == c || box_of(r2, c2) == box_of(r, c)) ==> !legal(
                with_cell(g, r, c, d),
                r2,
                c2,
                d as int,
            ),
        forall|d2: int|
            is_digit(d2) && d2 != d
                ==> legal(with_cell(g, r, c, d), r, c, d2) == legal(g, r, c, d2),
{
    lemma_place(g, r, c, d);
    let h = with_cell(g, r, c, d);
    assert forall|r2: int, c2: int|
        in_grid(r2, c2) && (r2 == r || c2 == c || box_of(r2, c2) == box_of(r, c)) implies !legal(
        h,
        r2,
        c2,
        d as int,
    ) by {
        assert(row_has(h, r, d as int));
        assert(col_has(h, c, d as int));
        assert(box_has(h, box_of(r, c), d as int));
        assert(0 <= box_of(r2, c2) < 9);
    }
    assert forall|d2: int| is_digit(d2) && d2 != d implies legal(h, r, c, d2) == legal(
        g,
        r,
        c,
        d2,
    ) by {
        assert(row_has(h, r, d2) == row_has(g, r, d2));
        assert(col_has(h, c, d2) == col_has(g, c, d2));
        assert(0 <= box_of(r, c) < 9);
        assert(box_has(h, box_of(r, c), d2) == box_has(g, box_of(r, c), d2));
    }
}

/// Carving a complete grid leaves a puzzle whose one solution is that
/// grid, however many cells of the order were visited.
pub proof fn lemma_carved_puzzle_solution(
    s: Seq<Seq<u8>>,
    order: Seq<(usize, usize)>,
    holes: nat,
    visited: int,
)
    requires
        shaped(s),
        complete(s),
        consistent(s),
        cells_in_grid(order),
        0 <= visited <= order.len(),
    ensures
        solves(s, carved(s, order.take(visited), holes)),
        uniquely_solvable(carved(s, order.take(visited), holes)),
        forall|t: Seq<Seq<u8>>| solves(t, carved(s, order.take(visited), holes)) ==> t == s,
{
    let part = order.take(visited);
    assert forall|i: int| 0 <= i < part.len() implies in_grid(
        (#[trigger] part[i]).0 as int,
        part[i].1 as int,
    ) by {
        assert(part[i] == order[i]);
    }
    lemma_complete_unique(s);
    lemma_carved(s, part, holes);
    let p = carved(s, part, holes);
    assert(solves(s, p));
    assert forall|t: Seq<Seq<u8>>| solves(t, p) implies t == s by {
        assert(solutions(p).contains(t));
        assert(solutions(p).contains(s));
    }
}

/// Carving never loses uniqueness: from a grid with exactly one solution,
/// the grid after any number of visited cells has exactly one solution.
pub proof fn lemma_carving_keeps_uniqueness(
    g: Seq<Seq<u8>>,
    order: Seq<(usize, usize)>,
    holes: nat,
    visited: int,
)
    requires
        shaped(g),
        consistent(g),
        cells_in_grid(order),
        uniquely_solvable(g),
        0 <= visited <= order.len(),
    ensures
        uniquely_solvable(carved(g, order.take(visited), holes)),
{
    let part = order.take(visited);
    assert forall|i: int| 0 <= i < part.len() implies in_grid(
        (#[trigger] part[i]).0 as int,
        part[i].1 as int,
    ) by {
        assert(part[i] == order[i]);
    }
    lemma_carved(g, part, holes);
}

/// Carving with a target of no holes changes nothing.
pub proof fn lemma_carving_nothing(g: Seq<Seq<u8>>, order: Seq<(usize, usize)>)
    ensures
        carved(g, order, 0) == g,
{
}

/// A carving keeps no more removals than its target.
pub proof fn lemma_holes_kept_bound(g: Seq<Seq<u8>>, order: Seq<(usize, usize)>, holes: nat)
    ensures
        holes_kept(g, order, holes) <= holes,
        holes_kept(g, order, holes) <= order.len(),
    decreases order.len(),
{
    if order.len() == 0 || holes == 0 {
    } else if removable(g, order[0].0 as int, order[0].1 as int) {
        lemma_holes_kept_bound(
            with_cell(g, order[0].0 as int, order[0].1 as int, 0),
            order.drop_first(),
            (holes - 1) as nat,
        );
    } else {
        lemma_holes_kept_bound(g, order.drop_first(), holes);
    }
}

/// Carving along an order is carving along its first part and then, from
/// the grid so reached and with the target that is left, along the rest.
pub proof fn lemma_carving_in_two_parts(
    g: Seq<Seq<u8>>,
    first: Seq<(usize, usize)>,
    rest: Seq<(usize, usize)>,
    holes: nat,
)
    ensures
        holes_kept(g, first, holes) <= holes,
        carved(g, first + rest, holes) == carved(
            carved(g, first, holes),
            rest,
            (holes - holes_kept(g, first, holes)) as nat,
        ),
        holes_kept(g, first + rest, holes) == holes_kept(g, first, holes) + holes_kept(
            carved(g, first, holes),
            rest,
            (holes - holes_kept(g, first, holes)) as nat,
        ),
    decreases first.len(),
{
    lemma_holes_kept_bound(g, first, holes);
    if first.len() == 0 {
        assert(first + rest =~= rest);
    } else if holes == 0 {
    } else {
        let all = first + rest;
        assert(all[0] == first[0]);
        assert(all.drop_first() =~= first.drop_first() + rest);
        let r = first[0].0 as int;
        let c = first[0].1 as int;
        if removable(g, r, c) {
            lemma_carving_in_two_parts(
                with_cell(g, r, c, 0),
                first.drop_first(),
                rest,
                (holes - 1) as nat,
            );
        } else {
            lemma_carving_in_two_parts(g, first.drop_first(), rest, holes);
        }
    }
}

/// Blanking cells loses no solution.
pub proof fn lemma_blanking_keeps_solutions(h: Seq<Seq<u8>>, g: Seq<Seq<u8>>)
    requires
        blanked_from(h, g),
    ensures
        forall|s: Seq<Seq<u8>>| solves(s, g) ==> solves(s, h),
        solution_count(g) <= solution_count(h),
{
    assert forall|s: Seq<Seq<u8>>| solves(s, g) implies solves(s, h) by {
        assert forall|r: int, c: int| in_grid(r, c) && #[trigger] h[r][c] != 0 implies
            #[trigger] s[r][c] == h[r][c] by {
            assert(h[r][c] == g[r][c]);
        }
    }
    assert(solutions(g).subset_of(solutions(h)));
    lemma_up_to_two_subset(solutions(g), solutions(h));
}

/// A cell that cannot be blanked in a grid with a solution cannot be
/// blanked after other cells were blanked either.
pub proof fn lemma_not_removable_stays(h: Seq<Seq<u8>>, g: Seq<Seq<u8>>, r: int, c: int)
    requires
        shaped(g),
        shaped(h),
        solvable(g),
        blanked_from(h, g),
        in_grid(r, c),
        !removable(g, r, c),
    ensures
        !removable(h, r, c),
{
    let g0 = with_cell(g, r, c, 0);
    let h0 = with_cell(h, r, c, 0);
    assert forall|r2: int, c2: int| in_grid(r2, c2) implies #[trigger] g0[r2][c2] == g[r2][c2]
        || g0[r2][c2] == 0 by {}
    assert forall|r2: int, c2: int| in_grid(r2, c2) implies #[trigger] h0[r2][c2] == g0[r2][c2]
        || h0[r2][c2] == 0 by {
        assert(h[r2][c2] == g[r2][c2] || h[r2][c2] == 0);
    }
    lemma_solvable_count(g);
    lemma_blanking_keeps_solutions(g0, g);
    lemma_blanking_keeps_solutions(h0, g0);
}

/// A carving that ends short of its target has left nothing to remove:
/// from a grid that has a solution, no visited cell that still holds a
/// digit can be blanked without losing uniqueness.
pub proof fn lemma_carving_is_maximal(g: Seq<Seq<u8>>, order: Seq<(usize, usize)>, holes: nat)
    requires
        shaped(g),
        consistent(g),
        solvable(g),
        cells_in_grid(order),
    ensures
        holes_kept(g, order, holes) < holes ==> forall|i: int|
            0 <= i < order.len()
                && carved(g, order, holes)[(#[trigger] order[i]).0 as int][order[i].1 as int] != 0
                ==> !removable(carved(g, order, holes), order[i].0 as int, order[i].1 as int),
    decreases order.len(),
{
    if order.len() == 0 || holes == 0 {
    } else {
        let r = order[0].0 as int;
        let c = order[0].1 as int;
        let rest = order.drop_first();
        let out = carved(g, order, holes);
        assert(in_grid(r, c));
        assert forall|i: int| 0 <= i < rest.len() implies in_grid(
            (#[trigger] rest[i]).0 as int,
            rest[i].1 as int,
        ) by {
            assert(rest[i] == order[i + 1]);
        }
        lemma_blank_cell(g, r, c);
        if removable(g, r, c) {
            let h = with_cell(g, r, c, 0);
            lemma_solvable_count(h);
            lemma_carved(h, rest, (holes - 1) as nat);
            lemma_carving_is_maximal(h, rest, (holes - 1) as nat);
            assert(out[r][c] == 0);
            if holes_kept(g, order, holes) < holes {
                assert forall|i: int|
                    0 <= i < order.len() && out[(#[trigger] order[i]).0 as int][order[i].1 as int]
                        != 0 implies !removable(out, order[i].0 as int, order[i].1 as int) by {
                    if i > 0 {
                        assert(order[i] == rest[i - 1]);
                    }
                }
            }
        } else {
            lemma_carved(g, rest, holes);
            lemma_carving_is_maximal(g, rest, holes);
            lemma_not_removable_stays(out, g, r, c);
            if holes_kept(g, order, holes) < holes {
                assert forall|i: int|
                    0 <= i < order.len() && out[(#[trigger] order[i]).0 as int][order[i].1 as int]
                        != 0 implies !removable(out, order[i].0 as int, order[i].1 as int) by {
                    if i > 0 {
                        assert(order[i] == rest[i - 1]);
                    }
                }
            }
        }
    }
}

/// A complete grid has no blank cell to count.
pub proof fn lemma_complete_has_no_blanks(g: Seq<Seq<u8>>)
    requires
        complete(g),
    ensures
        blanks(g) == 0,
{
    lemma_no_blanks_in(g, 81);
}

/// A complete grid has no blank among its first `n` cells.
proof fn lemma_no_blanks_in(g: Seq<Seq<u8>>, n: nat)
    requires
        complete(g),
        n <= 81,
    ensures
        blanks_in(g, n) == 0,
    decreases n,
{
    if n > 0 {
        lemma_no_blanks_in(g, (n - 1) as nat);
        assert(in_grid((n - 1) / 9, (n - 1) % 9));
    }
}

/// Along an order that names no cell twice and only cells that hold a
/// digit, every removal kept is one blank more.
pub proof fn lemma_blank_count_of_carving(g: Seq<Seq<u8>>, order: Seq<(usize, usize)>, holes: nat)
    requires
        shaped(g),
        consistent(g),
        cells_in_grid(order),
        order.no_duplicates(),
        forall|i: int|
            0 <= i < order.len() ==> g[(#[trigger] order[i]).0 as int][order[i].1 as int] != 0,
    ensures
        blanks(carved(g, order, holes)) == blanks(g) + holes_kept(g, order, holes),
    decreases order.len(),
{
    if order.len() == 0 || holes == 0 {
    } else {
        let r = order[0].0 as int;
        let c = order[0].1 as int;
        let rest = order.drop_first();
        assert(in_grid(r, c));
        assert forall|i: int| 0 <= i < rest.len() implies in_grid(
            (#[trigger] rest[i]).0 as int,
            rest[i].1 as int,
        ) by {
            assert(rest[i] == order[i + 1]);
        }
        assert forall|i: int, j: int| 0 <= i < rest.len() && 0 <= j < rest.len() && i != j implies
            rest[i] != rest[j] by {
            assert(rest[i] == order[i + 1] && rest[j] == order[j + 1]);
        }
        if removable(g, r, c) {
            let h = with_cell(g, r, c, 0);
            lemma_blank_cell(g, r, c);
            lemma_blanks_in_with_cell(g, r, c, 0, 81);
            assert forall|i: int| 0 <= i < rest.len() implies
                h[(#[trigger] rest[i]).0 as int][rest[i].1 as int] != 0 by {
                assert(rest[i] == order[i + 1]);
                assert(order[i + 1] != order[0]);
                assert(in_grid(rest[i].0 as int, rest[i].1 as int));
            }
            lemma_blank_count_of_carving(h, rest, (holes - 1) as nat);
        } else {
            assert forall|i: int| 0 <= i < rest.len() implies
                g[(#[trigger] rest[i]).0 as int][rest[i].1 as int] != 0 by {
                assert(rest[i] == order[i + 1]);
            }
            lemma_blank_count_of_carving(g, rest, holes);
        }
    }
}

} // verus!
