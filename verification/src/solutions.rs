//! Solutions of a grid, counted up to two, and the number of blank cells
//! by which the searches terminate.

use vstd::prelude::*;
use crate::rules::{
    box_of, complete, consistent, in_grid, is_digit, legal, peers, shaped, solvable,
    solves, with_cell,
};

verus! {

/// The set of all solutions of `g`.
pub open spec fn solutions(g: Seq<Seq<u8>>) -> Set<Seq<Seq<u8>>> {
    Set::new(|s: Seq<Seq<u8>>| solves(s, g))
}

/// The solutions of `g` whose digit at `(r, c)` is below `d`.
pub open spec fn solutions_below(g: Seq<Seq<u8>>, r: int, c: int, d: int) -> Set<Seq<Seq<u8>>> {
    Set::new(|s: Seq<Seq<u8>>| solves(s, g) && s[r][c] < d)
}

/// The size of a set, counted no further than two: 0 for the empty set,
/// 1 for a set of one element, 2 for any larger set.
pub open spec fn up_to_two<T>(s: Set<T>) -> nat {
    if exists|a: T, b: T| s.contains(a) && s.contains(b) && a != b {
        2
    } else if exists|a: T| s.contains(a) {
        1
    } else {
        0
    }
}

/// The number of solutions of `g`, counted no further than two.
pub open spec fn solution_count(g: Seq<Seq<u8>>) -> nat {
    up_to_two(solutions(g))
}

/// `g` has exactly one solution.
pub open spec fn uniquely_solvable(g: Seq<Seq<u8>>) -> bool {
    solution_count(g) == 1
}

/// The smaller of `n` and two.
pub open spec fn at_most_two(n: nat) -> nat {
    if n >= 2 {
        2
    } else {
        n
    }
}

/// A part has no more elements than the whole.
pub proof fn lemma_up_to_two_subset<T>(a: Set<T>, b: Set<T>)
    requires
        a.subset_of(b),
    ensures
        up_to_two(a) <= up_to_two(b),
{
    if exists|x: T, y: T| a.contains(x) && a.contains(y) && x != y {
        let (x, y) = choose|x: T, y: T| a.contains(x) && a.contains(y) && x != y;
        assert(b.contains(x) && b.contains(y) && x != y);
    } else if exists|x: T| a.contains(x) {
        let x = choose|x: T| a.contains(x);
        assert(b.contains(x));
    }
}

/// Counting two disjoint sets together adds their counts.
pub proof fn lemma_up_to_two_union<T>(a: Set<T>, b: Set<T>)
    requires
        a.disjoint(b),
    ensures
        up_to_two(a.union(b)) == at_most_two(up_to_two(a) + up_to_two(b)),
{
    let u = a.union(b);
    lemma_up_to_two_subset(a, u);
    lemma_up_to_two_subset(b, u);
    if up_to_two(a) >= 1 && up_to_two(b) >= 1 {
        let x = choose|x: T| a.contains(x);
        let y = choose|y: T| b.contains(y);
        assert(u.contains(x) && u.contains(y) && x != y);
    }
    if up_to_two(u) == 2 {
        let (x, y) = choose|x: T, y: T| u.contains(x) && u.contains(y) && x != y;
        if a.contains(x) && a.contains(y) {
        } else if b.contains(x) && b.contains(y) {
        } else if a.contains(x) {
            assert(b.contains(y));
        } else {
            assert(b.contains(x) && a.contains(y));
        }
    } else if up_to_two(u) == 1 {
        let x = choose|x: T| u.contains(x);
        assert(a.contains(x) || b.contains(x));
    }
}

/// `g` has a solution exactly when its count is not zero.
pub proof fn lemma_solvable_count(g: Seq<Seq<u8>>)
    ensures
        solvable(g) <==> solution_count(g) >= 1,
{
    if solvable(g) {
        let s = choose|s: Seq<Seq<u8>>| solves(s, g);
        assert(solutions(g).contains(s));
    }
    if solution_count(g) >= 1 {
        let s = choose|s: Seq<Seq<u8>>| solutions(g).contains(s);
        assert(solves(s, g));
    }
}

/// A complete board is its own and only solution.
pub proof fn lemma_complete_unique(g: Seq<Seq<u8>>)
    requires
        shaped(g),
        consistent(g),
        complete(g),
    ensures
        solves(g, g),
        uniquely_solvable(g),
{
    assert(solutions(g).contains(g));
    assert forall|s: Seq<Seq<u8>>| solutions(g).contains(s) implies s == g by {
        assert forall|r: int, c: int| in_grid(r, c) implies s[r][c] == g[r][c] by {
            assert(g[r][c] != 0);
        }
        assert(s =~~= g);
    }
}

/// In a solution of `g`, the digit at a blank cell of `g` is legal there.
pub proof fn lemma_solution_digit_legal(s: Seq<Seq<u8>>, g: Seq<Seq<u8>>, r: int, c: int)
    requires
        shaped(g),
        solves(s, g),
        in_grid(r, c),
        g[r][c] == 0,
    ensures
        is_digit(s[r][c] as int),
        legal(g, r, c, s[r][c] as int),
{
    let d = s[r][c];
    assert(s[r][c] != 0);
    assert forall|c2: int| 0 <= c2 < 9 implies #[trigger] g[r][c2] != d by {
        if g[r][c2] == d {
            assert(s[r][c2] == d);
            assert(peers(r, c, r, c2));
        }
    }
    assert forall|r2: int| 0 <= r2 < 9 implies #[trigger] g[r2][c] != d by {
        if g[r2][c] == d {
            assert(s[r2][c] == d);
            assert(peers(r, c, r2, c));
        }
    }
    assert forall|r2: int, c2: int| in_grid(r2, c2) && box_of(r2, c2) == box_of(r, c) implies
        #[trigger] g[r2][c2] != d by {
        if g[r2][c2] == d {
            assert(s[r2][c2] == d);
            assert(peers(r, c, r2, c2));
        }
    }
}

/// The solutions of `g` with digit `d` placed at a blank cell are the
/// solutions of `g` that hold `d` there.
pub proof fn lemma_solves_with_cell(s: Seq<Seq<u8>>, g: Seq<Seq<u8>>, r: int, c: int, d: u8)
    requires
        shaped(g),
        in_grid(r, c),
        is_digit(d as int),
        g[r][c] == 0,
    ensures
        solves(s, with_cell(g, r, c, d)) <==> solves(s, g) && s[r][c] == d,
{
    let h = with_cell(g, r, c, d);
    assert forall|r2: int, c2: int| in_grid(r2, c2) implies #[trigger] h[r2][c2] == (if r2 == r
        && c2 == c {
        d
    } else {
        g[r2][c2]
    }) by {}
    if solves(s, h) {
        assert(h[r][c] != 0);
        assert forall|r2: int, c2: int| in_grid(r2, c2) && #[trigger] g[r2][c2] != 0 implies
            #[trigger] s[r2][c2] == g[r2][c2] by {
            assert(h[r2][c2] == g[r2][c2]);
        }
    }
    if solves(s, g) && s[r][c] == d {
        assert forall|r2: int, c2: int| in_grid(r2, c2) && #[trigger] h[r2][c2] != 0 implies
            #[trigger] s[r2][c2] == h[r2][c2] by {
            if !(r2 == r && c2 == c) {
                assert(g[r2][c2] != 0);
            }
        }
    }
}

/// Trying digit `d` at a blank cell adds the solutions of the grid with
/// `d` placed there to those found with smaller digits; where `d` is not
/// legal there are none to add.
pub proof fn lemma_below_step(g: Seq<Seq<u8>>, r: int, c: int, d: u8)
    requires
        shaped(g),
        in_grid(r, c),
        is_digit(d as int),
        g[r][c] == 0,
    ensures
        up_to_two(solutions_below(g, r, c, d + 1)) == at_most_two(
            up_to_two(solutions_below(g, r, c, d as int)) + solution_count(with_cell(g, r, c, d)),
        ),
        !legal(g, r, c, d as int) ==> solution_count(with_cell(g, r, c, d)) == 0,
{
    let h = with_cell(g, r, c, d);
    let low = solutions_below(g, r, c, d as int);
    let here = solutions(h);
    assert forall|s: Seq<Seq<u8>>| here.contains(s) <==> solves(s, g) && s[r][c] == d by {
        lemma_solves_with_cell(s, g, r, c, d);
    }
    assert(solutions_below(g, r, c, d + 1) =~= low.union(here));
    assert(low.disjoint(here));
    lemma_up_to_two_union(low, here);
    if !legal(g, r, c, d as int) {
        if solution_count(h) >= 1 {
            let s = choose|s: Seq<Seq<u8>>| here.contains(s);
            lemma_solution_digit_legal(s, g, r, c);
        }
    }
}

/// No solution holds a digit below 1, and every solution holds one below 10.
pub proof fn lemma_below_bounds(g: Seq<Seq<u8>>, r: int, c: int)
    requires
        in_grid(r, c),
    ensures
        up_to_two(solutions_below(g, r, c, 1)) == 0,
        solutions_below(g, r, c, 10) == solutions(g),
{
    assert forall|s: Seq<Seq<u8>>| !solutions_below(g, r, c, 1).contains(s) by {
        if solves(s, g) {
            assert(s[r][c] != 0);
        }
    }
    assert forall|s: Seq<Seq<u8>>| solves(s, g) implies s[r][c] < 10 by {
        assert(s[r][c] <= 9);
    }
    assert(solutions_below(g, r, c, 10) =~= solutions(g));
}

/// The number of blank cells among the first `n` cells in row-major order.
pub open spec fn blanks_in(g: Seq<Seq<u8>>, n: nat) -> nat
    decreases n,
{
    if n == 0 {
        0
    } else {
        blanks_in(g, (n - 1) as nat) + if g[(n - 1) / 9][(n - 1) % 9] == 0 {
            1nat
        } else {
            0nat
        }
    }
}

/// The number of blank cells of `g`.
pub open spec fn blanks(g: Seq<Seq<u8>>) -> nat {
    blanks_in(g, 81)
}

/// Writing one cell changes the number of blanks by that cell alone.
pub proof fn lemma_blanks_in_with_cell(g: Seq<Seq<u8>>, r: int, c: int, d: u8, n: nat)
    requires
        shaped(g),
        in_grid(r, c),
        n <= 81,
    ensures
        blanks_in(with_cell(g, r, c, d), n) + (if r * 9 + c < n && g[r][c] == 0 {
            1nat
        } else {
            0nat
        }) == blanks_in(g, n) + (if r * 9 + c < n && d == 0 {
            1nat
        } else {
            0nat
        }),
    decreases n,
{
    if n > 0 {
        lemma_blanks_in_with_cell(g, r, c, d, (n - 1) as nat);
        let i = n - 1;
        let h = with_cell(g, r, c, d);
        if i == r * 9 + c {
            assert(i / 9 == r && i % 9 == c);
            assert(h[i / 9][i % 9] == d);
        } else {
            assert(i / 9 != r || i % 9 != c);
            assert(h[i / 9][i % 9] == g[i / 9][i % 9]);
        }
    }
}

/// Filling a blank cell leaves one blank fewer.
pub proof fn lemma_blanks_place(g: Seq<Seq<u8>>, r: int, c: int, d: u8)
    requires
        shaped(g),
        in_grid(r, c),
        g[r][c] == 0,
        d != 0,
    ensures
        blanks(with_cell(g, r, c, d)) + 1 == blanks(g),
{
    lemma_blanks_in_with_cell(g, r, c, d, 81);
}

} // verus!
