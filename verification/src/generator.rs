//! The grid generator: randomized backtracking that fills every blank cell.

use vstd::prelude::*;
use crate::board::Sudoku;
use crate::random::shuffle;
use crate::rules::{blank_grid, in_grid, is_digit, legal, shaped, solvable, solves, with_cell};
use crate::laws::lemma_blank_grid_solvable;
use crate::solutions::{
    blanks, lemma_blanks_place, lemma_complete_unique, lemma_solution_digit_legal,
    lemma_solves_with_cell,
};

verus! {

/// Digit `d` may be placed at `(r, c)` and the grid can then still be
/// completed.
pub open spec fn digit_works(g: Seq<Seq<u8>>, r: int, c: int, d: u8) -> bool {
    legal(g, r, c, d as int) && solvable(with_cell(g, r, c, d))
}

/// The digits 1 to 9 in ascending order.
pub open spec fn digits_ascending() -> Seq<u8> {
    Seq::new(9, |i: int| (i + 1) as u8)
}

/// A reordering of the digits 1 to 9 holds digits only, and each of them.
pub proof fn lemma_reordered_digits(order: Seq<u8>)
    requires
        order.to_multiset() == digits_ascending().to_multiset(),
    ensures
        forall|i: int| 0 <= i < order.len() ==> is_digit(#[trigger] order[i] as int),
        forall|d: u8| is_digit(d as int) ==> order.contains(d),
{
    broadcast use vstd::seq_lib::group_to_multiset_ensures;

    let asc = digits_ascending();
    assert forall|i: int| 0 <= i < order.len() implies is_digit(#[trigger] order[i] as int) by {
        assert(order.contains(order[i]));
        assert(order.to_multiset().count(order[i]) > 0);
        assert(asc.contains(order[i]));
    }
    assert forall|d: u8| is_digit(d as int) implies order.contains(d) by {
        assert(asc[d - 1] == d);
        assert(asc.contains(d));
        assert(asc.to_multiset().count(d) > 0);
    }
}

impl Sudoku {
    /// Fills the board completely, trying the digits at each blank cell in
    /// a fresh random order. Succeeds exactly when the board can be
    /// completed; a board that cannot is left as it was.
    pub fn gen(&mut self) -> (ok: bool)
        requires
            old(self).wf(),
        ensures
            final(self).wf(),
            ok == solvable(old(self)@),
            ok ==> solves(final(self)@, old(self)@),
            !ok ==> final(self)@ == old(self)@,
            old(self)@ == blank_grid() ==> ok,
        decreases blanks(old(self)@), 1nat,
    {
        let ghost g = self@;
        proof {
            lemma_blank_grid_solvable();
        }
        match self.find_blank() {
            None => {
                proof {
                    lemma_complete_unique(g);
                }
                true
            },
            Some((r, c)) => {
                let mut rng = rand::thread_rng();
                let mut nums: Vec<u8> = Vec::new();
                let mut d: u8 = 1;
                while d <= 9
                    invariant
                        1 <= d <= 10,
                        nums@.len() == d - 1,
                        forall|i: int| 0 <= i < nums@.len() ==> nums@[i] == i + 1,
                    decreases 10 - d,
                {
                    nums.push(d);
                    d += 1;
                }
                assert(nums@ =~= digits_ascending());
                shuffle(&mut nums, &mut rng);
                proof {
                    lemma_reordered_digits(nums@);
                }
                let ok: bool = self.try_digits(r, c, &nums);
                proof {
                    if solvable(g) {
                        let s = choose|s: Seq<Seq<u8>>| solves(s, g);
                        lemma_solution_digit_legal(s, g, r as int, c as int);
                        let d = s[r as int][c as int];
                        lemma_solves_with_cell(s, g, r as int, c as int, d);
                        let i = choose|i: int| 0 <= i < nums@.len() && nums@[i] == d;
                        assert(digit_works(g, r as int, c as int, nums@[i]));
                    }
                }
                ok
            },
        }
    }

    /// Tries the given digits in order at the blank cell `(r, c)`: places
    /// the first that is legal there and lets the board be completed, and
    /// completes the board. Fails, leaving the board as it was, when no
    /// digit of `digits` does.
    pub fn try_digits(&mut self, r: usize, c: usize, digits: &Vec<u8>) -> (ok: bool)
        requires
            old(self).wf(),
            in_grid(r as int, c as int),
            old(self)@[r as int][c as int] == 0,
            forall|i: int| 0 <= i < digits@.len() ==> is_digit(#[trigger] digits@[i] as int),
        ensures
            final(self).wf(),
            ok <==> exists|i: int|
                0 <= i < digits@.len()
                    && digit_works(old(self)@, r as int, c as int, #[trigger] digits@[i]),
            ok ==> solves(final(self)@, old(self)@) && exists|i: int|
                {
                    &&& 0 <= i < digits@.len()
                    &&& final(self)@[r as int][c as int] == #[trigger] digits@[i]
                    &&& digit_works(old(self)@, r as int, c as int, digits@[i])
                    &&& forall|j: int|
                        0 <= j < i
                            ==> !digit_works(old(self)@, r as int, c as int, #[trigger] digits@[j])
                },
            !ok ==> final(self)@ == old(self)@,
        decreases blanks(old(self)@), 0nat,
    {
        let ghost g = self@;
        let mut i: usize = 0;
        while i < digits.len()
            invariant
                i <= digits@.len(),
                self.wf(),
                self@ == g,
                g == old(self)@,
                shaped(g),
                in_grid(r as int, c as int),
                g[r as int][c as int] == 0,
                forall|k: int| 0 <= k < digits@.len() ==> is_digit(#[trigger] digits@[k] as int),
                forall|j: int|
                    0 <= j < i ==> !digit_works(g, r as int, c as int, #[trigger] digits@[j]),
            decreases digits@.len() - i,
        {
            let num: u8 = digits[i];
            if self.is_safe(r, c, num) {
                self.place_num(r, c, num, true);
                proof {
                    lemma_blanks_place(g, r as int, c as int, num);
                }
                if self.gen() {
                    proof {
                        lemma_solves_with_cell(self@, g, r as int, c as int, num);
                        assert(digit_works(g, r as int, c as int, digits@[i as int]));
                    }
                    return true;
                }
                self.place_num(r, c, num, false);
                assert(self@ =~~= g);
            }
            i += 1;
        }
        false
    }
}

} // verus!
