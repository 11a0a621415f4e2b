//! The uniqueness verifier: an exhaustive backtracking search that counts
//! solutions and stops as soon as it has found a second one.

use vstd::prelude::*;
use crate::board::Sudoku;
use crate::rules::{in_grid, shaped, solves};
use crate::solutions::{
    blanks, lemma_below_bounds, lemma_below_step, lemma_blanks_place, lemma_complete_unique,
    lemma_solves_with_cell, lemma_up_to_two_subset, solution_count, solutions, solutions_below,
    uniquely_solvable, up_to_two,
};

verus! {

/// Whether a search that starts with its counter at `start` stops early on
/// a grid with `n` solutions (`n` counted up to two): it stops once the
/// counter has passed one.
pub open spec fn search_stops(start: int, n: nat) -> bool {
    (start >= 1 && n >= 1) || n >= 2
}

/// The counter after such a search: every solution found adds one, and
/// none is found after the search has stopped.
pub open spec fn counter_after(start: int, n: nat) -> int {
    if start >= 1 {
        if n >= 1 {
            start + 1
        } else {
            start
        }
    } else {
        start + n
    }
}

impl Sudoku {
    /// Counts the solutions of the board into `count` and returns whether
    /// the search stopped early because the counter passed one. A search
    /// that runs to its end leaves the board as it was; one that stops
    /// leaves it filled with the solution it found last.
    pub fn count_soln(&mut self, count: &mut u8) -> (stop: bool)
        requires
            old(self).wf(),
            *old(count) < 255,
        ensures
            final(self).wf(),
            stop == search_stops(*old(count) as int, solution_count(old(self)@)),
            *final(count) == counter_after(*old(count) as int, solution_count(old(self)@)),
            !stop ==> final(self)@ == old(self)@,
            stop ==> solves(final(self)@, old(self)@),
        decreases blanks(old(self)@),
    {
        let ghost g = self@;
        let ghost start = *count as int;
        match self.find_blank() {
            None => {
                proof {
                    lemma_complete_unique(g);
                }
                *count += 1;
                *count > 1
            },
            Some((r, c)) => {
                proof {
                    lemma_below_bounds(g, r as int, c as int);
                }
                let mut num: u8 = 1;
                while num <= 9
                    invariant
                        1 <= num <= 10,
                        self.wf(),
                        self@ == g,
                        g == old(self)@,
                        shaped(g),
                        in_grid(r as int, c as int),
                        g[r as int][c as int] == 0,
                        start < 255,
                        start == *old(count),
                        *count == counter_after(
                            start,
                            up_to_two(solutions_below(g, r as int, c as int, num as int)),
                        ),
                        !search_stops(
                            start,
                            up_to_two(solutions_below(g, r as int, c as int, num as int)),
                        ),
                    decreases 10 - num,
                {
                    proof {
                        lemma_below_step(g, r as int, c as int, num);
                    }
                    if self.is_safe(r, c, num) {
                        self.place_num(r, c, num, true);
                        proof {
                            lemma_blanks_place(g, r as int, c as int, num);
                        }
                        if self.count_soln(count) {
                            proof {
                                lemma_below_bounds(g, r as int, c as int);
                                lemma_up_to_two_subset(
                                    solutions_below(g, r as int, c as int, num + 1),
                                    solutions(g),
                                );
                                lemma_solves_with_cell(self@, g, r as int, c as int, num);
                            }
                            return true;
                        }
                        self.place_num(r, c, num, false);
                        assert(self@ =~~= g);
                    }
                    num += 1;
                }
                false
            },
        }
    }

    /// Whether the board has exactly one solution. The board is left as it
    /// was unless it has several solutions; then it holds one of them.
    pub fn is_unique_soln(&mut self) -> (unique: bool)
        requires
            old(self).wf(),
        ensures
            final(self).wf(),
            unique == uniquely_solvable(old(self)@),
            solution_count(old(self)@) <= 1 ==> final(self)@ == old(self)@,
            solution_count(old(self)@) == 2 ==> solves(final(self)@, old(self)@),
    {
        let mut count: u8 = 0;
        self.count_soln(&mut count);
        count == 1
    }
}

} // verus!
