//! The puzzle carver: blanks cells one by one, in a random order, and keeps
//! a removal only while the board still has exactly one solution.

use vstd::prelude::*;
use crate::board::Sudoku;
use crate::random::shuffle;
use crate::rules::{blanked_from, consistent, in_grid, lemma_clear, shaped, with_cell};
use crate::solutions::{blanks, lemma_blanks_in_with_cell, uniquely_solvable};

verus! {

/// Cell `(r, c)` can be blanked: the grid without it has exactly one
/// solution.
pub open spec fn removable(g: Seq<Seq<u8>>, r: int, c: int) -> bool {
    uniquely_solvable(with_cell(g, r, c, 0))
}

/// The grid after carving: the cells of `order` are visited in turn until
/// `holes` removals were kept; a cell is blanked where that is `removable`
/// in the grid as it then stands, and left alone otherwise.
pub open spec fn carved(g: Seq<Seq<u8>>, order: Seq<(usize, usize)>, holes: nat) -> Seq<Seq<u8>>
    decreases order.len(),
{
    if order.len() == 0 || holes == 0 {
        g
    } else if removable(g, order[0].0 as int, order[0].1 as int) {
        carved(
            with_cell(g, order[0].0 as int, order[0].1 as int, 0),
            order.drop_first(),
            (holes - 1) as nat,
        )
    } else {
        carved(g, order.drop_first(), holes)
    }
}

/// The number of removals that such a carving keeps.
pub open spec fn holes_kept(g: Seq<Seq<u8>>, order: Seq<(usize, usize)>, holes: nat) -> nat
    decreases order.len(),
{
    if order.len() == 0 || holes == 0 {
        0
    } else if removable(g, order[0].0 as int, order[0].1 as int) {
        1 + holes_kept(
            with_cell(g, order[0].0 as int, order[0].1 as int, 0),
            order.drop_first(),
            (holes - 1) as nat,
        )
    } else {
        holes_kept(g, order.drop_first(), holes)
    }
}

/// The 81 cells in row-major order.
pub open spec fn all_cells() -> Seq<(usize, usize)> {
    Seq::new(81, |i: int| ((i / 9) as usize, (i % 9) as usize))
}

/// Every entry of `order` is a cell of the grid.
pub open spec fn cells_in_grid(order: Seq<(usize, usize)>) -> bool {
    forall|i: int|
        0 <= i < order.len() ==> in_grid((#[trigger] order[i]).0 as int, order[i].1 as int)
}

/// A reordering of the 81 cells holds cells of the grid only, and each of
/// them.
pub proof fn lemma_reordered_cells(order: Seq<(usize, usize)>)
    requires
        order.to_multiset() == all_cells().to_multiset(),
    ensures
        order.len() == 81,
        cells_in_grid(order),
        forall|r: usize, c: usize| in_grid(r as int, c as int) ==> order.contains((r, c)),
{
    broadcast use vstd::seq_lib::group_to_multiset_ensures;

    let all = all_cells();
    assert(order.len() == order.to_multiset().len());
    assert(all.len() == all.to_multiset().len());
    assert forall|i: int| 0 <= i < order.len() implies in_grid(
        (#[trigger] order[i]).0 as int,
        order[i].1 as int,
    ) by {
        assert(order.contains(order[i]));
        assert(order.to_multiset().count(order[i]) > 0);
        assert(all.contains(order[i]));
    }
    assert forall|r: usize, c: usize| in_grid(r as int, c as int) implies order.contains(
        (r, c),
    ) by {
        let i = r * 9 + c;
        assert(i / 9 == r && i % 9 == c);
        assert(all[i] == (r, c));
        assert(all.contains((r, c)));
        assert(all.to_multiset().count((r, c)) > 0);
    }
}

/// Carving only blanks cells: the grid stays shaped and consistent, every
/// cell keeps its digit or becomes blank, no more blanks are added than
/// removals were kept, which are at most `holes`, and a grid with exactly
/// one solution still has exactly one.
pub proof fn lemma_carved(g: Seq<Seq<u8>>, order: Seq<(usize, usize)>, holes: nat)
    requires
        shaped(g),
        consistent(g),
        cells_in_grid(order),
    ensures
        shaped(carved(g, order, holes)),
        consistent(carved(g, order, holes)),
        blanked_from(carved(g, order, holes), g),
        holes_kept(g, order, holes) <= holes,
        blanks(carved(g, order, holes)) <= blanks(g) + holes_kept(g, order, holes),
        uniquely_solvable(g) ==> uniquely_solvable(carved(g, order, holes)),
        carved(g, order, holes) != g ==> uniquely_solvable(carved(g, order, holes)),
    decreases order.len(),
{
    if order.len() == 0 || holes == 0 {
    } else {
        let r = order[0].0 as int;
        let c = order[0].1 as int;
        let rest = order.drop_first();
        assert(in_grid(r, c));
        assert forall|i: int| 0 <= i < rest.len() implies in_grid(
            (#[trigger] rest[i]).0 as int,
            rest[i].1 as int,
        ) by {
            assert(rest[i] == order[i + 1]);
        }
        if removable(g, r, c) {
            let h = with_cell(g, r, c, 0);
            lemma_blank_cell(g, r, c);
            lemma_blanks_in_with_cell(g, r, c, 0, 81);
            lemma_carved(h, rest, (holes - 1) as nat);
            let out = carved(h, rest, (holes - 1) as nat);
            assert forall|r2: int, c2: int| in_grid(r2, c2) implies #[trigger] out[r2][c2]
                == g[r2][c2] || out[r2][c2] == 0 by {
                assert(out[r2][c2] == h[r2][c2] || out[r2][c2] == 0);
            }
        } else {
            lemma_carved(g, rest, holes);
        }
    }
}

/// Blanking a cell keeps the grid shaped and consistent, and changes
/// nothing where the cell was blank already.
pub proof fn lemma_blank_cell(g: Seq<Seq<u8>>, r: int, c: int)
    requires
        shaped(g),
        consistent(g),
        in_grid(r, c),
    ensures
        shaped(with_cell(g, r, c, 0)),
        consistent(with_cell(g, r, c, 0)),
        forall|r2: int, c2: int|
            in_grid(r2, c2) ==> #[trigger] with_cell(g, r, c, 0)[r2][c2] == (if r2 == r && c2
                == c {
                0u8
            } else {
                g[r2][c2]
            }),
        g[r][c] == 0 ==> with_cell(g, r, c, 0) == g,
{
    if g[r][c] == 0 {
        assert(with_cell(g, r, c, 0) =~~= g);
    } else {
        lemma_clear(g, r, c);
    }
}

impl Sudoku {
    /// Blanks up to `num_holes` cells, visiting the 81 cells in a random
    /// order and keeping a removal only while the board has exactly one
    /// solution. Stops when `num_holes` removals were kept or every cell was
    /// visited once.
    pub fn remove_num(&mut self, num_holes: u8)
        requires
            old(self).wf(),
        ensures
            final(self).wf(),
            exists|order: Seq<(usize, usize)>|
                order.to_multiset() == all_cells().to_multiset()
                    && final(self)@ == #[trigger] carved(old(self)@, order, num_holes as nat),
            blanked_from(final(self)@, old(self)@),
            blanks(final(self)@) <= blanks(old(self)@) + num_holes,
            uniquely_solvable(old(self)@) ==> uniquely_solvable(final(self)@),
            num_holes == 0 ==> final(self)@ == old(self)@,
    {
        let mut rng = rand::thread_rng();
        let mut pos: Vec<(usize, usize)> = Vec::new();
        let mut r: usize = 0;
        while r < 9
            invariant
                r <= 9,
                pos@.len() == r * 9,
                forall|i: int| 0 <= i < pos@.len() ==> pos@[i] == all_cells()[i],
            decreases 9 - r,
        {
            let mut c: usize = 0;
            while c < 9
                invariant
                    r < 9,
                    c <= 9,
                    pos@.len() == r * 9 + c,
                    forall|i: int| 0 <= i < pos@.len() ==> pos@[i] == all_cells()[i],
                decreases 9 - c,
            {
                assert((r * 9 + c) / 9 == r && (r * 9 + c) % 9 == c);
                pos.push((r, c));
                c += 1;
            }
            r += 1;
        }
        assert(pos@ =~= all_cells());
        shuffle(&mut pos, &mut rng);
        proof {
            lemma_reordered_cells(pos@);
            lemma_carved(self@, pos@, num_holes as nat);
        }
        self.carve_in_order(&pos, num_holes);
    }

    /// Carves along the given order: visits its cells in turn until
    /// `num_holes` removals were kept, and at each tries the removal.
    pub fn carve_in_order(&mut self, order: &Vec<(usize, usize)>, num_holes: u8)
        requires
            old(self).wf(),
            cells_in_grid(order@),
        ensures
            final(self).wf(),
            final(self)@ == carved(old(self)@, order@, num_holes as nat),
            num_holes == 0 ==> final(self)@ == old(self)@,
    {
        let mut holes_made: u8 = 0;
        let mut i: usize = 0;
        assert(order@.skip(0) =~= order@);
        while i < order.len() && holes_made < num_holes
            invariant
                i <= order@.len(),
                holes_made <= num_holes,
                self.wf(),
                cells_in_grid(order@),
                carved(old(self)@, order@, num_holes as nat) == carved(
                    self@,
                    order@.skip(i as int),
                    (num_holes - holes_made) as nat,
                ),
            decreases order@.len() - i,
        {
            let (r, c) = order[i];
            let ghost rest = order@.skip(i as int);
            assert(rest[0] == order@[i as int]);
            assert(rest.drop_first() =~= order@.skip(i + 1));
            if self.try_remove(r, c) {
                holes_made += 1;
            }
            i += 1;
        }
    }

    /// Tries to blank cell `(r, c)`: the removal is kept where the board
    /// then has exactly one solution, and undone otherwise.
    pub fn try_remove(&mut self, r: usize, c: usize) -> (removed: bool)
        requires
            old(self).wf(),
            in_grid(r as int, c as int),
        ensures
            final(self).wf(),
            removed == removable(old(self)@, r as int, c as int),
            removed ==> final(self)@ == with_cell(old(self)@, r as int, c as int, 0),
            !removed ==> final(self)@ == old(self)@,
    {
        let ghost g = self@;
        let removed_num: u8 = self.digit_at(r, c);
        proof {
            lemma_blank_cell(g, r as int, c as int);
        }
        if removed_num != 0 {
            self.place_num(r, c, removed_num, false);
        }
        let mut test_sudoku = self.clone();
        if test_sudoku.is_unique_soln() {
            true
        } else {
            if removed_num != 0 {
                proof {
                    lemma_clear(g, r as int, c as int);
                }
                self.place_num(r, c, removed_num, true);
                assert(self@ =~~= g);
            }
            false
        }
    }
}

} // verus!
