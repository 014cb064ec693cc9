//! The solver: a constraint-propagation pre-pass that commits forced digits
//! until a fixed point, then a depth-first chronological backtracking search
//! over the remaining empty cells in raster order, trying digits in
//! increasing order.

use crate::grid::{cell, full, grid_wf, Board, Pos};
use crate::rules::{
    all_valid, extends, fits, lemma_conflict_persists, lemma_only_num_sound, lex_lt, only_num,
    same_group, solvable, solved, valid_at,
};
use vstd::prelude::*;

verus! {

/// The outcome of `solve`: either the grid was completed, or no solved grid
/// extends the given clues.
#[derive(Clone, Copy, PartialEq, Eq, Structural, Debug)]
pub enum SolveResult {
    Solved,
    Unsolvable,
}

/// How many of the first `n` cells of `g` are empty.
pub open spec fn zeros_below(g: Seq<u8>, n: int) -> int
    decreases n,
{
    if n <= 0 {
        0
    } else {
        zeros_below(g, n - 1) + if g[n - 1] == 0 {
            1int
        } else {
            0int
        }
    }
}

/// How many cells of `g` are empty.
pub open spec fn num_zeros(g: Seq<u8>) -> int {
    zeros_below(g, 81)
}

proof fn lemma_zeros_bounds(g: Seq<u8>, n: int)
    requires
        n >= 0,
    ensures
        0 <= zeros_below(g, n) <= n,
    decreases n,
{
    if n > 0 {
        lemma_zeros_bounds(g, n - 1);
    }
}

/// Filling one empty cell lowers the count of empty cells by one.
proof fn lemma_zeros_update(g: Seq<u8>, k: int, v: u8, n: int)
    requires
        0 <= k,
        0 <= n <= g.len(),
        k < g.len(),
        g[k] == 0,
        v != 0,
    ensures
        zeros_below(g.update(k, v), n) == zeros_below(g, n) - if k < n {
            1int
        } else {
            0int
        },
    decreases n,
{
    if n > 0 {
        lemma_zeros_update(g, k, v, n - 1);
    }
}

/// Placing a digit that fits at a cell keeps every cell of the grid valid.
proof fn lemma_place_keeps_valid(g: Seq<u8>, i: int, j: int, n: u8)
    requires
        grid_wf(g),
        0 <= i < 9,
        0 <= j < 9,
        all_valid(g),
        fits(g, i, j, n),
    ensures
        all_valid(g.update(i * 9 + j, n)),
{
    let g2 = g.update(i * 9 + j, n);
    assert forall|a: int, b: int| 0 <= a < 9 && 0 <= b < 9 implies #[trigger] valid_at(
        g2,
        a,
        b,
    ) by {
        assert(valid_at(g, a, b));
        if a == i && b == j {
            assert forall|x: int, y: int|
                0 <= x < 9 && 0 <= y < 9 && !(x == i && y == j) && same_group(i, j, x, y)
                    implies #[trigger] cell(g2, x, y) == 0 || cell(g2, x, y) != n by {
                assert(x * 9 + y != i * 9 + j);
                assert(cell(g2, x, y) == cell(g, x, y));
            }
            assert(cell(g2, a, b) == n);
        } else {
            assert(a * 9 + b != i * 9 + j);
            let v = cell(g2, a, b);
            assert(v == cell(g, a, b));
            assert forall|x: int, y: int|
                0 <= x < 9 && 0 <= y < 9 && !(x == a && y == b) && same_group(a, b, x, y)
                    implies #[trigger] cell(g2, x, y) == 0 || cell(g2, x, y) != v by {
                if x == i && y == j {
                    if v != 0 {
                        assert(same_group(i, j, a, b));
                        assert(cell(g, a, b) == 0 || cell(g, a, b) != n);
                    }
                } else {
                    assert(x * 9 + y != i * 9 + j);
                    assert(cell(g2, x, y) == cell(g, x, y));
                }
            }
        }
    }
}

impl Board {
    /// Returns whether every cell of the board respects the constraint.
    fn all_cells_valid(&self) -> (r: bool)
        requires
            self.wf(),
        ensures
            r == all_valid(self@),
    {
        let mut i: usize = 0;
        while i < 9
            invariant
                self.wf(),
                i <= 9,
                forall|a: int, b: int| 0 <= a < i && 0 <= b < 9 ==> #[trigger] valid_at(self@, a, b),
            decreases 9 - i,
        {
            let mut j: usize = 0;
            while j < 9
                invariant
                    self.wf(),
                    i < 9,
                    j <= 9,
                    forall|a: int, b: int|
                        0 <= a < i && 0 <= b < 9 ==> #[trigger] valid_at(self@, a, b),
                    forall|b: int| 0 <= b < j ==> #[trigger] valid_at(self@, i as int, b),
                decreases 9 - j,
            {
                if !self.is_position_valid(&Pos { i, j }) {
                    return false;
                }
                j = j + 1;
            }
            i = i + 1;
        }
        true
    }

    /// One propagation pass: walks all 81 cells in raster order and commits
    /// the forced digit at every empty cell whose digit the deduction can
    /// decide. Returns whether anything was committed.
    fn propagation_pass(&mut self) -> (inserted: bool)
        requires
            old(self).wf(),
        ensures
            final(self).wf(),
            extends(old(self)@, final(self)@),
            forall|k: int|
                0 <= k < 81 && final(self)@[k] != old(self)@[k] ==> old(self)@[k] == 0,
            forall|h: Seq<u8>|
                solved(h) && extends(old(self)@, h) ==> extends(final(self)@, h),
            !inserted ==> final(self)@ == old(self)@,
            !inserted ==> forall|a: int, b: int|
                0 <= a < 9 && 0 <= b < 9 && cell(final(self)@, a, b) == 0 ==> only_num(
                    final(self)@,
                    a,
                    b,
                ) == 0,
            inserted ==> num_zeros(final(self)@) < num_zeros(old(self)@),
            (forall|a: int, b: int|
                0 <= a < 9 && 0 <= b < 9 && cell(old(self)@, a, b) == 0 ==> only_num(
                    old(self)@,
                    a,
                    b,
                ) == 0) ==> !inserted,
    {
        let ghost g0 = self@;
        let mut inserted = false;
        let mut i: usize = 0;
        while i < 9
            invariant
                self.wf(),
                i <= 9,
                g0 == old(self)@,
                grid_wf(g0),
                extends(g0, self@),
                forall|k: int| 0 <= k < 81 && self@[k] != g0[k] ==> g0[k] == 0,
                forall|h: Seq<u8>| solved(h) && extends(g0, h) ==> extends(self@, h),
                !inserted ==> self@ == g0,
                !inserted ==> forall|a: int, b: int|
                    0 <= a < i && 0 <= b < 9 && cell(self@, a, b) == 0 ==> only_num(
                        self@,
                        a,
                        b,
                    ) == 0,
                inserted ==> num_zeros(self@) < num_zeros(g0),
                (forall|a: int, b: int|
                    0 <= a < 9 && 0 <= b < 9 && cell(g0, a, b) == 0 ==> only_num(g0, a, b) == 0)
                    ==> !inserted,
            decreases 9 - i,
        {
            let mut j: usize = 0;
            while j < 9
                invariant
                    self.wf(),
                    i < 9,
                    j <= 9,
                    g0 == old(self)@,
                    grid_wf(g0),
                    extends(g0, self@),
                    forall|k: int| 0 <= k < 81 && self@[k] != g0[k] ==> g0[k] == 0,
                    forall|h: Seq<u8>| solved(h) && extends(g0, h) ==> extends(self@, h),
                    !inserted ==> self@ == g0,
                    !inserted ==> forall|a: int, b: int|
                        0 <= a < i && 0 <= b < 9 && cell(self@, a, b) == 0 ==> only_num(
                            self@,
                            a,
                            b,
                        ) == 0,
                    !inserted ==> forall|b: int|
                        0 <= b < j && cell(self@, i as int, b) == 0 ==> only_num(
                            self@,
                            i as int,
                            b,
                        ) == 0,
                    inserted ==> num_zeros(self@) < num_zeros(g0),
                    (forall|a: int, b: int|
                        0 <= a < 9 && 0 <= b < 9 && cell(g0, a, b) == 0 ==> only_num(g0, a, b)
                            == 0) ==> !inserted,
                decreases 9 - j,
            {
                let pos = Pos { i, j };
                if self.get(i, j) == 0 {
                    let v = self.the_only_valid_number(&pos);
                    if v != 0 {
                        let ghost before = self@;
                        proof {
                            if !inserted {
                                assert(before == g0);
                                assert(cell(g0, i as int, j as int) == 0 && only_num(
                                    g0,
                                    i as int,
                                    j as int,
                                ) != 0);
                            }
                            lemma_zeros_update(before, pos.idx(), v, 81);
                            lemma_zeros_bounds(before, 81);
                            if !inserted {
                                assert(num_zeros(before) == num_zeros(g0));
                            }
                        }
                        self.set_pos(v, &pos);
                        proof {
                            assert forall|h: Seq<u8>| solved(h) && extends(g0, h) implies extends(
                                self@,
                                h,
                            ) by {
                                assert(extends(before, h));
                                lemma_only_num_sound(before, i as int, j as int, h);
                                assert(cell(h, i as int, j as int) == v);
                                assert forall|k: int| 0 <= k < 81 && self@[k] != 0 implies h[k]
                                    == self@[k] by {
                                    if k != pos.idx() {
                                        assert(self@[k] == before[k]);
                                    }
                                }
                            }
                        }
                        inserted = true;
                    }
                }
                j = j + 1;
            }
            i = i + 1;
        }
        inserted
    }

    /// The propagation pre-pass: scans the grid in raster order, committing
    /// every digit the deduction can force, and rescans from the start as
    /// long as a pass committed anything; a fixed-point iteration over the
    /// shrinking set of empty cells. Every digit it commits is one that
    /// every solved completion of the grid holds at that cell, so the set of
    /// solutions is unchanged.
    pub fn pre_solve_with_constraints(&mut self)
        requires
            old(self).wf(),
        ensures
            final(self).wf(),
            extends(old(self)@, final(self)@),
            forall|k: int|
                0 <= k < 81 && final(self)@[k] != old(self)@[k] ==> old(self)@[k] == 0,
            forall|h: Seq<u8>|
                solved(h) && extends(old(self)@, h) ==> extends(final(self)@, h),
            forall|a: int, b: int|
                0 <= a < 9 && 0 <= b < 9 && cell(final(self)@, a, b) == 0 ==> only_num(
                    final(self)@,
                    a,
                    b,
                ) == 0,
            (forall|a: int, b: int|
                0 <= a < 9 && 0 <= b < 9 && cell(old(self)@, a, b) == 0 ==> only_num(
                    old(self)@,
                    a,
                    b,
                ) == 0) ==> final(self)@ == old(self)@,
    {
        let ghost g0 = self@;
        loop
            invariant
                self.wf(),
                g0 == old(self)@,
                grid_wf(g0),
                extends(g0, self@),
                forall|k: int| 0 <= k < 81 && self@[k] != g0[k] ==> g0[k] == 0,
                forall|h: Seq<u8>| solved(h) && extends(g0, h) ==> extends(self@, h),
                (forall|a: int, b: int|
                    0 <= a < 9 && 0 <= b < 9 && cell(g0, a, b) == 0 ==> only_num(g0, a, b) == 0)
                    ==> self@ == g0,
            decreases num_zeros(self@),
        {
            proof {
                lemma_zeros_bounds(self@, 81);
            }
            let ghost before = self@;
            let inserted = self.propagation_pass();
            proof {
                lemma_zeros_bounds(self@, 81);
                assert forall|k: int| 0 <= k < 81 && self@[k] != g0[k] implies g0[k] == 0 by {
                    if self@[k] != before[k] {
                        assert(before[k] == 0);
                        assert(g0[k] == 0 || g0[k] == before[k]);
                    }
                }
            }
            if !inserted {
                return;
            }
        }
    }

    /// Tries the digits 1-9 in increasing order at the empty cell `pos` —
    /// the first empty cell of the grid — and recurses on the next free cell
    /// after each placement that fits; classic chronological backtracking.
    /// Succeeds exactly when some solved grid extends the current one, and
    /// then yields the raster-major lexicographically least such grid;
    /// restores the grid when it fails.
    fn fill_cell(&mut self, pos: Pos) -> (r: bool)
        requires
            old(self).wf(),
            pos.wf(),
            old(self)@[pos.idx()] == 0,
            all_valid(old(self)@),
            forall|k: int| 0 <= k < pos.idx() ==> old(self)@[k] != 0,
        ensures
            final(self).wf(),
            extends(old(self)@, final(self)@),
            r ==> solved(final(self)@),
            r ==> forall|h: Seq<u8>|
                solved(h) && extends(old(self)@, h) && h != final(self)@ ==> lex_lt(
                    final(self)@,
                    h,
                ),
            !r ==> final(self)@ == old(self)@,
            !r ==> forall|h: Seq<u8>| !(solved(h) && extends(old(self)@, h)),
        decreases num_zeros(old(self)@),
    {
        let ghost g0 = self@;
        proof {
            lemma_zeros_bounds(g0, 81);
        }
        let mut n: u8 = 0;
        while n < 9
            invariant
                self.wf(),
                pos.wf(),
                n <= 9,
                g0 == old(self)@,
                self@ == g0,
                grid_wf(g0),
                g0[pos.idx()] == 0,
                all_valid(g0),
                forall|k: int| 0 <= k < pos.idx() ==> g0[k] != 0,
                num_zeros(g0) >= 0,
                forall|h: Seq<u8>| solved(h) && extends(g0, h) ==> h[pos.idx()] > n,
            decreases 9 - n,
        {
            n = n + 1;
            if self.is_position_valid_with(&pos, n) {
                proof {
                    lemma_place_keeps_valid(g0, pos.i as int, pos.j as int, n);
                    lemma_zeros_update(g0, pos.idx(), n, 81);
                }
                self.set_pos(n, &pos);
                let ghost g1 = self@;
                proof {
                    lemma_zeros_bounds(g1, 81);
                    assert(num_zeros(g1) < num_zeros(g0));
                }
                match self.next_free(pos) {
                    None => {
                        // The grid is full: it is solved, and it is the only
                        // solved grid extending itself.
                        proof {
                            assert forall|k: int| 0 <= k < 81 implies self@[k] != 0 by {
                                if k < pos.idx() {
                                    assert(self@[k] == g0[k]);
                                } else if k == pos.idx() {
                                } else {
                                    assert(pos.idx() < k < 81);
                                }
                            }
                            assert(solved(self@));
                            assert forall|h: Seq<u8>|
                                solved(h) && extends(g0, h) && h != self@ implies lex_lt(
                                self@,
                                h,
                            ) by {
                                assert(h[pos.idx()] >= n);
                                if h[pos.idx()] == n {
                                    assert forall|k: int|
                                        0 <= k < 81 implies h[k] == self@[k] by {
                                        if k != pos.idx() {
                                            assert(self@[k] != 0);
                                            assert(g1[k] == g0[k]);
                                            assert(g0[k] != 0);
                                        }
                                    }
                                    assert(h =~= self@);
                                    assert(false);
                                } else {
                                    assert(self@[pos.idx()] == n);
                                    assert forall|m: int|
                                        0 <= m < pos.idx() implies self@[m] == h[m] by {
                                        assert(g0[m] != 0);
                                        assert(g1[m] == g0[m]);
                                        assert(self@[m] == g1[m]);
                                        assert(h[m] == g0[m]);
                                    }
                                    assert(0 <= pos.idx() < 81 && self@[pos.idx()] < h[
                                        pos.idx()
                                    ]);
                                    assert(lex_lt(self@, h));
                                }
                            }
                        }
                        return true;
                    },
                    Some(p2) => {
                        proof {
                            assert forall|k: int| 0 <= k < p2.idx() implies self@[k] != 0 by {
                                if k < pos.idx() {
                                    assert(self@[k] == g0[k]);
                                } else if k == pos.idx() {
                                } else {
                                    assert(pos.idx() < k < p2.idx());
                                }
                            }
                        }
                        if self.fill_cell(p2) {
                            proof {
                                assert forall|k: int| 0 <= k < 81 && g0[k] != 0 implies self@[k]
                                    == g0[k] by {
                                    assert(g1[k] == g0[k]);
                                    assert(extends(g1, self@));
                                }
                                // The result is the least solved extension:
                                // any other solved grid holds a larger digit
                                // at `pos`, or extends the same guess and
                                // loses to the recursion's least result.
                                assert forall|h: Seq<u8>|
                                    solved(h) && extends(g0, h) && h != self@ implies lex_lt(
                                    self@,
                                    h,
                                ) by {
                                    assert(h[pos.idx()] >= n);
                                    if h[pos.idx()] == n {
                                        assert forall|k: int|
                                            0 <= k < 81 && g1[k] != 0 implies h[k] == g1[k] by {
                                            if k != pos.idx() {
                                                assert(g1[k] == g0[k]);
                                            }
                                        }
                                        assert(extends(g1, h));
                                        assert(lex_lt(self@, h));
                                    } else {
                                        assert(g1[pos.idx()] == n && extends(g1, self@));
                                        assert(self@[pos.idx()] == n);
                                        assert forall|m: int|
                                            0 <= m < pos.idx() implies self@[m] == h[m] by {
                                            assert(g0[m] != 0);
                                            assert(g1[m] == g0[m]);
                                            assert(self@[m] == g1[m]);
                                            assert(h[m] == g0[m]);
                                        }
                                        assert(0 <= pos.idx() < 81 && self@[pos.idx()] < h[
                                            pos.idx()
                                        ]);
                                        assert(lex_lt(self@, h));
                                    }
                                }
                            }
                            return true;
                        }
                    },
                }
                // The guess led nowhere: no solved grid holds `n` here.
                proof {
                    assert(self@ == g1);
                    assert forall|h: Seq<u8>| solved(h) && extends(g0, h) implies h[pos.idx()]
                        > n by {
                        if h[pos.idx()] == n {
                            assert forall|k: int| 0 <= k < 81 && g1[k] != 0 implies h[k]
                                == g1[k] by {
                                if k != pos.idx() {
                                    assert(g1[k] == g0[k]);
                                }
                            }
                            assert(extends(g1, h));
                            assert(false);
                        }
                    }
                }
                self.set_pos(0, &pos);
                proof {
                    assert(self@ =~= g0);
                }
            } else {
                // The digit collides with a filled cell, which any solved
                // extension keeps.
                proof {
                    assert forall|h: Seq<u8>| solved(h) && extends(g0, h) implies h[pos.idx()]
                        > n by {
                        if h[pos.idx()] == n {
                            let (x, y) = choose|x: int, y: int|
                                0 <= x < 9 && 0 <= y < 9 && !(x == pos.i && y == pos.j)
                                    && same_group(pos.i as int, pos.j as int, x, y) && !(
                                #[trigger] cell(g0, x, y) == 0 || cell(g0, x, y) != n);
                            assert(cell(h, x, y) == n);
                            assert(valid_at(h, pos.i as int, pos.j as int));
                            assert(false);
                        }
                    }
                }
            }
        }
        proof {
            assert forall|h: Seq<u8>| !(solved(h) && extends(g0, h)) by {
                if solved(h) && extends(g0, h) {
                    assert(h[pos.idx()] > 9);
                    assert(h[pos.idx()] <= 9);
                    assert(false);
                }
            }
        }
        false
    }

    /// Solves the puzzle in place: runs the propagation pre-pass, then the
    /// backtracking search over the cells still empty. Returns `Solved` with
    /// the grid completed — every clue kept, no duplicate in any row, column,
    /// or box, no cell empty, and, the raster cell order and ascending digit
    /// trials being fixed, the raster-major lexicographically least solved
    /// grid that extends the clues — or `Unsolvable` when no solved grid
    /// extends them; the grid is then the propagation result alone, every
    /// guess undone: its empty cells are exactly those the deduction leaves
    /// open. A grid that is already solved is returned untouched, and a full
    /// grid holding a conflict is reported unsolvable untouched.
    pub fn solve(&mut self) -> (r: SolveResult)
        requires
            old(self).wf(),
        ensures
            final(self).wf(),
            extends(old(self)@, final(self)@),
            r == SolveResult::Solved ==> solved(final(self)@),
            r == SolveResult::Solved ==> forall|h: Seq<u8>|
                solved(h) && extends(old(self)@, h) && h != final(self)@ ==> lex_lt(
                    final(self)@,
                    h,
                ),
            r == SolveResult::Unsolvable ==> !solvable(old(self)@),
            r == SolveResult::Unsolvable ==> forall|a: int, b: int|
                0 <= a < 9 && 0 <= b < 9 && cell(final(self)@, a, b) == 0 ==> only_num(
                    final(self)@,
                    a,
                    b,
                ) == 0,
            solved(old(self)@) ==> r == SolveResult::Solved && final(self)@ == old(self)@,
            full(old(self)@) && !all_valid(old(self)@) ==> r == SolveResult::Unsolvable
                && final(self)@ == old(self)@,
    {
        let ghost g0 = self@;
        self.pre_solve_with_constraints();
        let ghost g1 = self@;
        if !self.all_cells_valid() {
            proof {
                if solvable(g0) {
                    let h = choose|h: Seq<u8>| solved(h) && extends(g0, h);
                    assert(extends(g1, h));
                    lemma_conflict_persists(g1, h);
                    assert(false);
                }
            }
            return SolveResult::Unsolvable;
        }
        let origin = Pos { i: 0, j: 0 };
        let first = if self.get(0, 0) == 0 {
            Some(origin)
        } else {
            self.next_free(origin)
        };
        match first {
            None => {
                proof {
                    assert(solved(self@));
                    assert forall|h: Seq<u8>|
                        solved(h) && extends(g0, h) && h != self@ implies lex_lt(self@, h) by {
                        assert(extends(g1, h));
                        assert forall|k: int| 0 <= k < 81 implies h[k] == self@[k] by {
                            assert(self@[k] != 0);
                        }
                        assert(h =~= self@);
                        assert(false);
                    }
                }
                SolveResult::Solved
            },
            Some(p) => {
                proof {
                    assert forall|k: int| 0 <= k < p.idx() implies self@[k] != 0 by {
                        if k > 0 {
                            assert(origin.idx() < k < p.idx());
                        }
                    }
                }
                if self.fill_cell(p) {
                    proof {
                        assert forall|h: Seq<u8>|
                            solved(h) && extends(g0, h) && h != self@ implies lex_lt(
                            self@,
                            h,
                        ) by {
                            assert(extends(g1, h));
                        }
                    }
                    SolveResult::Solved
                } else {
                    proof {
                        if solvable(g0) {
                            let h = choose|h: Seq<u8>| solved(h) && extends(g0, h);
                            assert(extends(g1, h));
                            assert(false);
                        }
                    }
                    SolveResult::Unsolvable
                }
            },
        }
    }
}

} // verus!
