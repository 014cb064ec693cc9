//! The Sudoku constraint: a placed digit must not duplicate any other filled
//! cell in its row, its column, or its 3x3 box; and the partial deduction
//! that finds cells whose digit is forced by the current constraints.

use crate::grid::{cell, full, grid_wf, Board, Pos};
use vstd::prelude::*;
use vstd::seq_lib::*;
use vstd::set_lib::*;

verus! {

/// The top row (or column) of the 3x3 box band that `x` falls in: 0, 3 or 6.
pub open spec fn box_top(x: int) -> int {
    if x <= 2 {
        0
    } else if x <= 5 {
        3
    } else {
        6
    }
}

/// Whether two positions share a row, a column, or a 3x3 box.
pub open spec fn same_group(i1: int, j1: int, i2: int, j2: int) -> bool {
    ||| i1 == i2
    ||| j1 == j2
    ||| (box_top(i1) == box_top(i2) && box_top(j1) == box_top(j2))
}

/// Whether the digit `n` can stand at row `i`, column `j` of `g` without
/// duplicating another filled cell of its row, column, or box. The cell's
/// own stored value plays no part.
pub open spec fn fits(g: Seq<u8>, i: int, j: int, n: u8) -> bool {
    forall|i2: int, j2: int|
        0 <= i2 < 9 && 0 <= j2 < 9 && !(i2 == i && j2 == j) && same_group(i, j, i2, j2)
            ==> #[trigger] cell(g, i2, j2) == 0 || cell(g, i2, j2) != n
}

/// Whether the value stored at row `i`, column `j` respects the constraint
/// (an empty cell always does).
pub open spec fn valid_at(g: Seq<u8>, i: int, j: int) -> bool {
    fits(g, i, j, cell(g, i, j))
}

/// Whether every cell of the grid respects the constraint.
pub open spec fn all_valid(g: Seq<u8>) -> bool {
    forall|i: int, j: int| 0 <= i < 9 && 0 <= j < 9 ==> #[trigger] valid_at(g, i, j)
}

/// A fully and correctly completed grid: 81 cells, none empty, all within
/// 1-9, and no duplicate in any row, column, or box.
pub open spec fn solved(g: Seq<u8>) -> bool {
    grid_wf(g) && full(g) && all_valid(g)
}

/// Whether `h` keeps every filled cell of `g` unchanged.
pub open spec fn extends(g: Seq<u8>, h: Seq<u8>) -> bool {
    forall|k: int| 0 <= k < 81 && g[k] != 0 ==> h[k] == g[k]
}

/// Whether some solved grid keeps every filled cell of `g`.
pub open spec fn solvable(g: Seq<u8>) -> bool {
    exists|h: Seq<u8>| solved(h) && extends(g, h)
}

/// Whether `a` comes strictly before `b` in raster-major lexicographic
/// order of the 81 cell values.
pub open spec fn lex_lt(a: Seq<u8>, b: Seq<u8>) -> bool {
    exists|k: int|
        0 <= k < 81 && #[trigger] a[k] < b[k] && (forall|m: int| 0 <= m < k ==> a[m] == b[m])
}

/// Whether the digit `d` is already stored somewhere in the row, column, or
/// box of position (`i`, `j`) — the position itself included.
pub open spec fn present(g: Seq<u8>, i: int, j: int, d: u8) -> bool {
    exists|i2: int, j2: int|
        0 <= i2 < 9 && 0 <= j2 < 9 && same_group(i, j, i2, j2) && #[trigger] cell(g, i2, j2) == d
}

/// How many of the digits `d`, `d+1`, ..., 9 are present around (`i`, `j`).
pub open spec fn present_count_from(g: Seq<u8>, i: int, j: int, d: int) -> int
    decreases 10 - d,
{
    if d >= 10 || d < 1 {
        0
    } else {
        (if present(g, i, j, d as u8) {
            1int
        } else {
            0int
        }) + present_count_from(g, i, j, d + 1)
    }
}

/// How many distinct digits 1-9 are present around (`i`, `j`).
pub open spec fn present_count(g: Seq<u8>, i: int, j: int) -> int {
    present_count_from(g, i, j, 1)
}

/// The smallest digit of `d`..9 not present around (`i`, `j`), or 0 when all
/// of them are present.
pub open spec fn first_missing_from(g: Seq<u8>, i: int, j: int, d: int) -> u8
    decreases 10 - d,
{
    if d >= 10 || d < 1 {
        0
    } else if !present(g, i, j, d as u8) {
        d as u8
    } else {
        first_missing_from(g, i, j, d + 1)
    }
}

/// Whether some other empty cell of column `j` could validly take `d`.
pub open spec fn alt_in_col(g: Seq<u8>, i: int, j: int, d: u8) -> bool {
    exists|i2: int| 0 <= i2 < 9 && i2 != i && #[trigger] cell(g, i2, j) == 0 && fits(g, i2, j, d)
}

/// Whether some other empty cell of row `i` could validly take `d`.
pub open spec fn alt_in_row(g: Seq<u8>, i: int, j: int, d: u8) -> bool {
    exists|j2: int| 0 <= j2 < 9 && j2 != j && #[trigger] cell(g, i, j2) == 0 && fits(g, i, j2, d)
}

/// Whether some other empty cell of the box of (`i`, `j`) could validly take `d`.
pub open spec fn alt_in_box(g: Seq<u8>, i: int, j: int, d: u8) -> bool {
    exists|i2: int, j2: int|
        box_top(i) <= i2 < box_top(i) + 3 && box_top(j) <= j2 < box_top(j) + 3
            && !(i2 == i && j2 == j) && #[trigger] cell(g, i2, j2) == 0 && fits(g, i2, j2, d)
}

/// Whether (`i`, `j`) is the only place left for `d`: the digit is not yet
/// present around the position, and no other empty cell of the row, nor of
/// the column, nor of the box could validly take it.
pub open spec fn forced_here(g: Seq<u8>, i: int, j: int, d: u8) -> bool {
    &&& 1 <= d <= 9
    &&& !present(g, i, j, d)
    &&& !alt_in_col(g, i, j, d)
    &&& !alt_in_row(g, i, j, d)
    &&& !alt_in_box(g, i, j, d)
}

/// The smallest digit of `d`..9 forced at (`i`, `j`), or 0 when none is.
pub open spec fn first_forced_from(g: Seq<u8>, i: int, j: int, d: int) -> u8
    decreases 10 - d,
{
    if d >= 10 || d < 1 {
        0
    } else if forced_here(g, i, j, d as u8) {
        d as u8
    } else {
        first_forced_from(g, i, j, d + 1)
    }
}

/// The digit that the deduction commits at (`i`, `j`), or 0 when it commits
/// none: the single missing digit when eight are already present around the
/// position; nothing when all nine are present; otherwise the smallest digit
/// that this position is the only place for.
pub open spec fn only_num(g: Seq<u8>, i: int, j: int) -> u8 {
    if present_count(g, i, j) == 8 {
        first_missing_from(g, i, j, 1)
    } else if present_count(g, i, j) == 9 {
        0
    } else {
        first_forced_from(g, i, j, 1)
    }
}

impl Board {
    /// Returns whether the digit `n` could stand at `pos` without duplicating
    /// another filled cell of its row, column, or box; the grid is not
    /// changed and the cell's own stored value plays no part.
    pub fn is_position_valid_with(&self, pos: &Pos, n: u8) -> (r: bool)
        requires
            self.wf(),
            pos.wf(),
        ensures
            r == fits(self@, pos.i as int, pos.j as int, n),
    {
        let pi = pos.i;
        let pj = pos.j;
        // The column.
        let mut i: usize = 0;
        while i < 9
            invariant
                self.wf(),
                pos.wf(),
                pi == pos.i,
                pj == pos.j,
                i <= 9,
                forall|i2: int|
                    0 <= i2 < i && i2 != pi ==> #[trigger] cell(self@, i2, pj as int) == 0
                        || cell(self@, i2, pj as int) != n,
            decreases 9 - i,
        {
            if i != pi {
                let p = self.get(i, pj);
                if p != 0 && p == n {
                    assert(!fits(self@, pi as int, pj as int, n));
                    return false;
                }
            }
            i = i + 1;
        }
        // The row.
        let mut j: usize = 0;
        while j < 9
            invariant
                self.wf(),
                pos.wf(),
                pi == pos.i,
                pj == pos.j,
                j <= 9,
                forall|j2: int|
                    0 <= j2 < j && j2 != pj ==> #[trigger] cell(self@, pi as int, j2) == 0
                        || cell(self@, pi as int, j2) != n,
            decreases 9 - j,
        {
            if j != pj {
                let p = self.get(pi, j);
                if p != 0 && p == n {
                    assert(!fits(self@, pi as int, pj as int, n));
                    return false;
                }
            }
            j = j + 1;
        }
        // The 3x3 box.
        let i_top: usize = if pi <= 2 { 0 } else if pi <= 5 { 3 } else { 6 };
        let j_top: usize = if pj <= 2 { 0 } else if pj <= 5 { 3 } else { 6 };
        let mut bi: usize = i_top;
        while bi < i_top + 3
            invariant
                self.wf(),
                pos.wf(),
                pi == pos.i,
                pj == pos.j,
                i_top == box_top(pi as int),
                j_top == box_top(pj as int),
                i_top <= bi <= i_top + 3,
                forall|i2: int, j2: int|
                    i_top <= i2 < bi && j_top <= j2 < j_top + 3 && !(i2 == pi && j2 == pj)
                        ==> #[trigger] cell(self@, i2, j2) == 0 || cell(self@, i2, j2) != n,
            decreases i_top + 3 - bi,
        {
            let mut bj: usize = j_top;
            while bj < j_top + 3
                invariant
                    self.wf(),
                    pos.wf(),
                    pi == pos.i,
                    pj == pos.j,
                    i_top == box_top(pi as int),
                    j_top == box_top(pj as int),
                    i_top <= bi < i_top + 3,
                    j_top <= bj <= j_top + 3,
                    forall|i2: int, j2: int|
                        i_top <= i2 < bi && j_top <= j2 < j_top + 3 && !(i2 == pi && j2 == pj)
                            ==> #[trigger] cell(self@, i2, j2) == 0 || cell(self@, i2, j2) != n,
                    forall|j2: int|
                        j_top <= j2 < bj && !(bi == pi && j2 == pj)
                            ==> #[trigger] cell(self@, bi as int, j2) == 0
                                || cell(self@, bi as int, j2) != n,
                decreases j_top + 3 - bj,
            {
                if !(bi == pi && bj == pj) {
                    let p = self.get(bi, bj);
                    if p != 0 && p == n {
                        assert(same_group(pi as int, pj as int, bi as int, bj as int));
                        assert(!fits(self@, pi as int, pj as int, n));
                        return false;
                    }
                }
                bj = bj + 1;
            }
            bi = bi + 1;
        }
        assert forall|i2: int, j2: int|
            0 <= i2 < 9 && 0 <= j2 < 9 && !(i2 == pi && j2 == pj)
                && same_group(pi as int, pj as int, i2, j2)
                implies #[trigger] cell(self@, i2, j2) == 0 || cell(self@, i2, j2) != n by {
            if i2 == pi {
            } else if j2 == pj {
            } else {
                assert(box_top(i2) == box_top(pi as int) && box_top(j2) == box_top(pj as int));
                assert(i_top <= i2 < i_top + 3 && j_top <= j2 < j_top + 3);
            }
        }
        true
    }

    /// Returns whether the value stored at `pos` respects the constraint
    /// (an empty cell always does).
    pub fn is_position_valid(&self, pos: &Pos) -> (r: bool)
        requires
            self.wf(),
            pos.wf(),
        ensures
            r == valid_at(self@, pos.i as int, pos.j as int),
    {
        self.is_position_valid_with(pos, self.get_pos(pos))
    }

    /// Returns whether the digit `d` is already stored somewhere in the row,
    /// column, or box of `pos` (the position itself included).
    fn digit_present(&self, pos: &Pos, d: u8) -> (r: bool)
        requires
            self.wf(),
            pos.wf(),
            1 <= d <= 9,
        ensures
            r == present(self@, pos.i as int, pos.j as int, d),
    {
        let pi = pos.i;
        let pj = pos.j;
        let mut i: usize = 0;
        while i < 9
            invariant
                self.wf(),
                pos.wf(),
                pi == pos.i,
                pj == pos.j,
                i <= 9,
                forall|i2: int| 0 <= i2 < i ==> #[trigger] cell(self@, i2, pj as int) != d,
            decreases 9 - i,
        {
            if self.get(i, pj) == d {
                assert(same_group(pi as int, pj as int, i as int, pj as int));
                return true;
            }
            i = i + 1;
        }
        let mut j: usize = 0;
        while j < 9
            invariant
                self.wf(),
                pos.wf(),
                pi == pos.i,
                pj == pos.j,
                j <= 9,
                forall|j2: int| 0 <= j2 < j ==> #[trigger] cell(self@, pi as int, j2) != d,
            decreases 9 - j,
        {
            if self.get(pi, j) == d {
                assert(same_group(pi as int, pj as int, pi as int, j as int));
                return true;
            }
            j = j + 1;
        }
        let i_top: usize = if pi <= 2 { 0 } else if pi <= 5 { 3 } else { 6 };
        let j_top: usize = if pj <= 2 { 0 } else if pj <= 5 { 3 } else { 6 };
        let mut bi: usize = i_top;
        while bi < i_top + 3
            invariant
                self.wf(),
                pos.wf(),
                pi == pos.i,
                pj == pos.j,
                i_top == box_top(pi as int),
                j_top == box_top(pj as int),
                i_top <= bi <= i_top + 3,
                forall|i2: int, j2: int|
                    i_top <= i2 < bi && j_top <= j2 < j_top + 3 ==> #[trigger] cell(self@, i2, j2)
                        != d,
            decreases i_top + 3 - bi,
        {
            let mut bj: usize = j_top;
            while bj < j_top + 3
                invariant
                    self.wf(),
                    pos.wf(),
                    pi == pos.i,
                    pj == pos.j,
                    i_top == box_top(pi as int),
                    j_top == box_top(pj as int),
                    i_top <= bi < i_top + 3,
                    j_top <= bj <= j_top + 3,
                    forall|i2: int, j2: int|
                        i_top <= i2 < bi && j_top <= j2 < j_top + 3 ==> #[trigger] cell(
                            self@,
                            i2,
                            j2,
                        ) != d,
                    forall|j2: int|
                        j_top <= j2 < bj ==> #[trigger] cell(self@, bi as int, j2) != d,
                decreases j_top + 3 - bj,
            {
                if self.get(bi, bj) == d {
                    assert(same_group(pi as int, pj as int, bi as int, bj as int));
                    return true;
                }
                bj = bj + 1;
            }
            bi = bi + 1;
        }
        assert forall|i2: int, j2: int|
            0 <= i2 < 9 && 0 <= j2 < 9 && same_group(pi as int, pj as int, i2, j2)
                implies #[trigger] cell(self@, i2, j2) != d by {
            if i2 == pi {
            } else if j2 == pj {
            } else {
                assert(i_top <= i2 < i_top + 3 && j_top <= j2 < j_top + 3);
            }
        }
        false
    }

    /// Returns whether some other empty cell of the column of `pos` could
    /// validly take `d`.
    fn has_alt_in_col(&self, pos: &Pos, d: u8) -> (r: bool)
        requires
            self.wf(),
            pos.wf(),
        ensures
            r == alt_in_col(self@, pos.i as int, pos.j as int, d),
    {
        let pi = pos.i;
        let pj = pos.j;
        let mut i: usize = 0;
        while i < 9
            invariant
                self.wf(),
                pos.wf(),
                pi == pos.i,
                pj == pos.j,
                i <= 9,
                forall|i2: int|
                    0 <= i2 < i && i2 != pi ==> !(#[trigger] cell(self@, i2, pj as int) == 0
                        && fits(self@, i2, pj as int, d)),
            decreases 9 - i,
        {
            if i != pi && self.get(i, pj) == 0 {
                if self.is_position_valid_with(&Pos { i, j: pj }, d) {
                    return true;
                }
            }
            i = i + 1;
        }
        false
    }

    /// Returns whether some other empty cell of the row of `pos` could
    /// validly take `d`.
    fn has_alt_in_row(&self, pos: &Pos, d: u8) -> (r: bool)
        requires
            self.wf(),
            pos.wf(),
        ensures
            r == alt_in_row(self@, pos.i as int, pos.j as int, d),
    {
        let pi = pos.i;
        let pj = pos.j;
        let mut j: usize = 0;
        while j < 9
            invariant
                self.wf(),
                pos.wf(),
                pi == pos.i,
                pj == pos.j,
                j <= 9,
                forall|j2: int|
                    0 <= j2 < j && j2 != pj ==> !(#[trigger] cell(self@, pi as int, j2) == 0
                        && fits(self@, pi as int, j2, d)),
            decreases 9 - j,
        {
            if j != pj && self.get(pi, j) == 0 {
                if self.is_position_valid_with(&Pos { i: pi, j }, d) {
                    return true;
                }
            }
            j = j + 1;
        }
        false
    }

    /// Returns whether some other empty cell of the box of `pos` could
    /// validly take `d`.
    fn has_alt_in_box(&self, pos: &Pos, d: u8) -> (r: bool)
        requires
            self.wf(),
            pos.wf(),
        ensures
            r == alt_in_box(self@, pos.i as int, pos.j as int, d),
    {
        let pi = pos.i;
        let pj = pos.j;
        let i_top: usize = if pi <= 2 { 0 } else if pi <= 5 { 3 } else { 6 };
        let j_top: usize = if pj <= 2 { 0 } else if pj <= 5 { 3 } else { 6 };
        let mut bi: usize = i_top;
        while bi < i_top + 3
            invariant
                self.wf(),
                pos.wf(),
                pi == pos.i,
                pj == pos.j,
                i_top == box_top(pi as int),
                j_top == box_top(pj as int),
                i_top <= bi <= i_top + 3,
                forall|i2: int, j2: int|
                    i_top <= i2 < bi && j_top <= j2 < j_top + 3 && !(i2 == pi && j2 == pj) ==> !(
                    #[trigger] cell(self@, i2, j2) == 0 && fits(self@, i2, j2, d)),
            decreases i_top + 3 - bi,
        {
            let mut bj: usize = j_top;
            while bj < j_top + 3
                invariant
                    self.wf(),
                    pos.wf(),
                    pi == pos.i,
                    pj == pos.j,
                    i_top == box_top(pi as int),
                    j_top == box_top(pj as int),
                    i_top <= bi < i_top + 3,
                    j_top <= bj <= j_top + 3,
                    forall|i2: int, j2: int|
                        i_top <= i2 < bi && j_top <= j2 < j_top + 3 && !(i2 == pi && j2 == pj)
                            ==> !(#[trigger] cell(self@, i2, j2) == 0 && fits(self@, i2, j2, d)),
                    forall|j2: int|
                        j_top <= j2 < bj && !(bi == pi && j2 == pj) ==> !(#[trigger] cell(
                            self@,
                            bi as int,
                            j2,
                        ) == 0 && fits(self@, bi as int, j2, d)),
                decreases j_top + 3 - bj,
            {
                if !(bi == pi && bj == pj) && self.get(bi, bj) == 0 {
                    if self.is_position_valid_with(&Pos { i: bi, j: bj }, d) {
                        return true;
                    }
                }
                bj = bj + 1;
            }
            bi = bi + 1;
        }
        false
    }

    /// Decides, for the cell at `pos`, whether the current constraints force
    /// exactly one digit there by this deduction: when eight distinct digits
    /// are already present around the position, the missing one is returned;
    /// when all nine are present, 0; otherwise the smallest absent digit for
    /// which no other empty cell of the row, nor of the column, nor of the
    /// box is a valid place — or 0 when there is none.
    pub fn the_only_valid_number(&self, pos: &Pos) -> (r: u8)
        requires
            self.wf(),
            pos.wf(),
        ensures
            r == only_num(self@, pos.i as int, pos.j as int),
            r <= 9,
    {
        let pi = pos.i;
        let pj = pos.j;
        let ghost g = self@;
        let mut nb: u8 = 0;
        let mut d: u8 = 1;
        while d <= 9
            invariant
                self.wf(),
                pos.wf(),
                pi == pos.i,
                pj == pos.j,
                g == self@,
                1 <= d <= 10,
                nb == present_count(g, pi as int, pj as int) - present_count_from(
                    g,
                    pi as int,
                    pj as int,
                    d as int,
                ),
                nb < d,
            decreases 10 - d,
        {
            proof {
                assert(present_count_from(g, pi as int, pj as int, d as int) == (if present(
                    g,
                    pi as int,
                    pj as int,
                    d,
                ) {
                    1int
                } else {
                    0int
                }) + present_count_from(g, pi as int, pj as int, d as int + 1));
            }
            if self.digit_present(pos, d) {
                nb = nb + 1;
            }
            d = d + 1;
        }
        assert(present_count_from(g, pi as int, pj as int, 10) == 0);
        assert(nb == present_count(g, pi as int, pj as int));
        if nb == 8 {
            // Exactly one digit is missing: find and return it.
            let mut d: u8 = 1;
            while d <= 9
                invariant
                    self.wf(),
                    pos.wf(),
                    pi == pos.i,
                    pj == pos.j,
                    g == self@,
                    1 <= d <= 10,
                    first_missing_from(g, pi as int, pj as int, 1) == first_missing_from(
                        g,
                        pi as int,
                        pj as int,
                        d as int,
                    ),
                    present_count(g, pi as int, pj as int) - present_count_from(
                        g,
                        pi as int,
                        pj as int,
                        d as int,
                    ) == d - 1,
                    present_count(g, pi as int, pj as int) == 8,
                decreases 10 - d,
            {
                proof {
                    assert(present_count_from(g, pi as int, pj as int, d as int) == (if present(
                        g,
                        pi as int,
                        pj as int,
                        d,
                    ) {
                        1int
                    } else {
                        0int
                    }) + present_count_from(g, pi as int, pj as int, d as int + 1));
                }
                if !self.digit_present(pos, d) {
                    return d;
                }
                d = d + 1;
            }
            // All nine present would contradict the count of eight.
            proof {
                assert(present_count_from(g, pi as int, pj as int, 10) == 0);
                assert(false);
            }
            0
        } else if nb == 9 {
            0
        } else {
            let mut d: u8 = 1;
            while d <= 9
                invariant
                    self.wf(),
                    pos.wf(),
                    pi == pos.i,
                    pj == pos.j,
                    g == self@,
                    1 <= d <= 10,
                    first_forced_from(g, pi as int, pj as int, 1) == first_forced_from(
                        g,
                        pi as int,
                        pj as int,
                        d as int,
                    ),
                    present_count(g, pi as int, pj as int) != 8,
                    present_count(g, pi as int, pj as int) != 9,
                decreases 10 - d,
            {
                if !self.digit_present(pos, d) {
                    if !self.has_alt_in_col(pos, d) && !self.has_alt_in_row(pos, d)
                        && !self.has_alt_in_box(pos, d) {
                        assert(forced_here(g, pi as int, pj as int, d));
                        assert(first_forced_from(g, pi as int, pj as int, d as int) == d);
                        return d;
                    }
                }
                proof {
                    assert(!forced_here(g, pi as int, pj as int, d));
                    assert(first_forced_from(g, pi as int, pj as int, d as int)
                        == first_forced_from(g, pi as int, pj as int, d as int + 1));
                }
                d = d + 1;
            }
            assert(first_forced_from(g, pi as int, pj as int, 10) == 0);
            0
        }
    }
}

/// Whether some cell of row `i` holds the digit `d`.
pub open spec fn row_has(g: Seq<u8>, i: int, d: u8) -> bool {
    exists|j: int| 0 <= j < 9 && #[trigger] cell(g, i, j) == d
}

/// Whether some cell of column `j` holds the digit `d`.
pub open spec fn col_has(g: Seq<u8>, j: int, d: u8) -> bool {
    exists|i: int| 0 <= i < 9 && #[trigger] cell(g, i, j) == d
}

/// Whether some cell of the box of (`i`, `j`) holds the digit `d`.
pub open spec fn box_has(g: Seq<u8>, i: int, j: int, d: u8) -> bool {
    exists|i2: int, j2: int|
        box_top(i) <= i2 < box_top(i) + 3 && box_top(j) <= j2 < box_top(j) + 3
            && #[trigger] cell(g, i2, j2) == d
}

/// Nine pairwise distinct values drawn from 1..9 cover every value of 1..9.
proof fn lemma_nine_distinct_covers(s: Seq<int>)
    requires
        s.len() == 9,
        forall|k: int| 0 <= k < 9 ==> 1 <= #[trigger] s[k] <= 9,
        forall|k1: int, k2: int| 0 <= k1 < 9 && 0 <= k2 < 9 && k1 != k2 ==> s[k1] != s[k2],
    ensures
        forall|d: int| 1 <= d <= 9 ==> s.contains(d),
{
    broadcast use seq_to_set_is_finite;

    assert(s.no_duplicates());
    s.unique_seq_to_set();
    assert(s.to_set().subset_of(set_int_range(1, 10))) by {
        assert forall|e: int| s.to_set().contains(e) implies set_int_range(1, 10).contains(e) by {
            assert(s.contains(e));
            let k = choose|k: int| 0 <= k < s.len() && s[k] == e;
            assert(1 <= s[k] <= 9);
        }
    }
    lemma_int_range(1, 10);
    lemma_subset_equality(s.to_set(), set_int_range(1, 10));
    assert forall|d: int| 1 <= d <= 9 implies s.contains(d) by {
        assert(set_int_range(1, 10).contains(d));
        assert(s.to_set().contains(d));
    }
}

/// In a solved grid, every row holds every digit.
pub proof fn lemma_solved_row_has(g: Seq<u8>, i: int, d: u8)
    requires
        solved(g),
        0 <= i < 9,
        1 <= d <= 9,
    ensures
        row_has(g, i, d),
{
    let s = Seq::new(9, |j: int| cell(g, i, j) as int);
    assert forall|k1: int, k2: int| 0 <= k1 < 9 && 0 <= k2 < 9 && k1 != k2 implies s[k1] != s[k2] by {
        assert(valid_at(g, i, k1));
        assert(same_group(i, k1, i, k2));
    }
    assert forall|k: int| 0 <= k < 9 implies 1 <= #[trigger] s[k] <= 9 by {
        assert(g[i * 9 + k] != 0 && g[i * 9 + k] <= 9);
    }
    lemma_nine_distinct_covers(s);
    assert(s.contains(d as int));
    let j = choose|j: int| 0 <= j < s.len() && s[j] == d as int;
    assert(cell(g, i, j) == d);
}

/// In a solved grid, every column holds every digit.
pub proof fn lemma_solved_col_has(g: Seq<u8>, j: int, d: u8)
    requires
        solved(g),
        0 <= j < 9,
        1 <= d <= 9,
    ensures
        col_has(g, j, d),
{
    let s = Seq::new(9, |i: int| cell(g, i, j) as int);
    assert forall|k1: int, k2: int| 0 <= k1 < 9 && 0 <= k2 < 9 && k1 != k2 implies s[k1] != s[k2] by {
        assert(valid_at(g, k1, j));
        assert(same_group(k1, j, k2, j));
    }
    assert forall|k: int| 0 <= k < 9 implies 1 <= #[trigger] s[k] <= 9 by {
        assert(g[k * 9 + j] != 0 && g[k * 9 + j] <= 9);
    }
    lemma_nine_distinct_covers(s);
    assert(s.contains(d as int));
    let i = choose|i: int| 0 <= i < s.len() && s[i] == d as int;
    assert(cell(g, i, j) == d);
}

/// In a solved grid, every 3x3 box holds every digit.
pub proof fn lemma_solved_box_has(g: Seq<u8>, i: int, j: int, d: u8)
    requires
        solved(g),
        0 <= i < 9,
        0 <= j < 9,
        1 <= d <= 9,
    ensures
        box_has(g, i, j, d),
{
    let bi = box_top(i);
    let bj = box_top(j);
    let s = Seq::new(9, |k: int| cell(g, bi + k / 3, bj + k % 3) as int);
    assert forall|k1: int, k2: int| 0 <= k1 < 9 && 0 <= k2 < 9 && k1 != k2 implies s[k1] != s[k2] by {
        let (a1, b1) = (bi + k1 / 3, bj + k1 % 3);
        let (a2, b2) = (bi + k2 / 3, bj + k2 % 3);
        assert(0 <= k1 / 3 < 3 && 0 <= k1 % 3 < 3) by (nonlinear_arith)
            requires 0 <= k1 < 9;
        assert(0 <= k2 / 3 < 3 && 0 <= k2 % 3 < 3) by (nonlinear_arith)
            requires 0 <= k2 < 9;
        assert(!(a1 == a2 && b1 == b2)) by (nonlinear_arith)
            requires k1 != k2, 0 <= k1 < 9, 0 <= k2 < 9, a1 == bi + k1 / 3, b1 == bj + k1 % 3,
                a2 == bi + k2 / 3, b2 == bj + k2 % 3;
        assert(box_top(a1) == bi && box_top(b1) == bj && box_top(a2) == bi && box_top(b2) == bj);
        assert(same_group(a1, b1, a2, b2));
        assert(valid_at(g, a1, b1));
    }
    assert forall|k: int| 0 <= k < 9 implies 1 <= #[trigger] s[k] <= 9 by {
        assert(0 <= k / 3 < 3 && 0 <= k % 3 < 3) by (nonlinear_arith)
            requires 0 <= k < 9;
        let a = bi + k / 3;
        let b = bj + k % 3;
        assert(g[a * 9 + b] != 0 && g[a * 9 + b] <= 9);
    }
    lemma_nine_distinct_covers(s);
    assert(s.contains(d as int));
    let k = choose|k: int| 0 <= k < s.len() && s[k] == d as int;
    assert(0 <= k / 3 < 3 && 0 <= k % 3 < 3) by (nonlinear_arith)
        requires 0 <= k < 9;
    assert(cell(g, bi + k / 3, bj + k % 3) == d);
}

/// In a solved grid no two cells of a row, of a column, or of a box agree,
/// and every row, column, and box holds each digit 1-9 — so each holds each
/// digit exactly once.
pub proof fn lemma_solved_groups(g: Seq<u8>)
    requires
        solved(g),
    ensures
        forall|i: int, d: u8| 0 <= i < 9 && 1 <= d <= 9 ==> #[trigger] row_has(g, i, d),
        forall|j: int, d: u8| 0 <= j < 9 && 1 <= d <= 9 ==> #[trigger] col_has(g, j, d),
        forall|i: int, j: int, d: u8|
            0 <= i < 9 && 0 <= j < 9 && 1 <= d <= 9 ==> #[trigger] box_has(g, i, j, d),
        forall|i: int, j1: int, j2: int|
            0 <= i < 9 && 0 <= j1 < 9 && 0 <= j2 < 9 && j1 != j2 ==> #[trigger] cell(g, i, j1)
                != #[trigger] cell(g, i, j2),
        forall|j: int, i1: int, i2: int|
            0 <= j < 9 && 0 <= i1 < 9 && 0 <= i2 < 9 && i1 != i2 ==> #[trigger] cell(g, i1, j)
                != #[trigger] cell(g, i2, j),
        forall|i1: int, j1: int, i2: int, j2: int|
            0 <= i1 < 9 && 0 <= j1 < 9 && 0 <= i2 < 9 && 0 <= j2 < 9 && !(i1 == i2 && j1 == j2)
                && box_top(i1) == box_top(i2) && box_top(j1) == box_top(j2) ==> #[trigger] cell(
                g,
                i1,
                j1,
            ) != #[trigger] cell(g, i2, j2),
{
    assert forall|i: int, d: u8| 0 <= i < 9 && 1 <= d <= 9 implies #[trigger] row_has(g, i, d) by {
        lemma_solved_row_has(g, i, d);
    }
    assert forall|j: int, d: u8| 0 <= j < 9 && 1 <= d <= 9 implies #[trigger] col_has(g, j, d) by {
        lemma_solved_col_has(g, j, d);
    }
    assert forall|i: int, j: int, d: u8|
        0 <= i < 9 && 0 <= j < 9 && 1 <= d <= 9 implies #[trigger] box_has(g, i, j, d) by {
        lemma_solved_box_has(g, i, j, d);
    }
    assert forall|i: int, j1: int, j2: int|
        0 <= i < 9 && 0 <= j1 < 9 && 0 <= j2 < 9 && j1 != j2 implies #[trigger] cell(g, i, j1)
        != #[trigger] cell(g, i, j2) by {
        assert(valid_at(g, i, j1));
        assert(same_group(i, j1, i, j2));
    }
    assert forall|j: int, i1: int, i2: int|
        0 <= j < 9 && 0 <= i1 < 9 && 0 <= i2 < 9 && i1 != i2 implies #[trigger] cell(g, i1, j)
        != #[trigger] cell(g, i2, j) by {
        assert(valid_at(g, i1, j));
        assert(same_group(i1, j, i2, j));
    }
    assert forall|i1: int, j1: int, i2: int, j2: int|
        0 <= i1 < 9 && 0 <= j1 < 9 && 0 <= i2 < 9 && 0 <= j2 < 9 && !(i1 == i2 && j1 == j2)
            && box_top(i1) == box_top(i2) && box_top(j1) == box_top(j2) implies #[trigger] cell(
        g,
        i1,
        j1,
    ) != #[trigger] cell(g, i2, j2) by {
        assert(valid_at(g, i1, j1));
        assert(same_group(i1, j1, i2, j2));
    }
}

/// A grid with a conflict among its filled cells has no solved completion.
pub proof fn lemma_conflict_persists(g: Seq<u8>, h: Seq<u8>)
    requires
        g.len() == 81,
        !all_valid(g),
        extends(g, h),
    ensures
        !solved(h),
{
    let (i, j) = choose|i: int, j: int| 0 <= i < 9 && 0 <= j < 9 && !valid_at(g, i, j);
    let n = cell(g, i, j);
    let (i2, j2) = choose|i2: int, j2: int|
        0 <= i2 < 9 && 0 <= j2 < 9 && !(i2 == i && j2 == j) && same_group(i, j, i2, j2)
            && !(cell(g, i2, j2) == 0 || cell(g, i2, j2) != n);
    assert(n != 0);
    if solved(h) {
        assert(cell(h, i, j) == n && cell(h, i2, j2) == n);
        assert(valid_at(h, i, j));
        assert(false);
    }
}

/// The count of digits `d`..9 present around a position is at most `10 - d`.
proof fn lemma_count_ub(g: Seq<u8>, i: int, j: int, d: int)
    requires
        1 <= d <= 10,
    ensures
        0 <= present_count_from(g, i, j, d) <= 10 - d,
    decreases 10 - d,
{
    if d < 10 {
        lemma_count_ub(g, i, j, d + 1);
    }
}

/// One absent digit of `d`..9 lowers the count of `d`..9 by one.
proof fn lemma_count_one_missing(g: Seq<u8>, i: int, j: int, d: int, m: u8)
    requires
        1 <= d <= 9,
        d <= m <= 9,
        !present(g, i, j, m),
    ensures
        present_count_from(g, i, j, d) <= 9 - d,
    decreases 10 - d,
{
    if d == m {
        lemma_count_ub(g, i, j, d + 1);
    } else {
        lemma_count_one_missing(g, i, j, d + 1, m);
    }
}

/// Two distinct absent digits of `d`..9 lower the count of `d`..9 by two.
proof fn lemma_count_two_missing(g: Seq<u8>, i: int, j: int, d: int, a: u8, b: u8)
    requires
        1 <= d <= 9,
        d <= a < b <= 9,
        !present(g, i, j, a),
        !present(g, i, j, b),
    ensures
        present_count_from(g, i, j, d) <= 8 - d,
    decreases 10 - d,
{
    if d == a {
        lemma_count_one_missing(g, i, j, d + 1, b);
    } else {
        lemma_count_two_missing(g, i, j, d + 1, a, b);
    }
}

/// A nonzero result of `first_missing_from` is a digit of `d`..9 that is not
/// present around the position.
proof fn lemma_first_missing_props(g: Seq<u8>, i: int, j: int, d: int)
    requires
        1 <= d <= 10,
        first_missing_from(g, i, j, d) != 0,
    ensures
        d <= first_missing_from(g, i, j, d) <= 9,
        !present(g, i, j, first_missing_from(g, i, j, d)),
    decreases 10 - d,
{
    if d < 10 && present(g, i, j, d as u8) {
        lemma_first_missing_props(g, i, j, d + 1);
    }
}

/// A nonzero result of `first_forced_from` is a digit forced at the position.
proof fn lemma_first_forced_props(g: Seq<u8>, i: int, j: int, d: int)
    requires
        1 <= d <= 10,
        first_forced_from(g, i, j, d) != 0,
    ensures
        d <= first_forced_from(g, i, j, d) <= 9,
        forced_here(g, i, j, first_forced_from(g, i, j, d)),
    decreases 10 - d,
{
    if d < 10 && !forced_here(g, i, j, d as u8) {
        lemma_first_forced_props(g, i, j, d + 1);
    }
}

/// The deduction is sound: a digit it commits at an empty cell is the digit
/// that every solved completion of the grid holds at that cell.
pub proof fn lemma_only_num_sound(g: Seq<u8>, i: int, j: int, h: Seq<u8>)
    requires
        grid_wf(g),
        0 <= i < 9,
        0 <= j < 9,
        cell(g, i, j) == 0,
        only_num(g, i, j) != 0,
        solved(h),
        extends(g, h),
    ensures
        cell(h, i, j) == only_num(g, i, j),
{
    let v = only_num(g, i, j);
    let m = cell(h, i, j);
    assert(1 <= m <= 9);
    // The digit that `h` holds at the cell is not present around the cell in
    // `g`: a group mate of the cell holding it in `g` would keep it in `h`
    // and collide there.
    assert(!present(g, i, j, m)) by {
        if present(g, i, j, m) {
            let (i2, j2) = choose|i2: int, j2: int|
                0 <= i2 < 9 && 0 <= j2 < 9 && same_group(i, j, i2, j2) && #[trigger] cell(
                    g,
                    i2,
                    j2,
                ) == m;
            assert(!(i2 == i && j2 == j));
            assert(cell(h, i2, j2) == m);
            assert(valid_at(h, i, j));
            assert(false);
        }
    }
    if present_count(g, i, j) == 8 {
        lemma_first_missing_props(g, i, j, 1);
        if v != m {
            if v < m {
                lemma_count_two_missing(g, i, j, 1, v, m);
            } else {
                lemma_count_two_missing(g, i, j, 1, m, v);
            }
            assert(false);
        }
    } else {
        lemma_first_forced_props(g, i, j, 1);
        assert(forced_here(g, i, j, v));
        // Some cell of column `j` holds `v` in `h`; no cell but (`i`, `j`)
        // can: a filled one would make `v` present in `g`, and an empty one
        // would be an alternative place for `v`.
        lemma_solved_col_has(h, j, v);
        let i2 = choose|i2: int| 0 <= i2 < 9 && #[trigger] cell(h, i2, j) == v;
        if i2 != i {
            assert(cell(g, i2, j) == 0) by {
                if cell(g, i2, j) != 0 {
                    assert(cell(h, i2, j) == cell(g, i2, j));
                    assert(same_group(i, j, i2, j));
                    assert(present(g, i, j, v));
                    assert(false);
                }
            }
            assert(fits(g, i2, j, v)) by {
                if !fits(g, i2, j, v) {
                    let (a, b) = choose|a: int, b: int|
                        0 <= a < 9 && 0 <= b < 9 && !(a == i2 && b == j) && same_group(i2, j, a, b)
                            && !(#[trigger] cell(g, a, b) == 0 || cell(g, a, b) != v);
                    assert(cell(h, a, b) == v);
                    assert(valid_at(h, i2, j));
                    assert(false);
                }
            }
            assert(alt_in_col(g, i, j, v));
            assert(false);
        }
        assert(m == v);
    }
}

} // verus!
