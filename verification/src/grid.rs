//! The cell store: a 9x9 grid of values in `[0, 9]` (0 meaning empty),
//! addressed by a `Pos` (row and column, each in `[0, 9)`), together with
//! the raster-order cursor operations `next` and `next_free`.

use vstd::pervasive::VecAdditionalExecFns;
use vstd::prelude::*;

verus! {

/// A pair of zero-based coordinates: row `i` and column `j`, each in `[0, 9)`.
#[derive(Clone, Copy, PartialEq, Eq, Structural, Debug)]
pub struct Pos {
    pub i: usize,
    pub j: usize,
}

impl Pos {
    /// Both coordinates are on the grid.
    pub open spec fn wf(self) -> bool {
        self.i < 9 && self.j < 9
    }

    /// The raster-major index of the position: row first, column fastest.
    pub open spec fn idx(self) -> int {
        self.i * 9 + self.j
    }
}

/// The value stored at row `i`, column `j` of a grid viewed as a flat sequence.
pub open spec fn cell(g: Seq<u8>, i: int, j: int) -> u8 {
    g[i * 9 + j]
}

/// The raster index `k` brought back onto the grid after at most one wrap.
pub open spec fn wrap_cell(k: int) -> int {
    if k < 81 {
        k
    } else {
        k - 81
    }
}

/// The cell reached from index `p` after `t` raster steps, wrapping once.
pub open spec fn cyc_from(p: int, t: int) -> int {
    wrap_cell(p + t)
}

/// A grid is 81 cells, each holding 0 (empty) or a digit 1-9.
pub open spec fn grid_wf(g: Seq<u8>) -> bool {
    g.len() == 81 && forall|k: int| 0 <= k < 81 ==> g[k] <= 9
}

/// No cell is empty.
pub open spec fn full(g: Seq<u8>) -> bool {
    forall|k: int| 0 <= k < 81 ==> g[k] != 0
}

/// The 9x9 cell store. Its view is the flat sequence of its 81 cells in
/// raster-major order.
pub struct Board {
    cells: Vec<u8>,
}

impl View for Board {
    type V = Seq<u8>;

    closed spec fn view(&self) -> Seq<u8> {
        self.cells@
    }
}

impl Board {
    /// The stored cells form a well-formed grid.
    pub open spec fn wf(&self) -> bool {
        grid_wf(self@)
    }

    /// Returns an empty board: 81 cells, all 0.
    pub fn new() -> (b: Board)
        ensures
            b.wf(),
            forall|k: int| 0 <= k < 81 ==> b@[k] == 0,
    {
        let mut cells: Vec<u8> = Vec::new();
        let mut k: usize = 0;
        while k < 81
            invariant
                cells@.len() == k,
                k <= 81,
                forall|m: int| 0 <= m < k ==> cells@[m] == 0,
            decreases 81 - k,
        {
            cells.push(0);
            k = k + 1;
        }
        Board { cells }
    }

    /// Returns the value stored at row `i`, column `j`.
    pub fn get(&self, i: usize, j: usize) -> (r: u8)
        requires
            self.wf(),
            i < 9,
            j < 9,
        ensures
            r == cell(self@, i as int, j as int),
    {
        self.cells[i * 9 + j]
    }

    /// Returns the value stored at `pos`.
    pub fn get_pos(&self, pos: &Pos) -> (r: u8)
        requires
            self.wf(),
            pos.wf(),
        ensures
            r == self@[pos.idx()],
    {
        self.get(pos.i, pos.j)
    }

    /// Overwrites the cell at `pos` with `v`; every other cell is unchanged.
    pub fn set_pos(&mut self, v: u8, pos: &Pos)
        requires
            old(self).wf(),
            pos.wf(),
            v <= 9,
        ensures
            final(self).wf(),
            final(self)@ == old(self)@.update(pos.idx(), v),
    {
        self.cells.set(pos.i * 9 + pos.j, v);
    }

    /// Returns the raster-order successor of `pos`: advance the column, wrap
    /// to the next row after column 8, and wrap to the origin after the last
    /// cell.
    pub fn next(pos: Pos) -> (r: Pos)
        requires
            pos.wf(),
        ensures
            r.wf(),
            r.idx() == if pos.idx() == 80 { 0int } else { pos.idx() + 1 },
    {
        let mut next_pos = pos;
        next_pos.j = next_pos.j + 1;
        if next_pos.j >= 9 {
            next_pos.j = 0;
            next_pos.i = next_pos.i + 1;
            if next_pos.i >= 9 {
                next_pos.i = 0;
            }
        }
        next_pos
    }

    /// Scans forward from `pos` (exclusive) in raster order, wrapping once
    /// past the last cell, and returns the first empty cell of the full
    /// cycle — `pos` itself examined last — or `None` when the grid holds no
    /// empty cell at all.
    pub fn next_free(&self, pos: Pos) -> (r: Option<Pos>)
        requires
            self.wf(),
            pos.wf(),
        ensures
            match r {
                Some(p) => {
                    &&& p.wf()
                    &&& self@[p.idx()] == 0
                    &&& (p.idx() > pos.idx() ==> forall|k: int|
                        pos.idx() < k < p.idx() ==> self@[k] != 0)
                    &&& (p.idx() <= pos.idx() ==> (forall|k: int|
                        pos.idx() < k < 81 ==> self@[k] != 0) && (forall|k: int|
                        0 <= k < p.idx() ==> self@[k] != 0))
                },
                None => forall|k: int| 0 <= k < 81 ==> self@[k] != 0,
            },
    {
        let mut current = pos;
        let mut steps: usize = 0;
        while steps < 81
            invariant
                self.wf(),
                pos.wf(),
                current.wf(),
                steps <= 81,
                current.idx() == cyc_from(pos.idx(), steps as int),
                forall|t: int| 1 <= t <= steps ==> self@[#[trigger] cyc_from(pos.idx(), t)] != 0,
            decreases 81 - steps,
        {
            current = Board::next(current);
            steps = steps + 1;
            if self.get_pos(&current) == 0 {
                proof {
                    if current.idx() > pos.idx() {
                        assert forall|k: int| pos.idx() < k < current.idx() implies self@[k]
                            != 0 by {
                            assert(cyc_from(pos.idx(), k - pos.idx()) == k);
                        }
                    } else {
                        assert forall|k: int| pos.idx() < k < 81 implies self@[k] != 0 by {
                            assert(cyc_from(pos.idx(), k - pos.idx()) == k);
                        }
                        assert forall|k: int| 0 <= k < current.idx() implies self@[k] != 0 by {
                            assert(cyc_from(pos.idx(), k + 81 - pos.idx()) == k);
                        }
                    }
                }
                return Some(current);
            }
        }
        proof {
            assert forall|k: int| 0 <= k < 81 implies self@[k] != 0 by {
                if k > pos.idx() {
                    assert(cyc_from(pos.idx(), k - pos.idx()) == k);
                } else {
                    assert(cyc_from(pos.idx(), k + 81 - pos.idx()) == k);
                }
            }
        }
        None
    }
}

} // verus!
