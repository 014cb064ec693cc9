//! Reading a board from a stream of bytes and rendering a board as bytes.
//! A space or a period stands for an empty cell, a decimal digit 1-9 for
//! its value; every other byte — the digit 0 included — is skipped. Reading
//! stops exactly after the 81st accepted byte, so several puzzles can
//! follow one another in one stream.

use crate::grid::{cell, Board, Pos};
use vstd::prelude::*;

verus! {

/// Whether the byte counts as one cell of input: a space, a period, or a
/// decimal digit 1-9.
pub open spec fn is_cell_byte(c: u8) -> bool {
    c == 32 || c == 46 || (49 <= c <= 57)
}

/// The cell value an accepted byte stands for: the digit's value for a
/// digit 1-9, 0 for a space or a period.
pub open spec fn cell_value(c: u8) -> u8 {
    if 49 <= c <= 57 {
        (c - 48) as u8
    } else {
        0
    }
}

/// The cell values of the accepted bytes of `s`, in order.
pub open spec fn cells_of(s: Seq<u8>) -> Seq<u8>
    decreases s.len(),
{
    if s.len() == 0 {
        Seq::empty()
    } else if is_cell_byte(s.last()) {
        cells_of(s.drop_last()).push(cell_value(s.last()))
    } else {
        cells_of(s.drop_last())
    }
}

/// A prefix of the input yields no more cells than the whole of it.
proof fn lemma_cells_of_take(s: Seq<u8>, n: int)
    requires
        0 <= n <= s.len(),
    ensures
        cells_of(s.take(n)).len() <= cells_of(s).len(),
    decreases s.len() - n,
{
    if n == s.len() {
        assert(s.take(n) =~= s);
    } else {
        lemma_cells_of_take(s, n + 1);
        assert(s.take(n + 1).drop_last() =~= s.take(n));
        assert(s.take(n + 1).last() == s[n]);
    }
}

/// The rendered digit of a cell value: the byte of its decimal digit.
pub open spec fn digit_byte(d: u8) -> u8 {
    (48 + d) as u8
}

/// The bytes of row `i` rendered up to column `j`: one digit per cell, with
/// a bar after the third and the sixth column.
pub open spec fn row_bytes_upto(g: Seq<u8>, i: int, j: int) -> Seq<u8>
    decreases j,
{
    if j <= 0 {
        Seq::empty()
    } else {
        row_bytes_upto(g, i, j - 1) + seq![digit_byte(cell(g, i, j - 1))] + if j == 3 || j == 6 {
            seq![124u8]
        } else {
            Seq::empty()
        }
    }
}

/// The horizontal rule printed after the third and the sixth row: eleven
/// dashes and a line break.
pub open spec fn rule_line() -> Seq<u8> {
    seq![45u8, 45u8, 45u8, 45u8, 45u8, 45u8, 45u8, 45u8, 45u8, 45u8, 45u8, 10u8]
}

/// The grid rendered up to row `i`: each row's bytes and a line break, with
/// the rule after the third and the sixth row.
pub open spec fn rendered_upto(g: Seq<u8>, i: int) -> Seq<u8>
    decreases i,
{
    if i <= 0 {
        Seq::empty()
    } else {
        rendered_upto(g, i - 1) + row_bytes_upto(g, i - 1, 9) + seq![10u8] + if i == 3 || i == 6 {
            rule_line()
        } else {
            Seq::empty()
        }
    }
}

/// The whole grid rendered.
pub open spec fn rendered(g: Seq<u8>) -> Seq<u8> {
    rendered_upto(g, 9)
}

impl Board {
    /// Reads a board from the given bytes: a space or a period is an empty
    /// cell, a digit 1-9 is its value, any other byte is skipped. Returns the
    /// board and how many bytes were consumed — exactly through the 81st
    /// accepted byte — or `None` when the input holds fewer than 81 accepted
    /// bytes.
    pub fn read(input: &[u8]) -> (r: Option<(Board, usize)>)
        ensures
            (r is Some) == (cells_of(input@).len() >= 81),
            r is Some ==> ({
                let (b, used) = r->Some_0;
                &&& b.wf()
                &&& 1 <= used <= input@.len()
                &&& is_cell_byte(input@[used - 1])
                &&& cells_of(input@.take(used as int)).len() == 81
                &&& b@ == cells_of(input@.take(used as int))
            }),
    {
        let ghost s = input@;
        let mut board = Board::new();
        let mut pos = Pos { i: 0, j: 0 };
        let mut count: usize = 0;
        let mut n: usize = 0;
        loop
            invariant
                board.wf(),
                s == input@,
                n <= s.len(),
                count <= 80,
                pos.wf(),
                pos.idx() == count,
                count == cells_of(s.take(n as int)).len(),
                forall|k: int| 0 <= k < count ==> board@[k] == cells_of(s.take(n as int))[k],
                forall|k: int| count <= k < 81 ==> board@[k] == 0,
            decreases s.len() - n,
        {
            if n >= input.len() {
                proof {
                    assert(s.take(n as int) =~= s);
                }
                return None;
            }
            let c = input[n];
            n = n + 1;
            proof {
                assert(s.take(n as int).drop_last() =~= s.take(n as int - 1));
                assert(s.take(n as int).last() == s[n as int - 1]);
            }
            if c == 32 || c == 46 || (c >= 49 && c <= 57) {
                let v: u8 = if c >= 49 && c <= 57 {
                    c - 48
                } else {
                    0
                };
                board.set_pos(v, &pos);
                count = count + 1;
                if count == 81 {
                    proof {
                        lemma_cells_of_take(s, n as int);
                        assert(board@ =~= cells_of(s.take(n as int)));
                    }
                    return Some((board, n));
                }
                pos = Board::next(pos);
            }
        }
    }

    /// Renders the board as bytes: nine lines of nine digits with a bar
    /// after every third column, and a rule of eleven dashes after the third
    /// and the sixth line.
    pub fn write(&self) -> (out: Vec<u8>)
        requires
            self.wf(),
        ensures
            out@ == rendered(self@),
    {
        let mut out: Vec<u8> = Vec::new();
        let mut i: usize = 0;
        while i < 9
            invariant
                self.wf(),
                i <= 9,
                out@ == rendered_upto(self@, i as int),
            decreases 9 - i,
        {
            let mut j: usize = 0;
            while j < 9
                invariant
                    self.wf(),
                    i < 9,
                    j <= 9,
                    out@ == rendered_upto(self@, i as int) + row_bytes_upto(
                        self@,
                        i as int,
                        j as int,
                    ),
                decreases 9 - j,
            {
                let d = self.get(i, j);
                out.push(48 + d);
                if j == 2 || j == 5 {
                    out.push(124);
                }
                j = j + 1;
                proof {
                    assert(out@ =~= rendered_upto(self@, i as int) + row_bytes_upto(
                        self@,
                        i as int,
                        j as int,
                    ));
                }
            }
            out.push(10);
            if i == 2 || i == 5 {
                let ghost base = out@;
                let mut k: usize = 0;
                while k < 11
                    invariant
                        k <= 11,
                        out@ == base + rule_line().take(k as int),
                    decreases 11 - k,
                {
                    out.push(45);
                    k = k + 1;
                    proof {
                        assert(out@ =~= base + rule_line().take(k as int));
                    }
                }
                out.push(10);
                proof {
                    assert(out@ =~= base + rule_line());
                }
            }
            i = i + 1;
            proof {
                assert(out@ =~= rendered_upto(self@, i as int));
            }
        }
        out
    }
}

} // verus!
