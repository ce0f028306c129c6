//! Cursors over the table: row slices, column cursors, and the single
//! directional cursor they are built from.
//!
//! A cursor holds positions only; each step takes the table it walks, so
//! the table is borrowed per call rather than for the cursor's lifetime.

use vstd::prelude::*;

use crate::cell::Cell;
use crate::cell::CellValue;
use crate::table::Spreadsheet;
use crate::table::find_header;
use crate::table::header_pos;

verus! {

/// The direction of an [`Iter`]: down one column, or along one row.
#[derive(Copy, Clone, Debug, PartialEq, Eq, Structural)]
pub enum Direction {
    Column,
    Row,
}

/// Immutable cursor over the cells in a single row or column of a
/// [`Spreadsheet`], one cell at a time.
#[derive(Copy, Clone, Debug)]
pub struct Iter {
    /// In column mode, the linear position of the next cell; in row
    /// mode, the offset within the row
    pub pos: usize,
    /// The table's column count
    pub cols: usize,
    /// In row mode, the row walked; in column mode, the table's row count
    pub rows: usize,
    /// Which way the cursor walks
    pub dir: Direction,
}

/// The cells at positions `pos`, `pos + step`, ... of `data`, up to its
/// end.
pub open spec fn col_seq(data: Seq<CellValue>, pos: int, step: int) -> Seq<CellValue>
    decreases (if pos < data.len() {
        data.len() - pos
    } else {
        0int
    }),
{
    if step >= 1 && 0 <= pos < data.len() {
        seq![data[pos]] + col_seq(data, pos + step, step)
    } else {
        Seq::empty()
    }
}

/// The cells of row `row` from offset `pos` on: at most `cols - pos` of
/// them, stopping at the end of `data`.
pub open spec fn row_seq(data: Seq<CellValue>, row: int, cols: int, pos: int) -> Seq<CellValue> {
    let start = row * cols + pos;
    if 0 <= pos < cols && 0 <= start < data.len() {
        data.subrange(
            start,
            if row * cols + cols <= data.len() {
                row * cols + cols
            } else {
                data.len() as int
            },
        )
    } else {
        Seq::empty()
    }
}

impl Iter {
    /// The cells this cursor has yet to yield from the buffer `data`.
    pub open spec fn remaining(self, data: Seq<CellValue>) -> Seq<CellValue> {
        match self.dir {
            Direction::Column => col_seq(data, self.pos as int, self.cols as int),
            Direction::Row => row_seq(data, self.rows as int, self.cols as int, self.pos as int),
        }
    }

    /// Step the cursor over `s`: the next cell of the walked row or
    /// column, or nothing at its end.
    pub fn next(&mut self, s: &Spreadsheet) -> (r: Option<Cell>)
        requires
            s.wf(),
            old(self).cols == s.cols,
        ensures
            final(self).cols == s.cols,
            final(self).dir == old(self).dir,
            final(self).rows == old(self).rows,
            ({
                let data = s.data.deep_view();
                match r {
                    Some(c) => old(self).remaining(data).len() > 0 && c@ == old(self).remaining(
                        data,
                    )[0] && final(self).remaining(data) == old(self).remaining(data).skip(1),
                    None => old(self).remaining(data).len() == 0 && final(self).remaining(
                        data,
                    ).len() == 0,
                }
            }),
    {
        let ghost data = s.data.deep_view();
        let n = s.data.len();
        proof {
            assert(data.len() == n);
        }
        match self.dir {
            Direction::Column => {
                if self.pos < n {
                    proof {
                        // A non-empty buffer has at least one column.
                        assert(s.cols >= 1) by (nonlinear_arith)
                            requires
                                s.rows * s.cols > 0,
                        ;
                        assert(data[self.pos as int] == s.data@[self.pos as int]@);
                    }
                    let c = (&s.data[self.pos]).clone();
                    let ghost before = *self;
                    self.pos = match self.pos.checked_add(self.cols) {
                        Some(p) => p,
                        None => usize::MAX,
                    };
                    proof {
                        let rest = col_seq(data, before.pos + before.cols, before.cols as int);
                        assert(before.remaining(data) == seq![data[before.pos as int]] + rest);
                        assert(before.remaining(data).skip(1) =~= rest);
                        if self.pos as int != before.pos + before.cols {
                            // The step overran the position type; both
                            // tails are past the buffer and empty.
                            assert(before.pos + before.cols > usize::MAX >= data.len());
                            assert(rest =~= Seq::<CellValue>::empty());
                            assert(self.remaining(data) =~= Seq::<CellValue>::empty());
                        }
                    }
                    Some(c)
                } else {
                    None
                }
            },
            Direction::Row => {
                if self.pos >= self.cols {
                    return None;
                }
                let base = match self.rows.checked_mul(self.cols) {
                    Some(b) => b,
                    None => {
                        return None;
                    },
                };
                let idx = match base.checked_add(self.pos) {
                    Some(x) => x,
                    None => {
                        return None;
                    },
                };
                if idx < n {
                    proof {
                        assert(data[idx as int] == s.data@[idx as int]@);
                        assert(self.remaining(data)[0] == data[idx as int]);
                    }
                    let c = (&s.data[idx]).clone();
                    let ghost before = *self;
                    self.pos = self.pos + 1;
                    proof {
                        assert(self.remaining(data) =~= before.remaining(data).skip(1));
                    }
                    Some(c)
                } else {
                    None
                }
            },
        }
    }
}

/// An immutable cursor over the rows of a [`Spreadsheet`], one row per
/// step, each a fresh vector of that row's cells.
pub struct Row {
    /// The table's column count
    pub cols: usize,
    /// The row the next step yields
    pub pos: usize,
}

impl Row {
    /// Step the cursor over `s`: the cells of the next row, or nothing
    /// once the next row would run past the end of the buffer.
    pub fn next(&mut self, s: &Spreadsheet) -> (r: Option<Vec<Cell>>)
        requires
            s.wf(),
            old(self).cols == s.cols,
        ensures
            final(self).cols == s.cols,
            ({
                let data = s.data.deep_view();
                let p = old(self).pos as int;
                let c = s.cols as int;
                match r {
                    Some(row) => (p + 1) * c <= data.len() && row.deep_view() == data.subrange(
                        p * c,
                        p * c + c,
                    ) && final(self).pos == (if c >= 1 {
                        p + 1
                    } else {
                        p
                    }),
                    None => (p + 1) * c > data.len() && final(self).pos == p,
                }
            }),
    {
        let ghost data = s.data.deep_view();
        let n = s.data.len();
        proof {
            assert(data.len() == n);
        }
        if self.cols == 0 {
            // A table without columns has empty rows, without end.
            let out: Vec<Cell> = Vec::new();
            proof {
                assert(out.deep_view() =~= data.subrange(0, 0));
            }
            return Some(out);
        }
        let p1 = match self.pos.checked_add(1) {
            Some(p1) => p1,
            None => {
                proof {
                    assert((self.pos + 1) * self.cols >= self.pos + 1) by (nonlinear_arith)
                        requires
                            self.cols >= 1,
                            self.pos >= 0,
                    ;
                }
                return None;
            },
        };
        let end = match p1.checked_mul(self.cols) {
            Some(e) => e,
            None => {
                return None;
            },
        };
        if end > n {
            return None;
        }
        proof {
            assert((self.pos + 1) * self.cols == self.pos * self.cols + self.cols)
                by (nonlinear_arith);
            assert(self.pos * self.cols >= 0) by (nonlinear_arith)
                requires
                    self.pos >= 0,
                    self.cols >= 0,
            ;
            assert(end >= self.cols);
        }
        let start = end - self.cols;
        proof {
            assert(start == self.pos * self.cols);
        }
        let mut out: Vec<Cell> = Vec::new();
        let mut k: usize = 0;
        proof {
            assert(out.deep_view() =~= data.subrange(start as int, start as int));
        }
        while k < self.cols
            invariant
                0 <= k <= self.cols,
                start + self.cols == end <= n,
                n == data.len(),
                data == s.data.deep_view(),
                out.deep_view() == data.subrange(start as int, start + k),
            decreases self.cols - k,
        {
            proof {
                assert(data[start + k] == s.data@[start + k]@);
            }
            let c = (&s.data[start + k]).clone();
            let ghost prev = out.deep_view();
            out.push(c);
            proof {
                assert(out.deep_view() =~= prev.push(c@));
                assert(prev.push(c@) =~= data.subrange(start as int, start + k + 1));
            }
            k += 1;
        }
        if self.cols > 0 {
            proof {
                assert(self.pos + 1 <= (self.pos + 1) * self.cols) by (nonlinear_arith)
                    requires
                        self.cols >= 1,
                        self.pos >= 0,
                ;
            }
            self.pos = self.pos + 1;
        }
        Some(out)
    }
}

/// An immutable cursor over the columns of a [`Spreadsheet`]: one step
/// per column, each column as an [`Iter`] over its cells.
pub struct Column {
    /// The table's column count
    pub cols: usize,
    /// The column the next step yields
    pub pos: usize,
}

impl Column {
    /// Step the cursor over `s`: a column-mode cursor for the next
    /// column, or nothing after all `cols` columns.
    pub fn next(&mut self, s: &Spreadsheet) -> (r: Option<Iter>)
        requires
            old(self).cols == s.cols,
        ensures
            final(self).cols == s.cols,
            match r {
                Some(it) => old(self).pos < s.cols && it == (Iter {
                    pos: old(self).pos,
                    cols: s.cols,
                    rows: s.rows,
                    dir: Direction::Column,
                }) && final(self).pos == old(self).pos + 1,
                None => old(self).pos >= s.cols && final(self).pos == old(self).pos,
            },
    {
        if self.pos < self.cols {
            let it = s.iter(self.pos, Direction::Column);
            self.pos = self.pos + 1;
            Some(it)
        } else {
            None
        }
    }
}

impl Spreadsheet {
    /// A fresh cursor over one column (walking every row from the linear
    /// position `pos` on) or one row (`pos` naming the row).
    pub fn iter(&self, pos: usize, dir: Direction) -> (it: Iter)
        ensures
            it == match dir {
                Direction::Column => (Iter { dir, pos, rows: self.rows, cols: self.cols }),
                Direction::Row => (Iter { dir, pos: 0, rows: pos, cols: self.cols }),
            },
    {
        match dir {
            Direction::Column => Iter { dir, pos, rows: self.rows, cols: self.cols },
            Direction::Row => Iter { dir, pos: 0, rows: pos, cols: self.cols },
        }
    }

    /// A fresh row cursor starting at row 0.
    pub fn iter_rows(&self) -> (it: Row)
        ensures
            it.cols == self.cols,
            it.pos == 0,
    {
        Row { cols: self.cols, pos: 0 }
    }

    /// A fresh column cursor starting at column 0.
    pub fn iter_cols(&self) -> (it: Column)
        ensures
            it.cols == self.cols,
            it.pos == 0,
    {
        Column { cols: self.cols, pos: 0 }
    }

    /// The column-mode cursor for the first header matching `col`, or
    /// nothing when no header does.
    pub fn column(&self, col: &str) -> (r: Option<Iter>)
        ensures
            ({
                let p = header_pos(self.headers.deep_view(), col@);
                match r {
                    Some(it) => p >= 0 && it.pos == p && it.cols == self.cols && it.rows == self.rows
                        && it.dir == Direction::Column,
                    None => p == -1,
                }
            }),
    {
        match find_header(&self.headers, col) {
            Some(idx) => Some(self.iter(idx, Direction::Column)),
            None => None,
        }
    }
}

/// Law: on a well-formed table with at least one column, the row cursor
/// yields a row exactly at the positions below `rows`, so the row
/// sequence is as long as the table's row count.
pub proof fn lemma_row_sequence_length(s: Spreadsheet, p: int)
    requires
        s.wf(),
        s.cols >= 1,
        0 <= p,
    ensures
        ((p + 1) * s.cols <= s.data.deep_view().len()) <==> p < s.rows,
{
    assert(s.data.deep_view().len() == s.data@.len());
    if p < s.rows {
        assert((p + 1) * s.cols <= s.rows * s.cols) by (nonlinear_arith)
            requires
                p + 1 <= s.rows,
                s.cols >= 1,
                0 <= p,
        ;
    } else {
        assert((p + 1) * s.cols > s.rows * s.cols) by (nonlinear_arith)
            requires
                p + 1 > s.rows,
                s.cols >= 1,
        ;
    }
}

/// Law: in column mode over a well-formed buffer of `rows * cols` cells,
/// a cursor on column `c` yields one cell per row, row by row: the cell
/// of row `r0` first when it starts there, `rows - r0` cells in all.
pub proof fn lemma_column_cursor_length(
    data: Seq<CellValue>,
    rows: int,
    cols: int,
    c: int,
    r0: int,
)
    requires
        data.len() == rows * cols,
        0 <= c < cols,
        0 <= r0 <= rows,
    ensures
        col_seq(data, r0 * cols + c, cols).len() == rows - r0,
    decreases rows - r0,
{
    let start = r0 * cols + c;
    if r0 == rows {
        assert(start >= data.len()) by (nonlinear_arith)
            requires
                start == r0 * cols + c,
                data.len() == rows * cols,
                r0 == rows,
                c >= 0,
        ;
    } else {
        assert(0 <= start < data.len()) by (nonlinear_arith)
            requires
                start == r0 * cols + c,
                data.len() == rows * cols,
                0 <= r0 < rows,
                0 <= c < cols,
        ;
        assert(start + cols == (r0 + 1) * cols + c) by (nonlinear_arith)
            requires
                start == r0 * cols + c,
        ;
        lemma_column_cursor_length(data, rows, cols, c, r0 + 1);
    }
}

} // verus!
