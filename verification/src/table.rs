//! The table: a flat row-major buffer of cells built from delimited
//! lines, with numeric and symbolic indexing.

use vstd::prelude::*;

use crate::cell::Cell;
use crate::cell::CellValue;
use crate::cell::spec_infer;

verus! {

/// Splitting a character sequence on a delimiter. An empty sequence
/// splits into one empty field; a delimiter splits off the field before
/// it, so a trailing delimiter yields a trailing empty field.
pub open spec fn spec_split(s: Seq<char>, d: char) -> Seq<Seq<char>>
    decreases s.len(),
{
    if s.len() == 0 {
        seq![Seq::<char>::empty()]
    } else if s[0] == d {
        seq![Seq::<char>::empty()] + spec_split(s.skip(1), d)
    } else {
        let r = spec_split(s.skip(1), d);
        r.update(0, seq![s[0]] + r[0])
    }
}

/// A split always yields at least one field.
pub proof fn lemma_split_nonempty(s: Seq<char>, d: char)
    ensures
        spec_split(s, d).len() >= 1,
    decreases s.len(),
{
    if s.len() > 0 {
        lemma_split_nonempty(s.skip(1), d);
    }
}

/// The first field of a split runs to the first delimiter: before it the
/// characters are kept, after it the rest is split on its own. Without
/// any delimiter the whole sequence is the single field.
proof fn lemma_split_first(s: Seq<char>, d: char, k: int)
    requires
        0 <= k <= s.len(),
        forall|j: int| 0 <= j < k ==> s[j] != d,
        k < s.len() ==> s[k] == d,
    ensures
        k < s.len() ==> spec_split(s, d) == seq![s.take(k)] + spec_split(s.skip(k + 1), d),
        k == s.len() ==> spec_split(s, d) == seq![s],
    decreases k,
{
    lemma_split_nonempty(s, d);
    if k == 0 {
        if s.len() == 0 {
            assert(s =~= Seq::<char>::empty());
            assert(spec_split(s, d) =~~= seq![s]);
        } else if k < s.len() {
            assert(s.take(0) =~= Seq::<char>::empty());
        }
    } else {
        let t = s.skip(1);
        lemma_split_nonempty(t, d);
        assert(forall|j: int| 0 <= j < k - 1 ==> t[j] != d);
        lemma_split_first(t, d, k - 1);
        let r = spec_split(t, d);
        if k < s.len() {
            assert(r == seq![t.take(k - 1)] + spec_split(t.skip(k), d));
            assert(r[0] == t.take(k - 1));
            assert(seq![s[0]] + t.take(k - 1) =~= s.take(k));
            assert(t.skip(k) =~= s.skip(k + 1));
            assert(spec_split(s, d) =~= seq![s.take(k)] + spec_split(s.skip(k + 1), d));
        } else {
            assert(r == seq![t]);
            assert(seq![s[0]] + t =~= s);
            assert(spec_split(s, d) =~= seq![s]);
        }
    }
}

/// Split a line on the delimiter, each field as its own string.
pub fn split_line(line: &str, delimiter: char) -> (fields: Vec<String>)
    ensures
        fields.deep_view() == spec_split(line@, delimiter),
{
    let n: usize = line.unicode_len();
    let mut fields: Vec<String> = Vec::new();
    proof {
        assert(line@.skip(0) =~= line@);
        assert(fields.deep_view() =~= Seq::<Seq<char>>::empty());
        assert(Seq::<Seq<char>>::empty() + spec_split(line@, delimiter) =~= spec_split(
            line@,
            delimiter,
        ));
    }
    let mut start: usize = 0;
    let mut i: usize = 0;
    while i < n
        invariant
            0 <= start <= i <= n,
            n == line@.len(),
            forall|j: int| start <= j < i ==> line@[j] != delimiter,
            spec_split(line@, delimiter) == fields.deep_view() + spec_split(
                line@.skip(start as int),
                delimiter,
            ),
        decreases n - i,
    {
        let c = line.get_char(i);
        if c == delimiter {
            let f = line.substring_char(start, i).to_owned();
            proof {
                let rest = line@.skip(start as int);
                assert(forall|j: int|
                    0 <= j < i - start ==> rest[j] == line@[start + j] && rest[j] != delimiter);
                assert(rest[i - start] == line@[i as int]);
                lemma_split_first(rest, delimiter, i - start);
                assert(rest.take(i - start) =~= line@.subrange(start as int, i as int));
                assert(rest.skip(i - start + 1) =~= line@.skip(i + 1));
                assert(fields.deep_view().push(f@) + spec_split(line@.skip(i + 1), delimiter)
                    =~= fields.deep_view() + spec_split(rest, delimiter));
            }
            let ghost old_fields = fields.deep_view();
            fields.push(f);
            proof {
                assert(fields.deep_view() =~= old_fields.push(f@));
            }
            start = i + 1;
        }
        i += 1;
    }
    let f = line.substring_char(start, n).to_owned();
    proof {
        let rest = line@.skip(start as int);
        assert(forall|j: int|
            0 <= j < n - start ==> rest[j] == line@[start + j] && rest[j] != delimiter);
        lemma_split_first(rest, delimiter, n - start);
        assert(rest =~= line@.subrange(start as int, n as int));
    }
    let ghost old_fields = fields.deep_view();
    fields.push(f);
    proof {
        assert(fields.deep_view() =~= old_fields.push(f@));
        assert(fields.deep_view() =~= old_fields + seq![f@]);
    }
    fields
}

/// The position of the first header equal to `name`, or -1 when none is.
pub open spec fn header_pos(hs: Seq<Seq<char>>, name: Seq<char>) -> int
    decreases hs.len(),
{
    if hs.len() == 0 {
        -1
    } else if hs[0] == name {
        0
    } else {
        let r = header_pos(hs.skip(1), name);
        if r < 0 {
            -1
        } else {
            r + 1
        }
    }
}

/// What `header_pos` finds: the first match when one exists, and -1
/// exactly when no header matches.
pub proof fn lemma_header_pos(hs: Seq<Seq<char>>, name: Seq<char>)
    ensures
        header_pos(hs, name) == -1 ==> forall|j: int| 0 <= j < hs.len() ==> hs[j] != name,
        header_pos(hs, name) >= 0 ==> 0 <= header_pos(hs, name) < hs.len() && hs[header_pos(
            hs,
            name,
        )] == name && forall|j: int| 0 <= j < header_pos(hs, name) ==> hs[j] != name,
    decreases hs.len(),
{
    if hs.len() > 0 && hs[0] != name {
        lemma_header_pos(hs.skip(1), name);
        let r = header_pos(hs.skip(1), name);
        if r >= 0 {
            assert(hs.skip(1)[r] == hs[r + 1]);
            assert forall|j: int| 0 <= j < r + 1 implies hs[j] != name by {
                if j >= 1 {
                    assert(hs.skip(1)[j - 1] == hs[j]);
                }
            }
        } else {
            assert forall|j: int| 0 <= j < hs.len() implies hs[j] != name by {
                if j >= 1 {
                    assert(hs.skip(1)[j - 1] == hs[j]);
                }
            }
        }
    }
}

/// Compare two strings by their characters.
fn str_eq(a: &str, b: &str) -> (r: bool)
    ensures
        r == (a@ == b@),
{
    let sa = a.to_owned();
    let sb = b.to_owned();
    sa == sb
}

/// Find the first header equal to `name`.
pub(crate) fn find_header(headers: &Vec<String>, name: &str) -> (r: Option<usize>)
    ensures
        match r {
            Some(p) => p == header_pos(headers.deep_view(), name@) && p < headers@.len(),
            None => header_pos(headers.deep_view(), name@) == -1,
        },
{
    let ghost hs = headers.deep_view();
    let mut i: usize = 0;
    while i < headers.len()
        invariant
            0 <= i <= headers@.len(),
            hs == headers.deep_view(),
            hs.len() == headers@.len(),
            forall|j: int| 0 <= j < i ==> hs[j] != name@,
        decreases headers@.len() - i,
    {
        if str_eq(headers[i].as_str(), name) {
            proof {
                assert(hs[i as int] == headers@[i as int]@);
                lemma_header_pos_first(hs, name@, i as int);
            }
            return Some(i);
        }
        proof {
            assert(hs[i as int] == headers@[i as int]@);
        }
        i += 1;
    }
    proof {
        lemma_header_pos_first(hs, name@, hs.len() as int);
    }
    None
}

/// When the headers before `k` all differ from `name`, the first match
/// is at `k` when `k` matches, and nowhere when `k` is the end.
proof fn lemma_header_pos_first(hs: Seq<Seq<char>>, name: Seq<char>, k: int)
    requires
        0 <= k <= hs.len(),
        forall|j: int| 0 <= j < k ==> hs[j] != name,
        k < hs.len() ==> hs[k] == name,
    ensures
        k < hs.len() ==> header_pos(hs, name) == k,
        k == hs.len() ==> header_pos(hs, name) == -1,
    decreases k,
{
    if k > 0 {
        let t = hs.skip(1);
        assert(forall|j: int| 0 <= j < k - 1 ==> t[j] == hs[j + 1] && t[j] != name);
        if k < hs.len() {
            assert(t[k - 1] == hs[k]);
        }
        lemma_header_pos_first(t, name, k - 1);
    }
}

/// The error of table construction: a data row whose field count differs
/// from the header count.
#[derive(Clone, Copy, Debug, PartialEq, Eq, Structural)]
pub enum SpreadsheetError {
    /// A data row's field count differs from the header count.
    StructuralMismatch,
}

/// Spreadsheet struct: a header list and a flat row-major buffer of
/// cells, `rows * cols` of them, the cell at `(row, col)` at linear
/// offset `row * cols + col`.
#[derive(Debug)]
pub struct Spreadsheet {
    /// Column names, from the first input line, kept verbatim
    pub headers: Vec<String>,
    /// Number of data rows, not counting the header line
    pub rows: usize,
    /// Number of columns
    pub cols: usize,
    /// Flat row-major buffer of the table's cells
    pub data: Vec<Cell>,
    /// The delimiter the table was read with
    pub delimiter: char,
}

/// The headers a line sequence yields: the first line split on the
/// delimiter, or none at all for empty input.
pub open spec fn spec_headers(ls: Seq<Seq<char>>, d: char) -> Seq<Seq<char>> {
    if ls.len() == 0 {
        Seq::empty()
    } else {
        spec_split(ls[0], d)
    }
}

/// The cells of one data line: each field after type inference.
pub open spec fn row_cells(line: Seq<char>, d: char) -> Seq<CellValue> {
    spec_split(line, d).map_values(|f: Seq<char>| spec_infer(f))
}

/// Whether every data line splits into exactly as many fields as the
/// header line did.
pub open spec fn lines_ok(ls: Seq<Seq<char>>, d: char) -> bool {
    forall|i: int|
        1 <= i < ls.len() ==> #[trigger] spec_split(ls[i], d).len() == spec_headers(ls, d).len()
}

/// The cells of a sequence of data lines, row by row.
pub open spec fn rows_data(dl: Seq<Seq<char>>, d: char) -> Seq<CellValue>
    decreases dl.len(),
{
    if dl.len() == 0 {
        Seq::empty()
    } else {
        rows_data(dl.drop_last(), d) + row_cells(dl.last(), d)
    }
}

/// The whole data buffer a line sequence yields.
pub open spec fn spec_table_data(ls: Seq<Seq<char>>, d: char) -> Seq<CellValue> {
    if ls.len() == 0 {
        Seq::empty()
    } else {
        rows_data(ls.skip(1), d)
    }
}

impl Spreadsheet {
    /// The table's structural invariant: the buffer holds exactly
    /// `rows * cols` cells and there is one header per column.
    pub open spec fn wf(self) -> bool {
        self.data@.len() == self.rows * self.cols && self.headers@.len() == self.cols
    }

    /// Build a table from raw lines, the first of them the header line.
    ///
    /// Succeeds exactly when every data line splits into as many fields
    /// as the header line; the cells are the fields after type
    /// inference, row-major.
    pub fn from_lines(lines: &Vec<String>, delimiter: char) -> (r: Result<
        Spreadsheet,
        SpreadsheetError,
    >)
        ensures
            ({
                let ls = lines.deep_view();
                match r {
                    Ok(s) => lines_ok(ls, delimiter) && s.wf() && s.headers.deep_view()
                        == spec_headers(ls, delimiter) && s.cols == spec_headers(ls, delimiter).len()
                        && s.rows == (if ls.len() == 0 {
                        0int
                    } else {
                        ls.len() - 1
                    }) && s.data.deep_view() == spec_table_data(ls, delimiter) && s.delimiter
                        == delimiter,
                    Err(e) => !lines_ok(ls, delimiter) && e == SpreadsheetError::StructuralMismatch,
                }
            }),
    {
        let ghost ls = lines.deep_view();
        if lines.len() == 0 {
            let s = Spreadsheet {
                headers: Vec::new(),
                rows: 0,
                cols: 0,
                data: Vec::new(),
                delimiter,
            };
            proof {
                assert(s.headers.deep_view() =~= spec_headers(ls, delimiter));
                assert(s.data.deep_view() =~= spec_table_data(ls, delimiter));
                assert(s.rows == 0);
                assert(s.cols == 0);
                assert(s.rows * s.cols == 0);
                assert(s.wf()) by {
                    assert(s.data@.len() == s.rows * s.cols);
                    assert(s.headers@.len() == s.cols);
                }
            }
            return Ok(s);
        }
        let headers = split_line(lines[0].as_str(), delimiter);
        let cols = headers.len();
        proof {
            assert(ls[0] == lines@[0]@);
            assert(headers.deep_view() == spec_headers(ls, delimiter));
            assert(headers.deep_view().len() == headers@.len());
        }
        let mut data: Vec<Cell> = Vec::new();
        let mut rows: usize = 0;
        let mut li: usize = 1;
        while li < lines.len()
            invariant
                1 <= li <= lines@.len(),
                ls == lines.deep_view(),
                ls.len() == lines@.len(),
                rows == li - 1,
                cols == spec_headers(ls, delimiter).len(),
                data.deep_view() == rows_data(ls.subrange(1, li as int), delimiter),
                data@.len() == rows * cols,
                forall|j: int|
                    1 <= j < li ==> #[trigger] spec_split(ls[j], delimiter).len() == cols,
            decreases lines@.len() - li,
        {
            let fields = split_line(lines[li].as_str(), delimiter);
            proof {
                assert(ls[li as int] == lines@[li as int]@);
                assert(fields.deep_view() == spec_split(ls[li as int], delimiter));
                assert(fields.deep_view().len() == fields@.len());
            }
            if fields.len() != cols {
                // This line's field count breaks the table's shape.
                return Err(SpreadsheetError::StructuralMismatch);
            }
            let ghost row = row_cells(ls[li as int], delimiter);
            let ghost before = data.deep_view();
            let mut fj: usize = 0;
            while fj < fields.len()
                invariant
                    0 <= fj <= fields@.len(),
                    fields.deep_view() == spec_split(ls[li as int], delimiter),
                    fields.deep_view().len() == fields@.len(),
                    row == row_cells(ls[li as int], delimiter),
                    before == rows_data(ls.subrange(1, li as int), delimiter),
                    li < ls.len(),
                    data.deep_view() == before + row.take(fj as int),
                decreases fields@.len() - fj,
            {
                let c = crate::cell::Cell::infer(fields[fj].as_str());
                proof {
                    assert(fields.deep_view()[fj as int] == fields@[fj as int]@);
                    assert(row[fj as int] == spec_infer(fields.deep_view()[fj as int]));
                }
                let ghost old_deep = data.deep_view();
                data.push(c);
                proof {
                    assert(data.deep_view() =~= old_deep.push(c@));
                    assert(old_deep.push(c@) =~= before + row.take(fj + 1));
                }
                fj += 1;
            }
            proof {
                assert(row.take(fields@.len() as int) =~= row);
                let upto = ls.subrange(1, li + 1);
                assert(upto.drop_last() =~= ls.subrange(1, li as int));
                assert(upto.last() == ls[li as int]);
                assert(data.deep_view() == rows_data(upto, delimiter));
                assert(data.deep_view().len() == data@.len());
                assert(row.len() == cols);
                assert((rows + 1) * cols == rows * cols + cols) by (nonlinear_arith);
            }
            rows += 1;
            li += 1;
        }
        let s = Spreadsheet { headers, rows, cols, data, delimiter };
        proof {
            assert(ls.subrange(1, ls.len() as int) =~= ls.skip(1));
            assert(s.data.deep_view() == spec_table_data(ls, delimiter));
            assert(s.headers.deep_view().len() == s.headers@.len());
        }
        Ok(s)
    }

    /// Cell at a numeric (row, column) position.
    pub fn index(&self, ix: NumericIndex) -> (c: &Cell)
        requires
            self.wf(),
            ix.row < self.rows,
            ix.col < self.cols,
        ensures
            c@ == self.data.deep_view()[ix.row * self.cols + ix.col],
    {
        let n = self.data.len();
        proof {
            lemma_offset_in_bounds(ix.row as int, ix.col as int, self.rows as int, self.cols as int);
            assert(ix.row * self.cols + ix.col < n);
            assert(self.data.deep_view()[ix.row * self.cols + ix.col] == self.data@[ix.row
                * self.cols + ix.col]@);
        }
        &self.data[ix.row * self.cols + ix.col]
    }

    /// Cell at a numeric position, checked: a cell exactly when the
    /// position is within the table.
    pub fn get(&self, row: usize, col: usize) -> (r: Option<&Cell>)
        requires
            self.wf(),
        ensures
            match r {
                Some(c) => row < self.rows && col < self.cols && c@ == self.data.deep_view()[row
                    * self.cols + col],
                None => row >= self.rows || col >= self.cols,
            },
    {
        if row < self.rows && col < self.cols {
            Some(self.index(NumericIndex { row, col }))
        } else {
            None
        }
    }

    /// Cell at a symbolic (row, column-name) position; the name resolves
    /// to the first matching header.
    pub fn index_by_name(&self, ix: SymbolicIndex<'_>) -> (c: &Cell)
        requires
            self.wf(),
            ix.row < self.rows,
            header_pos(self.headers.deep_view(), ix.col@) >= 0,
        ensures
            c@ == self.data.deep_view()[ix.row * self.cols + header_pos(
                self.headers.deep_view(),
                ix.col@,
            )],
    {
        match find_header(&self.headers, ix.col) {
            Some(p) => {
                proof {
                    lemma_header_pos(self.headers.deep_view(), ix.col@);
                }
                self.index(NumericIndex { row: ix.row, col: p })
            },
            None => unreached(),
        }
    }

    /// Cell at a symbolic position, checked: a cell exactly when some
    /// header matches and the row is within the table.
    pub fn get_by_name(&self, row: usize, name: &str) -> (r: Option<&Cell>)
        requires
            self.wf(),
        ensures
            ({
                let p = header_pos(self.headers.deep_view(), name@);
                match r {
                    Some(c) => p >= 0 && row < self.rows && c@ == self.data.deep_view()[row
                        * self.cols + p],
                    None => p == -1 || row >= self.rows,
                }
            }),
    {
        match find_header(&self.headers, name) {
            Some(p) => {
                proof {
                    lemma_header_pos(self.headers.deep_view(), name@);
                }
                self.get(row, p)
            },
            None => None,
        }
    }
}

/// A position inside the row-major buffer stays below its length.
proof fn lemma_offset_in_bounds(row: int, col: int, rows: int, cols: int)
    requires
        0 <= row < rows,
        0 <= col < cols,
    ensures
        0 <= row * cols + col < rows * cols,
{
    assert(row * cols + col < rows * cols) by (nonlinear_arith)
        requires
            0 <= row < rows,
            0 <= col < cols,
    ;
    assert(row * cols >= 0) by (nonlinear_arith)
        requires
            row >= 0,
            cols > 0,
    ;
}

/// Index into a [`Spreadsheet`] by row and column number
pub struct NumericIndex {
    /// Zero-based row position
    pub row: usize,
    /// Zero-based column position
    pub col: usize,
}

impl NumericIndex {
    /// Create a new [`NumericIndex`]
    pub fn new(row: usize, col: usize) -> (ix: NumericIndex)
        ensures
            ix.row == row,
            ix.col == col,
    {
        NumericIndex { row, col }
    }
}

/// Index into a [`Spreadsheet`] by row and column name, which must match
/// one of the headers for an unchecked lookup to be allowed.
pub struct SymbolicIndex<'s> {
    /// Zero-based row position
    pub row: usize,
    /// Column name, resolved against the headers by first match
    pub col: &'s str,
}

impl<'s> SymbolicIndex<'s> {
    /// Create a new [`SymbolicIndex`]
    pub fn new(row: usize, col: &'s str) -> (ix: SymbolicIndex<'s>)
        ensures
            ix.row == row,
            ix.col@ == col@,
    {
        SymbolicIndex { row, col }
    }
}

} // verus!
