//! The dense row-major matrix container: construction with its size
//! invariant, reading from the count-prefixed text format, and writing back
//! to it.

use vstd::prelude::*;

use crate::numtext::{
    dec_i, dec_u, int_str_val, is_int_str, is_uint_str, parse_i64, parse_usize, push_i64,
    push_u64, split_ws, tokenize, uint_str_val,
};

verus! {

/// The mathematical content of a matrix: its two dimensions and its flat,
/// row-major element sequence.
#[verifier::ext_equal]
pub ghost struct MatrixModel {
    pub rows: nat,
    pub cols: nat,
    pub elems: Seq<i64>,
}

impl MatrixModel {
    /// The container's invariant: the flat buffer holds exactly one element
    /// per cell.
    pub open spec fn wf(self) -> bool {
        self.elems.len() == self.rows * self.cols
    }

    /// The element at row `i`, column `j`, as an unbounded integer.
    pub open spec fn entry(self, i: int, j: int) -> int {
        self.elems[i * self.cols + j] as int
    }
}

/// Everything that can go wrong while building a matrix from its parts or
/// from text.
#[derive(Debug, Clone, Copy, PartialEq, Eq, Structural)]
pub enum MatrixError {
    /// The text has no line for the row count.
    MissingRowCount,
    /// The row-count line is not a single unsigned numeral.
    InvalidRowCount,
    /// The text has no line for the column count.
    MissingColumnCount,
    /// The column-count line is not a single unsigned numeral.
    InvalidColumnCount,
    /// The text ends before this data row.
    MissingRow(usize),
    /// A token of this data row is not a signed numeral in range.
    InvalidNumber(usize),
    /// This data row holds the wrong number of tokens.
    WrongRowLength { row: usize, found: usize, expected: usize },
    /// The flat buffer handed to the constructor has the wrong length.
    SizeMismatch { len: usize, rows: usize, columns: usize },
}

/// A dense row-major matrix of 64-bit integers. Once constructed it is never
/// mutated, so it can be shared freely among concurrent readers.
#[derive(Debug)]
pub struct Matrix {
    rows: usize,
    columns: usize,
    numbers: Vec<i64>,
}

impl View for Matrix {
    type V = MatrixModel;

    closed spec fn view(&self) -> MatrixModel {
        MatrixModel { rows: self.rows as nat, cols: self.columns as nat, elems: self.numbers@ }
    }
}

/// A constructed matrix seen as its model: errors pass through unchanged.
pub open spec fn matrix_result_model(r: Result<Matrix, MatrixError>) -> Result<
    MatrixModel,
    MatrixError,
> {
    match r {
        Ok(m) => Ok(m@),
        Err(e) => Err(e),
    }
}

impl Matrix {
    /// Holds of every constructed matrix: the buffer length matches the
    /// dimensions.
    #[verifier::type_invariant]
    pub open spec fn size_invariant(self) -> bool {
        self@.wf()
    }

    pub fn get_rows(&self) -> (r: usize)
        ensures
            r == self@.rows,
    {
        self.rows
    }

    pub fn get_columns(&self) -> (r: usize)
        ensures
            r == self@.cols,
    {
        self.columns
    }

    pub fn get_numbers(&self) -> (r: &Vec<i64>)
        ensures
            r@ == self@.elems,
    {
        &self.numbers
    }

    /// Builds a matrix from its dimensions and flat buffer, refusing a buffer
    /// whose length is not exactly `rows * columns`.
    pub fn new(rows: usize, columns: usize, numbers: Vec<i64>) -> (r: Result<Matrix, MatrixError>)
        ensures
            r matches Ok(m) <==> numbers@.len() == rows * columns,
            r matches Ok(m) ==> m@ == (MatrixModel {
                rows: rows as nat,
                cols: columns as nat,
                elems: numbers@,
            }),
            r matches Err(e) ==> e == (MatrixError::SizeMismatch {
                len: numbers@.len() as usize,
                rows,
                columns,
            }),
    {
        match rows.checked_mul(columns) {
            Some(product) if product == numbers.len() => Ok(
                Matrix { rows, columns, numbers },
            ),
            _ => Err(MatrixError::SizeMismatch { len: numbers.len(), rows, columns }),
        }
    }
}

/// A line holding exactly one unsigned numeral whose value fits the machine:
/// the form the row-count and column-count lines must take.
pub open spec fn line_count_ok(line: Seq<char>) -> bool {
    &&& split_ws(line).len() == 1
    &&& is_uint_str(split_ws(line)[0])
    &&& uint_str_val(split_ws(line)[0]) <= usize::MAX
}

pub open spec fn line_count_val(line: Seq<char>) -> nat {
    uint_str_val(split_ws(line)[0])
}

/// A token that denotes a matrix element: a signed numeral in `i64` range.
pub open spec fn elem_token_ok(t: Seq<char>) -> bool {
    is_int_str(t) && i64::MIN <= int_str_val(t) <= i64::MAX
}

/// Every token of the line denotes an element.
pub open spec fn row_ok(line: Seq<char>) -> bool {
    forall|k: int| 0 <= k < split_ws(line).len() ==> elem_token_ok(#[trigger] split_ws(line)[k])
}

/// The elements a data row denotes, in order.
pub open spec fn row_vals(line: Seq<char>) -> Seq<i64> {
    Seq::new(split_ws(line).len(), |k: int| int_str_val(split_ws(line)[k]) as i64)
}

/// Reads the data rows `i .. rows` from the lines after the two header
/// lines, flattening them in row order; the first offending row decides the
/// error.
pub open spec fn parse_rows(
    lines: Seq<Seq<char>>,
    rows: nat,
    cols: nat,
    i: nat,
) -> Result<Seq<i64>, MatrixError>
    decreases rows - i,
{
    if i >= rows {
        Ok(Seq::empty())
    } else if 2 + i >= lines.len() {
        Err(MatrixError::MissingRow(i as usize))
    } else if !row_ok(lines[2 + i as int]) {
        Err(MatrixError::InvalidNumber(i as usize))
    } else if split_ws(lines[2 + i as int]).len() != cols {
        Err(
            MatrixError::WrongRowLength {
                row: i as usize,
                found: split_ws(lines[2 + i as int]).len() as usize,
                expected: cols as usize,
            },
        )
    } else {
        match parse_rows(lines, rows, cols, i + 1) {
            Ok(rest) => Ok(row_vals(lines[2 + i as int]) + rest),
            Err(e) => Err(e),
        }
    }
}

/// What the text format denotes: a row-count line, a column-count line, then
/// exactly that many data rows of that many elements each.
pub open spec fn parse_lines(lines: Seq<Seq<char>>) -> Result<MatrixModel, MatrixError> {
    if lines.len() == 0 {
        Err(MatrixError::MissingRowCount)
    } else if !line_count_ok(lines[0]) {
        Err(MatrixError::InvalidRowCount)
    } else if lines.len() == 1 {
        Err(MatrixError::MissingColumnCount)
    } else if !line_count_ok(lines[1]) {
        Err(MatrixError::InvalidColumnCount)
    } else {
        let rows = line_count_val(lines[0]);
        let cols = line_count_val(lines[1]);
        match parse_rows(lines, rows, cols, 0) {
            Ok(vals) => Ok(MatrixModel { rows, cols, elems: vals }),
            Err(e) => Err(e),
        }
    }
}

impl Matrix {
    /// Reads one line that must hold a single count.
    fn parse_count_line(line: &str) -> (r: Option<usize>)
        ensures
            r is Some <==> line_count_ok(line@),
            r matches Some(v) ==> v == line_count_val(line@),
    {
        let toks = tokenize(line);
        if toks.len() != 1 {
            return None;
        }
        parse_usize(toks[0])
    }

    /// Reads one data row; `None` marks a token that is no element.
    fn parse_row_line(line: &str) -> (r: Option<Vec<i64>>)
        ensures
            r is Some <==> row_ok(line@),
            r matches Some(v) ==> v@ == row_vals(line@),
    {
        let toks = tokenize(line);
        let mut vals: Vec<i64> = Vec::new();
        let mut k: usize = 0;
        while k < toks.len()
            invariant
                0 <= k <= toks@.len(),
                toks@.len() == split_ws(line@).len(),
                forall|m: int| 0 <= m < toks@.len() ==> #[trigger] toks@[m]@ == split_ws(line@)[m],
                vals@.len() == k,
                forall|m: int| 0 <= m < k ==> elem_token_ok(#[trigger] split_ws(line@)[m]),
                forall|m: int| 0 <= m < k ==> #[trigger] vals@[m] as int == int_str_val(
                    split_ws(line@)[m],
                ),
            decreases toks@.len() - k,
        {
            match parse_i64(toks[k]) {
                Some(v) => {
                    vals.push(v);
                },
                None => {
                    assert(!elem_token_ok(split_ws(line@)[k as int]));
                    return None;
                },
            }
            k += 1;
        }
        proof {
            assert(vals@ =~= row_vals(line@));
        }
        Some(vals)
    }

    /// Reads a matrix from the format's lines, already split: a row count, a
    /// column count, then that many rows of that many numbers.
    pub fn from_iterator(lines: Vec<&str>) -> (r: Result<Matrix, MatrixError>)
        ensures
            matrix_result_model(r) == parse_lines(lines.deep_view()),
    {
        let ghost gl: Seq<Seq<char>> = lines.deep_view();
        let n = lines.len();
        if n == 0 {
            return Err(MatrixError::MissingRowCount);
        }
        let rows = match Self::parse_count_line(lines[0]) {
            Some(v) => v,
            None => {
                return Err(MatrixError::InvalidRowCount);
            },
        };
        if n == 1 {
            return Err(MatrixError::MissingColumnCount);
        }
        let columns = match Self::parse_count_line(lines[1]) {
            Some(v) => v,
            None => {
                return Err(MatrixError::InvalidColumnCount);
            },
        };
        let mut numbers: Vec<i64> = Vec::new();
        let mut i: usize = 0;
        while i < rows
            invariant
                0 <= i <= rows,
                2 <= n == gl.len(),
                gl == lines.deep_view(),
                lines@.len() == n,
                line_count_ok(gl[0]),
                line_count_ok(gl[1]),
                rows == line_count_val(gl[0]),
                columns == line_count_val(gl[1]),
                numbers@.len() == i * columns,
                parse_rows(gl, rows as nat, columns as nat, 0) == (match parse_rows(
                    gl,
                    rows as nat,
                    columns as nat,
                    i as nat,
                ) {
                    Ok(rest) => Ok::<Seq<i64>, MatrixError>(numbers@ + rest),
                    Err(e) => Err(e),
                }),
            decreases rows - i,
        {
            if n - 2 <= i {
                return Err(MatrixError::MissingRow(i));
            }
            let line = lines[2 + i];
            assert(line@ == gl[2 + i]);
            let mut row_buf = match Self::parse_row_line(line) {
                Some(v) => v,
                None => {
                    return Err(MatrixError::InvalidNumber(i));
                },
            };
            if row_buf.len() != columns {
                return Err(
                    MatrixError::WrongRowLength {
                        row: i,
                        found: row_buf.len(),
                        expected: columns,
                    },
                );
            }
            let ghost numbers_before = numbers@;
            numbers.append(&mut row_buf);
            proof {
                let r = rows as nat;
                let c = columns as nat;
                assert(parse_rows(gl, r, c, i as nat) == (match parse_rows(gl, r, c, i as nat + 1) {
                    Ok(rest) => Ok::<Seq<i64>, MatrixError>(row_vals(gl[2 + i]) + rest),
                    Err(e) => Err(e),
                }));
                if let Ok(rest) = parse_rows(gl, r, c, i as nat + 1) {
                    assert(numbers@ + rest =~= numbers_before + (row_vals(gl[2 + i]) + rest));
                }
                assert((i + 1) * (columns as int) == i * (columns as int) + columns) by (nonlinear_arith);
            }
            i += 1;
        }
        proof {
            assert(parse_rows(gl, rows as nat, columns as nat, i as nat) == Ok::<
                Seq<i64>,
                MatrixError,
            >(Seq::empty()));
            assert(numbers@ + Seq::<i64>::empty() =~= numbers@);
        }
        let m = Matrix { rows, columns, numbers };
        proof {
            assert(parse_lines(gl) == Ok::<MatrixModel, MatrixError>(m@));
        }
        Ok(m)
    }

    /// Reads a matrix from the format's lines gathered in a vector.
    pub fn from_vec(vector: Vec<&str>) -> (r: Result<Matrix, MatrixError>)
        ensures
            matrix_result_model(r) == parse_lines(vector.deep_view()),
    {
        Self::from_iterator(vector)
    }
}

/// The first `j` cells of row `i` as text, single blanks between them.
pub open spec fn cells_text(m: MatrixModel, i: int, j: int) -> Seq<char>
    decreases j,
{
    if j <= 0 {
        Seq::empty()
    } else if j == 1 {
        dec_i(m.entry(i, 0))
    } else {
        cells_text(m, i, j - 1) + seq![' '] + dec_i(m.entry(i, j - 1))
    }
}

/// The first `i` rows as text, one line per row.
pub open spec fn rows_text(m: MatrixModel, i: int) -> Seq<char>
    decreases i,
{
    if i <= 0 {
        Seq::empty()
    } else {
        rows_text(m, i - 1) + cells_text(m, i - 1, m.cols as int) + seq!['\n']
    }
}

/// A matrix in the text format: the row count, the column count, then one
/// line per row.
pub open spec fn text_of(m: MatrixModel) -> Seq<char> {
    dec_u(m.rows) + seq!['\n'] + dec_u(m.cols) + seq!['\n'] + rows_text(m, m.rows as int)
}

/// A cell's flat row-major index lies inside the buffer.
pub proof fn lemma_row_major_index(i: int, j: int, rows: int, cols: int)
    by (nonlinear_arith)
    requires
        0 <= i < rows,
        0 <= j < cols,
    ensures
        0 <= i * cols + j < rows * cols,
{
}

impl Matrix {
    /// Writes the matrix in the text format it is read from.
    pub fn to_text(&self) -> (r: String)
        ensures
            r@ == text_of(self@),
    {
        proof {
            use_type_invariant(self);
            reveal_strlit("\n");
            reveal_strlit(" ");
        }
        let mut s = String::new();
        push_u64(&mut s, self.rows as u64);
        s.append("\n");
        push_u64(&mut s, self.columns as u64);
        s.append("\n");
        let ghost header: Seq<char> = dec_u(self@.rows) + seq!['\n'] + dec_u(self@.cols)
            + seq!['\n'];
        proof {
            assert(s@ =~= header + rows_text(self@, 0));
        }
        let buf_len = self.numbers.len();
        let mut i: usize = 0;
        while i < self.rows
            invariant
                0 <= i <= self.rows,
                self@.wf(),
                buf_len == self@.elems.len(),
                s@ == header + rows_text(self@, i as int),
            decreases self.rows - i,
        {
            let ghost row_start: Seq<char> = s@;
            let mut j: usize = 0;
            while j < self.columns
                invariant
                    0 <= j <= self.columns,
                    0 <= i < self.rows,
                    self@.wf(),
                    buf_len == self@.elems.len(),
                    s@ == row_start + cells_text(self@, i as int, j as int),
                decreases self.columns - j,
            {
                if j > 0 {
                    s.append(" ");
                }
                proof {
                    reveal_strlit(" ");
                    lemma_row_major_index(
                        i as int,
                        j as int,
                        self.rows as int,
                        self.columns as int,
                    );
                }
                let idx = i * self.columns + j;
                push_i64(&mut s, self.numbers[idx]);
                proof {
                    assert(s@ =~= row_start + cells_text(self@, i as int, j + 1));
                }
                j += 1;
            }
            proof {
                reveal_strlit("\n");
            }
            s.append("\n");
            proof {
                assert(s@ =~= header + rows_text(self@, i + 1));
            }
            i += 1;
        }
        s
    }
}

impl PartialEq for Matrix {
    fn eq(&self, other: &Matrix) -> (r: bool) {
        let r = self.rows == other.rows && self.columns == other.columns && self.numbers
            == other.numbers;
        proof {
            if r {
                assert(self@ =~= other@);
            }
        }
        r
    }
}

impl vstd::std_specs::cmp::PartialEqSpecImpl for Matrix {
    open spec fn obeys_eq_spec() -> bool {
        true
    }

    open spec fn eq_spec(&self, other: &Matrix) -> bool {
        self@ == other@
    }
}

} // verus!
