//! The multiplication engine: the row partitioner, the dot-product kernel,
//! the `multiply` orchestrator, and the laws that tie them together.

use vstd::prelude::*;

use crate::matrix::{
    lemma_row_major_index, parse_lines, text_of, Matrix, MatrixError, MatrixModel,
};

verus! {

/// Why a worker did not complete its range normally.
#[derive(Debug, Clone, Copy, PartialEq, Eq, Structural)]
pub enum FailureCause {
    /// A product or a running sum left the element type's range.
    ArithmeticOverflow,
}

/// Everything `multiply` can report instead of a product matrix.
#[derive(Debug, Clone, Copy, PartialEq, Eq, Structural)]
pub enum MultiplyError {
    /// The left operand's column count and the right operand's row count.
    DimensionMismatch(usize, usize),
    /// The requested worker count and the left operand's row count.
    InvalidWorkerCount(usize, usize),
    /// The first worker, in index order, that failed, and why.
    TaskFailure(usize, FailureCause),
    /// A synchronization invariant was violated after the workers finished;
    /// the verified engine never produces it, but a dispatcher built on
    /// shared locks may.
    InternalSynchronizationError,
}

/// The row index where worker `i`'s range begins when `rows` rows are dealt
/// to `t` workers: every worker gets `rows / t` rows, and the first
/// `rows % t` workers one more.
pub open spec fn boundary(t: nat, rows: nat, i: int) -> int {
    i * ((rows / t) as int) + (if i < ((rows % t) as int) {
        i
    } else {
        (rows % t) as int
    })
}

proof fn lemma_mul_succ(a: int, b: int)
    by (nonlinear_arith)
    ensures
        (a + 1) * b == a * b + b,
{
}

/// One step of the partition: the size of worker `i`'s range.
proof fn lemma_boundary_next(t: nat, rows: nat, i: int)
    requires
        t >= 1,
        0 <= i,
    ensures
        boundary(t, rows, i + 1) == boundary(t, rows, i) + ((rows / t) as int) + (if i < ((rows
            % t) as int) {
            1int
        } else {
            0int
        }),
{
    lemma_mul_succ(i, (rows / t) as int);
}

proof fn lemma_boundary_ends(t: nat, rows: nat)
    requires
        t >= 1,
    ensures
        boundary(t, rows, 0) == 0,
        boundary(t, rows, t as int) == rows,
{
    vstd::arithmetic::div_mod::lemma_fundamental_div_mod(rows as int, t as int);
    assert((t as int) * ((rows / t) as int) == (rows / t) as int * t) by (nonlinear_arith);
    assert(rows % t < t) by (nonlinear_arith)
        requires t >= 1,
    ;
}

proof fn lemma_boundary_le_end(t: nat, rows: nat, i: int)
    requires
        t >= 1,
        0 <= i <= t,
    ensures
        boundary(t, rows, i) <= rows,
    decreases t - i,
{
    if i == t {
        lemma_boundary_ends(t, rows);
    } else {
        lemma_boundary_le_end(t, rows, i + 1);
        lemma_boundary_next(t, rows, i);
    }
}

/// Computes the `num_of_threads + 1` partition boundaries for `rows` output
/// rows: cumulative sums starting at 0 and ending at `rows`.
pub fn generate_indexes_for_threads(num_of_threads: usize, rows: usize) -> (r: Vec<usize>)
    requires
        num_of_threads >= 1,
    ensures
        r@.len() == num_of_threads + 1,
        forall|i: int|
            0 <= i <= num_of_threads ==> #[trigger] r@[i] == boundary(
                num_of_threads as nat,
                rows as nat,
                i,
            ),
{
    let ghost t = num_of_threads as nat;
    let rows_per_thread = rows / num_of_threads;
    let mut rest: usize = rows % num_of_threads;
    let mut rows_for_threads: Vec<usize> = Vec::new();
    let mut current: usize = 0;
    rows_for_threads.push(0);
    let mut w: usize = 0;
    while w < num_of_threads
        invariant
            0 <= w <= num_of_threads,
            num_of_threads >= 1,
            t == num_of_threads as nat,
            rows_per_thread == rows as nat / t,
            rest as int == ((rows as nat % t) as int) - (if w < ((rows as nat % t) as int) {
                w as int
            } else {
                (rows as nat % t) as int
            }),
            current == boundary(t, rows as nat, w as int),
            current <= rows,
            rows_for_threads@.len() == w + 1,
            forall|i: int|
                0 <= i <= w ==> #[trigger] rows_for_threads@[i] == boundary(t, rows as nat, i),
        decreases num_of_threads - w,
    {
        proof {
            lemma_boundary_next(t, rows as nat, w as int);
            lemma_boundary_le_end(t, rows as nat, w + 1);
        }
        current = current + rows_per_thread;
        if rest > 0 {
            current = current + 1;
            rest = rest - 1;
        }
        rows_for_threads.push(current);
        w += 1;
    }
    rows_for_threads
}

/// The sum of the first `k` range sizes of the partition.
pub open spec fn partition_sizes_sum(t: nat, rows: nat, k: int) -> int
    decreases k,
{
    if k <= 0 {
        0
    } else {
        partition_sizes_sum(t, rows, k - 1) + (boundary(t, rows, k) - boundary(t, rows, k - 1))
    }
}

proof fn lemma_sizes_sum_telescopes(t: nat, rows: nat, k: int)
    requires
        t >= 1,
        0 <= k,
    ensures
        partition_sizes_sum(t, rows, k) == boundary(t, rows, k),
    decreases k,
{
    if k > 0 {
        lemma_sizes_sum_telescopes(t, rows, k - 1);
    } else {
        assert(boundary(t, rows, 0) == 0);
    }
}

/// Law: dealing `rows` rows to `t` workers, `1 <= t <= rows`, cuts `[0, rows)`
/// into `t` contiguous ranges: boundaries climb strictly from 0 to `rows`,
/// every range holds `rows / t` or `rows / t + 1` rows, exactly the first
/// `rows % t` ranges hold the larger count, and the range sizes sum to `rows`.
pub proof fn lemma_partition_correct(t: nat, rows: nat)
    requires
        1 <= t <= rows,
    ensures
        boundary(t, rows, 0) == 0,
        boundary(t, rows, t as int) == rows,
        forall|i: int|
            0 <= i < t ==> #[trigger] boundary(t, rows, i + 1) - boundary(t, rows, i) == ((rows
                / t) as int) + (if i < ((rows % t) as int) {
                1int
            } else {
                0int
            }),
        forall|i: int| 0 <= i < t ==> boundary(t, rows, i) < #[trigger] boundary(t, rows, i + 1),
        partition_sizes_sum(t, rows, t as int) == rows,
{
    lemma_boundary_ends(t, rows);
    assert(rows / t >= 1) by (nonlinear_arith)
        requires t >= 1, rows >= t,
    ;
    assert forall|i: int| 0 <= i < t implies #[trigger] boundary(t, rows, i + 1) - boundary(
        t,
        rows,
        i,
    ) == ((rows / t) as int) + (if i < ((rows % t) as int) {
        1int
    } else {
        0int
    }) && boundary(t, rows, i) < boundary(t, rows, i + 1) by {
        lemma_boundary_next(t, rows, i);
    }
    lemma_sizes_sum_telescopes(t, rows, t as int);
}

/// The dot product of the first `p` terms of A's row `i` with B's column
/// `j`, accumulated in ascending index order.
pub open spec fn dot_prefix(a: MatrixModel, b: MatrixModel, i: int, j: int, p: int) -> int
    decreases p,
{
    if p <= 0 {
        0
    } else {
        dot_prefix(a, b, i, j, p - 1) + a.entry(i, p - 1) * b.entry(p - 1, j)
    }
}

/// The full dot product behind output cell `(i, j)`.
pub open spec fn dot_full(a: MatrixModel, b: MatrixModel, i: int, j: int) -> int {
    dot_prefix(a, b, i, j, a.cols as int)
}

pub open spec fn in_i64(x: int) -> bool {
    i64::MIN <= x <= i64::MAX
}

/// Output cell `(i, j)` can be computed in `i64` arithmetic: every pairwise
/// product and every running sum stays in range.
pub open spec fn cell_ok(a: MatrixModel, b: MatrixModel, i: int, j: int) -> bool {
    &&& forall|k: int|
        0 <= k < a.cols ==> in_i64(#[trigger] a.entry(i, k) * b.entry(k, j))
    &&& forall|p: int| 1 <= p <= a.cols ==> in_i64(#[trigger] dot_prefix(a, b, i, j, p))
}

/// Every output cell of rows `lo .. hi` can be computed.
pub open spec fn range_ok(a: MatrixModel, b: MatrixModel, lo: int, hi: int) -> bool {
    forall|i: int, j: int| lo <= i < hi && 0 <= j < b.cols ==> #[trigger] cell_ok(a, b, i, j)
}

/// The first worker, from `w` on, whose row range cannot be computed; `t`
/// when every worker succeeds.
pub open spec fn first_bad_worker(
    a: MatrixModel,
    b: MatrixModel,
    t: nat,
    rows: nat,
    w: int,
) -> int
    decreases t - w,
{
    if w >= t {
        t as int
    } else if !range_ok(a, b, boundary(t, rows, w), boundary(t, rows, w + 1)) {
        w
    } else {
        first_bad_worker(a, b, t, rows, w + 1)
    }
}

proof fn lemma_first_bad_from(a: MatrixModel, b: MatrixModel, t: nat, rows: nat, lo: int, w: int)
    requires
        0 <= lo <= w < t,
        forall|w2: int|
            lo <= w2 < w ==> range_ok(
                a,
                b,
                #[trigger] boundary(t, rows, w2),
                boundary(t, rows, w2 + 1),
            ),
        !range_ok(a, b, boundary(t, rows, w), boundary(t, rows, w + 1)),
    ensures
        first_bad_worker(a, b, t, rows, lo) == w,
    decreases w - lo,
{
    if lo < w {
        lemma_first_bad_from(a, b, t, rows, lo + 1, w);
    }
}

proof fn lemma_first_bad_none(a: MatrixModel, b: MatrixModel, t: nat, rows: nat, lo: int)
    requires
        0 <= lo <= t,
        forall|w2: int|
            lo <= w2 < t ==> range_ok(
                a,
                b,
                #[trigger] boundary(t, rows, w2),
                boundary(t, rows, w2 + 1),
            ),
    ensures
        first_bad_worker(a, b, t, rows, lo) == t,
    decreases t - lo,
{
    if lo < t {
        lemma_first_bad_none(a, b, t, rows, lo + 1);
    }
}

/// The product of two compatible operands: cell `(i, j)` holds the full dot
/// product of A's row `i` with B's column `j`.
pub open spec fn product_model(a: MatrixModel, b: MatrixModel) -> MatrixModel {
    MatrixModel {
        rows: a.rows,
        cols: b.cols,
        elems: Seq::new(
            a.rows * b.cols,
            |idx: int| dot_full(a, b, idx / (b.cols as int), idx % (b.cols as int)) as i64,
        ),
    }
}

/// Everything `multiply` returns, as a function of its operands and the
/// worker count alone: the validation errors in the order they are checked,
/// then the first failing worker, else the product.
pub open spec fn multiply_spec(a: MatrixModel, b: MatrixModel, t: nat) -> Result<
    MatrixModel,
    MultiplyError,
> {
    if a.cols != b.rows {
        Err(MultiplyError::DimensionMismatch(a.cols as usize, b.rows as usize))
    } else if t > a.rows {
        Err(MultiplyError::InvalidWorkerCount(t as usize, a.rows as usize))
    } else if t == 0 {
        Err(MultiplyError::InvalidWorkerCount(t as usize, a.rows as usize))
    } else {
        let fb = first_bad_worker(a, b, t, a.rows, 0);
        if fb < t {
            Err(MultiplyError::TaskFailure(fb as usize, FailureCause::ArithmeticOverflow))
        } else {
            Ok(product_model(a, b))
        }
    }
}

proof fn lemma_flat_index_lt(i: int, j: int, row: int, start: int, cols: int, col: int)
    by (nonlinear_arith)
    requires
        start <= i < row,
        0 <= j < cols,
        0 <= col,
    ensures
        0 <= (i - start) * cols + j < (row - start) * cols + col,
{
}

proof fn lemma_i64_product_fits(x: int, y: int)
    by (nonlinear_arith)
    requires
        -0x8000_0000_0000_0000 <= x <= 0x7fff_ffff_ffff_ffff,
        -0x8000_0000_0000_0000 <= y <= 0x7fff_ffff_ffff_ffff,
    ensures
        -0x4000_0000_0000_0000_0000_0000_0000_0000 <= x * y
            <= 0x4000_0000_0000_0000_0000_0000_0000_0000,
{
}

/// The sequential kernel: computes output rows `start_row .. end_row` into a
/// private row-major buffer, or reports that some cell of the range
/// overflows the element type.
pub fn multiply_rows(matrix_a: &Matrix, matrix_b: &Matrix, start_row: usize, end_row: usize) -> (r:
    Option<Vec<i64>>)
    requires
        matrix_a@.cols == matrix_b@.rows,
        start_row <= end_row <= matrix_a@.rows,
    ensures
        r is Some <==> range_ok(matrix_a@, matrix_b@, start_row as int, end_row as int),
        r matches Some(v) ==> v@.len() == (end_row - start_row) * matrix_b@.cols,
        r matches Some(v) ==> forall|i: int, j: int|
            start_row <= i < end_row && 0 <= j < matrix_b@.cols ==> v@[(i - start_row) * (
            matrix_b@.cols as int) + j] as int == #[trigger] dot_full(matrix_a@, matrix_b@, i, j),
{
    proof {
        use_type_invariant(matrix_a);
        use_type_invariant(matrix_b);
    }
    let ghost ga = matrix_a@;
    let ghost gb = matrix_b@;
    let n = matrix_a.get_columns();
    let columns = matrix_b.get_columns();
    let rows_a = matrix_a.get_rows();
    let a_numbers = matrix_a.get_numbers();
    let b_numbers = matrix_b.get_numbers();
    let a_len = a_numbers.len();
    let b_len = b_numbers.len();
    let mut result: Vec<i64> = Vec::new();
    let mut row: usize = start_row;
    while row < end_row
        invariant
            start_row <= row <= end_row <= rows_a,
            ga == matrix_a@,
            gb == matrix_b@,
            ga.wf(),
            gb.wf(),
            ga.cols == gb.rows,
            n == ga.cols,
            columns == gb.cols,
            rows_a == ga.rows,
            a_numbers@ == ga.elems,
            b_numbers@ == gb.elems,
            a_len == ga.elems.len(),
            b_len == gb.elems.len(),
            result@.len() == (row - start_row) * columns,
            range_ok(ga, gb, start_row as int, row as int),
            forall|i: int, j: int|
                start_row <= i < row && 0 <= j < columns ==> result@[(i - start_row) * (
                columns as int) + j] as int == #[trigger] dot_full(ga, gb, i, j),
        decreases end_row - row,
    {
        let mut col: usize = 0;
        while col < columns
            invariant
                start_row <= row < end_row <= rows_a,
                0 <= col <= columns,
                ga == matrix_a@,
                gb == matrix_b@,
                ga.wf(),
                gb.wf(),
                ga.cols == gb.rows,
                n == ga.cols,
                columns == gb.cols,
                rows_a == ga.rows,
                a_numbers@ == ga.elems,
                b_numbers@ == gb.elems,
                a_len == ga.elems.len(),
                b_len == gb.elems.len(),
                result@.len() == (row - start_row) * columns + col,
                range_ok(ga, gb, start_row as int, row as int),
                forall|i: int, j: int|
                    start_row <= i < row && 0 <= j < columns ==> result@[(i - start_row) * (
                    columns as int) + j] as int == #[trigger] dot_full(ga, gb, i, j),
                forall|j: int| 0 <= j < col ==> #[trigger] cell_ok(ga, gb, row as int, j),
                forall|j: int|
                    0 <= j < col ==> result@[(row - start_row) * (columns as int) + j] as int
                        == #[trigger] dot_full(ga, gb, row as int, j),
            decreases columns - col,
        {
            let mut sum: i64 = 0;
            let mut k: usize = 0;
            while k < n
                invariant
                    start_row <= row < end_row <= rows_a,
                    0 <= col < columns,
                    0 <= k <= n,
                    ga == matrix_a@,
                    gb == matrix_b@,
                    ga.wf(),
                    gb.wf(),
                    ga.cols == gb.rows,
                    n == ga.cols,
                    columns == gb.cols,
                    rows_a == ga.rows,
                    a_numbers@ == ga.elems,
                    b_numbers@ == gb.elems,
                    a_len == ga.elems.len(),
                    b_len == gb.elems.len(),
                    sum as int == dot_prefix(ga, gb, row as int, col as int, k as int),
                    forall|k2: int|
                        0 <= k2 < k ==> in_i64(
                            #[trigger] ga.entry(row as int, k2) * gb.entry(k2, col as int),
                        ),
                    forall|p: int|
                        1 <= p <= k ==> in_i64(
                            #[trigger] dot_prefix(ga, gb, row as int, col as int, p),
                        ),
                decreases n - k,
            {
                proof {
                    lemma_row_major_index(row as int, k as int, rows_a as int, n as int);
                    lemma_row_major_index(k as int, col as int, n as int, columns as int);
                }
                let a_v = a_numbers[row * n + k];
                let b_v = b_numbers[k * columns + col];
                proof {
                    lemma_i64_product_fits(a_v as int, b_v as int);
                }
                let p128: i128 = (a_v as i128) * (b_v as i128);
                proof {
                    assert(p128 as int == ga.entry(row as int, k as int) * gb.entry(
                        k as int,
                        col as int,
                    ));
                }
                if p128 < i64::MIN as i128 || p128 > i64::MAX as i128 {
                    proof {
                        assert(!cell_ok(ga, gb, row as int, col as int));
                        assert(!range_ok(ga, gb, start_row as int, end_row as int));
                    }
                    return None;
                }
                let s128: i128 = (sum as i128) + p128;
                proof {
                    assert(s128 as int == dot_prefix(ga, gb, row as int, col as int, k + 1));
                }
                if s128 < i64::MIN as i128 || s128 > i64::MAX as i128 {
                    proof {
                        assert(!in_i64(dot_prefix(ga, gb, row as int, col as int, k + 1)));
                        assert(!cell_ok(ga, gb, row as int, col as int));
                        assert(!range_ok(ga, gb, start_row as int, end_row as int));
                    }
                    return None;
                }
                sum = s128 as i64;
                k += 1;
            }
            proof {
                assert(cell_ok(ga, gb, row as int, col as int));
                assert(sum as int == dot_full(ga, gb, row as int, col as int));
            }
            let ghost result_before = result@;
            result.push(sum);
            proof {
                assert forall|i: int, j: int|
                    start_row <= i < row && 0 <= j < columns implies result@[(i - start_row) * (
                columns as int) + j] as int == #[trigger] dot_full(ga, gb, i, j) by {
                    lemma_flat_index_lt(
                        i,
                        j,
                        row as int,
                        start_row as int,
                        columns as int,
                        col as int,
                    );
                    assert(result@[(i - start_row) * (columns as int) + j] == result_before[(i
                        - start_row) * (columns as int) + j]);
                }
                assert forall|j: int|
                    0 <= j < col + 1 implies result@[(row - start_row) * (columns as int)
                    + j] as int == #[trigger] dot_full(ga, gb, row as int, j) by {
                    if j < col {
                        assert(result_before[(row - start_row) * (columns as int) + j] as int
                            == dot_full(ga, gb, row as int, j));
                    } else {
                        assert(result@[(row - start_row) * (columns as int) + col] == sum);
                    }
                }
            }
            col += 1;
        }
        proof {
            assert(range_ok(ga, gb, start_row as int, row + 1)) by {
                assert forall|i: int, j: int|
                    start_row <= i < row + 1 && 0 <= j < gb.cols implies #[trigger] cell_ok(
                    ga,
                    gb,
                    i,
                    j,
                ) by {
                    if i < row {
                        assert(cell_ok(ga, gb, i, j));
                    }
                }
            }
            assert((row + 1 - start_row) * (columns as int) == (row - start_row) * (columns as int)
                + columns) by (nonlinear_arith);
            assert forall|i: int, j: int|
                start_row <= i < row + 1 && 0 <= j < columns implies result@[(i - start_row) * (
            columns as int) + j] as int == #[trigger] dot_full(ga, gb, i, j) by {
                if i < row {
                    assert(result@[(i - start_row) * (columns as int) + j] as int == dot_full(
                        ga,
                        gb,
                        i,
                        j,
                    ));
                } else {
                    assert(result@[(row - start_row) * (columns as int) + j] as int == dot_full(
                        ga,
                        gb,
                        row as int,
                        j,
                    ));
                }
            }
        }
        row += 1;
    }
    Some(result)
}

/// A multiplication outcome seen as its model: errors pass through
/// unchanged.
pub open spec fn multiply_result_model(r: Result<Matrix, MultiplyError>) -> Result<
    MatrixModel,
    MultiplyError,
> {
    match r {
        Ok(m) => Ok(m@),
        Err(e) => Err(e),
    }
}

/// Multiplies two matrices, dealing the output rows to `num_of_threads`
/// workers and concatenating their partial results in worker order. The
/// operands are validated before any work is done, and a worker whose range
/// overflows the element type fails the whole call.
pub fn multiply(matrix_a: &Matrix, matrix_b: &Matrix, num_of_threads: usize) -> (r: Result<
    Matrix,
    MultiplyError,
>)
    ensures
        multiply_result_model(r) == multiply_spec(matrix_a@, matrix_b@, num_of_threads as nat),
        r matches Ok(m) ==> m@.wf() && m@.rows == matrix_a@.rows && m@.cols == matrix_b@.cols,
{
    proof {
        use_type_invariant(matrix_a);
        use_type_invariant(matrix_b);
    }
    let ghost ga = matrix_a@;
    let ghost gb = matrix_b@;
    if matrix_a.get_columns() != matrix_b.get_rows() {
        return Err(MultiplyError::DimensionMismatch(matrix_a.get_columns(), matrix_b.get_rows()));
    }
    let rows = matrix_a.get_rows();
    if num_of_threads > rows {
        return Err(MultiplyError::InvalidWorkerCount(num_of_threads, rows));
    }
    if num_of_threads == 0 {
        return Err(MultiplyError::InvalidWorkerCount(num_of_threads, rows));
    }
    let columns = matrix_b.get_columns();
    let ghost t = num_of_threads as nat;
    let ghost rowsn = rows as nat;
    let bounds = generate_indexes_for_threads(num_of_threads, rows);
    let mut numbers: Vec<i64> = Vec::new();
    let mut w: usize = 0;
    proof {
        assert(boundary(t, rowsn, 0) == 0);
        assert(boundary(t, rowsn, 0) * (columns as int) == 0);
    }
    while w < num_of_threads
        invariant
            0 <= w <= num_of_threads,
            1 <= num_of_threads <= rows,
            t == num_of_threads as nat,
            rowsn == rows as nat,
            ga == matrix_a@,
            gb == matrix_b@,
            ga.wf(),
            gb.wf(),
            ga.cols == gb.rows,
            rows == ga.rows,
            columns == gb.cols,
            bounds@.len() == num_of_threads + 1,
            forall|i: int|
                0 <= i <= num_of_threads ==> #[trigger] bounds@[i] == boundary(t, rowsn, i),
            numbers@.len() == boundary(t, rowsn, w as int) * columns,
            forall|w2: int|
                0 <= w2 < w ==> range_ok(
                    ga,
                    gb,
                    #[trigger] boundary(t, rowsn, w2),
                    boundary(t, rowsn, w2 + 1),
                ),
            forall|i: int, j: int|
                0 <= i < boundary(t, rowsn, w as int) && 0 <= j < columns ==> numbers@[i * (
                columns as int) + j] as int == #[trigger] dot_full(ga, gb, i, j),
        decreases num_of_threads - w,
    {
        proof {
            lemma_boundary_next(t, rowsn, w as int);
            lemma_boundary_le_end(t, rowsn, w as int);
            lemma_boundary_le_end(t, rowsn, w + 1);
        }
        let start_row = bounds[w];
        let end_row = bounds[w + 1];
        let ghost bw = boundary(t, rowsn, w as int);
        let ghost bw1 = boundary(t, rowsn, w + 1);
        match multiply_rows(matrix_a, matrix_b, start_row, end_row) {
            None => {
                proof {
                    lemma_first_bad_from(ga, gb, t, rowsn, 0, w as int);
                }
                return Err(MultiplyError::TaskFailure(w, FailureCause::ArithmeticOverflow));
            },
            Some(mut part) => {
                let ghost part_g = part@;
                let ghost numbers_before = numbers@;
                numbers.append(&mut part);
                proof {
                    let c = columns as int;
                    assert((bw + (bw1 - bw)) * c == bw * c + (bw1 - bw) * c) by (nonlinear_arith);
                    assert(numbers@.len() == bw1 * c);
                    assert forall|i: int, j: int|
                        0 <= i < bw1 && 0 <= j < columns implies numbers@[i * c + j] as int
                        == #[trigger] dot_full(ga, gb, i, j) by {
                        if i < bw {
                            lemma_flat_index_lt(i, j, bw, 0, c, 0);
                            assert(numbers_before[i * c + j] as int == dot_full(ga, gb, i, j));
                            assert(numbers@[i * c + j] == numbers_before[i * c + j]);
                        } else {
                            lemma_flat_index_lt(i, j, bw1, bw, c, 0);
                            assert(part_g[(i - bw) * c + j] as int == dot_full(ga, gb, i, j));
                            assert((i - bw) * c + j == i * c + j - bw * c) by (nonlinear_arith);
                            assert(numbers@[bw * c + ((i - bw) * c + j)] == part_g[(i - bw) * c
                                + j]);
                        }
                    }
                }
            },
        }
        w += 1;
    }
    proof {
        lemma_first_bad_none(ga, gb, t, rowsn, 0);
        lemma_boundary_ends(t, rowsn);
    }
    let ghost numbers_g = numbers@;
    let m = match Matrix::new(rows, columns, numbers) {
        Ok(m) => m,
        Err(_) => vstd::pervasive::unreached(),
    };
    proof {
        let c = columns as int;
        let rs = rows as int;
        assert forall|idx: int| 0 <= idx < rs * c implies numbers_g[idx] == product_model(
            ga,
            gb,
        ).elems[idx] by {
            assert(c > 0) by (nonlinear_arith)
                requires 0 <= idx < rs * c, 0 <= rs,
            ;
            vstd::arithmetic::div_mod::lemma_fundamental_div_mod(idx, c);
            vstd::arithmetic::div_mod::lemma_mod_bound(idx, c);
            let i = idx / c;
            let j = idx % c;
            assert(0 <= i < rs) by (nonlinear_arith)
                requires
                    idx == c * i + j,
                    0 <= j < c,
                    0 <= idx < rs * c,
            ;
            assert(i * c == c * i) by (nonlinear_arith);
            assert(numbers_g[i * c + j] as int == dot_full(ga, gb, i, j));
        }
        assert(m@.elems =~= product_model(ga, gb).elems);
        assert(m@ =~= product_model(ga, gb));
    }
    Ok(m)
}

/// Every output cell of the whole product can be computed in `i64`
/// arithmetic.
pub open spec fn all_cells_ok(a: MatrixModel, b: MatrixModel) -> bool {
    range_ok(a, b, 0, a.rows as int)
}

proof fn lemma_boundary_ge0(t: nat, rows: nat, i: int)
    requires
        t >= 1,
        0 <= i <= t,
    ensures
        boundary(t, rows, i) >= 0,
    decreases i,
{
    if i == 0 {
        assert(boundary(t, rows, 0) == 0);
    } else {
        lemma_boundary_ge0(t, rows, i - 1);
        lemma_boundary_next(t, rows, i - 1);
    }
}

proof fn lemma_first_bad_bounds(a: MatrixModel, b: MatrixModel, t: nat, rows: nat, lo: int)
    requires
        0 <= lo <= t,
    ensures
        lo <= first_bad_worker(a, b, t, rows, lo) <= t,
    decreases t - lo,
{
    if lo < t {
        lemma_first_bad_bounds(a, b, t, rows, lo + 1);
    }
}

proof fn lemma_first_bad_implies_ok(
    a: MatrixModel,
    b: MatrixModel,
    t: nat,
    rows: nat,
    lo: int,
    w: int,
)
    requires
        0 <= lo <= w < t,
        first_bad_worker(a, b, t, rows, lo) == t,
    ensures
        range_ok(a, b, boundary(t, rows, w), boundary(t, rows, w + 1)),
    decreases w - lo,
{
    if lo < w {
        lemma_first_bad_implies_ok(a, b, t, rows, lo + 1, w);
    }
}

proof fn lemma_first_bad_prefix(a: MatrixModel, b: MatrixModel, t: nat, rows: nat, k: int)
    requires
        t >= 1,
        0 <= k <= t,
        first_bad_worker(a, b, t, rows, 0) == t,
    ensures
        range_ok(a, b, 0, boundary(t, rows, k)),
    decreases k,
{
    if k == 0 {
        assert(boundary(t, rows, 0) == 0);
    } else {
        lemma_first_bad_prefix(a, b, t, rows, k - 1);
        lemma_first_bad_implies_ok(a, b, t, rows, 0, k - 1);
        let bk1 = boundary(t, rows, k - 1);
        let bk = boundary(t, rows, k);
        assert forall|i: int, j: int|
            0 <= i < bk && 0 <= j < b.cols implies #[trigger] cell_ok(a, b, i, j) by {
            if i < bk1 {
                assert(range_ok(a, b, 0, bk1));
            } else {
                assert(range_ok(a, b, bk1, bk));
            }
        }
    }
}

/// The workers' ranges cover the output rows exactly, so every worker
/// succeeds precisely when every cell of the product is computable.
proof fn lemma_all_workers_ok_iff(a: MatrixModel, b: MatrixModel, t: nat, rows: nat)
    requires
        t >= 1,
        rows == a.rows,
    ensures
        first_bad_worker(a, b, t, rows, 0) == t <==> all_cells_ok(a, b),
{
    lemma_boundary_ends(t, rows);
    if first_bad_worker(a, b, t, rows, 0) == t {
        lemma_first_bad_prefix(a, b, t, rows, t as int);
    }
    if all_cells_ok(a, b) {
        assert forall|w: int| 0 <= w < t implies range_ok(
            a,
            b,
            #[trigger] boundary(t, rows, w),
            boundary(t, rows, w + 1),
        ) by {
            lemma_boundary_ge0(t, rows, w);
            lemma_boundary_le_end(t, rows, w + 1);
            lemma_boundary_next(t, rows, w);
            assert forall|i: int, j: int|
                boundary(t, rows, w) <= i < boundary(t, rows, w + 1) && 0 <= j
                    < b.cols implies #[trigger] cell_ok(a, b, i, j) by {
                assert(0 <= i < a.rows);
            }
        }
        lemma_first_bad_none(a, b, t, rows, 0);
    }
}

/// Law: incompatible shapes are rejected with `DimensionMismatch` before
/// any partitioning or dispatch, whatever the worker count.
pub proof fn lemma_dimension_mismatch_rejected(a: MatrixModel, b: MatrixModel, t: nat)
    requires
        a.cols != b.rows,
    ensures
        multiply_spec(a, b, t) == Err::<MatrixModel, MultiplyError>(
            MultiplyError::DimensionMismatch(a.cols as usize, b.rows as usize),
        ),
{
}

/// Law: a worker count of zero, or one above the row count, is rejected
/// with `InvalidWorkerCount` before any worker is dispatched.
pub proof fn lemma_invalid_worker_count_rejected(a: MatrixModel, b: MatrixModel, t: nat)
    requires
        a.cols == b.rows,
        t == 0 || t > a.rows,
    ensures
        multiply_spec(a, b, t) == Err::<MatrixModel, MultiplyError>(
            MultiplyError::InvalidWorkerCount(t as usize, a.rows as usize),
        ),
{
}

/// Law: for compatible, well-formed operands whose product stays in range,
/// every admissible worker count yields the same outcome — the product
/// matrix — and even on overflow the worker counts agree on failure.
pub proof fn lemma_worker_count_irrelevant(a: MatrixModel, b: MatrixModel, t1: nat, t2: nat)
    requires
        a.wf(),
        b.wf(),
        a.cols == b.rows,
        1 <= t1 <= a.rows,
        1 <= t2 <= a.rows,
    ensures
        multiply_spec(a, b, t1) is Ok <==> multiply_spec(a, b, t2) is Ok,
        multiply_spec(a, b, t1) is Ok ==> multiply_spec(a, b, t1) == multiply_spec(a, b, t2),
{
    lemma_all_workers_ok_iff(a, b, t1, a.rows);
    lemma_all_workers_ok_iff(a, b, t2, a.rows);
    lemma_first_bad_bounds(a, b, t1, a.rows, 0);
    lemma_first_bad_bounds(a, b, t2, a.rows, 0);
}

/// Law: maximum parallelism — one row per worker — still produces the
/// correct product.
pub proof fn lemma_max_parallelism(a: MatrixModel, b: MatrixModel)
    requires
        a.wf(),
        b.wf(),
        a.cols == b.rows,
        a.rows >= 1,
        all_cells_ok(a, b),
    ensures
        multiply_spec(a, b, a.rows) == Ok::<MatrixModel, MultiplyError>(product_model(a, b)),
{
    lemma_all_workers_ok_iff(a, b, a.rows, a.rows);
}

/// What `run` can report instead of the output text.
#[derive(Debug, Clone, Copy, PartialEq, Eq, Structural)]
pub enum RunError {
    /// The left operand's text does not denote a matrix.
    ParseA(MatrixError),
    /// The right operand's text does not denote a matrix.
    ParseB(MatrixError),
    /// The operands do not multiply.
    Multiply(MultiplyError),
}

/// The number of workers the command-line pipeline always requests.
pub open spec fn spec_run_workers() -> nat {
    10
}

/// The whole pipeline as a function of the two operands' text: parse both,
/// multiply with the fixed worker count, render the product.
pub open spec fn run_spec(la: Seq<Seq<char>>, lb: Seq<Seq<char>>) -> Result<Seq<char>, RunError> {
    match parse_lines(la) {
        Err(e) => Err(RunError::ParseA(e)),
        Ok(a) => match parse_lines(lb) {
            Err(e) => Err(RunError::ParseB(e)),
            Ok(b) => match multiply_spec(a, b, spec_run_workers()) {
                Err(e) => Err(RunError::Multiply(e)),
                Ok(c) => Ok(text_of(c)),
            },
        },
    }
}

/// Parses both operands from their lines, multiplies them across the fixed
/// worker count, and renders the product in the text format.
pub fn run(lines_a: Vec<&str>, lines_b: Vec<&str>) -> (r: Result<String, RunError>)
    ensures
        r matches Ok(s) ==> run_spec(lines_a.deep_view(), lines_b.deep_view()) == Ok::<
            Seq<char>,
            RunError,
        >(s@),
        r matches Err(e) ==> run_spec(lines_a.deep_view(), lines_b.deep_view()) == Err::<
            Seq<char>,
            RunError,
        >(e),
{
    let matrix_a = match Matrix::from_vec(lines_a) {
        Ok(m) => m,
        Err(e) => {
            return Err(RunError::ParseA(e));
        },
    };
    let matrix_b = match Matrix::from_vec(lines_b) {
        Ok(m) => m,
        Err(e) => {
            return Err(RunError::ParseB(e));
        },
    };
    let matrix_c = match multiply(&matrix_a, &matrix_b, 10) {
        Ok(m) => m,
        Err(e) => {
            return Err(RunError::Multiply(e));
        },
    };
    Ok(matrix_c.to_text())
}

/// The three file names the command line hands the pipeline.
#[derive(Debug)]
pub struct Config {
    pub matrix_a_file_name: String,
    pub matrix_b_file_name: String,
    pub matrix_c_file_name: String,
}

/// Which file name the argument list is missing.
#[derive(Debug, Clone, Copy, PartialEq, Eq, Structural)]
pub enum ConfigError {
    MissingMatrixAFileName,
    MissingMatrixBFileName,
    MissingMatrixCFileName,
}

impl Config {
    /// Reads the three file names from the argument list, skipping the
    /// leading program name.
    pub fn from_iter(args: Vec<String>) -> (r: Result<Config, ConfigError>)
        ensures
            args@.len() <= 1 ==> (r matches Err(e) && e == ConfigError::MissingMatrixAFileName),
            args@.len() == 2 ==> (r matches Err(e) && e == ConfigError::MissingMatrixBFileName),
            args@.len() == 3 ==> (r matches Err(e) && e == ConfigError::MissingMatrixCFileName),
            args@.len() >= 4 ==> (r matches Ok(c) && c.matrix_a_file_name@ == args@[1]@
                && c.matrix_b_file_name@ == args@[2]@ && c.matrix_c_file_name@ == args@[3]@),
    {
        if args.len() <= 1 {
            return Err(ConfigError::MissingMatrixAFileName);
        }
        if args.len() == 2 {
            return Err(ConfigError::MissingMatrixBFileName);
        }
        if args.len() == 3 {
            return Err(ConfigError::MissingMatrixCFileName);
        }
        let matrix_a_file_name = args[1].clone();
        let matrix_b_file_name = args[2].clone();
        let matrix_c_file_name = args[3].clone();
        Ok(Config { matrix_a_file_name, matrix_b_file_name, matrix_c_file_name })
    }
}

/// Law: determinism — `multiply`'s contract pins its outcome to a function
/// of the operands and the worker count alone, so repeated calls on
/// identical inputs agree, and equal product matrices render to
/// byte-identical text.
pub proof fn lemma_multiply_deterministic(
    a: MatrixModel,
    b: MatrixModel,
    t: nat,
    r1: Result<MatrixModel, MultiplyError>,
    r2: Result<MatrixModel, MultiplyError>,
)
    requires
        r1 == multiply_spec(a, b, t),
        r2 == multiply_spec(a, b, t),
    ensures
        r1 == r2,
        r1 matches Ok(m1) ==> r2 matches Ok(m2) && text_of(m1) == text_of(m2),
{
}

} // verus!
