//! Row-major addressing: where a cell of a rectangle lives in a flat buffer.
use vstd::prelude::*;

verus! {

/// Flat offset of cell `(col, row)` when consecutive rows start `stride` cells apart.
pub open spec fn flat_index(stride: int, col: int, row: int) -> int {
    row * stride + col
}

/// Number of buffer cells from the first to the last cell of a `cols` x `rows`
/// rectangle whose rows start `stride` apart.
pub open spec fn span_len(stride: int, cols: int, rows: int) -> int {
    if rows <= 0 {
        0
    } else {
        (rows - 1) * stride + cols
    }
}

/// The rows of a `cols` x `rows` rectangle stored in `data` with row stride `stride`.
pub open spec fn strided_rows<T>(data: Seq<T>, stride: int, cols: int, rows: int) -> Seq<Seq<T>> {
    Seq::new(rows as nat, |r: int| data.subrange(r * stride, r * stride + cols))
}

/// The cells of a grid in row-major order.
pub open spec fn flatten_rows<T>(rows: Seq<Seq<T>>) -> Seq<T>
    decreases rows.len(),
{
    if rows.len() == 0 {
        Seq::empty()
    } else {
        flatten_rows(rows.drop_last()) + rows.last()
    }
}

/// Offsets below the rectangle's span are valid, and cells of distinct
/// coordinates never share an offset.
pub proof fn lemma_strided_index(stride: int, cols: int, rows: int, c1: int, r1: int, c2: int, r2: int)
    requires
        0 <= cols <= stride,
        0 <= c1 < cols,
        0 <= r1 < rows,
        0 <= c2 < cols,
        0 <= r2 < rows,
    ensures
        0 <= flat_index(stride, c1, r1) < span_len(stride, cols, rows),
        flat_index(stride, c1, r1) == flat_index(stride, c2, r2) ==> c1 == c2 && r1 == r2,
        r1 < r2 ==> flat_index(stride, 0, r1) + cols <= flat_index(stride, 0, r2),
{
    assert(0 <= r1 * stride) by (nonlinear_arith)
        requires
            0 <= r1,
            0 <= stride,
    ;
    assert(r1 * stride <= (rows - 1) * stride) by (nonlinear_arith)
        requires
            r1 <= rows - 1,
            0 <= stride,
    ;
    if r1 < r2 {
        assert((r1 + 1) * stride <= r2 * stride) by (nonlinear_arith)
            requires
                r1 + 1 <= r2,
                0 <= stride,
        ;
        assert((r1 + 1) * stride == r1 * stride + stride) by (nonlinear_arith);
    }
    if r2 < r1 {
        assert((r2 + 1) * stride <= r1 * stride) by (nonlinear_arith)
            requires
                r2 + 1 <= r1,
                0 <= stride,
        ;
        assert((r2 + 1) * stride == r2 * stride + stride) by (nonlinear_arith);
    }
}

/// The addressing law of a grid with `cols` columns and `rows` rows: each cell's
/// offset is below `cols * rows`, and no two cells share one.
pub proof fn lemma_index_injective(cols: int, rows: int, c1: int, r1: int, c2: int, r2: int)
    requires
        0 <= c1 < cols,
        0 <= r1 < rows,
        0 <= c2 < cols,
        0 <= r2 < rows,
    ensures
        0 <= flat_index(cols, c1, r1) < cols * rows,
        flat_index(cols, c1, r1) == flat_index(cols, c2, r2) <==> (c1 == c2 && r1 == r2),
{
    lemma_strided_index(cols, cols, rows, c1, r1, c2, r2);
    assert((rows - 1) * cols + cols == cols * rows) by (nonlinear_arith);
}

/// Writing one cell of the buffer changes exactly that cell of the rectangle.
pub proof fn lemma_strided_update<T>(data: Seq<T>, stride: int, cols: int, rows: int, c: int, r: int, v: T)
    requires
        0 <= cols <= stride,
        0 <= c < cols,
        0 <= r < rows,
        span_len(stride, cols, rows) <= data.len(),
    ensures
        strided_rows(data.update(flat_index(stride, c, r), v), stride, cols, rows)
            == strided_rows(data, stride, cols, rows).update(
            r,
            strided_rows(data, stride, cols, rows)[r].update(c, v),
        ),
{
    let old_rows = strided_rows(data, stride, cols, rows);
    let new_rows = strided_rows(data.update(flat_index(stride, c, r), v), stride, cols, rows);
    let expect = old_rows.update(r, old_rows[r].update(c, v));
    assert forall|r2: int| 0 <= r2 < rows implies #[trigger] new_rows[r2] == expect[r2] by {
        lemma_strided_index(stride, cols, rows, c, r, 0, r2);
        lemma_strided_index(stride, cols, rows, cols - 1, r2, 0, r2);
        if r2 != r {
            if r < r2 {
                lemma_strided_index(stride, cols, rows, c, r, 0, r2);
            } else {
                lemma_strided_index(stride, cols, rows, cols - 1, r2, 0, r);
            }
        }
        assert(new_rows[r2] =~= expect[r2]);
    }
    assert(new_rows =~= expect);
}

/// Row `r` of the rectangle is a slice of the buffer starting at the row's offset.
pub proof fn lemma_strided_row<T>(data: Seq<T>, stride: int, cols: int, rows: int, r: int)
    requires
        0 <= cols <= stride,
        0 <= r < rows,
        span_len(stride, cols, rows) <= data.len(),
    ensures
        0 <= r * stride,
        r * stride + cols <= span_len(stride, cols, rows),
        strided_rows(data, stride, cols, rows)[r] == data.subrange(r * stride, r * stride + cols),
{
    assert(0 <= r * stride) by (nonlinear_arith)
        requires
            0 <= r,
            0 <= stride,
    ;
    assert(r * stride <= (rows - 1) * stride) by (nonlinear_arith)
        requires
            r <= rows - 1,
            0 <= stride,
    ;
}

/// Dropping the first `k` rows of a strided rectangle, with the gaps after
/// them, leaves a strided rectangle of the remaining rows.
pub proof fn lemma_strided_skip<T>(data: Seq<T>, stride: int, cols: int, n: int, k: int)
    requires
        0 < cols <= stride,
        0 < k < n,
        data.len() == span_len(stride, cols, n),
    ensures
        k * stride < data.len(),
        span_len(stride, cols, n - k) == data.len() - k * stride,
        strided_rows(data.subrange(k * stride, data.len() as int), stride, cols, n - k)
            == strided_rows(data, stride, cols, n).subrange(k, n),
{
    assert(k * stride <= (n - 1) * stride) by (nonlinear_arith)
        requires
            k <= n - 1,
            stride >= 0,
    ;
    let tail = data.subrange(k * stride, data.len() as int);
    assert((n - 1) * stride == (k - 1) * stride + (n - k) * stride) by (nonlinear_arith);
    assert(k * stride == (k - 1) * stride + stride) by (nonlinear_arith);
    assert((n - k - 1) * stride == (n - 1) * stride - k * stride) by (nonlinear_arith);
    assert(0 <= (n - k - 1) * stride) by (nonlinear_arith)
        requires
            n - k - 1 >= 0,
            stride >= 0,
    ;
    let lhs = strided_rows(tail, stride, cols, n - k);
    let rhs = strided_rows(data, stride, cols, n).subrange(k, n);
    assert forall|r: int| 0 <= r < n - k implies #[trigger] lhs[r] == rhs[r] by {
        assert((r + k) * stride == r * stride + k * stride) by (nonlinear_arith);
        assert(0 <= r * stride) by (nonlinear_arith)
            requires
                0 <= r,
                0 <= stride,
        ;
        assert(r * stride <= (n - k - 1) * stride) by (nonlinear_arith)
            requires
                r <= n - k - 1,
                0 <= stride,
        ;
        assert(lhs[r] =~= rhs[r]);
    }
    assert(lhs =~= rhs);
}

/// Keeping the first `m` rows of a strided rectangle keeps its prefix up to
/// the end of row `m - 1`.
pub proof fn lemma_strided_prefix<T>(data: Seq<T>, stride: int, cols: int, n: int, m: int)
    requires
        0 <= cols <= stride,
        0 <= m <= n,
        data.len() == span_len(stride, cols, n),
    ensures
        0 <= span_len(stride, cols, m) <= data.len(),
        0 < m ==> span_len(stride, cols, m) == data.len() - (n - m) * stride,
        strided_rows(data.subrange(0, span_len(stride, cols, m)), stride, cols, m)
            == strided_rows(data, stride, cols, n).subrange(0, m),
{
    let p = span_len(stride, cols, m);
    if m > 0 {
        assert((m - 1) * stride <= (n - 1) * stride) by (nonlinear_arith)
            requires
                m <= n,
                stride >= 0,
        ;
        assert(0 <= (m - 1) * stride) by (nonlinear_arith)
            requires
                m >= 1,
                stride >= 0,
        ;
        assert((m - 1) * stride + (n - m) * stride == (n - 1) * stride) by (nonlinear_arith);
    } else {
        if n > 0 {
            assert((n - 1) * stride + stride == n * stride) by (nonlinear_arith);
            assert(0 <= (n - 1) * stride) by (nonlinear_arith)
                requires
                    n >= 1,
                    stride >= 0,
            ;
        }
    }
    let lhs = strided_rows(data.subrange(0, p), stride, cols, m);
    let rhs = strided_rows(data, stride, cols, n).subrange(0, m);
    assert forall|r: int| 0 <= r < m implies #[trigger] lhs[r] == rhs[r] by {
        assert(0 <= r * stride) by (nonlinear_arith)
            requires
                0 <= r,
                0 <= stride,
        ;
        assert(r * stride <= (m - 1) * stride) by (nonlinear_arith)
            requires
                r <= m - 1,
                0 <= stride,
        ;
        assert(lhs[r] =~= rhs[r]);
    }
    assert(lhs =~= rhs);
}

/// Once `k` reaches the row count, `k` rows with their gaps cover the whole span.
pub proof fn lemma_strided_past_end(stride: int, cols: int, n: int, k: int)
    requires
        0 <= cols <= stride,
        0 <= n <= k,
    ensures
        k * stride >= span_len(stride, cols, n),
{
    assert(k * stride >= n * stride) by (nonlinear_arith)
        requires
            k >= n,
            stride >= 0,
    ;
    if n > 0 {
        assert(n * stride == (n - 1) * stride + stride) by (nonlinear_arith);
    }
}

/// Flattening distributes over concatenation of row sequences.
pub proof fn lemma_flatten_concat<T>(a: Seq<Seq<T>>, b: Seq<Seq<T>>)
    ensures
        flatten_rows(a + b) == flatten_rows(a) + flatten_rows(b),
    decreases b.len(),
{
    if b.len() == 0 {
        assert(a + b =~= a);
        assert(flatten_rows(a) + flatten_rows(b) =~= flatten_rows(a));
    } else {
        assert((a + b).drop_last() =~= a + b.drop_last());
        assert((a + b).last() == b.last());
        lemma_flatten_concat(a, b.drop_last());
        assert(flatten_rows(a + b) =~= flatten_rows(a) + flatten_rows(b));
    }
}

/// Flattening one row gives that row.
pub proof fn lemma_flatten_single<T>(row: Seq<T>)
    ensures
        flatten_rows(seq![row]) == row,
{
    let one = seq![row];
    assert(one.drop_last() =~= Seq::<Seq<T>>::empty());
    assert(one.last() == row);
    assert(flatten_rows(Seq::<Seq<T>>::empty()) == Seq::<T>::empty());
    assert(flatten_rows(one) == flatten_rows(one.drop_last()) + one.last());
    assert(flatten_rows(one) =~= row);
}

/// The first row comes first in the flattened cells.
pub proof fn lemma_flatten_first<T>(rows: Seq<Seq<T>>)
    requires
        rows.len() > 0,
    ensures
        flatten_rows(rows) == rows[0] + flatten_rows(rows.drop_first()),
{
    assert(rows =~= seq![rows[0]] + rows.drop_first());
    lemma_flatten_concat(seq![rows[0]], rows.drop_first());
    lemma_flatten_single(rows[0]);
}

/// Rows of `cols` cells each flatten to `rows.len() * cols` cells.
pub proof fn lemma_flatten_len<T>(rows: Seq<Seq<T>>, cols: nat)
    requires
        forall|r: int| 0 <= r < rows.len() ==> #[trigger] rows[r].len() == cols,
    ensures
        flatten_rows(rows).len() == rows.len() * cols,
    decreases rows.len(),
{
    if rows.len() > 0 {
        lemma_flatten_len(rows.drop_last(), cols);
        assert(rows.len() * cols == (rows.len() - 1) * cols + cols) by (nonlinear_arith);
    }
}

/// Splitting the rows at `k` splits the flattened cells at `k * cols`.
pub proof fn lemma_flatten_split<T>(rows: Seq<Seq<T>>, cols: nat, k: int)
    requires
        0 <= k <= rows.len(),
        forall|r: int| 0 <= r < rows.len() ==> #[trigger] rows[r].len() == cols,
    ensures
        flatten_rows(rows) == flatten_rows(rows.subrange(0, k)) + flatten_rows(rows.subrange(k, rows.len() as int)),
        flatten_rows(rows.subrange(0, k)).len() == k * cols,
{
    assert(rows =~= rows.subrange(0, k) + rows.subrange(k, rows.len() as int));
    lemma_flatten_concat(rows.subrange(0, k), rows.subrange(k, rows.len() as int));
    lemma_flatten_len(rows.subrange(0, k), cols);
}

/// The flattened cells around row `k`: the rows before it, the row, the rows after it.
pub proof fn lemma_flatten_at<T>(rows: Seq<Seq<T>>, cols: nat, k: int)
    requires
        0 <= k < rows.len(),
        forall|r: int| 0 <= r < rows.len() ==> #[trigger] rows[r].len() == cols,
    ensures
        flatten_rows(rows) == flatten_rows(rows.subrange(0, k)) + rows[k] + flatten_rows(
            rows.subrange(k + 1, rows.len() as int),
        ),
        flatten_rows(rows.subrange(0, k)).len() == k * cols,
        flatten_rows(rows.subrange(k + 1, rows.len() as int)).len() == (rows.len() - k - 1) * cols,
{
    lemma_flatten_split(rows, cols, k);
    let tail = rows.subrange(k, rows.len() as int);
    lemma_flatten_first(tail);
    assert(tail.drop_first() =~= rows.subrange(k + 1, rows.len() as int));
    lemma_flatten_len(rows.subrange(k + 1, rows.len() as int), cols);
    assert(flatten_rows(rows) =~= flatten_rows(rows.subrange(0, k)) + rows[k] + flatten_rows(
        rows.subrange(k + 1, rows.len() as int),
    ));
}

/// A rectangle cut from a strided rectangle, starting at `(c0, r0)`, is itself
/// strided with the same stride, over the buffer slice from its first cell.
pub proof fn lemma_strided_sub<T>(
    data: Seq<T>,
    stride: int,
    cols: int,
    rows: int,
    c0: int,
    r0: int,
    sub_cols: int,
    sub_rows: int,
)
    requires
        0 <= cols <= stride,
        0 <= c0,
        0 <= r0,
        0 <= sub_cols,
        0 <= sub_rows,
        c0 + sub_cols <= cols,
        r0 + sub_rows <= rows,
        span_len(stride, cols, rows) <= data.len(),
        sub_rows > 0 ==> sub_cols > 0,
    ensures
        0 <= flat_index(stride, c0, r0),
        sub_rows > 0 ==> flat_index(stride, c0, r0) + span_len(stride, sub_cols, sub_rows) <= span_len(
            stride,
            cols,
            rows,
        ),
        strided_rows(
            data.subrange(
                flat_index(stride, c0, r0),
                flat_index(stride, c0, r0) + span_len(stride, sub_cols, sub_rows),
            ),
            stride,
            sub_cols,
            sub_rows,
        ) == Seq::new(
            sub_rows as nat,
            |r: int| strided_rows(data, stride, cols, rows)[r0 + r].subrange(c0, c0 + sub_cols),
        ),
{
    let off = flat_index(stride, c0, r0);
    assert(0 <= r0 * stride) by (nonlinear_arith)
        requires
            0 <= r0,
            0 <= stride,
    ;
    if sub_rows > 0 {
        assert(r0 * stride + (sub_rows - 1) * stride == (r0 + sub_rows - 1) * stride) by (nonlinear_arith);
        assert((r0 + sub_rows - 1) * stride <= (rows - 1) * stride) by (nonlinear_arith)
            requires
                r0 + sub_rows <= rows,
                stride >= 0,
        ;
        assert(0 <= (sub_rows - 1) * stride) by (nonlinear_arith)
            requires
                sub_rows >= 1,
                stride >= 0,
        ;
    }
    let sub = data.subrange(off, off + span_len(stride, sub_cols, sub_rows));
    let lhs = strided_rows(sub, stride, sub_cols, sub_rows);
    let rhs = Seq::new(
        sub_rows as nat,
        |r: int| strided_rows(data, stride, cols, rows)[r0 + r].subrange(c0, c0 + sub_cols),
    );
    assert forall|r: int| 0 <= r < sub_rows implies #[trigger] lhs[r] == rhs[r] by {
        assert(r0 * stride + r * stride == (r0 + r) * stride) by (nonlinear_arith);
        assert(0 <= r * stride) by (nonlinear_arith)
            requires
                0 <= r,
                0 <= stride,
        ;
        assert(r * stride <= (sub_rows - 1) * stride) by (nonlinear_arith)
            requires
                r <= sub_rows - 1,
                stride >= 0,
        ;
        lemma_strided_row(data, stride, cols, rows, r0 + r);
        assert(lhs[r] =~= rhs[r]);
    }
    assert(lhs =~= rhs);
}

/// `data` with the cells from `at` on overwritten by `new`.
pub open spec fn replace_span<T>(data: Seq<T>, at: int, new: Seq<T>) -> Seq<T> {
    data.subrange(0, at) + new + data.subrange(at + new.len(), data.len() as int)
}

/// Overwriting the buffer cells of row `r` with `row` replaces that row of the rectangle.
pub proof fn lemma_strided_set_row<T>(data: Seq<T>, stride: int, cols: int, rows: int, r: int, row: Seq<T>)
    requires
        0 <= cols <= stride,
        0 <= r < rows,
        row.len() == cols,
        span_len(stride, cols, rows) <= data.len(),
    ensures
        0 <= r * stride,
        r * stride + cols <= span_len(stride, cols, rows),
        replace_span(data, r * stride, row).len() == data.len(),
        strided_rows(replace_span(data, r * stride, row), stride, cols, rows) == strided_rows(
            data,
            stride,
            cols,
            rows,
        ).update(r, row),
{
    lemma_strided_row(data, stride, cols, rows, r);
    let nd = replace_span(data, r * stride, row);
    let lhs = strided_rows(nd, stride, cols, rows);
    let rhs = strided_rows(data, stride, cols, rows).update(r, row);
    assert forall|r2: int| 0 <= r2 < rows implies #[trigger] lhs[r2] == rhs[r2] by {
        lemma_strided_row(data, stride, cols, rows, r2);
        if cols > 0 {
            if r2 < r {
                lemma_strided_index(stride, cols, rows, 0, r2, 0, r);
            } else if r < r2 {
                lemma_strided_index(stride, cols, rows, 0, r, 0, r2);
            }
        }
        assert(lhs[r2] =~= rhs[r2]);
    }
    assert(lhs =~= rhs);
}

/// Row `row` of the rectangle stored in `s`, borrowed for writing.
pub(crate) fn strided_row_mut<'b, T>(s: &'b mut [T], stride: usize, cols: usize, rows: Ghost<int>, row: usize) -> (r: &'b mut [T])
    requires
        cols <= stride,
        row < rows@,
        span_len(stride as int, cols as int, rows@) <= old(s)@.len(),
    ensures
        r@ == strided_rows(old(s)@, stride as int, cols as int, rows@)[row as int],
        final(r)@.len() == cols ==> final(s)@ == replace_span(old(s)@, row * stride, final(r)@),
        row * stride + cols <= old(s)@.len(),
{
    let _len = s.len();
    proof {
        lemma_strided_row(s@, stride as int, cols as int, rows@, row as int);
    }
    let start = row * stride;
    let (a, rest) = s.split_at_mut(start);
    let (r, c) = rest.split_at_mut(cols);
    proof {
        assert(has_resolved(a));
        assert(has_resolved(c));
    }
    r
}

/// Rows `r1 < r2` of the rectangle stored in `s`, borrowed for writing together.
pub(crate) fn strided_row_pair_mut<'b, T>(
    s: &'b mut [T],
    stride: usize,
    cols: usize,
    rows: Ghost<int>,
    r1: usize,
    r2: usize,
) -> (r: (&'b mut [T], &'b mut [T]))
    requires
        cols <= stride,
        r1 < r2 < rows@,
        span_len(stride as int, cols as int, rows@) <= old(s)@.len(),
    ensures
        r.0@ == strided_rows(old(s)@, stride as int, cols as int, rows@)[r1 as int],
        r.1@ == strided_rows(old(s)@, stride as int, cols as int, rows@)[r2 as int],
        final(r.0)@.len() == cols && final(r.1)@.len() == cols ==> final(s)@ == replace_span(
            replace_span(old(s)@, r1 * stride, final(r.0)@),
            r2 * stride,
            final(r.1)@,
        ),
{
    let _len = s.len();
    proof {
        lemma_strided_row(s@, stride as int, cols as int, rows@, r1 as int);
        lemma_strided_row(s@, stride as int, cols as int, rows@, r2 as int);
        assert(r1 * stride + stride <= r2 * stride) by (nonlinear_arith)
            requires
                r1 < r2,
                stride >= 0,
        ;
    }
    let (a, b) = s.split_at_mut(r2 * stride);
    let (a1, a2) = a.split_at_mut(r1 * stride);
    let (x, a3) = a2.split_at_mut(cols);
    let (y, b2) = b.split_at_mut(cols);
    proof {
        assert(has_resolved(a1));
        assert(has_resolved(a3));
        assert(has_resolved(b2));
    }
    (x, y)
}

/// Cell `(col, row)` of the rectangle stored in `s`, borrowed for writing.
pub(crate) fn strided_cell_mut<'b, T>(s: &'b mut [T], stride: usize, cols: usize, rows: Ghost<int>, col: usize, row: usize) -> (r: &'b mut T)
    requires
        cols <= stride,
        col < cols,
        row < rows@,
        span_len(stride as int, cols as int, rows@) <= old(s)@.len(),
    ensures
        *r == strided_rows(old(s)@, stride as int, cols as int, rows@)[row as int][col as int],
        final(s)@ == old(s)@.update(row * stride + col, *final(r)),
        row * stride + col < old(s)@.len(),
{
    let _len = s.len();
    proof {
        lemma_strided_row(s@, stride as int, cols as int, rows@, row as int);
    }
    let (a, rest) = s.split_at_mut(row * stride + col);
    proof {
        assert(has_resolved(a));
    }
    rest.first_mut().unwrap()
}

/// Reading back the rows of a flattened grid gives the grid.
pub proof fn lemma_dense_rows<T>(cells: Seq<Seq<T>>, cols: nat)
    requires
        forall|r: int| 0 <= r < cells.len() ==> #[trigger] cells[r].len() == cols,
    ensures
        strided_rows(flatten_rows(cells), cols as int, cols as int, cells.len() as int) == cells,
        flatten_rows(cells).len() == cells.len() * cols,
{
    lemma_flatten_len(cells, cols);
    let lhs = strided_rows(flatten_rows(cells), cols as int, cols as int, cells.len() as int);
    assert forall|r: int| 0 <= r < cells.len() implies #[trigger] lhs[r] == cells[r] by {
        lemma_flatten_at(cells, cols, r);
        assert(lhs[r] =~= cells[r]);
    }
    assert(lhs =~= cells);
}

/// Flattening the rows of a dense buffer gives the buffer.
pub proof fn lemma_dense_flatten<T>(data: Seq<T>, cols: nat, rows: nat)
    requires
        data.len() == cols * rows,
    ensures
        flatten_rows(strided_rows(data, cols as int, cols as int, rows as int)) == data,
    decreases rows,
{
    let cells = strided_rows(data, cols as int, cols as int, rows as int);
    if rows == 0 {
        assert(cols * rows == 0) by (nonlinear_arith)
            requires
                rows == 0,
        ;
        assert(data =~= Seq::<T>::empty());
        assert(cells =~= Seq::<Seq<T>>::empty());
    } else {
        let m = (rows - 1) as nat;
        assert(cols * rows == cols * m + cols) by (nonlinear_arith)
            requires
                m == rows - 1,
        ;
        assert(span_len(cols as int, cols as int, rows as int) == data.len()) by {
            assert((rows - 1) * cols == cols * m) by (nonlinear_arith)
                requires
                    m == rows - 1,
            ;
        }
        lemma_strided_prefix(data, cols as int, cols as int, rows as int, m as int);
        let prefix = data.subrange(0, span_len(cols as int, cols as int, m as int));
        assert(span_len(cols as int, cols as int, m as int) == cols * m) by {
            if m > 0 {
                assert((m - 1) * cols + cols == cols * m) by (nonlinear_arith);
            }
        }
        lemma_dense_flatten(prefix, cols, m);
        assert(cells.drop_last() =~= cells.subrange(0, m as int));
        lemma_strided_row(data, cols as int, cols as int, rows as int, m as int);
        assert((m as int) * (cols as int) == cols * m) by (nonlinear_arith);
        assert(flatten_rows(cells) =~= data);
    }
}


/// Overwriting two distinct rows of the buffer replaces those two rows of the rectangle.
proof fn lemma_two_rows<T>(d: Seq<T>, stride: int, cols: int, rows: int, a: int, b: int, x: Seq<T>, y: Seq<T>)
    requires
        0 <= cols <= stride,
        0 <= a < rows,
        0 <= b < rows,
        a != b,
        x.len() == cols,
        y.len() == cols,
        span_len(stride, cols, rows) <= d.len(),
    ensures
        replace_span(replace_span(d, a * stride, x), b * stride, y).len() == d.len(),
        strided_rows(replace_span(replace_span(d, a * stride, x), b * stride, y), stride, cols, rows)
            == strided_rows(d, stride, cols, rows).update(a, x).update(b, y),
        strided_rows(d, stride, cols, rows).update(a, x).update(b, y) == strided_rows(d, stride, cols, rows).update(
            b,
            y,
        ).update(a, x),
{
    assert(strided_rows(d, stride, cols, rows).update(a, x).update(b, y) =~= strided_rows(d, stride, cols, rows).update(
        b,
        y,
    ).update(a, x));
    lemma_strided_set_row(d, stride, cols, rows, a, x);
    lemma_strided_set_row(replace_span(d, a * stride, x), stride, cols, rows, b, y);
}

/// Two distinct rows `r1` and `r2` of the rectangle stored in `s`, in the
/// order asked for, borrowed for writing together.
pub(crate) fn strided_two_rows_mut<'b, T>(
    s: &'b mut [T],
    stride: usize,
    cols: usize,
    rows: Ghost<int>,
    r1: usize,
    r2: usize,
) -> (r: (&'b mut [T], &'b mut [T]))
    requires
        cols <= stride,
        r1 < rows@,
        r2 < rows@,
        r1 != r2,
        span_len(stride as int, cols as int, rows@) <= old(s)@.len(),
    ensures
        r.0@ == strided_rows(old(s)@, stride as int, cols as int, rows@)[r1 as int],
        r.1@ == strided_rows(old(s)@, stride as int, cols as int, rows@)[r2 as int],
        final(r.0)@.len() == cols && final(r.1)@.len() == cols ==> final(s)@.len() == old(s)@.len(),
        final(r.0)@.len() == cols && final(r.1)@.len() == cols ==> strided_rows(final(s)@, stride as int, cols as int, rows@) == strided_rows(
            old(s)@,
            stride as int,
            cols as int,
            rows@,
        ).update(r1 as int, final(r.0)@).update(r2 as int, final(r.1)@),
{
    let ghost d = s@;
    proof {
        assert forall|a: int, b: int, x: Seq<T>, y: Seq<T>|
            0 <= a < rows@ && 0 <= b < rows@ && a != b && x.len() == cols && y.len() == cols implies
            #[trigger] strided_rows(replace_span(replace_span(d, a * stride, x), b * stride, y), stride as int, cols as int, rows@)
                == strided_rows(d, stride as int, cols as int, rows@).update(a, x).update(b, y)
            && strided_rows(d, stride as int, cols as int, rows@).update(a, x).update(b, y)
                == strided_rows(d, stride as int, cols as int, rows@).update(b, y).update(a, x)
            && replace_span(replace_span(d, a * stride, x), b * stride, y).len() == d.len() by {
            lemma_two_rows(d, stride as int, cols as int, rows@, a, b, x, y);
        }
    }
    if r1 < r2 {
        let (a, b) = strided_row_pair_mut(s, stride, cols, rows, r1, r2);
        assert(final(a)@.len() == cols && final(b)@.len() == cols ==> strided_rows(
            replace_span(replace_span(d, r1 * stride, final(a)@), r2 * stride, final(b)@),
            stride as int,
            cols as int,
            rows@,
        ) == strided_rows(d, stride as int, cols as int, rows@).update(r1 as int, final(a)@).update(r2 as int, final(b)@));
        (a, b)
    } else {
        let (b, a) = strided_row_pair_mut(s, stride, cols, rows, r2, r1);
        assert(final(a)@.len() == cols && final(b)@.len() == cols ==> strided_rows(
            replace_span(replace_span(d, r2 * stride, final(b)@), r1 * stride, final(a)@),
            stride as int,
            cols as int,
            rows@,
        ) == strided_rows(d, stride as int, cols as int, rows@).update(r2 as int, final(b)@).update(r1 as int, final(a)@));
        (a, b)
    }
}


/// The cells `start .. start + len` of `s`, borrowed for writing.
pub(crate) fn span_mut<'b, T>(s: &'b mut [T], start: usize, len: usize) -> (r: &'b mut [T])
    requires
        start + len <= old(s)@.len(),
    ensures
        r@ == old(s)@.subrange(start as int, start + len),
        final(r)@.len() == len ==> final(s)@ == replace_span(old(s)@, start as int, final(r)@),
{
    let (a, rest) = s.split_at_mut(start);
    let (r, c) = rest.split_at_mut(len);
    proof {
        assert(has_resolved(a));
        assert(has_resolved(c));
    }
    r
}

} // verus!
