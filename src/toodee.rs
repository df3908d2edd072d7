//! The owning two-dimensional array.
use vstd::prelude::*;

use std::collections::VecDeque;

use crate::iter::{Col, ColMut, Rows, RowsMut};
use crate::layout::{
    flatten_rows, lemma_dense_flatten, lemma_dense_rows, lemma_flatten_at, lemma_flatten_concat,
    lemma_flatten_single, lemma_flatten_split, lemma_strided_row, lemma_strided_set_row,
    lemma_strided_sub, lemma_strided_update, replace_span, span_len, strided_cell_mut,
    span_mut, strided_row_mut, strided_rows, strided_two_rows_mut,
};
use crate::ops::{Coordinate, Grid, TooDeeOps, TooDeeOpsMut};
use crate::view::{calculate_view_dimensions, TooDeeView, TooDeeViewMut};

verus! {

/// A two-dimensional array stored row by row in one `Vec`. An empty array
/// always has both dimensions zero.
pub struct TooDee<T> {
    data: Vec<T>,
    num_rows: usize,
    num_cols: usize,
}

/// The grid whose rows, each `cols` cells, are laid end to end in `data`.
pub open spec fn dense_grid<T>(data: Seq<T>, cols: nat, rows: nat) -> Grid<T> {
    Grid { cols, rows, cells: strided_rows(data, cols as int, cols as int, rows as int) }
}

/// A `cols` x `rows` grid whose every cell is a clone of `v`.
pub open spec fn filled_with<T: Clone>(g: Grid<T>, v: T) -> bool {
    forall|r: int, c: int| 0 <= r < g.rows && 0 <= c < g.cols ==> cloned(v, #[trigger] g.cells[r][c])
}

/// Dimensions that an array can have: both zero or neither, with a size that fits in `usize`.
pub open spec fn valid_dims(cols: nat, rows: nat) -> bool {
    &&& (cols == 0 || rows == 0 ==> cols == rows)
    &&& cols * rows <= usize::MAX
}

/// The grid with `row` inserted as row `index`; an empty grid takes its width from the row.
pub open spec fn row_inserted<T>(g: Grid<T>, index: int, row: Seq<T>) -> Grid<T> {
    Grid { cols: row.len(), rows: g.rows + 1, cells: g.cells.insert(index, row) }
}

/// The grid without row `index`; without its last row a grid has no columns either.
pub open spec fn row_removed<T>(g: Grid<T>, index: int) -> Grid<T> {
    Grid { cols: if g.rows == 1 { 0 } else { g.cols }, rows: (g.rows - 1) as nat, cells: g.cells.remove(index) }
}

/// The grid with `col` inserted as column `index`; an empty grid takes its height from the column.
pub open spec fn col_inserted<T>(g: Grid<T>, index: int, col: Seq<T>) -> Grid<T> {
    Grid {
        cols: g.cols + 1,
        rows: col.len(),
        cells: Seq::new(
            col.len(),
            |r: int| if g.cols == 0 { seq![col[r]] } else { g.cells[r].insert(index, col[r]) },
        ),
    }
}

/// The grid without column `index`; without its last column a grid has no rows either.
pub open spec fn col_removed<T>(g: Grid<T>, index: int) -> Grid<T> {
    if g.cols == 1 {
        Grid { cols: 0, rows: 0, cells: Seq::empty() }
    } else {
        Grid { cols: (g.cols - 1) as nat, rows: g.rows, cells: Seq::new(g.rows, |r: int| g.cells[r].remove(index)) }
    }
}

/// Inserting a row and then removing the row at the same index gives back the
/// grid, and the removed row is the inserted one.
pub proof fn lemma_row_round_trip<T>(g: Grid<T>, index: int, row: Seq<T>)
    requires
        g.wf(),
        0 <= index <= g.rows,
        row.len() > 0,
        g.rows > 0 ==> row.len() == g.cols,
    ensures
        row_inserted(g, index, row).cells[index] == row,
        row_removed(row_inserted(g, index, row), index) == g,
{
    g.cells.insert_ensures(index, row);
    assert(g.cells.insert(index, row).remove(index) =~= g.cells);
}

/// Inserting a column and then removing the column at the same index gives
/// back the grid, and the removed column is the inserted one.
pub proof fn lemma_col_round_trip<T>(g: Grid<T>, index: int, col: Seq<T>)
    requires
        g.wf(),
        0 <= index <= g.cols,
        col.len() > 0,
        g.cols > 0 ==> col.len() == g.rows,
    ensures
        col_inserted(g, index, col).column(index) == col,
        col_removed(col_inserted(g, index, col), index) == g,
{
    let ins = col_inserted(g, index, col);
    assert forall|r: int| 0 <= r < col.len() implies #[trigger] ins.cells[r][index] == col[r] by {
        if g.cols > 0 {
            g.cells[r].insert_ensures(index, col[r]);
        }
    }
    assert(ins.column(index) =~= col);
    if g.cols == 0 {
        assert(g.cells =~= Seq::<Seq<T>>::empty());
    } else {
        assert forall|r: int| 0 <= r < g.rows implies #[trigger] ins.cells[r].remove(index) == g.cells[r] by {
            assert(g.cells[r].insert(index, col[r]).remove(index) =~= g.cells[r]);
        }
        assert(col_removed(ins, index).cells =~= g.cells);
    }
}

/// Relies on `Vec::capacity`: a vector holds at least its length.
#[verifier::external_body]
fn vec_capacity<T>(v: &Vec<T>) -> (r: usize)
    ensures
        r >= v@.len(),
{
    v.capacity()
}

/// Relies on `Vec::reserve_exact`: the contents stay as they are. It panics
/// when the new capacity overflows `usize` or exceeds `isize::MAX` bytes,
/// which `requires` leaves out.
#[verifier::external_body]
fn vec_reserve_exact<T>(v: &mut Vec<T>, additional: usize)
    requires
        old(v)@.len() + additional <= usize::MAX,
        (old(v)@.len() + additional) * vstd::layout::size_of::<T>() <= isize::MAX,
    ensures
        final(v)@ == old(v)@,
{
    v.reserve_exact(additional)
}

/// Relies on `Vec::shrink_to_fit`: the contents stay as they are.
#[verifier::external_body]
fn vec_shrink_to_fit<T>(v: &mut Vec<T>)
    ensures
        final(v)@ == old(v)@,
{
    v.shrink_to_fit()
}

impl<T> TooDee<T> {
    /// What the array holds.
    pub closed spec fn model(&self) -> Grid<T> {
        dense_grid(self.data@, self.num_cols as nat, self.num_rows as nat)
    }

    /// The buffer holds exactly `cols * rows` cells, and the dimensions are valid.
    pub closed spec fn inv(&self) -> bool {
        &&& self.data@.len() == self.num_cols * self.num_rows
        &&& valid_dims(self.num_cols as nat, self.num_rows as nat)
    }

    proof fn lemma_span(&self)
        requires
            self.inv(),
        ensures
            span_len(self.num_cols as int, self.num_cols as int, self.num_rows as int) == self.data@.len(),
            self.model().wf(),
            flatten_rows(self.model().cells) == self.data@,
    {
        if self.num_rows > 0 {
            assert((self.num_rows - 1) * self.num_cols + self.num_cols == self.num_cols * self.num_rows)
                by (nonlinear_arith);
        } else {
            assert(self.num_cols * self.num_rows == 0) by (nonlinear_arith)
                requires
                    self.num_rows == 0,
            ;
        }
        assert forall|r: int| 0 <= r < self.num_rows implies #[trigger] self.model().cells[r].len()
            == self.num_cols by {
            lemma_strided_row(self.data@, self.num_cols as int, self.num_cols as int, self.num_rows as int, r);
        }
        lemma_dense_flatten(self.data@, self.num_cols as nat, self.num_rows as nat);
    }

    /// An array over `data`, whose length must be `num_cols * num_rows`.
    fn from_parts(num_cols: usize, num_rows: usize, data: Vec<T>) -> (t: TooDee<T>)
        requires
            valid_dims(num_cols as nat, num_rows as nat),
            data@.len() == num_cols * num_rows,
        ensures
            t.inv(),
            t.model() == dense_grid(data@, num_cols as nat, num_rows as nat),
    {
        TooDee { data, num_cols, num_rows }
    }

    /// An array of `num_cols` x `num_rows` default values.
    pub fn new(num_cols: usize, num_rows: usize) -> (t: TooDee<T>) where T: Default + Clone
        requires
            valid_dims(num_cols as nat, num_rows as nat),
        ensures
            t.inv(),
            t.model().cols == num_cols,
            t.model().rows == num_rows,
            exists|d: T| call_ensures(T::default, (), d) && filled_with(t.model(), d),
    {
        let d = T::default();
        let t = TooDee::init(num_cols, num_rows, d);
        assert(call_ensures(T::default, (), d) && filled_with(t.model(), d));
        t
    }

    /// An array of `num_cols` x `num_rows` clones of `init_value`.
    pub fn init(num_cols: usize, num_rows: usize, init_value: T) -> (t: TooDee<T>) where T: Clone
        requires
            valid_dims(num_cols as nat, num_rows as nat),
        ensures
            t.inv(),
            t.model().cols == num_cols,
            t.model().rows == num_rows,
            filled_with(t.model(), init_value),
    {
        let len = num_rows * num_cols;
        let v = vec![init_value; len];
        proof {
            assert(num_rows * num_cols == num_cols * num_rows) by (nonlinear_arith);
        }
        let t = TooDee::from_parts(num_cols, num_rows, v);
        proof {
            t.lemma_span();
            assert forall|r: int, c: int| 0 <= r < num_rows && 0 <= c < num_cols implies cloned(
                init_value,
                #[trigger] t.model().cells[r][c],
            ) by {
                lemma_strided_row(v@, num_cols as int, num_cols as int, num_rows as int, r);
            }
        }
        t
    }

    /// A new array holding clones of the cells of `view`.
    pub fn from_view<S: TooDeeOps<T>>(view: &S) -> (t: TooDee<T>) where T: Clone
        requires
            view.well_formed(),
        ensures
            t.inv(),
            t.model().cols == view.grid().cols,
            t.model().rows == view.grid().rows,
            forall|c: int, r: int|
                0 <= c < view.grid().cols && 0 <= r < view.grid().rows ==> cloned(
                    view.grid().cells[r][c],
                    #[trigger] t.model().cells[r][c],
                ),
    {
        proof {
            view.lemma_grid_wf();
        }
        let cols = view.num_cols();
        let rows = view.num_rows();
        let ghost g = view.grid();
        let mut v: Vec<T> = Vec::new();
        let mut r: usize = 0;
        while r < rows
            invariant
                view.well_formed(),
                view.grid() == g,
                g.wf(),
                g.cols == cols,
                g.rows == rows,
                cols * rows <= usize::MAX,
                r <= rows,
                v@.len() == r * cols,
                forall|k: int, c: int| 0 <= k < r && 0 <= c < cols ==> cloned(g.cells[k][c], #[trigger] v@[k * cols + c]),
            decreases rows - r,
        {
            let row = view.get_unchecked_row(r);
            v.extend_from_slice(row);
            proof {
                assert((r + 1) * cols == r * cols + cols) by (nonlinear_arith);
                assert forall|k: int, c: int| 0 <= k < r + 1 && 0 <= c < cols implies cloned(g.cells[k][c], #[trigger] v@[k * cols + c]) by {
                    if k < r {
                        assert(k * cols + c < r * cols) by (nonlinear_arith)
                            requires
                                k < r,
                                c < cols,
                        ;
                    }
                }
            }
            r += 1;
        }
        proof {
            assert(cols * rows == rows * cols) by (nonlinear_arith);
        }
        let ghost vv = v@;
        let t = TooDee::from_parts(cols, rows, v);
        proof {
            t.lemma_span();
            assert forall|c: int, r: int| 0 <= c < cols && 0 <= r < rows implies cloned(g.cells[r][c], #[trigger] t.model().cells[r][c]) by {
                lemma_strided_row(vv, cols as int, cols as int, rows as int, r);
                assert(t.model().cells[r][c] == vv[r * cols + c]);
            }
        }
        t
    }

    /// The number of cells the buffer can hold without reallocating.
    pub fn capacity(&self) -> (r: usize)
        requires
            self.inv(),
        ensures
            r >= self.model().cols * self.model().rows,
    {
        vec_capacity(&self.data)
    }

    /// An empty array whose buffer is allocated for `capacity` cells.
    pub fn with_capacity(capacity: usize) -> (t: TooDee<T>)
        ensures
            t.inv(),
            t.model() == dense_grid(Seq::<T>::empty(), 0, 0),
    {
        TooDee { data: Vec::with_capacity(capacity), num_cols: 0, num_rows: 0 }
    }

    /// Reserves room for exactly `capacity` more cells; the contents stay.
    pub fn reserve_exact(&mut self, capacity: usize)
        requires
            old(self).inv(),
            old(self).model().cols * old(self).model().rows + capacity <= usize::MAX,
            (old(self).model().cols * old(self).model().rows + capacity) * vstd::layout::size_of::<T>()
                <= isize::MAX,
        ensures
            final(self).inv(),
            final(self).model() == old(self).model(),
    {
        vec_reserve_exact(&mut self.data, capacity)
    }

    /// Reserves room for at least `capacity` more cells; the contents stay.
    pub fn reserve(&mut self, capacity: usize)
        requires
            old(self).inv(),
            old(self).model().cols * old(self).model().rows + capacity <= usize::MAX,
            (old(self).model().cols * old(self).model().rows + capacity) * vstd::layout::size_of::<T>()
                <= isize::MAX,
        ensures
            final(self).inv(),
            final(self).model() == old(self).model(),
    {
        self.data.reserve(capacity)
    }

    /// Releases unused buffer room; the contents stay.
    pub fn shrink_to_fit(&mut self)
        requires
            old(self).inv(),
        ensures
            final(self).inv(),
            final(self).model() == old(self).model(),
    {
        vec_shrink_to_fit(&mut self.data)
    }

    /// An array whose rows are read from `v`, which must hold `num_cols * num_rows` cells.
    pub fn from_vec(num_cols: usize, num_rows: usize, v: Vec<T>) -> (t: TooDee<T>)
        requires
            num_cols == 0 || num_rows == 0 ==> num_cols == num_rows,
            num_cols * num_rows == v@.len(),
        ensures
            t.inv(),
            t.model() == dense_grid(v@, num_cols as nat, num_rows as nat),
    {
        let _len = v.len();
        TooDee::from_parts(num_cols, num_rows, v)
    }

    /// An array whose rows are read from `b`, which must hold `num_cols * num_rows` cells.
    pub fn from_box(num_cols: usize, num_rows: usize, b: Box<[T]>) -> (t: TooDee<T>)
        requires
            num_cols == 0 || num_rows == 0 ==> num_cols == num_rows,
            num_cols * num_rows == b@.len(),
        ensures
            t.inv(),
            t.model() == dense_grid(b@, num_cols as nat, num_rows as nat),
    {
        TooDee::from_vec(num_cols, num_rows, b.into_vec())
    }

    /// The cells, row by row.
    pub fn data(&self) -> (r: &[T])
        requires
            self.inv(),
        ensures
            r@ == flatten_rows(self.model().cells),
    {
        proof {
            self.lemma_span();
        }
        self.data.as_slice()
    }

    /// The cells, row by row, to be changed in place.
    pub fn data_mut(&mut self) -> (r: &mut [T])
        requires
            old(self).inv(),
        ensures
            r@ == flatten_rows(old(self).model().cells),
            final(r)@.len() == r@.len() ==> final(self).inv() && final(self).model() == dense_grid(
                final(r)@,
                old(self).model().cols,
                old(self).model().rows,
            ),
    {
        proof {
            self.lemma_span();
        }
        self.data.as_mut_slice()
    }

    /// The cells, row by row, handing over the buffer.
    pub fn into_vec(self) -> (r: Vec<T>)
        requires
            self.inv(),
        ensures
            r@ == flatten_rows(self.model().cells),
    {
        proof {
            self.lemma_span();
        }
        self.data
    }

    /// Removes every cell; both dimensions become zero.
    pub fn clear(&mut self)
        ensures
            final(self).inv(),
            final(self).model() == dense_grid(Seq::<T>::empty(), 0, 0),
    {
        self.num_cols = 0;
        self.num_rows = 0;
        self.data.clear();
    }

    /// Exchanges the recorded dimensions, leaving the buffer as it is.
    pub fn swap_dimensions(&mut self)
        requires
            old(self).inv(),
        ensures
            final(self).inv(),
            final(self).model() == dense_grid(
                flatten_rows(old(self).model().cells),
                old(self).model().rows,
                old(self).model().cols,
            ),
    {
        proof {
            self.lemma_span();
        }
        let c = self.num_cols;
        self.num_cols = self.num_rows;
        self.num_rows = c;
        assert(self.num_cols * self.num_rows == self.num_rows * self.num_cols) by (nonlinear_arith);
    }

    /// Inserts `data` as row `index`, moving the rows from `index` on down by
    /// one. In an empty array the row sets the number of columns.
    pub fn insert_row(&mut self, index: usize, data: Vec<T>)
        requires
            old(self).inv(),
            index <= old(self).model().rows,
            data@.len() > 0,
            old(self).model().rows > 0 ==> data@.len() == old(self).model().cols,
            (old(self).model().rows + 1) * data@.len() <= usize::MAX,
        ensures
            final(self).inv(),
            final(self).model() == row_inserted(old(self).model(), index as int, data@),
    {
        let ghost cells = self.model().cells;
        let ghost row = data@;
        proof {
            self.lemma_span();
            lemma_flatten_split(cells, self.num_cols as nat, index as int);
        }
        proof {
            assert(index * self.num_cols <= self.num_rows * self.num_cols) by (nonlinear_arith)
                requires
                    index <= self.num_rows,
            ;
            assert(self.num_cols * self.num_rows == self.num_rows * self.num_cols) by (nonlinear_arith);
        }
        let start = index * self.num_cols;
        if self.num_rows == 0 {
            self.num_cols = data.len();
        }
        let mut tail = self.data.split_off(start);
        let mut row_data = data;
        self.data.append(&mut row_data);
        self.data.append(&mut tail);
        assert(self.num_rows + 1 <= (self.num_rows + 1) * row.len()) by (nonlinear_arith)
            requires
                row.len() > 0,
        ;
        self.num_rows = self.num_rows + 1;
        proof {
            let new_cells = cells.insert(index as int, row);
            let pre = cells.subrange(0, index as int);
            let post = cells.subrange(index as int, cells.len() as int);
            assert(new_cells =~= pre + seq![row] + post);
            lemma_flatten_concat(pre + seq![row], post);
            lemma_flatten_concat(pre, seq![row]);
            lemma_flatten_single(row);
            assert(self.data@ =~= flatten_rows(new_cells));
            assert forall|r: int| 0 <= r < new_cells.len() implies #[trigger] new_cells[r].len() == self.num_cols by {
                if r < index {
                } else if r > index {
                    assert(new_cells[r] == cells[r - 1]);
                }
            }
            lemma_dense_rows(new_cells, self.num_cols as nat);
            assert(self.num_cols * self.num_rows == self.num_rows * self.num_cols) by (nonlinear_arith);
        }
    }

    /// Appends `data` as the last row.
    pub fn push_row(&mut self, data: Vec<T>)
        requires
            old(self).inv(),
            data@.len() > 0,
            old(self).model().rows > 0 ==> data@.len() == old(self).model().cols,
            (old(self).model().rows + 1) * data@.len() <= usize::MAX,
        ensures
            final(self).inv(),
            final(self).model() == row_inserted(old(self).model(), old(self).model().rows as int, data@),
    {
        let index = self.num_rows;
        self.insert_row(index, data);
    }

    /// Removes row `index` and returns its cells; the rows below move up. When
    /// the last row goes, the number of columns becomes zero too.
    pub fn remove_row(&mut self, index: usize) -> (r: Vec<T>)
        requires
            old(self).inv(),
            index < old(self).model().rows,
        ensures
            r@ == old(self).model().cells[index as int],
            final(self).inv(),
            final(self).model() == row_removed(old(self).model(), index as int),
    {
        let ghost cells = self.model().cells;
        let ghost cols = self.num_cols as nat;
        proof {
            self.lemma_span();
            lemma_flatten_at(cells, cols, index as int);
            assert((index + 1) * self.num_cols <= self.num_rows * self.num_cols) by (nonlinear_arith)
                requires
                    index < self.num_rows,
            ;
            assert(self.num_cols * self.num_rows == self.num_rows * self.num_cols) by (nonlinear_arith);
            assert((index + 1) * self.num_cols == index * self.num_cols + self.num_cols) by (nonlinear_arith);
        }
        let start = index * self.num_cols;
        let mut tail = self.data.split_off(start + self.num_cols);
        let removed = self.data.split_off(start);
        self.data.append(&mut tail);
        self.num_rows = self.num_rows - 1;
        if self.num_rows == 0 {
            self.num_cols = 0;
        }
        proof {
            let new_cells = cells.remove(index as int);
            let pre = cells.subrange(0, index as int);
            let post = cells.subrange(index + 1, cells.len() as int);
            assert(new_cells =~= pre + post);
            lemma_flatten_concat(pre, post);
            assert(self.data@ =~= flatten_rows(new_cells));
            assert(removed@ =~= cells[index as int]);
            if self.num_rows == 0 {
                assert(new_cells =~= Seq::<Seq<T>>::empty());
                assert(self.data@ =~= Seq::<T>::empty());
                assert(self.model().cells =~= new_cells);
            } else {
                assert forall|r: int| 0 <= r < new_cells.len() implies #[trigger] new_cells[r].len() == cols by {
                    if r >= index {
                        assert(new_cells[r] == cells[r + 1]);
                    }
                }
                lemma_dense_rows(new_cells, cols);
                assert(self.num_cols * self.num_rows == self.num_rows * self.num_cols) by (nonlinear_arith);
                assert(self.num_cols * self.num_rows <= self.num_cols * (self.num_rows + 1)) by (nonlinear_arith);
            }
        }
        removed
    }

    /// Removes the last row and returns its cells, or `None` when there is none.
    pub fn pop_row(&mut self) -> (r: Option<Vec<T>>)
        requires
            old(self).inv(),
        ensures
            final(self).inv(),
            old(self).model().rows == 0 ==> r is None && final(self).model() == old(self).model(),
            old(self).model().rows > 0 ==> r is Some && r.unwrap()@ == old(self).model().cells.last()
                && final(self).model() == row_removed(old(self).model(), old(self).model().rows - 1),
    {
        if self.num_rows == 0 {
            None
        } else {
            let index = self.num_rows - 1;
            let r = self.remove_row(index);
            Some(r)
        }
    }
}

/// Moves every element of `v`, in order, into a new double-ended queue.
fn take_into_deque<T>(v: &mut Vec<T>) -> (d: VecDeque<T>)
    ensures
        d@ == old(v)@,
        final(v)@ == Seq::<T>::empty(),
{
    let ghost o = v@;
    let mut d: VecDeque<T> = VecDeque::new();
    while v.len() > 0
        invariant
            v@ + d@ == o,
        decreases v@.len(),
    {
        let x = v.pop().unwrap();
        d.push_front(x);
        assert(v@ + d@ =~= o);
    }
    assert(d@ =~= o);
    d
}

/// The cells of a removed column, produced front to back or back to front.
/// The array is compacted when the column is removed, so dropping this early
/// leaves the array consistent.
pub struct DrainCol<T> {
    items: VecDeque<T>,
}

impl<T> DrainCol<T> {
    /// The cells not yet produced, top to bottom.
    pub closed spec fn remaining(&self) -> Seq<T> {
        self.items@
    }

    /// The topmost remaining cell, which is then consumed.
    pub fn next(&mut self) -> (r: Option<T>)
        ensures
            old(self).remaining().len() == 0 ==> r is None && final(self).remaining() == old(self).remaining(),
            old(self).remaining().len() > 0 ==> r == Some(old(self).remaining()[0])
                && final(self).remaining() == old(self).remaining().drop_first(),
    {
        let r = self.items.pop_front();
        assert(old(self).remaining().len() > 0 ==> self.remaining() =~= old(self).remaining().drop_first());
        r
    }

    /// The bottommost remaining cell, which is then consumed.
    pub fn next_back(&mut self) -> (r: Option<T>)
        ensures
            old(self).remaining().len() == 0 ==> r is None && final(self).remaining() == old(self).remaining(),
            old(self).remaining().len() > 0 ==> r == Some(old(self).remaining().last())
                && final(self).remaining() == old(self).remaining().drop_last(),
    {
        let r = self.items.pop_back();
        assert(old(self).remaining().len() > 0 ==> self.remaining() =~= old(self).remaining().drop_last());
        r
    }

    /// The number of cells left.
    pub fn len(&self) -> (r: usize)
        ensures
            r == self.remaining().len(),
    {
        self.items.len()
    }

    /// The exact number of cells left, as both bounds.
    pub fn size_hint(&self) -> (r: (usize, Option<usize>))
        ensures
            r.0 == self.remaining().len(),
            r.1 == Some(r.0),
    {
        let n = self.items.len();
        (n, Some(n))
    }
}

impl<T> TooDee<T> {
    /// Removes column `index` and hands out its cells, top to bottom. The
    /// remaining columns are compacted at once; when the last column goes, the
    /// number of rows becomes zero too.
    pub fn remove_col(&mut self, index: usize) -> (d: DrainCol<T>)
        requires
            old(self).inv(),
            index < old(self).model().cols,
        ensures
            final(self).inv(),
            d.remaining() == old(self).model().column(index as int),
            final(self).model() == col_removed(old(self).model(), index as int),
    {
        proof {
            self.lemma_span();
        }
        let ghost cells = self.model().cells;
        let ghost old_data = self.data@;
        let ghost target = Seq::new(self.num_rows as nat, |r: int| cells[r].remove(index as int));
        let cols = self.num_cols;
        let rows = self.num_rows;
        let mut src = take_into_deque(&mut self.data);
        let mut column: VecDeque<T> = VecDeque::new();
        let ghost mut acc: Seq<Seq<T>> = Seq::empty();
        let mut r: usize = 0;
        while r < rows
            invariant
                cols == old(self).num_cols,
                rows == old(self).num_rows,
                self.num_cols == cols,
                self.num_rows == rows,
                old_data.len() == cols * rows,
                cells == strided_rows(old_data, cols as int, cols as int, rows as int),
                forall|k: int| 0 <= k < rows ==> #[trigger] cells[k].len() == cols,
                target == Seq::new(rows as nat, |k: int| cells[k].remove(index as int)),
                index < cols,
                r <= rows,
                r * cols <= old_data.len(),
                src@ == old_data.subrange(r * cols, old_data.len() as int),
                acc == target.subrange(0, r as int),
                self.data@ == flatten_rows(acc),
                column@ == Seq::new(r as nat, |k: int| cells[k][index as int]),
            decreases rows - r,
        {
            proof {
                assert((r + 1) * cols == r * cols + cols) by (nonlinear_arith);
                assert((r + 1) * cols <= rows * cols) by (nonlinear_arith)
                    requires
                        r < rows,
                ;
                assert(rows * cols == cols * rows) by (nonlinear_arith);
                assert((rows - 1) * cols + cols == cols * rows) by (nonlinear_arith);
                lemma_strided_row(old_data, cols as int, cols as int, rows as int, r as int);
            }
            let ghost row = cells[r as int];
            let ghost start = flatten_rows(acc);
            let mut c: usize = 0;
            while c < cols
                invariant
                    cols == old(self).num_cols,
                    self.num_cols == cols,
                    self.num_rows == old(self).num_rows,
                    index < cols,
                    r < rows,
                    (r + 1) * cols == r * cols + cols,
                    c <= cols,
                    row.len() == cols,
                    (r + 1) * cols <= old_data.len(),
                    row == old_data.subrange(r * cols, r * cols + cols),
                    src@ == old_data.subrange(r * cols + c, old_data.len() as int),
                    self.data@ == start + row.remove(index as int).subrange(0, if c > index { c - 1 } else { c as int }),
                    column@ == Seq::new(r as nat, |k: int| cells[k][index as int]) + if c > index {
                        seq![row[index as int]]
                    } else {
                        Seq::empty()
                    },
                decreases cols - c,
            {
                let x = src.pop_front().unwrap();
                assert(x == row[c as int]);
                if c == index {
                    column.push_back(x);
                } else {
                    self.data.push(x);
                }
                proof {
                    let removed = row.remove(index as int);
                    if c < index {
                        assert(removed.subrange(0, c + 1) =~= removed.subrange(0, c as int).push(x));
                    } else if c > index {
                        assert(removed.subrange(0, c as int) =~= removed.subrange(0, c - 1).push(x));
                    }
                }
                c += 1;
                assert(src@ =~= old_data.subrange(r * cols + c, old_data.len() as int));
                assert(column@ =~= Seq::new(r as nat, |k: int| cells[k][index as int]) + if c > index {
                    seq![row[index as int]]
                } else {
                    Seq::empty()
                });
            }
            proof {
                let removed = row.remove(index as int);
                assert(removed.subrange(0, cols - 1) =~= removed);
                assert(target[r as int] == removed);
                assert(acc.push(removed).drop_last() =~= acc);
                acc = acc.push(removed);
                assert(acc =~= target.subrange(0, r + 1));
                assert(column@ =~= Seq::new((r + 1) as nat, |k: int| cells[k][index as int]));
            }
            r += 1;
        }
        self.num_cols = cols - 1;
        if self.num_cols == 0 {
            self.num_rows = 0;
        }
        proof {
            assert(acc =~= target);
            assert forall|k: int| 0 <= k < target.len() implies #[trigger] target[k].len() == cols - 1 by {
            }
            lemma_dense_rows(target, (cols - 1) as nat);
            assert(column@ =~= old(self).model().column(index as int));
            if cols == 1 {
                assert(self.data@ =~= Seq::<T>::empty()) by {
                    assert(rows * 0 == 0);
                }
                assert(self.model().cells =~= Seq::<Seq<T>>::empty());
            } else {
                assert(self.num_cols * self.num_rows <= cols * rows) by (nonlinear_arith)
                    requires
                        self.num_cols <= cols,
                        self.num_rows == rows,
                ;
                assert(target.len() * (cols - 1) == self.num_cols * self.num_rows) by (nonlinear_arith)
                    requires
                        target.len() == rows,
                        self.num_cols == cols - 1,
                        self.num_rows == rows,
                ;
            }
        }
        DrainCol { items: column }
    }

    /// Removes the last column and hands out its cells, or `None` when there is none.
    pub fn pop_col(&mut self) -> (d: Option<DrainCol<T>>)
        requires
            old(self).inv(),
        ensures
            final(self).inv(),
            old(self).model().cols == 0 ==> d is None && final(self).model() == old(self).model(),
            old(self).model().cols > 0 ==> d is Some && d.unwrap().remaining() == old(self).model().column(
                old(self).model().cols - 1,
            ),
            old(self).model().cols > 0 ==> final(self).model() == col_removed(
                old(self).model(),
                old(self).model().cols - 1,
            ),
    {
        if self.num_cols == 0 {
            None
        } else {
            proof {
                self.lemma_span();
            }
            let index = self.num_cols - 1;
            let d = self.remove_col(index);
            Some(d)
        }
    }

    /// Inserts `data` as column `index`, moving the columns from `index` on
    /// right by one. In an empty array the column sets the number of rows.
    pub fn insert_col(&mut self, index: usize, data: Vec<T>)
        requires
            old(self).inv(),
            index <= old(self).model().cols,
            data@.len() > 0,
            old(self).model().cols > 0 ==> data@.len() == old(self).model().rows,
            (old(self).model().cols + 1) * data@.len() <= usize::MAX,
        ensures
            final(self).inv(),
            final(self).model() == col_inserted(old(self).model(), index as int, data@),
    {
        proof {
            self.lemma_span();
        }
        let ghost old_cols = self.num_cols;
        let ghost cells = self.model().cells;
        let ghost old_data = self.data@;
        let ghost col = data@;
        let cols = self.num_cols;
        let rows = data.len();
        let ghost target = Seq::new(
            rows as nat,
            |r: int| if old_cols == 0 { seq![col[r]] } else { cells[r].insert(index as int, col[r]) },
        );
        let mut data = data;
        let mut src = take_into_deque(&mut self.data);
        let mut col_src = take_into_deque(&mut data);
        proof {
            if cols == 0 {
                assert(old_data.len() == 0);
            }
            assert(cols * rows == old_data.len()) by {
                if cols > 0 {
                    assert(cols * rows == cols * old(self).num_rows);
                } else {
                    assert(cols * rows == 0) by (nonlinear_arith)
                        requires
                            cols == 0,
                    ;
                }
            }
        }
        let ghost mut acc: Seq<Seq<T>> = Seq::empty();
        let mut r: usize = 0;
        while r < rows
            invariant
                cols == old_cols,
                self.num_cols == cols,
                rows == col.len(),
                index <= cols,
                old_data.len() == cols * rows,
                (cols + 1) * rows <= usize::MAX,
                cols > 0 ==> cells == strided_rows(old_data, cols as int, cols as int, rows as int),
                cols > 0 ==> forall|k: int| 0 <= k < rows ==> #[trigger] cells[k].len() == cols,
                target == Seq::new(
                    rows as nat,
                    |k: int| if old_cols == 0 { seq![col[k]] } else { cells[k].insert(index as int, col[k]) },
                ),
                r <= rows,
                r * cols <= old_data.len(),
                src@ == old_data.subrange(r * cols, old_data.len() as int),
                col_src@ == col.subrange(r as int, rows as int),
                acc == target.subrange(0, r as int),
                self.data@ == flatten_rows(acc),
            decreases rows - r,
        {
            proof {
                assert((r + 1) * cols == r * cols + cols) by (nonlinear_arith);
                assert((r + 1) * cols <= rows * cols) by (nonlinear_arith)
                    requires
                        r < rows,
                ;
                assert(rows * cols == cols * rows) by (nonlinear_arith);
                if cols > 0 {
                    assert((rows - 1) * cols + cols == cols * rows) by (nonlinear_arith);
                    lemma_strided_row(old_data, cols as int, cols as int, rows as int, r as int);
                }
            }
            let ghost row = target[r as int];
            let ghost orig = old_data.subrange(r * cols, r * cols + cols);
            assert(row =~= orig.insert(index as int, col[r as int])) by {
                if cols == 0 {
                    assert(orig =~= Seq::<T>::empty());
                }
            }
            let ghost start = flatten_rows(acc);
            assert(cols + 1 <= (cols + 1) * rows) by (nonlinear_arith)
                requires
                    r < rows,
            ;
            let mut c: usize = 0;
            while c <= cols
                invariant
                    cols == old_cols,
                    self.num_cols == cols,
                    index <= cols,
                    r < rows,
                    cols + 1 <= usize::MAX,
                    (r + 1) * cols == r * cols + cols,
                    c <= cols + 1,
                    rows == col.len(),
                    (r + 1) * cols <= old_data.len(),
                    orig == old_data.subrange(r * cols, r * cols + cols),
                    row == orig.insert(index as int, col[r as int]),
                    src@ == old_data.subrange(r * cols + (if c > index { c - 1 } else { c as int }), old_data.len() as int),
                    col_src@ == col.subrange(r + (if c > index { 1int } else { 0 }), rows as int),
                    self.data@ == start + row.subrange(0, c as int),
                decreases cols + 1 - c,
            {
                let x = if c == index {
                    col_src.pop_front().unwrap()
                } else {
                    src.pop_front().unwrap()
                };
                assert(x == row[c as int]);
                self.data.push(x);
                assert(self.data@ =~= start + row.subrange(0, c + 1));
                c += 1;
                assert(src@ =~= old_data.subrange(r * cols + (if c > index { c - 1 } else { c as int }), old_data.len() as int));
                assert(col_src@ =~= col.subrange(r + (if c > index { 1int } else { 0 }), rows as int));
            }
            proof {
                assert(row.subrange(0, cols + 1) =~= row);
                assert(acc.push(row).drop_last() =~= acc);
                acc = acc.push(row);
                assert(acc =~= target.subrange(0, r + 1));
            }
            r += 1;
        }
        assert(cols + 1 <= (cols + 1) * rows) by (nonlinear_arith)
            requires
                rows > 0,
        ;
        self.num_cols = cols + 1;
        self.num_rows = rows;
        proof {
            assert(acc =~= target);
            assert forall|k: int| 0 <= k < target.len() implies #[trigger] target[k].len() == cols + 1 by {
            }
            lemma_dense_rows(target, (cols + 1) as nat);
            assert(target.len() * (cols + 1) == self.num_cols * self.num_rows) by (nonlinear_arith)
                requires
                    target.len() == rows,
                    self.num_cols == cols + 1,
                    self.num_rows == rows,
            ;
            assert(self.num_cols * self.num_rows == (cols + 1) * rows);
        }
    }

    /// Appends `data` as the last column.
    pub fn push_col(&mut self, data: Vec<T>)
        requires
            old(self).inv(),
            data@.len() > 0,
            old(self).model().cols > 0 ==> data@.len() == old(self).model().rows,
            (old(self).model().cols + 1) * data@.len() <= usize::MAX,
        ensures
            final(self).inv(),
            final(self).model() == col_inserted(old(self).model(), old(self).model().cols as int, data@),
    {
        let index = self.num_cols;
        self.insert_col(index, data);
    }
}

impl<T> Default for TooDee<T> {
    /// An empty array.
    fn default() -> (t: Self)
        ensures
            t.inv(),
            t.model() == dense_grid(Seq::<T>::empty(), 0, 0),
    {
        TooDee { data: Vec::new(), num_rows: 0, num_cols: 0 }
    }
}

impl<T> TooDeeOps<T> for TooDee<T> {
    open spec fn grid(&self) -> Grid<T> {
        self.model()
    }

    open spec fn origin(&self) -> Coordinate {
        (0, 0)
    }

    open spec fn well_formed(&self) -> bool {
        self.inv()
    }

    proof fn lemma_grid_wf(&self) {
        self.lemma_span();
    }

    fn num_cols(&self) -> (r: usize) {
        self.num_cols
    }

    fn num_rows(&self) -> (r: usize) {
        self.num_rows
    }

    fn bounds(&self) -> (r: (Coordinate, Coordinate)) {
        ((0, 0), (self.num_cols, self.num_rows))
    }

    fn view(&self, start: Coordinate, end: Coordinate) -> (v: TooDeeView<'_, T>) {
        proof {
            self.lemma_span();
        }
        let s = self.data.as_slice();
        let (num_cols, num_rows, range) = calculate_view_dimensions(
            start,
            end,
            self.num_cols,
            self.num_rows,
            self.num_cols,
        );
        proof {
            lemma_strided_sub(
                s@,
                self.num_cols as int,
                self.num_cols as int,
                self.num_rows as int,
                start.0 as int,
                start.1 as int,
                num_cols as int,
                num_rows as int,
            );
        }
        let sub: &[T] = if num_rows == 0 {
            s.split_at(0).0
        } else {
            s.split_at(range.end).0.split_at(range.start).1
        };
        assert(num_rows > 0 ==> sub@ =~= s@.subrange(range.start as int, range.end as int));
        let v = TooDeeView::from_parts(sub, num_cols, num_rows, self.num_cols, start);
        assert(v.model().cells =~= self.grid().sub(start, end).cells);
        v
    }

    fn rows(&self) -> (it: Rows<'_, T>) {
        proof {
            self.lemma_span();
        }
        Rows::new(self.data.as_slice(), self.num_cols, self.num_cols, Ghost(self.num_rows as nat))
    }

    fn col(&self, col: usize) -> (it: Col<'_, T>) {
        proof {
            self.lemma_span();
            lemma_strided_row(self.data@, self.num_cols as int, self.num_cols as int, self.num_rows as int, self.num_rows - 1);
        }
        let s = self.data.as_slice();
        let end = col + (self.num_rows - 1) * self.num_cols + 1;
        let v = s.split_at(end).0.split_at(col).1;
        let it = Col::new(v, self.num_cols, Ghost(self.num_rows as nat));
        assert forall|r: int| 0 <= r < self.num_rows implies #[trigger] it.remaining()[r] == self.grid().column(col as int)[r] by {
            lemma_strided_row(self.data@, self.num_cols as int, self.num_cols as int, self.num_rows as int, r);
        }
        assert(it.remaining() =~= self.grid().column(col as int));
        it
    }

    fn get_unchecked_row(&self, row: usize) -> (r: &[T]) {
        proof {
            self.lemma_span();
            lemma_strided_row(self.data@, self.num_cols as int, self.num_cols as int, self.num_rows as int, row as int);
        }
        let start = row * self.num_cols;
        self.data.as_slice().split_at(start + self.num_cols).0.split_at(start).1
    }

    fn get_unchecked(&self, coord: Coordinate) -> (r: &T) {
        proof {
            self.lemma_span();
            lemma_strided_row(self.data@, self.num_cols as int, self.num_cols as int, self.num_rows as int, coord.1 as int);
        }
        &self.data[coord.1 * self.num_cols + coord.0]
    }
}

impl<T> TooDeeOpsMut<T> for TooDee<T> {
    open spec fn grid_with_span(&self, start: Coordinate, end: Coordinate, span: Seq<T>) -> Grid<T> {
        let offset = if Grid::<T>::rect_dims(start, end).1 > 0 { start.1 * self.grid().cols + start.0 } else { 0 };
        dense_grid(
            replace_span(flatten_rows(self.grid().cells), offset, span),
            self.grid().cols,
            self.grid().rows,
        )
    }

    fn rows_mut(&mut self) -> (it: RowsMut<'_, T>) {
        proof {
            self.lemma_span();
        }
        let cols = self.num_cols;
        let rows = Ghost(self.num_rows as nat);
        assert forall|span: Seq<T>| span.len() == self.data@.len() implies #[trigger] self.grid_with_span(
            (0, 0),
            (self.num_cols, self.num_rows),
            span,
        ) == dense_grid(span, self.num_cols as nat, self.num_rows as nat) by {
            assert(replace_span(flatten_rows(self.model().cells), 0, span) =~= span);
        }
        RowsMut::new(self.data.as_mut_slice(), cols, cols, rows)
    }

    fn col_mut(&mut self, col: usize) -> (it: ColMut<'_, T>) {
        proof {
            self.lemma_span();
            lemma_strided_row(self.data@, self.num_cols as int, self.num_cols as int, self.num_rows as int, self.num_rows - 1);
        }
        let ghost d0 = self.data@;
        let cols = self.num_cols;
        let rows = self.num_rows;
        let len = (rows - 1) * cols + 1;
        assert forall|span: Seq<T>| span.len() == len implies #[trigger] self.grid_with_span(
            (col, 0),
            ((col + 1) as usize, self.num_rows),
            span,
        ) == dense_grid(replace_span(self.data@, col as int, span), self.num_cols as nat, self.num_rows as nat) by {
            assert(0 * self.num_cols == 0);
            assert(Grid::<T>::rect_dims((col, 0), ((col + 1) as usize, self.num_rows)).1 == self.num_rows);
            assert(flatten_rows(self.model().cells) == self.data@);
        }
        let v = span_mut(self.data.as_mut_slice(), col, len);
        let ghost vv = v@;
        let it = ColMut::new(v, cols, Ghost(rows as nat));
        assert forall|r: int| 0 <= r < rows implies #[trigger] it.remaining()[r] == old(self).grid().column(col as int)[r] by {
            lemma_strided_row(d0, cols as int, cols as int, rows as int, r);
            assert(vv[r * cols] == d0[r * cols + col]);
        }
        assert(it.remaining() =~= old(self).grid().column(col as int));
        it
    }

    fn view_mut(&mut self, start: Coordinate, end: Coordinate) -> (v: TooDeeViewMut<'_, T>) {
        proof {
            self.lemma_span();
        }
        let (num_cols, num_rows, range) = calculate_view_dimensions(
            start,
            end,
            self.num_cols,
            self.num_rows,
            self.num_cols,
        );
        proof {
            lemma_strided_sub(
                self.data@,
                self.num_cols as int,
                self.num_cols as int,
                self.num_rows as int,
                start.0 as int,
                start.1 as int,
                num_cols as int,
                num_rows as int,
            );
        }
        let ghost d0 = self.data@;
        let main = self.num_cols;
        let sub = span_mut(self.data.as_mut_slice(), range.start, range.end - range.start);
        assert(num_rows > 0 ==> sub@ =~= d0.subrange(range.start as int, range.end as int));
        let v = TooDeeViewMut::from_parts(sub, num_cols, num_rows, main, start);
        assert(v.model().cells =~= old(self).grid().sub(start, end).cells);
        v
    }

    fn get_unchecked_row_mut(&mut self, row: usize) -> (r: &mut [T]) {
        proof {
            self.lemma_span();
            assert forall|nr: Seq<T>| nr.len() == self.num_cols implies #[trigger] strided_rows(
                replace_span(self.data@, row * self.num_cols, nr),
                self.num_cols as int,
                self.num_cols as int,
                self.num_rows as int,
            ) == self.model().cells.update(row as int, nr) && replace_span(self.data@, row * self.num_cols, nr).len()
                == self.data@.len() by {
                lemma_strided_set_row(self.data@, self.num_cols as int, self.num_cols as int, self.num_rows as int, row as int, nr);
            }
        }
        let cols = self.num_cols;
        let rows = Ghost(self.num_rows as int);
        strided_row_mut(self.data.as_mut_slice(), cols, cols, rows, row)
    }

    fn get_unchecked_mut(&mut self, coord: Coordinate) -> (r: &mut T) {
        proof {
            self.lemma_span();
            assert forall|v: T| #[trigger] strided_rows(
                self.data@.update(coord.1 * self.num_cols + coord.0, v),
                self.num_cols as int,
                self.num_cols as int,
                self.num_rows as int,
            ) == self.model().set(coord.0 as int, coord.1 as int, v).cells by {
                lemma_strided_update(self.data@, self.num_cols as int, self.num_cols as int, self.num_rows as int, coord.0 as int, coord.1 as int, v);
            }
        }
        let cols = self.num_cols;
        let rows = Ghost(self.num_rows as int);
        strided_cell_mut(self.data.as_mut_slice(), cols, cols, rows, coord.0, coord.1)
    }

    fn row_pair_mut(&mut self, r1: usize, r2: usize) -> (r: (&mut [T], &mut [T])) {
        proof {
            self.lemma_span();
        }
        let cols = self.num_cols;
        strided_two_rows_mut(self.data.as_mut_slice(), cols, cols, Ghost(self.num_rows as int), r1, r2)
    }
}


impl<T> vstd::std_specs::core::IndexSpecImpl<usize> for TooDee<T> {
    open spec fn index_req(&self, row: &usize) -> bool {
        self.inv() && *row < self.model().rows
    }
}

impl<T> core::ops::Index<usize> for TooDee<T> {
    type Output = [T];

    /// Row `row`.
    fn index(&self, row: usize) -> (r: &[T])
        ensures
            r@ == self.model().cells[row as int],
    {
        self.get_unchecked_row(row)
    }
}

impl<T> vstd::std_specs::core::IndexSpecImpl<Coordinate> for TooDee<T> {
    open spec fn index_req(&self, coord: &Coordinate) -> bool {
        self.inv() && coord.0 < self.model().cols && coord.1 < self.model().rows
    }
}

impl<T> core::ops::Index<Coordinate> for TooDee<T> {
    type Output = T;

    /// The cell at `coord`.
    fn index(&self, coord: Coordinate) -> (r: &T)
        ensures
            *r == self.model().at(coord.0 as int, coord.1 as int),
    {
        self.get_unchecked(coord)
    }
}

} // verus!
