//! A two-dimensional array whose dimensions are part of its type.
use vstd::prelude::*;

use crate::iter::{Col, ColMut, Rows, RowsMut};
use crate::layout::flatten_rows;
use crate::ops::{Coordinate, Grid, TooDeeOps, TooDeeOpsMut};
use crate::layout::replace_span;
use crate::toodee::{dense_grid, filled_with, valid_dims, TooDee};
use crate::view::{TooDeeView, TooDeeViewMut};

verus! {

/// An array of `C` columns and `R` rows, stored row by row.
pub struct Matrix<T, const C: usize, const R: usize> {
    inner: TooDee<T>,
}

impl<T, const C: usize, const R: usize> Matrix<T, C, R> {
    /// What the matrix holds.
    pub closed spec fn model(&self) -> Grid<T> {
        self.inner.model()
    }

    /// The contents are a well-formed array of exactly `C` x `R` cells.
    pub closed spec fn inv(&self) -> bool {
        &&& self.inner.inv()
        &&& self.inner.model().cols == C
        &&& self.inner.model().rows == R
    }

    /// A matrix of clones of `init_value`.
    pub fn init(init_value: T) -> (m: Matrix<T, C, R>) where T: Clone
        requires
            valid_dims(C as nat, R as nat),
        ensures
            m.inv(),
            m.model().cols == C,
            m.model().rows == R,
            filled_with(m.model(), init_value),
    {
        Matrix { inner: TooDee::init(C, R, init_value) }
    }

    /// A matrix whose rows are read from `v`, which must hold `C * R` cells.
    pub fn from_vec(v: Vec<T>) -> (m: Matrix<T, C, R>)
        requires
            C == 0 || R == 0 ==> C == R,
            C * R == v@.len(),
        ensures
            m.inv(),
            m.model() == dense_grid(v@, C as nat, R as nat),
    {
        Matrix { inner: TooDee::from_vec(C, R, v) }
    }

    /// A matrix whose rows are read from `b`, which must hold `C * R` cells.
    pub fn from_box(b: Box<[T]>) -> (m: Matrix<T, C, R>)
        requires
            C == 0 || R == 0 ==> C == R,
            C * R == b@.len(),
        ensures
            m.inv(),
            m.model() == dense_grid(b@, C as nat, R as nat),
    {
        Matrix::from_vec(b.into_vec())
    }

    /// A matrix holding clones of the cells of `view`, which must be `C` x `R`.
    pub fn from_view<S: TooDeeOps<T>>(view: &S) -> (m: Matrix<T, C, R>) where T: Clone
        requires
            view.well_formed(),
            view.grid().cols == C,
            view.grid().rows == R,
        ensures
            m.inv(),
            forall|c: int, r: int|
                0 <= c < C && 0 <= r < R ==> cloned(view.grid().cells[r][c], #[trigger] m.model().cells[r][c]),
    {
        Matrix { inner: TooDee::from_view(view) }
    }

    /// The cells, row by row.
    pub fn data(&self) -> (r: &[T])
        requires
            self.inv(),
        ensures
            r@ == flatten_rows(self.model().cells),
    {
        self.inner.data()
    }

    /// The cells, row by row, to be changed in place.
    pub fn data_mut(&mut self) -> (r: &mut [T])
        requires
            old(self).inv(),
        ensures
            r@ == flatten_rows(old(self).model().cells),
            final(r)@.len() == r@.len() ==> final(self).inv() && final(self).model() == dense_grid(
                final(r)@,
                C as nat,
                R as nat,
            ),
    {
        self.inner.data_mut()
    }
}

impl<T, const C: usize, const R: usize> TooDeeOps<T> for Matrix<T, C, R> {
    open spec fn grid(&self) -> Grid<T> {
        self.model()
    }

    open spec fn origin(&self) -> Coordinate {
        (0, 0)
    }

    open spec fn well_formed(&self) -> bool {
        self.inv()
    }

    proof fn lemma_grid_wf(&self) {
        self.inner.lemma_grid_wf();
    }

    fn num_cols(&self) -> (r: usize) {
        C
    }

    fn num_rows(&self) -> (r: usize) {
        R
    }

    fn bounds(&self) -> (r: (Coordinate, Coordinate)) {
        ((0, 0), (C, R))
    }

    fn view(&self, start: Coordinate, end: Coordinate) -> (v: TooDeeView<'_, T>) {
        self.inner.view(start, end)
    }

    fn rows(&self) -> (it: Rows<'_, T>) {
        self.inner.rows()
    }

    fn col(&self, col: usize) -> (it: Col<'_, T>) {
        self.inner.col(col)
    }

    fn get_unchecked_row(&self, row: usize) -> (r: &[T]) {
        self.inner.get_unchecked_row(row)
    }

    fn get_unchecked(&self, coord: Coordinate) -> (r: &T) {
        self.inner.get_unchecked(coord)
    }
}

impl<T, const C: usize, const R: usize> TooDeeOpsMut<T> for Matrix<T, C, R> {
    open spec fn grid_with_span(&self, start: Coordinate, end: Coordinate, span: Seq<T>) -> Grid<T> {
        let offset = if Grid::<T>::rect_dims(start, end).1 > 0 { start.1 * C + start.0 } else { 0 };
        dense_grid(replace_span(flatten_rows(self.grid().cells), offset, span), C as nat, R as nat)
    }

    fn view_mut(&mut self, start: Coordinate, end: Coordinate) -> (v: TooDeeViewMut<'_, T>) {
        self.inner.view_mut(start, end)
    }

    fn rows_mut(&mut self) -> (it: RowsMut<'_, T>) {
        assert forall|st: Coordinate, en: Coordinate, span: Seq<T>| #[trigger] self.grid_with_span(st, en, span)
            == self.inner.grid_with_span(st, en, span) by {
        }
        self.inner.rows_mut()
    }

    fn col_mut(&mut self, col: usize) -> (it: ColMut<'_, T>) {
        self.inner.col_mut(col)
    }

    fn get_unchecked_row_mut(&mut self, row: usize) -> (r: &mut [T]) {
        self.inner.get_unchecked_row_mut(row)
    }

    fn get_unchecked_mut(&mut self, coord: Coordinate) -> (r: &mut T) {
        self.inner.get_unchecked_mut(coord)
    }

    fn row_pair_mut(&mut self, r1: usize, r2: usize) -> (r: (&mut [T], &mut [T])) {
        self.inner.row_pair_mut(r1, r2)
    }
}


impl<T, const C: usize, const R: usize> vstd::std_specs::core::IndexSpecImpl<usize> for Matrix<T, C, R> {
    open spec fn index_req(&self, row: &usize) -> bool {
        self.inv() && *row < R
    }
}

impl<T, const C: usize, const R: usize> core::ops::Index<usize> for Matrix<T, C, R> {
    type Output = [T];

    /// Row `row`.
    fn index(&self, row: usize) -> (r: &[T])
        ensures
            r@ == self.model().cells[row as int],
    {
        self.get_unchecked_row(row)
    }
}

impl<T, const C: usize, const R: usize> vstd::std_specs::core::IndexSpecImpl<Coordinate> for Matrix<T, C, R> {
    open spec fn index_req(&self, coord: &Coordinate) -> bool {
        self.inv() && coord.0 < C && coord.1 < R
    }
}

impl<T, const C: usize, const R: usize> core::ops::Index<Coordinate> for Matrix<T, C, R> {
    type Output = T;

    /// The cell at `coord`.
    fn index(&self, coord: Coordinate) -> (r: &T)
        ensures
            *r == self.model().at(coord.0 as int, coord.1 as int),
    {
        self.get_unchecked(coord)
    }
}

} // verus!
