//! The operations shared by owned arrays and their views.
use vstd::prelude::*;

use crate::iter::{Col, ColMut, Rows, RowsMut};
use crate::flattenexact::{Cells, CellsMut};
use crate::slices::{slice_swap, slice_swap_with};
use crate::view::{TooDeeView, TooDeeViewMut};

verus! {

/// A `(col, row)` coordinate.
pub type Coordinate = (usize, usize);

/// What an area holds: its extents and its rows, top to bottom.
pub struct Grid<T> {
    pub cols: nat,
    pub rows: nat,
    pub cells: Seq<Seq<T>>,
}

impl<T> Grid<T> {
    /// Every row has `cols` cells, and the area is empty in both extents or in neither.
    pub open spec fn wf(self) -> bool {
        &&& self.cells.len() == self.rows
        &&& forall|r: int| 0 <= r < self.rows ==> #[trigger] self.cells[r].len() == self.cols
        &&& (self.cols == 0 <==> self.rows == 0)
    }

    /// The cell at column `c`, row `r`.
    pub open spec fn at(self, c: int, r: int) -> T {
        self.cells[r][c]
    }

    /// Column `c`, top to bottom.
    pub open spec fn column(self, c: int) -> Seq<T> {
        Seq::new(self.rows, |r: int| self.cells[r][c])
    }

    /// Whether `start..end` is a rectangle inside the area.
    pub open spec fn contains_rect(self, start: Coordinate, end: Coordinate) -> bool {
        &&& start.0 <= end.0 <= self.cols
        &&& start.1 <= end.1 <= self.rows
    }

    /// Extents of the rectangle `start..end`, both zero when either is.
    pub open spec fn rect_dims(start: Coordinate, end: Coordinate) -> (nat, nat) {
        if end.0 == start.0 || end.1 == start.1 {
            (0, 0)
        } else {
            ((end.0 - start.0) as nat, (end.1 - start.1) as nat)
        }
    }

    /// The part of the area inside the rectangle `start..end`.
    pub open spec fn sub(self, start: Coordinate, end: Coordinate) -> Grid<T> {
        let (cols, rows) = Self::rect_dims(start, end);
        Grid {
            cols,
            rows,
            cells: Seq::new(rows, |r: int| self.cells[start.1 + r].subrange(start.0 as int, start.0 + cols)),
        }
    }

    /// The area with cell `(c, r)` set to `v`.
    pub open spec fn set(self, c: int, r: int, v: T) -> Grid<T> {
        Grid { cells: self.cells.update(r, self.cells[r].update(c, v)), ..self }
    }

    /// The area with row `r` replaced.
    pub open spec fn set_row(self, r: int, row: Seq<T>) -> Grid<T> {
        Grid { cells: self.cells.update(r, row), ..self }
    }

    /// The area with rows `r1` and `r2` exchanged.
    pub open spec fn swap_rows(self, r1: int, r2: int) -> Grid<T> {
        Grid { cells: self.cells.update(r1, self.cells[r2]).update(r2, self.cells[r1]), ..self }
    }

    /// The area with columns `c1` and `c2` exchanged.
    pub open spec fn swap_cols(self, c1: int, c2: int) -> Grid<T> {
        Grid {
            cells: Seq::new(
                self.rows,
                |r: int| self.cells[r].update(c1, self.cells[r][c2]).update(c2, self.cells[r][c1]),
            ),
            ..self
        }
    }
}

/// Operations common to arrays (`TooDee`, `Matrix`) and their views.
pub trait TooDeeOps<T> {
    /// What the area holds.
    spec fn grid(&self) -> Grid<T>;

    /// The representation invariant of the implementing type.
    spec fn well_formed(&self) -> bool;

    /// Where the area's top-left cell lies in the array it was cut from.
    spec fn origin(&self) -> Coordinate;

    /// A well-formed value describes a well-formed area whose size fits in `usize`.
    proof fn lemma_grid_wf(&self)
        requires
            self.well_formed(),
        ensures
            self.grid().wf(),
            self.grid().cols * self.grid().rows <= usize::MAX,
    ;

    /// The number of columns in the area.
    fn num_cols(&self) -> (r: usize)
        requires
            self.well_formed(),
        ensures
            r == self.grid().cols,
    ;

    /// The number of rows in the area.
    fn num_rows(&self) -> (r: usize)
        requires
            self.well_formed(),
        ensures
            r == self.grid().rows,
    ;

    /// The dimensions `(cols, rows)` of the area.
    fn size(&self) -> (r: (usize, usize))
        requires
            self.well_formed(),
        ensures
            r.0 == self.grid().cols,
            r.1 == self.grid().rows,
    {
        (self.num_cols(), self.num_rows())
    }

    /// Whether the area holds no cell.
    fn is_empty(&self) -> (r: bool)
        requires
            self.well_formed(),
        ensures
            r == (self.grid().cols == 0 || self.grid().rows == 0),
    {
        self.num_cols() == 0 || self.num_rows() == 0
    }

    /// The area's corners within the array it was cut from.
    fn bounds(&self) -> (r: (Coordinate, Coordinate))
        requires
            self.well_formed(),
        ensures
            r.0 == self.origin(),
            r.0.0 + self.grid().cols == r.1.0,
            r.0.1 + self.grid().rows == r.1.1,
    ;

    /// A view of the rectangle `start..end` of the area.
    fn view(&self, start: Coordinate, end: Coordinate) -> (v: TooDeeView<'_, T>)
        requires
            self.well_formed(),
            self.grid().contains_rect(start, end),
        ensures
            v.inv(),
            v.model() == self.grid().sub(start, end),
            v.start().0 == self.origin().0 + start.0,
            v.start().1 == self.origin().1 + start.1,
    ;

    /// An iterator over the rows of the area.
    fn rows(&self) -> (it: Rows<'_, T>)
        requires
            self.well_formed(),
        ensures
            it.well_formed(),
            it.remaining() == self.grid().cells,
            it.cols() == self.grid().cols,
    ;

    /// An iterator over column `col`.
    fn col(&self, col: usize) -> (it: Col<'_, T>)
        requires
            self.well_formed(),
            col < self.grid().cols,
        ensures
            it.well_formed(),
            it.remaining() == self.grid().column(col as int),
    ;

    /// An iterator over all cells, row by row.
    fn cells(&self) -> (it: Cells<'_, T>)
        requires
            self.well_formed(),
        ensures
            it.well_formed(),
            it.remaining() == crate::layout::flatten_rows(self.grid().cells),
            it.cols() == self.grid().cols,
    {
        proof {
            self.lemma_grid_wf();
            assert(self.grid().rows * self.grid().cols == self.grid().cols * self.grid().rows) by (nonlinear_arith);
        }
        Cells::new(self.rows())
    }

    /// Row `row`, which must exist.
    fn get_unchecked_row(&self, row: usize) -> (r: &[T])
        requires
            self.well_formed(),
            row < self.grid().rows,
        ensures
            r@ == self.grid().cells[row as int],
    ;

    /// The cell at `coord`, which must exist.
    fn get_unchecked(&self, coord: Coordinate) -> (r: &T)
        requires
            self.well_formed(),
            coord.0 < self.grid().cols,
            coord.1 < self.grid().rows,
        ensures
            *r == self.grid().at(coord.0 as int, coord.1 as int),
    ;
}

/// Operations common to arrays and their mutable views.
pub trait TooDeeOpsMut<T>: TooDeeOps<T> {
    /// What the area holds once the buffer cells that a view of `start..end`
    /// spans, from its first to its last cell, have been replaced by `span`.
    spec fn grid_with_span(&self, start: Coordinate, end: Coordinate, span: Seq<T>) -> Grid<T>;

    /// A mutable view of the rectangle `start..end` of the area. When the
    /// view is done with, the area holds what the view's span holds then.
    fn view_mut(&mut self, start: Coordinate, end: Coordinate) -> (v: TooDeeViewMut<'_, T>)
        requires
            old(self).well_formed(),
            old(self).grid().contains_rect(start, end),
        ensures
            v.inv(),
            v.model() == old(self).grid().sub(start, end),
            v.start().0 == old(self).origin().0 + start.0,
            v.start().1 == old(self).origin().1 + start.1,
            final(v.data)@.len() == v.data@.len() ==> final(self).well_formed() && final(self).grid()
                == old(self).grid_with_span(start, end, final(v.data)@),
    ;

    /// An iterator over the rows of the area, each to be changed in place.
    fn rows_mut(&mut self) -> (it: RowsMut<'_, T>)
        requires
            old(self).well_formed(),
        ensures
            it.well_formed(),
            it.remaining() == old(self).grid().cells,
            it.cols() == old(self).grid().cols,
            it.v is Some && final(it.v->Some_0)@.len() == it.v->Some_0@.len() ==> final(self).well_formed()
                && final(self).grid() == old(self).grid_with_span(
                (0, 0),
                (old(self).grid().cols as usize, old(self).grid().rows as usize),
                final(it.v->Some_0)@,
            ),
    ;

    /// An iterator over column `col`, each cell to be changed in place.
    fn col_mut(&mut self, col: usize) -> (it: ColMut<'_, T>)
        requires
            old(self).well_formed(),
            col < old(self).grid().cols,
        ensures
            it.well_formed(),
            it.remaining() == old(self).grid().column(col as int),
            it.rows.v is Some && final(it.rows.v->Some_0)@.len() == it.rows.v->Some_0@.len() ==> final(self).well_formed()
                && final(self).grid() == old(self).grid_with_span(
                (col, 0),
                ((col + 1) as usize, old(self).grid().rows as usize),
                final(it.rows.v->Some_0)@,
            ),
    ;

    /// An iterator over all cells, row by row, each to be changed in place.
    fn cells_mut(&mut self) -> (it: CellsMut<'_, T>)
        requires
            old(self).well_formed(),
        ensures
            it.well_formed(),
            it.remaining() == crate::layout::flatten_rows(old(self).grid().cells),
            it.cols() == old(self).grid().cols,
            it.iter.v is Some && final(it.iter.v->Some_0)@.len() == it.iter.v->Some_0@.len() ==> final(self).well_formed()
                && final(self).grid() == old(self).grid_with_span(
                (0, 0),
                (old(self).grid().cols as usize, old(self).grid().rows as usize),
                final(it.iter.v->Some_0)@,
            ),
    {
        proof {
            self.lemma_grid_wf();
            assert(self.grid().rows * self.grid().cols == self.grid().cols * self.grid().rows) by (nonlinear_arith);
        }
        CellsMut::new(self.rows_mut())
    }

    /// Sets every cell of the area to a clone of `fill`.
    fn fill(&mut self, fill: T) where T: Clone
        requires
            old(self).well_formed(),
        ensures
            final(self).well_formed(),
            final(self).grid().cols == old(self).grid().cols,
            final(self).grid().rows == old(self).grid().rows,
            forall|c: int, r: int|
                0 <= c < old(self).grid().cols && 0 <= r < old(self).grid().rows ==> cloned(
                    fill,
                    #[trigger] final(self).grid().cells[r][c],
                ),
    {
        proof {
            self.lemma_grid_wf();
        }
        let cols = self.num_cols();
        let rows = self.num_rows();
        let mut r: usize = 0;
        while r < rows
            invariant
                self.well_formed(),
                self.grid().wf(),
                self.grid().cols == cols,
                self.grid().rows == rows,
                r <= rows,
                forall|cc: int, rr: int| 0 <= cc < cols && 0 <= rr < r ==> cloned(fill, #[trigger] self.grid().cells[rr][cc]),
            decreases rows - r,
        {
            let mut c: usize = 0;
            while c < cols
                invariant
                    self.well_formed(),
                    self.grid().wf(),
                    self.grid().cols == cols,
                    self.grid().rows == rows,
                    r < rows,
                    c <= cols,
                    forall|cc: int, rr: int|
                        0 <= cc < cols && 0 <= rr < r || rr == r && 0 <= cc < c ==> cloned(
                            fill,
                            #[trigger] self.grid().cells[rr][cc],
                        ),
                decreases cols - c,
            {
                let cell = self.get_unchecked_mut((c, r));
                *cell = fill.clone();
                proof {
                    self.lemma_grid_wf();
                }
                c += 1;
            }
            r += 1;
        }
    }

    /// Row `row`, which must exist, to be changed in place.
    fn get_unchecked_row_mut(&mut self, row: usize) -> (r: &mut [T])
        requires
            old(self).well_formed(),
            row < old(self).grid().rows,
        ensures
            r@ == old(self).grid().cells[row as int],
            final(r)@.len() == r@.len() ==> final(self).well_formed() && final(self).grid() == old(
                self,
            ).grid().set_row(row as int, final(r)@),
    ;

    /// The cell at `coord`, which must exist, to be changed in place.
    fn get_unchecked_mut(&mut self, coord: Coordinate) -> (r: &mut T)
        requires
            old(self).well_formed(),
            coord.0 < old(self).grid().cols,
            coord.1 < old(self).grid().rows,
        ensures
            *r == old(self).grid().at(coord.0 as int, coord.1 as int),
            final(self).well_formed(),
            final(self).grid() == old(self).grid().set(coord.0 as int, coord.1 as int, *final(r)),
    ;

    /// Rows `r1` and `r2`, which must exist and differ, to be changed together.
    fn row_pair_mut(&mut self, r1: usize, r2: usize) -> (r: (&mut [T], &mut [T]))
        requires
            old(self).well_formed(),
            r1 < old(self).grid().rows,
            r2 < old(self).grid().rows,
            r1 != r2,
        ensures
            r.0@ == old(self).grid().cells[r1 as int],
            r.1@ == old(self).grid().cells[r2 as int],
            final(r.0)@.len() == r.0@.len() && final(r.1)@.len() == r.1@.len() ==> final(self).well_formed()
                && final(self).grid() == old(self).grid().set_row(r1 as int, final(r.0)@).set_row(
                r2 as int,
                final(r.1)@,
            ),
    ;

    /// Exchanges the cells at `a` and `b`.
    fn swap(&mut self, a: Coordinate, b: Coordinate)
        requires
            old(self).well_formed(),
            a.0 < old(self).grid().cols,
            a.1 < old(self).grid().rows,
            b.0 < old(self).grid().cols,
            b.1 < old(self).grid().rows,
        ensures
            final(self).well_formed(),
            final(self).grid() == old(self).grid().set(
                a.0 as int,
                a.1 as int,
                old(self).grid().at(b.0 as int, b.1 as int),
            ).set(b.0 as int, b.1 as int, old(self).grid().at(a.0 as int, a.1 as int)),
    {
        proof {
            self.lemma_grid_wf();
        }
        let ghost g = self.grid();
        if a.1 == b.1 {
            let row = self.get_unchecked_row_mut(a.1);
            slice_swap(row, a.0, b.0);
            assert(self.grid().cells =~= g.set(a.0 as int, a.1 as int, g.at(b.0 as int, b.1 as int)).set(
                b.0 as int,
                b.1 as int,
                g.at(a.0 as int, a.1 as int),
            ).cells);
        } else {
            let (ra, rb) = self.row_pair_mut(a.1, b.1);
            let (x1, x2) = ra.split_at_mut(a.0);
            let (y1, y2) = rb.split_at_mut(b.0);
            let (xa, x3) = x2.split_at_mut(1);
            let (yb, y3) = y2.split_at_mut(1);
            slice_swap_with(xa, yb);
            assert(self.grid().cells[a.1 as int] =~= g.cells[a.1 as int].update(a.0 as int, g.at(b.0 as int, b.1 as int)));
            assert(self.grid().cells[b.1 as int] =~= g.cells[b.1 as int].update(b.0 as int, g.at(a.0 as int, a.1 as int)));
            assert(self.grid().cells =~= g.set(a.0 as int, a.1 as int, g.at(b.0 as int, b.1 as int)).set(
                b.0 as int,
                b.1 as int,
                g.at(a.0 as int, a.1 as int),
            ).cells);
        }
        assert(self.grid().cells =~= g.set(a.0 as int, a.1 as int, g.at(b.0 as int, b.1 as int)).set(
            b.0 as int,
            b.1 as int,
            g.at(a.0 as int, a.1 as int),
        ).cells);
    }

    /// Exchanges columns `c1` and `c2`.
    fn swap_cols(&mut self, c1: usize, c2: usize)
        requires
            old(self).well_formed(),
            c1 < old(self).grid().cols,
            c2 < old(self).grid().cols,
        ensures
            final(self).well_formed(),
            final(self).grid() == old(self).grid().swap_cols(c1 as int, c2 as int),
    {
        proof {
            self.lemma_grid_wf();
        }
        let rows = self.num_rows();
        let mut r: usize = 0;
        while r < rows
            invariant
                self.well_formed(),
                self.grid().wf(),
                rows == self.grid().rows,
                r <= rows,
                c1 < self.grid().cols,
                c2 < self.grid().cols,
                self.grid().cols == old(self).grid().cols,
                self.grid().rows == old(self).grid().rows,
                forall|i: int|
                    0 <= i < r ==> #[trigger] self.grid().cells[i] == old(self).grid().swap_cols(
                        c1 as int,
                        c2 as int,
                    ).cells[i],
                forall|i: int| r <= i < rows ==> #[trigger] self.grid().cells[i] == old(self).grid().cells[i],
            decreases rows - r,
        {
            let row = self.get_unchecked_row_mut(r);
            slice_swap(row, c1, c2);
            proof {
                self.lemma_grid_wf();
            }
            r += 1;
        }
        assert(self.grid().cells =~= old(self).grid().swap_cols(c1 as int, c2 as int).cells);
    }

    /// Exchanges rows `r1` and `r2`; a row exchanged with itself stays.
    fn swap_rows(&mut self, r1: usize, r2: usize)
        requires
            old(self).well_formed(),
            r1 < old(self).grid().rows,
            r2 < old(self).grid().rows,
        ensures
            final(self).well_formed(),
            final(self).grid() == old(self).grid().swap_rows(r1 as int, r2 as int),
    {
        proof {
            self.lemma_grid_wf();
        }
        if r1 == r2 {
            assert(self.grid().cells =~= old(self).grid().swap_rows(r1 as int, r2 as int).cells);
            return;
        }
        let (a, b) = self.row_pair_mut(r1, r2);
        slice_swap_with(a, b);
        assert(self.grid().cells =~= old(self).grid().swap_rows(r1 as int, r2 as int).cells);
    }
}

} // verus!
