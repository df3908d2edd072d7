//! Rectangular views into an array's buffer.
use vstd::prelude::*;

use crate::flattenexact::Cells;
use crate::iter::{Col, ColMut, Rows, RowsMut};
use crate::layout::{
    lemma_strided_row, lemma_strided_set_row, lemma_strided_sub, lemma_strided_update, replace_span, span_len,
    span_mut, strided_cell_mut, strided_row_mut, strided_rows, strided_two_rows_mut,
};
use crate::ops::{Coordinate, Grid, TooDeeOps, TooDeeOpsMut};

verus! {

/// Extents and buffer range of the rectangle `start..end` of an area of
/// `num_cols` x `num_rows` cells whose rows start `main_cols` apart. A
/// rectangle with a zero extent is reported as zero by zero.
pub fn calculate_view_dimensions(
    start: Coordinate,
    end: Coordinate,
    num_cols: usize,
    num_rows: usize,
    main_cols: usize,
) -> (r: (usize, usize, core::ops::Range<usize>))
    requires
        start.0 <= end.0 <= num_cols,
        start.1 <= end.1 <= num_rows,
        num_cols <= main_cols,
        span_len(main_cols as int, num_cols as int, num_rows as int) <= usize::MAX,
    ensures
        (r.0 as nat, r.1 as nat) == Grid::<()>::rect_dims(start, end),
        r.1 > 0 ==> r.2.start == start.1 * main_cols + start.0,
        r.1 > 0 ==> r.2.end == r.2.start + span_len(main_cols as int, r.0 as int, r.1 as int),
        r.1 > 0 ==> r.2.end <= span_len(main_cols as int, num_cols as int, num_rows as int),
        r.1 == 0 ==> r.2.start == 0 && r.2.end == 0,
{
    let mut cols = end.0 - start.0;
    let mut rows = end.1 - start.1;
    if cols == 0 || rows == 0 {
        cols = 0;
        rows = 0;
    }
    if rows == 0 {
        return (0, 0, 0..0);
    }
    proof {
        lemma_strided_sub(
            Seq::<()>::new(span_len(main_cols as int, num_cols as int, num_rows as int) as nat, |i: int| ()),
            main_cols as int,
            num_cols as int,
            num_rows as int,
            start.0 as int,
            start.1 as int,
            cols as int,
            rows as int,
        );
    }
    let data_start = start.1 * main_cols + start.0;
    let data_len = (rows - 1) * main_cols + cols;
    (cols, rows, data_start..data_start + data_len)
}

/// A read-only rectangular view into an array.
pub struct TooDeeView<'a, T> {
    data: &'a [T],
    num_cols: usize,
    num_rows: usize,
    main_cols: usize,
    origin: Coordinate,
}

impl<'a, T> TooDeeView<'a, T> {
    /// A view over the first `num_cols * num_rows` cells of `data`, read as
    /// `num_rows` rows of `num_cols` cells.
    pub fn new(num_cols: usize, num_rows: usize, data: &'a [T]) -> (v: TooDeeView<'a, T>)
        requires
            num_cols == 0 || num_rows == 0 ==> num_cols == num_rows,
            num_cols * num_rows <= data@.len(),
        ensures
            v.well_formed(),
            v.grid() == (Grid {
                cols: num_cols as nat,
                rows: num_rows as nat,
                cells: strided_rows(data@, num_cols as int, num_cols as int, num_rows as int),
            }),
            v.grid().cols == num_cols,
            v.grid().rows == num_rows,
            v.start() == (0usize, 0usize),
    {
        let _len = data.len();
        let size = num_cols * num_rows;
        let (d, _) = data.split_at(size);
        proof {
            if num_rows > 0 {
                assert(num_cols * num_rows == (num_rows - 1) * num_cols + num_cols) by (nonlinear_arith);
            }
        }
        let v = TooDeeView { data: d, num_cols, num_rows, main_cols: num_cols, origin: (0, 0) };
        proof {
            lemma_strided_sub(
                data@,
                num_cols as int,
                num_cols as int,
                num_rows as int,
                0,
                0,
                num_cols as int,
                num_rows as int,
            );
            let a = strided_rows(d@, num_cols as int, num_cols as int, num_rows as int);
            let b = strided_rows(data@, num_cols as int, num_cols as int, num_rows as int);
            assert forall|r: int| 0 <= r < num_rows implies #[trigger] a[r] == b[r] by {
                lemma_strided_row(data@, num_cols as int, num_cols as int, num_rows as int, r);
                assert(b[r].subrange(0, num_cols as int) =~= b[r]);
            }
            assert(a =~= b);
        }
        v
    }

    pub(crate) fn from_parts(data: &'a [T], num_cols: usize, num_rows: usize, main_cols: usize, origin: Coordinate) -> (v: TooDeeView<'a, T>)
        requires
            data@.len() == span_len(main_cols as int, num_cols as int, num_rows as int),
            data@.len() <= usize::MAX,
            num_cols <= main_cols,
            num_cols == 0 <==> num_rows == 0,
            origin.0 + num_cols <= usize::MAX,
            origin.1 + num_rows <= usize::MAX,
        ensures
            v.inv(),
            v.start() == origin,
            v.model() == (Grid {
                cols: num_cols as nat,
                rows: num_rows as nat,
                cells: strided_rows(data@, main_cols as int, num_cols as int, num_rows as int),
            }),
    {
        TooDeeView { data, num_cols, num_rows, main_cols, origin }
    }
}

impl<'a, T> TooDeeView<'a, T> {
    /// Where the view's top-left cell lies in the array it was cut from.
    pub closed spec fn start(&self) -> Coordinate {
        self.origin
    }

    /// What the view shows.
    pub closed spec fn model(&self) -> Grid<T> {
        Grid {
            cols: self.num_cols as nat,
            rows: self.num_rows as nat,
            cells: strided_rows(self.data@, self.main_cols as int, self.num_cols as int, self.num_rows as int),
        }
    }

    /// The span covers the viewed rectangle exactly, and its corner coordinates fit in `usize`.
    pub closed spec fn inv(&self) -> bool {
        &&& self.data@.len() == span_len(self.main_cols as int, self.num_cols as int, self.num_rows as int)
        &&& self.data@.len() <= usize::MAX
        &&& self.num_cols <= self.main_cols
        &&& (self.num_cols == 0 <==> self.num_rows == 0)
        &&& self.origin.0 + self.num_cols <= usize::MAX
        &&& self.origin.1 + self.num_rows <= usize::MAX
    }
}

impl<'a, T> TooDeeOps<T> for TooDeeView<'a, T> {
    open spec fn grid(&self) -> Grid<T> {
        self.model()
    }

    open spec fn origin(&self) -> Coordinate {
        self.start()
    }

    open spec fn well_formed(&self) -> bool {
        self.inv()
    }

    proof fn lemma_grid_wf(&self) {
        assert forall|r: int| 0 <= r < self.num_rows implies #[trigger] self.grid().cells[r].len() == self.num_cols by {
            lemma_strided_row(self.data@, self.main_cols as int, self.num_cols as int, self.num_rows as int, r);
        }
        if self.num_rows > 0 {
            assert(self.num_cols * self.num_rows <= (self.num_rows - 1) * self.main_cols + self.num_cols)
                by (nonlinear_arith)
                requires
                    self.num_cols <= self.main_cols,
                    self.num_rows >= 1,
            ;
        }
    }

    fn num_cols(&self) -> (r: usize) {
        self.num_cols
    }

    fn num_rows(&self) -> (r: usize) {
        self.num_rows
    }

    fn bounds(&self) -> (r: (Coordinate, Coordinate)) {
        (self.origin, (self.origin.0 + self.num_cols, self.origin.1 + self.num_rows))
    }

    fn view(&self, start: Coordinate, end: Coordinate) -> (v: TooDeeView<'_, T>) {
        let len = self.data.len();
        let (num_cols, num_rows, range) = calculate_view_dimensions(
            start,
            end,
            self.num_cols,
            self.num_rows,
            self.main_cols,
        );
        proof {
            lemma_strided_sub(
                self.data@,
                self.main_cols as int,
                self.num_cols as int,
                self.num_rows as int,
                start.0 as int,
                start.1 as int,
                num_cols as int,
                num_rows as int,
            );
        }
        let sub: &[T] = if num_rows == 0 {
            self.data.split_at(0).0
        } else {
            self.data.split_at(range.end).0.split_at(range.start).1
        };
        assert(num_rows > 0 ==> sub@ =~= self.data@.subrange(range.start as int, range.end as int));
        let v = TooDeeView {
            data: sub,
            num_cols,
            num_rows,
            main_cols: self.main_cols,
            origin: (self.origin.0 + start.0, self.origin.1 + start.1),
        };
        assert(v.grid().cells =~= self.grid().sub(start, end).cells);
        v
    }

    fn rows(&self) -> (it: Rows<'_, T>) {
        Rows::new(self.data, self.num_cols, self.main_cols, Ghost(self.num_rows as nat))
    }

    fn col(&self, col: usize) -> (it: Col<'_, T>) {
        let end = col + (self.num_rows - 1) * self.main_cols + 1;
        proof {
            lemma_strided_row(self.data@, self.main_cols as int, self.num_cols as int, self.num_rows as int, self.num_rows - 1);
        }
        let v = self.data.split_at(end).0.split_at(col).1;
        let it = Col::new(v, self.main_cols, Ghost(self.num_rows as nat));
        assert forall|r: int| 0 <= r < self.num_rows implies #[trigger] it.remaining()[r] == self.grid().column(col as int)[r] by {
            lemma_strided_row(self.data@, self.main_cols as int, self.num_cols as int, self.num_rows as int, r);
        }
        assert(it.remaining() =~= self.grid().column(col as int));
        it
    }

    fn get_unchecked_row(&self, row: usize) -> (r: &[T]) {
        proof {
            lemma_strided_row(self.data@, self.main_cols as int, self.num_cols as int, self.num_rows as int, row as int);
        }
        let start = row * self.main_cols;
        self.data.split_at(start + self.num_cols).0.split_at(start).1
    }

    fn get_unchecked(&self, coord: Coordinate) -> (r: &T) {
        proof {
            lemma_strided_row(self.data@, self.main_cols as int, self.num_cols as int, self.num_rows as int, coord.1 as int);
        }
        &self.data[coord.1 * self.main_cols + coord.0]
    }
}


/// A mutable rectangular view into an array.
pub struct TooDeeViewMut<'a, T> {
    /// The buffer cells from the first to the last viewed cell, gaps between rows included.
    pub data: &'a mut [T],
    /// The number of viewed columns.
    pub num_cols: usize,
    /// The number of viewed rows.
    pub num_rows: usize,
    /// The distance between the starts of consecutive rows in `data`.
    pub main_cols: usize,
    /// Where the top-left viewed cell lies in the array the view was cut from.
    pub origin: Coordinate,
}

impl<'a, T> TooDeeViewMut<'a, T> {
    /// Where the view's top-left cell lies in the array it was cut from.
    pub closed spec fn start(&self) -> Coordinate {
        self.origin
    }

    /// What the view shows.
    pub closed spec fn model(&self) -> Grid<T> {
        Grid {
            cols: self.num_cols as nat,
            rows: self.num_rows as nat,
            cells: strided_rows(self.data@, self.main_cols as int, self.num_cols as int, self.num_rows as int),
        }
    }

    /// The span covers the viewed rectangle exactly, and its corner coordinates fit in `usize`.
    pub closed spec fn inv(&self) -> bool {
        &&& self.data@.len() == span_len(self.main_cols as int, self.num_cols as int, self.num_rows as int)
        &&& self.data@.len() <= usize::MAX
        &&& self.num_cols <= self.main_cols
        &&& (self.num_cols == 0 <==> self.num_rows == 0)
        &&& self.origin.0 + self.num_cols <= usize::MAX
        &&& self.origin.1 + self.num_rows <= usize::MAX
    }

    /// A mutable view over the first `num_cols * num_rows` cells of `data`,
    /// read as `num_rows` rows of `num_cols` cells.
    pub fn new(num_cols: usize, num_rows: usize, data: &'a mut [T]) -> (v: TooDeeViewMut<'a, T>)
        requires
            num_cols == 0 || num_rows == 0 ==> num_cols == num_rows,
            num_cols * num_rows <= old(data)@.len(),
        ensures
            v.inv(),
            v.model() == (Grid {
                cols: num_cols as nat,
                rows: num_rows as nat,
                cells: strided_rows(old(data)@, num_cols as int, num_cols as int, num_rows as int),
            }),
            v.start() == (0usize, 0usize),
            final(v.data)@.len() == v.data@.len() ==> final(data)@ == replace_span(old(data)@, 0, final(v.data)@),
    {
        let _len = data.len();
        let size = num_cols * num_rows;
        let ghost d0 = data@;
        let d = span_mut(data, 0, size);
        proof {
            if num_rows > 0 {
                assert(num_cols * num_rows == (num_rows - 1) * num_cols + num_cols) by (nonlinear_arith);
            }
        }
        let ghost dv = d@;
        let v = TooDeeViewMut { data: d, num_cols, num_rows, main_cols: num_cols, origin: (0, 0) };
        proof {
            let a = strided_rows(dv, num_cols as int, num_cols as int, num_rows as int);
            let b = strided_rows(d0, num_cols as int, num_cols as int, num_rows as int);
            assert forall|r: int| 0 <= r < num_rows implies #[trigger] a[r] == b[r] by {
                lemma_strided_row(d0, num_cols as int, num_cols as int, num_rows as int, r);
                lemma_strided_row(dv, num_cols as int, num_cols as int, num_rows as int, r);
                assert(a[r] =~= b[r]);
            }
            assert(a =~= b);
        }
        v
    }

    /// The same view, read-only, for the rest of the borrow.
    pub fn into_view(self) -> (v: TooDeeView<'a, T>)
        requires
            self.inv(),
        ensures
            v.inv(),
            v.model() == self.model(),
            v.start() == self.start(),
    {
        let data: &'a [T] = self.data;
        TooDeeView::from_parts(data, self.num_cols, self.num_rows, self.main_cols, self.origin)
    }

    pub(crate) fn from_parts(data: &'a mut [T], num_cols: usize, num_rows: usize, main_cols: usize, origin: Coordinate) -> (v: TooDeeViewMut<'a, T>)
        requires
            old(data)@.len() == span_len(main_cols as int, num_cols as int, num_rows as int),
            old(data)@.len() <= usize::MAX,
            num_cols <= main_cols,
            num_cols == 0 <==> num_rows == 0,
            origin.0 + num_cols <= usize::MAX,
            origin.1 + num_rows <= usize::MAX,
        ensures
            v.inv(),
            v.start() == origin,
            v.model() == (Grid {
                cols: num_cols as nat,
                rows: num_rows as nat,
                cells: strided_rows(old(data)@, main_cols as int, num_cols as int, num_rows as int),
            }),
            v.data@ == old(data)@,
            final(v.data)@ == final(data)@,
    {
        TooDeeViewMut { data, num_cols, num_rows, main_cols, origin }
    }
}


impl<'a, T> TooDeeOps<T> for TooDeeViewMut<'a, T> {
    open spec fn grid(&self) -> Grid<T> {
        self.model()
    }

    open spec fn origin(&self) -> Coordinate {
        self.start()
    }

    open spec fn well_formed(&self) -> bool {
        self.inv()
    }

    proof fn lemma_grid_wf(&self) {
        assert forall|r: int| 0 <= r < self.num_rows implies #[trigger] self.grid().cells[r].len() == self.num_cols by {
            lemma_strided_row(self.data@, self.main_cols as int, self.num_cols as int, self.num_rows as int, r);
        }
        if self.num_rows > 0 {
            assert(self.num_cols * self.num_rows <= (self.num_rows - 1) * self.main_cols + self.num_cols)
                by (nonlinear_arith)
                requires
                    self.num_cols <= self.main_cols,
                    self.num_rows >= 1,
            ;
        }
    }

    fn num_cols(&self) -> (r: usize) {
        self.num_cols
    }

    fn num_rows(&self) -> (r: usize) {
        self.num_rows
    }

    fn bounds(&self) -> (r: (Coordinate, Coordinate)) {
        (self.origin, (self.origin.0 + self.num_cols, self.origin.1 + self.num_rows))
    }

    fn view(&self, start: Coordinate, end: Coordinate) -> (v: TooDeeView<'_, T>) {
        let data: &[T] = &*self.data;
        let (num_cols, num_rows, range) = calculate_view_dimensions(
            start,
            end,
            self.num_cols,
            self.num_rows,
            self.main_cols,
        );
        proof {
            lemma_strided_sub(
                data@,
                self.main_cols as int,
                self.num_cols as int,
                self.num_rows as int,
                start.0 as int,
                start.1 as int,
                num_cols as int,
                num_rows as int,
            );
        }
        let sub: &[T] = if num_rows == 0 {
            data.split_at(0).0
        } else {
            data.split_at(range.end).0.split_at(range.start).1
        };
        assert(num_rows > 0 ==> sub@ =~= data@.subrange(range.start as int, range.end as int));
        let v = TooDeeView::from_parts(
            sub,
            num_cols,
            num_rows,
            self.main_cols,
            (self.origin.0 + start.0, self.origin.1 + start.1),
        );
        assert(v.model().cells =~= self.grid().sub(start, end).cells);
        v
    }

    fn rows(&self) -> (it: Rows<'_, T>) {
        Rows::new(&*self.data, self.num_cols, self.main_cols, Ghost(self.num_rows as nat))
    }

    fn col(&self, col: usize) -> (it: Col<'_, T>) {
        let data: &[T] = &*self.data;
        let end = col + (self.num_rows - 1) * self.main_cols + 1;
        proof {
            lemma_strided_row(data@, self.main_cols as int, self.num_cols as int, self.num_rows as int, self.num_rows - 1);
        }
        let v = data.split_at(end).0.split_at(col).1;
        let it = Col::new(v, self.main_cols, Ghost(self.num_rows as nat));
        assert forall|r: int| 0 <= r < self.num_rows implies #[trigger] it.remaining()[r] == self.grid().column(col as int)[r] by {
            lemma_strided_row(data@, self.main_cols as int, self.num_cols as int, self.num_rows as int, r);
        }
        assert(it.remaining() =~= self.grid().column(col as int));
        it
    }

    fn get_unchecked_row(&self, row: usize) -> (r: &[T]) {
        proof {
            lemma_strided_row(self.data@, self.main_cols as int, self.num_cols as int, self.num_rows as int, row as int);
        }
        let start = row * self.main_cols;
        let data: &[T] = &*self.data;
        data.split_at(start + self.num_cols).0.split_at(start).1
    }

    fn get_unchecked(&self, coord: Coordinate) -> (r: &T) {
        proof {
            lemma_strided_row(self.data@, self.main_cols as int, self.num_cols as int, self.num_rows as int, coord.1 as int);
        }
        let data: &[T] = &*self.data;
        &data[coord.1 * self.main_cols + coord.0]
    }
}

impl<'a, T> TooDeeOpsMut<T> for TooDeeViewMut<'a, T> {
    closed spec fn grid_with_span(&self, start: Coordinate, end: Coordinate, span: Seq<T>) -> Grid<T> {
        let offset = if Grid::<T>::rect_dims(start, end).1 > 0 { start.1 * self.main_cols + start.0 } else { 0 };
        Grid {
            cols: self.num_cols as nat,
            rows: self.num_rows as nat,
            cells: strided_rows(
                replace_span(self.data@, offset, span),
                self.main_cols as int,
                self.num_cols as int,
                self.num_rows as int,
            ),
        }
    }

    fn rows_mut(&mut self) -> (it: RowsMut<'_, T>) {
        let cols = self.num_cols;
        let main = self.main_cols;
        let rows = Ghost(self.num_rows as nat);
        assert forall|span: Seq<T>| span.len() == self.data@.len() implies #[trigger] self.grid_with_span(
            (0, 0),
            (self.num_cols, self.num_rows),
            span,
        ).cells == strided_rows(span, main as int, cols as int, self.num_rows as int) by {
            assert(replace_span(self.data@, 0, span) =~= span);
            if self.num_rows > 0 {
                assert(0 * self.main_cols + 0 == 0);
            }
            assert(self.grid_with_span((0, 0), (self.num_cols, self.num_rows), span).cells == strided_rows(
                replace_span(self.data@, 0, span),
                self.main_cols as int,
                self.num_cols as int,
                self.num_rows as int,
            ));
        }
        RowsMut::new(&mut *self.data, cols, main, rows)
    }

    fn col_mut(&mut self, col: usize) -> (it: ColMut<'_, T>) {
        proof {
            lemma_strided_row(self.data@, self.main_cols as int, self.num_cols as int, self.num_rows as int, self.num_rows - 1);
        }
        let ghost d0 = self.data@;
        let main = self.main_cols;
        let rows = self.num_rows;
        let len = (rows - 1) * main + 1;
        assert forall|span: Seq<T>| span.len() == len implies #[trigger] self.grid_with_span(
            (col, 0),
            ((col + 1) as usize, self.num_rows),
            span,
        ).cells == strided_rows(replace_span(self.data@, col as int, span), main as int, self.num_cols as int, rows as int) by {
            assert(0 * self.main_cols == 0);
            assert(Grid::<T>::rect_dims((col, 0), ((col + 1) as usize, self.num_rows)).1 == self.num_rows);
        }
        let v = span_mut(&mut *self.data, col, len);
        let ghost vv = v@;
        let it = ColMut::new(v, main, Ghost(rows as nat));
        assert forall|r: int| 0 <= r < rows implies #[trigger] it.remaining()[r] == old(self).grid().column(col as int)[r] by {
            lemma_strided_row(d0, main as int, self.num_cols as int, rows as int, r);
            assert(vv[r * main] == d0[r * main + col]);
        }
        assert(it.remaining() =~= old(self).grid().column(col as int));
        it
    }

    fn view_mut(&mut self, start: Coordinate, end: Coordinate) -> (v: TooDeeViewMut<'_, T>) {
        let (num_cols, num_rows, range) = calculate_view_dimensions(
            start,
            end,
            self.num_cols,
            self.num_rows,
            self.main_cols,
        );
        proof {
            lemma_strided_sub(
                self.data@,
                self.main_cols as int,
                self.num_cols as int,
                self.num_rows as int,
                start.0 as int,
                start.1 as int,
                num_cols as int,
                num_rows as int,
            );
        }
        let ghost d0 = self.data@;
        let sub = span_mut(&mut *self.data, range.start, range.end - range.start);
        assert(num_rows > 0 ==> sub@ =~= d0.subrange(range.start as int, range.end as int));
        let v = TooDeeViewMut::from_parts(
            sub,
            num_cols,
            num_rows,
            self.main_cols,
            (self.origin.0 + start.0, self.origin.1 + start.1),
        );
        assert(v.model().cells =~= old(self).grid().sub(start, end).cells);
        v
    }

    fn get_unchecked_row_mut(&mut self, row: usize) -> (r: &mut [T]) {
        let main = self.main_cols;
        let cols = self.num_cols;
        let rows = Ghost(self.num_rows as int);
        proof {
            assert forall|nr: Seq<T>| nr.len() == cols implies #[trigger] strided_rows(
                replace_span(self.data@, row * main, nr),
                main as int,
                cols as int,
                self.num_rows as int,
            ) == self.model().cells.update(row as int, nr) && replace_span(self.data@, row * main, nr).len()
                == self.data@.len() by {
                lemma_strided_set_row(self.data@, main as int, cols as int, self.num_rows as int, row as int, nr);
            }
        }
        strided_row_mut(&mut *self.data, main, cols, rows, row)
    }

    fn get_unchecked_mut(&mut self, coord: Coordinate) -> (r: &mut T) {
        let main = self.main_cols;
        let cols = self.num_cols;
        let rows = Ghost(self.num_rows as int);
        proof {
            assert forall|v: T| #[trigger] strided_rows(
                self.data@.update(coord.1 * main + coord.0, v),
                main as int,
                cols as int,
                self.num_rows as int,
            ) == self.model().set(coord.0 as int, coord.1 as int, v).cells by {
                lemma_strided_update(self.data@, main as int, cols as int, self.num_rows as int, coord.0 as int, coord.1 as int, v);
            }
        }
        strided_cell_mut(&mut *self.data, main, cols, rows, coord.0, coord.1)
    }

    fn row_pair_mut(&mut self, r1: usize, r2: usize) -> (r: (&mut [T], &mut [T])) {
        proof {
            self.lemma_grid_wf();
        }
        let main = self.main_cols;
        let cols = self.num_cols;
        strided_two_rows_mut(&mut *self.data, main, cols, Ghost(self.num_rows as int), r1, r2)
    }
}


impl<'a, T> vstd::std_specs::core::IndexSpecImpl<usize> for TooDeeView<'a, T> {
    open spec fn index_req(&self, row: &usize) -> bool {
        self.inv() && *row < self.model().rows
    }
}

impl<'a, T> core::ops::Index<usize> for TooDeeView<'a, T> {
    type Output = [T];

    /// Row `row` of the view.
    fn index(&self, row: usize) -> (r: &[T])
        ensures
            r@ == self.model().cells[row as int],
    {
        self.get_unchecked_row(row)
    }
}

impl<'a, T> vstd::std_specs::core::IndexSpecImpl<Coordinate> for TooDeeView<'a, T> {
    open spec fn index_req(&self, coord: &Coordinate) -> bool {
        self.inv() && coord.0 < self.model().cols && coord.1 < self.model().rows
    }
}

impl<'a, T> core::ops::Index<Coordinate> for TooDeeView<'a, T> {
    type Output = T;

    /// The cell of the view at `coord`.
    fn index(&self, coord: Coordinate) -> (r: &T)
        ensures
            *r == self.model().at(coord.0 as int, coord.1 as int),
    {
        self.get_unchecked(coord)
    }
}

impl<'a, T> vstd::std_specs::core::IndexSpecImpl<usize> for TooDeeViewMut<'a, T> {
    open spec fn index_req(&self, row: &usize) -> bool {
        self.inv() && *row < self.model().rows
    }
}

impl<'a, T> core::ops::Index<usize> for TooDeeViewMut<'a, T> {
    type Output = [T];

    /// Row `row` of the view.
    fn index(&self, row: usize) -> (r: &[T])
        ensures
            r@ == self.model().cells[row as int],
    {
        self.get_unchecked_row(row)
    }
}

impl<'a, T> vstd::std_specs::core::IndexSpecImpl<Coordinate> for TooDeeViewMut<'a, T> {
    open spec fn index_req(&self, coord: &Coordinate) -> bool {
        self.inv() && coord.0 < self.model().cols && coord.1 < self.model().rows
    }
}

impl<'a, T> core::ops::Index<Coordinate> for TooDeeViewMut<'a, T> {
    type Output = T;

    /// The cell of the view at `coord`.
    fn index(&self, coord: Coordinate) -> (r: &T)
        ensures
            *r == self.model().at(coord.0 as int, coord.1 as int),
    {
        self.get_unchecked(coord)
    }
}

} // verus!
