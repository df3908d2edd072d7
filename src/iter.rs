//! Strided iteration over the rows and columns of an area.
use vstd::prelude::*;

use crate::layout::{lemma_strided_past_end, lemma_strided_prefix, lemma_strided_skip, span_len, strided_rows};

verus! {

/// Iterators that walk an area with a known row width.
pub trait TooDeeIterator {
    /// The number of columns of the area being walked.
    spec fn spec_num_cols(&self) -> nat;

    /// The number of columns of the area being walked.
    fn num_cols(&self) -> (r: usize)
        ensures
            r == self.spec_num_cols(),
    ;
}

/// An iterator over the rows of an area: each row is `cols` cells, and
/// `skip_cols` cells of the underlying buffer separate consecutive rows.
pub struct Rows<'a, T> {
    v: &'a [T],
    cols: usize,
    skip_cols: usize,
    count: Ghost<nat>,
}

impl<'a, T> Rows<'a, T> {
    /// The rows not yet produced, front to back.
    pub closed spec fn remaining(&self) -> Seq<Seq<T>> {
        strided_rows(self.v@, self.cols + self.skip_cols, self.cols as int, self.count@ as int)
    }

    /// The row width.
    pub closed spec fn cols(&self) -> nat {
        self.cols as nat
    }

    /// The span covers exactly the remaining rows and the gaps between them.
    pub closed spec fn well_formed(&self) -> bool {
        &&& self.v@.len() == span_len(self.cols + self.skip_cols, self.cols as int, self.count@ as int)
        &&& self.cols + self.skip_cols <= usize::MAX
        &&& (self.cols == 0 ==> self.count@ == 0)
    }

    /// Every remaining row has `cols` cells.
    pub proof fn lemma_rows_len(&self)
        requires
            self.well_formed(),
        ensures
            forall|r: int| 0 <= r < self.remaining().len() ==> #[trigger] self.remaining()[r].len() == self.cols(),
            self.remaining().len() > 0 ==> self.cols() > 0,
            self.spec_num_cols() == self.cols(),
    {
        assert forall|r: int| 0 <= r < self.remaining().len() implies #[trigger] self.remaining()[r].len()
            == self.cols() by {
            crate::layout::lemma_strided_row(
                self.v@,
                self.cols + self.skip_cols,
                self.cols as int,
                self.count@ as int,
                r,
            );
        }
    }

    /// Rows of `cols` cells, `stride` apart, covering the whole of `v`.
    pub(crate) fn new(v: &'a [T], cols: usize, stride: usize, rows: Ghost<nat>) -> (it: Self)
        requires
            cols <= stride,
            v@.len() == span_len(stride as int, cols as int, rows@ as int),
            cols == 0 ==> rows@ == 0,
        ensures
            it.well_formed(),
            it.remaining() == strided_rows(v@, stride as int, cols as int, rows@ as int),
            it.cols() == cols,
    {
        Rows { v, cols, skip_cols: stride - cols, count: rows }
    }

    /// The number of rows left, computed from the span length alone.
    pub fn len(&self) -> (r: usize)
        requires
            self.well_formed(),
        ensures
            r == self.remaining().len(),
    {
        if self.cols == 0 {
            return 0;
        }
        let len = self.v.len();
        let denom = self.cols + self.skip_cols;
        proof {
            let d = denom as int;
            let c = self.cols as int;
            let k = self.count@ as int;
            if k == 0 {
                assert(len == 0);
            } else if c == d {
                assert(len == k * d) by (nonlinear_arith)
                    requires
                        len == (k - 1) * d + c,
                        c == d,
                ;
                vstd::arithmetic::div_mod::lemma_fundamental_div_mod_converse(len as int, d, k, 0);
            } else {
                vstd::arithmetic::div_mod::lemma_fundamental_div_mod_converse(len as int, d, k - 1, c);
                vstd::arithmetic::div_mod::lemma_div_by_self(c);
            }
            assert(k <= len) by (nonlinear_arith)
                requires
                    k >= 1 ==> len == (k - 1) * d + c,
                    k >= 0,
                    d >= c >= 1,
            ;
        }
        let n = len / denom + (len % denom) / self.cols;
        n
    }

    /// The exact number of rows left, as both bounds.
    pub fn size_hint(&self) -> (r: (usize, Option<usize>))
        requires
            self.well_formed(),
        ensures
            r.0 == self.remaining().len(),
            r.1 == Some(r.0),
    {
        let n = self.len();
        (n, Some(n))
    }

    /// The first remaining row, which is then consumed.
    pub fn next(&mut self) -> (r: Option<&'a [T]>)
        requires
            old(self).well_formed(),
        ensures
            final(self).well_formed(),
            final(self).cols() == old(self).cols(),
            old(self).remaining().len() == 0 ==> r is None && final(self).remaining() == old(
                self,
            ).remaining(),
            old(self).remaining().len() > 0 ==> r is Some && r.unwrap()@ == old(self).remaining()[0]
                && final(self).remaining() == old(self).remaining().drop_first(),
    {
        if self.v.len() == 0 {
            return None;
        }
        let ghost d = self.cols + self.skip_cols;
        let ghost n = self.count@ as int;
        let ghost data = self.v@;
        proof {
            crate::layout::lemma_strided_row(data, d, self.cols as int, n, 0);
        }
        let (fst, snd) = self.v.split_at(self.cols);
        if snd.len() == 0 {
            self.v = snd;
            self.count = Ghost(0);
            assert(n == 1) by {
                if n > 1 {
                    assert((n - 1) * d >= d) by (nonlinear_arith)
                        requires
                            n - 1 >= 1,
                            d >= 0,
                    ;
                }
            }
            assert(self.remaining() =~= strided_rows(data, d, self.cols as int, n).drop_first());
        } else {
            proof {
                if n == 1 {
                    assert(false);
                }
                lemma_strided_skip(data, d, self.cols as int, n, 1);
            }
            let (_, rest) = snd.split_at(self.skip_cols);
            self.v = rest;
            self.count = Ghost((n - 1) as nat);
            assert(rest@ =~= data.subrange(d, data.len() as int));
            assert(strided_rows(data, d, self.cols as int, n).subrange(1, n) =~= strided_rows(
                data,
                d,
                self.cols as int,
                n,
            ).drop_first());
        }
        Some(fst)
    }

    /// The last remaining row, which is then consumed.
    pub fn next_back(&mut self) -> (r: Option<&'a [T]>)
        requires
            old(self).well_formed(),
        ensures
            final(self).well_formed(),
            final(self).cols() == old(self).cols(),
            old(self).remaining().len() == 0 ==> r is None && final(self).remaining() == old(
                self,
            ).remaining(),
            old(self).remaining().len() > 0 ==> r is Some && r.unwrap()@ == old(self).remaining().last()
                && final(self).remaining() == old(self).remaining().drop_last(),
    {
        if self.v.len() == 0 {
            return None;
        }
        let ghost d = self.cols + self.skip_cols;
        let ghost n = self.count@ as int;
        let ghost data = self.v@;
        proof {
            crate::layout::lemma_strided_row(data, d, self.cols as int, n, n - 1);
            lemma_strided_prefix(data, d, self.cols as int, n, n - 1);
        }
        let (fst, snd) = self.v.split_at(self.v.len() - self.cols);
        if fst.len() == 0 {
            self.v = fst;
            self.count = Ghost(0);
            assert(n == 1) by {
                if n > 1 {
                    assert((n - 1) * d >= d) by (nonlinear_arith)
                        requires
                            n - 1 >= 1,
                            d >= 0,
                    ;
                }
            }
            assert(self.remaining() =~= strided_rows(data, d, self.cols as int, n).drop_last());
        } else {
            proof {
                if n == 1 {
                    assert((n - 1) * d == 0) by (nonlinear_arith)
                        requires
                            n == 1,
                    ;
                    assert(false);
                }
                assert((n - 1) * d == (n - 2) * d + d) by (nonlinear_arith);
            }
            let (rest, _) = fst.split_at(fst.len() - self.skip_cols);
            self.v = rest;
            self.count = Ghost((n - 1) as nat);
            assert(rest@ =~= data.subrange(0, span_len(d, self.cols as int, n - 1)));
            assert(strided_rows(data, d, self.cols as int, n).subrange(0, n - 1) =~= strided_rows(
                data,
                d,
                self.cols as int,
                n,
            ).drop_last());
        }
        Some(snd)
    }

    /// Skips `n` rows in constant time and produces the next one.
    pub fn nth(&mut self, n: usize) -> (r: Option<&'a [T]>)
        requires
            old(self).well_formed(),
        ensures
            final(self).well_formed(),
            final(self).cols() == old(self).cols(),
            n >= old(self).remaining().len() ==> r is None && final(self).remaining().len() == 0,
            n < old(self).remaining().len() ==> r is Some && r.unwrap()@ == old(self).remaining()[n as int]
                && final(self).remaining() == old(self).remaining().subrange(
                n + 1,
                old(self).remaining().len() as int,
            ),
    {
        let ghost d = self.cols + self.skip_cols;
        let ghost k = self.count@ as int;
        let ghost data = self.v@;
        let ghost all = self.remaining();
        let len = self.v.len();
        proof {
            if n == 0 {
                assert(n * d == 0) by (nonlinear_arith)
                    requires
                        n == 0,
                ;
            }
        }
        match n.checked_mul(self.cols + self.skip_cols) {
            Some(start) => {
                if start >= self.v.len() {
                    proof {
                        if 0 < n < k {
                            lemma_strided_skip(data, d, self.cols as int, k, n as int);
                        }
                        if k > 0 {
                            assert((k - 1) * d >= 0) by (nonlinear_arith)
                                requires
                                    k >= 1,
                                    d >= 0,
                            ;
                        }
                    }
                    self.v = self.v.split_at(0).0;
                    self.count = Ghost(0);
                    assert(self.remaining() =~= Seq::<Seq<T>>::empty());
                } else if n > 0 {
                    proof {
                        if n >= k {
                            lemma_strided_past_end(d, self.cols as int, k, n as int);
                        }
                        lemma_strided_skip(data, d, self.cols as int, k, n as int);
                    }
                    self.v = self.v.split_at(start).1;
                    self.count = Ghost((k - n) as nat);
                    assert(self.v@ =~= data.subrange(n * d, data.len() as int));
                }
            },
            None => {
                proof {
                    if n < k {
                        if n > 0 {
                            lemma_strided_skip(data, d, self.cols as int, k, n as int);
                        }
                        assert(data.len() <= usize::MAX);
                    }
                }
                self.v = self.v.split_at(0).0;
                self.count = Ghost(0);
                assert(self.remaining() =~= Seq::<Seq<T>>::empty());
            },
        }
        let r = self.next();
        proof {
            if n < k {
                assert(all.subrange(n as int, k).drop_first() =~= all.subrange(n + 1, k));
                assert(all.subrange(0, k) =~= all);
            }
        }
        r
    }

    /// Skips `n` rows from the back in constant time and produces the row before them.
    pub fn nth_back(&mut self, n: usize) -> (r: Option<&'a [T]>)
        requires
            old(self).well_formed(),
        ensures
            final(self).well_formed(),
            final(self).cols() == old(self).cols(),
            n >= old(self).remaining().len() ==> r is None && final(self).remaining().len() == 0,
            n < old(self).remaining().len() ==> r is Some && r.unwrap()@ == old(self).remaining()[
                old(self).remaining().len() - 1 - n]
                && final(self).remaining() == old(self).remaining().subrange(
                0,
                old(self).remaining().len() - 1 - n,
            ),
    {
        let ghost d = self.cols + self.skip_cols;
        let ghost k = self.count@ as int;
        let ghost data = self.v@;
        let ghost all = self.remaining();
        let len = self.v.len();
        proof {
            if n == 0 {
                assert(n * d == 0) by (nonlinear_arith)
                    requires
                        n == 0,
                ;
            }
        }
        match n.checked_mul(self.cols + self.skip_cols) {
            Some(adj) => {
                if adj >= self.v.len() {
                    proof {
                        if 0 < n < k {
                            lemma_strided_skip(data, d, self.cols as int, k, n as int);
                        }
                        if k > 0 {
                            assert((k - 1) * d >= 0) by (nonlinear_arith)
                                requires
                                    k >= 1,
                                    d >= 0,
                            ;
                        }
                    }
                    self.v = self.v.split_at(0).0;
                    self.count = Ghost(0);
                    assert(self.remaining() =~= Seq::<Seq<T>>::empty());
                } else {
                    proof {
                        if n >= k {
                            lemma_strided_past_end(d, self.cols as int, k, n as int);
                        }
                        lemma_strided_prefix(data, d, self.cols as int, k, k - n);
                    }
                    self.v = self.v.split_at(self.v.len() - adj).0;
                    self.count = Ghost((k - n) as nat);
                    assert(self.v@ =~= data.subrange(0, span_len(d, self.cols as int, k - n)));
                }
            },
            None => {
                proof {
                    if n < k {
                        if n > 0 {
                            lemma_strided_skip(data, d, self.cols as int, k, n as int);
                        }
                        assert(data.len() <= usize::MAX);
                    }
                }
                self.v = self.v.split_at(0).0;
                self.count = Ghost(0);
                assert(self.remaining() =~= Seq::<Seq<T>>::empty());
            },
        }
        let r = self.next_back();
        proof {
            if n < k {
                assert(all.subrange(0, k - n).drop_last() =~= all.subrange(0, k - 1 - n));
                assert(all.subrange(0, k) =~= all);
            }
        }
        r
    }
}

impl<'a, T> TooDeeIterator for Rows<'a, T> {
    closed spec fn spec_num_cols(&self) -> nat {
        self.cols as nat
    }

    fn num_cols(&self) -> (r: usize) {
        self.cols
    }
}

/// An iterator over one column of an area: a row iterator whose rows are one cell wide.
pub struct Col<'a, T> {
    rows: Rows<'a, T>,
}

impl<'a, T> Col<'a, T> {
    /// The cells not yet produced, top to bottom.
    pub closed spec fn remaining(&self) -> Seq<T> {
        Seq::new(self.rows.remaining().len(), |i: int| self.rows.remaining()[i][0])
    }

    /// The underlying one-cell-wide rows are well formed.
    pub closed spec fn well_formed(&self) -> bool {
        &&& self.rows.well_formed()
        &&& self.rows.cols() == 1
    }

    /// Cells `stride` apart, from the first to the last cell of `v`.
    pub(crate) fn new(v: &'a [T], stride: usize, count: Ghost<nat>) -> (it: Self)
        requires
            1 <= stride,
            v@.len() == span_len(stride as int, 1, count@ as int),
        ensures
            it.well_formed(),
            it.remaining() == Seq::new(count@, |i: int| v@[i * stride]),
    {
        let rows = Rows::new(v, 1, stride, count);
        let it = Col { rows };
        assert forall|i: int| 0 <= i < count@ implies #[trigger] it.remaining()[i] == v@[i * stride] by {
            crate::layout::lemma_strided_row(v@, stride as int, 1, count@ as int, i);
        }
        assert(it.remaining() =~= Seq::new(count@, |i: int| v@[i * stride]));
        it
    }

    /// The number of cells left.
    pub fn len(&self) -> (r: usize)
        requires
            self.well_formed(),
        ensures
            r == self.remaining().len(),
    {
        self.rows.len()
    }

    /// The exact number of cells left, as both bounds.
    pub fn size_hint(&self) -> (r: (usize, Option<usize>))
        requires
            self.well_formed(),
        ensures
            r.0 == self.remaining().len(),
            r.1 == Some(r.0),
    {
        self.rows.size_hint()
    }

    /// The cell `idx` places below the first remaining one.
    pub fn get(&self, idx: usize) -> (r: &'a T)
        requires
            self.well_formed(),
            idx < self.remaining().len(),
        ensures
            *r == self.remaining()[idx as int],
    {
        let stride = 1 + self.rows.skip_cols;
        let _len = self.rows.v.len();
        proof {
            crate::layout::lemma_strided_row(
                self.rows.v@,
                stride as int,
                1,
                self.rows.count@ as int,
                idx as int,
            );
        }
        &self.rows.v[idx * stride]
    }

    /// The first remaining cell, which is then consumed.
    pub fn next(&mut self) -> (r: Option<&'a T>)
        requires
            old(self).well_formed(),
        ensures
            final(self).well_formed(),
            old(self).remaining().len() == 0 ==> r is None && final(self).remaining() == old(
                self,
            ).remaining(),
            old(self).remaining().len() > 0 ==> r == Some(&old(self).remaining()[0])
                && final(self).remaining() == old(self).remaining().drop_first(),
    {
        proof {
            self.rows.lemma_rows_len();
        }
        let r = match self.rows.next() {
            Some(s) => Some(&s[0]),
            None => None,
        };
        assert(self.remaining() =~= old(self).remaining().drop_first() || old(self).remaining().len() == 0);
        r
    }

    /// The last remaining cell, which is then consumed.
    pub fn next_back(&mut self) -> (r: Option<&'a T>)
        requires
            old(self).well_formed(),
        ensures
            final(self).well_formed(),
            old(self).remaining().len() == 0 ==> r is None && final(self).remaining() == old(
                self,
            ).remaining(),
            old(self).remaining().len() > 0 ==> r == Some(&old(self).remaining().last())
                && final(self).remaining() == old(self).remaining().drop_last(),
    {
        proof {
            self.rows.lemma_rows_len();
        }
        let r = match self.rows.next_back() {
            Some(s) => Some(&s[0]),
            None => None,
        };
        assert(self.remaining() =~= old(self).remaining().drop_last() || old(self).remaining().len() == 0);
        r
    }

    /// Skips `n` cells in constant time and produces the next one.
    pub fn nth(&mut self, n: usize) -> (r: Option<&'a T>)
        requires
            old(self).well_formed(),
        ensures
            final(self).well_formed(),
            n >= old(self).remaining().len() ==> r is None && final(self).remaining().len() == 0,
            n < old(self).remaining().len() ==> r == Some(&old(self).remaining()[n as int])
                && final(self).remaining() == old(self).remaining().subrange(
                n + 1,
                old(self).remaining().len() as int,
            ),
    {
        proof {
            self.rows.lemma_rows_len();
        }
        let r = match self.rows.nth(n) {
            Some(s) => Some(&s[0]),
            None => None,
        };
        assert(self.remaining() =~= old(self).remaining().subrange(n + 1, old(self).remaining().len() as int)
            || n >= old(self).remaining().len());
        r
    }

    /// Skips `n` cells from the back in constant time and produces the cell before them.
    pub fn nth_back(&mut self, n: usize) -> (r: Option<&'a T>)
        requires
            old(self).well_formed(),
        ensures
            final(self).well_formed(),
            n >= old(self).remaining().len() ==> r is None && final(self).remaining().len() == 0,
            n < old(self).remaining().len() ==> r == Some(
                &old(self).remaining()[old(self).remaining().len() - 1 - n],
            ) && final(self).remaining() == old(self).remaining().subrange(
                0,
                old(self).remaining().len() - 1 - n,
            ),
    {
        proof {
            self.rows.lemma_rows_len();
        }
        let r = match self.rows.nth_back(n) {
            Some(s) => Some(&s[0]),
            None => None,
        };
        assert(self.remaining() =~= old(self).remaining().subrange(0, old(self).remaining().len() - 1 - n)
            || n >= old(self).remaining().len());
        r
    }
}


/// An iterator over the rows of an area, each handed out for writing.
pub struct RowsMut<'a, T> {
    /// The buffer cells from the first remaining cell to the last, gaps included; `None` once done.
    pub v: Option<&'a mut [T]>,
    /// The row width.
    pub cols: usize,
    /// The number of buffer cells between one row's end and the next row's start.
    pub skip_cols: usize,
    /// The number of rows left.
    pub count: Ghost<nat>,
}

impl<'a, T> RowsMut<'a, T> {
    /// The cells of the span still to be walked.
    pub closed spec fn span(&self) -> Seq<T> {
        match self.v {
            Some(s) => s@,
            None => Seq::empty(),
        }
    }

    /// The rows not yet produced, front to back.
    pub closed spec fn remaining(&self) -> Seq<Seq<T>> {
        strided_rows(self.span(), self.cols + self.skip_cols, self.cols as int, self.count@ as int)
    }

    /// The row width.
    pub closed spec fn cols(&self) -> nat {
        self.cols as nat
    }

    /// The span covers exactly the remaining rows and the gaps between them.
    pub closed spec fn well_formed(&self) -> bool {
        &&& self.span().len() == span_len(self.cols + self.skip_cols, self.cols as int, self.count@ as int)
        &&& self.span().len() <= usize::MAX
        &&& self.cols + self.skip_cols <= usize::MAX
        &&& (self.cols == 0 ==> self.count@ == 0)
    }

    /// Every remaining row has `cols` cells.
    pub proof fn lemma_rows_len(&self)
        requires
            self.well_formed(),
        ensures
            forall|r: int| 0 <= r < self.remaining().len() ==> #[trigger] self.remaining()[r].len() == self.cols(),
            self.remaining().len() > 0 ==> self.cols() > 0,
            self.spec_num_cols() == self.cols(),
    {
        assert forall|r: int| 0 <= r < self.remaining().len() implies #[trigger] self.remaining()[r].len()
            == self.cols() by {
            crate::layout::lemma_strided_row(
                self.span(),
                self.cols + self.skip_cols,
                self.cols as int,
                self.count@ as int,
                r,
            );
        }
    }

    /// Rows of `cols` cells, `stride` apart, covering the whole of `v`.
    pub(crate) fn new(v: &'a mut [T], cols: usize, stride: usize, rows: Ghost<nat>) -> (it: Self)
        requires
            cols <= stride,
            old(v)@.len() == span_len(stride as int, cols as int, rows@ as int),
            cols == 0 ==> rows@ == 0,
        ensures
            it.well_formed(),
            it.remaining() == strided_rows(old(v)@, stride as int, cols as int, rows@ as int),
            it.cols() == cols,
            it.v is Some,
            it.v->Some_0@ == old(v)@,
            final(it.v->Some_0)@ == final(v)@,
    {
        let _len = v.len();
        RowsMut { v: Some(v), cols, skip_cols: stride - cols, count: rows }
    }

    /// The number of rows left, computed from the span length alone.
    pub fn len(&self) -> (r: usize)
        requires
            self.well_formed(),
        ensures
            r == self.remaining().len(),
    {
        if self.cols == 0 {
            return 0;
        }
        let len = match &self.v {
            Some(s) => s.len(),
            None => 0,
        };
        let denom = self.cols + self.skip_cols;
        proof {
            let d = denom as int;
            let c = self.cols as int;
            let k = self.count@ as int;
            if k == 0 {
                assert(len == 0);
            } else if c == d {
                assert(len == k * d) by (nonlinear_arith)
                    requires
                        len == (k - 1) * d + c,
                        c == d,
                ;
                vstd::arithmetic::div_mod::lemma_fundamental_div_mod_converse(len as int, d, k, 0);
            } else {
                vstd::arithmetic::div_mod::lemma_fundamental_div_mod_converse(len as int, d, k - 1, c);
                vstd::arithmetic::div_mod::lemma_div_by_self(c);
            }
            assert(k <= len) by (nonlinear_arith)
                requires
                    k >= 1 ==> len == (k - 1) * d + c,
                    k >= 0,
                    d >= c >= 1,
            ;
        }
        len / denom + (len % denom) / self.cols
    }

    /// The exact number of rows left, as both bounds.
    pub fn size_hint(&self) -> (r: (usize, Option<usize>))
        requires
            self.well_formed(),
        ensures
            r.0 == self.remaining().len(),
            r.1 == Some(r.0),
    {
        let n = self.len();
        (n, Some(n))
    }

    /// The first remaining row, which is then consumed.
    pub fn next(&mut self) -> (r: Option<&'a mut [T]>)
        requires
            old(self).well_formed(),
        ensures
            final(self).well_formed(),
            final(self).cols() == old(self).cols(),
            old(self).remaining().len() == 0 ==> r is None && final(self).remaining().len() == 0,
            old(self).remaining().len() > 0 ==> r is Some && r.unwrap()@ == old(self).remaining()[0]
                && final(self).remaining() == old(self).remaining().drop_first(),
    {
        let ghost d = self.cols + self.skip_cols;
        let ghost n = self.count@ as int;
        let ghost data = self.span();
        let taken = self.v.take();
        self.count = Ghost(0);
        let s = match taken {
            Some(s) => s,
            None => {
                assert(self.remaining() =~= Seq::<Seq<T>>::empty());
                return None;
            },
        };
        if s.len() == 0 {
            assert(self.remaining() =~= Seq::<Seq<T>>::empty());
            return None;
        }
        proof {
            crate::layout::lemma_strided_row(data, d, self.cols as int, n, 0);
        }
        let (fst, snd) = s.split_at_mut(self.cols);
        if snd.len() == 0 {
            assert(n == 1) by {
                if n > 1 {
                    assert((n - 1) * d >= d) by (nonlinear_arith)
                        requires
                            n - 1 >= 1,
                            d >= 0,
                    ;
                }
            }
            assert(self.remaining() =~= strided_rows(data, d, self.cols as int, n).drop_first());
        } else {
            proof {
                if n == 1 {
                    assert((n - 1) * d == 0) by (nonlinear_arith)
                        requires
                            n == 1,
                    ;
                    assert(false);
                }
                lemma_strided_skip(data, d, self.cols as int, n, 1);
            }
            let (_, rest) = snd.split_at_mut(self.skip_cols);
            assert(rest@ =~= data.subrange(d, data.len() as int));
            self.v = Some(rest);
            self.count = Ghost((n - 1) as nat);
            assert(strided_rows(data, d, self.cols as int, n).subrange(1, n) =~= strided_rows(
                data,
                d,
                self.cols as int,
                n,
            ).drop_first());
        }
        Some(fst)
    }

    /// The last remaining row, which is then consumed.
    pub fn next_back(&mut self) -> (r: Option<&'a mut [T]>)
        requires
            old(self).well_formed(),
        ensures
            final(self).well_formed(),
            final(self).cols() == old(self).cols(),
            old(self).remaining().len() == 0 ==> r is None && final(self).remaining().len() == 0,
            old(self).remaining().len() > 0 ==> r is Some && r.unwrap()@ == old(self).remaining().last()
                && final(self).remaining() == old(self).remaining().drop_last(),
    {
        let ghost d = self.cols + self.skip_cols;
        let ghost n = self.count@ as int;
        let ghost data = self.span();
        let taken = self.v.take();
        self.count = Ghost(0);
        let s = match taken {
            Some(s) => s,
            None => {
                assert(self.remaining() =~= Seq::<Seq<T>>::empty());
                return None;
            },
        };
        if s.len() == 0 {
            assert(self.remaining() =~= Seq::<Seq<T>>::empty());
            return None;
        }
        proof {
            crate::layout::lemma_strided_row(data, d, self.cols as int, n, n - 1);
            lemma_strided_prefix(data, d, self.cols as int, n, n - 1);
        }
        let len = s.len();
        let (fst, snd) = s.split_at_mut(len - self.cols);
        if fst.len() == 0 {
            assert(n == 1) by {
                if n > 1 {
                    assert((n - 1) * d >= d) by (nonlinear_arith)
                        requires
                            n - 1 >= 1,
                            d >= 0,
                    ;
                }
            }
            assert(self.remaining() =~= strided_rows(data, d, self.cols as int, n).drop_last());
        } else {
            proof {
                if n == 1 {
                    assert((n - 1) * d == 0) by (nonlinear_arith)
                        requires
                            n == 1,
                    ;
                    assert(false);
                }
                assert((n - 1) * d == (n - 2) * d + d) by (nonlinear_arith);
            }
            let flen = fst.len();
            let (rest, _) = fst.split_at_mut(flen - self.skip_cols);
            assert(rest@ =~= data.subrange(0, span_len(d, self.cols as int, n - 1)));
            self.v = Some(rest);
            self.count = Ghost((n - 1) as nat);
            assert(strided_rows(data, d, self.cols as int, n).subrange(0, n - 1) =~= strided_rows(
                data,
                d,
                self.cols as int,
                n,
            ).drop_last());
        }
        Some(snd)
    }

    /// Skips `n` rows in constant time and produces the next one.
    pub fn nth(&mut self, n: usize) -> (r: Option<&'a mut [T]>)
        requires
            old(self).well_formed(),
        ensures
            final(self).well_formed(),
            final(self).cols() == old(self).cols(),
            n >= old(self).remaining().len() ==> r is None && final(self).remaining().len() == 0,
            n < old(self).remaining().len() ==> r is Some && r.unwrap()@ == old(self).remaining()[n as int]
                && final(self).remaining() == old(self).remaining().subrange(
                n + 1,
                old(self).remaining().len() as int,
            ),
    {
        let ghost d = self.cols + self.skip_cols;
        let ghost k = self.count@ as int;
        let ghost data = self.span();
        let ghost all = self.remaining();
        let len = match &self.v {
            Some(s) => s.len(),
            None => 0,
        };
        proof {
            if n == 0 {
                assert(n * d == 0) by (nonlinear_arith)
                    requires
                        n == 0,
                ;
            }
            if k > 0 {
                assert((k - 1) * d >= 0) by (nonlinear_arith)
                    requires
                        k >= 1,
                        d >= 0,
                ;
            }
        }
        match n.checked_mul(self.cols + self.skip_cols) {
            Some(start) => {
                if start >= len {
                    proof {
                        if 0 < n < k {
                            lemma_strided_skip(data, d, self.cols as int, k, n as int);
                        }
                    }
                    self.v = None;
                    self.count = Ghost(0);
                    assert(self.remaining() =~= Seq::<Seq<T>>::empty());
                } else if n > 0 {
                    proof {
                        if n >= k {
                            lemma_strided_past_end(d, self.cols as int, k, n as int);
                        }
                        lemma_strided_skip(data, d, self.cols as int, k, n as int);
                    }
                    let s = self.v.take().unwrap();
                    let (_, rest) = s.split_at_mut(start);
                    assert(rest@ =~= data.subrange(n * d, data.len() as int));
                    self.v = Some(rest);
                    self.count = Ghost((k - n) as nat);
                }
            },
            None => {
                proof {
                    if 0 < n < k {
                        lemma_strided_skip(data, d, self.cols as int, k, n as int);
                    }
                }
                self.v = None;
                self.count = Ghost(0);
                assert(self.remaining() =~= Seq::<Seq<T>>::empty());
            },
        }
        let r = self.next();
        proof {
            if n < k {
                assert(all.subrange(n as int, k).drop_first() =~= all.subrange(n + 1, k));
                assert(all.subrange(0, k) =~= all);
            }
        }
        r
    }

    /// Skips `n` rows from the back in constant time and produces the row before them.
    pub fn nth_back(&mut self, n: usize) -> (r: Option<&'a mut [T]>)
        requires
            old(self).well_formed(),
        ensures
            final(self).well_formed(),
            final(self).cols() == old(self).cols(),
            n >= old(self).remaining().len() ==> r is None && final(self).remaining().len() == 0,
            n < old(self).remaining().len() ==> r is Some && r.unwrap()@ == old(self).remaining()[
                old(self).remaining().len() - 1 - n]
                && final(self).remaining() == old(self).remaining().subrange(
                0,
                old(self).remaining().len() - 1 - n,
            ),
    {
        let ghost d = self.cols + self.skip_cols;
        let ghost k = self.count@ as int;
        let ghost data = self.span();
        let ghost all = self.remaining();
        let len = match &self.v {
            Some(s) => s.len(),
            None => 0,
        };
        proof {
            if n == 0 {
                assert(n * d == 0) by (nonlinear_arith)
                    requires
                        n == 0,
                ;
            }
            if k > 0 {
                assert((k - 1) * d >= 0) by (nonlinear_arith)
                    requires
                        k >= 1,
                        d >= 0,
                ;
            }
        }
        match n.checked_mul(self.cols + self.skip_cols) {
            Some(adj) => {
                if adj >= len {
                    proof {
                        if 0 < n < k {
                            lemma_strided_skip(data, d, self.cols as int, k, n as int);
                        }
                    }
                    self.v = None;
                    self.count = Ghost(0);
                    assert(self.remaining() =~= Seq::<Seq<T>>::empty());
                } else if n > 0 {
                    proof {
                        if n >= k {
                            lemma_strided_past_end(d, self.cols as int, k, n as int);
                        }
                        lemma_strided_prefix(data, d, self.cols as int, k, k - n);
                    }
                    let s = self.v.take().unwrap();
                    let (rest, _) = s.split_at_mut(len - adj);
                    assert(rest@ =~= data.subrange(0, span_len(d, self.cols as int, k - n)));
                    self.v = Some(rest);
                    self.count = Ghost((k - n) as nat);
                }
            },
            None => {
                proof {
                    if 0 < n < k {
                        lemma_strided_skip(data, d, self.cols as int, k, n as int);
                    }
                }
                self.v = None;
                self.count = Ghost(0);
                assert(self.remaining() =~= Seq::<Seq<T>>::empty());
            },
        }
        let r = self.next_back();
        proof {
            if n < k {
                assert(all.subrange(0, k - n).drop_last() =~= all.subrange(0, k - 1 - n));
                assert(all.subrange(0, k) =~= all);
            }
        }
        r
    }
}

impl<'a, T> TooDeeIterator for RowsMut<'a, T> {
    closed spec fn spec_num_cols(&self) -> nat {
        self.cols as nat
    }

    fn num_cols(&self) -> (r: usize) {
        self.cols
    }
}

/// An iterator over one column of an area, each cell handed out for writing.
pub struct ColMut<'a, T> {
    /// The column as rows one cell wide.
    pub rows: RowsMut<'a, T>,
}

impl<'a, T> ColMut<'a, T> {
    /// The cells not yet produced, top to bottom.
    pub closed spec fn remaining(&self) -> Seq<T> {
        Seq::new(self.rows.remaining().len(), |i: int| self.rows.remaining()[i][0])
    }

    /// The underlying one-cell-wide rows are well formed.
    pub closed spec fn well_formed(&self) -> bool {
        &&& self.rows.well_formed()
        &&& self.rows.cols() == 1
    }

    /// Cells `stride` apart, from the first to the last cell of `v`.
    pub(crate) fn new(v: &'a mut [T], stride: usize, count: Ghost<nat>) -> (it: Self)
        requires
            1 <= stride,
            old(v)@.len() == span_len(stride as int, 1, count@ as int),
        ensures
            it.well_formed(),
            it.remaining() == Seq::new(count@, |i: int| old(v)@[i * stride]),
            it.rows.v is Some,
            it.rows.v->Some_0@ == old(v)@,
            final(it.rows.v->Some_0)@ == final(v)@,
    {
        let ghost v0 = v@;
        let rows = RowsMut::new(v, 1, stride, count);
        let it = ColMut { rows };
        assert forall|i: int| 0 <= i < count@ implies #[trigger] it.remaining()[i] == v0[i * stride] by {
            crate::layout::lemma_strided_row(v0, stride as int, 1, count@ as int, i);
        }
        assert(it.remaining() =~= Seq::new(count@, |i: int| v0[i * stride]));
        it
    }

    /// The number of cells left.
    pub fn len(&self) -> (r: usize)
        requires
            self.well_formed(),
        ensures
            r == self.remaining().len(),
    {
        self.rows.len()
    }

    /// The first remaining cell, which is then consumed.
    pub fn next(&mut self) -> (r: Option<&'a mut T>)
        requires
            old(self).well_formed(),
        ensures
            final(self).well_formed(),
            old(self).remaining().len() == 0 ==> r is None && final(self).remaining().len() == 0,
            old(self).remaining().len() > 0 ==> r is Some && *r.unwrap() == old(self).remaining()[0]
                && final(self).remaining() == old(self).remaining().drop_first(),
    {
        proof {
            self.rows.lemma_rows_len();
        }
        let r = match self.rows.next() {
            Some(s) => s.first_mut(),
            None => None,
        };
        assert(self.remaining() =~= old(self).remaining().drop_first() || old(self).remaining().len() == 0);
        r
    }

    /// The last remaining cell, which is then consumed.
    pub fn next_back(&mut self) -> (r: Option<&'a mut T>)
        requires
            old(self).well_formed(),
        ensures
            final(self).well_formed(),
            old(self).remaining().len() == 0 ==> r is None && final(self).remaining().len() == 0,
            old(self).remaining().len() > 0 ==> r is Some && *r.unwrap() == old(self).remaining().last()
                && final(self).remaining() == old(self).remaining().drop_last(),
    {
        proof {
            self.rows.lemma_rows_len();
        }
        let r = match self.rows.next_back() {
            Some(s) => s.first_mut(),
            None => None,
        };
        assert(self.remaining() =~= old(self).remaining().drop_last() || old(self).remaining().len() == 0);
        r
    }

    /// The exact number of cells left, as both bounds.
    pub fn size_hint(&self) -> (r: (usize, Option<usize>))
        requires
            self.well_formed(),
        ensures
            r.0 == self.remaining().len(),
            r.1 == Some(r.0),
    {
        self.rows.size_hint()
    }

    /// The cell `idx` places below the first remaining one.
    pub fn get(&self, idx: usize) -> (r: &T)
        requires
            self.well_formed(),
            idx < self.remaining().len(),
        ensures
            *r == self.remaining()[idx as int],
    {
        let stride = 1 + self.rows.skip_cols;
        proof {
            crate::layout::lemma_strided_row(
                self.rows.span(),
                stride as int,
                1,
                self.rows.count@ as int,
                idx as int,
            );
        }
        let s: &[T] = self.rows.v.as_ref().unwrap();
        &s[idx * stride]
    }

    /// Skips `n` cells in constant time and produces the next one.
    pub fn nth(&mut self, n: usize) -> (r: Option<&'a mut T>)
        requires
            old(self).well_formed(),
        ensures
            final(self).well_formed(),
            n >= old(self).remaining().len() ==> r is None && final(self).remaining().len() == 0,
            n < old(self).remaining().len() ==> r is Some && *r.unwrap() == old(self).remaining()[n as int]
                && final(self).remaining() == old(self).remaining().subrange(
                n + 1,
                old(self).remaining().len() as int,
            ),
    {
        proof {
            self.rows.lemma_rows_len();
        }
        let r = match self.rows.nth(n) {
            Some(s) => s.first_mut(),
            None => None,
        };
        assert(self.remaining() =~= old(self).remaining().subrange(n + 1, old(self).remaining().len() as int)
            || n >= old(self).remaining().len());
        r
    }

    /// Skips `n` cells from the back in constant time and produces the cell before them.
    pub fn nth_back(&mut self, n: usize) -> (r: Option<&'a mut T>)
        requires
            old(self).well_formed(),
        ensures
            final(self).well_formed(),
            n >= old(self).remaining().len() ==> r is None && final(self).remaining().len() == 0,
            n < old(self).remaining().len() ==> r is Some && *r.unwrap() == old(self).remaining()[
                old(self).remaining().len() - 1 - n] && final(self).remaining() == old(self).remaining().subrange(
                0,
                old(self).remaining().len() - 1 - n,
            ),
    {
        proof {
            self.rows.lemma_rows_len();
        }
        let r = match self.rows.nth_back(n) {
            Some(s) => s.first_mut(),
            None => None,
        };
        assert(self.remaining() =~= old(self).remaining().subrange(0, old(self).remaining().len() - 1 - n)
            || n >= old(self).remaining().len());
        r
    }
}


impl<'a, T> vstd::std_specs::core::IndexSpecImpl<usize> for Col<'a, T> {
    open spec fn index_req(&self, idx: &usize) -> bool {
        self.well_formed() && *idx < self.remaining().len()
    }
}

impl<'a, T> core::ops::Index<usize> for Col<'a, T> {
    type Output = T;

    /// The cell `idx` places below the first remaining one.
    fn index(&self, idx: usize) -> (r: &T)
        ensures
            *r == self.remaining()[idx as int],
    {
        self.get(idx)
    }
}

impl<'a, T> vstd::std_specs::core::IndexSpecImpl<usize> for ColMut<'a, T> {
    open spec fn index_req(&self, idx: &usize) -> bool {
        self.well_formed() && *idx < self.remaining().len()
    }
}

impl<'a, T> core::ops::Index<usize> for ColMut<'a, T> {
    type Output = T;

    /// The cell `idx` places below the first remaining one.
    fn index(&self, idx: usize) -> (r: &T)
        ensures
            *r == self.remaining()[idx as int],
    {
        self.get(idx)
    }
}

} // verus!
