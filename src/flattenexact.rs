//! Cell-by-cell iteration over an area, exact in length from both ends.
use vstd::prelude::*;

use crate::iter::{Rows, RowsMut, TooDeeIterator};
use crate::layout::{flatten_rows, lemma_flatten_at, lemma_flatten_first, lemma_flatten_split};

verus! {

/// Flattens a row iterator into its cells, keeping at most one partly consumed
/// row at the front and one at the back.
pub struct FlattenExact<'a, T> {
    iter: Rows<'a, T>,
    frontiter: &'a [T],
    backiter: &'a [T],
}

/// An iterator over each cell of an area, row by row.
pub type Cells<'a, T> = FlattenExact<'a, T>;

impl<'a, T> FlattenExact<'a, T> {
    /// The cells not yet produced, front to back.
    pub closed spec fn remaining(&self) -> Seq<T> {
        self.frontiter@ + flatten_rows(self.iter.remaining()) + self.backiter@
    }

    /// The row width of the area.
    pub closed spec fn cols(&self) -> nat {
        self.iter.cols()
    }

    /// The rows are well formed and the cell count fits in `usize`.
    pub closed spec fn well_formed(&self) -> bool {
        &&& self.iter.well_formed()
        &&& (self.iter.cols() == 0 ==> self.frontiter@.len() == 0 && self.backiter@.len() == 0)
        &&& self.frontiter@.len() + self.iter.remaining().len() * self.iter.cols() + self.backiter@.len()
            <= usize::MAX
    }

    proof fn lemma_counts(&self)
        requires
            self.well_formed(),
        ensures
            flatten_rows(self.iter.remaining()).len() == self.iter.remaining().len() * self.iter.cols(),
            self.remaining().len() <= usize::MAX,
            forall|r: int|
                0 <= r < self.iter.remaining().len() ==> #[trigger] self.iter.remaining()[r].len()
                    == self.iter.cols(),
            self.iter.remaining().len() > 0 ==> self.iter.cols() > 0,
            self.iter.spec_num_cols() == self.iter.cols(),
            self.spec_num_cols() == self.cols(),
    {
        self.iter.lemma_rows_len();
        lemma_flatten_split(self.iter.remaining(), self.iter.cols(), self.iter.remaining().len() as int);
        assert(self.iter.remaining().subrange(0, self.iter.remaining().len() as int) =~= self.iter.remaining());
    }

    /// The cells of the rows that `iter` has left.
    pub fn new(iter: Rows<'a, T>) -> (it: Self)
        requires
            iter.well_formed(),
            iter.remaining().len() * iter.cols() <= usize::MAX,
        ensures
            it.well_formed(),
            it.remaining() == flatten_rows(iter.remaining()),
            it.cols() == iter.cols(),
    {
        let ghost e = iter.remaining();
        let empty: &'a [T] = &[];
        let it = FlattenExact { iter, frontiter: empty, backiter: empty };
        assert(it.remaining() =~= flatten_rows(e));
        it
    }

    /// The number of cells left, computed without walking them.
    pub fn len(&self) -> (r: usize)
        requires
            self.well_formed(),
        ensures
            r == self.remaining().len(),
    {
        proof {
            self.lemma_counts();
        }
        let rows = self.iter.len();
        let cols = self.iter.num_cols();
        rows * cols + self.frontiter.len() + self.backiter.len()
    }

    /// The exact number of cells left, as both bounds.
    pub fn size_hint(&self) -> (r: (usize, Option<usize>))
        requires
            self.well_formed(),
        ensures
            r.0 == self.remaining().len(),
            r.1 == Some(r.0),
    {
        let n = self.len();
        (n, Some(n))
    }

    /// The first remaining cell, which is then consumed.
    pub fn next(&mut self) -> (r: Option<&'a T>)
        requires
            old(self).well_formed(),
        ensures
            final(self).well_formed(),
            final(self).cols() == old(self).cols(),
            old(self).remaining().len() == 0 ==> r is None && final(self).remaining().len() == 0,
            old(self).remaining().len() > 0 ==> r == Some(&old(self).remaining()[0])
                && final(self).remaining() == old(self).remaining().drop_first(),
    {
        proof {
            self.lemma_counts();
        }
        let ghost rem = self.remaining();
        if self.frontiter.len() > 0 {
            let (f, rest) = self.frontiter.split_at(1);
            self.frontiter = rest;
            assert(self.remaining() =~= rem.drop_first());
            return Some(&f[0]);
        }
        let ghost rows = self.iter.remaining();
        match self.iter.next() {
            Some(row) => {
                proof {
                    lemma_flatten_first(rows);
                    let c = self.iter.cols() as int;
                    assert(rows.len() * c == (rows.len() - 1) * c + c) by (nonlinear_arith);
                }
                let (f, rest) = row.split_at(1);
                self.frontiter = rest;
                assert(self.remaining() =~= rem.drop_first());
                Some(&f[0])
            },
            None => {
                if self.backiter.len() > 0 {
                    let (f, rest) = self.backiter.split_at(1);
                    self.backiter = rest;
                    assert(self.remaining() =~= rem.drop_first());
                    Some(&f[0])
                } else {
                    None
                }
            },
        }
    }

    /// The last remaining cell, which is then consumed.
    pub fn next_back(&mut self) -> (r: Option<&'a T>)
        requires
            old(self).well_formed(),
        ensures
            final(self).well_formed(),
            final(self).cols() == old(self).cols(),
            old(self).remaining().len() == 0 ==> r is None && final(self).remaining().len() == 0,
            old(self).remaining().len() > 0 ==> r == Some(&old(self).remaining().last())
                && final(self).remaining() == old(self).remaining().drop_last(),
    {
        proof {
            self.lemma_counts();
        }
        let ghost rem = self.remaining();
        if self.backiter.len() > 0 {
            let (rest, l) = self.backiter.split_at(self.backiter.len() - 1);
            self.backiter = rest;
            assert(self.remaining() =~= rem.drop_last());
            return Some(&l[0]);
        }
        let ghost rows = self.iter.remaining();
        match self.iter.next_back() {
            Some(row) => {
                proof {
                    let c = self.iter.cols() as int;
                    assert(rows.len() * c == (rows.len() - 1) * c + c) by (nonlinear_arith);
                    assert(flatten_rows(rows) == flatten_rows(rows.drop_last()) + rows.last());
                }
                let (rest, l) = row.split_at(row.len() - 1);
                self.backiter = rest;
                assert(self.remaining() =~= rem.drop_last());
                Some(&l[0])
            },
            None => {
                if self.frontiter.len() > 0 {
                    let (rest, l) = self.frontiter.split_at(self.frontiter.len() - 1);
                    self.frontiter = rest;
                    assert(self.remaining() =~= rem.drop_last());
                    Some(&l[0])
                } else {
                    None
                }
            },
        }
    }

    /// Skips `n` cells and produces the next one, passing over whole rows arithmetically.
    pub fn nth(&mut self, n: usize) -> (r: Option<&'a T>)
        requires
            old(self).well_formed(),
        ensures
            final(self).well_formed(),
            final(self).cols() == old(self).cols(),
            n >= old(self).remaining().len() ==> r is None && final(self).remaining().len() == 0,
            n < old(self).remaining().len() ==> r == Some(&old(self).remaining()[n as int])
                && final(self).remaining() == old(self).remaining().subrange(
                n + 1,
                old(self).remaining().len() as int,
            ),
    {
        proof {
            self.lemma_counts();
        }
        let ghost rem = self.remaining();
        let cols = self.iter.num_cols();
        if cols == 0 {
            return None;
        }
        let flen = self.frontiter.len();
        if n < flen {
            let (fst, rest) = self.frontiter.split_at(n + 1);
            self.frontiter = rest;
            assert(self.remaining() =~= rem.subrange(n + 1, rem.len() as int));
            return Some(&fst[n]);
        }
        let m = n - flen;
        let empty: &'a [T] = &[];
        self.frontiter = empty;
        let ghost rows = self.iter.remaining();
        let ghost c = cols as int;
        let left = self.iter.len();
        let q = m / cols;
        let iter_skip = if left < q { left } else { q };
        proof {
            vstd::arithmetic::div_mod::lemma_fundamental_div_mod(m as int, c);
            assert(iter_skip * c <= q * c) by (nonlinear_arith)
                requires
                    iter_skip <= q,
                    c >= 0,
            ;
            assert(q * c == c * q) by (nonlinear_arith);
        }
        let skipped = iter_skip * cols;
        let m2 = m - skipped;
        match self.iter.nth(iter_skip) {
            Some(row) => {
                proof {
                    lemma_flatten_at(rows, cols as nat, iter_skip as int);
                    vstd::arithmetic::div_mod::lemma_mod_bound(m as int, c);
                }
                let (fst, rest) = row.split_at(m2 + 1);
                self.frontiter = rest;
                assert(self.remaining() =~= rem.subrange(n + 1, rem.len() as int));
                proof {
                    let k = iter_skip as int;
                    assert((rows.len() - k - 1) * c + c == (rows.len() - k) * c) by (nonlinear_arith);
                    assert((rows.len() - k) * c <= rows.len() * c) by (nonlinear_arith)
                        requires
                            k >= 0,
                            c >= 0,
                    ;
                }
                Some(&fst[m2])
            },
            None => {
                proof {
                    lemma_flatten_split(rows, cols as nat, rows.len() as int);
                    assert(rows.subrange(0, rows.len() as int) =~= rows);
                    assert(rows.subrange(rows.len() as int, rows.len() as int) =~= Seq::<Seq<T>>::empty());
                    assert(flatten_rows(Seq::<Seq<T>>::empty()) == Seq::<T>::empty());
                }
                if m2 < self.backiter.len() {
                    let (fst, rest) = self.backiter.split_at(m2 + 1);
                    self.backiter = rest;
                    assert(self.remaining() =~= rem.subrange(n + 1, rem.len() as int));
                    Some(&fst[m2])
                } else {
                    self.backiter = empty;
                    None
                }
            },
        }
    }

    /// Skips `n` cells from the back and produces the cell before them, passing
    /// over whole rows arithmetically.
    pub fn nth_back(&mut self, n: usize) -> (r: Option<&'a T>)
        requires
            old(self).well_formed(),
        ensures
            final(self).well_formed(),
            final(self).cols() == old(self).cols(),
            n >= old(self).remaining().len() ==> r is None && final(self).remaining().len() == 0,
            n < old(self).remaining().len() ==> r == Some(
                &old(self).remaining()[old(self).remaining().len() - 1 - n],
            ) && final(self).remaining() == old(self).remaining().subrange(
                0,
                old(self).remaining().len() - 1 - n,
            ),
    {
        proof {
            self.lemma_counts();
        }
        let ghost rem = self.remaining();
        let cols = self.iter.num_cols();
        if cols == 0 {
            return None;
        }
        let blen = self.backiter.len();
        if n < blen {
            let (rest, lst) = self.backiter.split_at(blen - 1 - n);
            self.backiter = rest;
            assert(self.remaining() =~= rem.subrange(0, rem.len() - 1 - n));
            return Some(&lst[0]);
        }
        let m = n - blen;
        let empty: &'a [T] = &[];
        self.backiter = empty;
        let ghost rows = self.iter.remaining();
        let ghost c = cols as int;
        let left = self.iter.len();
        let q = m / cols;
        let iter_skip = if left < q { left } else { q };
        proof {
            vstd::arithmetic::div_mod::lemma_fundamental_div_mod(m as int, c);
            assert(iter_skip * c <= q * c) by (nonlinear_arith)
                requires
                    iter_skip <= q,
                    c >= 0,
            ;
            assert(q * c == c * q) by (nonlinear_arith);
        }
        let skipped = iter_skip * cols;
        let m2 = m - skipped;
        match self.iter.nth_back(iter_skip) {
            Some(row) => {
                proof {
                    let k = rows.len() - 1 - iter_skip;
                    lemma_flatten_at(rows, cols as nat, k);
                    vstd::arithmetic::div_mod::lemma_mod_bound(m as int, c);
                    assert((rows.len() - k - 1) * c == iter_skip * c);
                    assert(k * c + c + iter_skip * c == rows.len() * c) by (nonlinear_arith)
                        requires
                            k + 1 + iter_skip == rows.len(),
                    ;
                }
                let (rest, lst) = row.split_at(cols - 1 - m2);
                self.backiter = rest;
                assert(self.remaining() =~= rem.subrange(0, rem.len() - 1 - n));
                Some(&lst[0])
            },
            None => {
                proof {
                    lemma_flatten_split(rows, cols as nat, rows.len() as int);
                    assert(rows.subrange(0, rows.len() as int) =~= rows);
                }
                let flen = self.frontiter.len();
                if m2 < flen {
                    let (rest, lst) = self.frontiter.split_at(flen - 1 - m2);
                    self.frontiter = rest;
                    assert(self.remaining() =~= rem.subrange(0, rem.len() - 1 - n));
                    Some(&lst[0])
                } else {
                    self.frontiter = empty;
                    None
                }
            },
        }
    }
}

impl<'a, T> TooDeeIterator for FlattenExact<'a, T> {
    closed spec fn spec_num_cols(&self) -> nat {
        self.iter.spec_num_cols()
    }

    fn num_cols(&self) -> (r: usize) {
        self.iter.num_cols()
    }
}


/// A mutable row slice that may be absent, read as its cells.
pub open spec fn opt_cells<T>(s: Option<&mut [T]>) -> Seq<T> {
    match s {
        Some(x) => x@,
        None => Seq::empty(),
    }
}

/// Flattens a mutable row iterator into its cells, each handed out for writing.
pub struct FlattenExactMut<'a, T> {
    /// The rows not yet started.
    pub iter: RowsMut<'a, T>,
    /// What is left of the row being walked from the front.
    pub frontiter: Option<&'a mut [T]>,
    /// What is left of the row being walked from the back.
    pub backiter: Option<&'a mut [T]>,
}

/// A mutable iterator over each cell of an area, row by row.
pub type CellsMut<'a, T> = FlattenExactMut<'a, T>;

impl<'a, T> FlattenExactMut<'a, T> {
    /// The cells not yet produced, front to back.
    pub closed spec fn remaining(&self) -> Seq<T> {
        opt_cells(self.frontiter) + flatten_rows(self.iter.remaining()) + opt_cells(self.backiter)
    }

    /// The row width of the area.
    pub closed spec fn cols(&self) -> nat {
        self.iter.cols()
    }

    /// The rows are well formed and the cell count fits in `usize`.
    pub closed spec fn well_formed(&self) -> bool {
        &&& self.iter.well_formed()
        &&& opt_cells(self.frontiter).len() + self.iter.remaining().len() * self.iter.cols() + opt_cells(
            self.backiter,
        ).len() <= usize::MAX
    }

    proof fn lemma_counts(&self)
        requires
            self.well_formed(),
        ensures
            flatten_rows(self.iter.remaining()).len() == self.iter.remaining().len() * self.iter.cols(),
            self.remaining().len() <= usize::MAX,
            forall|r: int|
                0 <= r < self.iter.remaining().len() ==> #[trigger] self.iter.remaining()[r].len()
                    == self.iter.cols(),
            self.iter.remaining().len() > 0 ==> self.iter.cols() > 0,
            self.iter.spec_num_cols() == self.iter.cols(),
    {
        self.iter.lemma_rows_len();
        lemma_flatten_split(self.iter.remaining(), self.iter.cols(), self.iter.remaining().len() as int);
        assert(self.iter.remaining().subrange(0, self.iter.remaining().len() as int) =~= self.iter.remaining());
    }

    /// The cells of the rows that `iter` has left.
    pub fn new(iter: RowsMut<'a, T>) -> (it: Self)
        requires
            iter.well_formed(),
            iter.remaining().len() * iter.cols() <= usize::MAX,
        ensures
            it.well_formed(),
            it.remaining() == flatten_rows(iter.remaining()),
            it.cols() == iter.cols(),
            it.iter == iter,
    {
        let ghost e = iter.remaining();
        let it = FlattenExactMut { iter, frontiter: None, backiter: None };
        assert(it.remaining() =~= flatten_rows(e));
        it
    }

    /// The number of cells left, computed without walking them.
    pub fn len(&self) -> (r: usize)
        requires
            self.well_formed(),
        ensures
            r == self.remaining().len(),
    {
        proof {
            self.lemma_counts();
        }
        let rows = self.iter.len();
        let cols = self.iter.num_cols();
        let f = match &self.frontiter {
            Some(s) => s.len(),
            None => 0,
        };
        let b = match &self.backiter {
            Some(s) => s.len(),
            None => 0,
        };
        rows * cols + f + b
    }

    /// The exact number of cells left, as both bounds.
    pub fn size_hint(&self) -> (r: (usize, Option<usize>))
        requires
            self.well_formed(),
        ensures
            r.0 == self.remaining().len(),
            r.1 == Some(r.0),
    {
        let n = self.len();
        (n, Some(n))
    }

    /// The first remaining cell, which is then consumed.
    pub fn next(&mut self) -> (r: Option<&'a mut T>)
        requires
            old(self).well_formed(),
        ensures
            final(self).well_formed(),
            old(self).remaining().len() == 0 ==> r is None && final(self).remaining().len() == 0,
            old(self).remaining().len() > 0 ==> r is Some && *r.unwrap() == old(self).remaining()[0]
                && final(self).remaining() == old(self).remaining().drop_first(),
    {
        proof {
            self.lemma_counts();
        }
        let ghost rem = self.remaining();
        let ghost rows = self.iter.remaining();
        match self.frontiter.take() {
            Some(f) => {
                if f.len() > 0 {
                    let (head, rest) = f.split_at_mut(1);
                    self.frontiter = Some(rest);
                    assert(self.remaining() =~= rem.drop_first());
                    return head.first_mut();
                }
            },
            None => {},
        }
        assert(self.remaining() =~= rem);
        match self.iter.next() {
            Some(row) => {
                proof {
                    lemma_flatten_first(rows);
                    let c = self.iter.cols() as int;
                    assert(rows.len() * c == (rows.len() - 1) * c + c) by (nonlinear_arith);
                }
                let (head, rest) = row.split_at_mut(1);
                self.frontiter = Some(rest);
                assert(self.remaining() =~= rem.drop_first());
                head.first_mut()
            },
            None => {
                match self.backiter.take() {
                    Some(b) => {
                        if b.len() > 0 {
                            let (head, rest) = b.split_at_mut(1);
                            self.backiter = Some(rest);
                            assert(self.remaining() =~= rem.drop_first());
                            head.first_mut()
                        } else {
                            None
                        }
                    },
                    None => None,
                }
            },
        }
    }

    /// The last remaining cell, which is then consumed.
    pub fn next_back(&mut self) -> (r: Option<&'a mut T>)
        requires
            old(self).well_formed(),
        ensures
            final(self).well_formed(),
            old(self).remaining().len() == 0 ==> r is None && final(self).remaining().len() == 0,
            old(self).remaining().len() > 0 ==> r is Some && *r.unwrap() == old(self).remaining().last()
                && final(self).remaining() == old(self).remaining().drop_last(),
    {
        proof {
            self.lemma_counts();
        }
        let ghost rem = self.remaining();
        let ghost rows = self.iter.remaining();
        match self.backiter.take() {
            Some(b) => {
                if b.len() > 0 {
                    let blen = b.len();
                    let (rest, tail) = b.split_at_mut(blen - 1);
                    self.backiter = Some(rest);
                    assert(self.remaining() =~= rem.drop_last());
                    return tail.first_mut();
                }
            },
            None => {},
        }
        assert(self.remaining() =~= rem);
        match self.iter.next_back() {
            Some(row) => {
                proof {
                    let c = self.iter.cols() as int;
                    assert(rows.len() * c == (rows.len() - 1) * c + c) by (nonlinear_arith);
                    assert(flatten_rows(rows) == flatten_rows(rows.drop_last()) + rows.last());
                }
                let rlen = row.len();
                let (rest, tail) = row.split_at_mut(rlen - 1);
                self.backiter = Some(rest);
                assert(self.remaining() =~= rem.drop_last());
                tail.first_mut()
            },
            None => {
                match self.frontiter.take() {
                    Some(f) => {
                        if f.len() > 0 {
                            let flen = f.len();
                            let (rest, tail) = f.split_at_mut(flen - 1);
                            self.frontiter = Some(rest);
                            assert(self.remaining() =~= rem.drop_last());
                            tail.first_mut()
                        } else {
                            None
                        }
                    },
                    None => None,
                }
            },
        }
    }

    /// Skips `n` cells and produces the next one, passing over whole rows arithmetically.
    #[verifier::rlimit(80)]
    pub fn nth(&mut self, n: usize) -> (r: Option<&'a mut T>)
        requires
            old(self).well_formed(),
        ensures
            final(self).well_formed(),
            n >= old(self).remaining().len() ==> r is None && final(self).remaining().len() == 0,
            n < old(self).remaining().len() ==> r is Some && *r.unwrap() == old(self).remaining()[n as int]
                && final(self).remaining() == old(self).remaining().subrange(
                n + 1,
                old(self).remaining().len() as int,
            ),
    {
        proof {
            self.lemma_counts();
        }
        let ghost rem = self.remaining();
        let cols = self.iter.num_cols();
        let flen = match &self.frontiter {
            Some(f) => f.len(),
            None => 0,
        };
        if n < flen {
            let f = self.frontiter.take().unwrap();
            let (fst, rest) = f.split_at_mut(n + 1);
            self.frontiter = Some(rest);
            assert(self.remaining() =~= rem.subrange(n + 1, rem.len() as int));
            let (_, item) = fst.split_at_mut(n);
            return item.first_mut();
        }
        let m = n - flen;
        self.frontiter = None;
        if cols == 0 {
            proof {
                assert(self.iter.remaining().len() == 0);
                assert(flatten_rows(self.iter.remaining()) =~= Seq::<T>::empty());
            }
            let blen = match &self.backiter {
                Some(b) => b.len(),
                None => 0,
            };
            if m < blen {
                let b = self.backiter.take().unwrap();
                let (fst, rest) = b.split_at_mut(m + 1);
                self.backiter = Some(rest);
                assert(self.remaining() =~= rem.subrange(n + 1, rem.len() as int));
                let (_, item) = fst.split_at_mut(m);
                return item.first_mut();
            }
            self.backiter = None;
            return None;
        }
        let ghost rows = self.iter.remaining();
        let ghost c = cols as int;
        let left = self.iter.len();
        let q = m / cols;
        let iter_skip = if left < q { left } else { q };
        proof {
            vstd::arithmetic::div_mod::lemma_fundamental_div_mod(m as int, c);
            assert(iter_skip * c <= q * c) by (nonlinear_arith)
                requires
                    iter_skip <= q,
                    c >= 0,
            ;
            assert(q * c == c * q) by (nonlinear_arith);
        }
        let skipped = iter_skip * cols;
        let m2 = m - skipped;
        match self.iter.nth(iter_skip) {
            Some(row) => {
                proof {
                    lemma_flatten_at(rows, cols as nat, iter_skip as int);
                    vstd::arithmetic::div_mod::lemma_mod_bound(m as int, c);
                    let k = iter_skip as int;
                    assert((rows.len() - k - 1) * c + c == (rows.len() - k) * c) by (nonlinear_arith);
                    assert((rows.len() - k) * c <= rows.len() * c) by (nonlinear_arith)
                        requires
                            k >= 0,
                            c >= 0,
                    ;
                }
                let (fst, rest) = row.split_at_mut(m2 + 1);
                self.frontiter = Some(rest);
                assert(self.remaining() =~= rem.subrange(n + 1, rem.len() as int));
                let (_, item) = fst.split_at_mut(m2);
                item.first_mut()
            },
            None => {
                proof {
                    lemma_flatten_split(rows, cols as nat, rows.len() as int);
                    assert(rows.subrange(0, rows.len() as int) =~= rows);
                    assert(rows.subrange(rows.len() as int, rows.len() as int) =~= Seq::<Seq<T>>::empty());
                    assert(flatten_rows(Seq::<Seq<T>>::empty()) == Seq::<T>::empty());
                }
                let blen = match &self.backiter {
                    Some(b) => b.len(),
                    None => 0,
                };
                if m2 < blen {
                    let b = self.backiter.take().unwrap();
                    let (fst, rest) = b.split_at_mut(m2 + 1);
                    self.backiter = Some(rest);
                    assert(self.remaining() =~= rem.subrange(n + 1, rem.len() as int));
                    let (_, item) = fst.split_at_mut(m2);
                    item.first_mut()
                } else {
                    self.backiter = None;
                    None
                }
            },
        }
    }

    /// Skips `n` cells from the back and produces the cell before them, passing
    /// over whole rows arithmetically.
    #[verifier::rlimit(80)]
    pub fn nth_back(&mut self, n: usize) -> (r: Option<&'a mut T>)
        requires
            old(self).well_formed(),
        ensures
            final(self).well_formed(),
            n >= old(self).remaining().len() ==> r is None && final(self).remaining().len() == 0,
            n < old(self).remaining().len() ==> r is Some && *r.unwrap() == old(self).remaining()[
                old(self).remaining().len() - 1 - n] && final(self).remaining() == old(self).remaining().subrange(
                0,
                old(self).remaining().len() - 1 - n,
            ),
    {
        proof {
            self.lemma_counts();
        }
        let ghost rem = self.remaining();
        let cols = self.iter.num_cols();
        let blen = match &self.backiter {
            Some(b) => b.len(),
            None => 0,
        };
        if n < blen {
            let b = self.backiter.take().unwrap();
            let (rest, lst) = b.split_at_mut(blen - 1 - n);
            self.backiter = Some(rest);
            assert(self.remaining() =~= rem.subrange(0, rem.len() - 1 - n));
            return lst.first_mut();
        }
        let m = n - blen;
        self.backiter = None;
        if cols == 0 {
            proof {
                assert(self.iter.remaining().len() == 0);
                assert(flatten_rows(self.iter.remaining()) =~= Seq::<T>::empty());
            }
            let flen = match &self.frontiter {
                Some(f) => f.len(),
                None => 0,
            };
            if m < flen {
                let f = self.frontiter.take().unwrap();
                let (rest, lst) = f.split_at_mut(flen - 1 - m);
                self.frontiter = Some(rest);
                assert(self.remaining() =~= rem.subrange(0, rem.len() - 1 - n));
                return lst.first_mut();
            }
            self.frontiter = None;
            return None;
        }
        let ghost rows = self.iter.remaining();
        let ghost c = cols as int;
        let left = self.iter.len();
        let q = m / cols;
        let iter_skip = if left < q { left } else { q };
        proof {
            vstd::arithmetic::div_mod::lemma_fundamental_div_mod(m as int, c);
            assert(iter_skip * c <= q * c) by (nonlinear_arith)
                requires
                    iter_skip <= q,
                    c >= 0,
            ;
            assert(q * c == c * q) by (nonlinear_arith);
        }
        let skipped = iter_skip * cols;
        let m2 = m - skipped;
        match self.iter.nth_back(iter_skip) {
            Some(row) => {
                proof {
                    let k = rows.len() - 1 - iter_skip;
                    lemma_flatten_at(rows, cols as nat, k);
                    vstd::arithmetic::div_mod::lemma_mod_bound(m as int, c);
                    assert((rows.len() - k - 1) * c == iter_skip * c);
                    assert(k * c + c + iter_skip * c == rows.len() * c) by (nonlinear_arith)
                        requires
                            k + 1 + iter_skip == rows.len(),
                    ;
                }
                let (rest, lst) = row.split_at_mut(cols - 1 - m2);
                self.backiter = Some(rest);
                assert(self.remaining() =~= rem.subrange(0, rem.len() - 1 - n));
                lst.first_mut()
            },
            None => {
                proof {
                    lemma_flatten_split(rows, cols as nat, rows.len() as int);
                    assert(rows.subrange(0, rows.len() as int) =~= rows);
                }
                let flen = match &self.frontiter {
                    Some(f) => f.len(),
                    None => 0,
                };
                if m2 < flen {
                    let f = self.frontiter.take().unwrap();
                    let (rest, lst) = f.split_at_mut(flen - 1 - m2);
                    self.frontiter = Some(rest);
                    assert(self.remaining() =~= rem.subrange(0, rem.len() - 1 - n));
                    lst.first_mut()
                } else {
                    self.frontiter = None;
                    None
                }
            },
        }
    }
}

impl<'a, T> TooDeeIterator for FlattenExactMut<'a, T> {
    closed spec fn spec_num_cols(&self) -> nat {
        self.iter.spec_num_cols()
    }

    fn num_cols(&self) -> (r: usize) {
        self.iter.num_cols()
    }
}

} // verus!
