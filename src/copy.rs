//! Copying cells into an area, from slices, other areas, or itself.
use vstd::prelude::*;

use crate::layout::flatten_rows;
use crate::ops::{Coordinate, Grid, TooDeeOps, TooDeeOpsMut};

verus! {

/// Copies `s[s0 .. s0 + len]` over `d[d0 .. d0 + len]`.
fn copy_segment<T: Copy>(d: &mut [T], d0: usize, s: &[T], s0: usize, len: usize)
    requires
        d0 + len <= old(d)@.len(),
        s0 + len <= s@.len(),
    ensures
        final(d)@.len() == old(d)@.len(),
        forall|i: int|
            0 <= i < old(d)@.len() ==> #[trigger] final(d)@[i] == if d0 <= i < d0 + len {
                s@[i - d0 + s0]
            } else {
                old(d)@[i]
            },
{
    let _dl = d.len();
    let _sl = s.len();
    let mut k: usize = 0;
    while k < len
        invariant
            d0 + len <= d@.len(),
            s0 + len <= s@.len(),
            d@.len() <= usize::MAX,
            s@.len() <= usize::MAX,
            d@.len() == old(d)@.len(),
            k <= len,
            forall|i: int|
                0 <= i < old(d)@.len() ==> #[trigger] d@[i] == if d0 <= i < d0 + k {
                    s@[i - d0 + s0]
                } else {
                    old(d)@[i]
                },
        decreases len - k,
    {
        let v = s[s0 + k];
        d[d0 + k] = v;
        k += 1;
    }
}

/// Clones `s[s0 .. s0 + len]` over `d[d0 .. d0 + len]`.
fn clone_segment<T: Clone>(d: &mut [T], d0: usize, s: &[T], s0: usize, len: usize)
    requires
        d0 + len <= old(d)@.len(),
        s0 + len <= s@.len(),
    ensures
        final(d)@.len() == old(d)@.len(),
        forall|i: int|
            0 <= i < old(d)@.len() ==> if d0 <= i < d0 + len {
                cloned(s@[i - d0 + s0], #[trigger] final(d)@[i])
            } else {
                final(d)@[i] == old(d)@[i]
            },
{
    let _dl = d.len();
    let _sl = s.len();
    let mut k: usize = 0;
    while k < len
        invariant
            d0 + len <= d@.len(),
            s0 + len <= s@.len(),
            d@.len() <= usize::MAX,
            s@.len() <= usize::MAX,
            d@.len() == old(d)@.len(),
            k <= len,
            forall|i: int|
                0 <= i < old(d)@.len() ==> if d0 <= i < d0 + k {
                    cloned(s@[i - d0 + s0], #[trigger] d@[i])
                } else {
                    d@[i] == old(d)@[i]
                },
        decreases len - k,
    {
        let v = s[s0 + k].clone();
        d[d0 + k] = v;
        k += 1;
    }
}

/// Copies `row[a .. a + len]` to `row[b .. b + len]`; the ranges may overlap.
fn copy_within_row<T: Copy>(row: &mut [T], a: usize, b: usize, len: usize)
    requires
        a + len <= old(row)@.len(),
        b + len <= old(row)@.len(),
    ensures
        final(row)@.len() == old(row)@.len(),
        forall|i: int|
            0 <= i < old(row)@.len() ==> #[trigger] final(row)@[i] == if b <= i < b + len {
                old(row)@[i - b + a]
            } else {
                old(row)@[i]
            },
{
    let ghost o = row@;
    let _rl = row.len();
    if b <= a {
        let mut k: usize = 0;
        while k < len
            invariant
                a + len <= o.len(),
                b + len <= o.len(),
                o.len() <= usize::MAX,
                b <= a,
                row@.len() == o.len(),
                k <= len,
                forall|i: int|
                    0 <= i < o.len() ==> #[trigger] row@[i] == if b <= i < b + k {
                        o[i - b + a]
                    } else {
                        o[i]
                    },
            decreases len - k,
        {
            let v = row[a + k];
            row[b + k] = v;
            k += 1;
        }
    } else {
        let mut k: usize = len;
        while k > 0
            invariant
                a + len <= o.len(),
                b + len <= o.len(),
                o.len() <= usize::MAX,
                a < b,
                row@.len() == o.len(),
                k <= len,
                forall|i: int|
                    0 <= i < o.len() ==> #[trigger] row@[i] == if b + k <= i < b + len {
                        o[i - b + a]
                    } else {
                        o[i]
                    },
            decreases k,
        {
            k -= 1;
            let v = row[a + k];
            row[b + k] = v;
        }
    }
}

/// The area after copying the rectangle `src` so that its top-left corner
/// lands on `dest`, as if through a temporary copy of the source.
pub open spec fn copied_within<T>(g: Grid<T>, src: (Coordinate, Coordinate), dest: Coordinate) -> Grid<T> {
    let w = src.1.0 - src.0.0;
    let h = src.1.1 - src.0.1;
    Grid {
        cells: Seq::new(
            g.rows,
            |r: int|
                Seq::new(
                    g.cols,
                    |c: int|
                        if dest.0 <= c < dest.0 + w && dest.1 <= r < dest.1 + h {
                            g.cells[r - dest.1 + src.0.1][c - dest.0 + src.0.0]
                        } else {
                            g.cells[r][c]
                        },
                ),
        ),
        ..g
    }
}

/// The row of `copied_within` for row `r`, given the source row it reads from.
pub open spec fn copied_row<T>(dst_row: Seq<T>, src_row: Seq<T>, d0: int, s0: int, w: int) -> Seq<T> {
    Seq::new(dst_row.len(), |c: int| if d0 <= c < d0 + w { src_row[c - d0 + s0] } else { dst_row[c] })
}

/// Copying cells into an area.
pub trait CopyOps<T>: TooDeeOpsMut<T> {
    /// Overwrites the area with the cells of `src`, read row by row.
    fn copy_from_slice(&mut self, src: &[T]) where T: Copy
        requires
            old(self).well_formed(),
            src@.len() == old(self).grid().cols * old(self).grid().rows,
        ensures
            final(self).well_formed(),
            final(self).grid().cols == old(self).grid().cols,
            final(self).grid().rows == old(self).grid().rows,
            flatten_rows(final(self).grid().cells) == src@,
    {
        proof {
            self.lemma_grid_wf();
        }
        let cols = self.num_cols();
        let rows = self.num_rows();
        let mut r: usize = 0;
        while r < rows
            invariant
                self.well_formed(),
                self.grid().wf(),
                self.grid().cols == cols,
                self.grid().rows == rows,
                cols * rows <= usize::MAX,
                src@.len() == cols * rows,
                r <= rows,
                forall|k: int|
                    0 <= k < r ==> #[trigger] self.grid().cells[k] == src@.subrange(k * cols, k * cols + cols),
            decreases rows - r,
        {
            proof {
                assert((r + 1) * cols <= rows * cols) by (nonlinear_arith)
                    requires
                        r < rows,
                ;
                assert((r + 1) * cols == r * cols + cols) by (nonlinear_arith);
                assert(rows * cols == cols * rows) by (nonlinear_arith);
            }
            let start = r * cols;
            let row = self.get_unchecked_row_mut(r);
            copy_segment(row, 0, src, start, cols);
            assert(row@ =~= src@.subrange(start as int, start + cols));
            proof {
                self.lemma_grid_wf();
            }
            r += 1;
        }
        proof {
            crate::layout::lemma_dense_rows(self.grid().cells, cols as nat);
            crate::layout::lemma_dense_flatten(src@, cols as nat, rows as nat);
            assert(self.grid().cells =~= crate::layout::strided_rows(src@, cols as int, cols as int, rows as int));
        }
    }

    /// Overwrites the area with clones of the cells of `src`, read row by row.
    fn clone_from_slice(&mut self, src: &[T]) where T: Clone
        requires
            old(self).well_formed(),
            src@.len() == old(self).grid().cols * old(self).grid().rows,
        ensures
            final(self).well_formed(),
            final(self).grid().cols == old(self).grid().cols,
            final(self).grid().rows == old(self).grid().rows,
            forall|c: int, r: int|
                0 <= c < old(self).grid().cols && 0 <= r < old(self).grid().rows ==> cloned(
                    src@[r * old(self).grid().cols + c],
                    #[trigger] final(self).grid().cells[r][c],
                ),
    {
        proof {
            self.lemma_grid_wf();
        }
        let cols = self.num_cols();
        let rows = self.num_rows();
        let mut r: usize = 0;
        while r < rows
            invariant
                self.well_formed(),
                self.grid().wf(),
                self.grid().cols == cols,
                self.grid().rows == rows,
                cols * rows <= usize::MAX,
                src@.len() == cols * rows,
                r <= rows,
                forall|c: int, k: int| 0 <= c < cols && 0 <= k < r ==> cloned(src@[k * cols + c], #[trigger] self.grid().cells[k][c]),
            decreases rows - r,
        {
            proof {
                assert((r + 1) * cols <= rows * cols) by (nonlinear_arith)
                    requires
                        r < rows,
                ;
                assert((r + 1) * cols == r * cols + cols) by (nonlinear_arith);
                assert(rows * cols == cols * rows) by (nonlinear_arith);
            }
            let start = r * cols;
            let row = self.get_unchecked_row_mut(r);
            clone_segment(row, 0, src, start, cols);
            proof {
                self.lemma_grid_wf();
            }
            r += 1;
        }
    }

    /// Overwrites the area with the cells of `src`, an area of the same size.
    fn copy_from_toodee<S: TooDeeOps<T>>(&mut self, src: &S) where T: Copy
        requires
            old(self).well_formed(),
            src.well_formed(),
            src.grid().cols == old(self).grid().cols,
            src.grid().rows == old(self).grid().rows,
        ensures
            final(self).well_formed(),
            final(self).grid() == src.grid(),
    {
        proof {
            self.lemma_grid_wf();
            src.lemma_grid_wf();
        }
        let cols = self.num_cols();
        let rows = self.num_rows();
        let mut r: usize = 0;
        while r < rows
            invariant
                self.well_formed(),
                self.grid().wf(),
                src.well_formed(),
                src.grid().wf(),
                self.grid().cols == cols,
                self.grid().rows == rows,
                src.grid().cols == cols,
                src.grid().rows == rows,
                r <= rows,
                forall|k: int| 0 <= k < r ==> #[trigger] self.grid().cells[k] == src.grid().cells[k],
            decreases rows - r,
        {
            let s = src.get_unchecked_row(r);
            let row = self.get_unchecked_row_mut(r);
            copy_segment(row, 0, s, 0, cols);
            assert(row@ =~= s@);
            proof {
                self.lemma_grid_wf();
            }
            r += 1;
        }
        assert(self.grid().cells =~= src.grid().cells);
    }

    /// Overwrites the area with clones of the cells of `src`, an area of the same size.
    fn clone_from_toodee<S: TooDeeOps<T>>(&mut self, src: &S) where T: Clone
        requires
            old(self).well_formed(),
            src.well_formed(),
            src.grid().cols == old(self).grid().cols,
            src.grid().rows == old(self).grid().rows,
        ensures
            final(self).well_formed(),
            final(self).grid().cols == src.grid().cols,
            final(self).grid().rows == src.grid().rows,
            forall|c: int, r: int|
                0 <= c < src.grid().cols && 0 <= r < src.grid().rows ==> cloned(
                    src.grid().cells[r][c],
                    #[trigger] final(self).grid().cells[r][c],
                ),
    {
        proof {
            self.lemma_grid_wf();
            src.lemma_grid_wf();
        }
        let cols = self.num_cols();
        let rows = self.num_rows();
        let mut r: usize = 0;
        while r < rows
            invariant
                self.well_formed(),
                self.grid().wf(),
                src.well_formed(),
                src.grid().wf(),
                self.grid().cols == cols,
                self.grid().rows == rows,
                src.grid().cols == cols,
                src.grid().rows == rows,
                r <= rows,
                forall|c: int, k: int| 0 <= c < cols && 0 <= k < r ==> cloned(src.grid().cells[k][c], #[trigger] self.grid().cells[k][c]),
            decreases rows - r,
        {
            let s = src.get_unchecked_row(r);
            let row = self.get_unchecked_row_mut(r);
            clone_segment(row, 0, s, 0, cols);
            proof {
                self.lemma_grid_wf();
            }
            r += 1;
        }
    }

    /// Copies the rectangle `src` so that its top-left corner lands on `dest`.
    /// Rows are visited in the order that reads every source row before it is
    /// overwritten, so overlapping rectangles copy as if through a temporary.
    #[verifier::rlimit(50)]
    fn copy_within(&mut self, src: (Coordinate, Coordinate), dest: Coordinate) where T: Copy
        requires
            old(self).well_formed(),
            src.0.0 <= src.1.0 <= old(self).grid().cols,
            src.0.1 <= src.1.1 <= old(self).grid().rows,
            dest.0 + (src.1.0 - src.0.0) <= old(self).grid().cols,
            dest.1 + (src.1.1 - src.0.1) <= old(self).grid().rows,
        ensures
            final(self).well_formed(),
            final(self).grid() == copied_within(old(self).grid(), src, dest),
    {
        proof {
            self.lemma_grid_wf();
        }
        let ghost g0 = self.grid();
        let ghost target = copied_within(g0, src, dest);
        let (top_left, bottom_right) = src;
        let cols = bottom_right.0 - top_left.0;
        let rows = bottom_right.1 - top_left.1;
        let ghost n = g0.rows as int;
        let num_rows = self.num_rows();
        proof {
            assert forall|r: int| 0 <= r < n implies #[trigger] target.cells[r] == if dest.1 <= r < dest.1 + rows {
                copied_row(g0.cells[r], g0.cells[r - dest.1 + top_left.1], dest.0 as int, top_left.0 as int, cols as int)
            } else {
                g0.cells[r]
            } by {
                assert(target.cells[r] =~= if dest.1 <= r < dest.1 + rows {
                    copied_row(g0.cells[r], g0.cells[r - dest.1 + top_left.1], dest.0 as int, top_left.0 as int, cols as int)
                } else {
                    g0.cells[r]
                });
            }
        }
        if top_left.1 < dest.1 {
            let off = dest.1 - top_left.1;
            let mut r = bottom_right.1;
            while r > top_left.1
                invariant
                    self.well_formed(),
                    self.grid().wf(),
                    g0.wf(),
                    self.grid().cols == g0.cols,
                    self.grid().rows == g0.rows,
                    n == g0.rows,
                    n == num_rows,
                    top_left.1 <= r <= bottom_right.1,
                    bottom_right.1 <= n,
                    off == dest.1 - top_left.1,
                    0 < off,
                    rows == bottom_right.1 - top_left.1,
                    dest.1 + rows <= n,
                    top_left.0 + cols <= g0.cols,
                    dest.0 + cols <= g0.cols,
                    forall|k: int|
                        0 <= k < n ==> #[trigger] self.grid().cells[k] == if r + off <= k < bottom_right.1 + off {
                            target.cells[k]
                        } else {
                            g0.cells[k]
                        },
                    forall|k: int| 0 <= k < n ==> #[trigger] target.cells[k] == if dest.1 <= k < dest.1 + rows {
                        copied_row(g0.cells[k], g0.cells[k - dest.1 + top_left.1], dest.0 as int, top_left.0 as int, cols as int)
                    } else {
                        g0.cells[k]
                    },
                decreases r,
            {
                r -= 1;
                let (s, d) = self.row_pair_mut(r, r + off);
                copy_segment(d, dest.0, s, top_left.0, cols);
                assert(d@ =~= copied_row(g0.cells[r + off], g0.cells[r as int], dest.0 as int, top_left.0 as int, cols as int));
                proof {
                    self.lemma_grid_wf();
                }
            }
        } else if top_left.1 > dest.1 {
            let off = top_left.1 - dest.1;
            let mut r = top_left.1;
            while r < bottom_right.1
                invariant
                    self.well_formed(),
                    self.grid().wf(),
                    g0.wf(),
                    self.grid().cols == g0.cols,
                    self.grid().rows == g0.rows,
                    n == g0.rows,
                    n == num_rows,
                    top_left.1 <= r <= bottom_right.1,
                    bottom_right.1 <= n,
                    off == top_left.1 - dest.1,
                    0 < off,
                    rows == bottom_right.1 - top_left.1,
                    top_left.0 + cols <= g0.cols,
                    dest.0 + cols <= g0.cols,
                    forall|k: int|
                        0 <= k < n ==> #[trigger] self.grid().cells[k] == if dest.1 <= k < r - off {
                            target.cells[k]
                        } else {
                            g0.cells[k]
                        },
                    forall|k: int| 0 <= k < n ==> #[trigger] target.cells[k] == if dest.1 <= k < dest.1 + rows {
                        copied_row(g0.cells[k], g0.cells[k - dest.1 + top_left.1], dest.0 as int, top_left.0 as int, cols as int)
                    } else {
                        g0.cells[k]
                    },
                decreases bottom_right.1 - r,
            {
                let (s, d) = self.row_pair_mut(r, r - off);
                copy_segment(d, dest.0, s, top_left.0, cols);
                assert(d@ =~= copied_row(g0.cells[r - off], g0.cells[r as int], dest.0 as int, top_left.0 as int, cols as int));
                proof {
                    self.lemma_grid_wf();
                }
                r += 1;
            }
        } else {
            let mut r = top_left.1;
            while r < bottom_right.1
                invariant
                    self.well_formed(),
                    self.grid().wf(),
                    g0.wf(),
                    self.grid().cols == g0.cols,
                    self.grid().rows == g0.rows,
                    n == g0.rows,
                    n == num_rows,
                    top_left.1 <= r <= bottom_right.1,
                    bottom_right.1 <= n,
                    dest.1 == top_left.1,
                    rows == bottom_right.1 - top_left.1,
                    top_left.0 + cols <= g0.cols,
                    dest.0 + cols <= g0.cols,
                    forall|k: int|
                        0 <= k < n ==> #[trigger] self.grid().cells[k] == if top_left.1 <= k < r {
                            target.cells[k]
                        } else {
                            g0.cells[k]
                        },
                    forall|k: int| 0 <= k < n ==> #[trigger] target.cells[k] == if dest.1 <= k < dest.1 + rows {
                        copied_row(g0.cells[k], g0.cells[k - dest.1 + top_left.1], dest.0 as int, top_left.0 as int, cols as int)
                    } else {
                        g0.cells[k]
                    },
                decreases bottom_right.1 - r,
            {
                let row = self.get_unchecked_row_mut(r);
                copy_within_row(row, top_left.0, dest.0, cols);
                assert(row@ =~= copied_row(g0.cells[r as int], g0.cells[r as int], dest.0 as int, top_left.0 as int, cols as int));
                proof {
                    self.lemma_grid_wf();
                }
                r += 1;
            }
        }
        assert(self.grid().cells =~= target.cells);
    }
}

impl<T, O: TooDeeOpsMut<T>> CopyOps<T> for O {
}

} // verus!
