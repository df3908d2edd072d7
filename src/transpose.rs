//! Transposition of an owned array.
use vstd::prelude::*;

use crate::ops::{Grid, TooDeeOps, TooDeeOpsMut};
use crate::toodee::{dense_grid, TooDee};

verus! {

/// The area mirrored along its main diagonal: row `c` of the result is column `c`.
pub open spec fn transposed<T>(g: Grid<T>) -> Grid<T> {
    Grid { cols: g.rows, rows: g.cols, cells: Seq::new(g.cols, |c: int| g.column(c)) }
}

/// Transposition of an array.
pub trait TransposeOps<T>: TooDeeOpsMut<T> {
    /// Turns rows into columns and columns into rows.
    fn transpose(&mut self)
        requires
            old(self).well_formed(),
        ensures
            final(self).well_formed(),
            final(self).grid() == transposed(old(self).grid()),
    ;
}

impl<T: Copy> TransposeOps<T> for TooDee<T> {
    fn transpose(&mut self) {
        proof {
            self.lemma_grid_wf();
        }
        let ghost g = self.grid();
        let cols = self.num_cols();
        let rows = self.num_rows();
        let mut output: Vec<T> = Vec::new();
        let ghost mut acc: Seq<Seq<T>> = Seq::empty();
        let mut c: usize = 0;
        while c < cols
            invariant
                self.well_formed(),
                self.grid() == g,
                g.wf(),
                g.cols == cols,
                g.rows == rows,
                c <= cols,
                acc == transposed(g).cells.subrange(0, c as int),
                output@ == crate::layout::flatten_rows(acc),
            decreases cols - c,
        {
            let ghost start = output@;
            let mut r: usize = 0;
            while r < rows
                invariant
                    self.well_formed(),
                    self.grid() == g,
                    g.wf(),
                    g.cols == cols,
                    g.rows == rows,
                    c < cols,
                    r <= rows,
                    output@ == start + g.column(c as int).subrange(0, r as int),
                decreases rows - r,
            {
                let v = *self.get_unchecked((c, r));
                output.push(v);
                assert(output@ =~= start + g.column(c as int).subrange(0, r + 1));
                r += 1;
            }
            proof {
                assert(g.column(c as int).subrange(0, rows as int) =~= g.column(c as int));
                assert(acc.push(g.column(c as int)).drop_last() =~= acc);
                acc = acc.push(g.column(c as int));
                assert(acc =~= transposed(g).cells.subrange(0, c + 1));
            }
            c += 1;
        }
        proof {
            assert(acc =~= transposed(g).cells);
            crate::layout::lemma_dense_rows(acc, rows as nat);
            assert(rows * cols == cols * rows) by (nonlinear_arith);
        }
        *self = TooDee::from_vec(rows, cols, output);
        assert(self.grid().cells =~= transposed(g).cells);
    }
}

} // verus!
