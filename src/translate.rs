//! Wrap-around scrolling and mirroring of an area, in place.
use vstd::prelude::*;

use vstd::arithmetic::div_mod::{lemma_add_mod_noop, lemma_fundamental_div_mod_converse, lemma_small_mod};
use vstd::set_lib::{lemma_int_range, lemma_len_subset, set_int_range};

use crate::ops::{Coordinate, Grid, TooDeeOps, TooDeeOpsMut};
use crate::slices::{slice_rotate_left, slice_swap, slice_swap_with};

verus! {

/// `s` rotated left by `k`: cell `i` of the result is cell `(i + k) mod len` of `s`.
pub open spec fn rotated<T>(s: Seq<T>, k: int) -> Seq<T> {
    Seq::new(s.len(), |i: int| s[(i + k) % (s.len() as int)])
}

/// The area scrolled so that cell `(a, b)` comes to `(0, 0)`, wrapping at both
/// edges: cell `(c, r)` of the result is cell `((c + a) mod cols, (r + b) mod rows)`.
pub open spec fn translated<T>(g: Grid<T>, a: int, b: int) -> Grid<T> {
    Grid {
        cols: g.cols,
        rows: g.rows,
        cells: Seq::new(g.rows, |r: int| rotated(g.cells[(r + b) % (g.rows as int)], a)),
    }
}

/// The area upside down.
pub open spec fn flipped_rows<T>(g: Grid<T>) -> Grid<T> {
    Grid { cells: Seq::new(g.rows, |r: int| g.cells[g.rows - 1 - r]), ..g }
}

/// The area mirrored left to right.
pub open spec fn flipped_cols<T>(g: Grid<T>) -> Grid<T> {
    Grid { cells: Seq::new(g.rows, |r: int| g.cells[r].reverse()), ..g }
}

/// The two halves of a slice swapped around `k` are the slice rotated by `k`.
pub proof fn lemma_rotated_split<T>(s: Seq<T>, k: int)
    requires
        0 <= k <= s.len(),
    ensures
        s.subrange(k, s.len() as int) + s.subrange(0, k) == rotated(s, k),
{
    let n = s.len() as int;
    assert forall|i: int| 0 <= i < n implies #[trigger] (s.subrange(k, n) + s.subrange(0, k))[i] == rotated(s, k)[i] by {
        if i + k < n {
            lemma_small_mod((i + k) as nat, n as nat);
        } else {
            lemma_fundamental_div_mod_converse(i + k, n, 1, i + k - n);
        }
    }
    assert(s.subrange(k, n) + s.subrange(0, k) =~= rotated(s, k));
}

proof fn lemma_mod_idem(x: int, n: int)
    requires
        0 <= x,
        0 < n,
    ensures
        0 <= x % n < n,
        (x % n) % n == x % n,
{
    vstd::arithmetic::div_mod::lemma_mod_bound(x, n);
    lemma_small_mod((x % n) as nat, n as nat);
}

/// Rotating by `j` and then by `m` rotates by `(j + m) mod len`.
pub proof fn lemma_rotated_compose<T>(s: Seq<T>, j: int, m: int)
    requires
        0 <= j,
        0 <= m,
    ensures
        rotated(rotated(s, j), m) == rotated(s, (j + m) % (s.len() as int)),
{
    let n = s.len() as int;
    if n > 0 {
        assert forall|i: int| 0 <= i < n implies #[trigger] rotated(rotated(s, j), m)[i] == rotated(
            s,
            (j + m) % n,
        )[i] by {
            vstd::arithmetic::div_mod::lemma_mod_bound(i + m, n);
            lemma_add_mod_noop(i + m, j, n);
            lemma_add_mod_noop(i, j + m, n);
            lemma_small_mod(i as nat, n as nat);
            vstd::arithmetic::div_mod::lemma_mod_bound(j, n);
            lemma_mod_idem(j, n);
            lemma_add_mod_noop(i, (j + m) % n, n);
            lemma_mod_idem(j + m, n);
            assert((i + m) % n + j == (i + m) % n + j);
            assert(((i + m) % n + j) % n == (i + m + j) % n) by {
                lemma_add_mod_noop(i + m, j, n);
                lemma_mod_idem(i + m, n);
                lemma_mod_idem(j, n);
                lemma_add_mod_noop((i + m) % n, j, n);
            }
            assert((i + (j + m) % n) % n == (i + j + m) % n) by {
                lemma_add_mod_noop(i, j + m, n);
                lemma_add_mod_noop(i, (j + m) % n, n);
                lemma_mod_idem(j + m, n);
            }
        }
    }
    assert(rotated(rotated(s, j), m) =~= rotated(s, (j + m) % n));
}

/// Rotating by zero changes nothing.
pub proof fn lemma_rotated_zero<T>(s: Seq<T>)
    ensures
        rotated(s, 0) == s,
{
    assert forall|i: int| 0 <= i < s.len() implies #[trigger] rotated(s, 0)[i] == s[i] by {
        lemma_small_mod(i as nat, s.len() as nat);
    }
    assert(rotated(s, 0) =~= s);
}

/// The row that follows `r` on a cycle of the row permutation: `step` rows on, wrapping.
pub open spec fn cycle_next(r: int, step: int, rows: int) -> int {
    if r + step < rows {
        r + step
    } else {
        r + step - rows
    }
}

/// The row that precedes `r` on a cycle of the row permutation.
pub open spec fn cycle_prev(r: int, step: int, rows: int) -> int {
    if r + (rows - step) < rows {
        r + (rows - step)
    } else {
        r - step
    }
}

/// Scrolling by `(a, b)` and then by the complementary amounts restores the area.
pub proof fn lemma_translate_involution<T>(g: Grid<T>, a: int, b: int)
    requires
        g.wf(),
        0 <= a <= g.cols,
        0 <= b <= g.rows,
    ensures
        translated(translated(g, a, b), g.cols - a, g.rows - b) == g,
{
    let t = translated(translated(g, a, b), g.cols - a, g.rows - b);
    let n = g.rows as int;
    let c = g.cols as int;
    assert forall|r: int| 0 <= r < n implies #[trigger] t.cells[r] == g.cells[r] by {
        vstd::arithmetic::div_mod::lemma_mod_bound(r + (n - b), n);
        let r1 = (r + (n - b)) % n;
        vstd::arithmetic::div_mod::lemma_mod_bound(r1 + b, n);
        assert((r1 + b) % n == r) by {
            lemma_add_mod_noop(r + (n - b), b, n);
            lemma_mod_idem(r + (n - b), n);
            lemma_add_mod_noop(r1, b, n);
            lemma_mod_idem(b, n);
            lemma_fundamental_div_mod_converse(r + n, n, 1, r);
        }
        let row = g.cells[r];
        lemma_rotated_compose(row, a, c - a);
        assert(a + (c - a) == c);
        if c > 0 {
            lemma_fundamental_div_mod_converse(c, c, 1, 0);
        }
        lemma_rotated_zero(row);
    }
    assert(t.cells =~= g.cells);
}

/// Scrolling by a full extent is scrolling by zero.
proof fn lemma_normalize<T>(g0: Grid<T>, m0: int, m1: int, a: int, b: int)
    requires
        g0.wf(),
        g0.rows > 0,
        0 <= m0 <= g0.cols,
        0 <= m1 <= g0.rows,
        a == (if m0 == g0.cols { 0 } else { m0 }),
        b == (if m1 == g0.rows { 0 } else { m1 }),
    ensures
        translated(g0, a, b) == translated(g0, m0, m1),
{
    let n = g0.rows as int;
    let c = g0.cols as int;
    let target = translated(g0, a, b);
    assert forall|r: int| 0 <= r < n implies #[trigger] target.cells[r] == translated(g0, m0, m1).cells[r] by {
        if m1 == n {
            lemma_fundamental_div_mod_converse(r + n, n, 1, r);
            lemma_small_mod(r as nat, n as nat);
        }
        vstd::arithmetic::div_mod::lemma_mod_bound(r + b, n);
        if m0 == c {
            let row = g0.cells[(r + b) % n];
            assert forall|i: int| 0 <= i < c implies #[trigger] rotated(row, c)[i] == rotated(row, 0)[i] by {
                lemma_fundamental_div_mod_converse(i + c, c, 1, i);
                lemma_small_mod(i as nat, c as nat);
            }
            assert(rotated(row, c) =~= rotated(row, 0));
        }
    }
    assert(target.cells =~= translated(g0, m0, m1).cells);
}

/// Every row `i < n` of `cur` is the scrolled row when `i` is in `done`, and the original row otherwise.
#[verifier::opaque]
pub open spec fn rows_settled<T>(cur: Grid<T>, g0: Grid<T>, target: Grid<T>, done: Set<int>, n: int, skip: int) -> bool {
    forall|i: int|
        0 <= i < n && i != skip ==> #[trigger] cur.cells[i] == if done.contains(i) {
            target.cells[i]
        } else {
            g0.cells[i]
        }
}

/// `done` holds whole cycles of the row permutation.
#[verifier::opaque]
pub open spec fn cycles_closed(done: Set<int>, step: int, n: int) -> bool {
    forall|i: int| #[trigger]
        done.contains(i) ==> done.contains(cycle_next(i, step, n)) && done.contains(cycle_prev(i, step, n))
}

/// The flags in `visited` mark exactly the rows in `done`, all below `n`.
#[verifier::opaque]
pub open spec fn marks(visited: Seq<bool>, done: Set<int>, n: int) -> bool {
    &&& visited.len() == n
    &&& done.subset_of(set_int_range(0, n))
    &&& forall|i: int| 0 <= i < n ==> (visited[i] <==> #[trigger] done.contains(i))
}

/// Row `next` receives row `base` rotated by `mid`, while row `base` receives
/// row `next` rotated by `cols - mid`: one exchange on a cycle of rows.
fn exchange_rotating<T, O: TooDeeOpsMut<T> + ?Sized>(o: &mut O, base: usize, next: usize, mid: usize)
    requires
        old(o).well_formed(),
        base < old(o).grid().rows,
        next < old(o).grid().rows,
        base != next,
        mid < old(o).grid().cols,
    ensures
        final(o).well_formed(),
        final(o).grid() == old(o).grid().set_row(
            base as int,
            rotated(old(o).grid().cells[next as int], old(o).grid().cols - mid),
        ).set_row(next as int, rotated(old(o).grid().cells[base as int], mid as int)),
{
    proof {
        o.lemma_grid_wf();
    }
    let ghost g = o.grid();
    let cols = o.num_cols();
    let (x, y) = o.row_pair_mut(base, next);
    let (x1, x2) = x.split_at_mut(mid);
    let (y1, y2) = y.split_at_mut(cols - mid);
    slice_swap_with(x1, y2);
    slice_swap_with(x2, y1);
    proof {
        lemma_rotated_split(g.cells[base as int], mid as int);
        lemma_rotated_split(g.cells[next as int], cols - mid);
    }
}

/// Rotates every row left by `k`.
fn rotate_rows<T, O: TooDeeOpsMut<T> + ?Sized>(o: &mut O, k: usize)
    requires
        old(o).well_formed(),
        k <= old(o).grid().cols,
    ensures
        final(o).well_formed(),
        final(o).grid() == (Grid {
            cells: Seq::new(old(o).grid().rows, |r: int| rotated(old(o).grid().cells[r], k as int)),
            ..old(o).grid()
        }),
{
    proof {
        o.lemma_grid_wf();
    }
    let ghost g0 = o.grid();
    let num_rows = o.num_rows();
    let mut r: usize = 0;
    while r < num_rows
        invariant
            o.well_formed(),
            o.grid().wf(),
            g0.wf(),
            o.grid().cols == g0.cols,
            o.grid().rows == g0.rows,
            num_rows == g0.rows,
            k <= g0.cols,
            r <= num_rows,
            forall|i: int| 0 <= i < r ==> #[trigger] o.grid().cells[i] == rotated(g0.cells[i], k as int),
            forall|i: int| r <= i < num_rows ==> #[trigger] o.grid().cells[i] == g0.cells[i],
        decreases num_rows - r,
    {
        let row = o.get_unchecked_row_mut(r);
        slice_rotate_left(row, k);
        proof {
            lemma_rotated_split(g0.cells[r as int], k as int);
            o.lemma_grid_wf();
        }
        r += 1;
    }
    assert(o.grid().cells =~= Seq::new(g0.rows, |r: int| rotated(g0.cells[r], k as int)));
}

/// The next row on a cycle: `step = rows - b` rows on, wrapping.
fn next_on_cycle(r: usize, b: usize, rows: usize) -> (s: usize)
    requires
        0 < b < rows,
        r < rows,
    ensures
        s == cycle_next(r as int, rows - b, rows as int),
        s < rows,
{
    if r < b {
        r + (rows - b)
    } else {
        r - b
    }
}

/// `cyc` is the part of the cycle through `base` walked so far, ending at `held`.
#[verifier::opaque]
pub open spec fn cycle_chain(cyc: Set<int>, base: int, held: int, step: int, n: int) -> bool {
    &&& cyc.contains(base)
    &&& cyc.contains(held)
    &&& forall|i: int| #[trigger]
        cyc.contains(i) && i != base ==> cyc.contains(cycle_prev(i, step, n)) && cycle_prev(i, step, n) != held
    &&& forall|i: int| #[trigger] cyc.contains(i) && i != held ==> cyc.contains(cycle_next(i, step, n))
}

proof fn lemma_cycle_steps(r: int, step: int, n: int)
    requires
        0 < step < n,
        0 <= r < n,
    ensures
        0 <= cycle_next(r, step, n) < n,
        0 <= cycle_prev(r, step, n) < n,
        cycle_prev(cycle_next(r, step, n), step, n) == r,
        cycle_next(cycle_prev(r, step, n), step, n) == r,
{
}

/// The row after `held` is new unless the walk has come back to `base`.
proof fn lemma_next_fresh(closed: Set<int>, cyc: Set<int>, base: int, held: int, step: int, n: int)
    requires
        0 < step < n,
        0 <= held < n,
        cycle_chain(cyc, base, held, step, n),
        cycles_closed(closed, step, n),
        closed.disjoint(cyc),
        cycle_next(held, step, n) != base,
    ensures
        !closed.union(cyc).contains(cycle_next(held, step, n)),
        cycle_chain(cyc.insert(cycle_next(held, step, n)), base, cycle_next(held, step, n), step, n),
{
    reveal(cycle_chain);
    reveal(cycles_closed);
    let nx = cycle_next(held, step, n);
    lemma_cycle_steps(held, step, n);
    if closed.contains(nx) {
        assert(closed.contains(cycle_prev(nx, step, n)));
    }
    if cyc.contains(nx) {
        assert(cycle_prev(nx, step, n) != held);
    }
    let c2 = cyc.insert(nx);
    assert forall|i: int| #[trigger] c2.contains(i) && i != base implies c2.contains(cycle_prev(i, step, n))
        && cycle_prev(i, step, n) != nx by {
        if i != nx {
            assert(cyc.contains(i));
        }
    }
    assert forall|i: int| #[trigger] c2.contains(i) && i != nx implies c2.contains(cycle_next(i, step, n)) by {
        if i != held {
            assert(cyc.contains(i));
        }
    }
}

/// A cycle that has come back to `base` is closed, and so is its union with earlier cycles.
proof fn lemma_cycle_closes(closed: Set<int>, cyc: Set<int>, base: int, held: int, step: int, n: int)
    requires
        0 < step < n,
        0 <= held < n,
        0 <= base < n,
        cycle_chain(cyc, base, held, step, n),
        cycles_closed(closed, step, n),
        cycle_next(held, step, n) == base,
    ensures
        cycles_closed(closed.union(cyc), step, n),
        cycle_prev(base, step, n) == held,
{
    reveal(cycle_chain);
    reveal(cycles_closed);
    lemma_cycle_steps(held, step, n);
    let u = closed.union(cyc);
    assert forall|i: int| #[trigger] u.contains(i) implies u.contains(cycle_next(i, step, n)) && u.contains(
        cycle_prev(i, step, n),
    ) by {
        if cyc.contains(i) && !closed.contains(i) {
            if i == held {
            }
            if i == base {
            }
        }
    }
}

/// Settling one more row keeps the record of settled rows true.
proof fn lemma_settle<T>(
    before: Grid<T>,
    after: Grid<T>,
    g: Grid<T>,
    target: Grid<T>,
    vis: Set<int>,
    n: int,
    skip: int,
    r: int,
)
    requires
        rows_settled(before, g, target, vis, n, skip),
        0 <= r < n,
        r != skip,
        after.cells[r] == target.cells[r],
        forall|i: int| 0 <= i < n && i != r && i != skip ==> after.cells[i] == before.cells[i],
    ensures
        rows_settled(after, g, target, vis.insert(r), n, skip),
{
    reveal(rows_settled);
    assert forall|i: int| 0 <= i < n && i != skip implies #[trigger] after.cells[i] == if vis.insert(r).contains(i) {
        target.cells[i]
    } else {
        g.cells[i]
    } by {
        if i != r {
            assert(before.cells[i] == if vis.contains(i) { target.cells[i] } else { g.cells[i] });
        }
    }
}

/// Once the skipped row is settled too, no row needs to be skipped.
proof fn lemma_settle_skip<T>(cur: Grid<T>, g: Grid<T>, target: Grid<T>, vis: Set<int>, n: int, skip: int)
    requires
        rows_settled(cur, g, target, vis, n, skip),
        vis.contains(skip),
        0 <= skip < n ==> cur.cells[skip] == target.cells[skip],
    ensures
        rows_settled(cur, g, target, vis, n, -1),
{
    reveal(rows_settled);
}

/// Marking row `r` in `visited` records it as done.
proof fn lemma_mark(visited: Seq<bool>, done: Set<int>, n: int, r: int)
    requires
        marks(visited, done, n),
        0 <= r < n,
    ensures
        marks(visited.update(r, true), done.insert(r), n),
        visited.len() == n,
        done.contains(r) <==> visited[r],
        done.finite(),
        done.len() <= n,
{
    reveal(marks);
    lemma_int_range(0, n);
    lemma_len_subset(done, set_int_range(0, n));
    assert forall|i: int| 0 <= i < n implies (visited.update(r, true)[i] <==> #[trigger] done.insert(r).contains(i)) by {
    }
}

#[verifier::rlimit(60)]
/// Walks the cycle of rows through `base`, leaving each of its rows scrolled.
fn walk_cycle<T, O: TooDeeOpsMut<T> + ?Sized>(
    o: &mut O,
    visited: &mut Vec<bool>,
    base: usize,
    a: usize,
    b: usize,
    g0: Ghost<Grid<T>>,
    done: Ghost<Set<int>>,
) -> (done_after: Ghost<Set<int>>)
    requires
        old(o).well_formed(),
        g0@.wf(),
        old(o).grid().cols == g0@.cols,
        old(o).grid().rows == g0@.rows,
        a < g0@.cols,
        0 < b < g0@.rows,
        base < g0@.rows,
        !done@.contains(base as int),
        marks(old(visited)@, done@, g0@.rows as int),
        cycles_closed(done@, g0@.rows - b, g0@.rows as int),
        rows_settled(old(o).grid(), g0@, translated(g0@, a as int, b as int), done@, g0@.rows as int, -1),
        forall|i: int| 0 <= i < g0@.rows ==> (#[trigger] ((i + b) % (g0@.rows as int))) == cycle_prev(i, g0@.rows - b, g0@.rows as int),
    ensures
        final(o).well_formed(),
        final(o).grid().cols == g0@.cols,
        final(o).grid().rows == g0@.rows,
        done_after@.contains(base as int),
        done@.subset_of(done_after@),
        marks(final(visited)@, done_after@, g0@.rows as int),
        cycles_closed(done_after@, g0@.rows - b, g0@.rows as int),
        rows_settled(final(o).grid(), g0@, translated(g0@, a as int, b as int), done_after@, g0@.rows as int, -1),
{
    proof {
        o.lemma_grid_wf();
    }
    let ghost g = g0@;
    let ghost n = g.rows as int;
    let ghost c = g.cols as int;
    let ghost step = n - b;
    let ghost target = translated(g, a as int, b as int);
    let ghost closed = done@;
    let ghost mut vis = done@.insert(base as int);
    let ghost mut cyc: Set<int> = Set::empty().insert(base as int);
    let ghost mut held: int = base as int;
    let ghost mut j: int = 0;
    let num_rows = o.num_rows();
    let num_cols = o.num_cols();
    let mut mid = a;
    proof {
        lemma_mark(visited@, done@, n, base as int);
        lemma_rotated_zero(g.cells[base as int]);
        reveal(cycle_chain);
        reveal(rows_settled);
        assert(closed.disjoint(cyc));
        assert(vis =~= closed.union(cyc));
    }
    visited.set(base, true);
    let mut next = next_on_cycle(base, b, num_rows);
    loop
        invariant
            o.well_formed(),
            o.grid().wf(),
            o.grid().cols == c,
            o.grid().rows == n,
            num_rows == n,
            num_cols == c,
            g.wf(),
            g == g0@,
            closed == done@,
            n == g.rows,
            c == g.cols,
            0 < b < n,
            step == n - b,
            a < c,
            base < n,
            target == translated(g, a as int, b as int),
            forall|i: int| 0 <= i < n ==> (#[trigger] ((i + b) % n)) == cycle_prev(i, step, n),
            marks(visited@, vis, n),
            vis == closed.union(cyc),
            closed.disjoint(cyc),
            cycles_closed(closed, step, n),
            cycle_chain(cyc, base as int, held, step, n),
            0 <= held < n,
            next == cycle_next(held, step, n),
            0 <= j <= c,
            mid < c,
            j + mid == a || j + mid == a + c,
            o.grid().cells[base as int] == rotated(g.cells[held], j),
            rows_settled(o.grid(), g, target, vis, n, base as int),
        decreases n - vis.len(),
    {
        proof {
            lemma_mark(visited@, vis, n, base as int);
            lemma_cycle_steps(held, step, n);
            lemma_rotated_compose(g.cells[held], j, mid as int);
            if j + mid == a + c {
                lemma_fundamental_div_mod_converse(j + mid, c, 1, a as int);
            } else {
                lemma_small_mod(a as nat, c as nat);
            }
        }
        if next == base {
            let ghost before = o.grid();
            rotate_one(o, base, mid);
            proof {
                lemma_cycle_closes(closed, cyc, base as int, held, step, n);
                assert((base + b) % n == held);
                assert(g.cells[held].len() == c);
                assert((j + mid) % c == a);
                assert(before.cells[base as int] == rotated(g.cells[held], j));
                assert(o.grid().cells[base as int] == rotated(rotated(g.cells[held], j), mid as int));
                assert(o.grid().cells[base as int] == rotated(g.cells[held], a as int));
                assert(target.cells[base as int] == rotated(g.cells[held], a as int));
                assert(o.grid().cells[base as int] == target.cells[base as int]);
                reveal(rows_settled);
                reveal(cycle_chain);
                assert(vis.contains(base as int));
                assert(rows_settled(o.grid(), g, target, vis, n, base as int));
                lemma_settle_skip(o.grid(), g, target, vis, n, base as int);
            }
            return Ghost(vis);
        }
        proof {
            lemma_next_fresh(closed, cyc, base as int, held, step, n);
            lemma_mark(visited@, vis, n, next as int);
            assert((next + b) % n == held);
        }
        let ghost before = o.grid();
        assert(before.cells[next as int] == g.cells[next as int]) by {
            reveal(rows_settled);
        }
        exchange_rotating(o, base, next, mid);
        visited.set(next, true);
        proof {
            o.lemma_grid_wf();
            assert(o.grid().cells[next as int] == target.cells[next as int]);
            lemma_settle(before, o.grid(), g, target, vis, n, base as int, next as int);
            vis = vis.insert(next as int);
            cyc = cyc.insert(next as int);
            held = next as int;
            j = c - mid;
            assert(vis =~= closed.union(cyc));
            lemma_mark(visited@, vis, n, base as int);
        }
        mid = if mid >= num_cols - a {
            mid - (num_cols - a)
        } else {
            mid + a
        };
        next = next_on_cycle(next, b, num_rows);
    }
}

/// Rotates row `row` left by `k`.
fn rotate_one<T, O: TooDeeOpsMut<T> + ?Sized>(o: &mut O, row: usize, k: usize)
    requires
        old(o).well_formed(),
        row < old(o).grid().rows,
        k <= old(o).grid().cols,
    ensures
        final(o).well_formed(),
        final(o).grid() == old(o).grid().set_row(row as int, rotated(old(o).grid().cells[row as int], k as int)),
{
    proof {
        o.lemma_grid_wf();
    }
    let ghost g = o.grid();
    let r = o.get_unchecked_row_mut(row);
    slice_rotate_left(r, k);
    proof {
        lemma_rotated_split(g.cells[row as int], k as int);
    }
}

/// Sets every cell of columns `c0..c1`, rows `r0..r1` to a clone of `fill`.
fn fill_rect<T: Clone, O: TooDeeOpsMut<T> + ?Sized>(o: &mut O, c0: usize, c1: usize, r0: usize, r1: usize, fill: &T)
    requires
        old(o).well_formed(),
        c0 <= c1 <= old(o).grid().cols,
        r0 <= r1 <= old(o).grid().rows,
    ensures
        final(o).well_formed(),
        final(o).grid().cols == old(o).grid().cols,
        final(o).grid().rows == old(o).grid().rows,
        forall|c: int, r: int|
            0 <= c < old(o).grid().cols && 0 <= r < old(o).grid().rows ==> if c0 <= c < c1 && r0 <= r < r1 {
                cloned(*fill, #[trigger] final(o).grid().cells[r][c])
            } else {
                final(o).grid().cells[r][c] == old(o).grid().cells[r][c]
            },
{
    proof {
        o.lemma_grid_wf();
    }
    let ghost g0 = o.grid();
    let mut r = r0;
    while r < r1
        invariant
            o.well_formed(),
            o.grid().wf(),
            g0.wf(),
            o.grid().cols == g0.cols,
            o.grid().rows == g0.rows,
            c0 <= c1 <= g0.cols,
            r0 <= r <= r1 <= g0.rows,
            forall|c: int, rr: int|
                0 <= c < g0.cols && 0 <= rr < g0.rows ==> if c0 <= c < c1 && r0 <= rr < r {
                    cloned(*fill, #[trigger] o.grid().cells[rr][c])
                } else {
                    o.grid().cells[rr][c] == g0.cells[rr][c]
                },
        decreases r1 - r,
    {
        let mut c = c0;
        while c < c1
            invariant
                o.well_formed(),
                o.grid().wf(),
                g0.wf(),
                o.grid().cols == g0.cols,
                o.grid().rows == g0.rows,
                c0 <= c <= c1 <= g0.cols,
                r0 <= r < r1 <= g0.rows,
                forall|cc: int, rr: int|
                    0 <= cc < g0.cols && 0 <= rr < g0.rows ==> if c0 <= cc < c1 && r0 <= rr < r || rr == r && c0
                        <= cc < c {
                        cloned(*fill, #[trigger] o.grid().cells[rr][cc])
                    } else {
                        o.grid().cells[rr][cc] == g0.cells[rr][cc]
                    },
            decreases c1 - c,
        {
            let cell = o.get_unchecked_mut((c, r));
            *cell = fill.clone();
            proof {
                o.lemma_grid_wf();
            }
            c += 1;
        }
        r += 1;
    }
}

/// Reverses `s` by exchanging mirrored pairs.
fn reverse_slice<T>(s: &mut [T])
    ensures
        final(s)@ == old(s)@.reverse(),
{
    let len = s.len();
    let mut i: usize = 0;
    while i < len / 2
        invariant
            len == old(s)@.len(),
            s@.len() == len,
            i <= len / 2,
            forall|k: int| 0 <= k < i ==> #[trigger] s@[k] == old(s)@[len - 1 - k],
            forall|k: int| len - i <= k < len ==> #[trigger] s@[k] == old(s)@[len - 1 - k],
            forall|k: int| i <= k < len - i ==> #[trigger] s@[k] == old(s)@[k],
        decreases len / 2 - i,
    {
        slice_swap(s, i, len - 1 - i);
        i += 1;
    }
    assert(s@ =~= old(s)@.reverse());
}

/// `(-shift) mod extent`, the scroll position that moves content by `shift`.
pub open spec fn shift_mid(shift: int, extent: int) -> int {
    (-shift) % extent
}

/// The scroll position for moving content by `shift` within `extent > 0` cells.
fn mid_of_shift(shift: isize, extent: usize) -> (m: usize)
    requires
        extent > 0,
    ensures
        m == shift_mid(shift as int, extent as int),
        m < extent,
{
    if shift >= 0 {
        let s = (shift as usize) % extent;
        proof {
            let q = (shift as int) / (extent as int);
            vstd::arithmetic::div_mod::lemma_fundamental_div_mod(shift as int, extent as int);
            if s > 0 {
                assert(-shift == (extent as int) * (-q - 1) + (extent - s)) by (nonlinear_arith)
                    requires
                        shift == (extent as int) * q + s,
                ;
                lemma_fundamental_div_mod_converse(-shift, extent as int, -q - 1, extent - s);
            } else {
                assert(-shift == (extent as int) * (-q) + 0) by (nonlinear_arith)
                    requires
                        shift == (extent as int) * q + s,
                        s == 0,
                ;
                lemma_fundamental_div_mod_converse(-shift, extent as int, -q, 0);
            }
        }
        if s == 0 {
            0
        } else {
            extent - s
        }
    } else {
        let m = (-(shift + 1)) as usize + 1;
        m % extent
    }
}

/// Whether cell `(c, r)` of an area moved by `(dc, dr)` has a source inside the area.
pub open spec fn has_source(c: int, r: int, dc: int, dr: int, cols: int, rows: int) -> bool {
    0 <= c - dc < cols && 0 <= r - dr < rows
}

/// In-place scrolling and mirroring, for every mutable area.
pub trait TranslateOps<T>: TooDeeOpsMut<T> {
    /// Scrolls the area so that cell `mid` comes to `(0, 0)`, wrapping at both
    /// edges, in one pass: the rows are permuted cycle by cycle (rows already
    /// placed are marked, so each cycle is walked once), and each row exchange
    /// also rotates the columns, so that every cell is moved once.
    #[verifier::rlimit(60)]
    fn translate_with_wrap(&mut self, mid: Coordinate)
        requires
            old(self).well_formed(),
            mid.0 <= old(self).grid().cols,
            mid.1 <= old(self).grid().rows,
        ensures
            final(self).well_formed(),
            final(self).grid() == translated(old(self).grid(), mid.0 as int, mid.1 as int),
    {
        proof {
            self.lemma_grid_wf();
        }
        let ghost g0 = self.grid();
        let num_cols = self.num_cols();
        let num_rows = self.num_rows();
        if num_rows == 0 {
            assert(self.grid().cells =~= translated(g0, mid.0 as int, mid.1 as int).cells);
            return;
        }
        let mut col_mid = mid.0;
        let mut row_mid = mid.1;
        if col_mid == num_cols {
            col_mid = 0;
        }
        if row_mid == num_rows {
            row_mid = 0;
        }
        let ghost a = col_mid as int;
        let ghost b = row_mid as int;
        let ghost n = num_rows as int;
        let ghost c = num_cols as int;
        let ghost target = translated(g0, a, b);
        proof {
            lemma_normalize(g0, mid.0 as int, mid.1 as int, a, b);
            assert forall|r: int| 0 <= r < n implies (#[trigger] ((r + b) % n)) == cycle_prev(r, n - b, n) by {
                if r + b < n {
                    lemma_small_mod((r + b) as nat, n as nat);
                } else {
                    lemma_fundamental_div_mod_converse(r + b, n, 1, r + b - n);
                }
            }
        }
        if row_mid == 0 {
            rotate_rows(self, col_mid);
            proof {
                assert forall|r: int| 0 <= r < n implies #[trigger] self.grid().cells[r] == target.cells[r] by {
                    lemma_small_mod(r as nat, n as nat);
                }
            }
            assert(self.grid().cells =~= target.cells);
            return;
        }
        let mut visited: Vec<bool> = vec![false; num_rows];
        let ghost mut vis: Set<int> = Set::empty();
        proof {
            lemma_int_range(0, n);
            reveal(marks);
            reveal(cycles_closed);
            reveal(rows_settled);
            assert(marks(visited@, vis, n));
            assert(rows_settled(self.grid(), g0, target, vis, n, -1));
        }
        let mut base: usize = 0;
        while base < num_rows
            invariant
                self.well_formed(),
                self.grid().cols == c,
                self.grid().rows == n,
                num_rows == n,
                g0.wf(),
                g0.rows == n,
                g0.cols == c,
                0 < b < n,
                a == col_mid,
                b == row_mid,
                col_mid < c,
                base <= n,
                target == translated(g0, a, b),
                forall|i: int| 0 <= i < n ==> (#[trigger] ((i + b) % n)) == cycle_prev(i, n - b, n),
                marks(visited@, vis, n),
                cycles_closed(vis, n - b, n),
                forall|i: int| 0 <= i < base ==> #[trigger] vis.contains(i),
                rows_settled(self.grid(), g0, target, vis, n, -1),
            decreases n - base,
        {
            proof {
                lemma_mark(visited@, vis, n, base as int);
            }
            if !visited[base] {
                let Ghost(v2) = walk_cycle(self, &mut visited, base, col_mid, row_mid, Ghost(g0), Ghost(vis));
                proof {
                    vis = v2;
                }
            }
            base += 1;
        }
        proof {
            self.lemma_grid_wf();
            reveal(rows_settled);
            assert forall|i: int| 0 <= i < n implies #[trigger] self.grid().cells[i] == target.cells[i] by {
                assert(vis.contains(i));
            }
        }
        assert(self.grid().cells =~= target.cells);
    }

    /// Turns the area upside down.
    fn flip_rows(&mut self)
        requires
            old(self).well_formed(),
        ensures
            final(self).well_formed(),
            final(self).grid() == flipped_rows(old(self).grid()),
    {
        proof {
            self.lemma_grid_wf();
        }
        let ghost g0 = self.grid();
        let n = self.num_rows();
        let mut i: usize = 0;
        while i < n / 2
            invariant
                self.well_formed(),
                self.grid().wf(),
                g0.wf(),
                self.grid().cols == g0.cols,
                self.grid().rows == g0.rows,
                n == g0.rows,
                i <= n / 2,
                forall|k: int| 0 <= k < i ==> #[trigger] self.grid().cells[k] == g0.cells[n - 1 - k],
                forall|k: int| n - i <= k < n ==> #[trigger] self.grid().cells[k] == g0.cells[n - 1 - k],
                forall|k: int| i <= k < n - i ==> #[trigger] self.grid().cells[k] == g0.cells[k],
            decreases n / 2 - i,
        {
            self.swap_rows(i, n - 1 - i);
            proof {
                self.lemma_grid_wf();
            }
            i += 1;
        }
        assert(self.grid().cells =~= flipped_rows(g0).cells);
    }

    /// Mirrors the area left to right.
    fn flip_cols(&mut self)
        requires
            old(self).well_formed(),
        ensures
            final(self).well_formed(),
            final(self).grid() == flipped_cols(old(self).grid()),
    {
        proof {
            self.lemma_grid_wf();
        }
        let ghost g0 = self.grid();
        let n = self.num_rows();
        let mut r: usize = 0;
        while r < n
            invariant
                self.well_formed(),
                self.grid().wf(),
                g0.wf(),
                self.grid().cols == g0.cols,
                self.grid().rows == g0.rows,
                n == g0.rows,
                r <= n,
                forall|k: int| 0 <= k < r ==> #[trigger] self.grid().cells[k] == g0.cells[k].reverse(),
                forall|k: int| r <= k < n ==> #[trigger] self.grid().cells[k] == g0.cells[k],
            decreases n - r,
        {
            let row = self.get_unchecked_row_mut(r);
            reverse_slice(row);
            proof {
                self.lemma_grid_wf();
            }
            r += 1;
        }
        assert(self.grid().cells =~= flipped_cols(g0).cells);
    }

    /// Moves the content by `col_shift` columns and `row_shift` rows (right and
    /// down when positive), wrapping at both edges.
    fn slide_with_wrap(&mut self, col_shift: isize, row_shift: isize)
        requires
            old(self).well_formed(),
        ensures
            final(self).well_formed(),
            old(self).grid().rows == 0 ==> final(self).grid() == old(self).grid(),
            old(self).grid().rows > 0 ==> final(self).grid() == translated(
                old(self).grid(),
                shift_mid(col_shift as int, old(self).grid().cols as int),
                shift_mid(row_shift as int, old(self).grid().rows as int),
            ),
    {
        proof {
            self.lemma_grid_wf();
        }
        if self.num_rows() == 0 {
            return;
        }
        let a = mid_of_shift(col_shift, self.num_cols());
        let b = mid_of_shift(row_shift, self.num_rows());
        self.translate_with_wrap((a, b));
    }

    /// Moves the content by `col_shift` columns and `row_shift` rows (right and
    /// down when positive); the cells left without a source are set to clones
    /// of `fill`. The data is moved by a wrapping scroll, after which the strips
    /// that received wrapped-around cells are overwritten.
    fn slide_with_fill(&mut self, col_shift: isize, row_shift: isize, fill: &T) where T: Clone
        requires
            old(self).well_formed(),
        ensures
            final(self).well_formed(),
            final(self).grid().cols == old(self).grid().cols,
            final(self).grid().rows == old(self).grid().rows,
            forall|c: int, r: int|
                0 <= c < old(self).grid().cols && 0 <= r < old(self).grid().rows ==> if has_source(
                    c,
                    r,
                    col_shift as int,
                    row_shift as int,
                    old(self).grid().cols as int,
                    old(self).grid().rows as int,
                ) {
                    #[trigger] final(self).grid().cells[r][c] == old(self).grid().cells[r - row_shift][c - col_shift]
                } else {
                    cloned(*fill, final(self).grid().cells[r][c])
                },
    {
        proof {
            self.lemma_grid_wf();
        }
        let ghost g0 = self.grid();
        let cols = self.num_cols();
        let rows = self.num_rows();
        if rows == 0 {
            return;
        }
        self.slide_with_wrap(col_shift, row_shift);
        let ghost g1 = self.grid();
        let (c0, c1) = if col_shift >= 0 {
            (0, if col_shift as usize >= cols { cols } else { col_shift as usize })
        } else {
            let m = (-(col_shift + 1)) as usize + 1;
            (if m >= cols { 0 } else { cols - m }, cols)
        };
        let (r0, r1) = if row_shift >= 0 {
            (0, if row_shift as usize >= rows { rows } else { row_shift as usize })
        } else {
            let m = (-(row_shift + 1)) as usize + 1;
            (if m >= rows { 0 } else { rows - m }, rows)
        };
        fill_rect(self, c0, c1, 0, rows, fill);
        let ghost g2 = self.grid();
        fill_rect(self, 0, cols, r0, r1, fill);
        proof {
            let n = rows as int;
            let w = cols as int;
            let a = shift_mid(col_shift as int, w);
            let b = shift_mid(row_shift as int, n);
            assert forall|c: int, r: int| 0 <= c < w && 0 <= r < n && has_source(c, r, col_shift as int, row_shift as int, w, n)
                implies #[trigger] self.grid().cells[r][c] == g0.cells[r - row_shift][c - col_shift] by {
                assert(!(c0 <= c < c1));
                assert(!(r0 <= r < r1));
                assert(g1.cells[r][c] == g0.cells[(r + b) % n][(c + a) % w]);
                vstd::arithmetic::div_mod::lemma_add_mod_noop_right(r, -row_shift, n);
                vstd::arithmetic::div_mod::lemma_add_mod_noop_right(c, -col_shift, w);
                lemma_small_mod((r - row_shift) as nat, n as nat);
                lemma_small_mod((c - col_shift) as nat, w as nat);
            }
        }
    }
}

impl<T, O: TooDeeOpsMut<T>> TranslateOps<T> for O {
}

} // verus!
