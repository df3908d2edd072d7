//! Sorting one row or one column, moving the other rows or columns along,
//! with one exchange for each element that is out of place.
use vstd::prelude::*;

use core::cmp::Ordering;

use crate::ops::{Grid, TooDeeOps, TooDeeOpsMut};
use crate::slices::slice_swap;
use vstd::set_lib::{lemma_int_range, lemma_len_subset, set_int_range};

verus! {

/// `s` with the elements at `a` and `b` exchanged.
pub open spec fn swapped<A>(s: Seq<A>, a: int, b: int) -> Seq<A> {
    s.update(a, s[b]).update(b, s[a])
}

/// `s` after the exchanges of `trace`, first to last.
pub open spec fn apply_swaps<A>(s: Seq<A>, trace: Seq<(usize, usize)>) -> Seq<A>
    decreases trace.len(),
{
    if trace.len() == 0 {
        s
    } else {
        swapped(apply_swaps(s, trace.drop_last()), trace.last().0 as int, trace.last().1 as int)
    }
}

/// `s` rearranged so that position `k` holds `s[order[k]]`.
pub open spec fn permuted<A>(s: Seq<A>, order: Seq<usize>) -> Seq<A> {
    Seq::new(order.len(), |k: int| s[order[k] as int])
}

/// `order` lists each of `0..n` exactly once.
pub open spec fn is_permutation(order: Seq<usize>, n: nat) -> bool {
    &&& order.len() == n
    &&& forall|k: int| 0 <= k < n ==> #[trigger] order[k] < n
    &&& forall|j: int, k: int| 0 <= j < k < n ==> #[trigger] order[j] != #[trigger] order[k]
    &&& forall|v: int| 0 <= v < n ==> #[trigger] occurs(order, v)
}

/// Some entry of `order` is `v`.
pub open spec fn occurs(order: Seq<usize>, v: int) -> bool {
    exists|k: int| 0 <= k < order.len() && #[trigger] order[k] == v
}

/// `compare` can be called on any pair, answers each pair the same way each
/// time, and calls `b` less than `a` whenever it calls `a` greater than `b`.
pub open spec fn is_comparator<T, F: Fn(&T, &T) -> Ordering>(compare: F) -> bool {
    &&& forall|a: &T, b: &T| #[trigger] compare.requires((a, b))
    &&& forall|a: &T, b: &T, o1: Ordering, o2: Ordering|
        #[trigger] compare.ensures((a, b), o1) && #[trigger] compare.ensures((a, b), o2) ==> o1 == o2
    &&& forall|a: &T, b: &T|
        #[trigger] compare.ensures((a, b), Ordering::Greater) ==> !compare.ensures((b, a), Ordering::Greater)
            && compare.ensures((b, a), Ordering::Less)
}

/// Rearranging `s` by `order` keeps elements that compare equal in their
/// original relative order.
pub open spec fn stable_by<T, F: Fn(&T, &T) -> Ordering>(s: Seq<T>, order: Seq<usize>, compare: F) -> bool {
    forall|j: int, k: int|
        0 <= j < k < order.len() && #[trigger] compare.ensures((&s[order[j] as int], &s[order[k] as int]), Ordering::Equal)
            ==> order[j] < order[k]
}

/// Every two neighbours of `s` are in order under `compare`.
pub open spec fn sorted_by<T, F: Fn(&T, &T) -> Ordering>(s: Seq<T>, compare: F) -> bool {
    forall|k: int| 0 <= k < s.len() - 1 ==> !#[trigger] compare.ensures((&s[k], &s[k + 1]), Ordering::Greater)
}

proof fn lemma_apply_push<A>(s: Seq<A>, trace: Seq<(usize, usize)>, a: usize, b: usize)
    ensures
        apply_swaps(s, trace.push((a, b))) == swapped(apply_swaps(s, trace), a as int, b as int),
{
    assert(trace.push((a, b)).drop_last() =~= trace);
}

/// Where `x` is after `k` steps along `order`, each step going from position
/// `p` to `order[p]`.
pub open spec fn iterate(order: Seq<usize>, x: int, k: nat) -> int
    decreases k,
{
    if k == 0 {
        x
    } else {
        order[iterate(order, x, (k - 1) as nat)] as int
    }
}

/// `x` is the smallest position on its cycle of `order`.
pub open spec fn is_cycle_leader(order: Seq<usize>, x: int) -> bool {
    forall|k: nat| k <= order.len() ==> #[trigger] iterate(order, x, k) >= x
}

/// The number of cycles of `order` whose smallest position is below `m`.
pub open spec fn leaders_below(order: Seq<usize>, m: int) -> nat
    decreases m,
{
    if m <= 0 {
        0
    } else {
        leaders_below(order, m - 1) + if is_cycle_leader(order, m - 1) { 1nat } else { 0nat }
    }
}

/// The number of cycles of `order`, fixed points included.
pub open spec fn cycle_count(order: Seq<usize>) -> nat {
    leaders_below(order, order.len() as int)
}

/// The position that `order` sends to `v`.
pub open spec fn perm_prev(order: Seq<usize>, v: int) -> int {
    choose|k: int| 0 <= k < order.len() && order[k] == v
}

proof fn lemma_perm_steps(order: Seq<usize>, x: int)
    requires
        is_permutation(order, order.len()),
        0 <= x < order.len(),
    ensures
        0 <= order[x] < order.len(),
        0 <= perm_prev(order, x) < order.len(),
        order[perm_prev(order, x)] == x,
        perm_prev(order, order[x] as int) == x,
{
    assert(occurs(order, x));
    let y = order[x] as int;
    assert(occurs(order, y));
    let k = perm_prev(order, y);
    if k != x {
        if k < x {
            assert(order[k] != order[x]);
        } else {
            assert(order[x] != order[k]);
        }
    }
}

proof fn lemma_iterate_compose(order: Seq<usize>, x: int, j: nat, m: nat)
    ensures
        iterate(order, iterate(order, x, j), m) == iterate(order, x, j + m),
    decreases m,
{
    if m > 0 {
        lemma_iterate_compose(order, x, j, (m - 1) as nat);
        assert((j + m - 1) as nat == j + (m - 1) as nat);
    }
}

proof fn lemma_iterate_stays(order: Seq<usize>, s: Set<int>, x: int, k: nat)
    requires
        s.contains(x),
        forall|y: int| #[trigger] s.contains(y) ==> s.contains(order[y] as int),
    ensures
        s.contains(iterate(order, x, k)),
    decreases k,
{
    if k > 0 {
        lemma_iterate_stays(order, s, x, (k - 1) as nat);
    }
}

/// `cyc`, walked from `base` to `held` along `order`, has each of its
/// positions but `base` entered from inside it, and each but `held` left inside it.
#[verifier::opaque]
pub open spec fn walk_chain(order: Seq<usize>, cyc: Set<int>, base: int, held: int) -> bool {
    &&& cyc.contains(base)
    &&& cyc.contains(held)
    &&& forall|i: int| #[trigger]
        cyc.contains(i) && i != base ==> cyc.contains(perm_prev(order, i)) && perm_prev(order, i) != held
    &&& forall|i: int| #[trigger] cyc.contains(i) && i != held ==> cyc.contains(order[i] as int)
}

/// `s` is a union of whole cycles of `order`.
#[verifier::opaque]
pub open spec fn closed_under(order: Seq<usize>, s: Set<int>) -> bool {
    forall|i: int| #[trigger]
        s.contains(i) ==> s.contains(order[i] as int) && s.contains(perm_prev(order, i))
}

proof fn lemma_swap_symmetric<A>(s: Seq<A>, a: int, b: int)
    ensures
        swapped(s, a, b) =~= swapped(s, b, a) || !(0 <= a < s.len() && 0 <= b < s.len()),
{
}

/// Applying `trace` to any `s` reads position `p` from `s[cur[p]]`.
#[verifier::opaque]
pub open spec fn realizes(trace: Seq<(usize, usize)>, cur: Seq<usize>, n: nat) -> bool {
    forall|s: Seq<usize>| s.len() == n ==> #[trigger] apply_swaps(s, trace) == Seq::new(n, |p: int| s[cur[p] as int])
}

proof fn lemma_realizes_push(trace: Seq<(usize, usize)>, cur: Seq<usize>, n: nat, a: usize, b: usize)
    requires
        realizes(trace, cur, n),
        cur.len() == n,
        a < n,
        b < n,
    ensures
        realizes(trace.push((a, b)), swapped(cur, a as int, b as int), n),
{
    reveal(realizes);
    let c2 = swapped(cur, a as int, b as int);
    assert forall|s: Seq<usize>| s.len() == n implies #[trigger] apply_swaps(s, trace.push((a, b))) == Seq::new(
        n,
        |p: int| s[c2[p] as int],
    ) by {
        lemma_apply_push(s, trace, a, b);
        assert(apply_swaps(s, trace.push((a, b))) =~= Seq::new(n, |p: int| s[c2[p] as int]));
    }
}

/// A walk that has come back to `base` is a whole cycle: `base` leads it, no
/// other of its positions does, and adding it to closed cycles keeps them closed.
#[verifier::rlimit(60)]
proof fn lemma_close_walk(
    ord: Seq<usize>,
    closed: Set<int>,
    cyc: Set<int>,
    pos: Map<int, nat>,
    base: int,
    held: int,
    len: nat,
)
    requires
        is_permutation(ord, ord.len()),
        0 <= base < ord.len(),
        0 <= held < ord.len(),
        ord[held] == base,
        closed_under(ord, closed),
        closed.disjoint(cyc),
        forall|i: int| 0 <= i < base ==> #[trigger] closed.contains(i),
        walk_chain(ord, cyc, base, held),
        pos.dom() == cyc,
        forall|x: int| #[trigger] cyc.contains(x) ==> iterate(ord, base, pos[x]) == x && pos[x] < len,
        pos[held] == len - 1,
        len >= 1,
        len <= ord.len(),
    ensures
        closed_under(ord, closed.union(cyc)),
        is_cycle_leader(ord, base),
        forall|x: int| #[trigger] cyc.contains(x) && x != base ==> !is_cycle_leader(ord, x),
{
    reveal(closed_under);
    reveal(walk_chain);
    lemma_perm_steps(ord, held);
    lemma_perm_steps(ord, base);
    assert forall|y: int| #[trigger] cyc.contains(y) implies cyc.contains(ord[y] as int) by {
    }
    assert(iterate(ord, base, len) == base) by {
        assert(iterate(ord, base, (len - 1) as nat) == held);
    }
    assert forall|k: nat| k <= ord.len() implies #[trigger] iterate(ord, base, k) >= base by {
        lemma_iterate_stays(ord, cyc, base, k);
        let y = iterate(ord, base, k);
        if y < base {
            assert(closed.contains(y));
        }
    }
    assert forall|x: int| #[trigger] cyc.contains(x) && x != base implies !is_cycle_leader(ord, x) by {
        let j = pos[x];
        lemma_iterate_compose(ord, base, j, (len - j) as nat);
        assert(iterate(ord, x, (len - j) as nat) == base);
        if x < base {
            assert(closed.contains(x));
        }
    }
    let u = closed.union(cyc);
    assert forall|i: int| #[trigger] u.contains(i) implies u.contains(ord[i] as int) && u.contains(perm_prev(ord, i)) by {
        if cyc.contains(i) && !closed.contains(i) {
            if i == held {
            }
            if i == base {
            }
        }
    }
}

/// Exchanging the walk's last position with the next one moves the walked
/// element on and puts the right element in place.
proof fn lemma_cur_step(cur: Seq<usize>, ord: Seq<usize>, vis: Set<int>, n: nat, base: usize, held: usize, next: usize)
    requires
        cur.len() == n,
        held < n,
        next < n,
        held != next,
        ord.len() == n,
        next == ord[held as int],
        !vis.contains(next as int),
        vis.contains(held as int),
        forall|p: int|
            0 <= p < n ==> #[trigger] cur[p] == if p == held {
                base
            } else if vis.contains(p) {
                ord[p]
            } else {
                p as usize
            },
    ensures
        forall|p: int|
            0 <= p < n ==> #[trigger] swapped(cur, held as int, next as int)[p] == if p == next {
                base
            } else if vis.insert(next as int).contains(p) {
                ord[p]
            } else {
                p as usize
            },
        swapped(cur, held as int, next as int) == swapped(cur, next as int, held as int),
{
    assert(swapped(cur, held as int, next as int) =~= swapped(cur, next as int, held as int));
    assert(cur[next as int] == next);
}

/// One step of a walk: the next position is new unless the walk is back at `base`.
proof fn lemma_walk_step(ord: Seq<usize>, closed: Set<int>, cyc: Set<int>, base: int, held: int)
    requires
        is_permutation(ord, ord.len()),
        0 <= held < ord.len(),
        walk_chain(ord, cyc, base, held),
        closed_under(ord, closed),
        closed.disjoint(cyc),
        ord[held] != base,
    ensures
        !closed.union(cyc).contains(ord[held] as int),
        walk_chain(ord, cyc.insert(ord[held] as int), base, ord[held] as int),
{
    reveal(closed_under);
    reveal(walk_chain);
    let nx = ord[held] as int;
    lemma_perm_steps(ord, held);
    lemma_perm_steps(ord, nx);
    if closed.contains(nx) {
        assert(closed.contains(perm_prev(ord, nx)));
    }
    if cyc.contains(nx) {
        assert(perm_prev(ord, nx) != held);
    }
    let c2 = cyc.insert(nx);
    assert forall|i: int| #[trigger] c2.contains(i) && i != base implies c2.contains(perm_prev(ord, i)) && perm_prev(ord, i)
        != nx by {
        if i != nx {
            assert(cyc.contains(i));
        }
    }
    assert forall|i: int| #[trigger] c2.contains(i) && i != nx implies c2.contains(ord[i] as int) by {
        if i != held {
            assert(cyc.contains(i));
        }
    }
}

/// The exchanges that rearrange a sequence into the order `ordering`: position
/// `k` receives the element at `ordering[k]`. The permutation is taken apart
/// into its cycles, and each cycle of length `len` costs `len - 1`
/// exchanges, which is the least any sequence of exchanges can do.
pub fn build_swap_trace(ordering: &[usize]) -> (trace: Vec<(usize, usize)>)
    requires
        is_permutation(ordering@, ordering@.len()),
    ensures
        forall|s: Seq<usize>| s.len() == ordering@.len() ==> #[trigger] apply_swaps(s, trace@) == permuted(s, ordering@),
        trace@.len() == ordering@.len() - cycle_count(ordering@),
        forall|k: int| 0 <= k < trace@.len() ==> #[trigger] trace@[k].0 < trace@[k].1,
        forall|k: int| 0 <= k < trace@.len() ==> #[trigger] trace@[k].1 < ordering@.len(),
{
    let n = ordering.len();
    let ghost ord = ordering@;
    let ghost range = set_int_range(0, n as int);
    proof {
        lemma_int_range(0, n as int);
    }
    let mut visited: Vec<bool> = vec![false; n];
    let mut trace: Vec<(usize, usize)> = Vec::new();
    let ghost mut cur: Seq<usize> = Seq::new(n as nat, |p: int| p as usize);
    let ghost mut vis: Set<int> = Set::empty();
    let ghost mut bases: Set<int> = Set::empty();
    let ghost mut walks: nat = 0;
    proof {
        reveal(realizes);
        reveal(closed_under);
        assert forall|s: Seq<usize>| s.len() == n implies #[trigger] apply_swaps(s, trace@) == Seq::new(
            n as nat,
            |p: int| s[cur[p] as int],
        ) by {
            assert(apply_swaps(s, trace@) =~= Seq::new(n as nat, |p: int| s[cur[p] as int]));
        }
    }
    let mut base: usize = 0;
    while base < n
        invariant
            n == ord.len(),
            ordering@ == ord,
            is_permutation(ord, n as nat),
            range == set_int_range(0, n as int),
            range.finite(),
            range.len() == n,
            base <= n,
            visited@.len() == n,
            vis.subset_of(range),
            vis.finite(),
            forall|i: int| 0 <= i < n ==> (visited@[i] <==> #[trigger] vis.contains(i)),
            closed_under(ord, vis),
            forall|i: int| 0 <= i < base ==> #[trigger] vis.contains(i),
            forall|x: int| #[trigger] bases.contains(x) ==> vis.contains(x) && x < base,
            forall|x: int| #[trigger] vis.contains(x) ==> (is_cycle_leader(ord, x) <==> bases.contains(x)),
            walks == leaders_below(ord, base as int),
            trace@.len() + walks == vis.len(),
            cur.len() == n,
            forall|p: int| 0 <= p < n ==> #[trigger] cur[p] == if vis.contains(p) { ord[p] } else { p as usize },
            realizes(trace@, cur, n as nat),
            forall|k: int| 0 <= k < trace@.len() ==> #[trigger] trace@[k].0 < trace@[k].1 && trace@[k].1 < n,
        decreases n - base,
    {
        if !visited[base] {
            let ghost closed = vis;
            let ghost mut cyc: Set<int> = Set::empty().insert(base as int);
            let ghost mut pos: Map<int, nat> = Map::empty().insert(base as int, 0nat);
            let ghost mut len: nat = 1;
            visited.set(base, true);
            proof {
                vis = vis.insert(base as int);
                assert(vis =~= closed.union(cyc));
                assert(pos.dom() =~= cyc);
                reveal(walk_chain);
                lemma_perm_steps(ord, base as int);
            }
            let mut held: usize = base;
            let mut next: usize = ordering[base];
            while next != base
                invariant
                    n == ord.len(),
                    ordering@ == ord,
                    is_permutation(ord, n as nat),
                    range == set_int_range(0, n as int),
                    range.finite(),
                    range.len() == n,
                    base < n,
                    visited@.len() == n,
                    vis.subset_of(range),
                    vis.finite(),
                    forall|i: int| 0 <= i < n ==> (visited@[i] <==> #[trigger] vis.contains(i)),
                    vis == closed.union(cyc),
                    closed.disjoint(cyc),
                    closed.finite(),
                    vis.len() == closed.len() + len,
                    closed_under(ord, closed),
                    forall|i: int| 0 <= i < base ==> #[trigger] closed.contains(i),
                    trace@.len() + walks + 1 == closed.len() + len,
                    walk_chain(ord, cyc, base as int, held as int),
                    cyc.contains(held as int),
                    cyc.finite(),
                    held < n,
                    next == ord[held as int],
                    pos.dom() == cyc,
                    forall|x: int| #[trigger] cyc.contains(x) ==> iterate(ord, base as int, pos[x]) == x && pos[x] < len,
                    pos[held as int] == len - 1,
                    len >= 1,
                    cur.len() == n,
                    forall|p: int|
                        0 <= p < n ==> #[trigger] cur[p] == if p == held {
                            base
                        } else if vis.contains(p) {
                            ord[p]
                        } else {
                            p as usize
                        },
                    realizes(trace@, cur, n as nat),
                    forall|k: int| 0 <= k < trace@.len() ==> #[trigger] trace@[k].0 < trace@[k].1 && trace@[k].1 < n,
                decreases n - vis.len(),
            {
                proof {
                    lemma_len_subset(vis, range);
                    lemma_perm_steps(ord, held as int);
                    lemma_walk_step(ord, closed, cyc, base as int, held as int);
                    lemma_cur_step(cur, ord, vis, n as nat, base, held, next);
                }
                let ghost old_cur = cur;
                let pair = if held < next { (held, next) } else { (next, held) };
                proof {
                    lemma_realizes_push(trace@, cur, n as nat, pair.0, pair.1);
                }
                trace.push(pair);
                visited.set(next, true);
                proof {
                    cur = swapped(old_cur, pair.0 as int, pair.1 as int);
                    let nx = next as int;
                    assert(iterate(ord, base as int, len) == nx) by {
                        assert(iterate(ord, base as int, (len - 1) as nat) == held);
                    }
                    pos = pos.insert(nx, len);
                    len = len + 1;
                    cyc = cyc.insert(nx);
                    vis = vis.insert(nx);
                    assert(vis =~= closed.union(cyc));
                    assert(pos.dom() =~= cyc);
                    lemma_len_subset(vis, range);
                }
                held = next;
                next = ordering[held];
            }
            proof {
                lemma_len_subset(vis, range);
                vstd::set_lib::lemma_set_disjoint_lens(closed, cyc);
                lemma_close_walk(ord, closed, cyc, pos, base as int, held as int, len);
                bases = bases.insert(base as int);
                walks = walks + 1;
                assert forall|x: int| #[trigger] vis.contains(x) implies (is_cycle_leader(ord, x) <==> bases.contains(x)) by {
                    if cyc.contains(x) && x != base {
                        assert(!bases.contains(x));
                    }
                }
                assert forall|p: int| 0 <= p < n implies #[trigger] cur[p] == if vis.contains(p) { ord[p] } else { p as usize } by {
                }
            }
        }
        proof {
            assert(vis.contains(base as int));
        }
        base += 1;
    }
    proof {
        assert(vis =~= range);
        reveal(realizes);
        assert forall|s: Seq<usize>| s.len() == n implies #[trigger] apply_swaps(s, trace@) == permuted(s, ord) by {
            assert(Seq::new(n as nat, |p: int| s[cur[p] as int]) =~= permuted(s, ord));
        }
        assert(trace@.len() == n - walks);
        assert forall|k: int| 0 <= k < trace@.len() implies #[trigger] trace@[k].1 < ordering@.len() by {
            assert(trace@[k].0 < trace@[k].1 && trace@[k].1 < n);
        }
    }
    trace
}

/// The identity arrangement of `0..n`.
pub open spec fn identity(n: nat) -> Seq<usize> {
    Seq::new(n, |k: int| k as usize)
}

/// Exchanges act on positions only: the result reads each position from the
/// place that the same exchanges move it from in the identity arrangement.
proof fn lemma_apply_swaps_positions<A>(s: Seq<A>, trace: Seq<(usize, usize)>)
    requires
        s.len() <= usize::MAX,
        forall|t: int| 0 <= t < trace.len() ==> #[trigger] trace[t].0 < s.len() && trace[t].1 < s.len(),
    ensures
        apply_swaps(identity(s.len()), trace).len() == s.len(),
        forall|p: int| 0 <= p < s.len() ==> #[trigger] apply_swaps(identity(s.len()), trace)[p] < s.len(),
        apply_swaps(s, trace) == Seq::new(s.len(), |p: int| s[apply_swaps(identity(s.len()), trace)[p] as int]),
    decreases trace.len(),
{
    let n = s.len();
    if trace.len() == 0 {
        assert(apply_swaps(s, trace) =~= Seq::new(n, |p: int| s[identity(n)[p] as int]));
    } else {
        let rest = trace.drop_last();
        assert forall|t: int| 0 <= t < rest.len() implies #[trigger] rest[t].0 < n && rest[t].1 < n by {
            assert(rest[t] == trace[t]);
        }
        lemma_apply_swaps_positions(s, rest);
        let last = trace.last();
        assert(last == trace[trace.len() - 1]);
        assert(apply_swaps(s, trace) =~= Seq::new(n, |p: int| s[apply_swaps(identity(n), trace)[p] as int]));
    }
}

/// A stable insertion sort of the positions of `vals` under `compare`.
fn sorted_order<T, F: Fn(&T, &T) -> Ordering>(vals: &Vec<&T>, compare: &F, data: Ghost<Seq<T>>) -> (order: Vec<usize>)
    requires
        is_comparator(*compare),
        vals@.len() == data@.len(),
        forall|k: int| 0 <= k < data@.len() ==> *#[trigger] vals@[k] == data@[k],
    ensures
        is_permutation(order@, data@.len()),
        sorted_by(permuted(data@, order@), *compare),
        stable_by(data@, order@, *compare),
        sorted_by(data@, *compare) ==> order@ == identity(data@.len()),
{
    let n = vals.len();
    let ghost d = data@;
    let mut order: Vec<usize> = Vec::new();
    let mut i: usize = 0;
    while i < n
        invariant
            n == d.len(),
            vals@.len() == n,
            is_comparator(*compare),
            forall|k: int| 0 <= k < n ==> *#[trigger] vals@[k] == d[k],
            i <= n,
            order@.len() == i,
            forall|k: int| 0 <= k < i ==> #[trigger] order@[k] < i,
            forall|j: int, k: int| 0 <= j < k < i ==> #[trigger] order@[j] != #[trigger] order@[k],
            forall|v: int| 0 <= v < i ==> #[trigger] occurs(order@, v),
            sorted_by(permuted(d, order@), *compare),
            stable_by(d, order@, *compare),
            sorted_by(d, *compare) ==> order@ == identity(i as nat),
        decreases n - i,
    {
        let mut j: usize = i;
        loop
            invariant
                n == d.len(),
                vals@.len() == n,
                is_comparator(*compare),
                forall|k: int| 0 <= k < n ==> *#[trigger] vals@[k] == d[k],
                i < n,
                order@.len() == i,
                forall|k: int| 0 <= k < i ==> #[trigger] order@[k] < i,
                j <= i,
                forall|k: int| j <= k < i ==> #[trigger] compare.ensures((&d[order@[k] as int], &d[i as int]), Ordering::Greater),
                sorted_by(d, *compare) ==> j == i,
                sorted_by(d, *compare) ==> order@ == identity(i as nat),
            ensures
                j <= i,
                forall|k: int| j <= k < i ==> #[trigger] compare.ensures((&d[order@[k] as int], &d[i as int]), Ordering::Greater),
                j > 0 ==> !compare.ensures((&d[order@[j - 1] as int], &d[i as int]), Ordering::Greater),
                sorted_by(d, *compare) ==> j == i,
            decreases j,
        {
            if j == 0 {
                break;
            }
            let o = compare(vals[order[j - 1]], vals[i]);
            match o {
                Ordering::Greater => {
                    proof {
                        if sorted_by(d, *compare) {
                            assert(order@[j - 1] == i - 1);
                            assert(!compare.ensures((&d[i - 1], &d[i - 1 + 1]), Ordering::Greater));
                            assert(i - 1 + 1 == i);
                            assert(vals@[i - 1] == &d[i - 1]);
                            assert(vals@[i as int] == &d[i as int]);
                        }
                    }
                    j -= 1;
                },
                _ => {
                    proof {
                        assert(vals@[order@[j - 1] as int] == &d[order@[j - 1] as int]);
                        assert(vals@[i as int] == &d[i as int]);
                        assert(!compare.ensures((&d[order@[j - 1] as int], &d[i as int]), Ordering::Greater));
                    }
                    break;
                },
            }
        }
        let ghost old_order = order@;
        order.insert(j, i);
        proof {
            old_order.insert_ensures(j as int, i);
            let p = permuted(d, order@);
            let po = permuted(d, old_order);
            assert forall|k: int| 0 <= k < p.len() - 1 implies !#[trigger] compare.ensures((&p[k], &p[k + 1]), Ordering::Greater) by {
                if k + 1 < j {
                    assert(p[k] == po[k] && p[k + 1] == po[k + 1]);
                } else if k + 1 == j {
                    assert(p[k] == d[old_order[k] as int]);
                } else if k == j {
                    assert(compare.ensures((&d[old_order[k] as int], &d[i as int]), Ordering::Greater));
                } else {
                    assert(p[k] == po[k - 1] && p[k + 1] == po[k]);
                }
            }
            assert forall|v: int| 0 <= v < i + 1 implies #[trigger] occurs(order@, v) by {
                if v == i {
                    assert(order@[j as int] == v);
                } else {
                    assert(occurs(old_order, v));
                    let k = choose|k: int| 0 <= k < old_order.len() && old_order[k] == v;
                    if k < j {
                        assert(order@[k] == v);
                    } else {
                        assert(order@[k + 1] == v);
                    }
                }
            }
            if sorted_by(d, *compare) {
                assert(order@ =~= identity((i + 1) as nat));
            }
            assert forall|a: int, b: int|
                0 <= a < b < order@.len() && #[trigger] compare.ensures(
                    (&d[order@[a] as int], &d[order@[b] as int]),
                    Ordering::Equal,
                ) implies order@[a] < order@[b] by {
                if a == j {
                    assert(order@[b] == old_order[b - 1]);
                    assert(compare.ensures((&d[old_order[b - 1] as int], &d[i as int]), Ordering::Greater));
                } else if b == j {
                    assert(order@[a] == old_order[a]);
                } else {
                    let a0 = if a < j { a } else { a - 1 };
                    let b0 = if b < j { b } else { b - 1 };
                    assert(order@[a] == old_order[a0] && order@[b] == old_order[b0]);
                }
            }
        }
        i += 1;
    }
    order
}


/// Applies `trace` to `s` in place.
fn apply_trace<T>(s: &mut [T], trace: &Vec<(usize, usize)>)
    requires
        forall|t: int| 0 <= t < trace@.len() ==> #[trigger] trace@[t].0 < old(s)@.len() && trace@[t].1 < old(s)@.len(),
    ensures
        final(s)@ == apply_swaps(old(s)@, trace@),
{
    let mut t: usize = 0;
    while t < trace.len()
        invariant
            forall|u: int| 0 <= u < trace@.len() ==> #[trigger] trace@[u].0 < old(s)@.len() && trace@[u].1 < old(s)@.len(),
            t <= trace@.len(),
            s@.len() == old(s)@.len(),
            s@ == apply_swaps(old(s)@, trace@.subrange(0, t as int)),
        decreases trace@.len() - t,
    {
        let (a, b) = trace[t];
        slice_swap(s, a, b);
        proof {
            assert(trace@.subrange(0, t + 1).drop_last() =~= trace@.subrange(0, t as int));
        }
        t += 1;
    }
    assert(trace@.subrange(0, trace@.len() as int) =~= trace@);
}

/// Reordering every row by the same permutation of positions.
proof fn lemma_trace_permutes<A>(s: Seq<A>, trace: Seq<(usize, usize)>, order: Seq<usize>)
    requires
        s.len() == order.len(),
        s.len() <= usize::MAX,
        is_permutation(order, order.len()),
        forall|t: int| 0 <= t < trace.len() ==> #[trigger] trace[t].0 < s.len() && trace[t].1 < s.len(),
        forall|x: Seq<usize>| x.len() == order.len() ==> #[trigger] apply_swaps(x, trace) == permuted(x, order),
    ensures
        apply_swaps(s, trace) == permuted(s, order),
{
    let n = s.len();
    lemma_apply_swaps_positions(s, trace);
    assert(apply_swaps(identity(n), trace) == permuted(identity(n), order));
    assert forall|p: int| 0 <= p < n implies #[trigger] permuted(identity(n), order)[p] == order[p] by {
    }
    assert(apply_swaps(s, trace) =~= permuted(s, order));
}

/// Sorting a row or a column, for every mutable area.
pub trait SortOps<T>: TooDeeOpsMut<T> {
    /// Sorts row `row` under `compare`, moving every column along with it.
    /// An already sorted row is left as it is, and so is the whole area.
    fn sort_by_row<F: Fn(&T, &T) -> Ordering>(&mut self, row: usize, compare: F)
        requires
            old(self).well_formed(),
            row < old(self).grid().rows,
            is_comparator(compare),
        ensures
            final(self).well_formed(),
            final(self).grid().cols == old(self).grid().cols,
            final(self).grid().rows == old(self).grid().rows,
            exists|order: Seq<usize>|
                is_permutation(order, old(self).grid().cols) && stable_by(old(self).grid().cells[row as int], order, compare)
                    && #[trigger] final(self).grid().cells == Seq::new(
                    old(self).grid().rows,
                    |r: int| permuted(old(self).grid().cells[r], order),
                ),
            sorted_by(final(self).grid().cells[row as int], compare),
            sorted_by(old(self).grid().cells[row as int], compare) ==> final(self).grid() == old(self).grid(),
    {
        proof {
            self.lemma_grid_wf();
        }
        let ghost g = self.grid();
        let cols = self.num_cols();
        let rows = self.num_rows();
        let order = {
            let vals_slice = self.get_unchecked_row(row);
            let mut vals: Vec<&T> = Vec::new();
            let mut k: usize = 0;
            while k < cols
                invariant
                    vals_slice@ == g.cells[row as int],
                    g.cells[row as int].len() == cols,
                    k <= cols,
                    vals@.len() == k,
                    forall|j: int| 0 <= j < k ==> *#[trigger] vals@[j] == g.cells[row as int][j],
                decreases cols - k,
            {
                vals.push(&vals_slice[k]);
                k += 1;
            }
            sorted_order(&vals, &compare, Ghost(g.cells[row as int]))
        };
        let trace = build_swap_trace(order.as_slice());
        let mut r: usize = 0;
        while r < rows
            invariant
                self.well_formed(),
                self.grid().wf(),
                g.wf(),
                self.grid().cols == cols,
                self.grid().rows == rows,
                g.cols == cols,
                g.rows == rows,
                cols * rows <= usize::MAX,
                is_permutation(order@, cols as nat),
                forall|t: int| 0 <= t < trace@.len() ==> #[trigger] trace@[t].0 < cols && trace@[t].1 < cols,
                forall|x: Seq<usize>| x.len() == cols ==> #[trigger] apply_swaps(x, trace@) == permuted(x, order@),
                r <= rows,
                forall|k: int| 0 <= k < r ==> #[trigger] self.grid().cells[k] == permuted(g.cells[k], order@),
                forall|k: int| r <= k < rows ==> #[trigger] self.grid().cells[k] == g.cells[k],
            decreases rows - r,
        {
            let rr = self.get_unchecked_row_mut(r);
            apply_trace(rr, &trace);
            proof {
                assert(cols <= usize::MAX) by {
                    assert(cols <= cols * rows) by (nonlinear_arith)
                        requires
                            rows >= 1,
                    ;
                }
                lemma_trace_permutes(g.cells[r as int], trace@, order@);
                self.lemma_grid_wf();
            }
            r += 1;
        }
        proof {
            let target = Seq::new(rows as nat, |k: int| permuted(g.cells[k], order@));
            assert(self.grid().cells =~= target);
            if sorted_by(g.cells[row as int], compare) {
                assert forall|k: int| 0 <= k < rows implies #[trigger] permuted(g.cells[k], order@) == g.cells[k] by {
                    assert(permuted(g.cells[k], order@) =~= g.cells[k]);
                }
                assert(self.grid().cells =~= g.cells);
            }
        }
    }

    /// Sorts row `row` under `compare`; the same as `sort_by_row`.
    fn sort_unstable_by_row<F: Fn(&T, &T) -> Ordering>(&mut self, row: usize, compare: F)
        requires
            old(self).well_formed(),
            row < old(self).grid().rows,
            is_comparator(compare),
        ensures
            final(self).well_formed(),
            final(self).grid().cols == old(self).grid().cols,
            final(self).grid().rows == old(self).grid().rows,
            exists|order: Seq<usize>|
                is_permutation(order, old(self).grid().cols) && stable_by(old(self).grid().cells[row as int], order, compare)
                    && #[trigger] final(self).grid().cells == Seq::new(
                    old(self).grid().rows,
                    |r: int| permuted(old(self).grid().cells[r], order),
                ),
            sorted_by(final(self).grid().cells[row as int], compare),
    {
        self.sort_by_row(row, compare)
    }

    /// Sorts column `col` under `compare`, moving every row along with it.
    /// An already sorted column is left as it is, and so is the whole area.
    fn sort_by_col<F: Fn(&T, &T) -> Ordering>(&mut self, col: usize, compare: F)
        requires
            old(self).well_formed(),
            col < old(self).grid().cols,
            is_comparator(compare),
        ensures
            final(self).well_formed(),
            final(self).grid().cols == old(self).grid().cols,
            final(self).grid().rows == old(self).grid().rows,
            exists|order: Seq<usize>|
                is_permutation(order, old(self).grid().rows) && stable_by(old(self).grid().column(col as int), order, compare)
                    && #[trigger] final(self).grid().cells == permuted(old(self).grid().cells, order),
            sorted_by(final(self).grid().column(col as int), compare),
            sorted_by(old(self).grid().column(col as int), compare) ==> final(self).grid() == old(self).grid(),
    {
        proof {
            self.lemma_grid_wf();
        }
        let ghost g = self.grid();
        let cols = self.num_cols();
        let rows = self.num_rows();
        let order = {
            let mut it = self.col(col);
            let mut vals: Vec<&T> = Vec::new();
            let ghost column = g.column(col as int);
            while it.len() > 0
                invariant
                    it.well_formed(),
                    column.len() == rows,
                    vals@.len() + it.remaining().len() == rows,
                    it.remaining() == column.subrange(vals@.len() as int, rows as int),
                    forall|j: int| 0 <= j < vals@.len() ==> *#[trigger] vals@[j] == column[j],
                decreases it.remaining().len(),
            {
                let x = it.next().unwrap();
                vals.push(x);
                assert(it.remaining() =~= column.subrange(vals@.len() as int, rows as int));
            }
            sorted_order(&vals, &compare, Ghost(g.column(col as int)))
        };
        let trace = build_swap_trace(order.as_slice());
        let mut t: usize = 0;
        while t < trace.len()
            invariant
                self.well_formed(),
                self.grid().wf(),
                g.wf(),
                self.grid().cols == cols,
                self.grid().rows == rows,
                g.rows == rows,
                g.cols == cols,
                forall|u: int| 0 <= u < trace@.len() ==> #[trigger] trace@[u].0 < rows && trace@[u].1 < rows,
                t <= trace@.len(),
                self.grid().cells == apply_swaps(g.cells, trace@.subrange(0, t as int)),
            decreases trace@.len() - t,
        {
            let (a, b) = trace[t];
            self.swap_rows(a, b);
            proof {
                assert(trace@.subrange(0, t + 1).drop_last() =~= trace@.subrange(0, t as int));
                self.lemma_grid_wf();
                assert(self.grid().cells =~= swapped(apply_swaps(g.cells, trace@.subrange(0, t as int)), a as int, b as int));
            }
            t += 1;
        }
        proof {
            assert(trace@.subrange(0, trace@.len() as int) =~= trace@);
            assert(rows <= usize::MAX);
            lemma_trace_permutes(g.cells, trace@, order@);
            assert(self.grid().column(col as int) =~= permuted(g.column(col as int), order@));
            if sorted_by(g.column(col as int), compare) {
                assert(permuted(g.cells, order@) =~= g.cells);
            }
        }
    }

    /// Sorts column `col` under `compare`; the same as `sort_by_col`.
    fn sort_unstable_by_col<F: Fn(&T, &T) -> Ordering>(&mut self, col: usize, compare: F)
        requires
            old(self).well_formed(),
            col < old(self).grid().cols,
            is_comparator(compare),
        ensures
            final(self).well_formed(),
            final(self).grid().cols == old(self).grid().cols,
            final(self).grid().rows == old(self).grid().rows,
            exists|order: Seq<usize>|
                is_permutation(order, old(self).grid().rows) && stable_by(old(self).grid().column(col as int), order, compare)
                    && #[trigger] final(self).grid().cells == permuted(old(self).grid().cells, order),
            sorted_by(final(self).grid().column(col as int), compare),
    {
        self.sort_by_col(col, compare)
    }
}

impl<T, O: TooDeeOpsMut<T>> SortOps<T> for O {
}

} // verus!
