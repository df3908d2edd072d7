//! Element moves inside one slice, as std performs them.
use vstd::prelude::*;

verus! {

/// Relies on `<[T]>::swap`: exchanges the elements at `a` and `b`.
#[verifier::external_body]
pub(crate) fn slice_swap<T>(s: &mut [T], a: usize, b: usize)
    requires
        a < old(s)@.len(),
        b < old(s)@.len(),
    ensures
        final(s)@ == old(s)@.update(a as int, old(s)@[b as int]).update(b as int, old(s)@[a as int]),
{
    s.swap(a, b)
}

/// Relies on `<[T]>::swap_with_slice`: the two slices, of equal length, exchange contents.
#[verifier::external_body]
pub(crate) fn slice_swap_with<T>(s: &mut [T], other: &mut [T])
    requires
        old(s)@.len() == old(other)@.len(),
    ensures
        final(s)@ == old(other)@,
        final(other)@ == old(s)@,
{
    s.swap_with_slice(other)
}

/// Relies on `<[T]>::rotate_left`: element `mid` becomes the first one.
#[verifier::external_body]
pub(crate) fn slice_rotate_left<T>(s: &mut [T], mid: usize)
    requires
        mid <= old(s)@.len(),
    ensures
        final(s)@ == old(s)@.subrange(mid as int, old(s)@.len() as int) + old(s)@.subrange(0, mid as int),
{
    s.rotate_left(mid)
}

} // verus!
