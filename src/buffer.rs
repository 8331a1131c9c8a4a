//! Capacity management of a single buffer, where vstd states nothing.
use vstd::prelude::*;

verus! {

/// Relies on `Vec::capacity`: it reads the allocation size, which the allocator
/// chose; std guarantees only that it is never below the length.
#[verifier::external_body]
pub(crate) fn capacity_of<T>(v: &Vec<T>) -> (r: usize)
    ensures
        r >= v@.len(),
{
    v.capacity()
}

/// Relies on `Vec::reserve_exact`: it may reallocate but keeps the elements.
#[verifier::external_body]
pub(crate) fn reserve_exact_in<T>(v: &mut Vec<T>, additional: usize)
    ensures
        final(v)@ == old(v)@,
{
    v.reserve_exact(additional)
}

/// Relies on `Vec::shrink_to_fit`: it may reallocate but keeps the elements.
#[verifier::external_body]
pub(crate) fn shrink_in<T>(v: &mut Vec<T>)
    ensures
        final(v)@ == old(v)@,
{
    v.shrink_to_fit()
}

/// The elements `lo..hi` of `v`, borrowed.
pub(crate) fn slice_range<T>(v: &Vec<T>, lo: usize, hi: usize) -> (r: &[T])
    requires
        lo <= hi <= v@.len(),
    ensures
        r@ == v@.subrange(lo as int, hi as int),
{
    &v.as_slice()[lo..hi]
}

/// Relies on indexing a `Vec` mutably by the range `lo..hi`: it borrows exactly
/// those elements, panics only out of range, and a borrowed slice keeps its length.
#[verifier::external_body]
pub(crate) fn slice_range_mut<T>(v: &mut Vec<T>, lo: usize, hi: usize) -> (r: &mut [T])
    requires
        lo <= hi <= old(v)@.len(),
    ensures
        r@ == old(v)@.subrange(lo as int, hi as int),
        final(r)@.len() == r@.len(),
        final(v)@ == old(v)@.subrange(0, lo as int) + final(r)@ + old(v)@.subrange(
            hi as int,
            old(v)@.len() as int,
        ),
{
    &mut v[lo..hi]
}

} // verus!
