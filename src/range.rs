//! Index ranges given by their two endpoints, each included, excluded or open.
use vstd::prelude::*;

verus! {

/// One endpoint of an index range.
#[derive(Clone, Copy, Debug, PartialEq, Eq, Structural)]
pub enum Bound {
    Included(usize),
    Excluded(usize),
    Unbounded,
}

/// First index of the range whose start endpoint is `b`.
pub open spec fn start_of(b: Bound) -> int {
    match b {
        Bound::Included(n) => n as int,
        Bound::Excluded(n) => n + 1,
        Bound::Unbounded => 0,
    }
}

/// One past the last index of the range whose end endpoint is `b`, over `len` items.
pub open spec fn end_of(b: Bound, len: nat) -> int {
    match b {
        Bound::Included(n) => n + 1,
        Bound::Excluded(n) => n as int,
        Bound::Unbounded => len as int,
    }
}

/// The range from `start` to `end` lies within `0..len` and does not run backwards.
pub open spec fn range_in_bounds(start: Bound, end: Bound, len: nat) -> bool {
    start_of(start) <= end_of(end, len) <= len
}

/// Turns two endpoints into the half-open range `lo..hi` over `len` items.
pub fn bounds_to_range(start: Bound, end: Bound, len: usize) -> (r: (usize, usize))
    requires
        range_in_bounds(start, end, len as nat),
    ensures
        r.0 == start_of(start),
        r.1 == end_of(end, len as nat),
{
    let lo = match start {
        Bound::Included(n) => n,
        Bound::Excluded(n) => n + 1,
        Bound::Unbounded => 0,
    };
    let hi = match end {
        Bound::Included(n) => n + 1,
        Bound::Excluded(n) => n,
        Bound::Unbounded => len,
    };
    (lo, hi)
}

} // verus!
