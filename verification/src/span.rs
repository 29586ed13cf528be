//! Closed byte intervals and their relations.
//!
//! A `Range<u32>` stands for the bytes `start..=end`. The usual half-open
//! reading of the type is never used.

use std::ops::Range;
use vstd::prelude::*;

verus! {

/// The interval has at least one byte.
pub open spec fn valid(r: Range<u32>) -> bool {
    r.start <= r.end
}

/// Number of bytes of a valid interval.
pub open spec fn len(r: Range<u32>) -> int {
    r.end - r.start + 1
}

/// Offset `x` lies in the interval.
pub open spec fn holds(r: Range<u32>, x: int) -> bool {
    r.start <= x <= r.end
}

/// Every byte of `inner` lies in `outer`.
pub open spec fn contains(outer: Range<u32>, inner: Range<u32>) -> bool {
    outer.start <= inner.start && inner.end <= outer.end
}

/// The two intervals share no byte.
pub open spec fn disjoint(a: Range<u32>, b: Range<u32>) -> bool {
    a.end < b.start || b.end < a.start
}

/// `b` begins at the byte right after the last byte of `a`.
pub open spec fn abuts(a: Range<u32>, b: Range<u32>) -> bool {
    a.end + 1 == b.start
}

/// The two intervals are adjacent, in either order.
pub open spec fn touches(a: Range<u32>, b: Range<u32>) -> bool {
    abuts(a, b) || abuts(b, a)
}

/// The two intervals share no byte and at least one byte lies between them.
pub open spec fn apart(a: Range<u32>, b: Range<u32>) -> bool {
    a.end + 1 < b.start || b.end + 1 < a.start
}

/// Builds the interval of `size` bytes that begins at `start`.
pub fn span_from(start: u32, size: u32) -> (r: Range<u32>)
    requires
        size > 0,
        start + size - 1 <= u32::MAX,
    ensures
        r.start == start,
        r.end == start + size - 1,
        valid(r),
        len(r) == size,
{
    start..(start + (size - 1))
}

/// Exclusive upper bound of the interval, for slicing.
pub fn end_exclusive(r: &Range<u32>) -> (bound: usize)
    requires
        r.end < u32::MAX,
    ensures
        bound == r.end + 1,
{
    r.end as usize + 1
}

/// A fresh copy of the interval.
pub fn duplicate(r: &Range<u32>) -> (c: Range<u32>)
    ensures
        c == *r,
{
    r.start..r.end
}

} // verus!
