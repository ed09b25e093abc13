//! The library's only source of randomness: a single trusted call into the
//! `rand` crate.  Every function that consumes a drawn number is verified for
//! all values the contract admits, so nothing downstream depends on how the
//! generator behaves.

use vstd::prelude::*;

verus! {

/// Relies on `rand::random_range` over `lo..hi`: it draws a value of the
/// half-open range from the thread-local generator, and panics only when the
/// range is empty, which the precondition rules out.  Nothing more than
/// membership in the range can be promised of a random draw.
#[verifier::external_body]
pub fn random_range_i64(lo: i64, hi: i64) -> (r: i64)
    requires
        lo < hi,
    ensures
        lo <= r < hi,
{
    rand::random_range(lo..hi)
}

/// A random index below `n`, as a plain value for verified callers.
pub fn random_below(n: usize) -> (r: usize)
    requires
        0 < n <= 100_000,
    ensures
        r < n,
{
    let d = random_range_i64(0, n as i64);
    d as usize
}

} // verus!
