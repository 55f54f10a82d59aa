//! Arithmetic that stays within bounds.
use vstd::prelude::*;

verus! {

/// `n`, or `limit` where that is less.
pub open spec fn at_most(n: int, limit: int) -> int {
    if n > limit {
        limit
    } else {
        n
    }
}

/// `a * b`, or the largest number where that is less.
pub fn capped_product(a: u64, b: u64) -> (r: u64)
    ensures
        r == at_most(a * b, u64::MAX as int),
{
    match a.checked_mul(b) {
        Some(n) => n,
        None => u64::MAX,
    }
}

/// `a + b` on a counter that starts over at its end.
pub open spec fn wrapped(a: u64, b: u64) -> u64 {
    ((a + b) % 0x1_0000_0000_0000_0000) as u64
}

/// `a + b` on a counter that starts over at its end.
pub fn wrapping(a: u64, b: u64) -> (r: u64)
    ensures
        r == wrapped(a, b),
{
    a.wrapping_add(b)
}

/// `a * b` on a counter that starts over at its end.
pub open spec fn wrapped_product(a: u64, b: u64) -> u64 {
    ((a * b) % 0x1_0000_0000_0000_0000) as u64
}

/// `a * b` on a counter that starts over at its end.
pub fn wrapping_product(a: u64, b: u64) -> (r: u64)
    ensures
        r == wrapped_product(a, b),
{
    a.wrapping_mul(b)
}

/// A sum that fits is the sum, one that does not goes on from zero; a bound
/// leaves what is below it and cuts what is above.
pub proof fn law_bounds_change_nothing_that_fits(a: u64, b: u64, n: int, limit: int)
    ensures
        a + b <= u64::MAX ==> wrapped(a, b) == a + b,
        a + b > u64::MAX ==> wrapped(a, b) + u64::MAX + 1 == a + b,
        a * b <= u64::MAX ==> wrapped_product(a, b) == a * b,
        n <= limit ==> at_most(n, limit) == n,
        n > limit ==> at_most(n, limit) == limit,
{
    assert(a * b >= 0) by (nonlinear_arith);
}

} // verus!
