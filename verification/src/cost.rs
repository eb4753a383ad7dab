//! Cost arithmetic for the aligner.
//!
//! A cost is a `u64` counted in tenths of a scoring unit.  Addition
//! saturates, standing in for the unbounded accumulation of an ideal
//! scoring function.  A cell of the dynamic program that cannot be
//! reached carries no cost at all: that is `None`, which behaves as +∞
//! in every comparison.

use vstd::prelude::*;

verus! {

/// Saturating addition of two costs.
pub open spec fn spec_cost_add(a: u64, b: u64) -> u64 {
    if a + b > u64::MAX {
        u64::MAX
    } else {
        (a + b) as u64
    }
}

/// Executable twin of [`spec_cost_add`].
pub fn cost_add(a: u64, b: u64) -> (c: u64)
    ensures
        c == spec_cost_add(a, b),
{
    if a > u64::MAX - b {
        u64::MAX
    } else {
        a + b
    }
}

/// Add a cost onto a possibly unreachable one; +∞ absorbs.
pub open spec fn opt_cost_add(a: Option<u64>, b: u64) -> Option<u64> {
    match a {
        Some(x) => Some(spec_cost_add(x, b)),
        None => None,
    }
}

/// Executable twin of [`opt_cost_add`].
pub fn opt_cost_add_exec(a: &Option<u64>, b: u64) -> (c: Option<u64>)
    ensures
        c == opt_cost_add(*a, b),
{
    match a {
        Some(x) => Some(cost_add(*x, b)),
        None => None,
    }
}

/// Strict comparison with `None` as +∞; two unreachable costs do not
/// compare below each other, exactly as two infinities do not.
pub open spec fn opt_lt(a: Option<u64>, b: Option<u64>) -> bool {
    match (a, b) {
        (Some(x), Some(y)) => x < y,
        (Some(_), None) => true,
        _ => false,
    }
}

/// Executable twin of [`opt_lt`].
pub fn opt_lt_exec(a: &Option<u64>, b: &Option<u64>) -> (r: bool)
    ensures
        r == opt_lt(*a, *b),
{
    match (a, b) {
        (Some(x), Some(y)) => *x < *y,
        (Some(_), None) => true,
        _ => false,
    }
}

/// Non-strict comparison with `None` as +∞.
pub open spec fn opt_le(a: Option<u64>, b: Option<u64>) -> bool {
    !opt_lt(b, a)
}

/// The smaller of two possibly unreachable costs, preferring the first
/// on ties.
pub open spec fn opt_min(a: Option<u64>, b: Option<u64>) -> Option<u64> {
    if opt_lt(b, a) {
        b
    } else {
        a
    }
}

/// The smallest of three possibly unreachable costs.
pub open spec fn opt_min3(a: Option<u64>, b: Option<u64>, c: Option<u64>) -> Option<u64> {
    opt_min(opt_min(a, b), c)
}

} // verus!
