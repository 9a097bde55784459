//! Saturating arithmetic for the statistics counters.
//!
//! Sizes and counts are aggregated as 64-bit totals.  Sums that cannot fit
//! saturate at the maximum instead of overflowing; on realistic backup sets
//! the saturation point is never reached and the totals are exact sums.

use vstd::prelude::*;

verus! {

/// The sum of `a` and `b`, saturating at the 64-bit maximum.
pub open spec fn sat_add(a: u64, b: u64) -> u64 {
    if a + b > u64::MAX {
        u64::MAX
    } else {
        (a + b) as u64
    }
}

/// Adds two totals, saturating at the 64-bit maximum.
pub fn sat_add_u64(a: u64, b: u64) -> (r: u64)
    ensures
        r == sat_add(a, b),
{
    if b > u64::MAX - a {
        u64::MAX
    } else {
        a + b
    }
}

/// The signed difference `a - b` of two unsigned sizes, clamped to the
/// 64-bit signed range.
pub open spec fn clamped_diff(a: u64, b: u64) -> i64 {
    if a - b > i64::MAX {
        i64::MAX
    } else if a - b < i64::MIN {
        i64::MIN
    } else {
        (a - b) as i64
    }
}

/// Computes the signed difference of two unsigned sizes, clamped to the
/// 64-bit signed range.
pub fn clamped_diff_u64(a: u64, b: u64) -> (r: i64)
    ensures
        r == clamped_diff(a, b),
{
    if a >= b {
        let d: u64 = a - b;
        if d > i64::MAX as u64 {
            i64::MAX
        } else {
            d as i64
        }
    } else {
        let d: u64 = b - a;
        if d > i64::MAX as u64 {
            i64::MIN
        } else {
            -(d as i64)
        }
    }
}

/// The sum of `a` and a signed delta, saturating at the 64-bit signed range.
pub open spec fn sat_add_signed(a: i64, b: i64) -> i64 {
    if a + b > i64::MAX {
        i64::MAX
    } else if a + b < i64::MIN {
        i64::MIN
    } else {
        (a + b) as i64
    }
}

/// Adds two signed totals, saturating at the 64-bit signed range.
pub fn sat_add_i64(a: i64, b: i64) -> (r: i64)
    ensures
        r == sat_add_signed(a, b),
{
    let wide: i128 = a as i128 + b as i128;
    if wide > i64::MAX as i128 {
        i64::MAX
    } else if wide < i64::MIN as i128 {
        i64::MIN
    } else {
        wide as i64
    }
}

/// Saturating addition is associative.
pub proof fn lemma_sat_add_assoc(a: u64, b: u64, c: u64)
    ensures
        sat_add(a, sat_add(b, c)) == sat_add(sat_add(a, b), c),
{
}

} // verus!
