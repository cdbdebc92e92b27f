//! Points in time and spans of time, counted in whole ticks.
//!
//! A tick is an attosecond. Every span of whole nanoseconds is a whole number
//! of ticks, and every `std::time::Duration` fits.

use vstd::prelude::*;

verus! {

/// How many ticks a second has.
pub const TICKS_PER_SECOND: u128 = 1_000_000_000_000_000_000;

/// How many ticks a nanosecond has.
pub const TICKS_PER_NANOSECOND: u128 = 1_000_000_000;

/// The ticks of a span of `seconds` and `nanoseconds`.
pub fn ticks(seconds: u64, nanoseconds: u32) -> (r: u128)
    ensures
        r == seconds * TICKS_PER_SECOND + nanoseconds * TICKS_PER_NANOSECOND,
{
    seconds as u128 * TICKS_PER_SECOND + nanoseconds as u128 * TICKS_PER_NANOSECOND
}

/// The time from `start` to `end`, or nothing where `end` is the earlier one.
pub open spec fn elapsed(start: u128, end: u128) -> u128 {
    if end >= start {
        (end - start) as u128
    } else {
        0
    }
}

} // verus!
