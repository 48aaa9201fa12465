//! Calibrating the timestamp counter: two readings a known time apart.
//! Reading the counter and waiting are the caller's part.

use vstd::prelude::*;
use crate::time::ticks_between;

verus! {

/// Microseconds between the two readings.
pub const MEASUREMENT_DELAY_US: u64 = 50_000;

/// The frequency of a counter that advanced by `delta` ticks in
/// `delay_us` microseconds, where that can be told and fits in 64 bits.
pub open spec fn frequency_of(delta: u64, delay_us: u64) -> Option<u64> {
    if delta == 0 || delay_us == 0 || (delta * 1_000_000) / (delay_us as int) > u64::MAX {
        None
    } else {
        Some(((delta * 1_000_000) / (delay_us as int)) as u64)
    }
}

/// Works out the frequency of the timestamp counter from two readings that
/// lie `delay_us` microseconds apart.
pub fn measure_tsc_frequency(start: u64, end: u64, delay_us: u64) -> (r: Option<u64>)
    ensures
        r == frequency_of(ticks_between(start, end), delay_us),
{
    let delta: u64 = if end >= start {
        end - start
    } else {
        u64::MAX - start + end + 1
    };
    if delta == 0 {
        return None;
    }
    if delay_us == 0 {
        return None;
    }
    assert((delta as u128) * 1_000_000 <= 0xffff_ffff_ffff_ffff * 1_000_000) by (nonlinear_arith)
        requires
            delta <= 0xffff_ffff_ffff_ffff,
    ;
    let numerator: u128 = (delta as u128) * 1_000_000u128;
    let frequency: u128 = numerator / (delay_us as u128);
    if frequency > u64::MAX as u128 {
        None
    } else {
        Some(frequency as u64)
    }
}

} // verus!
