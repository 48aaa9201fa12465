//! The monotonic clock: ticks of the timestamp counter since a baseline,
//! and nanoseconds where the frequency of the counter is known. Reading the
//! counter is the caller's part.

use vstd::prelude::*;

verus! {

/// Why the clock could not be set up.
#[derive(Debug, Clone, Copy, PartialEq, Eq, Structural)]
pub enum MonotonicInitError {
    /// A clock is set up already.
    AlreadyInitialized,
    /// The frequency given is zero.
    InvalidFrequency { requested_hz: u64 },
}

/// A baseline of the timestamp counter and, where known, its frequency.
#[derive(Debug, Clone, Copy, PartialEq, Eq, Structural)]
pub struct MonotonicClock {
    pub baseline_ticks: u64,
    pub frequency_hz: Option<u64>,
}

/// Ticks from `baseline` to `current` on a counter that wraps at 64 bits.
pub open spec fn ticks_between(baseline: u64, current: u64) -> u64 {
    if current >= baseline {
        (current - baseline) as u64
    } else {
        (current + 0x1_0000_0000_0000_0000 - baseline) as u64
    }
}

/// Nanoseconds that `ticks` ticks take at `frequency` ticks a second, where
/// the frequency is known and not zero and the result fits in 64 bits.
pub open spec fn nanos_of(ticks: u64, frequency: Option<u64>) -> Option<u64> {
    match frequency {
        None => None,
        Some(hz) => if hz == 0 || (ticks * 1_000_000_000) / (hz as int) > u64::MAX {
            None
        } else {
            Some(((ticks * 1_000_000_000) / (hz as int)) as u64)
        },
    }
}

impl MonotonicClock {
    /// A clock that starts at the counter value `baseline_ticks`.
    pub fn from_tsc(frequency_hz: Option<u64>, baseline_ticks: u64) -> (r: Self)
        ensures
            r == (MonotonicClock { baseline_ticks, frequency_hz }),
    {
        MonotonicClock { baseline_ticks, frequency_hz }
    }

    /// Ticks since the baseline, at the counter value `current`.
    pub fn elapsed_ticks(&self, current: u64) -> (r: u64)
        ensures
            r == ticks_between(self.baseline_ticks, current),
    {
        if current >= self.baseline_ticks {
            current - self.baseline_ticks
        } else {
            u64::MAX - self.baseline_ticks + current + 1
        }
    }

    /// Nanoseconds since the baseline, at the counter value `current`.
    pub fn nanoseconds_since_start(&self, current: u64) -> (r: Option<u64>)
        ensures
            r == nanos_of(ticks_between(self.baseline_ticks, current), self.frequency_hz),
    {
        let frequency: u128 = match self.frequency_hz {
            None => {
                return None;
            },
            Some(hz) => hz as u128,
        };
        let ticks: u128 = self.elapsed_ticks(current) as u128;
        if frequency == 0 {
            return None;
        }
        assert(ticks * 1_000_000_000 <= 0xffff_ffff_ffff_ffff * 1_000_000_000) by (nonlinear_arith)
            requires
                ticks <= 0xffff_ffff_ffff_ffff,
        ;
        let nanos: u128 = (ticks * 1_000_000_000u128) / frequency;
        if nanos > u64::MAX as u128 {
            None
        } else {
            Some(nanos as u64)
        }
    }
}

/// Sets the clock up, unless one is set up already.
pub fn init_tsc_monotonic(
    installed: &Option<MonotonicClock>,
    frequency_hz: Option<u64>,
    baseline_ticks: u64,
) -> (r: Result<MonotonicClock, MonotonicInitError>)
    ensures
        r == if installed is Some {
            Err::<MonotonicClock, _>(MonotonicInitError::AlreadyInitialized)
        } else if frequency_hz == Some(0u64) {
            Err::<MonotonicClock, _>(MonotonicInitError::InvalidFrequency { requested_hz: 0 })
        } else {
            Ok::<_, MonotonicInitError>(MonotonicClock { baseline_ticks, frequency_hz })
        },
{
    if installed.is_some() {
        return Err(MonotonicInitError::AlreadyInitialized);
    }
    if let Some(freq) = frequency_hz {
        if freq == 0 {
            return Err(MonotonicInitError::InvalidFrequency { requested_hz: freq });
        }
    }
    Ok(MonotonicClock::from_tsc(frequency_hz, baseline_ticks))
}

/// Ticks since the clock was set up, if it was.
pub fn monotonic_ticks(installed: &Option<MonotonicClock>, current: u64) -> (r: Option<u64>)
    ensures
        r == match *installed {
            Some(clock) => Some(ticks_between(clock.baseline_ticks, current)),
            None => None,
        },
{
    match installed {
        Some(clock) => Some(clock.elapsed_ticks(current)),
        None => None,
    }
}

/// Nanoseconds since the clock was set up, if it was and its frequency is
/// known.
pub fn monotonic_nanos(installed: &Option<MonotonicClock>, current: u64) -> (r: Option<u64>)
    ensures
        r == match *installed {
            Some(clock) => nanos_of(
                ticks_between(clock.baseline_ticks, current),
                clock.frequency_hz,
            ),
            None => None,
        },
{
    match installed {
        Some(clock) => clock.nanoseconds_since_start(current),
        None => None,
    }
}

} // verus!
