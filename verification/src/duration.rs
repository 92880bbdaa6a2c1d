//! Exact elapsed time, counted in whole nanoseconds.

use vstd::prelude::*;
use vstd::std_specs::cmp::PartialOrdSpecImpl;
use vstd::std_specs::ops::AddSpecImpl;
use std::cmp::Ordering;

verus! {

/// Nanoseconds in one second.
pub const NANOS_PER_SECOND: u64 = 1_000_000_000;

/// A non-negative elapsed time with nanosecond resolution.
///
/// The value is a plain count of nanoseconds, so sums and comparisons are
/// exact. Its view is that count.
#[derive(Clone, Copy, Debug, PartialEq, Eq, Structural, Ord, Hash)]
pub struct Duration {
    pub nanos: u64,
}

impl View for Duration {
    type V = nat;

    open spec fn view(&self) -> nat {
        self.nanos as nat
    }
}

/// Seconds in `hours:minutes:seconds`.
pub open spec fn total_seconds(hours: int, minutes: int, seconds: int) -> int {
    seconds + minutes * 60 + hours * 3600
}

/// Nanoseconds in `hours:minutes:seconds` plus `nanoseconds`.
pub open spec fn clock_nanos(hours: int, minutes: int, seconds: int, nanoseconds: int) -> int {
    total_seconds(hours, minutes, seconds) * 1_000_000_000 + nanoseconds
}

/// The number of whole seconds in a clock reading.
pub fn calc_total_seconds(hours: u8, minutes: u8, seconds: u8) -> (total: i64)
    ensures
        total == total_seconds(hours as int, minutes as int, seconds as int),
{
    let s: i64 = seconds as i64;
    let m: i64 = minutes as i64;
    let h: i64 = hours as i64;
    s + m * 60 + h * 3600
}

/// The duration of a clock reading: hours, minutes, seconds and a
/// sub-second part in nanoseconds.
pub fn time_to_duration(hours: u8, minutes: u8, seconds: u8, nanoseconds: u32) -> (d: Duration)
    ensures
        d@ == clock_nanos(hours as int, minutes as int, seconds as int, nanoseconds as int),
{
    let whole: i64 = calc_total_seconds(hours, minutes, seconds);
    Duration { nanos: (whole as u64) * NANOS_PER_SECOND + (nanoseconds as u64) }
}

impl Duration {
    /// The empty duration.
    pub fn zero() -> (d: Duration)
        ensures
            d@ == 0,
    {
        Duration { nanos: 0 }
    }

    /// The duration of `nanos` nanoseconds.
    pub fn from_nanos(nanos: u64) -> (d: Duration)
        ensures
            d@ == nanos,
    {
        Duration { nanos }
    }

    /// The length in nanoseconds.
    pub fn as_nanos(&self) -> (nanos: u64)
        ensures
            nanos == self@,
    {
        self.nanos
    }

    /// The exact sum of two durations, or `None` when it exceeds what a
    /// `Duration` can hold.
    pub fn checked_add(self, other: Duration) -> (sum: Option<Duration>)
        ensures
            sum == (if self@ + other@ <= u64::MAX {
                Some(Duration { nanos: (self@ + other@) as u64 })
            } else {
                None
            }),
    {
        match self.nanos.checked_add(other.nanos) {
            Some(nanos) => Some(Duration { nanos }),
            None => None,
        }
    }
}

impl std::ops::Add for Duration {
    type Output = Duration;

    /// The exact sum of two durations whose sum a `Duration` can hold.
    fn add(self, rhs: Duration) -> (sum: Duration) {
        Duration { nanos: self.nanos + rhs.nanos }
    }
}

impl AddSpecImpl for Duration {
    open spec fn obeys_add_spec() -> bool {
        true
    }

    open spec fn add_req(self, rhs: Duration) -> bool {
        self.nanos + rhs.nanos <= u64::MAX
    }

    open spec fn add_spec(self, rhs: Duration) -> Duration {
        Duration { nanos: (self.nanos + rhs.nanos) as u64 }
    }
}

impl PartialOrd for Duration {
    fn partial_cmp(&self, other: &Duration) -> (order: Option<Ordering>) {
        if self.nanos < other.nanos {
            Some(Ordering::Less)
        } else if self.nanos == other.nanos {
            Some(Ordering::Equal)
        } else {
            Some(Ordering::Greater)
        }
    }
}

impl PartialOrdSpecImpl for Duration {
    open spec fn obeys_partial_cmp_spec() -> bool {
        true
    }

    open spec fn partial_cmp_spec(&self, other: &Duration) -> Option<Ordering> {
        if self.nanos < other.nanos {
            Some(Ordering::Less)
        } else if self.nanos == other.nanos {
            Some(Ordering::Equal)
        } else {
            Some(Ordering::Greater)
        }
    }
}

} // verus!
