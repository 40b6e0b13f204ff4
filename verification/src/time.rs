//! Points in time and spans of time, counted in clock ticks.
//!
//! The firmware clock is a 64-bit microsecond counter that starts at boot.
//! Everything that depends on the time takes it as an argument, so nothing in
//! this library reads a clock.
use vstd::prelude::*;

verus! {

/// Clock ticks per second.
pub const TICK_HZ: u64 = 1_000_000;

/// A span of time.
#[derive(Debug, Clone, Copy, PartialEq, Eq, Structural)]
pub struct Duration {
    pub ticks: u64,
}

/// A point in time, as ticks since boot.
#[derive(Debug, Clone, Copy, PartialEq, Eq, Structural)]
pub struct Instant {
    pub ticks: u64,
}

impl Duration {
    /// The whole seconds in this span.
    pub open spec fn secs(self) -> nat {
        (self.ticks as nat) / (TICK_HZ as nat)
    }

    /// A span of `secs` whole seconds.
    pub fn from_secs(secs: u64) -> (r: Duration)
        requires
            secs * TICK_HZ <= u64::MAX,
        ensures
            r.ticks == secs * TICK_HZ,
            r.secs() == secs,
    {
        Duration { ticks: secs * TICK_HZ }
    }

    /// The whole seconds in this span, rounding down.
    pub fn as_secs(&self) -> (r: u64)
        ensures
            r == self.secs(),
            r <= u64::MAX / TICK_HZ,
    {
        self.ticks / TICK_HZ
    }
}

impl Instant {
    /// The time from `earlier` to this instant, or `None` when `earlier` lies
    /// in the future of this instant.
    pub open spec fn since(self, earlier: Instant) -> Option<Duration> {
        if self.ticks < earlier.ticks {
            None
        } else {
            Some(Duration { ticks: (self.ticks - earlier.ticks) as u64 })
        }
    }

    /// The time from `earlier` to this instant, or `None` when `earlier` lies
    /// in the future of this instant.
    pub fn checked_duration_since(&self, earlier: Instant) -> (r: Option<Duration>)
        ensures
            r == self.since(earlier),
    {
        if self.ticks < earlier.ticks {
            None
        } else {
            Some(Duration { ticks: self.ticks - earlier.ticks })
        }
    }

    /// The time from `earlier` to this instant.
    pub fn duration_since(&self, earlier: Instant) -> (r: Duration)
        requires
            earlier.ticks <= self.ticks,
        ensures
            r.ticks == self.ticks - earlier.ticks,
    {
        Duration { ticks: self.ticks - earlier.ticks }
    }

    /// The instant `span` before this one, or `None` when that lies before
    /// boot.
    pub fn checked_sub(&self, span: Duration) -> (r: Option<Instant>)
        ensures
            r == if self.ticks < span.ticks {
                None
            } else {
                Some(Instant { ticks: (self.ticks - span.ticks) as u64 })
            },
    {
        if self.ticks < span.ticks {
            None
        } else {
            Some(Instant { ticks: self.ticks - span.ticks })
        }
    }

    /// Whether this instant lies strictly before `other`.
    pub fn is_before(&self, other: Instant) -> (r: bool)
        ensures
            r == (self.ticks < other.ticks),
    {
        self.ticks < other.ticks
    }
}

/// The time from one instant to a later one is their difference; to an earlier
/// one there is none. A span has as many whole seconds as it has millions of
/// ticks.
pub proof fn law_spans_are_differences(a: Instant, b: Instant, d: Duration)
    ensures
        b.since(a) is Some <==> a.ticks <= b.ticks,
        b.since(a) matches Some(span) ==> a.ticks + span.ticks == b.ticks,
        d.secs() * 1_000_000 <= d.ticks < (d.secs() + 1) * 1_000_000,
{
}

} // verus!
