use vstd::prelude::*;

verus! {

/// A point in time, or a span of time, counted in microseconds.
#[derive(Copy, Clone, PartialEq, Eq, PartialOrd, Ord, Debug, Hash, Structural)]
pub struct Timestamp(pub u64);

impl Timestamp {
    /// The number of microseconds this timestamp stands for.
    pub open spec fn usecs(self) -> nat {
        self.0 as nat
    }

    pub fn from_secs(secs: u64) -> (ts: Timestamp)
        requires
            secs * 1_000_000 <= u64::MAX,
        ensures
            ts.usecs() == secs * 1_000_000,
    {
        Timestamp(secs * 1_000_000)
    }

    pub fn from_msecs(msecs: u64) -> (ts: Timestamp)
        requires
            msecs * 1_000 <= u64::MAX,
        ensures
            ts.usecs() == msecs * 1_000,
    {
        Timestamp(msecs * 1_000)
    }

    pub fn from_usecs(usecs: u64) -> (ts: Timestamp)
        ensures
            ts.usecs() == usecs,
    {
        Timestamp(usecs)
    }

    /// Builds a timestamp out of whole seconds and a nanosecond part; the
    /// nanoseconds are truncated to whole microseconds.
    pub fn from_timespec(secs: u64, fract_nsecs: u64) -> (ts: Timestamp)
        requires
            secs * 1_000_000 + fract_nsecs / 1_000 <= u64::MAX,
        ensures
            ts.usecs() == secs * 1_000_000 + fract_nsecs / 1_000,
    {
        Timestamp::from_usecs(secs * 1_000_000 + fract_nsecs / 1_000)
    }

    pub fn min() -> (ts: Timestamp)
        ensures
            ts.usecs() == 0,
    {
        Timestamp(0)
    }

    pub fn max() -> (ts: Timestamp)
        ensures
            ts.usecs() == u64::MAX,
    {
        Timestamp(u64::MAX)
    }

    pub fn eps() -> (ts: Timestamp)
        ensures
            ts.usecs() == 1,
    {
        Timestamp(1)
    }

    pub fn as_secs(&self) -> (secs: u64)
        ensures
            secs == self.usecs() / 1_000_000,
    {
        self.0 / 1_000_000
    }

    pub fn as_msecs(&self) -> (msecs: u64)
        ensures
            msecs == self.usecs() / 1_000,
    {
        self.0 / 1_000
    }

    pub fn as_usecs(&self) -> (usecs: u64)
        ensures
            usecs == self.usecs(),
    {
        self.0
    }

    /// The sub-second part of the timestamp, in nanoseconds.
    pub fn fract_nsecs(&self) -> (nsecs: u64)
        ensures
            nsecs == (self.usecs() % 1_000_000) * 1000,
    {
        (self.as_usecs() - self.as_secs() * 1_000_000) * 1000
    }

    /// The sum of two timestamps.
    pub fn add(self, rhs: Timestamp) -> (ts: Timestamp)
        requires
            self.usecs() + rhs.usecs() <= u64::MAX,
        ensures
            ts.usecs() == self.usecs() + rhs.usecs(),
    {
        Timestamp(self.0 + rhs.0)
    }

    /// The difference of two timestamps; `rhs` may not be later than `self`.
    pub fn sub(self, rhs: Timestamp) -> (ts: Timestamp)
        requires
            rhs.usecs() <= self.usecs(),
        ensures
            ts.usecs() == self.usecs() - rhs.usecs(),
    {
        Timestamp(self.0 - rhs.0)
    }
}

} // verus!
