//! Clock readings and spans of time as plain numbers.
use vstd::prelude::*;

verus! {

/// A reading of a monotonic clock, in nanoseconds since an origin that the owner of the clock
/// picks.
#[derive(Clone, Copy, Debug)]
pub struct Instant {
    pub nanos: u128,
}

/// A span of time: whole seconds and nanoseconds on top.
#[derive(Clone, Copy, Debug)]
pub struct Duration {
    pub secs: u64,
    pub nanos: u32,
}

pub const NANOS_PER_SEC: u128 = 1_000_000_000;

impl Instant {
    pub fn from_nanos(nanos: u128) -> (t: Self)
        ensures
            t.nanos == nanos,
    {
        Self { nanos }
    }

    /// The nanoseconds from `earlier` to this instant.
    pub open spec fn spec_nanos_since(self, earlier: Instant) -> nat {
        if self.nanos >= earlier.nanos {
            (self.nanos - earlier.nanos) as nat
        } else {
            0
        }
    }

    /// The nanoseconds from `earlier` to this instant, 0 when `earlier` is the later one.
    pub fn nanos_since(&self, earlier: Instant) -> (n: u128)
        ensures
            n == self.spec_nanos_since(earlier),
    {
        if self.nanos >= earlier.nanos {
            self.nanos - earlier.nanos
        } else {
            0
        }
    }
}

impl Duration {
    pub fn new(secs: u64, nanos: u32) -> (d: Self)
        ensures
            d.secs == secs,
            d.nanos == nanos,
    {
        Self { secs, nanos }
    }

    /// The whole span in nanoseconds.
    pub open spec fn total_nanos(self) -> nat {
        (self.secs * NANOS_PER_SEC + self.nanos) as nat
    }

    /// The nanoseconds in `count` such spans.
    pub fn nanos_times(&self, count: u32) -> (n: u128)
        ensures
            n == self.total_nanos() * count,
    {
        let one: u128 = self.secs as u128 * NANOS_PER_SEC + self.nanos as u128;
        assert(one * count <= u128::MAX) by (nonlinear_arith)
            requires
                one <= 0xffff_ffff_ffff_ffff * 1_000_000_000 + 0xffff_ffff,
                count <= 0xffff_ffff,
        ;
        one * count as u128
    }
}

} // verus!
