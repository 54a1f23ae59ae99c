//! The length of a budget window.

use vstd::prelude::*;

verus! {

/// Nanoseconds in a second.
pub const NANOS_PER_SEC: u32 = 1_000_000_000;

/// Nanoseconds in a millisecond.
pub const NANOS_PER_MILLI: u32 = 1_000_000;

/// A length of time in whole seconds and the nanoseconds left over.
#[derive(Clone, Copy, Debug, PartialEq, Eq, Structural)]
pub struct Window {
    secs: u64,
    nanos: u32,
}

impl Window {
    /// The whole seconds are counted apart, so fewer than a second of
    /// nanoseconds is left.
    #[verifier::type_invariant]
    spec fn well_formed(self) -> bool {
        self.nanos < NANOS_PER_SEC
    }

    /// The length in nanoseconds.
    pub closed spec fn as_nanos(self) -> nat {
        (self.secs * NANOS_PER_SEC + self.nanos) as nat
    }

    /// The length in whole milliseconds, the rest dropped.
    pub open spec fn millis(self) -> nat {
        self.as_nanos() / (NANOS_PER_MILLI as nat)
    }

    /// The window of `secs` whole seconds.
    pub closed spec fn seconds(secs: u64) -> Window {
        Window { secs, nanos: 0 }
    }

    /// `secs` whole seconds.
    pub fn from_secs(secs: u64) -> (window: Window)
        ensures
            window == Window::seconds(secs),
            window.as_nanos() == secs * NANOS_PER_SEC,
    {
        Window { secs, nanos: 0 }
    }

    /// `millis` milliseconds.
    pub fn from_millis(millis: u64) -> (window: Window)
        ensures
            window.as_nanos() == millis * NANOS_PER_MILLI,
    {
        let rest = (millis % 1000) as u32;
        Window { secs: millis / 1000, nanos: rest * NANOS_PER_MILLI }
    }

    /// `secs` whole seconds and `nanos` nanoseconds, fewer than a second's worth.
    pub fn from_parts(secs: u64, nanos: u32) -> (window: Window)
        requires
            nanos < NANOS_PER_SEC,
        ensures
            window.as_nanos() == secs * NANOS_PER_SEC + nanos,
    {
        Window { secs, nanos }
    }

    /// The length in whole milliseconds, the rest dropped.
    pub fn as_millis(&self) -> (millis: u128)
        ensures
            millis == self.millis(),
    {
        self.secs as u128 * 1000 + (self.nanos / NANOS_PER_MILLI) as u128
    }

    /// Whether two windows have the same length.
    pub fn same_length(&self, other: &Window) -> (same: bool)
        ensures
            same == (self.as_nanos() == other.as_nanos()),
            same == (*self == *other),
    {
        proof {
            use_type_invariant(self);
            use_type_invariant(other);
        }
        self.secs == other.secs && self.nanos == other.nanos
    }
}

/// A window of whole seconds lasts that many seconds.
pub proof fn seconds_last_as_long_as_they_say(secs: u64)
    ensures
        Window::seconds(secs).as_nanos() == secs * NANOS_PER_SEC,
        Window::seconds(secs).millis() == secs * 1000,
{
}

/// A second has a thousand million nanoseconds, a millisecond a million, and a second
/// a thousand milliseconds.
pub proof fn the_units_are_those_of_the_clock(secs: u64, window: Window)
    ensures
        Window::seconds(secs).as_nanos() == secs * 1_000_000_000,
        Window::seconds(secs).millis() == secs * 1_000,
        window.millis() * 1_000_000 <= window.as_nanos() < window.millis() * 1_000_000 + 1_000_000,
{
}

} // verus!
