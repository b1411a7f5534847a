//! Simulation time keeping.
use vstd::prelude::*;

use crate::units::Nanosecs;

verus! {

/// A point in simulated time, in nanoseconds since the origin.
#[derive(Debug, Default, Copy, Clone, PartialEq, Eq, PartialOrd, Ord, Hash, Structural)]
pub struct Time(pub u128);

/// A span of simulated time, in nanoseconds.
#[derive(Debug, Default, Copy, Clone, PartialEq, Eq, PartialOrd, Ord, Hash, Structural)]
pub struct Delta(pub u128);

/// The latest representable point in time, which also stands for "never".
pub const TIME_MAX: u128 = 0xffff_ffff_ffff_ffff_ffff_ffff_ffff_ffff;

impl Time {
    /// Creates a point in time.
    pub fn new(value: u128) -> (r: Self)
        ensures
            r.0 == value,
    {
        Time(value)
    }

    /// The latest representable point in time.
    pub fn max_value() -> (r: Self)
        ensures
            r.0 == u128::MAX,
    {
        Time(TIME_MAX)
    }

    /// The value as a `u128`.
    pub fn into_u128(self) -> (r: u128)
        ensures
            r == self.0,
    {
        self.0
    }

    /// The span from the origin to this point.
    pub fn into_delta(self) -> (r: Delta)
        ensures
            r.0 == self.0,
    {
        Delta(self.0)
    }

    /// This point as nanoseconds since the origin.
    pub fn into_ns(self) -> (r: Nanosecs)
        requires
            self.0 <= u64::MAX,
        ensures
            r.0 == self.0,
    {
        Nanosecs(self.0 as u64)
    }

    /// The span from `rhs` to `self`, or zero when `rhs` is later.
    pub fn saturating_sub(self, rhs: Self) -> (r: Delta)
        ensures
            r.0 == if self.0 >= rhs.0 { self.0 - rhs.0 } else { 0 },
    {
        Delta(self.0.saturating_sub(rhs.0))
    }

    /// The point `delta` after this one, or the latest representable point when that lies
    /// beyond it.
    pub fn saturating_add(self, delta: Delta) -> (r: Self)
        ensures
            r.0 == if self.0 + delta.0 <= u128::MAX { self.0 + delta.0 } else { u128::MAX as int },
    {
        Time(self.0.saturating_add(delta.0))
    }
}

impl Delta {
    /// Creates a span.
    pub fn new(value: u128) -> (r: Self)
        ensures
            r.0 == value,
    {
        Delta(value)
    }

    /// The point this far after the origin.
    pub fn into_time(self) -> (r: Time)
        ensures
            r.0 == self.0,
    {
        Time(self.0)
    }

    /// This span in nanoseconds.
    pub fn into_ns(self) -> (r: Nanosecs)
        requires
            self.0 <= u64::MAX,
        ensures
            r.0 == self.0,
    {
        Nanosecs(self.0 as u64)
    }
}

} // verus!
