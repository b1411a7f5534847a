//! Simulation units: time spans, data sizes and data rates.
use vstd::prelude::*;

use crate::time::{Delta, Time};

verus! {

/// Rounds `x / d` to the nearest integer, halves rounding up.
pub open spec fn round_div(x: int, d: int) -> int {
    (2 * x + d) / (2 * d)
}

/// Caps an integer at the largest `u64`.
pub open spec fn cap_u64(x: int) -> int {
    if x <= u64::MAX {
        x
    } else {
        u64::MAX as int
    }
}

/// The nanoseconds needed to serialize `size` bytes at `bps` bits per second, rounded.
pub open spec fn length_ns(size: int, bps: int) -> int {
    round_div(size * 8_000_000_000, bps)
}

/// The bytes serialized in `ns` nanoseconds at `bps` bits per second, rounded.
pub open spec fn width_bytes(ns: int, bps: int) -> int {
    round_div(bps * ns, 8_000_000_000)
}

/// Rounding through the quotient and the remainder.
pub proof fn lemma_round_div(x: int, d: int)
    requires
        x >= 0,
        d > 0,
    ensures
        round_div(x, d) == x / d + (if 2 * (x % d) >= d { 1int } else { 0int }),
        x / d <= round_div(x, d) <= x / d + 1,
{
    let q = x / d;
    let r = x % d;
    vstd::arithmetic::div_mod::lemma_fundamental_div_mod(x, d);
    assert(0 <= r < d);
    let e: int = if 2 * r >= d { 1 } else { 0 };
    let rr = 2 * r + d - 2 * d * e;
    assert(0 <= rr < 2 * d);
    assert(2 * x + d == (q + e) * (2 * d) + rr) by (nonlinear_arith)
        requires
            x == d * q + r,
            rr == 2 * r + d - 2 * d * e,
    ;
    vstd::arithmetic::div_mod::lemma_fundamental_div_mod_converse_div(2 * x + d, 2 * d, q + e, rr);
}

/// `x / d` rounded to the nearest integer, halves up, computed without overflow.
fn round_div_u128(x: u128, d: u128) -> (r: u128)
    requires
        d > 0,
    ensures
        r == round_div(x as int, d as int),
{
    proof {
        lemma_round_div(x as int, d as int);
    }
    let q = x / d;
    let rem = x % d;
    if rem >= d - rem {
        assert(q < u128::MAX) by {
            vstd::arithmetic::div_mod::lemma_fundamental_div_mod(x as int, d as int);
            if d == 1 {
                assert(rem == 0);
            } else {
                assert(d * q >= 2 * q) by (nonlinear_arith)
                    requires d >= 2, q >= 0;
            }
        }
        q + 1
    } else {
        q
    }
}

/// A span of nanoseconds.
#[derive(Debug, Default, Copy, Clone, PartialEq, Eq, PartialOrd, Ord, Hash, Structural)]
pub struct Nanosecs(pub u64);

/// A span of microseconds.
#[derive(Debug, Default, Copy, Clone, PartialEq, Eq, PartialOrd, Ord, Hash, Structural)]
pub struct Microsecs(pub u64);

/// A span of milliseconds.
#[derive(Debug, Default, Copy, Clone, PartialEq, Eq, PartialOrd, Ord, Hash, Structural)]
pub struct Millisecs(pub u64);

/// A span of seconds.
#[derive(Debug, Default, Copy, Clone, PartialEq, Eq, PartialOrd, Ord, Hash, Structural)]
pub struct Secs(pub u64);

/// A number of bits.
#[derive(Debug, Default, Copy, Clone, PartialEq, Eq, PartialOrd, Ord, Hash, Structural)]
pub struct Bits(pub u64);

/// A number of bytes.
#[derive(Debug, Default, Copy, Clone, PartialEq, Eq, PartialOrd, Ord, Hash, Structural)]
pub struct Bytes(pub u64);

/// A number of kilobytes (1000 bytes each).
#[derive(Debug, Default, Copy, Clone, PartialEq, Eq, PartialOrd, Ord, Hash, Structural)]
pub struct Kilobytes(pub u64);

/// A data rate in bits per second.
#[derive(Debug, Default, Copy, Clone, PartialEq, Eq, PartialOrd, Ord, Hash, Structural)]
pub struct BitsPerSec(pub u64);

/// A data rate in megabits per second.
#[derive(Debug, Default, Copy, Clone, PartialEq, Eq, PartialOrd, Ord, Hash, Structural)]
pub struct Mbps(pub u64);

/// A data rate in gigabits per second.
#[derive(Debug, Default, Copy, Clone, PartialEq, Eq, PartialOrd, Ord, Hash, Structural)]
pub struct Gbps(pub u64);

impl Nanosecs {
    /// Creates a value.
    pub fn new(value: u64) -> (r: Self)
        ensures
            r.0 == value,
    {
        Nanosecs(value)
    }

    /// The value as a `u64`.
    pub fn into_u64(self) -> (r: u64)
        ensures
            r == self.0,
    {
        self.0
    }

    /// The point in time this many nanoseconds after the origin.
    pub fn into_time(self) -> (r: Time)
        ensures
            r.0 == self.0,
    {
        Time(self.0 as u128)
    }

    /// The same span as a delta.
    pub fn into_delta(self) -> (r: Delta)
        ensures
            r.0 == self.0,
    {
        Delta(self.0 as u128)
    }
}

impl Microsecs {
    /// Creates a value.
    pub fn new(value: u64) -> (r: Self)
        ensures
            r.0 == value,
    {
        Microsecs(value)
    }

    /// The value as a `u64`.
    pub fn into_u64(self) -> (r: u64)
        ensures
            r == self.0,
    {
        self.0
    }

    /// The same span in nanoseconds.
    pub fn into_ns(self) -> (r: Nanosecs)
        requires
            self.0 * 1_000 <= u64::MAX,
        ensures
            r.0 == self.0 * 1_000,
    {
        Nanosecs(self.0 * 1_000)
    }

    /// The point in time this many microseconds after the origin.
    pub fn into_time(self) -> (r: Time)
        requires
            self.0 * 1_000 <= u64::MAX,
        ensures
            r.0 == self.0 * 1_000,
    {
        self.into_ns().into_time()
    }

    /// The same span as a delta in nanoseconds.
    pub fn into_delta(self) -> (r: Delta)
        requires
            self.0 * 1_000 <= u64::MAX,
        ensures
            r.0 == self.0 * 1_000,
    {
        self.into_ns().into_delta()
    }
}

impl Millisecs {
    /// Creates a value.
    pub fn new(value: u64) -> (r: Self)
        ensures
            r.0 == value,
    {
        Millisecs(value)
    }

    /// The value as a `u64`.
    pub fn into_u64(self) -> (r: u64)
        ensures
            r == self.0,
    {
        self.0
    }

    /// The same span in microseconds.
    pub fn into_us(self) -> (r: Microsecs)
        requires
            self.0 * 1_000 <= u64::MAX,
        ensures
            r.0 == self.0 * 1_000,
    {
        Microsecs(self.0 * 1_000)
    }

    /// The point in time this many milliseconds after the origin.
    pub fn into_time(self) -> (r: Time)
        requires
            self.0 * 1_000_000 <= u64::MAX,
        ensures
            r.0 == self.0 * 1_000_000,
    {
        self.into_us().into_time()
    }

    /// The same span as a delta in nanoseconds.
    pub fn into_delta(self) -> (r: Delta)
        requires
            self.0 * 1_000_000 <= u64::MAX,
        ensures
            r.0 == self.0 * 1_000_000,
    {
        self.into_us().into_delta()
    }
}

impl Secs {
    /// Creates a value.
    pub fn new(value: u64) -> (r: Self)
        ensures
            r.0 == value,
    {
        Secs(value)
    }

    /// The value as a `u64`.
    pub fn into_u64(self) -> (r: u64)
        ensures
            r == self.0,
    {
        self.0
    }

    /// The same span in milliseconds.
    pub fn into_ms(self) -> (r: Millisecs)
        requires
            self.0 * 1_000 <= u64::MAX,
        ensures
            r.0 == self.0 * 1_000,
    {
        Millisecs(self.0 * 1_000)
    }

    /// The same span in microseconds.
    pub fn into_us(self) -> (r: Microsecs)
        requires
            self.0 * 1_000_000 <= u64::MAX,
        ensures
            r.0 == self.0 * 1_000_000,
    {
        self.into_ms().into_us()
    }

    /// The same span in nanoseconds.
    pub fn into_ns(self) -> (r: Nanosecs)
        requires
            self.0 * 1_000_000_000 <= u64::MAX,
        ensures
            r.0 == self.0 * 1_000_000_000,
    {
        self.into_us().into_ns()
    }

    /// The point in time this many seconds after the origin.
    pub fn into_time(self) -> (r: Time)
        requires
            self.0 * 1_000_000_000 <= u64::MAX,
        ensures
            r.0 == self.0 * 1_000_000_000,
    {
        self.into_ms().into_time()
    }

    /// The same span as a delta in nanoseconds.
    pub fn into_delta(self) -> (r: Delta)
        requires
            self.0 * 1_000_000_000 <= u64::MAX,
        ensures
            r.0 == self.0 * 1_000_000_000,
    {
        self.into_ms().into_delta()
    }
}

impl Bits {
    /// Creates a value.
    pub fn new(value: u64) -> (r: Self)
        ensures
            r.0 == value,
    {
        Bits(value)
    }

    /// The value as a `u64`.
    pub fn into_u64(self) -> (r: u64)
        ensures
            r == self.0,
    {
        self.0
    }
}

impl Bytes {
    /// Creates a value.
    pub fn new(value: u64) -> (r: Self)
        ensures
            r.0 == value,
    {
        Bytes(value)
    }

    /// The value as a `u64`.
    pub fn into_u64(self) -> (r: u64)
        ensures
            r == self.0,
    {
        self.0
    }

    /// The same size in bits.
    pub fn into_bits(self) -> (r: Bits)
        requires
            self.0 * 8 <= u64::MAX,
        ensures
            r.0 == self.0 * 8,
    {
        Bits(self.0 * 8)
    }
}

impl Kilobytes {
    /// Creates a value.
    pub fn new(value: u64) -> (r: Self)
        ensures
            r.0 == value,
    {
        Kilobytes(value)
    }

    /// The value as a `u64`.
    pub fn into_u64(self) -> (r: u64)
        ensures
            r == self.0,
    {
        self.0
    }

    /// The same size in bytes.
    pub fn into_bytes(self) -> (r: Bytes)
        requires
            self.0 * 1_000 <= u64::MAX,
        ensures
            r.0 == self.0 * 1_000,
    {
        Bytes(self.0 * 1_000)
    }

    /// The same size in bits.
    pub fn into_bits(self) -> (r: Bits)
        requires
            self.0 * 8_000 <= u64::MAX,
        ensures
            r.0 == self.0 * 8_000,
    {
        self.into_bytes().into_bits()
    }
}

impl BitsPerSec {
    /// Creates a value.
    pub fn new(value: u64) -> (r: Self)
        ensures
            r.0 == value,
    {
        BitsPerSec(value)
    }

    /// The value as a `u64`.
    pub fn into_u64(self) -> (r: u64)
        ensures
            r == self.0,
    {
        self.0
    }

    /// The same rate in whole gigabits per second, rounded to the nearest.
    pub fn into_gbps(self) -> (r: Gbps)
        ensures
            r.0 == round_div(self.0 as int, 1_000_000_000),
    {
        let v = round_div_u128(self.0 as u128, 1_000_000_000);
        proof {
            lemma_round_div(self.0 as int, 1_000_000_000);
        }
        Gbps(v as u64)
    }

    /// The time needed to serialize `size` at this rate, rounded to the nearest nanosecond
    /// and capped at the largest representable span.
    pub fn length(&self, size: Bytes) -> (r: Nanosecs)
        requires
            self.0 > 0,
        ensures
            r.0 == cap_u64(length_ns(size.0 as int, self.0 as int)),
    {
        assert(size.0 as int * 8_000_000_000 <= u128::MAX) by (nonlinear_arith)
            requires size.0 <= u64::MAX;
        let x = size.0 as u128 * 8_000_000_000;
        let v = round_div_u128(x, self.0 as u128);
        if v > u64::MAX as u128 {
            Nanosecs(u64::MAX)
        } else {
            Nanosecs(v as u64)
        }
    }

    /// The bytes serialized in `delta` at this rate, rounded to the nearest byte and capped at
    /// the largest representable size.
    pub fn width(&self, delta: Nanosecs) -> (r: Bytes)
        ensures
            r.0 == cap_u64(width_bytes(delta.0 as int, self.0 as int)),
    {
        assert(self.0 as int * delta.0 as int <= u128::MAX) by (nonlinear_arith)
            requires self.0 <= u64::MAX, delta.0 <= u64::MAX;
        let x = self.0 as u128 * delta.0 as u128;
        let v = round_div_u128(x, 8_000_000_000);
        if v > u64::MAX as u128 {
            Bytes(u64::MAX)
        } else {
            Bytes(v as u64)
        }
    }
}

impl Mbps {
    /// Creates a value.
    pub fn new(value: u64) -> (r: Self)
        ensures
            r.0 == value,
    {
        Mbps(value)
    }

    /// The value as a `u64`.
    pub fn into_u64(self) -> (r: u64)
        ensures
            r == self.0,
    {
        self.0
    }

    /// The same rate in bits per second.
    pub fn into_bps(self) -> (r: BitsPerSec)
        requires
            self.0 * 1_000_000 <= u64::MAX,
        ensures
            r.0 == self.0 * 1_000_000,
    {
        BitsPerSec(self.0 * 1_000_000)
    }

    /// The time needed to serialize `size` at this rate.
    pub fn length(&self, size: Bytes) -> (r: Nanosecs)
        requires
            self.0 > 0,
            self.0 * 1_000_000 <= u64::MAX,
        ensures
            r.0 == cap_u64(length_ns(size.0 as int, self.0 * 1_000_000)),
    {
        self.into_bps().length(size)
    }

    /// The bytes serialized in `delta` at this rate.
    pub fn width(&self, delta: Nanosecs) -> (r: Bytes)
        requires
            self.0 * 1_000_000 <= u64::MAX,
        ensures
            r.0 == cap_u64(width_bytes(delta.0 as int, self.0 * 1_000_000)),
    {
        self.into_bps().width(delta)
    }
}

impl Gbps {
    /// Creates a value.
    pub fn new(value: u64) -> (r: Self)
        ensures
            r.0 == value,
    {
        Gbps(value)
    }

    /// The value as a `u64`.
    pub fn into_u64(self) -> (r: u64)
        ensures
            r == self.0,
    {
        self.0
    }

    /// The same rate in bits per second.
    pub fn into_bps(self) -> (r: BitsPerSec)
        requires
            self.0 * 1_000_000_000 <= u64::MAX,
        ensures
            r.0 == self.0 * 1_000_000_000,
    {
        BitsPerSec(self.0 * 1_000_000_000)
    }

    /// The same rate in megabits per second.
    pub fn into_mbps(self) -> (r: Mbps)
        requires
            self.0 * 1_000 <= u64::MAX,
        ensures
            r.0 == self.0 * 1_000,
    {
        Mbps(self.0 * 1_000)
    }

    /// The time needed to serialize `size` at this rate.
    pub fn length(&self, size: Bytes) -> (r: Nanosecs)
        requires
            self.0 > 0,
            self.0 * 1_000_000_000 <= u64::MAX,
        ensures
            r.0 == cap_u64(length_ns(size.0 as int, self.0 * 1_000_000_000)),
    {
        self.into_bps().length(size)
    }

    /// The bytes serialized in `delta` at this rate.
    pub fn width(&self, delta: Nanosecs) -> (r: Bytes)
        requires
            self.0 * 1_000_000_000 <= u64::MAX,
        ensures
            r.0 == cap_u64(width_bytes(delta.0 as int, self.0 * 1_000_000_000)),
    {
        self.into_bps().width(delta)
    }
}

} // verus!
