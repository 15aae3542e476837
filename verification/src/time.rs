//! Time spans on the media clock.

use vstd::prelude::*;

verus! {

/// The longest span a clock can report: 64-bit seconds and a full nanosecond part.
pub const MAX_NANOS: u128 = 18_446_744_073_709_551_615_999_999_999;

/// Nanoseconds in a microsecond.
pub const NANOS_PER_MICRO: u128 = 1_000;

/// Nanoseconds in a millisecond.
pub const NANOS_PER_MILLI: u128 = 1_000_000;

/// Nanoseconds in a second.
pub const NANOS_PER_SEC: u128 = 1_000_000_000;

/// A span of time in whole nanoseconds. Presentation timestamps are spans measured from a
/// reference point, so the same type serves for both.
#[derive(Debug, Clone, Copy, PartialEq, Eq, Structural, PartialOrd, Ord, Hash)]
pub struct Duration {
    pub nanos: u128,
}

impl Duration {
    /// The span lies in the range of the system clock's own durations.
    pub open spec fn representable(self) -> bool {
        self.nanos <= MAX_NANOS
    }

    pub fn zero() -> (r: Duration)
        ensures
            r.nanos == 0,
    {
        Duration { nanos: 0 }
    }

    pub fn from_nanos(nanos: u64) -> (r: Duration)
        ensures
            r.nanos == nanos,
            r.representable(),
    {
        Duration { nanos: nanos as u128 }
    }

    pub fn from_micros(micros: u64) -> (r: Duration)
        ensures
            r.nanos == micros * NANOS_PER_MICRO,
            r.representable(),
    {
        Duration { nanos: micros as u128 * NANOS_PER_MICRO }
    }

    pub fn from_millis(millis: u64) -> (r: Duration)
        ensures
            r.nanos == millis * NANOS_PER_MILLI,
            r.representable(),
    {
        Duration { nanos: millis as u128 * NANOS_PER_MILLI }
    }

    pub fn from_secs(secs: u64) -> (r: Duration)
        ensures
            r.nanos == secs * NANOS_PER_SEC,
            r.representable(),
    {
        Duration { nanos: secs as u128 * NANOS_PER_SEC }
    }

    pub fn as_nanos(self) -> (r: u128)
        ensures
            r == self.nanos,
    {
        self.nanos
    }

    pub fn as_micros(self) -> (r: u128)
        ensures
            r == self.nanos as int / NANOS_PER_MICRO as int,
    {
        self.nanos / NANOS_PER_MICRO
    }

    pub fn as_millis(self) -> (r: u128)
        ensures
            r == self.nanos as int / NANOS_PER_MILLI as int,
    {
        self.nanos / NANOS_PER_MILLI
    }

    /// The sum of two spans.
    pub fn plus(self, other: Duration) -> (r: Duration)
        requires
            self.nanos + other.nanos <= u128::MAX,
        ensures
            r.nanos == self.nanos + other.nanos,
    {
        Duration { nanos: self.nanos + other.nanos }
    }

    /// The sum of two spans, if it is still representable.
    pub fn checked_add(self, other: Duration) -> (r: Option<Duration>)
        ensures
            r is Some <==> self.nanos + other.nanos <= MAX_NANOS,
            r is Some ==> r->0.nanos == self.nanos + other.nanos,
    {
        if self.nanos <= MAX_NANOS && other.nanos <= MAX_NANOS - self.nanos {
            Some(Duration { nanos: self.nanos + other.nanos })
        } else {
            None
        }
    }

    /// The difference of two spans, or zero where `other` is the longer one.
    pub fn saturating_sub(self, other: Duration) -> (r: Duration)
        ensures
            r.nanos == saturating_diff(self.nanos as int, other.nanos as int),
    {
        if self.nanos >= other.nanos {
            Duration { nanos: self.nanos - other.nanos }
        } else {
            Duration { nanos: 0 }
        }
    }

    /// How far two spans lie apart.
    pub fn abs_diff(self, other: Duration) -> (r: Duration)
        ensures
            r.nanos == distance(self.nanos as int, other.nanos as int),
    {
        if self.nanos >= other.nanos {
            Duration { nanos: self.nanos - other.nanos }
        } else {
            Duration { nanos: other.nanos - self.nanos }
        }
    }

    /// The longer of two spans.
    pub fn longer(self, other: Duration) -> (r: Duration)
        ensures
            r == (if self.nanos >= other.nanos { self } else { other }),
    {
        if self.nanos >= other.nanos {
            self
        } else {
            other
        }
    }

    /// The shorter of two spans.
    pub fn shorter(self, other: Duration) -> (r: Duration)
        ensures
            r == (if self.nanos <= other.nanos { self } else { other }),
    {
        if self.nanos <= other.nanos {
            self
        } else {
            other
        }
    }
}

/// `a - b`, cut off at zero.
pub open spec fn saturating_diff(a: int, b: int) -> int {
    if a >= b {
        a - b
    } else {
        0
    }
}

/// The distance between `a` and `b`.
pub open spec fn distance(a: int, b: int) -> int {
    if a >= b {
        a - b
    } else {
        b - a
    }
}

/// Whole microseconds in a span, cut off at the largest 64-bit value.
pub fn duration_micros(duration: Duration) -> (r: u64)
    ensures
        r == micros_clamped(duration.nanos as int),
{
    let micros: u128 = duration.as_micros();
    if micros <= u64::MAX as u128 {
        micros as u64
    } else {
        u64::MAX
    }
}

/// The number of whole microseconds in `nanos`, at most the largest 64-bit value.
pub open spec fn micros_clamped(nanos: int) -> int {
    let micros = nanos / (NANOS_PER_MICRO as int);
    if micros <= u64::MAX {
        micros
    } else {
        u64::MAX as int
    }
}

/// The difference gives back the longer span when the other is put to it, and is zero where there is
/// nothing left.
pub proof fn lemma_difference_is_what_is_left(a: int, b: int)
    ensures
        saturating_diff(a, b) >= 0,
        a >= b ==> b + saturating_diff(a, b) == a,
        a <= b ==> saturating_diff(a, b) == 0,
{
}

/// The distance leads from one moment to the other, whichever comes first, and is zero only between
/// equal ones.
pub proof fn lemma_distance_leads_to_the_other(a: int, b: int)
    ensures
        distance(a, b) >= 0,
        distance(a, b) == distance(b, a),
        a + distance(a, b) == b || b + distance(a, b) == a,
        distance(a, b) == 0 <==> a == b,
{
}

/// Whole microseconds last no longer than the span, and less than one microsecond is missing, as long
/// as they can be counted in 64 bits.
pub proof fn lemma_whole_microseconds(nanos: nat)
    ensures
        micros_clamped(nanos as int) * 1_000 <= nanos,
        nanos < 18_446_744_073_709_551_616_000 ==> nanos < (micros_clamped(nanos as int) + 1)
            * 1_000,
        nanos >= 18_446_744_073_709_551_615_000 ==> micros_clamped(nanos as int)
            == 18_446_744_073_709_551_615,
{
}

/// A second has a thousand milliseconds, each of a thousand microseconds, each of a thousand
/// nanoseconds; the longest span is one nanosecond short of the first second that 64 bits cannot count.
pub proof fn lemma_units_of_time()
    ensures
        NANOS_PER_MICRO == 1_000,
        NANOS_PER_MILLI == 1_000 * NANOS_PER_MICRO,
        NANOS_PER_SEC == 1_000 * NANOS_PER_MILLI,
        MAX_NANOS + 1 == 18_446_744_073_709_551_616 * NANOS_PER_SEC,
{
}

} // verus!
