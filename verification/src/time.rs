//! Instants and durations.

use vstd::prelude::*;

verus! {

/// The resolution a timestamp counts in.
#[derive(Debug, Clone, Copy, PartialEq, Eq, Structural)]
pub enum Precision {
    Seconds,
    Milliseconds,
    Microseconds,
    Nanoseconds,
}

impl Precision {
    /// How many ticks make one second.
    pub open spec fn ticks(self) -> int {
        match self {
            Precision::Seconds => 1,
            Precision::Milliseconds => 1_000,
            Precision::Microseconds => 1_000_000,
            Precision::Nanoseconds => 1_000_000_000,
        }
    }

    /// How many nanoseconds one tick lasts.
    pub open spec fn nanos(self) -> int {
        match self {
            Precision::Seconds => 1_000_000_000,
            Precision::Milliseconds => 1_000_000,
            Precision::Microseconds => 1_000,
            Precision::Nanoseconds => 1,
        }
    }

    fn nanos_per_tick(self) -> (r: i128)
        ensures
            r == self.nanos(),
            r == 1 || r == 1_000 || r == 1_000_000 || r == 1_000_000_000,
    {
        match self {
            Precision::Seconds => 1_000_000_000,
            Precision::Milliseconds => 1_000_000,
            Precision::Microseconds => 1_000,
            Precision::Nanoseconds => 1,
        }
    }

    /// How many ticks make one second.
    pub fn ticks_per_second(self) -> (r: i128)
        ensures
            r == self.ticks(),
    {
        match self {
            Precision::Seconds => 1,
            Precision::Milliseconds => 1_000,
            Precision::Microseconds => 1_000_000,
            Precision::Nanoseconds => 1_000_000_000,
        }
    }
}

/// A point in time, as a number of ticks of its precision.
#[derive(Debug, Clone, Copy, PartialEq, Eq, Structural)]
pub struct Timestamp {
    pub count: i128,
    pub precision: Precision,
}

/// An elapsed time in nanoseconds.
#[derive(Debug, Clone, Copy, PartialEq, Eq, Structural)]
pub struct Duration {
    pub nanos: i128,
}

impl Timestamp {
    /// The instant, in nanoseconds.
    pub open spec fn instant(self) -> int {
        self.count * self.precision.nanos()
    }

    /// Whether this instant is before another one.
    pub fn earlier_than(self, other: Timestamp) -> (r: bool)
        ensures
            r == (self.instant() < other.instant()),
    {
        let f: i128 = self.precision.nanos_per_tick();
        let g: i128 = other.precision.nanos_per_tick();
        if f >= g {
            let k: i128 = ratio(f, g);
            proof {
                lemma_scale(self.count as int, other.count as int, f as int, g as int, k as int);
            }
            match self.count.checked_mul(k) {
                Some(scaled) => scaled < other.count,
                None => {
                    proof {
                        lemma_product_sign(self.count as int, k as int);
                    }
                    self.count < 0
                },
            }
        } else {
            let k: i128 = ratio(g, f);
            proof {
                lemma_scale(other.count as int, self.count as int, g as int, f as int, k as int);
            }
            match other.count.checked_mul(k) {
                Some(scaled) => self.count < scaled,
                None => {
                    proof {
                        lemma_product_sign(other.count as int, k as int);
                    }
                    other.count >= 0
                },
            }
        }
    }
}

fn ratio(f: i128, g: i128) -> (k: i128)
    requires
        f == 1 || f == 1_000 || f == 1_000_000 || f == 1_000_000_000,
        g == 1 || g == 1_000 || g == 1_000_000 || g == 1_000_000_000,
        f >= g,
    ensures
        k > 0,
        f == k * g,
{
    if f == g {
        1
    } else if f == 1_000 * g {
        1_000
    } else if f == 1_000_000 * g {
        1_000_000
    } else {
        1_000_000_000
    }
}

proof fn lemma_scale(a: int, b: int, f: int, g: int, k: int)
    requires
        g > 0,
        k > 0,
        f == k * g,
    ensures
        a * f < b * g <==> a * k < b,
        b * g < a * f <==> b < a * k,
{
    assert(a * f == (a * k) * g) by (nonlinear_arith)
        requires
            f == k * g,
    ;
    let x = a * k;
    assert(x * g < b * g <==> x < b) by (nonlinear_arith)
        requires
            g > 0,
    ;
    assert(b * g < x * g <==> b < x) by (nonlinear_arith)
        requires
            g > 0,
    ;
}

proof fn lemma_product_sign(a: int, k: int)
    requires
        k > 0,
    ensures
        a < 0 ==> a * k < 0,
        a >= 0 ==> a * k >= 0,
{
    assert(a < 0 ==> a * k < 0) by (nonlinear_arith)
        requires
            k > 0,
    ;
    assert(a >= 0 ==> a * k >= 0) by (nonlinear_arith)
        requires
            k > 0,
    ;
}

/// An integer pulled into the range of a tick count.
pub open spec fn clamped(n: int) -> int {
    if n > i128::MAX {
        i128::MAX as int
    } else if n < i128::MIN {
        i128::MIN as int
    } else {
        n
    }
}

/// Division that drops the fractional part.
pub open spec fn truncated(n: int, d: int) -> int {
    if n >= 0 {
        n / d
    } else {
        -((-n) / d)
    }
}

/// The number of ticks of a precision in a duration.
pub open spec fn ticks(duration: Duration, precision: Precision) -> int {
    truncated(clamped(duration.nanos * precision.ticks()), 1_000_000_000)
}

fn saturating_sum(a: i128, b: i128) -> (r: i128)
    ensures
        r == clamped(a + b),
{
    if b > 0 && a > i128::MAX - b {
        i128::MAX
    } else if b < 0 && a < i128::MIN - b {
        i128::MIN
    } else {
        a + b
    }
}

/// The number of ticks of a precision in a duration.
pub fn ticks_of(duration: Duration, precision: Precision) -> (r: i128)
    ensures
        r == ticks(duration, precision),
{
    let t: i128 = precision.ticks_per_second();
    let total: i128 = match duration.nanos.checked_mul(t) {
        Some(n) => n,
        None => {
            proof {
                lemma_product_sign(duration.nanos as int, t as int);
            }
            if duration.nanos < 0 {
                i128::MIN
            } else {
                i128::MAX
            }
        },
    };
    if total >= 0 {
        total / 1_000_000_000
    } else if total == i128::MIN {
        -170141183460469231731687303715i128
    } else {
        -((-total) / 1_000_000_000)
    }
}

/// A timestamp moved by a number of ticks, within the range of its count.
pub open spec fn shifted(timestamp: Timestamp, ticks: int) -> Timestamp {
    Timestamp { count: clamped(timestamp.count + ticks) as i128, precision: timestamp.precision }
}

fn shift(timestamp: Timestamp, ticks: i128) -> (r: Timestamp)
    ensures
        r == shifted(timestamp, ticks as int),
{
    Timestamp { count: saturating_sum(timestamp.count, ticks), precision: timestamp.precision }
}

/// Add an elapsed duration to a timestamp, keeping its precision.
pub fn instant_add(timestamp: Timestamp, duration: Duration) -> (r: Timestamp)
    ensures
        r == shifted(timestamp, ticks(duration, timestamp.precision)),
{
    shift(timestamp, ticks_of(duration, timestamp.precision))
}

/// Subtract an elapsed duration from a timestamp, keeping its precision.
pub fn sub_duration(timestamp: Timestamp, duration: Duration) -> (r: Timestamp)
    ensures
        r == shifted(timestamp, -ticks(duration, timestamp.precision)),
{
    let t: i128 = ticks_of(duration, timestamp.precision);
    proof {
        lemma_ticks_small(duration, timestamp.precision);
    }
    shift(timestamp, -t)
}

proof fn lemma_ticks_small(duration: Duration, precision: Precision)
    ensures
        i128::MIN < ticks(duration, precision) <= i128::MAX,
{
    let n = clamped(duration.nanos * precision.ticks());
    assert(i128::MIN < truncated(n, 1_000_000_000) <= i128::MAX);
}

} // verus!
