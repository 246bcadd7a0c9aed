//! Calendar arithmetic on microsecond timestamps: the day a timestamp
//! falls in (day files are sharded by it) and the hour boundary below it
//! (rebuilt chunks start there).

use vstd::prelude::*;

verus! {

/// Microseconds in a day.
pub const MICROS_PER_DAY: i64 = 86_400_000_000;

/// Microseconds in an hour.
pub const MICROS_PER_HOUR: i64 = 3_600_000_000;

/// The day number a timestamp falls in: days since the epoch, rounded
/// toward minus infinity.
pub open spec fn spec_day_of(ts: int) -> int {
    ts / (MICROS_PER_DAY as int)
}

/// The hour boundary at or below a timestamp.
pub open spec fn spec_hour_floor(ts: int) -> int {
    ts - (ts % (MICROS_PER_HOUR as int))
}

/// Computes the day number of a timestamp; timestamps before the epoch
/// fall in negative days.
pub fn day_of(ts: i64) -> (r: i64)
    ensures
        r == spec_day_of(ts as int),
{
    if ts >= 0 {
        ts / MICROS_PER_DAY
    } else {
        let pos = -(ts + 1);
        let q = pos / MICROS_PER_DAY;
        proof {
            let d = MICROS_PER_DAY as int;
            let p = pos as int;
            assert(p == -(ts as int) - 1);
            assert(p >= 0);
            assert(p % d == p - (p / d) * d) by (nonlinear_arith)
                requires
                    p >= 0,
                    d > 0,
            ;
            assert(0 <= p - (p / d) * d < d) by (nonlinear_arith)
                requires
                    p >= 0,
                    d > 0,
            ;
            assert((ts as int) / d == -(p / d) - 1) by (nonlinear_arith)
                requires
                    d > 0,
                    p == -(ts as int) - 1,
                    0 <= p - (p / d) * d < d,
            ;
        }
        -q - 1
    }
}

/// Computes the hour boundary at or below a timestamp.
pub fn hour_floor(ts: i64) -> (r: i64)
    requires
        ts >= 0,
    ensures
        r == spec_hour_floor(ts as int),
        0 <= r <= ts,
{
    let rem = ts % MICROS_PER_HOUR;
    ts - rem
}

/// Hour boundaries are monotone.
pub proof fn lemma_hour_floor_monotone(a: int, b: int)
    requires
        0 <= a <= b,
    ensures
        spec_hour_floor(a) <= spec_hour_floor(b),
{
    let h = MICROS_PER_HOUR as int;
    assert(spec_hour_floor(a) == (a / h) * h) by {
        assert(a % h == a - (a / h) * h) by (nonlinear_arith)
            requires
                a >= 0,
                h > 0,
        ;
    }
    assert(spec_hour_floor(b) == (b / h) * h) by {
        assert(b % h == b - (b / h) * h) by (nonlinear_arith)
            requires
                b >= 0,
                h > 0,
        ;
    }
    assert(a / h <= b / h) by (nonlinear_arith)
        requires
            0 <= a <= b,
            h > 0,
    ;
    assert((a / h) * h <= (b / h) * h) by (nonlinear_arith)
        requires
            a / h <= b / h,
            h > 0,
    ;
}

} // verus!
