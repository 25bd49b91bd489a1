//! The cycle clock: a relative, monotonically read timer for span
//! timestamps, and the one-shot calibration that estimates its frequency
//! by racing it against the OS clock.
//!
//! The portable timer used here is the OS monotonic clock read as a single
//! nanosecond count, so the calibrated frequency comes out close to the OS
//! clock's own rate; everything downstream treats the counter as an opaque
//! cycle count and works for any frequency.

use vstd::prelude::*;

verus! {

/// The number of nanoseconds the OS clock counts per second.
pub fn get_os_timer_freq() -> (r: u64)
    ensures
        r == 1_000_000_000u64,
{
    1_000_000_000
}

/// A `(seconds, nanoseconds)` clock reading combined into one count of
/// nanoseconds, clamped into the range of `u64`.
pub open spec fn nanos_of(sec: int, nsec: int) -> int {
    let total = sec * 1_000_000_000 + nsec;
    if total < 0 {
        0
    } else if total > u64::MAX {
        u64::MAX as int
    } else {
        total
    }
}

/// Relies on `nix::time::clock_gettime` with `ClockId::CLOCK_MONOTONIC`:
/// it returns the raw fields of the `timespec` that the OS filled, and the
/// nanoseconds field of a `timespec` lies in `[0, 1_000_000_000)` per the
/// POSIX specification that `clock_gettime` links to. Reading the
/// monotonic clock does not fail on a running Linux system; were it to
/// fail there is no fallback clock source, so the failure is fatal.
#[verifier::external_body]
fn monotonic_clock_parts() -> (r: (i64, i64))
    ensures
        0 <= r.1 < 1_000_000_000,
{
    let ts = nix::time::clock_gettime(nix::time::ClockId::CLOCK_MONOTONIC).expect(
        "read the monotonic clock",
    );
    (ts.tv_sec(), ts.tv_nsec())
}

/// Normalizes a `(seconds, nanoseconds)` clock reading to a single count
/// of nanoseconds, exactly as [`nanos_of`] prescribes: the combined count
/// clamped into the range of `u64`.
pub fn nanos_from_parts(sec: i64, nsec: i64) -> (r: u64)
    ensures
        r as int == nanos_of(sec as int, nsec as int),
{
    let total: i128 = sec as i128 * 1_000_000_000 + nsec as i128;
    if total < 0 {
        0
    } else if total > u64::MAX as i128 {
        u64::MAX
    } else {
        total as u64
    }
}

/// Reads the OS monotonic clock, normalized to a single count of
/// nanoseconds since an arbitrary epoch.
pub fn read_os_timer() -> (r: u64)
    ensures
        exists|sec: int, nsec: int|
            0 <= nsec && nsec < 1_000_000_000 && r as int == nanos_of(sec, nsec),
{
    let (sec, nsec) = monotonic_clock_parts();
    let r = nanos_from_parts(sec, nsec);
    proof {
        assert(0 <= nsec as int && (nsec as int) < 1_000_000_000 && r as int == nanos_of(
            sec as int,
            nsec as int,
        ));
        assert(exists|s: int, n: int| 0 <= n && n < 1_000_000_000 && r as int == nanos_of(s, n));
    }
    r
}

/// Reads the timer used for span timestamps: a relative, monotonically
/// increasing count, cheap enough to take on every span enter and exit.
pub fn read_cpu_timer() -> (r: u64)
    ensures
        exists|sec: int, nsec: int|
            0 <= nsec && nsec < 1_000_000_000 && r as int == nanos_of(sec, nsec),
{
    read_os_timer()
}

/// The frequency estimate for `timer_elapsed` timer ticks counted against
/// `os_elapsed` nanoseconds of OS time: the ratio scaled to ticks per
/// second, rounded to the nearest whole count (half upward), clamped into
/// `[1, u64::MAX]`.
pub open spec fn freq_estimate(timer_elapsed: int, os_elapsed: int) -> int
    recommends
        os_elapsed >= 1,
{
    let f = (1_000_000_000 * timer_elapsed + os_elapsed / 2) / os_elapsed;
    if f < 1 {
        1
    } else if f > u64::MAX {
        u64::MAX as int
    } else {
        f
    }
}

/// The frequency estimate computed from two measured deltas, exactly as
/// [`freq_estimate`] prescribes; a zero wall-clock delta divides as one.
pub fn freq_from_elapsed(timer_elapsed: u64, os_elapsed: u64) -> (r: u64)
    ensures
        r >= 1,
        r as int == freq_estimate(
            timer_elapsed as int,
            if os_elapsed == 0 {
                1int
            } else {
                os_elapsed as int
            },
        ),
{
    let divisor: u64 = if os_elapsed >= 1 {
        os_elapsed
    } else {
        1
    };
    let num: u128 = 1_000_000_000u128 * timer_elapsed as u128 + (divisor / 2) as u128;
    let f: u128 = num / divisor as u128;
    if f < 1 {
        1
    } else if f > u64::MAX as u128 {
        u64::MAX
    } else {
        f as u64
    }
}

/// Estimates the span timer's frequency by racing it against the OS clock
/// until at least `millis_to_wait` milliseconds of OS time have passed:
/// the ratio of the two measured deltas, rounded to the nearest count.
///
/// The caller computes this once per profiler start and reuses it; it must
/// never be recomputed mid-run, since a fresh estimate would not be
/// comparable against cycle counts already recorded.
pub fn estimate_timer_freq(millis_to_wait: u64) -> (r: u64)
    requires
        1 <= millis_to_wait,
        millis_to_wait * 1_000_000 <= u64::MAX,
    ensures
        r >= 1,
        exists|timer_elapsed: int, os_elapsed: int|
            0 <= timer_elapsed && 1 <= os_elapsed && r as int == freq_estimate(
                timer_elapsed,
                os_elapsed,
            ),
{
    let os_wait_time: u64 = 1_000_000 * millis_to_wait;
    let timer_start = read_cpu_timer();
    let os_start = read_os_timer();

    let mut os_elapsed: u64 = 0;
    // the poll counter only bounds the busy-wait so that it provably ends;
    // at any real poll rate the OS clock reaches the window far earlier
    let mut polls: u64 = 0;
    while os_elapsed < os_wait_time && polls < u64::MAX
        decreases u64::MAX - polls,
    {
        let os_end = read_os_timer();
        os_elapsed = if os_end >= os_start {
            os_end - os_start
        } else {
            0
        };
        polls = polls + 1;
    }

    let timer_end = read_cpu_timer();
    let timer_elapsed: u64 = if timer_end >= timer_start {
        timer_end - timer_start
    } else {
        0
    };
    let r = freq_from_elapsed(timer_elapsed, os_elapsed);
    proof {
        let oe: int = if os_elapsed == 0 {
            1int
        } else {
            os_elapsed as int
        };
        assert(0 <= timer_elapsed as int && 1 <= oe && r as int == freq_estimate(
            timer_elapsed as int,
            oe,
        ));
        assert(exists|te: int, oe2: int|
            0 <= te && 1 <= oe2 && r as int == freq_estimate(te, oe2));
    }
    r
}

/// Estimates the cycle-counter frequency: the same calibration under the
/// name the flat, non-nesting recorder uses.
pub fn estimate_cpu_freq(millis_to_wait: u64) -> (r: u64)
    requires
        1 <= millis_to_wait,
        millis_to_wait * 1_000_000 <= u64::MAX,
    ensures
        r >= 1,
        exists|timer_elapsed: int, os_elapsed: int|
            0 <= timer_elapsed && 1 <= os_elapsed && r as int == freq_estimate(
                timer_elapsed,
                os_elapsed,
            ),
{
    estimate_timer_freq(millis_to_wait)
}

} // verus!
