//! Wall-clock time in milliseconds, read through the `time` crate.

use vstd::prelude::*;

verus! {

/// Relies on time::get_time: the current time as seconds and nanoseconds since
/// the epoch; `Timespec::new`, through which it is built, asserts that the
/// nanoseconds lie in `0..1_000_000_000`.
#[verifier::external_body]
fn get_time() -> (r: (i64, i32))
    ensures
        0 <= r.1 < 1_000_000_000,
{
    let t = time::get_time();
    (t.sec, t.nsec)
}

/// Milliseconds of a time given as seconds and nanoseconds, clamped to the range
/// of `i64`.
pub open spec fn millis_of(sec: i64, nsec: i32) -> int {
    let ms = sec * 1000 + nsec / 1_000_000;
    if ms > i64::MAX {
        i64::MAX as int
    } else if ms < i64::MIN {
        i64::MIN as int
    } else {
        ms
    }
}

/// Converts seconds and nanoseconds to milliseconds.
pub fn to_millis(sec: i64, nsec: i32) -> (r: i64)
    requires
        0 <= nsec < 1_000_000_000,
    ensures
        r == millis_of(sec, nsec),
{
    let ms: i128 = sec as i128 * 1000 + (nsec / 1_000_000) as i128;
    if ms > i64::MAX as i128 {
        i64::MAX
    } else if ms < i64::MIN as i128 {
        i64::MIN
    } else {
        ms as i64
    }
}

/// The current wall-clock time in milliseconds since the epoch.
pub fn now_millis() -> i64 {
    let (sec, nsec) = get_time();
    to_millis(sec, nsec)
}

} // verus!
