//! Reading the clocks.  What a clock returns depends on when it is read, so
//! nothing here says which value comes back; the functions that use the
//! values are verified for every value.  Times are kept as signed counts of
//! nanoseconds.

use std::time::{Instant, SystemTime};
use vstd::prelude::*;

verus! {

#[verifier::external_type_specification]
#[verifier::external_body]
pub struct ExInstant(std::time::Instant);

#[verifier::external_type_specification]
#[verifier::external_body]
pub struct ExSystemTime(std::time::SystemTime);

/// The number of nanoseconds in the longest `std::time::Duration`
/// (`Duration::MAX`: `u64::MAX` seconds and 999 999 999 nanoseconds).
pub const MAX_DURATION_NANOS: u128 = 18_446_744_073_709_551_615_999_999_999;

/// Calls `std::time::Instant::now`: the current reading of the monotonic clock.
#[verifier::external_body]
pub(crate) fn instant_now() -> Instant {
    Instant::now()
}

/// Calls `std::time::Instant::elapsed` and gives the time that has passed
/// since `since` in whole nanoseconds (`Duration::as_nanos`).  The claim is
/// only that it is a duration's length, so no more than `MAX_DURATION_NANOS`.
#[verifier::external_body]
pub(crate) fn nanos_elapsed_since(since: &Instant) -> (nanos: u128)
    ensures
        nanos <= MAX_DURATION_NANOS,
{
    since.elapsed().as_nanos()
}

/// Calls `std::time::SystemTime::now`: the current reading of the wall clock.
#[verifier::external_body]
pub(crate) fn system_time_now() -> SystemTime {
    SystemTime::now()
}

/// How far `t` lies from the Unix epoch, in nanoseconds: `Ok` when it
/// follows it, `Err` when it precedes it.  What `SystemTime::duration_since`
/// answers for a given time and the fixed epoch.
pub uninterp spec fn unix_offset_of(t: SystemTime) -> Result<u128, u128>;

/// `t` as a signed count of nanoseconds from the Unix epoch: positive after
/// it, negative before it.
pub open spec fn wall_nanos(t: SystemTime) -> int {
    match unix_offset_of(t) {
        Ok(n) => n as int,
        Err(n) => -(n as int),
    }
}

/// Calls `std::time::SystemTime::duration_since(UNIX_EPOCH)`: `Ok` with the
/// nanoseconds by which `t` follows the Unix epoch, or `Err` with those by
/// which it precedes it (`SystemTimeError::duration`).  The claim is that the
/// answer depends on `t` alone (`unix_offset_of`) and that either arm is a
/// duration's length.
#[verifier::external_body]
fn unix_offset_nanos(t: &SystemTime) -> (offset: Result<u128, u128>)
    ensures
        offset == unix_offset_of(*t),
        match offset {
            Ok(n) => n <= MAX_DURATION_NANOS,
            Err(n) => n <= MAX_DURATION_NANOS,
        },
{
    match t.duration_since(SystemTime::UNIX_EPOCH) {
        Ok(d) => Ok(d.as_nanos()),
        Err(e) => Err(e.duration().as_nanos()),
    }
}

/// A signed count of nanoseconds from an offset to the Unix epoch: positive
/// after it, negative before it.
pub fn signed_nanos(offset: Result<u128, u128>) -> (nanos: i128)
    requires
        match offset {
            Ok(n) => n <= MAX_DURATION_NANOS,
            Err(n) => n <= MAX_DURATION_NANOS,
        },
    ensures
        nanos == match offset {
            Ok(n) => n as int,
            Err(n) => -(n as int),
        },
        -(MAX_DURATION_NANOS as int) <= nanos <= MAX_DURATION_NANOS,
{
    match offset {
        Ok(n) => n as i128,
        Err(n) => -(n as i128),
    }
}

/// `t` as nanoseconds from the Unix epoch.
pub fn time_nanos(t: &SystemTime) -> (nanos: i128)
    ensures
        nanos == match unix_offset_of(*t) {
            Ok(n) => n as int,
            Err(n) => -(n as int),
        },
        nanos == wall_nanos(*t),
        -(MAX_DURATION_NANOS as int) <= nanos <= MAX_DURATION_NANOS,
{
    signed_nanos(unix_offset_nanos(t))
}

/// The wall clock now, as nanoseconds from the Unix epoch: the count of the
/// time the wall clock reads.  Which time that is is the clock's;
/// `time_nanos` gives the count for any time.
pub fn now_nanos() -> (nanos: i128)
    ensures
        exists|t: SystemTime| nanos == wall_nanos(t),
        -(MAX_DURATION_NANOS as int) <= nanos <= MAX_DURATION_NANOS,
{
    let now = system_time_now();
    let nanos = time_nanos(&now);
    proof {
        assert(nanos == wall_nanos(now));
    }
    nanos
}

} // verus!
