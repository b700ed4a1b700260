//! Conversions between the system clock's time points and the catalogue's
//! nanosecond timestamps.

use crate::dblayer::DbTime;
use std::time::{Duration, SystemTime};
use vstd::prelude::*;

verus! {

/// `std::time::SystemTime`, carried through opaquely.
#[verifier::external_type_specification]
#[verifier::external_body]
pub struct ExSystemTime(SystemTime);

/// Relies on `Duration::as_secs`: the whole seconds of a duration (nothing is
/// assumed of the value).
pub assume_specification[ Duration::as_secs ](d: &Duration) -> u64;

/// Relies on `Duration::subsec_nanos`, whose documentation says that the
/// fractional part of a second it returns is always below one billion.
pub assume_specification[ Duration::subsec_nanos ](d: &Duration) -> (r: u32)
    ensures
        r < 1_000_000_000,
;

/// Relies on `Duration::from_nanos`: a duration of `nanos` nanoseconds
/// (nothing is assumed of the value).
pub assume_specification[ Duration::from_nanos ](nanos: u64) -> Duration;

/// Relies on `SystemTime::duration_since`: the time elapsed since the Unix
/// epoch, or nothing for a time point before it.
#[verifier::external_body]
fn since_epoch(t: &SystemTime) -> (r: Option<Duration>) {
    t.duration_since(std::time::UNIX_EPOCH).ok()
}

/// Relies on `SystemTime::checked_add`: the epoch moved on by `d`, or nothing
/// when the clock's type cannot hold the result.
#[verifier::external_body]
fn epoch_plus(d: Duration) -> (r: Option<SystemTime>) {
    std::time::UNIX_EPOCH.checked_add(d)
}

pub open spec fn nanos_of(secs: u64, nanos: u32) -> int {
    secs as int * 1_000_000_000 + nanos as int
}

/// A timestamp from whole seconds and nanoseconds since the epoch, when it
/// fits in `DbTime`.
pub fn dbtime_from_parts(secs: u64, nanos: u32) -> (r: Option<DbTime>)
    requires
        nanos < 1_000_000_000,
    ensures
        r == if nanos_of(secs, nanos) <= i64::MAX {
            Some(nanos_of(secs, nanos) as DbTime)
        } else {
            None::<DbTime>
        },
{
    if secs > 9_223_372_036 {
        // 9_223_372_037 seconds already exceed i64::MAX nanoseconds.
        proof {
            assert(secs as int * 1_000_000_000 >= 9_223_372_037 * 1_000_000_000) by (nonlinear_arith)
                requires
                    secs >= 9_223_372_037,
            ;
        }
        return None;
    }
    proof {
        assert(secs as int * 1_000_000_000 <= 9_223_372_036 * 1_000_000_000) by (nonlinear_arith)
            requires
                secs <= 9_223_372_036,
        ;
    }
    let total: u64 = secs * 1_000_000_000 + nanos as u64;
    if total > i64::MAX as u64 {
        None
    } else {
        Some(total as i64)
    }
}

/// The catalogue timestamp of a time point: nothing before the epoch or
/// beyond what `DbTime` holds.
pub fn dbtime_from_sys(systime: SystemTime) -> (r: Option<DbTime>)
    ensures
        r.is_some() ==> r.unwrap() >= 0,
{
    match since_epoch(&systime) {
        Some(d) => dbtime_from_parts(d.as_secs(), d.subsec_nanos()),
        None => None,
    }
}

/// The time point of a non-negative catalogue timestamp.
pub fn systime_from_db(dbtime: DbTime) -> (r: Option<SystemTime>)
    requires
        dbtime >= 0,
{
    epoch_plus(Duration::from_nanos(dbtime as u64))
}

} // verus!
