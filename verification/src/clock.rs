//! The wall clock, read through std's `SystemTime`.

use vstd::prelude::*;
use std::time::{Duration, SystemTime};

verus! {

#[verifier::external_type_specification]
#[verifier::external_body]
pub struct ExSystemTime(SystemTime);

/// std's `SystemTime::now()`: the system clock's reading. It depends on the
/// machine and the moment, so nothing is claimed of it.
#[verifier::external_body]
fn system_now() -> (t: SystemTime) {
    SystemTime::now()
}

/// std's `SystemTime::duration_since(UNIX_EPOCH)`: how long after the epoch
/// `t` lies, or `None` (std's error) when `t` lies before it. Nothing is
/// claimed of the duration, as `SystemTime` is opaque here.
#[verifier::external_body]
fn duration_after_epoch(t: &SystemTime) -> (d: Option<Duration>) {
    match t.duration_since(std::time::UNIX_EPOCH) {
        Ok(d) => Some(d),
        Err(_) => None,
    }
}

/// std's `SystemTime::duration_since` called on `UNIX_EPOCH`: how long before
/// the epoch `t` lies, or `None` (std's error) when `t` lies after it.
/// Nothing is claimed of the duration, as `SystemTime` is opaque here.
#[verifier::external_body]
fn duration_before_epoch(t: &SystemTime) -> (d: Option<Duration>) {
    match std::time::UNIX_EPOCH.duration_since(*t) {
        Ok(d) => Some(d),
        Err(_) => None,
    }
}

/// std's `Duration::as_secs`: the whole seconds of `d`. `Duration` is opaque
/// here, so nothing is claimed of the count.
#[verifier::external_body]
fn whole_seconds(d: &Duration) -> (s: u64) {
    d.as_secs()
}

/// std's `Duration::subsec_nanos`: the nanoseconds of `d` past its whole
/// seconds, which std documents as less than one billion.
#[verifier::external_body]
fn subsecond_nanos(d: &Duration) -> (n: u32)
    ensures
        n < 1_000_000_000,
{
    d.subsec_nanos()
}

/// The count of nanoseconds in `secs` seconds and `nanos` nanoseconds, held at
/// `i64::MAX` when it does not fit.
fn nanos_in(secs: u64, nanos: u32) -> (t: i64)
    requires
        nanos < 1_000_000_000,
    ensures
        t == if secs * 1_000_000_000 + nanos <= i64::MAX {
            secs * 1_000_000_000 + nanos
        } else {
            i64::MAX as int
        },
{
    let total: u128 = secs as u128 * 1_000_000_000 + nanos as u128;
    if total <= i64::MAX as u128 {
        total as i64
    } else {
        i64::MAX
    }
}

/// The current time in nanoseconds since the Unix epoch, negative before it.
/// A reading beyond what `i64` nanoseconds count (past the years 1677 and
/// 2262) is held at the nearest end of that range. Reading the clock never
/// fails: a clock that is neither after nor before the epoch reads 0.
pub(crate) fn now_nanos() -> (t: i64) {
    let now = system_now();
    match duration_after_epoch(&now) {
        Some(d) => nanos_in(whole_seconds(&d), subsecond_nanos(&d)),
        None => match duration_before_epoch(&now) {
            Some(d) => {
                let v = nanos_in(whole_seconds(&d), subsecond_nanos(&d));
                -v
            },
            None => 0,
        },
    }
}

} // verus!
