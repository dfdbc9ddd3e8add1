//! Wall-clock timestamps.

use vstd::prelude::*;

verus! {

/// The number of values that a `u64` can hold.
pub const U64_VALUES: u128 = 0x1_0000_0000_0000_0000;

/// Reads the system clock with `std::time::SystemTime::elapsed`, called on the Unix epoch, and
/// takes the duration apart into whole seconds and the nanoseconds of the last second.
///
/// Claimed of a reading: its nanoseconds make less than a second. A clock that stands before
/// the epoch gives `None`. Which time it is, is left open.
#[verifier::external_body]
fn since_unix_epoch() -> (r: Option<(u64, u32)>)
    ensures
        r matches Some(t) ==> t.1 < 1_000_000_000,
{
    match std::time::UNIX_EPOCH.elapsed() {
        Ok(elapsed) => Some((elapsed.as_secs(), elapsed.subsec_nanos())),
        Err(_) => None,
    }
}

/// A duration in nanoseconds, modulo the range of a `u64`.
pub fn duration_nanos(secs: u64, subsec_nanos: u32) -> (r: u64)
    ensures
        r == (secs * 1_000_000_000 + subsec_nanos) % (U64_VALUES as int),
{
    let nanos: u128 = secs as u128 * 1_000_000_000 + subsec_nanos as u128;
    (nanos % U64_VALUES) as u64
}

/// A duration in whole milliseconds, modulo the range of a `u64`.
pub fn duration_millis(secs: u64, subsec_nanos: u32) -> (r: u64)
    ensures
        r == (secs * 1_000 + subsec_nanos / 1_000_000) % (U64_VALUES as int),
{
    let millis: u128 = secs as u128 * 1_000 + (subsec_nanos / 1_000_000) as u128;
    (millis % U64_VALUES) as u64
}

/// Nanoseconds since the Unix epoch; 0 while the clock stands before it.
pub(crate) fn now_nanos() -> u64 {
    // Which reading comes is left open, so nothing is claimed of the result; `nanos_at` says
    // what each reading gives.
    let reading = since_unix_epoch();
    nanos_at(reading)
}

/// Milliseconds since the Unix epoch; 0 while the clock stands before it.
pub(crate) fn now_millis() -> u64 {
    // Which reading comes is left open, so nothing is claimed of the result; `millis_at` says
    // what each reading gives.
    let reading = since_unix_epoch();
    millis_at(reading)
}

/// The nanoseconds that a reading of the clock stands for; 0 for a clock before the epoch.
pub fn nanos_at(reading: Option<(u64, u32)>) -> (r: u64)
    ensures
        r == (match reading {
            Some((secs, subsec_nanos)) => (secs * 1_000_000_000 + subsec_nanos) % (
            U64_VALUES as int),
            None => 0,
        }),
{
    match reading {
        Some((secs, subsec_nanos)) => duration_nanos(secs, subsec_nanos),
        None => 0,
    }
}

/// The whole milliseconds that a reading of the clock stands for; 0 for a clock before the epoch.
pub fn millis_at(reading: Option<(u64, u32)>) -> (r: u64)
    ensures
        r == (match reading {
            Some((secs, subsec_nanos)) => (secs * 1_000 + subsec_nanos / 1_000_000) % (
            U64_VALUES as int),
            None => 0,
        }),
{
    match reading {
        Some((secs, subsec_nanos)) => duration_millis(secs, subsec_nanos),
        None => 0,
    }
}

} // verus!
