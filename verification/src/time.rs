//! Durations as whole numbers of nanoseconds.
use std::time::{Duration, Instant};
use vstd::prelude::*;

verus! {

/// Nanoseconds in a millisecond.
pub const NANOS_PER_MILLI: u128 = 1_000_000;

/// The length of a duration in nanoseconds, as `Duration::as_nanos` reports it.
pub uninterp spec fn duration_nanos(d: Duration) -> u128;

/// The length of a duration in whole milliseconds.
pub open spec fn duration_millis(d: Duration) -> u128 {
    duration_nanos(d) / NANOS_PER_MILLI
}

/// `Duration::as_nanos`: the total number of nanoseconds in the duration.
pub assume_specification[ Duration::as_nanos ](d: &Duration) -> (n: u128)
    ensures
        n == duration_nanos(*d),
;

/// `Duration::as_millis`: the total number of whole milliseconds in the duration, the fraction
/// cut off.
pub assume_specification[ Duration::as_millis ](d: &Duration) -> (n: u128)
    ensures
        n == duration_millis(*d),
;

/// `Duration::from_millis`: the duration of that many milliseconds.
pub assume_specification[ Duration::from_millis ](millis: u64) -> (d: Duration)
    ensures
        duration_nanos(d) == millis * NANOS_PER_MILLI,
;

/// `Duration::from_nanos`: the duration of that many nanoseconds.
pub assume_specification[ Duration::from_nanos ](nanos: u64) -> (d: Duration)
    ensures
        duration_nanos(d) == nanos,
;

/// `std::time::Instant`: a reading of the clock, carried through unread.
#[verifier::external_type_specification]
#[verifier::external_body]
pub struct ExInstant(Instant);

/// `Instant::now`: the clock as it stands. Nothing is said of what it shows.
#[verifier::external_body]
fn clock() -> (now: Instant) {
    Instant::now()
}

/// `Instant::elapsed`: the time since the reading. Nothing is said of how long that is.
#[verifier::external_body]
fn since(start: &Instant) -> (d: Duration) {
    start.elapsed()
}

/// Whether this is a reading of the clock.
pub closed spec fn is_reading(now: Instant) -> bool {
    call_ensures(clock, (), now)
}

/// Whether that much time can have passed since the reading when asked.
pub closed spec fn elapsed_since(start: Instant, d: Duration) -> bool {
    call_ensures(since, (&start,), d)
}

/// Whether that much time was measured, from one reading of the clock on.
pub open spec fn is_measured(d: Duration) -> bool {
    exists|start: Instant| #[trigger] is_reading(start) && elapsed_since(start, d)
}

/// Reads the clock.
pub(crate) fn now() -> (now: Instant)
    ensures
        is_reading(now),
{
    clock()
}

/// The time since the reading.
pub(crate) fn elapsed(start: &Instant) -> (d: Duration)
    ensures
        elapsed_since(*start, d),
{
    since(start)
}

} // verus!
