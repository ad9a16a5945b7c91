//! The wall clock.

use std::time::{Duration, SystemTime, SystemTimeError};
use vstd::prelude::*;

verus! {

/// A moment of the system's clock.
#[verifier::external_type_specification]
#[verifier::external_body]
pub struct ExSystemTime(SystemTime);

/// The complaint that a moment lies before another.
#[verifier::external_type_specification]
#[verifier::external_body]
pub struct ExSystemTimeError(SystemTimeError);

/// The span from the epoch of 1970 to a moment; none where the moment lies before it.
pub uninterp spec fn epoch_span(t: SystemTime) -> Option<Duration>;

/// The nanoseconds of a span.
pub uninterp spec fn span_nanos(d: Duration) -> nat;

/// `SystemTime::now`: the moment at which it is called. Nothing is claimed of it.
#[verifier::external_body]
fn moment() -> (r: SystemTime) {
    SystemTime::now()
}

/// `SystemTime::duration_since` with the epoch of 1970: the span to the moment, and an
/// error where the moment lies before the epoch. Which moments do is not stated.
#[verifier::external_body]
fn since_epoch(t: SystemTime) -> (r: Result<Duration, SystemTimeError>)
    ensures
        match r {
            Ok(d) => epoch_span(t) == Some(d),
            Err(_) => epoch_span(t) is None,
        },
{
    t.duration_since(SystemTime::UNIX_EPOCH)
}

/// `Duration::as_millis`: the whole milliseconds of a span; the nanoseconds that make up no
/// full millisecond are dropped.
#[verifier::external_body]
fn whole_ms(d: &Duration) -> (r: u128)
    ensures
        r == span_nanos(*d) / 1_000_000,
{
    d.as_millis()
}

/// Whole milliseconds from the epoch to a moment; none where the moment lies before it.
pub open spec fn reading(t: SystemTime) -> Option<nat> {
    match epoch_span(t) {
        Some(d) => Some(span_nanos(d) / 1_000_000),
        None => None,
    }
}

/// The number in an optional reading.
pub open spec fn opt_ms(ms: Option<u128>) -> Option<nat> {
    match ms {
        Some(ms) => Some(ms as nat),
        None => None,
    }
}

/// The lower 64 bits of a reading.
pub open spec fn low_reading(reading: Option<nat>) -> Option<u64> {
    match reading {
        Some(ms) => Some((ms % 0x1_0000_0000_0000_0000) as u64),
        None => None,
    }
}

/// Whole milliseconds from the epoch to a moment. None where the moment lies before it.
pub fn ms_at(t: SystemTime) -> (r: Option<u128>)
    ensures
        opt_ms(r) == reading(t),
{
    match since_epoch(t) {
        Ok(d) => Some(whole_ms(&d)),
        Err(_) => None,
    }
}

/// The reading of the clock: milliseconds since the epoch, at the moment of the call.
/// None where the clock stands before the epoch.
pub fn now_ms() -> (r: Option<u128>)
    ensures
        exists|t: SystemTime| opt_ms(r) == #[trigger] reading(t),
{
    ms_at(moment())
}

/// The lower 64 bits of a reading.
pub fn low_ms(reading: Option<u128>) -> (r: Option<u64>)
    ensures
        r == low_reading(opt_ms(reading)),
{
    match reading {
        Some(ms) => {
            assert(ms as u64 == ms % 0x1_0000_0000_0000_0000) by (bit_vector);
            Some(ms as u64)
        },
        None => None,
    }
}

/// The reading of the clock in 64 bits. None where the clock stands before the epoch.
pub fn now_ms_u64() -> (r: Option<u64>)
    ensures
        exists|t: SystemTime| r == low_reading(#[trigger] reading(t)),
{
    low_ms(now_ms())
}

/// A reading is the span since the epoch in milliseconds, rounded down.
pub proof fn readings_are_rounded_down(t: SystemTime)
    ensures
        match (epoch_span(t), reading(t)) {
            (Some(d), Some(ms)) => ms * 1_000_000 <= span_nanos(d) < (ms + 1) * 1_000_000,
            (None, None) => true,
            _ => false,
        },
{
}

/// A clock that stands later gives no smaller reading.
pub proof fn later_readings_are_not_smaller(t: SystemTime, u: SystemTime, d: Duration, e: Duration)
    requires
        epoch_span(t) == Some(d),
        epoch_span(u) == Some(e),
        span_nanos(d) <= span_nanos(e),
    ensures
        reading(t) is Some,
        reading(u) is Some,
        reading(t)->0 <= reading(u)->0,
{
}

/// The lower 64 bits are the reading itself where it has no more, and differ from it by
/// whole turns of two to the 64 otherwise.
pub proof fn low_readings_differ_by_whole_turns(ms: nat)
    ensures
        low_reading(Some(ms)) is Some,
        ms <= u64::MAX ==> low_reading(Some(ms))->0 == ms,
        (ms - low_reading(Some(ms))->0) % 0x1_0000_0000_0000_0000 == 0,
        low_reading(None) is None,
{
}

} // verus!
