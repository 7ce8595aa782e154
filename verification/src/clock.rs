//! The clock and the flags by which work is stopped from outside.

use vstd::prelude::*;

use std::sync::atomic::AtomicBool;
use std::time::{Duration, Instant};

verus! {

/// A point in time of the system's monotonic clock.
#[verifier::external_type_specification]
#[verifier::external_body]
pub struct ExInstant(std::time::Instant);

/// The time from one point to a later one; none where the other is not later.
pub uninterp spec fn time_since(later: Instant, earlier: Instant) -> Duration;

/// The nanoseconds of a span of time.
pub uninterp spec fn nanos_of(span: Duration) -> u128;

/// `std::time::Instant::now`: the present point in time. It depends on when the call
/// is made, so nothing is claimed of it.
pub assume_specification[ std::time::Instant::now ]() -> (now: Instant);

/// `std::time::Instant::saturating_duration_since`: the time from the other point to
/// this one, which depends on the two points alone.
pub assume_specification[ std::time::Instant::saturating_duration_since ](
    later: &Instant,
    earlier: Instant,
) -> (r: Duration)
    ensures
        r == time_since(*later, earlier),
;

/// `std::time::Duration::as_nanos`: the whole nanoseconds of a span of time, which
/// depend on the span alone.
pub assume_specification[ std::time::Duration::as_nanos ](duration: &Duration) -> (r: u128)
    ensures
        r == nanos_of(*duration),
;

/// At a look at the clock, a moment can lie this many nanoseconds back: none where it
/// is not past.
pub open spec fn may_lie_back(moment: Instant, nanos: u128) -> bool {
    exists|now: Instant|
        #![trigger call_ensures(Instant::now, (), now)]
        call_ensures(Instant::now, (), now) && nanos == nanos_of(time_since(now, moment))
}

/// How many nanoseconds a moment lies back: none where it is not past.
pub fn nanos_since(moment: &Instant) -> (r: u128)
    ensures
        may_lie_back(*moment, r),
{
    let now = Instant::now();
    let span = now.saturating_duration_since(*moment);
    span.as_nanos()
}

/// At a look at the clock, a moment can be past, or not.
pub open spec fn may_be_past(moment: Instant, past: bool) -> bool {
    exists|nanos: u128| #[trigger] may_lie_back(moment, nanos) && past == (nanos > 0)
}

/// Whether a moment is past.
pub fn is_past(moment: &Instant) -> (r: bool)
    ensures
        may_be_past(*moment, r),
{
    let nanos = nanos_since(moment);
    nanos > 0
}

/// A look at a flag can show this value.
pub open spec fn may_show(flag: &AtomicBool, value: bool) -> bool {
    call_ensures(AtomicBool::load, (flag, std::sync::atomic::Ordering::Relaxed), value)
}

/// The present value of a flag.
pub fn is_raised(flag: &AtomicBool) -> (r: bool)
    ensures
        may_show(flag, r),
{
    flag.load(std::sync::atomic::Ordering::Relaxed)
}

} // verus!
