//! The clock: whole milliseconds on the monotonic clock since a starting
//! point. What a clock shows is not known before it is read, so no contract
//! here says what it returns: the functions that take a time are proved for
//! every time.

use std::time::{Duration, Instant};
use vstd::prelude::*;

verus! {

/// `std::time::Instant`, a point on the monotonic clock, taken as opaque.
#[verifier::external_type_specification]
#[verifier::external_body]
pub struct ExInstant(std::time::Instant);

/// `Instant::now`: the present point on the monotonic clock. Nothing is
/// claimed of it.
#[verifier::external_body]
fn instant_now() -> Instant {
    Instant::now()
}

/// `Instant::elapsed`: the time from `origin` to the present. Nothing is
/// claimed of it.
#[verifier::external_body]
fn elapsed_since(origin: &Instant) -> Duration {
    origin.elapsed()
}

/// `Duration::as_millis`: the whole milliseconds in a duration. Nothing is
/// claimed of them.
#[verifier::external_body]
fn whole_millis(duration: &Duration) -> u128 {
    duration.as_millis()
}

/// A clock that counts milliseconds from the moment it was started.
pub struct Clock {
    origin: Instant,
}

impl Clock {
    /// A clock that starts now.
    pub fn start() -> Clock {
        Clock { origin: instant_now() }
    }

    /// The milliseconds since the clock was started. A count that does not
    /// fit is given as `u64::MAX`.
    pub fn now(&self) -> u64 {
        let elapsed = elapsed_since(&self.origin);
        let millis = whole_millis(&elapsed);
        saturate(millis)
    }
}

/// A count of milliseconds as a `u64`: the count itself where it fits, else
/// `u64::MAX`.
pub fn saturate(millis: u128) -> (now: u64)
    ensures
        millis <= u64::MAX ==> now == millis,
        millis > u64::MAX ==> now == u64::MAX,
{
    if millis > u64::MAX as u128 {
        u64::MAX
    } else {
        millis as u64
    }
}

} // verus!
