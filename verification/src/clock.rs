//! A monotonic clock in milliseconds.
use std::time::Instant;
use vstd::prelude::*;

verus! {

/// The latest time that the clock shows; it leaves room for any interval the library adds to it.
pub const CLOCK_MAX: u64 = 9_223_372_036_854_775_807;

/// `std::time::Instant`, a point in monotonic time.
#[verifier::external_type_specification]
#[verifier::external_body]
pub struct ExInstant(Instant);

/// `std::time::Instant::now`. Nothing is claimed of the point in time.
#[verifier::external_body]
fn instant_now() -> (r: Instant) {
    Instant::now()
}

/// `std::time::Instant::elapsed`, in milliseconds. Nothing is claimed of how long that is.
#[verifier::external_body]
fn millis_since(base: &Instant) -> (r: u64) {
    base.elapsed().as_millis() as u64
}

/// A clock that counts from its start.
pub struct Clock {
    base: Instant,
}

impl Clock {
    /// A clock that starts now.
    pub fn start() -> (r: Clock) {
        Clock { base: instant_now() }
    }

    /// The milliseconds since the start; past `CLOCK_MAX` the clock stands still.
    pub fn now(&self) -> (r: u64)
        ensures
            r <= CLOCK_MAX,
    {
        let t: u64 = millis_since(&self.base);
        if t <= CLOCK_MAX {
            t
        } else {
            CLOCK_MAX
        }
    }
}

} // verus!
