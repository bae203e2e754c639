//! A timer that answers `true` at most once per period.
use vstd::prelude::*;
use std::time::Instant;

verus! {

#[verifier::external_type_specification]
#[verifier::external_body]
pub struct ExInstant(std::time::Instant);

/// Relies on `Instant::now`: a reading of the monotonic clock.
#[verifier::external_body]
fn clock_now() -> Instant {
    Instant::now()
}

/// Relies on `Instant::elapsed` and `Duration::as_millis`: milliseconds since `t0`.
#[verifier::external_body]
fn millis_since(t0: &Instant) -> u128 {
    t0.elapsed().as_millis()
}

/// Answers `true` when more than a period has passed since it last did (or since it
/// was made), and then starts a new period.
pub struct Once {
    t0: Instant,
    period_millis: u64,
}

impl Once {
    /// The period, in milliseconds.
    pub closed spec fn period(&self) -> nat {
        self.period_millis as nat
    }

    /// A timer with a period of `period_millis` milliseconds, starting now.
    pub fn new(period_millis: u64) -> (r: Once)
        ensures
            r.period() == period_millis,
    {
        Once { t0: clock_now(), period_millis }
    }

    /// Whether `elapsed_millis` since the start of the period exceeds the period.
    pub fn is_due(&self, elapsed_millis: u128) -> (r: bool)
        ensures
            r == (elapsed_millis > self.period()),
    {
        elapsed_millis > self.period_millis as u128
    }

    /// `true` when more than a period has passed since the period began; a new period
    /// then begins now. When `false`, nothing changes.
    pub fn once(&mut self) -> (r: bool)
        ensures
            final(self).period() == old(self).period(),
            !r ==> *final(self) == *old(self),
    {
        let elapsed = millis_since(&self.t0);
        if self.is_due(elapsed) {
            self.t0 = clock_now();
            true
        } else {
            false
        }
    }
}

} // verus!
