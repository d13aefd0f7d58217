use vstd::prelude::*;

verus! {

#[verifier::external_type_specification]
#[verifier::external_body]
pub struct ExInstant(std::time::Instant);

/// Relies on std::time::Instant::now: an opaque reading of the monotonic
/// clock.  Nothing is promised of the value.
#[verifier::external_body]
fn instant_now() -> std::time::Instant {
    std::time::Instant::now()
}

/// Relies on std::time::Instant::elapsed: the time since the instant, as a
/// Duration.  The value depends on the clock, so nothing is promised of it.
#[verifier::external_body]
fn instant_elapsed(start: &std::time::Instant) -> std::time::Duration {
    start.elapsed()
}

/// Relies on core::time::Duration::as_millis: the duration in whole
/// milliseconds.
#[verifier::external_body]
fn duration_as_millis(d: &std::time::Duration) -> u128 {
    d.as_millis()
}

/// Wall-clock stopwatch with a millisecond threshold, polled by the
/// time-bounded strategies.
pub struct TimeKeeper {
    pub start: std::time::Instant,
    pub threshold_ms: u64,
}

impl TimeKeeper {
    /// Captures the clock now; `isTimeOver` compares against it later.
    pub fn new(threshold_ms: u64) -> (r: TimeKeeper)
        ensures
            r.threshold_ms == threshold_ms,
    {
        TimeKeeper { start: instant_now(), threshold_ms }
    }

    /// Whether at least `threshold_ms` milliseconds have passed since `new`.
    /// The clock decides the answer, so no value is promised.
    pub fn isTimeOver(&self) -> bool {
        let d = instant_elapsed(&self.start);
        let ms = duration_as_millis(&d);
        ms >= self.threshold_ms as u128
    }
}

} // verus!
