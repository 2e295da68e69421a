//! The comparison deadline: a point in time after which no more work is
//! admitted. Durations are held in nanoseconds.
use std::time::Instant;
use vstd::prelude::*;

verus! {

/// How long a whole comparison may take.
pub const COMPARISON_DEADLINE_MS: u64 = 4400;

/// When the watchdog gives up on a comparison, leaving room for the report.
pub const WATCHDOG_MS: u64 = 4800;

#[verifier::external_type_specification]
#[verifier::external_body]
pub struct ExInstant(std::time::Instant);

/// The current moment, from `Instant::now`. Nothing is stated of it: it is
/// whatever the clock reads.
#[verifier::external_body]
fn now() -> Instant {
    Instant::now()
}

/// `Instant::saturating_duration_since`: the span from `earlier` to
/// `later`, zero when `earlier` is the later one. Moments are opaque, so
/// nothing is stated of it.
#[verifier::external_body]
fn span_since(later: Instant, earlier: Instant) -> std::time::Duration {
    later.saturating_duration_since(earlier)
}

/// `Duration::as_nanos`: a span in nanoseconds. The span is opaque, so
/// nothing is stated of it.
#[verifier::external_body]
fn nanos(span: std::time::Duration) -> u128 {
    span.as_nanos()
}

/// The nanoseconds since a moment, zero if it is still ahead.
fn nanos_since(moment: Instant) -> u128 {
    nanos(span_since(now(), moment))
}

/// Why no more work is admitted.
#[derive(Clone, Copy, Debug, PartialEq, Eq, Structural)]
pub enum DeadlineError {
    Expired,
}

impl DeadlineError {
    pub fn message(&self) -> (r: &'static str)
        ensures
            r@ == "comparison deadline expired"@,
    {
        "comparison deadline expired"
    }
}

/// A span of time, from the moment it was set, after which a comparison
/// admits no more work.
#[derive(Clone, Copy, Debug)]
pub struct Deadline {
    start: Instant,
    budget_ns: u128,
}

/// What is left of a deadline, given the time until it: an error once none
/// is.
pub fn remaining_of(left: u128) -> (r: Result<u128, DeadlineError>)
    ensures
        left == 0 ==> r == Err::<u128, DeadlineError>(DeadlineError::Expired),
        left > 0 ==> r == Ok::<u128, DeadlineError>(left),
{
    if left == 0 {
        Err(DeadlineError::Expired)
    } else {
        Ok(left)
    }
}

/// Whether a unit of work of the estimated cost fits in the time left.
pub fn admits_of(left: u128, estimate: u128) -> (r: bool)
    ensures
        r == (left > estimate),
{
    match remaining_of(left) {
        Ok(rest) => rest > estimate,
        Err(_) => false,
    }
}

impl Deadline {
    /// A deadline the given number of milliseconds from now.
    pub fn new(milliseconds: u64) -> (r: Deadline)
        ensures
            r.budget_ns() == milliseconds as u128 * 1_000_000,
    {
        Deadline { start: now(), budget_ns: milliseconds as u128 * 1_000_000 }
    }

    /// The nanoseconds left before the deadline, or an error once it has
    /// passed. What is left never exceeds the deadline's span, and a
    /// deadline of no time at all has already passed.
    pub fn remaining(self) -> (r: Result<u128, DeadlineError>)
        ensures
            match r {
                Ok(n) => 0 < n <= self.budget_ns(),
                Err(e) => e == DeadlineError::Expired,
            },
            self.budget_ns() == 0 ==> r == Err::<u128, DeadlineError>(DeadlineError::Expired),
    {
        remaining_of(left_of(self.budget_ns, nanos_since(self.start)))
    }

    /// Whether another unit of work of the estimated cost, in nanoseconds,
    /// still fits: asked before each unit, this bounds elapsed time. Work
    /// that costs the deadline's whole span never fits.
    pub fn admits(self, estimate: u128) -> (r: bool)
        ensures
            r ==> estimate < self.budget_ns(),
    {
        admits_of(left_of(self.budget_ns, nanos_since(self.start)), estimate)
    }

    /// The deadline's span, in nanoseconds from the moment it was set.
    pub closed spec fn budget_ns(self) -> u128 {
        self.budget_ns
    }
}

/// What is left of a span once some of it has elapsed; nothing once all
/// of it has.
pub fn left_of(budget: u128, elapsed: u128) -> (r: u128)
    ensures
        r == if elapsed >= budget { 0 } else { budget - elapsed },
{
    if elapsed >= budget {
        0
    } else {
        budget - elapsed
    }
}

} // verus!
