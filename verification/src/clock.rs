//! A pluggable monotonic clock, read in nanoseconds since an arbitrary fixed
//! epoch, so that time-dependent logic takes time as a plain value.

use std::time::{Duration, Instant};

use vstd::prelude::*;

verus! {

/// Nanoseconds in the largest `std::time::Duration` (`u64::MAX` seconds
/// and 999 999 999 nanoseconds).
pub const MAX_DURATION_NANOS: u128 = 18_446_744_073_709_551_615_999_999_999;

#[verifier::external_type_specification]
#[verifier::external_body]
pub struct ExInstant(Instant);

/// Calls `Instant::now`. Nothing is stated of the reading.
#[verifier::external_body]
fn instant_now() -> Instant {
    Instant::now()
}

/// Calls `Instant::elapsed`. Nothing is stated of the reading.
#[verifier::external_body]
fn elapsed_since(epoch: &Instant) -> Duration {
    epoch.elapsed()
}

/// Calls `Duration::as_nanos`: the whole duration in nanoseconds, which for
/// any `Duration` (at most `u64::MAX` seconds and 999 999 999 nanoseconds)
/// is at most [`MAX_DURATION_NANOS`].
#[verifier::external_body]
pub(crate) fn duration_nanos(d: &Duration) -> (n: u128)
    ensures
        n <= MAX_DURATION_NANOS,
{
    d.as_nanos()
}

/// A source of monotonic elapsed time.
pub trait Clock {
    /// Nanoseconds elapsed since an arbitrary fixed epoch.
    fn now(&self) -> u128;
}

/// A real clock backed by `std::time::Instant`.
#[derive(Debug, Clone, Copy)]
pub struct SystemClock {
    epoch: Instant,
}

impl SystemClock {
    /// Creates a system clock whose epoch is the moment of creation.
    pub fn new() -> SystemClock {
        SystemClock { epoch: instant_now() }
    }
}

impl Default for SystemClock {
    /// A system clock whose epoch is the moment of creation.
    fn default() -> SystemClock {
        SystemClock::new()
    }
}

impl Clock for SystemClock {
    /// Nanoseconds elapsed since the clock was created: a `Duration` read in
    /// nanoseconds, so at most [`MAX_DURATION_NANOS`].
    fn now(&self) -> (r: u128)
        ensures
            r <= MAX_DURATION_NANOS,
    {
        duration_nanos(&elapsed_since(&self.epoch))
    }
}

} // verus!
