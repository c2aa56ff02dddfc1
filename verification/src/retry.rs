//! Bounded retry with exponential backoff and equal jitter.
//!
//! Durations are nanosecond counts; a valid duration is at most
//! [`MAX_DURATION_NANOS`], the largest `std::time::Duration`.

use std::time::{Duration, SystemTime};

use vstd::arithmetic::power2::*;
use vstd::prelude::*;

verus! {

pub use crate::clock::MAX_DURATION_NANOS;

/// Policy controlling retry attempts and backoff growth.
#[derive(Debug, Clone, Copy, PartialEq, Eq, Structural)]
pub struct RetryPolicy {
    /// Maximum number of attempts (including the first).
    pub max_attempts: u32,
    /// Base delay, in nanoseconds, for the first backoff.
    pub base_delay_nanos: u128,
    /// Maximum delay, in nanoseconds, any single backoff may reach.
    pub max_delay_nanos: u128,
}

impl Default for RetryPolicy {
    /// Three attempts, 50 ms base delay, 5 s cap.
    fn default() -> (p: RetryPolicy)
        ensures
            p.max_attempts == 3,
            p.base_delay_nanos == 50_000_000,
            p.max_delay_nanos == 5_000_000_000,
    {
        RetryPolicy { max_attempts: 3, base_delay_nanos: 50_000_000, max_delay_nanos: 5_000_000_000 }
    }
}

/// `2^n` for `n < 32`, and `u32::MAX` beyond (`2u32.saturating_pow(n)`).
pub open spec fn growth(n: u32) -> int {
    if n >= 32 {
        u32::MAX as int
    } else {
        pow2(n as nat) as int
    }
}

/// The un-jittered delay before retry number `attempt` (zero-based): the
/// base delay times `growth(attempt)`, saturated at the largest duration,
/// then capped at the policy's maximum.
pub open spec fn capped_delay(p: RetryPolicy, attempt: u32) -> int {
    let exp = p.base_delay_nanos * growth(attempt);
    let sat = if exp > MAX_DURATION_NANOS { MAX_DURATION_NANOS as int } else { exp };
    if sat <= p.max_delay_nanos { sat } else { p.max_delay_nanos as int }
}

/// Half the capped delay (the fixed part of equal jitter).
pub open spec fn half_delay(p: RetryPolicy, attempt: u32) -> int {
    capped_delay(p, attempt) / 2
}

/// The modulus of the jitter: `max(half, 1)` truncated to 64 bits.
pub open spec fn jitter_span(p: RetryPolicy, attempt: u32) -> int {
    let h = half_delay(p, attempt);
    (if h >= 1 { h } else { 1 }) % 0x1_0000_0000_0000_0000
}

/// The backoff for `attempt` when the clock's sub-second reading is `nanos`:
/// half the capped delay plus `nanos` reduced modulo the jitter span.
pub open spec fn jittered_delay(p: RetryPolicy, attempt: u32, nanos: u32) -> int {
    half_delay(p, attempt) + (nanos as int) % jitter_span(p, attempt)
}

/// The policy's delays are valid durations.
pub open spec fn valid_policy(p: RetryPolicy) -> bool {
    p.base_delay_nanos <= MAX_DURATION_NANOS && p.max_delay_nanos <= MAX_DURATION_NANOS
}

#[verifier::external_type_specification]
#[verifier::external_body]
pub struct ExSystemTime(SystemTime);

/// Calls `SystemTime::now`. Nothing is stated of the reading.
#[verifier::external_body]
fn system_time_now() -> SystemTime {
    SystemTime::now()
}

/// Calls `SystemTime::duration_since` with the Unix epoch: `None` when `t`
/// lies before the epoch. Nothing is stated of the duration.
#[verifier::external_body]
fn since_unix_epoch(t: &SystemTime) -> Option<Duration> {
    t.duration_since(SystemTime::UNIX_EPOCH).ok()
}

/// Calls `Duration::subsec_nanos`: the fractional part of the duration in
/// nanoseconds, which is always below one billion.
#[verifier::external_body]
fn subsec_nanos_of(d: &Duration) -> (n: u32)
    ensures
        n < 1_000_000_000,
{
    d.subsec_nanos()
}

/// The sub-second nanoseconds of the system clock since the Unix epoch
/// (zero before the epoch).
fn subsec_nanos_now() -> (n: u32)
    ensures
        n < 1_000_000_000,
{
    match since_unix_epoch(&system_time_now()) {
        Some(d) => subsec_nanos_of(&d),
        None => 0,
    }
}

impl RetryPolicy {
    /// `2u32.saturating_pow(attempt)`.
    fn growth_of(attempt: u32) -> (g: u32)
        ensures
            g == growth(attempt),
    {
        let mut g: u32 = 1;
        let mut i: u32 = 0;
        let top: u32 = if attempt < 32 { attempt } else { 0 };
        proof {
            lemma2_to64();
        }
        while i < top
            invariant
                top == if attempt < 32 { attempt } else { 0 },
                i <= top,
                top < 32,
                g == pow2(i as nat),
            decreases top - i,
        {
            proof {
                lemma_pow2_unfold((i + 1) as nat);
                lemma_growth_bound((i + 1) as u32);
            }
            g = g * 2;
            i = i + 1;
        }
        if attempt >= 32 {
            u32::MAX
        } else {
            g
        }
    }

    /// The un-jittered delay before retry number `attempt`: the base delay
    /// doubled `attempt` times (saturating), capped at the maximum delay.
    fn capped_of(&self, attempt: u32) -> (c: u128)
        requires
            valid_policy(*self),
        ensures
            c == capped_delay(*self, attempt),
    {
        let g = Self::growth_of(attempt);
        proof {
            if attempt < 32 {
                lemma_growth_bound(attempt);
            }
        }
        let exp: u128 = if self.base_delay_nanos > MAX_DURATION_NANOS / (g as u128) {
            MAX_DURATION_NANOS
        } else {
            proof {
                assert(self.base_delay_nanos * g <= MAX_DURATION_NANOS) by (nonlinear_arith)
                    requires
                        self.base_delay_nanos <= MAX_DURATION_NANOS / (g as u128),
                        g >= 1,
                {
                }
            }
            self.base_delay_nanos * (g as u128)
        };
        proof {
            if self.base_delay_nanos > MAX_DURATION_NANOS / (g as u128) {
                assert(self.base_delay_nanos * g > MAX_DURATION_NANOS) by (nonlinear_arith)
                    requires
                        self.base_delay_nanos > MAX_DURATION_NANOS / (g as u128),
                        g >= 1,
                {
                }
            }
        }
        if exp <= self.max_delay_nanos { exp } else { self.max_delay_nanos }
    }

    /// The modulus of the jitter for retry number `attempt`: half the capped
    /// delay (at least one nanosecond), truncated to 64 bits. Backoff is
    /// defined only where this is not zero.
    pub fn jitter_span_nanos(&self, attempt: u32) -> (s: u64)
        requires
            valid_policy(*self),
        ensures
            s == jitter_span(*self, attempt),
    {
        let half = self.capped_of(attempt) / 2;
        let span_full: u128 = if half >= 1 { half } else { 1 };
        (span_full % 0x1_0000_0000_0000_0000) as u64
    }

    /// The backoff before retry number `attempt` (zero-based) given the
    /// clock's sub-second nanoseconds `nanos`.
    pub fn backoff_with(&self, attempt: u32, nanos: u32) -> (d: u128)
        requires
            valid_policy(*self),
            jitter_span(*self, attempt) != 0,
            nanos < 1_000_000_000,
        ensures
            d == jittered_delay(*self, attempt, nanos),
    {
        let half = self.capped_of(attempt) / 2;
        let span = self.jitter_span_nanos(attempt);
        let jitter: u64 = (nanos as u64) % span;
        half + (jitter as u128)
    }

    /// The jittered backoff before retry number `attempt` (zero-based),
    /// reading the system clock for the jitter.
    pub fn backoff(&self, attempt: u32) -> (d: u128)
        requires
            valid_policy(*self),
            jitter_span(*self, attempt) != 0,
        ensures
            exists|nanos: u32| nanos < 1_000_000_000 && d == jittered_delay(*self, attempt, nanos),
    {
        let nanos = subsec_nanos_now();
        self.backoff_with(attempt, nanos)
    }
}

proof fn lemma_growth_bound(n: u32)
    requires
        n < 32,
    ensures
        1 <= growth(n) <= 0x8000_0000,
{
    lemma2_to64();
    lemma_pow2_pos(n as nat);
    if n < 31 {
        lemma_pow2_strictly_increases(n as nat, 31);
    }
}

/// Backoff never exceeds the policy's cap, and is never below half of the
/// capped delay (equal jitter).
pub proof fn lemma_backoff_bounded(p: RetryPolicy, attempt: u32, nanos: u32)
    requires
        jitter_span(p, attempt) != 0,
    ensures
        half_delay(p, attempt) <= jittered_delay(p, attempt, nanos),
        jittered_delay(p, attempt, nanos) <= capped_delay(p, attempt),
        capped_delay(p, attempt) <= p.max_delay_nanos,
{
    let h = half_delay(p, attempt);
    let c = capped_delay(p, attempt);
    let s = jitter_span(p, attempt);
    assert(c >= 0) by {
        if attempt < 32 {
            lemma_growth_bound(attempt);
        }
        assert(p.base_delay_nanos * growth(attempt) >= 0) by (nonlinear_arith)
            requires
                growth(attempt) >= 1 || attempt >= 32,
                attempt >= 32 ==> growth(attempt) == u32::MAX,
        {
        }
    }
    let j = (nanos as int) % s;
    assert(0 <= j < s);
    if h >= 1 {
        assert(s <= h);
        assert(h + j < 2 * h);
    } else {
        assert(s == 1);
        assert(j == 0);
    }
}

/// What a retry loop does after a failed attempt.
#[derive(Debug, Clone, Copy, PartialEq, Eq, Structural)]
pub enum RetryStep {
    /// Give up and return the last error.
    Stop,
    /// Sleep for the backoff of this (zero-based) retry index, then try again.
    Retry(u32),
}

/// The decision after `failures` failed attempts (`failures >= 1`), the last
/// of which was `retryable` or not.
pub open spec fn retry_step(p: RetryPolicy, failures: u32, retryable: bool) -> RetryStep {
    if failures >= p.max_attempts || !retryable {
        RetryStep::Stop
    } else {
        RetryStep::Retry((failures - 1) as u32)
    }
}

/// Decides, after `failures` failed attempts, whether to stop or to sleep and
/// retry: stop once the attempts are exhausted or the error is not
/// retryable.
pub fn next_step(policy: &RetryPolicy, failures: u32, retryable: bool) -> (s: RetryStep)
    requires
        failures >= 1,
    ensures
        s == retry_step(*policy, failures, retryable),
{
    if failures >= policy.max_attempts || !retryable {
        RetryStep::Stop
    } else {
        RetryStep::Retry(failures - 1)
    }
}

/// Backoff grows with the attempt number until it reaches the cap: the
/// un-jittered delay never shrinks from one retry to a later one.
pub proof fn lemma_capped_delay_monotone(p: RetryPolicy, a: u32, b: u32)
    requires
        a <= b,
    ensures
        capped_delay(p, a) <= capped_delay(p, b),
{
    assert(growth(a) <= growth(b)) by {
        if b >= 32 {
            if a < 32 {
                lemma_growth_bound(a);
            }
        } else {
            if a < b {
                lemma_pow2_strictly_increases(a as nat, b as nat);
            }
        }
    }
    let ga = growth(a);
    let gb = growth(b);
    assert(p.base_delay_nanos * ga <= p.base_delay_nanos * gb) by (nonlinear_arith)
        requires
            ga <= gb,
    {
    }
}

/// The number of attempts a retry loop makes when its attempts fail with the
/// retryability flags `errors` (in order) until one succeeds or it stops.
/// `errors` lists the failures before the first success; attempts after a
/// stop are never made.
pub open spec fn attempts_made(p: RetryPolicy, errors: Seq<bool>, succeeded: bool) -> nat
    decreases errors.len(),
{
    attempts_from(p, errors, succeeded, 1)
}

/// Attempts made from attempt number `n` (one-based) on.
pub open spec fn attempts_from(p: RetryPolicy, errors: Seq<bool>, succeeded: bool, n: nat) -> nat
    decreases errors.len(),
{
    if errors.len() == 0 {
        if succeeded { 1 } else { 0 }
    } else if n >= p.max_attempts || !errors[0] {
        1
    } else {
        1 + attempts_from(p, errors.drop_first(), succeeded, n + 1)
    }
}

/// A retry loop driven by [`next_step`] never makes more than
/// `max(max_attempts, 1)` attempts, and a non-retryable first failure ends it
/// after exactly one.
pub proof fn lemma_attempts_bounded(p: RetryPolicy, errors: Seq<bool>, succeeded: bool)
    ensures
        attempts_made(p, errors, succeeded) <= if p.max_attempts >= 1 { p.max_attempts as nat } else { 1 },
        errors.len() > 0 && !errors[0] ==> attempts_made(p, errors, succeeded) == 1,
{
    lemma_attempts_from_bounded(p, errors, succeeded, 1);
}

proof fn lemma_attempts_from_bounded(p: RetryPolicy, errors: Seq<bool>, succeeded: bool, n: nat)
    requires
        n >= 1,
        n <= p.max_attempts || n == 1,
    ensures
        n - 1 + attempts_from(p, errors, succeeded, n) <= if p.max_attempts >= 1 { p.max_attempts as nat } else { 1 },
    decreases errors.len(),
{
    if errors.len() > 0 && !(n >= p.max_attempts || !errors[0]) {
        lemma_attempts_from_bounded(p, errors.drop_first(), succeeded, n + 1);
    }
}

/// Returned when an operation does not complete within its deadline, with
/// the deadline in nanoseconds.
#[derive(Debug, Clone, Copy, PartialEq, Eq, Structural)]
pub struct TimeoutError(pub u128);

} // verus!
