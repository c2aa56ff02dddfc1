use std::time::Duration;

use reranklab::retry::next_step;
use reranklab::{BreakerConfig, BreakerState, CircuitBreaker, Clock, RetryPolicy, RetryStep, SystemClock};

fn nanos(d: Duration) -> u128 {
    d.as_nanos()
}

fn breaker() -> CircuitBreaker {
    CircuitBreaker::new(BreakerConfig { failure_threshold: 3, cooldown_nanos: nanos(Duration::from_secs(10)) })
}

#[test]
fn state_names() {
    assert_eq!(BreakerState::Closed.name(), "closed");
    assert_eq!(BreakerState::Open.name(), "open");
    assert_eq!(BreakerState::HalfOpen.name(), "half_open");
}

#[test]
fn trips_after_threshold() {
    let mut b = breaker();
    let now = 0;
    assert!(b.allow(now));
    b.on_failure(now);
    b.on_failure(now);
    assert_eq!(b.state(now), BreakerState::Closed);
    b.on_failure(now);
    assert_eq!(b.state(now), BreakerState::Open);
    assert!(!b.allow(now));
}

#[test]
fn recovers_via_half_open() {
    let mut b = breaker();
    let mut now = 0;
    for _ in 0..3 {
        b.on_failure(now);
    }
    assert_eq!(b.state(now), BreakerState::Open);
    now += nanos(Duration::from_secs(10));
    assert_eq!(b.state(now), BreakerState::HalfOpen);
    assert!(b.allow(now));
    b.on_success();
    assert_eq!(b.state(now), BreakerState::Closed);
}

#[test]
fn stays_open_until_cooldown() {
    let mut b = breaker();
    let opened = 1_000;
    for _ in 0..3 {
        b.on_failure(opened);
    }
    assert_eq!(b.state(opened + nanos(Duration::from_secs(10)) - 1), BreakerState::Open);
    assert_eq!(b.consecutive_failures(), 3);
    assert_eq!(b.state(opened + nanos(Duration::from_secs(10))), BreakerState::HalfOpen);
}

#[test]
fn breaker_defaults() {
    let c = BreakerConfig::default();
    assert_eq!(c.failure_threshold, 5);
    assert_eq!(c.cooldown_nanos, nanos(Duration::from_secs(30)));
}

#[test]
fn system_clock_is_monotonic() {
    let c = SystemClock::new();
    let a = c.now();
    let b = c.now();
    assert!(b >= a);
}

#[test]
fn backoff_is_capped() {
    let p = RetryPolicy {
        max_attempts: 10,
        base_delay_nanos: nanos(Duration::from_secs(1)),
        max_delay_nanos: nanos(Duration::from_secs(4)),
    };
    assert!(p.backoff(20) <= nanos(Duration::from_secs(4)));
}

#[test]
fn backoff_with_is_half_plus_jitter() {
    let p = RetryPolicy {
        max_attempts: 10,
        base_delay_nanos: nanos(Duration::from_secs(1)),
        max_delay_nanos: nanos(Duration::from_secs(4)),
    };
    // attempt 0: capped 1 s, half 0.5 s, jitter = nanos % 0.5 s.
    assert_eq!(p.backoff_with(0, 123), 500_000_123);
    assert_eq!(p.backoff_with(0, 700_000_000), 500_000_000 + 200_000_000);
    // attempt 1: 2 s; attempt 5: 32 s capped at 4 s.
    assert_eq!(p.backoff_with(1, 0), 1_000_000_000);
    assert_eq!(p.backoff_with(5, 999_999_999), 2_000_000_000 + 999_999_999 % 2_000_000_000);
    // growth saturates beyond 31 doublings.
    assert_eq!(p.backoff_with(40, 7), 2_000_000_007);
}

#[test]
fn backoff_stays_within_bounds() {
    let p = RetryPolicy::default();
    for attempt in 0..40 {
        let d = p.backoff(attempt);
        assert!(d <= p.max_delay_nanos);
    }
    assert_eq!(p.max_attempts, 3);
    assert_eq!(p.base_delay_nanos, nanos(Duration::from_millis(50)));
    assert_eq!(p.max_delay_nanos, nanos(Duration::from_secs(5)));
}

#[test]
fn retry_steps_follow_the_policy() {
    let p = RetryPolicy::default();
    assert_eq!(next_step(&p, 1, true), RetryStep::Retry(0));
    assert_eq!(next_step(&p, 2, true), RetryStep::Retry(1));
    assert_eq!(next_step(&p, 3, true), RetryStep::Stop);
    assert_eq!(next_step(&p, 1, false), RetryStep::Stop);
}

#[test]
fn jitter_span_is_half_the_capped_delay() {
    let p = RetryPolicy {
        max_attempts: 3,
        base_delay_nanos: 10,
        max_delay_nanos: 100,
    };
    assert_eq!(p.jitter_span_nanos(0), 5);
    assert_eq!(p.jitter_span_nanos(3), 40);
    assert_eq!(p.jitter_span_nanos(10), 50);
    let tiny = RetryPolicy { max_attempts: 3, base_delay_nanos: 1, max_delay_nanos: 1 };
    assert_eq!(tiny.jitter_span_nanos(0), 1);
    assert_eq!(tiny.backoff_with(0, 999), 0);
}

#[test]
fn failed_probe_reopens() {
    let mut b = breaker();
    for _ in 0..3 {
        b.on_failure(0);
    }
    let t = nanos(Duration::from_secs(10));
    assert_eq!(b.state(t), BreakerState::HalfOpen);
    b.on_failure(t);
    assert_eq!(b.state(t), BreakerState::Open);
    assert_eq!(b.state(t + nanos(Duration::from_secs(10)) - 1), BreakerState::Open);
    assert_eq!(b.state(t + nanos(Duration::from_secs(10))), BreakerState::HalfOpen);
}

struct TestClock(std::cell::Cell<u128>);

impl Clock for TestClock {
    fn now(&self) -> u128 {
        self.0.get()
    }
}

#[test]
fn breaker_reads_its_clock() {
    let clock = TestClock(std::cell::Cell::new(5));
    let mut b = breaker();
    assert!(b.allow_with(&clock));
    for _ in 0..3 {
        b.on_failure_with(&clock);
    }
    assert_eq!(b.state_with(&clock), BreakerState::Open);
    assert!(!b.allow_with(&clock));
    clock.0.set(5 + nanos(Duration::from_secs(10)));
    assert_eq!(b.state_with(&clock), BreakerState::HalfOpen);
    assert!(b.allow_with(&clock));
    b.on_success();
    assert_eq!(b.state_with(&clock), BreakerState::Closed);
}

#[test]
fn half_open_allows_a_single_probe() {
    let mut b = breaker();
    for _ in 0..3 {
        b.on_failure(0);
    }
    let t = nanos(Duration::from_secs(10));
    assert_eq!(b.state(t), BreakerState::HalfOpen);
    assert!(b.allow(t));
    assert!(!b.allow(t));
    assert!(!b.allow(t + 1_000));
    assert_eq!(b.state(t + 1_000), BreakerState::HalfOpen);
    // A failed probe re-opens; after the next cooldown one probe is offered again.
    b.on_failure(t + 1_000);
    assert!(!b.allow(t + 1_000));
    let t2 = t + 1_000 + nanos(Duration::from_secs(10));
    assert!(b.allow(t2));
    assert!(!b.allow(t2));
    b.on_success();
    assert!(b.allow(t2));
    assert!(b.allow(t2));
}
