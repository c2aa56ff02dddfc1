//! A three-state circuit breaker (Closed / Open / HalfOpen).
//!
//! The breaker is a state machine over time in nanoseconds on a monotonic
//! clock: every operation that depends on time takes the current time as an
//! argument, or reads it from a [`Clock`].

use vstd::prelude::*;

use crate::clock::Clock;

verus! {

/// Breaker states.
#[derive(Debug, Clone, Copy, PartialEq, Eq, Structural)]
pub enum BreakerState {
    /// Calls flow through; failures are counted.
    Closed,
    /// Calls are rejected until the cooldown elapses.
    Open,
    /// A single trial call is allowed to probe recovery.
    HalfOpen,
}

impl BreakerState {
    /// Stable name for metrics and labels.
    pub fn name(self) -> (s: &'static str)
        ensures
            s@ == match self {
                BreakerState::Closed => "closed"@,
                BreakerState::Open => "open"@,
                BreakerState::HalfOpen => "half_open"@,
            },
    {
        match self {
            BreakerState::Closed => "closed",
            BreakerState::Open => "open",
            BreakerState::HalfOpen => "half_open",
        }
    }
}

/// Configuration for a [`CircuitBreaker`].
#[derive(Debug, Clone, Copy, PartialEq, Eq, Structural)]
pub struct BreakerConfig {
    /// Consecutive failures that trip the breaker open.
    pub failure_threshold: u32,
    /// Cooldown, in nanoseconds, before a tripped breaker allows a probe.
    pub cooldown_nanos: u128,
}

impl Default for BreakerConfig {
    /// Five failures, thirty seconds.
    fn default() -> (c: BreakerConfig)
        ensures
            c.failure_threshold == 5,
            c.cooldown_nanos == 30_000_000_000,
    {
        BreakerConfig { failure_threshold: 5, cooldown_nanos: 30_000_000_000 }
    }
}

/// The mutable part of a breaker.
#[derive(Debug, Clone, Copy, PartialEq, Eq, Structural)]
pub struct BreakerModel {
    /// The stored state.
    pub state: BreakerState,
    /// Failures since the last success.
    pub consecutive_failures: u32,
    /// When the breaker last tripped open.
    pub opened_at: u128,
    /// Whether the half-open breaker has already let its single trial call
    /// through (cleared when a success or a failure is recorded).
    pub probe_taken: bool,
}

/// `a - b`, or zero when `b > a`.
pub open spec fn elapsed(now: u128, since: u128) -> int {
    if now >= since { now - since } else { 0 }
}

/// The state a breaker reports at time `now`: a stored `Open` whose cooldown
/// has elapsed reads (and becomes) `HalfOpen`.
pub open spec fn observe(m: BreakerModel, c: BreakerConfig, now: u128) -> BreakerModel {
    if m.state == BreakerState::Open && elapsed(now, m.opened_at) >= c.cooldown_nanos {
        BreakerModel { state: BreakerState::HalfOpen, probe_taken: false, ..m }
    } else {
        m
    }
}

/// The breaker after a success: closed, with the failure count reset.
pub open spec fn after_success(m: BreakerModel) -> BreakerModel {
    BreakerModel { state: BreakerState::Closed, consecutive_failures: 0, probe_taken: false, ..m }
}

/// The breaker after a failure at time `now`: one more failure, and tripped
/// open (at `now`) once the count reaches the threshold.
pub open spec fn after_failure(m: BreakerModel, c: BreakerConfig, now: u128) -> BreakerModel {
    let f = m.consecutive_failures + 1;
    if f >= c.failure_threshold {
        BreakerModel { state: BreakerState::Open, consecutive_failures: f as u32, opened_at: now, probe_taken: false }
    } else {
        BreakerModel { consecutive_failures: f as u32, probe_taken: false, ..m }
    }
}

/// The breaker after asking at time `now` whether a call may go through,
/// with the answer: closed lets every call through, open none, and half open
/// only the first call after it turned half open (the trial call), until a
/// success or a failure is recorded.
pub open spec fn after_allow(m: BreakerModel, c: BreakerConfig, now: u128) -> (BreakerModel, bool) {
    let o = observe(m, c, now);
    match o.state {
        BreakerState::Closed => (o, true),
        BreakerState::Open => (o, false),
        BreakerState::HalfOpen => if o.probe_taken {
            (o, false)
        } else {
            (BreakerModel { probe_taken: true, ..o }, true)
        },
    }
}

/// A circuit breaker guarding a fallible dependency.
#[derive(Debug, Clone, Copy)]
pub struct CircuitBreaker {
    config: BreakerConfig,
    state: BreakerState,
    consecutive_failures: u32,
    opened_at: u128,
    probe_taken: bool,
}

impl CircuitBreaker {
    /// The breaker's mutable state.
    pub closed spec fn model(&self) -> BreakerModel {
        BreakerModel {
            state: self.state,
            consecutive_failures: self.consecutive_failures,
            opened_at: self.opened_at,
            probe_taken: self.probe_taken,
        }
    }

    /// The breaker's configuration.
    pub closed spec fn config(&self) -> BreakerConfig {
        self.config
    }

    /// Creates a closed breaker with no failures recorded.
    pub fn new(config: BreakerConfig) -> (b: CircuitBreaker)
        ensures
            b.config() == config,
            b.model() == (BreakerModel {
                state: BreakerState::Closed,
                consecutive_failures: 0,
                opened_at: 0,
                probe_taken: false,
            }),
    {
        CircuitBreaker {
            config,
            state: BreakerState::Closed,
            consecutive_failures: 0,
            opened_at: 0,
            probe_taken: false,
        }
    }

    /// The current logical state at time `now`, moving `Open` to `HalfOpen`
    /// once the cooldown has elapsed.
    pub fn state(&mut self, now: u128) -> (s: BreakerState)
        ensures
            final(self).config() == old(self).config(),
            final(self).model() == observe(old(self).model(), old(self).config(), now),
            s == final(self).model().state,
    {
        let waited = now.saturating_sub(self.opened_at);
        if self.state == BreakerState::Open && waited >= self.config.cooldown_nanos {
            self.state = BreakerState::HalfOpen;
            self.probe_taken = false;
        }
        self.state
    }

    /// Whether a call should be allowed through at time `now`: always when
    /// closed, never when open, and when half open only for the single trial
    /// call (the first one asked for since the breaker turned half open).
    pub fn allow(&mut self, now: u128) -> (b: bool)
        ensures
            final(self).config() == old(self).config(),
            (final(self).model(), b) == after_allow(old(self).model(), old(self).config(), now),
    {
        let s = self.state(now);
        match s {
            BreakerState::Closed => true,
            BreakerState::Open => false,
            BreakerState::HalfOpen => {
                if self.probe_taken {
                    false
                } else {
                    self.probe_taken = true;
                    true
                }
            },
        }
    }

    /// Records a successful call, closing the breaker.
    pub fn on_success(&mut self)
        ensures
            final(self).config() == old(self).config(),
            final(self).model() == after_success(old(self).model()),
    {
        self.consecutive_failures = 0;
        self.state = BreakerState::Closed;
        self.probe_taken = false;
    }

    /// Records a failed call at time `now`, tripping the breaker once the
    /// threshold is reached.
    pub fn on_failure(&mut self, now: u128)
        requires
            old(self).model().consecutive_failures < u32::MAX,
        ensures
            final(self).config() == old(self).config(),
            final(self).model() == after_failure(old(self).model(), old(self).config(), now),
    {
        self.consecutive_failures = self.consecutive_failures + 1;
        self.probe_taken = false;
        if self.consecutive_failures >= self.config.failure_threshold {
            self.state = BreakerState::Open;
            self.opened_at = now;
        }
    }

    /// The current logical state, reading the time from `clock`.
    pub fn state_with<C: Clock>(&mut self, clock: &C) -> (s: BreakerState)
        ensures
            final(self).config() == old(self).config(),
            exists|now: u128| #[trigger] observe(old(self).model(), old(self).config(), now) == final(self).model(),
            s == final(self).model().state,
    {
        let now = clock.now();
        self.state(now)
    }

    /// Whether a call should be allowed through (when half open, only the
    /// single trial call), reading the time from `clock`.
    pub fn allow_with<C: Clock>(&mut self, clock: &C) -> (b: bool)
        ensures
            final(self).config() == old(self).config(),
            exists|now: u128| #[trigger] after_allow(old(self).model(), old(self).config(), now) == (final(self).model(), b),
    {
        let now = clock.now();
        self.allow(now)
    }

    /// Records a failed call, reading the time from `clock`.
    pub fn on_failure_with<C: Clock>(&mut self, clock: &C)
        requires
            old(self).model().consecutive_failures < u32::MAX,
        ensures
            final(self).config() == old(self).config(),
            exists|now: u128| #[trigger] after_failure(old(self).model(), old(self).config(), now) == final(self).model(),
    {
        let now = clock.now();
        self.on_failure(now)
    }

    /// Failures recorded since the last success.
    pub fn consecutive_failures(&self) -> (n: u32)
        ensures
            n == self.model().consecutive_failures,
    {
        self.consecutive_failures
    }
}

/// The breaker after a failure at each of `times`, in order.
pub open spec fn after_failures(m: BreakerModel, c: BreakerConfig, times: Seq<u128>) -> BreakerModel
    decreases times.len(),
{
    if times.len() == 0 {
        m
    } else {
        after_failure(after_failures(m, c, times.drop_last()), c, times.last())
    }
}

/// After a success, a run of consecutive failures keeps the breaker closed
/// while the run is shorter than the threshold, and trips it open as soon as
/// the run reaches it.
pub proof fn lemma_trips_at_threshold(m: BreakerModel, c: BreakerConfig, times: Seq<u128>)
    requires
        times.len() < u32::MAX,
    ensures
        after_failures(after_success(m), c, times).consecutive_failures == times.len(),
        times.len() < c.failure_threshold ==> after_failures(after_success(m), c, times).state == BreakerState::Closed,
        times.len() >= c.failure_threshold && times.len() > 0 ==> after_failures(after_success(m), c, times).state == BreakerState::Open,
    decreases times.len(),
{
    if times.len() > 0 {
        lemma_trips_at_threshold(m, c, times.drop_last());
    }
}

/// An open breaker keeps rejecting calls until its cooldown has elapsed
/// since it tripped, and reports `HalfOpen` (allowing a probe) from then on.
pub proof fn lemma_open_until_cooldown(m: BreakerModel, c: BreakerConfig, now: u128)
    requires
        m.state == BreakerState::Open,
    ensures
        observe(m, c, now).state == BreakerState::Open <==> elapsed(now, m.opened_at) < c.cooldown_nanos,
        observe(m, c, now).state == BreakerState::HalfOpen <==> elapsed(now, m.opened_at) >= c.cooldown_nanos,
{
}

/// A success always closes the breaker and clears the failure count, and a
/// closed breaker stays closed whatever the time.
pub proof fn lemma_success_closes(m: BreakerModel, c: BreakerConfig, now: u128)
    ensures
        after_success(m).state == BreakerState::Closed,
        after_success(m).consecutive_failures == 0,
        observe(after_success(m), c, now) == after_success(m),
{
}

/// A breaker is consistent when it is closed or has seen at least the
/// threshold of consecutive failures (it trips only then, and stays open or
/// half open only until a success).
pub open spec fn consistent(m: BreakerModel, c: BreakerConfig) -> bool {
    m.state != BreakerState::Closed ==> m.consecutive_failures >= c.failure_threshold
}

/// Every operation keeps a breaker consistent, and a new breaker is.
pub proof fn lemma_consistency_is_kept(m: BreakerModel, c: BreakerConfig, now: u128)
    requires
        consistent(m, c),
    ensures
        consistent(BreakerModel { state: BreakerState::Closed, consecutive_failures: 0, opened_at: 0, probe_taken: false }, c),
        consistent(after_allow(m, c, now).0, c),
        consistent(observe(m, c, now), c),
        consistent(after_success(m), c),
        m.consecutive_failures < u32::MAX ==> consistent(after_failure(m, c, now), c),
{
}

/// A failed probe re-opens a half-open breaker at the time of the failure,
/// starting a new cooldown.
pub proof fn lemma_failed_probe_reopens(m: BreakerModel, c: BreakerConfig, now: u128)
    requires
        consistent(m, c),
        m.state == BreakerState::HalfOpen,
        m.consecutive_failures < u32::MAX,
    ensures
        after_failure(m, c, now).state == BreakerState::Open,
        after_failure(m, c, now).opened_at == now,
{
}

/// A half-open breaker lets exactly one trial call through: the first
/// `allow` answers yes, and every later one answers no, whatever the time,
/// until a success or a failure is recorded. A closed breaker lets every
/// call through and an open one (before its cooldown) none.
pub proof fn lemma_single_probe(m: BreakerModel, c: BreakerConfig, t1: u128, t2: u128)
    ensures
        observe(m, c, t1).state == BreakerState::HalfOpen && !observe(m, c, t1).probe_taken
            ==> after_allow(m, c, t1).1 && !after_allow(after_allow(m, c, t1).0, c, t2).1,
        observe(m, c, t1).state == BreakerState::HalfOpen
            ==> !after_allow(after_allow(m, c, t1).0, c, t2).1
                && !after_allow(after_allow(after_allow(m, c, t1).0, c, t2).0, c, t2).1,
        m.state == BreakerState::Closed ==> after_allow(m, c, t1) == (m, true),
        m.state == BreakerState::Open && elapsed(t1, m.opened_at) < c.cooldown_nanos ==> after_allow(m, c, t1) == (m, false),
{
}

/// The breaker a cooldown after it tripped: half open, with its trial call
/// still available.
pub proof fn lemma_cooldown_offers_a_probe(m: BreakerModel, c: BreakerConfig, now: u128)
    requires
        m.state == BreakerState::Open,
        elapsed(now, m.opened_at) >= c.cooldown_nanos,
    ensures
        after_allow(m, c, now).1,
        after_allow(m, c, now).0.state == BreakerState::HalfOpen,
        after_allow(m, c, now).0.probe_taken,
{
}

/// A failure counts one more consecutive failure, and a breaker that trips
/// on a failure starts its cooldown at that failure: whenever a failure at
/// `now` leaves the breaker open, it opened at `now` (whatever state it was
/// in before), so it reports `Open`, and lets no call through, at every time
/// from `now` until the cooldown has passed. It trips exactly when the count
/// reaches the threshold.
pub proof fn lemma_trip_starts_cooldown_at_failure(m: BreakerModel, c: BreakerConfig, now: u128, t: u128)
    requires
        m.consecutive_failures < u32::MAX,
        consistent(m, c),
    ensures
        after_failure(m, c, now).consecutive_failures == m.consecutive_failures + 1,
        after_failure(m, c, now).state == BreakerState::Open <==> m.consecutive_failures + 1 >= c.failure_threshold,
        after_failure(m, c, now).state == BreakerState::Open ==> after_failure(m, c, now).opened_at == now,
        after_failure(m, c, now).state == BreakerState::Open && now <= t && t - now < c.cooldown_nanos ==> {
            &&& observe(after_failure(m, c, now), c, t).state == BreakerState::Open
            &&& !after_allow(after_failure(m, c, now), c, t).1
        },
        after_failure(m, c, now).state == BreakerState::Open && now <= t && t - now >= c.cooldown_nanos
            ==> observe(after_failure(m, c, now), c, t).state == BreakerState::HalfOpen,
{
}

} // verus!
