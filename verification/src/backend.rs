//! Backend endpoints: health state, the consecutive-failure counter that
//! drives cool-off, and the connection-acquisition policy.
//!
//! A backend moves `Healthy ⇄ Degraded → CoolingOff → Probing → Healthy |
//! CoolingOff`.  While cooling off it is masked from the distributor; it
//! re-enters service on the first successful probe after its deadline.

use vstd::prelude::*;

verus! {

/// Adds two millisecond clocks, saturating at the top of the range.
pub open spec fn sat_add(a: u64, b: u64) -> u64 {
    if a + b > u64::MAX {
        u64::MAX
    } else {
        (a + b) as u64
    }
}

/// Adds two millisecond clocks, saturating at the top of the range.
pub fn saturating_add(a: u64, b: u64) -> (r: u64)
    ensures
        r == sat_add(a, b),
{
    if a <= u64::MAX - b {
        a + b
    } else {
        u64::MAX
    }
}

/// The health of one backend endpoint.
#[derive(Clone, Copy, PartialEq, Eq, Structural, Debug)]
pub enum HealthState {
    /// Serving normally.
    Healthy,
    /// Serving, but with recent failures inside the current window.
    Degraded,
    /// Masked from routing until the cool-off deadline.
    CoolingOff,
    /// Past the deadline and taking traffic again, but not yet confirmed by
    /// a success.
    Probing,
}

/// The failure accounting of one backend: `failure_threshold` consecutive
/// failures within `failure_window_ms` put it into cool-off for
/// `cooloff_ms`.
#[derive(Clone, Copy, PartialEq, Eq, Structural, Debug)]
pub struct BackendHealth {
    pub state: HealthState,
    /// Consecutive failures inside the current window.
    pub consecutive_failures: u64,
    /// When the current failure window opened.
    pub window_start_ms: u64,
    /// When cool-off ends; meaningful while cooling off.
    pub cooloff_until_ms: u64,
    pub failure_threshold: u64,
    pub failure_window_ms: u64,
    pub cooloff_ms: u64,
}

impl BackendHealth {
    pub open spec fn wf(&self) -> bool {
        self.failure_threshold >= 1
    }

    /// Whether the distributor may route to this backend at time `now`: a
    /// backend is masked exactly while it cools off ahead of its deadline.
    pub open spec fn spec_eligible(&self, now: u64) -> bool {
        !(self.state is CoolingOff && now < self.cooloff_until_ms)
    }

    pub fn new(failure_threshold: u64, failure_window_ms: u64, cooloff_ms: u64) -> (b:
        BackendHealth)
        requires
            failure_threshold >= 1,
        ensures
            b.wf(),
            b.state is Healthy,
            b.consecutive_failures == 0,
            b.window_start_ms == 0,
            b.cooloff_until_ms == 0,
            b.failure_threshold == failure_threshold,
            b.failure_window_ms == failure_window_ms,
            b.cooloff_ms == cooloff_ms,
    {
        BackendHealth {
            state: HealthState::Healthy,
            consecutive_failures: 0,
            window_start_ms: 0,
            cooloff_until_ms: 0,
            failure_threshold,
            failure_window_ms,
            cooloff_ms,
        }
    }

    /// Whether the distributor may route to this backend at time `now`.
    pub fn is_eligible(&self, now: u64) -> (r: bool)
        ensures
            r == self.spec_eligible(now),
    {
        match self.state {
            HealthState::CoolingOff => now >= self.cooloff_until_ms,
            _ => true,
        }
    }

    /// Records a successful request: any success restores full health and
    /// clears the failure count — in particular a successful probe ends
    /// cool-off for good.
    pub fn record_success(&mut self)
        requires
            old(self).wf(),
        ensures
            final(self).wf(),
            final(self).state is Healthy,
            final(self).consecutive_failures == 0,
            *final(self) == (BackendHealth {
                state: HealthState::Healthy,
                consecutive_failures: 0,
                ..*old(self)
            }),
    {
        self.state = HealthState::Healthy;
        self.consecutive_failures = 0;
    }

    /// Records a failed request at time `now`.  A failure while probing
    /// re-enters cool-off at once; otherwise failures accumulate inside the
    /// window, and reaching the threshold starts a cool-off of `cooloff_ms`.
    pub fn record_failure(&mut self, now: u64)
        requires
            old(self).wf(),
        ensures
            final(self).wf(),
            final(self).failure_threshold == old(self).failure_threshold,
            final(self).failure_window_ms == old(self).failure_window_ms,
            final(self).cooloff_ms == old(self).cooloff_ms,
            old(self).state is Probing ==> final(self).state is CoolingOff
                && final(self).cooloff_until_ms == sat_add(now, old(self).cooloff_ms)
                && final(self).window_start_ms == old(self).window_start_ms,
            old(self).state is CoolingOff ==> *final(self) == *old(self),
            (old(self).state is Healthy || old(self).state is Degraded) ==> {
                let fresh_window = now > sat_add(
                    old(self).window_start_ms,
                    old(self).failure_window_ms,
                );
                let count = if fresh_window {
                    1u64
                } else {
                    sat_add(old(self).consecutive_failures, 1)
                };
                &&& final(self).window_start_ms == if fresh_window {
                    now
                } else {
                    old(self).window_start_ms
                }
                &&& if count >= old(self).failure_threshold {
                    &&& final(self).state is CoolingOff
                    &&& final(self).cooloff_until_ms == sat_add(now, old(self).cooloff_ms)
                    &&& final(self).consecutive_failures == 0
                } else {
                    &&& final(self).state is Degraded
                    &&& final(self).cooloff_until_ms == old(self).cooloff_until_ms
                    &&& final(self).consecutive_failures == count
                }
            },
    {
        match self.state {
            HealthState::Probing => {
                self.state = HealthState::CoolingOff;
                self.cooloff_until_ms = saturating_add(now, self.cooloff_ms);
                self.consecutive_failures = 0;
            },
            HealthState::CoolingOff => {
            },
            _ => {
                let window_end = saturating_add(self.window_start_ms, self.failure_window_ms);
                let count: u64 = if now > window_end {
                    self.window_start_ms = now;
                    1
                } else {
                    saturating_add(self.consecutive_failures, 1)
                };
                if count >= self.failure_threshold {
                    self.state = HealthState::CoolingOff;
                    self.cooloff_until_ms = saturating_add(now, self.cooloff_ms);
                    self.consecutive_failures = 0;
                } else {
                    self.state = HealthState::Degraded;
                    self.consecutive_failures = count;
                }
            },
        }
    }

    /// Moves a cooled-off backend whose deadline has passed into probing, so
    /// the next request reaches it and decides its fate.
    pub fn begin_probe(&mut self, now: u64)
        requires
            old(self).wf(),
            old(self).state is CoolingOff,
            now >= old(self).cooloff_until_ms,
        ensures
            final(self).wf(),
            *final(self) == (BackendHealth { state: HealthState::Probing, ..*old(self) }),
    {
        self.state = HealthState::Probing;
    }
}

/// Cool-off masking, both halves: a backend is never eligible while it
/// cools off ahead of its deadline, and any backend out of the cooling-off
/// state — in particular one probing after its deadline, or healthy after a
/// successful probe — is always eligible.
pub proof fn lemma_cooloff_masking(b: BackendHealth, now: u64)
    ensures
        b.state is CoolingOff && now < b.cooloff_until_ms ==> !b.spec_eligible(now),
        !(b.state is CoolingOff) ==> b.spec_eligible(now),
{
}

/// What a backend does with a request wanting a connection: use an idle
/// pooled connection, open a new one, or wait for one to free up.
#[derive(Clone, Copy, PartialEq, Eq, Structural, Debug)]
pub enum ConnChoice {
    /// Use the idle connection at this slot.
    Use(usize),
    /// All connections busy but the pool is under its cap: open a new one.
    OpenNew,
    /// At the cap with nothing idle: enqueue and await.
    Wait,
}

/// Picks a connection per the acquisition policy: the first idle connection
/// if any (a connection is exclusively held while a sub-batch is in flight,
/// so idle means free); else grow the pool while under the cap; else wait.
pub fn acquire_connection(busy: &Vec<bool>, cap: usize) -> (r: ConnChoice)
    ensures
        match r {
            ConnChoice::Use(i) => i < busy@.len() && !busy@[i as int] && forall|j: int|
                0 <= j < i ==> busy@[j],
            ConnChoice::OpenNew => (forall|j: int| 0 <= j < busy@.len() ==> busy@[j])
                && busy@.len() < cap,
            ConnChoice::Wait => (forall|j: int| 0 <= j < busy@.len() ==> busy@[j]) && busy@.len()
                >= cap,
        },
{
    let n = busy.len();
    let mut i: usize = 0;
    while i < n
        invariant
            i <= n,
            n == busy@.len(),
            forall|j: int| 0 <= j < i ==> busy@[j],
        decreases n - i,
    {
        if !busy[i] {
            return ConnChoice::Use(i);
        }
        i += 1;
    }
    if n < cap {
        ConnChoice::OpenNew
    } else {
        ConnChoice::Wait
    }
}

} // verus!
