use vstd::prelude::*;
use crate::types::{GovernanceDecision, PolicyDecision};

verus! {

// Anomaly containment per tenant and namespace: repeated rejections first
// throttle, then reject, everything until a decision passes or the scope
// stays quiet for a cooldown. Times are milliseconds of a monotonic clock.

#[derive(Debug, Clone, Copy, PartialEq, Eq, Structural)]
pub enum ContainmentMode {
    Normal,
    Throttle,
    Reject,
}

pub open spec fn throttle_threshold() -> u32 {
    3
}

pub open spec fn reject_threshold() -> u32 {
    5
}

pub open spec fn cooldown_ms() -> u64 {
    500
}

/// The mode a run of `count` rejections puts a scope in.
pub open spec fn mode_for(count: u32) -> ContainmentMode {
    if count >= reject_threshold() {
        ContainmentMode::Reject
    } else if count >= throttle_threshold() {
        ContainmentMode::Throttle
    } else {
        ContainmentMode::Normal
    }
}

pub struct ContainmentState {
    pub mode: ContainmentMode,
    pub reject_count: u32,
    pub last_event_ms: u64,
}

/// A scope that has seen no decision yet, as of time `now_ms`.
pub open spec fn fresh_scope(now_ms: u64) -> ContainmentState {
    ContainmentState { mode: ContainmentMode::Normal, reject_count: 0, last_event_ms: now_ms }
}

/// The state `s` is in at time `now_ms` once a cooldown of quiet has reset it.
pub open spec fn cooled(s: ContainmentState, now_ms: u64) -> ContainmentState {
    if now_ms >= s.last_event_ms && now_ms - s.last_event_ms >= cooldown_ms() {
        ContainmentState { mode: ContainmentMode::Normal, reject_count: 0, last_event_ms: s.last_event_ms }
    } else {
        s
    }
}

/// The state `s` is in after a decision `d` made at time `now_ms`.
pub open spec fn observed(s: ContainmentState, d: PolicyDecision, now_ms: u64) -> ContainmentState {
    if d == PolicyDecision::Reject {
        let c: u32 = if s.reject_count == u32::MAX { u32::MAX } else { (s.reject_count + 1) as u32 };
        ContainmentState { mode: mode_for(c), reject_count: c, last_event_ms: now_ms }
    } else {
        fresh_scope(now_ms)
    }
}

/// The reason containment gives for overruling a decision in `mode`, if it does.
pub open spec fn gate_reason(mode: ContainmentMode) -> Option<Seq<char>> {
    match mode {
        ContainmentMode::Normal => None,
        ContainmentMode::Throttle => Some("containment_throttle"@),
        ContainmentMode::Reject => Some("containment_reject"@),
    }
}

impl ContainmentState {
    /// The mode always follows the run of rejections.
    pub open spec fn wf(&self) -> bool {
        self.mode == mode_for(self.reject_count)
    }

    /// A fresh scope, as of time `now_ms`.
    pub fn new(now_ms: u64) -> (r: ContainmentState)
        ensures
            r.wf(),
            r.mode == ContainmentMode::Normal,
            r.reject_count == 0,
            r.last_event_ms == now_ms,
    {
        ContainmentState { mode: ContainmentMode::Normal, reject_count: 0, last_event_ms: now_ms }
    }

    /// A scope that stayed quiet for the cooldown starts over.
    pub fn maybe_reset_after_cooldown(&mut self, now_ms: u64)
        requires
            old(self).wf(),
        ensures
            final(self).wf(),
            *final(self) == cooled(*old(self), now_ms),
            final(self).last_event_ms == old(self).last_event_ms,
            if now_ms >= old(self).last_event_ms && now_ms - old(self).last_event_ms >= cooldown_ms() {
                final(self).mode == ContainmentMode::Normal && final(self).reject_count == 0
            } else {
                final(self).mode == old(self).mode && final(self).reject_count == old(self).reject_count
            },
    {
        if now_ms >= self.last_event_ms && now_ms - self.last_event_ms >= 500 {
            self.mode = ContainmentMode::Normal;
            self.reject_count = 0;
        }
    }

    /// Counts a decision made at time `now_ms`: a rejection extends the run,
    /// anything else ends it.
    pub fn observe_decision(&mut self, decision: &GovernanceDecision, now_ms: u64)
        requires
            old(self).wf(),
        ensures
            final(self).wf(),
            *final(self) == observed(*old(self), decision.decision, now_ms),
            final(self).last_event_ms == now_ms,
            decision.decision == PolicyDecision::Reject ==> final(self).reject_count == (
                if old(self).reject_count == u32::MAX { u32::MAX } else { (old(self).reject_count + 1) as u32 }),
            decision.decision != PolicyDecision::Reject ==> final(self).reject_count == 0,
    {
        self.last_event_ms = now_ms;
        if decision.decision == PolicyDecision::Reject {
            self.reject_count = self.reject_count.saturating_add(1);
            if self.reject_count >= 5 {
                self.mode = ContainmentMode::Reject;
            } else if self.reject_count >= 3 {
                self.mode = ContainmentMode::Throttle;
            }
            return;
        }
        self.mode = ContainmentMode::Normal;
        self.reject_count = 0;
    }

    /// The decision containment imposes on a scope in this mode, if any.
    pub fn gate_decision(&self) -> (r: Option<GovernanceDecision>)
        ensures
            self.mode == ContainmentMode::Normal ==> r is None,
            self.mode == ContainmentMode::Throttle ==> (r matches Some(d) && d.decision == PolicyDecision::Reject
                && d.reason@ == "containment_throttle"@),
            self.mode == ContainmentMode::Reject ==> (r matches Some(d) && d.decision == PolicyDecision::Reject
                && d.reason@ == "containment_reject"@),
            match gate_reason(self.mode) {
                None => r is None,
                Some(why) => r matches Some(d) && d.decision == PolicyDecision::Reject && d.reason@ == why,
            },
    {
        proof {
            reveal_strlit("containment_throttle");
            reveal_strlit("containment_reject");
        }
        match self.mode {
            ContainmentMode::Normal => None,
            ContainmentMode::Throttle => Some(GovernanceDecision {
                decision: PolicyDecision::Reject,
                reason: String::from_str("containment_throttle"),
            }),
            ContainmentMode::Reject => Some(GovernanceDecision {
                decision: PolicyDecision::Reject,
                reason: String::from_str("containment_reject"),
            }),
        }
    }
}

/// A scope is throttled after three rejections in a row and rejected after
/// five, and any decision that is not a rejection puts it back to normal.
pub proof fn lemma_containment_escalates(s: ContainmentState)
    requires
        s.wf(),
    ensures
        s.reject_count >= 5 ==> s.mode == ContainmentMode::Reject,
        3 <= s.reject_count < 5 ==> s.mode == ContainmentMode::Throttle,
        s.reject_count < 3 ==> s.mode == ContainmentMode::Normal,
{
}

/// A scope that stayed quiet for the cooldown is back to normal, however
/// long its run of rejections was.
pub proof fn lemma_cooldown_resets(s: ContainmentState, now_ms: u64)
    requires
        s.wf(),
        now_ms >= s.last_event_ms,
        now_ms - s.last_event_ms >= cooldown_ms(),
    ensures
        cooled(s, now_ms).mode == ContainmentMode::Normal,
        cooled(s, now_ms).reject_count == 0,
        cooled(s, now_ms).wf(),
{
}

/// Five rejections in a row, none a cooldown after the one before, put a
/// fresh scope in reject mode, through throttling at the third.
pub proof fn lemma_burst_escalates(t0: u64, t1: u64, t2: u64, t3: u64, t4: u64)
    requires
        t0 <= t1 < t0 + cooldown_ms(),
        t1 <= t2 < t1 + cooldown_ms(),
        t2 <= t3 < t2 + cooldown_ms(),
        t3 <= t4 < t3 + cooldown_ms(),
    ensures
        ({
            let r = PolicyDecision::Reject;
            let s1 = observed(cooled(fresh_scope(t0), t0), r, t0);
            let s2 = observed(cooled(s1, t1), r, t1);
            let s3 = observed(cooled(s2, t2), r, t2);
            let s4 = observed(cooled(s3, t3), r, t3);
            let s5 = observed(cooled(s4, t4), r, t4);
            &&& s2.mode == ContainmentMode::Normal
            &&& s3.mode == ContainmentMode::Throttle
            &&& s5.mode == ContainmentMode::Reject
            &&& s5.reject_count == 5
        }),
{
}

// ---------------------------------------------------------------------------
// A global request rate limit: at most `burst` requests per one-second
// window.

pub struct RateLimiter {
    pub window_start_ms: u64,
    pub count: u32,
    pub burst: u32,
}

pub open spec fn rate_window_ms() -> u64 {
    1000
}

impl RateLimiter {
    /// No window ever lets more than `burst` requests through.
    pub open spec fn wf(&self) -> bool {
        self.count <= self.burst
    }

    pub fn new(burst: u32, now_ms: u64) -> (r: RateLimiter)
        ensures
            r.wf(),
            r.window_start_ms == now_ms,
            r.count == 0,
            r.burst == burst,
    {
        RateLimiter { window_start_ms: now_ms, count: 0, burst }
    }

    /// Admits a request at time `now_ms` if the current window has room; a
    /// second after the window began a new one begins.
    pub fn check(&mut self, now_ms: u64) -> (r: bool)
        requires
            old(self).wf(),
        ensures
            final(self).wf(),
            final(self).burst == old(self).burst,
            ({
                let fresh = now_ms >= old(self).window_start_ms && now_ms - old(self).window_start_ms >= rate_window_ms();
                let used: u32 = if fresh { 0 } else { old(self).count };
                &&& final(self).window_start_ms == if fresh { now_ms } else { old(self).window_start_ms }
                &&& r == (used < old(self).burst)
                &&& final(self).count == if r { (used + 1) as u32 } else { used }
            }),
    {
        if now_ms >= self.window_start_ms && now_ms - self.window_start_ms >= 1000 {
            self.window_start_ms = now_ms;
            self.count = 0;
        }
        if self.count < self.burst {
            self.count = self.count + 1;
            true
        } else {
            false
        }
    }
}

} // verus!
