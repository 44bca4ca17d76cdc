use vstd::prelude::*;

verus! {

/// The three outcomes of a governance decision.
#[derive(Debug, Clone, Copy, PartialEq, Eq, Structural)]
pub enum PolicyDecision {
    Allow,
    Sanitize,
    Reject,
}

/// A governance decision together with its machine-readable reason.
#[derive(Debug, Clone)]
pub struct GovernanceDecision {
    pub decision: PolicyDecision,
    pub reason: String,
}

impl GovernanceDecision {
    /// Builds a decision from its parts.
    pub fn new(decision: PolicyDecision, reason: String) -> (r: Self)
        ensures
            r.decision == decision,
            r.reason@ == reason@,
    {
        GovernanceDecision { decision, reason }
    }
}

/// Whether a decision rejects.
pub fn is_reject(decision: &GovernanceDecision) -> (r: bool)
    ensures
        r == (decision.decision == PolicyDecision::Reject),
{
    decision.decision == PolicyDecision::Reject
}

/// The label of a decision, as written to audit records.
pub open spec fn spec_decision_label(d: PolicyDecision) -> Seq<char> {
    match d {
        PolicyDecision::Allow => "allow"@,
        PolicyDecision::Sanitize => "sanitize"@,
        PolicyDecision::Reject => "reject"@,
    }
}

pub fn decision_label(decision: &GovernanceDecision) -> (r: &'static str)
    ensures
        r@ == spec_decision_label(decision.decision),
{
    match decision.decision {
        PolicyDecision::Allow => "allow",
        PolicyDecision::Sanitize => "sanitize",
        PolicyDecision::Reject => "reject",
    }
}

} // verus!

verus! {

/// Errors reported by the engine and its parts.
#[derive(Debug)]
pub enum RangoError {
    Storage(String),
    DocumentNotFound(String),
    DocumentTooLarge { size: usize, limit: usize },
    InvalidQueryOperator(String),
    Conflict(String),
    Sync(String),
}

/// Memory tiers a read or write addresses.
#[derive(Debug, Clone, Copy, PartialEq, Eq, Structural)]
pub enum MemoryTier {
    State,
    Event,
    Artifact,
    Episodic,
    Semantic,
}

} // verus!
