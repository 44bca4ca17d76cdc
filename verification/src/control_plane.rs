use vstd::prelude::*;
use crate::types::{GovernanceDecision, PolicyDecision, MemoryTier, RangoError};
use crate::value::{VDoc, Document};
use crate::float::{f64_is_nan, f64_is_finite, f64_compare, is_nan, is_finite, float_compare};
use crate::fixed::{fixed2_text, format_fixed2};
use crate::text::string_append;
use crate::cursor::doc_views;

verus! {

// Governance: the decisions on writes, reads and promotions, and the hooks
// that users plug in. A hook is user code and promises nothing; what the
// control plane makes of its answers is stated here.

pub struct WriteContext {
    pub tenant_id: String,
    pub namespace: String,
    pub actor: String,
    pub source: String,
    pub tier: MemoryTier,
}

pub struct ReadRequest {
    pub tenant_id: String,
    pub namespace: String,
    pub tier: MemoryTier,
    pub limit: usize,
}

pub struct PromotionRequest {
    pub tenant_id: String,
    pub namespace: String,
    pub from: MemoryTier,
    pub to: MemoryTier,
    pub candidate_id: String,
}

/// What a write carries. A trust score is the bit pattern of a double.
pub enum WritePayload {
    State(Document),
    StateWithTrust { document: Document, trust_score: u64 },
    Event(Document),
    Artifact(Document),
    Semantic(Document),
}

impl WritePayload {
    /// A deep copy.
    pub fn deep_clone(&self) -> (r: WritePayload)
        ensures
            payload_view(r) == payload_view(*self),
    {
        match self {
            WritePayload::State(d) => WritePayload::State(d.deep_clone()),
            WritePayload::StateWithTrust { document, trust_score } =>
                WritePayload::StateWithTrust { document: document.deep_clone(), trust_score: *trust_score },
            WritePayload::Event(d) => WritePayload::Event(d.deep_clone()),
            WritePayload::Artifact(d) => WritePayload::Artifact(d.deep_clone()),
            WritePayload::Semantic(d) => WritePayload::Semantic(d.deep_clone()),
        }
    }
}

/// A payload as its kind, its document, and its trust score if it has one.
pub open spec fn payload_view(p: WritePayload) -> (int, VDoc, Option<u64>) {
    match p {
        WritePayload::State(d) => (0, d@, None),
        WritePayload::StateWithTrust { document, trust_score } => (1, document@, Some(trust_score)),
        WritePayload::Event(d) => (2, d@, None),
        WritePayload::Artifact(d) => (3, d@, None),
        WritePayload::Semantic(d) => (4, d@, None),
    }
}

/// A write context as values.
pub open spec fn ctx_view(c: WriteContext) -> (Seq<char>, Seq<char>, Seq<char>, Seq<char>, MemoryTier) {
    (c.tenant_id@, c.namespace@, c.actor@, c.source@, c.tier)
}

/// A read request as values.
pub open spec fn read_view(r: ReadRequest) -> (Seq<char>, Seq<char>, MemoryTier, usize) {
    (r.tenant_id@, r.namespace@, r.tier, r.limit)
}

/// A promotion request as values.
pub open spec fn promotion_view(r: PromotionRequest) -> (Seq<char>, Seq<char>, MemoryTier, MemoryTier, Seq<char>) {
    (r.tenant_id@, r.namespace@, r.from, r.to, r.candidate_id@)
}

/// A decision as values: what it decides and why.
pub open spec fn decision_view(d: GovernanceDecision) -> (PolicyDecision, Seq<char>) {
    (d.decision, d.reason@)
}

/// Each hook answers as its spec function says: an implementation states,
/// as a function of the request's values, what it decides, and one that
/// keeps the default states that it answers as the pass-through hook below
/// does. An implementation outside verified code is trusted to keep its
/// word. The control plane's decisions are stated over these functions.
pub trait WriteValidationHook {
    open spec fn validate_spec(&self, ctx: (Seq<char>, Seq<char>, Seq<char>, Seq<char>, MemoryTier),
        payload: (int, VDoc, Option<u64>)) -> (PolicyDecision, Seq<char>) {
        (PolicyDecision::Allow, "validation_pass"@)
    }

    fn validate(&self, ctx: &WriteContext, payload: &WritePayload) -> (r: GovernanceDecision)
        ensures
            decision_view(r) == self.validate_spec(ctx_view(*ctx), payload_view(*payload));
}

/// Scores a write; the score is the bit pattern of a double.
pub trait TrustScoringHook {
    open spec fn score_spec(&self, ctx: (Seq<char>, Seq<char>, Seq<char>, Seq<char>, MemoryTier),
        payload: (int, VDoc, Option<u64>)) -> u64 {
        match payload.2 {
            Some(t) => t,
            None => one_bits(),
        }
    }

    fn score(&self, ctx: &WriteContext, payload: &WritePayload) -> (r: u64)
        ensures
            r == self.score_spec(ctx_view(*ctx), payload_view(*payload));
}

pub trait PromotionGateHook {
    open spec fn sanitize_spec(&self, request: (Seq<char>, Seq<char>, MemoryTier, MemoryTier, Seq<char>),
        payload: (int, VDoc, Option<u64>)) -> (int, VDoc, Option<u64>) {
        payload
    }

    open spec fn allow_spec(&self, request: (Seq<char>, Seq<char>, MemoryTier, MemoryTier, Seq<char>),
        payload: (int, VDoc, Option<u64>)) -> (PolicyDecision, Seq<char>) {
        (PolicyDecision::Allow, "promotion_allowed"@)
    }

    fn sanitize(&self, request: &PromotionRequest, payload: &WritePayload) -> (r: WritePayload)
        ensures
            payload_view(r) == self.sanitize_spec(promotion_view(*request), payload_view(*payload));

    fn allow(&self, request: &PromotionRequest, payload: &WritePayload) -> (r: GovernanceDecision)
        ensures
            decision_view(r) == self.allow_spec(promotion_view(*request), payload_view(*payload));
}

pub trait RetrievalGateHook {
    open spec fn allow_spec(&self, request: (Seq<char>, Seq<char>, MemoryTier, usize)) -> (PolicyDecision, Seq<char>) {
        (PolicyDecision::Allow, "retrieval_allowed"@)
    }

    fn allow(&self, request: &ReadRequest) -> (r: GovernanceDecision)
        ensures
            decision_view(r) == self.allow_spec(read_view(*request));
}

pub trait BoundedContextFilterHook {
    open spec fn apply_spec(&self, request: (Seq<char>, Seq<char>, MemoryTier, usize), candidates: Seq<VDoc>) -> Seq<VDoc> {
        candidates
    }

    fn apply(&self, request: &ReadRequest, candidates: Vec<Document>) -> (r: Vec<Document>)
        ensures
            doc_views(r@) == self.apply_spec(read_view(*request), doc_views(candidates@));
}

pub trait AnomalySignalHook {
    fn evaluate(&self, stage: &str, decision: &GovernanceDecision);
}

pub trait AuditSink {
    fn record(&self, stage: &str, decision: &GovernanceDecision);
}

fn decision_of(decision: PolicyDecision, reason: &str) -> (r: GovernanceDecision)
    ensures
        r.decision == decision,
        r.reason@ == reason@,
{
    GovernanceDecision { decision, reason: String::from_str(reason) }
}

/// Allows every write.
pub struct NoopWriteValidationHook;

impl WriteValidationHook for NoopWriteValidationHook {
    open spec fn validate_spec(&self, ctx: (Seq<char>, Seq<char>, Seq<char>, Seq<char>, MemoryTier),
        payload: (int, VDoc, Option<u64>)) -> (PolicyDecision, Seq<char>) {
        (PolicyDecision::Allow, "validation_pass"@)
    }

    fn validate(&self, ctx: &WriteContext, payload: &WritePayload) -> (r: GovernanceDecision)
    {
        decision_of(PolicyDecision::Allow, "validation_pass")
    }
}

/// Trusts a write as far as it says it is trusted, fully when it says
/// nothing.
pub struct NoopTrustScoringHook;

/// The bit pattern of the double 1.0.
pub open spec fn one_bits() -> u64 {
    0x3FF0_0000_0000_0000
}

impl TrustScoringHook for NoopTrustScoringHook {
    open spec fn score_spec(&self, ctx: (Seq<char>, Seq<char>, Seq<char>, Seq<char>, MemoryTier),
        payload: (int, VDoc, Option<u64>)) -> u64 {
        match payload.2 {
            Some(t) => t,
            None => one_bits(),
        }
    }

    fn score(&self, ctx: &WriteContext, payload: &WritePayload) -> (r: u64)
    {
        match payload {
            WritePayload::StateWithTrust { trust_score, .. } => *trust_score,
            _ => 0x3FF0_0000_0000_0000,
        }
    }
}

/// Promotes everything as it is.
pub struct NoopPromotionGateHook;

impl PromotionGateHook for NoopPromotionGateHook {
    open spec fn sanitize_spec(&self, request: (Seq<char>, Seq<char>, MemoryTier, MemoryTier, Seq<char>),
        payload: (int, VDoc, Option<u64>)) -> (int, VDoc, Option<u64>) {
        payload
    }

    open spec fn allow_spec(&self, request: (Seq<char>, Seq<char>, MemoryTier, MemoryTier, Seq<char>),
        payload: (int, VDoc, Option<u64>)) -> (PolicyDecision, Seq<char>) {
        (PolicyDecision::Allow, "promotion_allowed"@)
    }

    fn sanitize(&self, request: &PromotionRequest, payload: &WritePayload) -> (r: WritePayload)
    {
        payload.deep_clone()
    }

    fn allow(&self, request: &PromotionRequest, payload: &WritePayload) -> (r: GovernanceDecision)
    {
        decision_of(PolicyDecision::Allow, "promotion_allowed")
    }
}

/// Allows every read.
pub struct NoopRetrievalGateHook;

impl RetrievalGateHook for NoopRetrievalGateHook {
    open spec fn allow_spec(&self, request: (Seq<char>, Seq<char>, MemoryTier, usize)) -> (PolicyDecision, Seq<char>) {
        (PolicyDecision::Allow, "retrieval_allowed"@)
    }

    fn allow(&self, request: &ReadRequest) -> (r: GovernanceDecision)
    {
        decision_of(PolicyDecision::Allow, "retrieval_allowed")
    }
}

/// Keeps every candidate.
pub struct NoopBoundedContextFilterHook;

impl BoundedContextFilterHook for NoopBoundedContextFilterHook {
    open spec fn apply_spec(&self, request: (Seq<char>, Seq<char>, MemoryTier, usize), candidates: Seq<VDoc>) -> Seq<VDoc> {
        candidates
    }

    fn apply(&self, request: &ReadRequest, candidates: Vec<Document>) -> (r: Vec<Document>)
    {
        candidates
    }
}

/// Ignores every signal.
pub struct NoopAnomalySignalHook;

impl AnomalySignalHook for NoopAnomalySignalHook {
    fn evaluate(&self, stage: &str, decision: &GovernanceDecision) {
    }
}

/// Records nothing.
pub struct NoopAuditSink;

impl AuditSink for NoopAuditSink {
    fn record(&self, stage: &str, decision: &GovernanceDecision) {
    }
}

/// The bit pattern of the double 0.25, the lowest trust a write may have.
pub open spec fn trust_threshold() -> u64 {
    0x3FD0_0000_0000_0000
}

/// The verdict on a trust score: a score that is not a finite number is
/// invalid, one below 0.25 is too low, any other passes; the reason carries
/// the score with two decimals.
pub open spec fn trust_verdict(t: u64) -> (PolicyDecision, Seq<char>) {
    if f64_is_nan(t) || !f64_is_finite(t) {
        (PolicyDecision::Reject, "invalid_trust_score:"@ + fixed2_text(t))
    } else if f64_compare(t, trust_threshold()) == Some(-1i8) {
        (PolicyDecision::Reject, "trust_score_below_threshold:"@ + fixed2_text(t))
    } else {
        (PolicyDecision::Allow, "trust_score:"@ + fixed2_text(t))
    }
}

/// The decision on a trust score.
pub fn trust_decision(t: u64) -> (r: GovernanceDecision)
    ensures
        r.decision == trust_verdict(t).0,
        r.reason@ == trust_verdict(t).1,
{
    let text = format_fixed2(t);
    let (decision, prefix) = if is_nan(t) || !is_finite(t) {
        (PolicyDecision::Reject, "invalid_trust_score:")
    } else if float_compare(t, 0x3FD0_0000_0000_0000) == Some(-1i8) {
        (PolicyDecision::Reject, "trust_score_below_threshold:")
    } else {
        (PolicyDecision::Allow, "trust_score:")
    };
    let mut reason = String::from_str(prefix);
    string_append(&mut reason, &text);
    GovernanceDecision { decision, reason }
}

/// The decision on a write: a rejection by validation stands, otherwise
/// the trust score decides.
pub open spec fn write_verdict(validation: (PolicyDecision, Seq<char>), trust: u64) -> (PolicyDecision, Seq<char>) {
    if validation.0 == PolicyDecision::Reject { validation } else { trust_verdict(trust) }
}

/// The reason a read with no room for results is refused.
pub open spec fn invalid_limit_reason() -> Seq<char> {
    "invalid_read_request:limit_must_be_positive"@
}

/// The reason a promotion to the semantic tier from anywhere but the
/// episodic tier is refused.
pub open spec fn semantic_route_reason() -> Seq<char> {
    "semantic_promotion_requires_episodic_to_semantic"@
}

/// Only the episodic tier may be promoted to the semantic tier.
pub open spec fn semantic_route_ok(from: MemoryTier, to: MemoryTier) -> bool {
    to != MemoryTier::Semantic || from == MemoryTier::Episodic
}

/// The first `limit` of some documents.
pub open spec fn bounded(docs: Seq<VDoc>, limit: usize) -> Seq<VDoc> {
    docs.take(if limit < docs.len() { limit as int } else { docs.len() as int })
}

/// The first `limit` candidates.
pub fn truncate_candidates(candidates: Vec<Document>, limit: usize) -> (r: Vec<Document>)
    ensures
        r@ == candidates@.take(if limit < candidates@.len() { limit as int } else { candidates@.len() as int }),
{
    let mut c = candidates;
    c.truncate(limit);
    c
}

/// The runtime that applies the hooks in a fixed order.
pub struct ControlPlane<V, T, P, R, B, A, S> {
    pub validation_hook: V,
    pub trust_hook: T,
    pub promotion_hook: P,
    pub retrieval_hook: R,
    pub bounded_context_hook: B,
    pub anomaly_hook: A,
    pub audit_sink: S,
}

/// The control plane whose hooks do nothing.
pub type DefaultControlPlane = ControlPlane<
    NoopWriteValidationHook,
    NoopTrustScoringHook,
    NoopPromotionGateHook,
    NoopRetrievalGateHook,
    NoopBoundedContextFilterHook,
    NoopAnomalySignalHook,
    NoopAuditSink,
>;

/// A control plane with the hooks that do nothing.
pub fn default_control_plane() -> (r: DefaultControlPlane)
    ensures
        r == (ControlPlane {
            validation_hook: NoopWriteValidationHook,
            trust_hook: NoopTrustScoringHook,
            promotion_hook: NoopPromotionGateHook,
            retrieval_hook: NoopRetrievalGateHook,
            bounded_context_hook: NoopBoundedContextFilterHook,
            anomaly_hook: NoopAnomalySignalHook,
            audit_sink: NoopAuditSink,
        }),
{
    ControlPlane {
        validation_hook: NoopWriteValidationHook,
        trust_hook: NoopTrustScoringHook,
        promotion_hook: NoopPromotionGateHook,
        retrieval_hook: NoopRetrievalGateHook,
        bounded_context_hook: NoopBoundedContextFilterHook,
        anomaly_hook: NoopAnomalySignalHook,
        audit_sink: NoopAuditSink,
    }
}

impl<V, T, P, R, B, A, S> ControlPlane<V, T, P, R, B, A, S>
    where
        V: WriteValidationHook,
        T: TrustScoringHook,
        P: PromotionGateHook,
        R: RetrievalGateHook,
        B: BoundedContextFilterHook,
        A: AnomalySignalHook,
        S: AuditSink,
{
    pub fn with_hooks(
        validation_hook: V,
        trust_hook: T,
        promotion_hook: P,
        retrieval_hook: R,
        bounded_context_hook: B,
        anomaly_hook: A,
        audit_sink: S,
    ) -> (r: Self)
        ensures
            r.validation_hook == validation_hook,
            r.trust_hook == trust_hook,
            r.promotion_hook == promotion_hook,
            r.retrieval_hook == retrieval_hook,
            r.bounded_context_hook == bounded_context_hook,
            r.anomaly_hook == anomaly_hook,
            r.audit_sink == audit_sink,
    {
        ControlPlane {
            validation_hook,
            trust_hook,
            promotion_hook,
            retrieval_hook,
            bounded_context_hook,
            anomaly_hook,
            audit_sink,
        }
    }

    /// Whether a decision rejects.
    pub fn is_reject(decision: &GovernanceDecision) -> (r: bool)
        ensures
            r == (decision.decision == PolicyDecision::Reject),
    {
        crate::types::is_reject(decision)
    }

    /// The audit label of a decision.
    pub fn decision_label(decision: &GovernanceDecision) -> (r: &'static str)
        ensures
            r@ == crate::types::spec_decision_label(decision.decision),
    {
        crate::types::decision_label(decision)
    }

    /// The write path: validation, its audit and anomaly signal; then, unless
    /// validation rejected, the trust score, its decision, audit and anomaly
    /// signal. The decision is validation's rejection or the verdict on the
    /// score the trust hook gave.
    pub fn write_path(&self, ctx: &WriteContext, payload: &WritePayload) -> (r: Result<GovernanceDecision, RangoError>)
        ensures
            r matches Ok(d) && decision_view(d) == write_verdict(
                self.validation_hook.validate_spec(ctx_view(*ctx), payload_view(*payload)),
                self.trust_hook.score_spec(ctx_view(*ctx), payload_view(*payload))),
    {
        let validation = self.validation_hook.validate(ctx, payload);
        self.audit_sink.record("write.validate", &validation);
        self.anomaly_hook.evaluate("write.validate", &validation);
        if crate::types::is_reject(&validation) {
            return Ok(validation);
        }
        let trust = self.trust_hook.score(ctx, payload);
        let decision = trust_decision(trust);
        self.audit_sink.record("write.trust", &decision);
        self.anomaly_hook.evaluate("write.trust", &decision);
        Ok(decision)
    }

    /// The read path: a request for no results is refused outright;
    /// otherwise the retrieval gate decides (with its audit and anomaly
    /// signal), a rejection returns nothing, and an allowed read returns the
    /// bounded-context filter's candidates cut to the limit.
    pub fn read_path(&self, request: &ReadRequest, candidates: Vec<Document>)
        -> (r: Result<(GovernanceDecision, Vec<Document>), RangoError>)
        ensures
            r matches Ok((d, out)) && if request.limit == 0 {
                d.decision == PolicyDecision::Reject && d.reason@ == invalid_limit_reason() && out@.len() == 0
            } else {
                let gate = self.retrieval_hook.allow_spec(read_view(*request));
                &&& decision_view(d) == gate
                &&& if gate.0 == PolicyDecision::Reject {
                    out@.len() == 0
                } else {
                    doc_views(out@) == bounded(self.bounded_context_hook.apply_spec(read_view(*request),
                        doc_views(candidates@)), request.limit)
                }
            },
    {
        if request.limit == 0 {
            proof { reveal_strlit("invalid_read_request:limit_must_be_positive"); }
            let d = decision_of(PolicyDecision::Reject, "invalid_read_request:limit_must_be_positive");
            return Ok((d, Vec::new()));
        }
        let retrieval = self.retrieval_hook.allow(request);
        self.audit_sink.record("read.gate", &retrieval);
        self.anomaly_hook.evaluate("read.gate", &retrieval);
        if crate::types::is_reject(&retrieval) {
            return Ok((retrieval, Vec::new()));
        }
        let filtered = self.bounded_context_hook.apply(request, candidates);
        let kept = truncate_candidates(filtered, request.limit);
        assert(doc_views(kept@) =~= bounded(doc_views(filtered@), request.limit));
        Ok((retrieval, kept))
    }

    /// The promotion path: a route to the semantic tier from anywhere but
    /// the episodic tier is refused with the payload as it came; otherwise
    /// the candidate is sanitized, the promotion gate decides on it, and the
    /// decision is audited and signalled.
    pub fn promotion_path(&self, request: &PromotionRequest, payload: &WritePayload)
        -> (r: Result<(GovernanceDecision, WritePayload), RangoError>)
        ensures
            r is Ok,
            !semantic_route_ok(request.from, request.to) ==> (r matches Ok((d, p)) && d.decision == PolicyDecision::Reject
                && d.reason@ == semantic_route_reason() && payload_view(p) == payload_view(*payload)),
            semantic_route_ok(request.from, request.to) ==> (r matches Ok((d, p)) && ({
                let sp = self.promotion_hook.sanitize_spec(promotion_view(*request), payload_view(*payload));
                &&& payload_view(p) == sp
                &&& decision_view(d) == self.promotion_hook.allow_spec(promotion_view(*request), sp)
            })),
    {
        let route = validate_semantic_promotion(request);
        if crate::types::is_reject(&route) {
            self.audit_sink.record("promotion.gate", &route);
            self.anomaly_hook.evaluate("promotion.gate", &route);
            return Ok((route, payload.deep_clone()));
        }
        let sanitized = self.promotion_hook.sanitize(request, payload);
        let decision = self.promotion_hook.allow(request, &sanitized);
        self.audit_sink.record("promotion.gate", &decision);
        self.anomaly_hook.evaluate("promotion.gate", &decision);
        Ok((decision, sanitized))
    }
}

/// Checks the route of a promotion: only the episodic tier may be promoted
/// to the semantic tier.
pub fn validate_semantic_promotion(request: &PromotionRequest) -> (r: GovernanceDecision)
    ensures
        semantic_route_ok(request.from, request.to) ==> r.decision == PolicyDecision::Allow,
        !semantic_route_ok(request.from, request.to) ==> r.decision == PolicyDecision::Reject
            && r.reason@ == semantic_route_reason(),
{
    if request.to == MemoryTier::Semantic && request.from != MemoryTier::Episodic {
        proof { reveal_strlit("semantic_promotion_requires_episodic_to_semantic"); }
        decision_of(PolicyDecision::Reject, "semantic_promotion_requires_episodic_to_semantic")
    } else {
        decision_of(PolicyDecision::Allow, "promotion_route_valid")
    }
}

} // verus!
