use std::sync::Mutex;

use rango::control_plane::{
    ControlPlane, NoopAnomalySignalHook, NoopAuditSink, NoopBoundedContextFilterHook, NoopPromotionGateHook,
    NoopRetrievalGateHook, NoopTrustScoringHook, NoopWriteValidationHook, PromotionGateHook, PromotionRequest,
    BoundedContextFilterHook, ReadRequest, WritePayload,
};
use rango::oplog::{MemoryOplog, Mutation, MutationMetadata, MutationOp, OplogEntry, OplogOrigin};
use rango::revision::Revision;
use rango::server::{PromoteRequest, PullRequest, RequestHeaders, ServerState};
use rango::types::{GovernanceDecision, MemoryTier, PolicyDecision};
use rango::value::{Document, Value};

struct RecordingPromotionHook {
    decisions: Mutex<Vec<PolicyDecision>>,
}

impl PromotionGateHook for RecordingPromotionHook {
    fn sanitize(&self, _request: &PromotionRequest, payload: &WritePayload) -> WritePayload {
        payload.deep_clone()
    }

    fn allow(&self, _request: &PromotionRequest, _payload: &WritePayload) -> GovernanceDecision {
        let decision = self.decisions.lock().unwrap().remove(0);
        let reason = match decision {
            PolicyDecision::Allow => "promote_allow",
            PolicyDecision::Sanitize => "promote_sanitize",
            PolicyDecision::Reject => "promote_reject",
        };
        GovernanceDecision { decision, reason: reason.to_string() }
    }
}

struct AllowedOnlyFilter;

impl BoundedContextFilterHook for AllowedOnlyFilter {
    fn apply(&self, _request: &ReadRequest, candidates: Vec<Document>) -> Vec<Document> {
        candidates
            .into_iter()
            .filter(|c| matches!(c.get_lit("allowed"), Some(Value::Bool(true))))
            .collect()
    }
}

fn make_headers() -> RequestHeaders {
    RequestHeaders {
        protocol_version: Some("1".to_string()),
        authorization: Some("Bearer test-token".to_string()),
        read_tier: None,
    }
}

fn make_mutation(write_id: &str, patch: Document, score: f64) -> Mutation {
    let rev = Revision::new(1000, 0, "node-1".to_string());
    Mutation {
        op: MutationOp::Update,
        collection: "state".to_string(),
        doc_id: Value::Str(format!("doc-{}", write_id)),
        patch: Some(patch),
        seq: 0,
        timestamp: 1,
        rev: Revision::new(1000, 0, "node-1".to_string()),
        write_id: write_id.to_string(),
        metadata: MutationMetadata {
            id: Value::Str(format!("doc-{}", write_id)),
            namespace: "ns".to_string(),
            tenant_id: "tenant-a".to_string(),
            kind: "state".to_string(),
            rev,
            created_at: 1,
            updated_at: 1,
            source: "node-1".to_string(),
            actor: "node-1".to_string(),
            lineage: format!("lineage-{}", write_id),
            schema_version: 1,
            trust_score: score.to_bits(),
            verified: Some(true),
            expires_at: None,
        },
    }
}

fn make_promote_request(write_id: &str, score: f64, from: MemoryTier, to: MemoryTier) -> PromoteRequest {
    let mut patch = Document::new();
    patch.insert_lit("memory", Value::Str("promoted".to_string()));
    patch.insert_lit("write_id", Value::Str(write_id.to_string()));
    PromoteRequest {
        node_id: "node-1".to_string(),
        tenant_id: "tenant-a".to_string(),
        namespace: "ns".to_string(),
        from_tier: from,
        to_tier: to,
        candidate_id: format!("candidate-{}", write_id),
        mutation: make_mutation(write_id, patch, score),
    }
}

#[test]
fn promote_runtime_enforces_promotion_path_allow_then_reject_with_audit() {
    let control_plane = ControlPlane::with_hooks(
        NoopWriteValidationHook,
        NoopTrustScoringHook,
        RecordingPromotionHook { decisions: Mutex::new(vec![PolicyDecision::Allow, PolicyDecision::Reject]) },
        NoopRetrievalGateHook,
        NoopBoundedContextFilterHook,
        NoopAnomalySignalHook,
        NoopAuditSink,
    );
    let mut state = ServerState::with_control_plane(control_plane);
    state.add_token_with_tenant("test-token", "node-1", "tenant-a");

    let allow = state
        .handle_promote(&make_headers(), make_promote_request("w-allow", 0.95, MemoryTier::Episodic, MemoryTier::Semantic), 0)
        .ok()
        .unwrap();
    assert_eq!(allow.accepted_seqs.len(), 1);
    assert_eq!(allow.rejected_count, 0);
    assert_eq!(allow.audit.len(), 1);
    assert!(matches!(allow.audit[0].decision, PolicyDecision::Allow));
    assert_eq!(allow.audit[0].reason, "promote_allow");

    let reject = state
        .handle_promote(&make_headers(), make_promote_request("w-reject", 0.95, MemoryTier::Episodic, MemoryTier::Semantic), 10)
        .ok()
        .unwrap();
    assert_eq!(reject.accepted_seqs.len(), 0);
    assert_eq!(reject.rejected_count, 1);
    assert_eq!(reject.audit.len(), 1);
    assert!(matches!(reject.audit[0].decision, PolicyDecision::Reject));
    assert_eq!(reject.audit[0].reason, "promote_reject");

    let persisted = state.oplog().read_since(1, 100);
    let state_entries: Vec<_> = persisted.iter().filter(|e| e.mutation.metadata.kind == "state").collect();
    assert_eq!(state_entries.len(), 1);
    assert_eq!(state_entries[0].mutation.write_id, "w-allow");
}

#[test]
fn promote_runtime_rejects_invalid_metadata_before_promotion_path() {
    let mut state = ServerState::new(MemoryOplog::new());
    state.add_token_with_tenant("test-token", "node-1", "tenant-a");
    let mut invalid = make_promote_request("w-invalid", 0.9, MemoryTier::Episodic, MemoryTier::Semantic);
    invalid.mutation.metadata.source = String::new();
    let response = state.handle_promote(&make_headers(), invalid, 0).ok().unwrap();
    assert_eq!(response.accepted_seqs.len(), 0);
    assert_eq!(response.rejected_count, 1);
    assert_eq!(response.audit.len(), 1);
    assert!(matches!(response.audit[0].decision, PolicyDecision::Reject));
    assert!(response.audit[0].reason.contains("invalid_metadata:"));
    let persisted = state.oplog().read_since(1, 100);
    assert!(persisted.iter().all(|e| e.mutation.metadata.kind != "state"));
}

#[test]
fn semantic_promotion_requires_episodic_to_semantic_path() {
    let mut state = ServerState::new(MemoryOplog::new());
    state.add_token_with_tenant("test-token", "node-1", "tenant-a");
    let response = state
        .handle_promote(&make_headers(), make_promote_request("w-1", 0.95, MemoryTier::State, MemoryTier::Semantic), 0)
        .ok()
        .unwrap();
    assert!(response.accepted_seqs.is_empty());
    assert_eq!(response.rejected_count, 1);
    assert_eq!(response.audit.len(), 1);
    assert!(matches!(response.audit[0].decision, PolicyDecision::Reject));
    assert!(response.audit[0].reason.contains("semantic_promotion_requires_episodic_to_semantic"));
    // only the audit record was appended
    let persisted = state.oplog().read_since(1, 100);
    assert_eq!(persisted.len(), 1);
    assert_eq!(persisted[0].mutation.collection, "__governance_audit");
}

#[test]
fn pull_payload_uses_control_plane_filtered_candidates() {
    let mut oplog = MemoryOplog::new();
    for (wid, allowed) in [("w1", true), ("w2", false)] {
        let mut patch = Document::new();
        patch.insert_lit("value", Value::Str(wid.to_string()));
        patch.insert_lit("allowed", Value::Bool(allowed));
        let mut m = make_mutation(wid, patch, 0.8);
        m.op = MutationOp::Insert;
        oplog
            .append(OplogEntry { seq: 0, timestamp: 1, mutation: m, origin: OplogOrigin::Remote, applied: false })
            .unwrap();
    }
    let control_plane = ControlPlane::with_hooks(
        NoopWriteValidationHook,
        NoopTrustScoringHook,
        NoopPromotionGateHook,
        NoopRetrievalGateHook,
        AllowedOnlyFilter,
        NoopAnomalySignalHook,
        NoopAuditSink,
    );
    let mut state = ServerState::with_oplog(oplog, control_plane);
    state.add_token_with_tenant("test-token", "node-1", "tenant-a");
    let response = state
        .handle_pull(
            &make_headers(),
            PullRequest { node_id: "node-1".to_string(), tenant_id: "tenant-a".to_string(), namespace: "ns".to_string(), since_checkpoint: 0 },
            0,
        )
        .ok()
        .unwrap();
    assert_eq!(response.mutations.len(), 1);
    assert_eq!(response.mutations[0].write_id, "w1");
    assert!(matches!(response.audit[0].decision, PolicyDecision::Allow));
    assert_eq!(response.new_checkpoint, 2);
    assert_eq!(response.mutations[0].collection, "state");
    assert!(matches!(response.mutations[0].op, MutationOp::Insert));
    assert_eq!(response.mutations[0].metadata.tenant_id, "tenant-a");
    assert_eq!(response.mutations[0].metadata.namespace, "ns");
}

#[test]
fn pulled_mutation_keeps_the_logged_fields() {
    let mut oplog = MemoryOplog::new();
    let mut patch = Document::new();
    patch.insert_lit("value", Value::Str("v".to_string()));
    let mut m = make_mutation("w9", patch, 0.8);
    m.timestamp = 42;
    m.rev = Revision::new(5000, 3, "node-7".to_string());
    oplog
        .append(OplogEntry { seq: 0, timestamp: 42, mutation: m, origin: OplogOrigin::Remote, applied: false })
        .unwrap();
    let mut state = ServerState::with_oplog(oplog, rango::control_plane::default_control_plane());
    state.add_token_with_tenant("test-token", "node-1", "tenant-a");
    let response = state
        .handle_pull(
            &make_headers(),
            PullRequest { node_id: "node-1".to_string(), tenant_id: "tenant-a".to_string(), namespace: "ns".to_string(), since_checkpoint: 0 },
            0,
        )
        .ok()
        .unwrap();
    assert_eq!(response.mutations.len(), 1);
    let p = &response.mutations[0];
    assert!(matches!(p.op, MutationOp::Update));
    assert_eq!(p.collection, "state");
    assert_eq!(p.timestamp, 42);
    assert_eq!(p.rev.to_text(), "5000-3-node-7");
    assert_eq!(p.metadata.lineage, "lineage-w9");
    assert_eq!(p.metadata.created_at, 1);
    assert_eq!(p.metadata.schema_version, 1);
}
