use rango::control_plane::default_control_plane;
use rango::oplog::{Mutation, MutationMetadata, MutationOp};
use rango::retrieval::{AdapterError, RetrievalCapabilityRequest, RetrievalStatus};
use rango::revision::Revision;
use rango::server::{
    parse_bearer, validate_metadata, PromoteRequest, PullRequest, PushRequest, RequestHeaders, ServerState,
};
use rango::types::{MemoryTier, PolicyDecision};
use rango::value::{Document, Value};

fn headers(token: &str) -> RequestHeaders {
    RequestHeaders {
        protocol_version: Some("1".to_string()),
        authorization: Some(format!("Bearer {}", token)),
        read_tier: None,
    }
}

fn meta(tenant: &str, ns: &str, trust: f64) -> MutationMetadata {
    MutationMetadata {
        id: Value::Str("doc-1".to_string()),
        namespace: ns.to_string(),
        tenant_id: tenant.to_string(),
        kind: "state".to_string(),
        rev: Revision::new(1000, 0, "node-1".to_string()),
        created_at: 1,
        updated_at: 1,
        source: "node-1".to_string(),
        actor: "node-1".to_string(),
        lineage: "lineage-1".to_string(),
        schema_version: 1,
        trust_score: trust.to_bits(),
        verified: Some(true),
        expires_at: None,
    }
}

fn mutation(tenant: &str, ns: &str, write_id: &str, trust: f64) -> Mutation {
    let mut patch = Document::new();
    patch.insert_lit("_id", Value::Str("doc-1".to_string()));
    patch.insert_lit("name", Value::Str("Alice".to_string()));
    Mutation {
        op: MutationOp::Insert,
        collection: ns.to_string(),
        doc_id: Value::Str("doc-1".to_string()),
        patch: Some(patch),
        seq: 0,
        timestamp: 1,
        rev: Revision::new(1000, 0, "node-1".to_string()),
        write_id: write_id.to_string(),
        metadata: meta(tenant, ns, trust),
    }
}

fn push(node: &str, tenant: &str, ns: &str, muts: Vec<Mutation>) -> PushRequest {
    PushRequest {
        node_id: node.to_string(),
        tenant_id: tenant.to_string(),
        namespace: ns.to_string(),
        mutations: muts,
        last_checkpoint: 0,
    }
}

fn pull(node: &str, tenant: &str, ns: &str) -> PullRequest {
    PullRequest { node_id: node.to_string(), tenant_id: tenant.to_string(), namespace: ns.to_string(), since_checkpoint: 0 }
}

#[test]
fn push_requires_protocol_version_and_token() {
    let mut state = ServerState::with_control_plane(default_control_plane());
    state.add_token_with_tenant("token-1", "node-1", "tenant-a");

    let mut bad_version = headers("token-1");
    bad_version.protocol_version = Some("2".to_string());
    let r = state.handle_push(&bad_version, push("node-1", "tenant-a", "ns-a", vec![]), 0);
    assert_eq!(r.err(), Some(400));

    let r = state.handle_push(&headers("nope"), push("node-1", "tenant-a", "ns-a", vec![]), 0);
    assert_eq!(r.err(), Some(401));
}

#[test]
fn push_then_pull_stays_within_tenant() {
    let mut state = ServerState::with_control_plane(default_control_plane());
    state.add_token_with_tenant("token-a", "node-1", "tenant-a");
    state.add_token_with_tenant("token-b", "node-2", "tenant-b");

    let resp = state
        .handle_push(&headers("token-a"), push("node-1", "tenant-a", "ns-a", vec![mutation("tenant-a", "ns-a", "w-1", 0.9)]), 10)
        .ok()
        .unwrap();
    assert_eq!(resp.accepted_seqs.len(), 1);
    assert_eq!(resp.rejected_cross_tenant_count, 0);

    // the owner's tenant sees it
    let got = state.handle_pull(&headers("token-a"), pull("node-1", "tenant-a", "ns-a"), 20).ok().unwrap();
    assert_eq!(got.mutations.len(), 1);
    assert_eq!(got.mutations[0].write_id, "w-1");
    assert!(got.mutations.iter().all(|m| m.metadata.tenant_id == "tenant-a"));

    // another tenant sees nothing of it
    let other = state.handle_pull(&headers("token-b"), pull("node-2", "tenant-b", "ns-a"), 30).ok().unwrap();
    assert!(other.mutations.iter().all(|m| m.metadata.tenant_id == "tenant-b"));
    assert_eq!(other.mutations.len(), 0);

    // asking for another tenant's data with one's own token gets nothing
    // but an audited refusal
    let before = state.oplog().len();
    let r = state.handle_pull(&headers("token-b"), pull("node-2", "tenant-a", "ns-a"), 40).ok().unwrap();
    assert!(r.mutations.is_empty());
    assert!(r.audit.iter().any(|d| d.reason.contains("tenant_mismatch")));
    assert_eq!(state.oplog().len(), before + 1);

    // a token of another node is forbidden
    let r = state.handle_pull(&headers("token-b"), pull("node-1", "tenant-b", "ns-a"), 50);
    assert_eq!(r.err(), Some(403));
}

#[test]
fn push_rejects_cross_tenant_and_invalid_metadata() {
    let mut state = ServerState::with_control_plane(default_control_plane());
    state.add_token_with_tenant("token-a", "node-1", "tenant-a");

    // the request names another tenant than the token's
    let resp = state
        .handle_push(&headers("token-a"), push("node-1", "tenant-b", "ns-a", vec![mutation("tenant-b", "ns-a", "w-1", 0.9)]), 0)
        .ok()
        .unwrap();
    assert_eq!(resp.accepted_seqs.len(), 0);
    assert_eq!(resp.rejected_cross_tenant_count, 1);
    assert_eq!(resp.audit[0].reason, "tenant_mismatch");
    assert_eq!(state.cross_tenant_rejections(), 1);

    // a node pushing for another node
    let resp = state
        .handle_push(&headers("token-a"), push("node-9", "tenant-a", "ns-a", vec![]), 0)
        .ok()
        .unwrap();
    assert_eq!(resp.rejected_non_owner_count, 1);
    assert_eq!(resp.audit[0].reason, "node_mismatch");

    // a mutation whose metadata names another tenant is not accepted
    let resp = state
        .handle_push(&headers("token-a"), push("node-1", "tenant-a", "ns-a", vec![mutation("tenant-b", "ns-a", "w-2", 0.9)]), 0)
        .ok()
        .unwrap();
    assert_eq!(resp.accepted_seqs.len(), 0);

    // invalid metadata
    let mut m = mutation("tenant-a", "ns-a", "w-3", 0.9);
    m.metadata.lineage = String::new();
    let resp = state.handle_push(&headers("token-a"), push("node-1", "tenant-a", "ns-a", vec![m]), 0).ok().unwrap();
    assert_eq!(resp.accepted_seqs.len(), 0);
    assert_eq!(resp.audit[0].decision, PolicyDecision::Reject);
}

#[test]
fn low_trust_push_is_reported_as_poisoning() {
    let mut state = ServerState::with_control_plane(default_control_plane());
    state.add_token_with_tenant("token-a", "node-1", "tenant-a");
    let resp = state
        .handle_push(&headers("token-a"), push("node-1", "tenant-a", "ns-a", vec![mutation("tenant-a", "ns-a", "w-1", 0.1)]), 0)
        .ok()
        .unwrap();
    assert_eq!(resp.accepted_seqs.len(), 0);
    assert_eq!(resp.audit[0].decision, PolicyDecision::Reject);
    assert!(resp.audit[0].reason.starts_with("poisoning_low_trust:trust_score_below_threshold"));
}

#[test]
fn promotion_requires_episodic_to_semantic() {
    let mut state = ServerState::with_control_plane(default_control_plane());
    state.add_token_with_tenant("token-a", "node-1", "tenant-a");
    let req = PromoteRequest {
        node_id: "node-1".to_string(),
        tenant_id: "tenant-a".to_string(),
        namespace: "ns-a".to_string(),
        from_tier: MemoryTier::State,
        to_tier: MemoryTier::Semantic,
        candidate_id: "c-1".to_string(),
        mutation: mutation("tenant-a", "ns-a", "w-p", 0.9),
    };
    let resp = state.handle_promote(&headers("token-a"), req, 0).ok().unwrap();
    assert_eq!(resp.rejected_count, 1);
    assert_eq!(resp.audit[0].reason, "semantic_promotion_requires_episodic_to_semantic");
}

#[test]
fn retrieval_timeout_degrades_to_canonical_safe_response() {
    let mut state = ServerState::with_control_plane(default_control_plane());
    state.add_token_with_tenant("token-1", "node-1", "tenant-a");
    let req = RetrievalCapabilityRequest::new("tenant-a", "ns-a", "find incidents");
    let resp = state
        .handle_retrieval_read(&headers("token-1"), &req, Err(AdapterError::unavailable("adapter_unavailable")), 0)
        .ok()
        .unwrap();
    assert!(resp.canonical_fallback);
    assert_eq!(resp.status, RetrievalStatus::Degraded);
    assert_eq!(resp.retrieval_status_reason, "adapter_unavailable");
    assert!(resp.kept.is_empty());

    // another tenant's token is refused
    state.add_token_with_tenant("token-2", "node-2", "tenant-b");
    let r = state.handle_retrieval_read(&headers("token-2"), &req, Ok(vec![]), 0);
    assert_eq!(r.err(), Some(403));
}

#[test]
fn retrieval_keeps_ranked_candidates_the_read_path_allows() {
    let mut state = ServerState::with_control_plane(default_control_plane());
    state.add_token_with_tenant("token-1", "node-1", "tenant-a");
    let req = RetrievalCapabilityRequest::new("tenant-a", "ns-a", "q").with_limit(2);
    let mk = |id: &str| {
        let mut d = Document::new();
        d.insert_lit("candidate_id", Value::Str(id.to_string()));
        (id.to_string(), d)
    };
    let ranked = vec![mk("a"), mk("b"), mk("c")];
    let resp = state.handle_retrieval_read(&headers("token-1"), &req, Ok(ranked), 0).ok().unwrap();
    assert_eq!(resp.status, RetrievalStatus::Healthy);
    assert!(!resp.canonical_fallback);
    assert_eq!(resp.kept, vec![0, 1]);
    assert_eq!(resp.retrieval_status_reason, "retrieval_allowed");
}

#[test]
fn metadata_validation_names_the_first_fault() {
    assert!(validate_metadata(&meta("t", "n", 0.5)).is_ok());
    assert_eq!(validate_metadata(&meta("", "n", 0.5)).err().unwrap(), "tenant_id_required");
    assert_eq!(validate_metadata(&meta("t", "", 0.5)).err().unwrap(), "namespace_required");
    assert_eq!(validate_metadata(&meta("t", "n", 1.5)).err().unwrap(), "trust_score_out_of_range");
    assert_eq!(validate_metadata(&meta("t", "n", f64::NAN)).err().unwrap(), "trust_score_out_of_range");
    let mut m = meta("t", "n", 0.5);
    m.schema_version = 0;
    assert_eq!(validate_metadata(&m).err().unwrap(), "schema_version_must_be_positive");
}

#[test]
fn bearer_tokens_are_parsed() {
    assert_eq!(parse_bearer("Bearer abc"), Some("abc".to_string()));
    assert_eq!(parse_bearer("Basic abc"), None);
}

#[test]
fn pull_identity_candidates_must_be_unique_and_tenant_scoped() {
    let mut state = ServerState::with_control_plane(default_control_plane());
    state.add_token_with_tenant("token-a", "node-1", "tenant-a");
    state.add_token_with_tenant("token-b", "node-2", "tenant-b");

    let first = state
        .handle_push(&headers("token-a"), push("node-1", "tenant-a", "ns-a", vec![mutation("tenant-a", "ns-a", "write-1", 0.9)]), 0)
        .ok()
        .unwrap();
    assert_eq!(first.accepted_seqs.len(), 1);

    // the same write id in the same tenant and namespace is taken once
    let again = state
        .handle_push(&headers("token-a"), push("node-1", "tenant-a", "ns-a", vec![mutation("tenant-a", "ns-a", "write-1", 0.9)]), 1)
        .ok()
        .unwrap();
    assert_eq!(again.accepted_seqs, first.accepted_seqs);

    // another tenant's same write id is a distinct identity
    let other = state
        .handle_push(&headers("token-b"), push("node-2", "tenant-b", "ns-a", vec![mutation("tenant-b", "ns-a", "write-1", 0.9)]), 2)
        .ok()
        .unwrap();
    assert_eq!(other.accepted_seqs.len(), 1);
    assert_ne!(other.accepted_seqs, first.accepted_seqs);
}

fn audit_count(entries: &[&rango::oplog::OplogEntry]) -> usize {
    entries.iter().filter(|e| e.mutation.collection == "__governance_audit").count()
}

fn promote_req(node: &str, tenant: &str, m: Mutation) -> PromoteRequest {
    PromoteRequest {
        node_id: node.to_string(),
        tenant_id: tenant.to_string(),
        namespace: "ns-audit".to_string(),
        from_tier: MemoryTier::State,
        to_tier: MemoryTier::Episodic,
        candidate_id: "candidate-1".to_string(),
        mutation: m,
    }
}

#[test]
fn push_node_mismatch_emits_audit_record() {
    let mut state = ServerState::with_control_plane(default_control_plane());
    state.add_token_with_tenant("token-a", "client-a", "tenant-a");
    let before = audit_count(&state.oplog().read_since(0, 1000));
    let resp = state
        .handle_push(&headers("token-a"), push("wrong-node", "tenant-a", "ns-audit", vec![mutation("tenant-a", "ns-audit", "test-1", 0.95)]), 0)
        .ok()
        .unwrap();
    assert_eq!(resp.accepted_seqs.len(), 0);
    assert_eq!(resp.rejected_non_owner_count, 1);
    let after = audit_count(&state.oplog().read_since(0, 1000));
    assert!(after > before);
}

#[test]
fn promote_node_mismatch_emits_audit_record() {
    let mut state = ServerState::with_control_plane(default_control_plane());
    state.add_token_with_tenant("token-a", "client-a", "tenant-a");
    let before = audit_count(&state.oplog().read_since(0, 1000));
    let resp = state
        .handle_promote(&headers("token-a"), promote_req("wrong-node", "tenant-a", mutation("tenant-a", "ns-audit", "promote-1", 0.95)), 0)
        .ok()
        .unwrap();
    assert_eq!(resp.accepted_seqs.len(), 0);
    assert_eq!(resp.rejected_count, 1);
    let after = audit_count(&state.oplog().read_since(0, 1000));
    assert!(after > before);
}

#[test]
fn promote_tenant_mismatch_emits_audit_record() {
    let mut state = ServerState::with_control_plane(default_control_plane());
    state.add_token_with_tenant("token-a", "client-a", "tenant-a");
    let before = audit_count(&state.oplog().read_since(0, 1000));
    let resp = state
        .handle_promote(&headers("token-a"), promote_req("client-a", "tenant-b", mutation("tenant-b", "ns-audit", "promote-2", 0.95)), 0)
        .ok()
        .unwrap();
    assert_eq!(resp.accepted_seqs.len(), 0);
    assert_eq!(resp.rejected_count, 1);
    let after = audit_count(&state.oplog().read_since(0, 1000));
    assert!(after > before);
}

#[test]
fn promote_invalid_metadata_emits_audit_record() {
    let mut state = ServerState::with_control_plane(default_control_plane());
    state.add_token_with_tenant("token-a", "client-a", "tenant-a");
    let before = audit_count(&state.oplog().read_since(0, 1000));
    let mut bad = mutation("tenant-a", "ns-audit", "promote-3", 0.95);
    bad.metadata.tenant_id = "tenant-b".to_string();
    let resp = state.handle_promote(&headers("token-a"), promote_req("client-a", "tenant-a", bad), 0).ok().unwrap();
    assert_eq!(resp.accepted_seqs.len(), 0);
    assert_eq!(resp.rejected_count, 1);
    let after = audit_count(&state.oplog().read_since(0, 1000));
    assert!(after > before);
}

#[test]
fn all_boundary_violations_produce_audit_records() {
    let mut state = ServerState::with_control_plane(default_control_plane());
    state.add_token_with_tenant("token-a", "client-a", "tenant-a");
    state.add_token_with_tenant("token-b", "client-b", "tenant-b");

    let cross = state
        .handle_push(&headers("token-a"), push("client-a", "tenant-a", "ns-audit", vec![mutation("tenant-b", "ns-audit", "forged-b", 0.95)]), 0)
        .ok()
        .unwrap();
    assert_eq!(cross.accepted_seqs.len(), 0);
    assert!(cross.audit.iter().any(|d| d.reason.contains("cross_tenant")));

    let poisoning = state
        .handle_push(&headers("token-a"), push("client-a", "tenant-a", "ns-audit", vec![mutation("tenant-a", "ns-audit", "poison", 0.05)]), 0)
        .ok()
        .unwrap();
    assert_eq!(poisoning.accepted_seqs.len(), 0);
    assert!(poisoning.audit.iter().any(|d| d.reason.contains("trust") || d.reason.contains("poison")));

    let pulled = state.handle_pull(&headers("token-b"), pull("client-b", "tenant-a", "ns-audit"), 0).ok().unwrap();
    assert_eq!(pulled.mutations.len(), 0);
    assert!(pulled.audit.iter().any(|d| d.reason.contains("tenant_mismatch")));

    let owner = state
        .handle_push(&headers("token-a"), push("not-client-a", "tenant-a", "ns-audit", vec![mutation("tenant-a", "ns-audit", "wrong-owner", 0.95)]), 0)
        .ok()
        .unwrap();
    assert_eq!(owner.accepted_seqs.len(), 0);
    assert!(owner.audit.iter().any(|d| d.reason.contains("owner") || d.reason.contains("node")));

    assert!(state.cross_tenant_rejections() >= 1);

    let entries = state.oplog().read_since(0, 1000);
    let audits: Vec<_> = entries.iter().filter(|e| e.mutation.collection == "__governance_audit").collect();
    assert!(!audits.is_empty());
    let has_write_stage = audits.iter().any(|e| match &e.mutation.patch {
        Some(p) => matches!(p.get_lit("stage"), Some(Value::Str(s)) if s == "write"),
        None => false,
    });
    assert!(has_write_stage);
}

#[test]
fn push_rejects_a_mutation_for_another_namespace() {
    let mut state = ServerState::with_control_plane(default_control_plane());
    state.add_token_with_tenant("tok", "node-1", "tenant-a");
    let before = state.oplog().len();
    let resp = state
        .handle_push(&headers("tok"), push("node-1", "tenant-a", "ns-a", vec![mutation("tenant-a", "ns-b", "w-1", 0.95)]), 0)
        .ok()
        .unwrap();
    assert!(resp.accepted_seqs.is_empty());
    assert_eq!(resp.rejected_cross_tenant_count, 1);
    assert_eq!(resp.rejected_non_owner_count, 0);
    assert_eq!(resp.audit.len(), 1);
    assert_eq!(resp.audit[0].decision, PolicyDecision::Reject);
    assert_eq!(resp.audit[0].reason, "cross_tenant_or_namespace_mutation");
    assert_eq!(state.cross_tenant_rejections(), 1);
    // only the audit record was appended
    assert_eq!(state.oplog().len(), before + 1);
    assert!(state.oplog().read_since(0, 100).iter().all(|e| e.mutation.write_id != "w-1"));
}

#[test]
fn push_accepts_exactly_the_valid_mutation() {
    let mut state = ServerState::with_control_plane(default_control_plane());
    state.add_token_with_tenant("test-token", "node-1", "tenant-a");
    let mut invalid = mutation("tenant-a", "ns", "invalid", 0.8);
    invalid.metadata.source = String::new();
    let valid = mutation("tenant-a", "ns", "valid", 0.8);
    let resp = state
        .handle_push(&headers("test-token"), push("node-1", "tenant-a", "ns", vec![invalid, valid]), 0)
        .ok()
        .unwrap();
    assert_eq!(resp.accepted_seqs.len(), 1);
    assert_eq!(resp.rejected_cross_tenant_count, 0);
    assert_eq!(resp.rejected_non_owner_count, 0);
    assert_eq!(resp.audit.len(), 2);
    assert!(resp.audit.iter().any(|d| d.decision == PolicyDecision::Reject && d.reason.contains("invalid_metadata:")));
    assert!(resp.audit.iter().any(|d| d.decision == PolicyDecision::Allow && d.reason.contains("trust_score:")));
    let remote: Vec<_> = state
        .oplog()
        .read_since(0, 100)
        .into_iter()
        .filter(|e| e.mutation.collection != "__governance_audit")
        .collect();
    assert_eq!(remote.len(), 1);
    assert_eq!(remote[0].mutation.write_id, "valid");
}

#[test]
fn anomaly_bursts_transition_to_containment_and_then_reset_after_cooldown() {
    let mut state = ServerState::with_control_plane(default_control_plane());
    state.add_token_with_tenant("token-a", "node-1", "tenant-a");
    let mut reasons = Vec::new();
    for i in 0..5u64 {
        let wid = format!("burst-{}", i);
        let resp = state
            .handle_push(&headers("token-a"), push("node-1", "tenant-a", "ns-a", vec![mutation("tenant-a", "ns-a", &wid, 0.1)]), i * 10)
            .ok()
            .unwrap();
        assert!(resp.accepted_seqs.is_empty());
        reasons.extend(resp.audit.iter().map(|d| d.reason.clone()));
    }
    assert!(reasons.iter().any(|r| r.contains("containment_throttle") || r.contains("containment_reject")));
    let resp = state
        .handle_push(&headers("token-a"), push("node-1", "tenant-a", "ns-a", vec![mutation("tenant-a", "ns-a", "post-cooldown", 0.95)]), 40 + 750)
        .ok()
        .unwrap();
    assert_eq!(resp.accepted_seqs.len(), 1);
    assert!(resp.audit.iter().any(|d| d.decision == PolicyDecision::Allow));
}

#[test]
fn semantic_pull_marks_patches_derived_and_not_canonical() {
    let mut state = ServerState::with_control_plane(default_control_plane());
    state.add_token_with_tenant("token-a", "node-1", "tenant-a");
    let mut m = mutation("tenant-a", "ns-a", "sem-1", 0.95);
    m.metadata.kind = "semantic_projection".to_string();
    let resp = state.handle_push(&headers("token-a"), push("node-1", "tenant-a", "ns-a", vec![m]), 0).ok().unwrap();
    assert_eq!(resp.accepted_seqs.len(), 1);
    let mut h = headers("token-a");
    h.read_tier = Some("semantic".to_string());
    let got = state.handle_pull(&h, pull("node-1", "tenant-a", "ns-a"), 10).ok().unwrap();
    assert_eq!(got.mutations.len(), 1);
    let p = got.mutations[0].patch.as_ref().unwrap();
    assert!(matches!(p.get_lit("derived"), Some(Value::Bool(true))));
    assert!(matches!(p.get_lit("canonical"), Some(Value::Bool(false))));
    // a state read does not see the projection
    let plain = state.handle_pull(&headers("token-a"), pull("node-1", "tenant-a", "ns-a"), 20).ok().unwrap();
    assert!(plain.mutations.is_empty());
}

#[test]
fn cross_tenant_injection_and_poisoning_attempts_do_not_leak_across_sync_paths() {
    let mut state = ServerState::with_control_plane(default_control_plane());
    state.add_token_with_tenant("token-a", "client-a", "tenant-a");
    state.add_token_with_tenant("token-b", "client-b", "tenant-b");

    let accepted = state
        .handle_push(&headers("token-a"), push("client-a", "tenant-a", "ns-a", vec![mutation("tenant-a", "ns-a", "a-good-1", 0.95)]), 0)
        .ok()
        .unwrap();
    assert_eq!(accepted.accepted_seqs.len(), 1);

    let poisoning = state
        .handle_push(&headers("token-a"), push("client-a", "tenant-a", "ns-a", vec![mutation("tenant-a", "ns-a", "a-poison-low-trust", 0.1)]), 10)
        .ok()
        .unwrap();
    assert_eq!(poisoning.accepted_seqs.len(), 0);

    let cross = state
        .handle_push(&headers("token-a"), push("client-a", "tenant-a", "ns-a", vec![mutation("tenant-b", "ns-a", "forged-tenant-b", 0.95)]), 20)
        .ok()
        .unwrap();
    assert_eq!(cross.accepted_seqs.len(), 0);
    assert_eq!(cross.rejected_cross_tenant_count, 1);

    let pull_a = state.handle_pull(&headers("token-a"), pull("client-a", "tenant-a", "ns-a"), 30).ok().unwrap();
    assert_eq!(pull_a.mutations.len(), 1);
    assert!(pull_a.mutations.iter().all(|m| m.metadata.tenant_id == "tenant-a" && m.metadata.namespace == "ns-a"));

    let pull_b = state.handle_pull(&headers("token-b"), pull("client-b", "tenant-b", "ns-a"), 40).ok().unwrap();
    assert_eq!(pull_b.mutations.len(), 0);

    assert!(poisoning.audit.iter().any(|d| d.reason.contains("poisoning")));
    assert!(cross.audit.iter().any(|d| d.reason.contains("cross_tenant")));
}

fn text_field(d: &Document, key: &str) -> String {
    match d.get_lit(key) {
        Some(Value::Str(s)) => s.clone(),
        _ => String::new(),
    }
}

#[test]
fn degraded_retrieval_audits_a_sanitize_decision() {
    let mut state = ServerState::with_control_plane(default_control_plane());
    state.add_token_with_tenant("token-1", "node-1", "tenant-a");
    let req = RetrievalCapabilityRequest::new("tenant-a", "ns-a", "find incidents");
    let before = audit_count(&state.oplog().read_since(0, 1000));
    state
        .handle_retrieval_read(&headers("token-1"), &req, Err(AdapterError::unavailable("adapter_unavailable")), 7)
        .ok()
        .unwrap();
    let entries = state.oplog().read_since(0, 1000);
    assert_eq!(audit_count(&entries), before + 1);
    let last = entries.last().unwrap();
    let patch = last.mutation.patch.as_ref().unwrap();
    assert_eq!(text_field(patch, "stage"), "retrieval");
    assert_eq!(text_field(patch, "decision"), "sanitize");
    assert_eq!(text_field(patch, "reason"), "adapter_unavailable");
    assert_eq!(text_field(patch, "tenant_id"), "tenant-a");
    assert_eq!(text_field(patch, "namespace"), "ns-a");
}
