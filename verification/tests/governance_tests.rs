use rango::control_plane::{
    default_control_plane, BoundedContextFilterHook, ControlPlane, NoopAnomalySignalHook, NoopAuditSink,
    NoopPromotionGateHook, NoopRetrievalGateHook, NoopTrustScoringHook, NoopWriteValidationHook, ReadRequest,
    WriteContext, WritePayload,
};
use rango::engine::{CollectionName, RangoEngine};
use rango::retrieval::{
    combine_retrieval, AdapterCapabilities, AdapterError, AdapterErrorKind, Neo4jAdapter, QdrantAdapter,
    RetrievalCapabilityRequest, RetrievalSource,
};
use rango::types::{MemoryTier, PolicyDecision};
use rango::value::{Document, Value};

fn doc(pairs: Vec<(&str, Value)>) -> Document {
    let mut d = Document::new();
    for (k, v) in pairs {
        d.insert_lit(k, v);
    }
    d
}

fn s(x: &str) -> Value {
    Value::Str(x.to_string())
}

fn str_of(d: &Document, k: &str) -> Option<String> {
    match d.get_lit(k) {
        Some(Value::Str(v)) => Some(v.clone()),
        _ => None,
    }
}

fn make_ctx(tenant_id: &str, namespace: &str) -> WriteContext {
    WriteContext {
        tenant_id: tenant_id.to_string(),
        namespace: namespace.to_string(),
        actor: "actor".to_string(),
        source: "source".to_string(),
        tier: MemoryTier::State,
    }
}

fn request() -> RetrievalCapabilityRequest {
    RetrievalCapabilityRequest::new("tenant-a", "ns1", "test query")
}

#[test]
fn low_trust_payloads_are_rejected_deterministically() {
    let control_plane = default_control_plane();
    let mut trust = 0.0f64;
    let mut k = 0u16;
    while trust < 0.24 {
        let ctx = make_ctx(&format!("tenant-{}", k), &format!("ns-{}", 999 - k));
        let payload = WritePayload::StateWithTrust {
            document: doc(vec![("v", Value::Double(trust.to_bits()))]),
            trust_score: trust.to_bits(),
        };
        let decision = control_plane.write_path(&ctx, &payload).unwrap();
        assert!(matches!(decision.decision, PolicyDecision::Reject));
        assert!(decision.reason.starts_with("trust_score_below_threshold"));
        trust += 0.0137;
        k += 1;
    }
}

#[test]
fn high_trust_payloads_are_allowed_deterministically() {
    let control_plane = default_control_plane();
    let mut trust = 0.25f64;
    let mut k = 0u16;
    while trust < 1.0 {
        let ctx = make_ctx(&format!("tenant-{}", k), &format!("ns-{}", k));
        let payload = WritePayload::StateWithTrust {
            document: doc(vec![("v", Value::Double(trust.to_bits()))]),
            trust_score: trust.to_bits(),
        };
        let decision = control_plane.write_path(&ctx, &payload).unwrap();
        assert!(matches!(decision.decision, PolicyDecision::Allow));
        assert!(decision.reason.starts_with("trust_score:"));
        trust += 0.0371;
        k += 1;
    }
}

#[test]
fn trust_reason_carries_the_score_with_two_decimals() {
    let control_plane = default_control_plane();
    let ctx = make_ctx("t", "n");
    let cases: Vec<(f64, &str)> = vec![
        (0.1, "trust_score_below_threshold:0.10"),
        (0.125, "trust_score_below_threshold:0.12"),
        (0.245, "trust_score_below_threshold:0.24"),
        (0.25, "trust_score:0.25"),
        (0.375, "trust_score:0.38"),
        (0.999, "trust_score:1.00"),
        (-0.0, "trust_score_below_threshold:-0.00"),
        (f64::INFINITY, "invalid_trust_score:inf"),
        (f64::NAN, "invalid_trust_score:NaN"),
    ];
    for (t, want) in cases {
        let payload = WritePayload::StateWithTrust { document: Document::new(), trust_score: t.to_bits() };
        let decision = control_plane.write_path(&ctx, &payload).unwrap();
        assert_eq!(decision.reason, want);
    }
}

#[test]
fn format_fixed2_agrees_with_std_formatting() {
    let samples = [
        0.0, -0.0, 0.005, 0.015, 0.125, 0.375, 1.005, 2.675, 123.456, -7.125, 1e-10, 1e20, 99.995, 0.994999,
        f64::MAX, f64::MIN_POSITIVE, 5e-324, f64::INFINITY, f64::NEG_INFINITY, f64::NAN,
    ];
    for x in samples {
        assert_eq!(rango::fixed::format_fixed2(x.to_bits()), format!("{:.2}", x), "value {:e}", x);
    }
}

struct TenantNamespaceBoundFilter;

impl BoundedContextFilterHook for TenantNamespaceBoundFilter {
    fn apply(&self, request: &ReadRequest, candidates: Vec<Document>) -> Vec<Document> {
        candidates
            .into_iter()
            .filter(|c| {
                str_of(c, "tenant_id").as_deref() == Some(request.tenant_id.as_str())
                    && str_of(c, "namespace").as_deref() == Some(request.namespace.as_str())
            })
            .collect()
    }
}

#[test]
fn bounded_context_filter_runs_after_retrieval_gate_and_enforces_scope() {
    let control_plane = ControlPlane::with_hooks(
        NoopWriteValidationHook,
        NoopTrustScoringHook,
        NoopPromotionGateHook,
        NoopRetrievalGateHook,
        TenantNamespaceBoundFilter,
        NoopAnomalySignalHook,
        NoopAuditSink,
    );
    let request = ReadRequest {
        tenant_id: "tenant-a".to_string(),
        namespace: "ns-a".to_string(),
        tier: MemoryTier::State,
        limit: 8,
    };
    let candidates = vec![
        doc(vec![("tenant_id", s("tenant-a")), ("namespace", s("ns-a")), ("id", s("ok-1"))]),
        doc(vec![("tenant_id", s("tenant-b")), ("namespace", s("ns-a")), ("id", s("drop-tenant"))]),
        doc(vec![("tenant_id", s("tenant-a")), ("namespace", s("ns-b")), ("id", s("drop-namespace"))]),
    ];
    let (decision, filtered) = control_plane.read_path(&request, candidates).unwrap();
    assert_eq!(decision.reason, "retrieval_allowed");
    assert_eq!(filtered.len(), 1);
    assert_eq!(str_of(&filtered[0], "id").unwrap(), "ok-1");
}

#[test]
fn local_insert_update_delete_emit_non_empty_write_ids() {
    let mut engine = RangoEngine::open("node-a");
    let collection = CollectionName::new("local-write-id");
    let float_add = |a: u64, b: u64| (f64::from_bits(a) + f64::from_bits(b)).to_bits();

    let id = engine.insert_one(&collection, doc(vec![("name", s("Alice"))])).unwrap();
    let update = doc(vec![("$set", Value::Doc(doc(vec![("name", s("Alice 2"))])))]);
    engine.update_one(&collection, &id, &update, &float_add).unwrap();
    engine.delete_one(&collection, &id).unwrap();

    let entries = engine.oplog().read_since(1, 10);
    assert_eq!(entries.len(), 3);
    assert!(entries.iter().all(|e| !e.mutation.write_id.trim().is_empty()));
    assert_eq!(entries[0].seq, 1);
    assert_eq!(entries[2].seq, 3);
}

#[test]
fn vector_adapter_includes_tenant_and_namespace_scope() {
    let scope = QdrantAdapter::filter_scope(&request());
    assert_eq!(str_of(&scope, "tenant_id").unwrap(), "tenant-a");
    assert_eq!(str_of(&scope, "namespace").unwrap(), "ns1");
    assert_eq!(scope.len(), 2);
}

#[test]
fn graph_adapter_uses_parameterized_cypher() {
    let cypher = Neo4jAdapter::parameterized_cypher();
    assert!(cypher.contains("$tenant_id"));
    assert!(cypher.contains("$namespace"));
    assert!(cypher.contains("$query"));
    assert!(cypher.contains("$limit"));
    assert!(!cypher.contains('\''));
}

#[test]
fn vector_adapter_returns_tenant_scoped_candidates() {
    let adapter = QdrantAdapter { available: true };
    let drafts = adapter.query_vector_drafts(&request()).unwrap();
    assert_eq!(drafts.len(), 1);
    for d in drafts {
        assert_eq!(d.tenant_id, "tenant-a");
        assert_eq!(d.namespace, "ns1");
        assert_eq!(d.candidate_id, "vector:mock-1");
        assert_eq!(d.source, RetrievalSource::Vector);
        assert_eq!(str_of(&d.payload, "text").unwrap(), "test query");
    }
    let graph = Neo4jAdapter { available: true }.query_graph_drafts(&request()).unwrap();
    assert_eq!(graph[0].candidate_id, "graph:mock-1");
    assert_eq!(graph[0].tenant_id, "tenant-a");
}

#[test]
fn unavailable_adapters_return_unavailable() {
    let v = QdrantAdapter { available: false }.query_vector_drafts(&request());
    match v {
        Err(e) => {
            assert_eq!(e.kind, AdapterErrorKind::Unavailable);
            assert_eq!(e.reason, "qdrant_adapter_unavailable");
        }
        Ok(_) => panic!("expected an error"),
    }
    let g = Neo4jAdapter { available: false }.query_graph_drafts(&request());
    assert!(matches!(g, Err(AdapterError { kind: AdapterErrorKind::Unavailable, .. })));
}

#[test]
fn health_check_reflects_availability() {
    assert!(QdrantAdapter { available: true }.health_check().is_ok());
    assert!(QdrantAdapter { available: false }.health_check().is_err());
    assert!(Neo4jAdapter { available: true }.health_check().is_ok());
    assert!(Neo4jAdapter { available: false }.health_check().is_err());
}

#[test]
fn fallback_adapter_returns_unavailable() {
    let fallback = AdapterCapabilities;
    assert_eq!(fallback.vector_error().kind, AdapterErrorKind::Unavailable);
    assert_eq!(fallback.vector_error().reason, "vector_adapter_unavailable");
    assert_eq!(fallback.graph_error().reason, "graph_adapter_unavailable");
    assert_eq!(QdrantAdapter { available: true }.adapter_name(), "qdrant");
    assert_eq!(Neo4jAdapter { available: true }.adapter_name(), "neo4j");
    assert_eq!(fallback.vector_adapter_name(), "fallback_vector");
    assert_eq!(fallback.graph_adapter_name(), "fallback_graph");
}

#[test]
fn retrieval_combines_results_and_tolerates_unavailability() {
    // both unavailable: degraded with the generic reason
    let r: Result<Vec<u32>, AdapterError> =
        combine_retrieval(Err(AdapterError::unavailable("x")), Err(AdapterError::unavailable("y")));
    match r {
        Err(e) => {
            assert_eq!(e.kind, AdapterErrorKind::Unavailable);
            assert_eq!(e.reason, "adapter_unavailable");
        }
        Ok(_) => panic!("expected an error"),
    }
    // one side times out: the other side's candidates
    let timeout = AdapterError { kind: AdapterErrorKind::Timeout, reason: "slow".to_string() };
    let r = combine_retrieval(Ok(vec![1u32, 2]), Err(timeout));
    assert_eq!(r.ok().unwrap(), vec![1, 2]);
    // both answer: vector first, then graph
    let r = combine_retrieval(Ok(vec![1u32]), Ok(vec![7u32, 8]));
    assert_eq!(r.ok().unwrap(), vec![1, 7, 8]);
    // a failure that is not tolerated is passed on
    let r = combine_retrieval(
        Ok(vec![1u32]),
        Err(AdapterError { kind: AdapterErrorKind::Unauthorized, reason: "denied".to_string() }),
    );
    match r {
        Err(e) => assert_eq!(e.reason, "denied"),
        Ok(_) => panic!("expected an error"),
    }
    let r: Result<Vec<u32>, AdapterError> = combine_retrieval(Ok(vec![]), Ok(vec![]));
    assert!(r.is_err());
}
