use std::cell::RefCell;
use std::rc::Rc;

use rango::control_plane::{
    default_control_plane, AnomalySignalHook, AuditSink, BoundedContextFilterHook, ControlPlane,
    NoopPromotionGateHook, PromotionRequest, ReadRequest, RetrievalGateHook, TrustScoringHook,
    WriteContext, WritePayload, WriteValidationHook,
};
use rango::engine::{CollectionName, RangoEngine};
use rango::revision::Revision;
use rango::types::{GovernanceDecision, MemoryTier, PolicyDecision};
use rango::value::{Document, Value};

fn setup(node_id: &str) -> RangoEngine {
    RangoEngine::open(node_id)
}

fn doc(pairs: Vec<(&str, Value)>) -> Document {
    let mut d = Document::new();
    for (k, v) in pairs {
        d.insert_lit(k, v);
    }
    d
}

fn s(x: &str) -> Value {
    Value::Str(x.to_string())
}

fn get_str(d: &Document, k: &str) -> String {
    match d.get_lit(k) {
        Some(Value::Str(v)) => v.clone(),
        _ => panic!("no string field {}", k),
    }
}

fn float_add(a: u64, b: u64) -> u64 {
    (f64::from_bits(a) + f64::from_bits(b)).to_bits()
}

fn set_doc(field: &str, v: Value) -> Document {
    doc(vec![("$set", Value::Doc(doc(vec![(field, v)])))])
}

fn write_ctx() -> WriteContext {
    WriteContext {
        tenant_id: "tenant-a".to_string(),
        namespace: "ns".to_string(),
        actor: "actor".to_string(),
        source: "source".to_string(),
        tier: MemoryTier::State,
    }
}

#[test]
fn test_reconciliation_lww() {
    let coll = CollectionName::new("test");

    let mut engine_a = setup("node-a");
    let id = engine_a.insert_one(&coll, doc(vec![("name", s("Alice"))])).unwrap();
    let doc_a = engine_a.find_one(&coll, &id).unwrap().unwrap();

    let mut engine_b = setup("node-b");
    engine_b.apply_remote_mutation(&coll, doc_a.deep_clone()).unwrap();

    engine_a.update_one(&coll, &id, &set_doc("name", s("Alice Updated A")), &float_add).unwrap();
    engine_b.update_one(&coll, &id, &set_doc("name", s("Bob Updated B")), &float_add).unwrap();

    let final_a = engine_a.find_one(&coll, &id).unwrap().unwrap();
    let final_b = engine_b.find_one(&coll, &id).unwrap().unwrap();

    engine_b.apply_remote_mutation(&coll, final_a.deep_clone()).unwrap();
    engine_a.apply_remote_mutation(&coll, final_b.deep_clone()).unwrap();

    let reconciled_a = engine_a.find_one(&coll, &id).unwrap().unwrap();
    let reconciled_b = engine_b.find_one(&coll, &id).unwrap().unwrap();
    assert_eq!(get_str(&reconciled_a, "name"), get_str(&reconciled_b, "name"));

    let conflicts_a = engine_a.list_conflicts(&coll).unwrap();
    let conflicts_b = engine_b.list_conflicts(&coll).unwrap();
    assert!(!conflicts_a.is_empty() || !conflicts_b.is_empty());
}

#[test]
fn test_idempotent_apply() {
    let mut engine = setup("node-a");
    let coll = CollectionName::new("test");

    let id = engine.insert_one(&coll, doc(vec![("name", s("Alice"))])).unwrap();
    let d = engine.find_one(&coll, &id).unwrap().unwrap();

    engine.apply_remote_mutation(&coll, d.deep_clone()).unwrap();
    engine.apply_remote_mutation(&coll, d.deep_clone()).unwrap();
    engine.apply_remote_mutation(&coll, d.deep_clone()).unwrap();

    let final_doc = engine.find_one(&coll, &id).unwrap().unwrap();
    assert_eq!(get_str(&final_doc, "name"), "Alice");

    let conflicts = engine.list_conflicts(&coll).unwrap();
    assert!(conflicts.is_empty() || conflicts[0].1.len() <= 1);
}

#[test]
fn test_conflict_resolution() {
    let mut engine = setup("node-a");
    let coll = CollectionName::new("test");

    let id = engine.insert_one(&coll, doc(vec![("name", s("Alice"))])).unwrap();
    let original = engine.find_one(&coll, &id).unwrap().unwrap();

    let orig_rev_str = get_str(&original, "_rev");
    let orig_rev = Revision::from_text(&orig_rev_str).unwrap();
    let higher_rev = Revision::new(orig_rev.timestamp_ms() + 1, 0, "node-b".to_string());

    let mut remote = original.deep_clone();
    remote.insert_lit("name", s("Remote Winner"));
    remote.insert_lit("_rev", Value::Str(higher_rev.to_text()));

    engine.apply_remote_mutation(&coll, remote).unwrap();

    let d = engine.find_one(&coll, &id).unwrap().unwrap();
    assert_eq!(get_str(&d, "name"), "Remote Winner");

    let conflicts = engine.list_conflicts(&coll).unwrap();
    assert_eq!(conflicts.len(), 1);
    assert!(rango::value::value_eq(&conflicts[0].0 .0, &id.0));

    let original_rev = Revision::from_text(&orig_rev_str).unwrap();
    engine.resolve_conflict(&coll, &id, &original_rev).unwrap();

    let resolved = engine.find_one(&coll, &id).unwrap().unwrap();
    assert_eq!(get_str(&resolved, "name"), "Alice");

    let remaining = engine.list_conflicts(&coll).unwrap();
    assert!(remaining.is_empty() || !remaining.iter().any(|(cid, _)| rango::value::value_eq(&cid.0, &id.0)));
}

#[test]
fn test_tombstone_sync() {
    let mut engine_a = setup("node-a");
    let coll = CollectionName::new("test");

    let id = engine_a.insert_one(&coll, doc(vec![("name", s("Alice"))])).unwrap();
    engine_a.delete_one(&coll, &id).unwrap();

    assert!(engine_a.find_one(&coll, &id).unwrap().is_none());

    let raw = engine_a.find_all_raw(&coll).unwrap();
    assert_eq!(raw.len(), 1);
    assert!(matches!(raw[0].get_lit("_deleted"), Some(Value::Bool(true))));
}

#[test]
fn test_phase8_metrics_local_write_latency() {
    let mut engine = setup("node-a");
    let coll = CollectionName::new("metrics");

    let id = engine.insert_one(&coll, doc(vec![("name", s("Alice"))])).unwrap();
    engine.update_one(&coll, &id, &set_doc("name", s("Alice 2")), &float_add).unwrap();
    engine.delete_one(&coll, &id).unwrap();

    let snapshot = engine.metrics().snapshot();
    assert!(snapshot.local_write_latency_us_count >= 3);
    assert!(snapshot.local_write_latency_us_total > 0);
}

type Order = Rc<RefCell<Vec<&'static str>>>;

struct OrderedWriteHook {
    order: Order,
}

impl WriteValidationHook for OrderedWriteHook {
    fn validate(&self, _ctx: &WriteContext, _payload: &WritePayload) -> GovernanceDecision {
        self.order.borrow_mut().push("write.validate");
        GovernanceDecision { decision: PolicyDecision::Allow, reason: "ok".to_string() }
    }
}

struct OrderedTrustHook {
    order: Order,
}

impl TrustScoringHook for OrderedTrustHook {
    fn score(&self, _ctx: &WriteContext, _payload: &WritePayload) -> u64 {
        self.order.borrow_mut().push("write.trust");
        0.95f64.to_bits()
    }
}

struct OrderedRetrievalHook {
    order: Order,
}

impl RetrievalGateHook for OrderedRetrievalHook {
    fn allow(&self, _request: &ReadRequest) -> GovernanceDecision {
        self.order.borrow_mut().push("read.gate");
        GovernanceDecision { decision: PolicyDecision::Allow, reason: "ok".to_string() }
    }
}

struct OrderedFilterHook {
    order: Order,
}

impl BoundedContextFilterHook for OrderedFilterHook {
    fn apply(&self, _request: &ReadRequest, candidates: Vec<Document>) -> Vec<Document> {
        self.order.borrow_mut().push("read.filter");
        candidates
    }
}

struct OrderedAnomalyHook {
    order: Order,
}

impl AnomalySignalHook for OrderedAnomalyHook {
    fn evaluate(&self, stage: &str, _decision: &GovernanceDecision) {
        self.order.borrow_mut().push(match stage {
            "write.validate" => "write.anomaly.validate",
            "write.trust" => "write.anomaly.trust",
            "read.gate" => "read.anomaly",
            _ => "anomaly.other",
        });
    }
}

struct OrderedAuditSink {
    order: Order,
}

impl AuditSink for OrderedAuditSink {
    fn record(&self, stage: &str, _decision: &GovernanceDecision) {
        self.order.borrow_mut().push(match stage {
            "write.validate" => "write.audit.validate",
            "write.trust" => "write.audit.trust",
            "read.gate" => "read.audit",
            _ => "audit.other",
        });
    }
}

#[test]
fn test_control_plane_hook_invocation_order_write_and_read() {
    let order: Order = Rc::new(RefCell::new(Vec::new()));
    let control_plane = ControlPlane::with_hooks(
        OrderedWriteHook { order: order.clone() },
        OrderedTrustHook { order: order.clone() },
        NoopPromotionGateHook,
        OrderedRetrievalHook { order: order.clone() },
        OrderedFilterHook { order: order.clone() },
        OrderedAnomalyHook { order: order.clone() },
        OrderedAuditSink { order: order.clone() },
    );

    let payload = WritePayload::State(doc(vec![("k", s("v"))]));
    let decision = control_plane.write_path(&write_ctx(), &payload).unwrap();
    assert!(matches!(decision.decision, PolicyDecision::Allow));

    let read_request = ReadRequest {
        tenant_id: "tenant-a".to_string(),
        namespace: "ns".to_string(),
        tier: MemoryTier::State,
        limit: 5,
    };
    let (_, filtered) = control_plane.read_path(&read_request, vec![doc(vec![("k", s("v"))])]).unwrap();
    assert_eq!(filtered.len(), 1);

    let order = order.borrow().clone();
    assert_eq!(
        order,
        vec![
            "write.validate",
            "write.audit.validate",
            "write.anomaly.validate",
            "write.trust",
            "write.audit.trust",
            "write.anomaly.trust",
            "read.gate",
            "read.audit",
            "read.anomaly",
            "read.filter"
        ]
    );
}

#[test]
fn test_control_plane_promotion_path_is_explicit() {
    let control_plane = default_control_plane();
    let request = PromotionRequest {
        tenant_id: "tenant-a".to_string(),
        namespace: "ns".to_string(),
        from: MemoryTier::Episodic,
        to: MemoryTier::Semantic,
        candidate_id: "candidate-1".to_string(),
    };
    let payload = WritePayload::State(doc(vec![("k", s("v"))]));

    let (decision, sanitized) = control_plane.promotion_path(&request, &payload).unwrap();
    assert!(matches!(decision.decision, PolicyDecision::Allow));
    match sanitized {
        WritePayload::State(d) => assert_eq!(get_str(&d, "k"), "v"),
        _ => panic!("expected state payload"),
    }
}

#[test]
fn test_control_plane_rejects_low_trust_writes() {
    let control_plane = default_control_plane();
    let payload = WritePayload::StateWithTrust {
        document: doc(vec![("content", s("candidate"))]),
        trust_score: 0.1f64.to_bits(),
    };
    let decision = control_plane.write_path(&write_ctx(), &payload).unwrap();
    assert!(matches!(decision.decision, PolicyDecision::Reject));
    assert!(decision.reason.starts_with("trust_score_below_threshold"));
}

#[test]
fn test_control_plane_rejects_invalid_trust_scores() {
    let control_plane = default_control_plane();
    let payload = WritePayload::StateWithTrust {
        document: doc(vec![("content", s("candidate"))]),
        trust_score: f64::NAN.to_bits(),
    };
    let decision = control_plane.write_path(&write_ctx(), &payload).unwrap();
    assert!(matches!(decision.decision, PolicyDecision::Reject));
    assert!(decision.reason.starts_with("invalid_trust_score:"));
}

#[test]
fn test_control_plane_read_path_rejects_invalid_limit() {
    let control_plane = default_control_plane();
    let read_request = ReadRequest {
        tenant_id: "tenant-a".to_string(),
        namespace: "ns".to_string(),
        tier: MemoryTier::State,
        limit: 0,
    };
    let (decision, filtered) = control_plane.read_path(&read_request, vec![doc(vec![("k", s("v"))])]).unwrap();
    assert!(matches!(decision.decision, PolicyDecision::Reject));
    assert_eq!(decision.reason, "invalid_read_request:limit_must_be_positive");
    assert!(filtered.is_empty());
}

#[test]
fn test_control_plane_read_path_truncates_to_limit() {
    let control_plane = default_control_plane();
    let read_request = ReadRequest {
        tenant_id: "tenant-a".to_string(),
        namespace: "ns".to_string(),
        tier: MemoryTier::State,
        limit: 1,
    };
    let (_decision, filtered) = control_plane
        .read_path(
            &read_request,
            vec![doc(vec![("id", s("a"))]), doc(vec![("id", s("b"))]), doc(vec![("id", s("c"))])],
        )
        .unwrap();
    assert_eq!(filtered.len(), 1);
}

#[test]
fn test_control_plane_promotion_path_rejects_non_semantic_route() {
    let control_plane = default_control_plane();
    let request = PromotionRequest {
        tenant_id: "tenant-a".to_string(),
        namespace: "ns".to_string(),
        from: MemoryTier::State,
        to: MemoryTier::Semantic,
        candidate_id: "candidate-1".to_string(),
    };
    let payload = WritePayload::State(doc(vec![("k", s("v"))]));

    let (decision, _sanitized) = control_plane.promotion_path(&request, &payload).unwrap();
    assert!(matches!(decision.decision, PolicyDecision::Reject));
    assert_eq!(decision.reason, "semantic_promotion_requires_episodic_to_semantic");
}
