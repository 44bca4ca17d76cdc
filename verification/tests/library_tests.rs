use rango::cli::{
    check_canonical_envelope_metadata, check_record_envelope, config_from_json, csv_escape, path_has_parent_ref,
    select_audit_entries, DoctorReport,
};
use rango::containment::{ContainmentMode, ContainmentState, RateLimiter};
use rango::engine::{CollectionName, DocumentId, RangoEngine};
use rango::framing::{
    applied_from_doc, applied_marker_name, compact_frames, encode_frames, read_u32, recover_latest_seq,
    select_since, split_frames, write_u32, FileOplogState, FrameStatus,
};
use rango::index::{IndexDefinition, IndexManager};
use rango::json::JsonValue;
use rango::oplog::{Mutation, MutationMetadata, MutationOp, OplogEntry, OplogOrigin};
use rango::revision::Revision;
use rango::types::{GovernanceDecision, PolicyDecision, RangoError};
use rango::value::{Document, Value};

fn doc(pairs: Vec<(&str, Value)>) -> Document {
    let mut d = Document::new();
    for (k, v) in pairs {
        d.insert_lit(k, v);
    }
    d
}

fn s(x: &str) -> Value {
    Value::Str(x.to_string())
}

fn reject() -> GovernanceDecision {
    GovernanceDecision { decision: PolicyDecision::Reject, reason: "r".to_string() }
}

fn allow() -> GovernanceDecision {
    GovernanceDecision { decision: PolicyDecision::Allow, reason: "a".to_string() }
}

#[test]
fn containment_escalates_then_recovers() {
    let mut st = ContainmentState::new(0);
    for t in 1..=2u64 {
        st.observe_decision(&reject(), t);
    }
    assert_eq!(st.mode, ContainmentMode::Normal);
    assert!(st.gate_decision().is_none());
    st.observe_decision(&reject(), 3);
    assert_eq!(st.mode, ContainmentMode::Throttle);
    assert_eq!(st.gate_decision().unwrap().reason, "containment_throttle");
    st.observe_decision(&reject(), 4);
    st.observe_decision(&reject(), 5);
    assert_eq!(st.mode, ContainmentMode::Reject);
    assert_eq!(st.gate_decision().unwrap().reason, "containment_reject");
    // quiet for less than the cooldown: still contained
    st.maybe_reset_after_cooldown(504);
    assert_eq!(st.mode, ContainmentMode::Reject);
    // after the cooldown the scope starts over
    st.maybe_reset_after_cooldown(505);
    assert_eq!(st.mode, ContainmentMode::Normal);
    assert_eq!(st.reject_count, 0);
    // an allowed decision ends a run
    st.observe_decision(&reject(), 600);
    st.observe_decision(&allow(), 601);
    assert_eq!(st.reject_count, 0);
}

#[test]
fn rate_limiter_admits_a_burst_per_second() {
    let mut rl = RateLimiter::new(2, 1000);
    assert!(rl.check(1000));
    assert!(rl.check(1500));
    assert!(!rl.check(1999));
    assert!(rl.check(2000));
    assert!(rl.check(2001));
    assert!(!rl.check(2002));
}

#[test]
fn u32_little_endian_roundtrip() {
    for v in [0u32, 1, 255, 256, 0x1234_5678, u32::MAX] {
        let mut out = vec![9u8];
        write_u32(&mut out, v);
        assert_eq!(out.len(), 5);
        assert_eq!(&out[1..], &v.to_le_bytes());
        assert_eq!(read_u32(&out, 1), Some(v));
    }
    assert_eq!(read_u32(&[1, 2, 3], 0), None);
    assert_eq!(read_u32(&[1, 2, 3, 4], 1), None);
}

#[test]
fn frames_roundtrip_and_truncation() {
    let payloads = vec![vec![1u8, 2, 3], vec![], vec![7u8; 300]];
    let bytes = encode_frames(&payloads);
    assert_eq!(bytes.len(), 4 + 3 + 4 + 4 + 300);
    assert_eq!(split_frames(&bytes), payloads);
    // a body cut short ends the reading
    let cut = &bytes[..bytes.len() - 1];
    assert_eq!(split_frames(cut), vec![vec![1u8, 2, 3], vec![]]);
    // a header cut short too
    assert_eq!(split_frames(&bytes[..9]), vec![vec![1u8, 2, 3]]);
}

#[test]
fn compaction_keeps_unapplied_and_unknown_frames() {
    let frames = vec![vec![1u8], vec![2u8], vec![3u8], vec![4u8], vec![5u8]];
    let statuses = vec![
        FrameStatus::Entry(1),
        FrameStatus::Entry(2),
        FrameStatus::Undecryptable,
        FrameStatus::Unreadable,
        FrameStatus::Malformed,
    ];
    let (bytes, kept) = compact_frames(&frames, &statuses, &vec![1u64]);
    assert_eq!(kept, 3);
    assert_eq!(split_frames(&bytes), vec![vec![2u8], vec![3u8], vec![5u8]]);
}

#[test]
fn recovery_and_reads_by_sequence() {
    let st = vec![FrameStatus::Entry(1), FrameStatus::Malformed, FrameStatus::Entry(2), FrameStatus::Entry(3)];
    assert_eq!(recover_latest_seq(&st), Some(3));
    assert_eq!(recover_latest_seq(&vec![]), Some(0));
    assert_eq!(recover_latest_seq(&vec![FrameStatus::Entry(4), FrameStatus::Undecryptable]), None);
    assert_eq!(select_since(&st, 2, 10), vec![2, 3]);
    assert_eq!(select_since(&st, 1, 2), vec![0, 2]);
    // a limit of zero returns nothing
    assert_eq!(select_since(&st, 1, 0), Vec::<usize>::new());
    assert_eq!(select_since(&st, 9, 5), Vec::<usize>::new());
}

#[test]
fn applied_set_roundtrip() {
    let mut state = FileOplogState::new(0, vec![3, 1, 3]);
    assert_eq!(state.applied.len(), 2);
    state.mark_applied(7);
    state.mark_applied(1);
    assert_eq!(state.next(), 1);
    let d = state.applied_doc();
    let mut back = applied_from_doc(&d);
    back.sort();
    assert_eq!(back, vec![1, 3, 7]);
    assert!(applied_from_doc(&Document::new()).is_empty());
    assert_eq!(applied_marker_name("oplog.rgo"), "oplog.rgo.applied");
}

#[test]
fn doctor_report_and_envelope_check() {
    let mut report = DoctorReport::new();
    assert!(!report.has_errors());
    report.add_warning("w".to_string());
    assert!(!report.has_errors());
    let legacy = doc(vec![("name", s("old")), ("tenant_id", s("t"))]);
    check_record_envelope(&mut report, "r-1", "documents", &legacy);
    assert!(report.has_errors());
    assert_eq!(report.errors.len(), 8);
    assert_eq!(
        report.errors[0],
        "workspace incompatible: record r-1 in collection documents missing canonical metadata field `namespace` (legacy v0.0 shape; run upgrade \u{2014} see docs/operations/migration-v0.0-to-v0.1.md)"
    );
    assert_eq!(report.warnings, vec!["w".to_string()]);
}

#[test]
fn doctor_fails_on_legacy_record_shape() {
    let mut engine = RangoEngine::open("doctor-node");
    let coll = CollectionName::new("records");
    engine.insert_one(&coll, doc(vec![("name", s("legacy"))])).unwrap();
    let mut report = DoctorReport::new();
    let sampled = check_canonical_envelope_metadata(&engine, &mut report, &|_v: &Value| "id".to_string());
    let (c, n) = sampled.unwrap();
    assert_eq!(c, "records");
    assert_eq!(n, 1);
    // the engine stamps _rev, _updated_at and _source_node; six canonical fields are missing
    assert_eq!(report.errors.len(), 6);

    let empty = RangoEngine::open("doctor-node");
    let mut report = DoctorReport::new();
    assert!(check_canonical_envelope_metadata(&empty, &mut report, &|_v: &Value| String::new()).is_none());
    assert!(!report.has_errors());
}

#[test]
fn workspace_config_defaults_and_overrides() {
    let c = config_from_json(&JsonValue::Object(vec![
        ("max_document_size_bytes".to_string(), JsonValue::Int(300)),
        ("memory_budget_bytes".to_string(), JsonValue::Str("big".to_string())),
    ]));
    assert_eq!(c.max_document_size_bytes, 300);
    assert_eq!(c.memory_budget_bytes, 128 * 1024 * 1024);
    let d = config_from_json(&JsonValue::Null);
    assert_eq!(d.max_document_size_bytes, 16 * 1024 * 1024);
    let neg = config_from_json(&JsonValue::Object(vec![("max_document_size_bytes".to_string(), JsonValue::Int(-1))]));
    assert_eq!(neg.max_document_size_bytes, 16 * 1024 * 1024);
}

#[test]
fn paths_with_parent_references_are_refused() {
    assert!(path_has_parent_ref("../x"));
    assert!(path_has_parent_ref("a/../b"));
    assert!(path_has_parent_ref(".."));
    assert!(path_has_parent_ref("a/.."));
    assert!(!path_has_parent_ref("a/..b/c"));
    assert!(!path_has_parent_ref("/tmp/.rango"));
    assert!(!path_has_parent_ref("..."));
}

fn entry(seq: u64, collection: &str, tenant: &str, ns: &str) -> OplogEntry {
    OplogEntry {
        seq,
        timestamp: 0,
        mutation: Mutation {
            op: MutationOp::Insert,
            collection: collection.to_string(),
            doc_id: Value::Null,
            patch: None,
            seq,
            timestamp: 0,
            rev: Revision::new(0, 0, "n".to_string()),
            write_id: format!("w-{}", seq),
            metadata: MutationMetadata {
                id: Value::Null,
                namespace: ns.to_string(),
                tenant_id: tenant.to_string(),
                kind: "governance_audit".to_string(),
                rev: Revision::new(0, 0, "n".to_string()),
                created_at: 0,
                updated_at: 0,
                source: "s".to_string(),
                actor: "a".to_string(),
                lineage: "l".to_string(),
                schema_version: 1,
                trust_score: 1.0f64.to_bits(),
                verified: None,
                expires_at: None,
            },
        },
        origin: OplogOrigin::Local,
        applied: false,
    }
}

#[test]
fn audit_report_selects_governance_records_in_scope() {
    let entries = vec![
        entry(1, "__governance_audit", "t-a", "n-a"),
        entry(2, "users", "t-a", "n-a"),
        entry(3, "__governance_audit", "t-b", "n-a"),
        entry(4, "__governance_audit", "t-a", "n-b"),
    ];
    assert_eq!(select_audit_entries(&entries, None, None), vec![0, 2, 3]);
    assert_eq!(select_audit_entries(&entries, Some("t-a"), None), vec![0, 3]);
    assert_eq!(select_audit_entries(&entries, Some("t-a"), Some("n-a")), vec![0]);
    assert_eq!(csv_escape("a,b,,c"), "a;b;;c");
}

#[test]
fn index_lookup_follows_indexing() {
    let mut idx = IndexManager::new();
    let coll = CollectionName::new("users");
    let compound = IndexDefinition { fields: vec!["a".to_string(), "b".to_string()] };
    match idx.create_index(&coll, &compound) {
        Err(RangoError::InvalidQueryOperator(m)) => assert_eq!(m, "Compound indexes not yet supported"),
        _ => panic!("expected a refusal"),
    }
    idx.create_index(&coll, &IndexDefinition { fields: vec!["age".to_string()] }).unwrap();

    let d1 = doc(vec![("_id", s("u1")), ("age", Value::Int32(30))]);
    let d2 = doc(vec![("_id", s("u2")), ("age", Value::Int64(30))]);
    let d3 = doc(vec![("_id", s("u3"))]);
    idx.index_document(&coll, &d1).unwrap();
    idx.index_document(&coll, &d2).unwrap();
    idx.index_document(&coll, &d3).unwrap();
    assert!(matches!(idx.index_document(&coll, &doc(vec![("age", Value::Int32(1))])), Err(RangoError::DocumentNotFound(_))));

    let ids: Vec<DocumentId> = idx.find_by_index(&coll, "age", &Value::Int32(30)).ok().unwrap();
    assert_eq!(ids.len(), 2);
    assert!(matches!(&ids[0].0, Value::Str(x) if x == "u1"));
    assert!(matches!(&ids[1].0, Value::Str(x) if x == "u2"));
    let nulls = idx.find_by_index(&coll, "age", &Value::Null).ok().unwrap();
    assert_eq!(nulls.len(), 1);
    assert!(idx.find_by_index(&coll, "age", &Value::Bool(true)).ok().unwrap().is_empty());
    match idx.find_by_index(&coll, "name", &Value::Null) {
        Err(RangoError::InvalidQueryOperator(m)) => assert_eq!(m, "No index on field: name"),
        _ => panic!("expected a refusal"),
    }

    idx.remove_document(&coll, &d1).unwrap();
    assert!(idx.find_by_index(&coll, "age", &Value::Int32(30)).ok().unwrap().is_empty());

    assert_eq!(idx.drop_index(&coll, "age").ok(), Some(true));
    assert_eq!(idx.drop_index(&coll, "age").ok(), Some(false));
}

#[test]
fn revision_text_roundtrip_and_order() {
    let a = Revision::new(1000, 2, "node-a".to_string());
    let text = a.to_text();
    let back = Revision::from_text(&text).unwrap();
    assert_eq!(back.timestamp_ms, 1000);
    assert_eq!(back.counter, 2);
    assert_eq!(back.node_id, "node-a");
    let b = Revision::new(1000, 3, "node-a".to_string());
    assert_eq!(a.compare(&b), -1);
    assert_eq!(b.compare(&a), 1);
    assert_eq!(a.compare(&a.clone_revision()), 0);
}

