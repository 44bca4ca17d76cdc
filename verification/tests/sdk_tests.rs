use rango::cursor::Cursor;
use rango::engine::CollectionName;
use rango::json::JsonValue;
use rango::retrieval::{RetrievalCapabilityRequest, RetrievalStatus};
use rango::sdk::{
    sanitize_json_line, DerivedReadLabel, ImportLine, NoOpProgress, RangoClient, SemanticProjectionRequest,
    SemanticProjectionResponse, TieredMemoryReadRequest, TieredMemoryWriteRequest,
};
use rango::types::MemoryTier;
use rango::value::{Document, Value};

fn to_json(v: serde_json::Value) -> JsonValue {
    match v {
        serde_json::Value::Null => JsonValue::Null,
        serde_json::Value::Bool(b) => JsonValue::Bool(b),
        serde_json::Value::Number(n) => match n.as_i64() {
            Some(i) => JsonValue::Int(i),
            None => JsonValue::Float(n.as_f64().unwrap_or(0.0).to_bits()),
        },
        serde_json::Value::String(s) => JsonValue::Str(s),
        serde_json::Value::Array(a) => JsonValue::Array(a.into_iter().map(to_json).collect()),
        serde_json::Value::Object(m) => JsonValue::Object(m.into_iter().map(|(k, v)| (k, to_json(v))).collect()),
    }
}

fn parse_json(line: &str) -> Result<JsonValue, String> {
    serde_json::from_str::<serde_json::Value>(line)
        .map(to_json)
        .map_err(|e| format!("JSON parse error: {}", e))
}

fn parse_double(text: &str) -> Result<u64, String> {
    text.parse::<f64>().map(|f| f.to_bits()).map_err(|e| e.to_string())
}

fn lines(texts: &[&str]) -> Vec<ImportLine> {
    texts.iter().map(|t| ImportLine::Text(t.to_string())).collect()
}

fn all_docs(client: &RangoClient, coll: &str) -> Vec<Document> {
    let mut c: Cursor = client.engine.find_many(&CollectionName::new(coll)).unwrap();
    let mut out = Vec::new();
    while let Some(item) = c.next() {
        if let Ok(d) = item {
            out.push(d);
        }
    }
    out
}

fn doc(pairs: Vec<(&str, Value)>) -> Document {
    let mut d = Document::new();
    for (k, v) in pairs {
        d.insert_lit(k, v);
    }
    d
}

#[test]
fn test_import_json_lines() {
    let mut client = RangoClient::open("test-node");
    let result = client.import_lines(
        "people",
        lines(&[r#"{"name": "Alice", "age": 30}"#, r#"{"name": "Bob", "age": 25}"#, r#"{"name": "Charlie", "age": 35}"#]),
        &parse_json,
        &parse_double,
        &NoOpProgress,
    );
    assert_eq!(result.imported, 3);
    assert_eq!(result.errors, 0);
    assert_eq!(all_docs(&client, "people").len(), 3);
}

#[test]
fn test_import_preserves_objectid() {
    let mut client = RangoClient::open("test-node");
    let result = client.import_lines(
        "people",
        lines(&[r#"{"_id": {"$oid": "507f1f77bcf86cd799439011"}, "name": "Alice"}"#]),
        &parse_json,
        &parse_double,
        &NoOpProgress,
    );
    assert_eq!(result.imported, 1);

    let docs = all_docs(&client, "people");
    assert_eq!(docs.len(), 1);
    match docs[0].get_lit("_id") {
        Some(Value::ObjectId(bytes)) => {
            let oid = bson::oid::ObjectId::from_bytes(bytes.as_slice().try_into().unwrap());
            assert_eq!(oid.to_string(), "507f1f77bcf86cd799439011");
        }
        _ => panic!("Expected ObjectId"),
    }
}

#[test]
fn test_import_skips_invalid_lines() {
    let mut client = RangoClient::open("test-node");
    let result = client.import_lines(
        "people",
        lines(&[r#"{"name": "Alice"}"#, "this is not json", r#"{"name": "Bob"}"#]),
        &parse_json,
        &parse_double,
        &NoOpProgress,
    );
    assert_eq!(result.imported, 2);
    assert_eq!(result.errors, 1);
}

#[test]
fn test_import_extended_json_types() {
    let mut client = RangoClient::open("test-node");
    let result = client.import_lines(
        "types",
        lines(&[r#"{"int": {"$numberInt": "42"}, "long": {"$numberLong": "9007199254740992"}, "double": {"$numberDouble": "3.14"}, "date": {"$date": "2024-01-15T10:30:00Z"}}"#]),
        &parse_json,
        &parse_double,
        &NoOpProgress,
    );
    assert_eq!(result.imported, 1);

    let docs = all_docs(&client, "types");
    assert_eq!(docs.len(), 1);
    let d = &docs[0];
    assert!(matches!(d.get_lit("int"), Some(Value::Int32(42))));
    assert!(matches!(d.get_lit("long"), Some(Value::Int64(9007199254740992))));
    let expected_double = 314_f64 / 100.0;
    match d.get_lit("double") {
        Some(Value::Double(bits)) => assert!((f64::from_bits(*bits) - expected_double).abs() < 0.001),
        _ => panic!("Expected double"),
    }
    assert!(matches!(d.get_lit("date"), Some(Value::DateTime(1705314600000))));
}

#[test]
fn test_import_json_with_utf8_bom_first_line() {
    let mut client = RangoClient::open("test-node");
    let result = client.import_lines(
        "people",
        lines(&["\u{feff}{\"name\": \"Alice\"}", r#"{"name": "Bob"}"#]),
        &parse_json,
        &parse_double,
        &NoOpProgress,
    );
    assert_eq!(result.imported, 2);
    assert_eq!(result.errors, 0);
}

#[test]
fn import_counts_read_failures_and_skips_blank_lines() {
    let mut client = RangoClient::open("test-node");
    let input = vec![
        ImportLine::Text(r#"{"a": 1}"#.to_string()),
        ImportLine::Text("   ".to_string()),
        ImportLine::Failed("stream did not contain valid UTF-8".to_string()),
        ImportLine::Text("[1, 2]".to_string()),
        ImportLine::Text("".to_string()),
    ];
    let result = client.import_lines("misc", input, &parse_json, &parse_double, &NoOpProgress);
    // one document; the read failure and the array are errors; blanks are skipped
    assert_eq!(result.imported, 1);
    assert_eq!(result.errors, 2);
    assert_eq!(client.engine.oplog().len(), 1);
}

#[test]
fn sanitize_trims_and_strips_bom_on_first_line_only() {
    assert_eq!(sanitize_json_line(0, "\u{feff}\u{feff}{\"a\":1}  "), "{\"a\":1}");
    assert_eq!(sanitize_json_line(1, "\u{feff}{\"a\":1}"), "\u{feff}{\"a\":1}");
    assert_eq!(sanitize_json_line(3, " \t {\"b\":2}\r\n"), "{\"b\":2}");
    assert_eq!(sanitize_json_line(0, "   "), "");
    assert_eq!(sanitize_json_line(0, "\u{feff}"), "");
}

#[test]
fn semantic_sdk_contract_is_typed_and_non_canonical() {
    let request = SemanticProjectionRequest::new(
        "tenant-a",
        "ns-a",
        "candidate-1",
        doc(vec![("summary", Value::Str("derived semantic memory".to_string()))]),
    );
    assert_eq!(request.tenant_id, "tenant-a");
    assert_eq!(request.namespace, "ns-a");
    assert_eq!(request.candidate_id, "candidate-1");
    assert_eq!(request.tier, MemoryTier::Semantic);

    let response = SemanticProjectionResponse {
        accepted: true,
        write_id: "semantic-write-1".to_string(),
        label: DerivedReadLabel::derived_non_canonical(),
    };
    assert!(response.accepted);
    assert!(response.label.derived);
    assert!(!response.label.canonical);
}

#[test]
fn tiered_memory_api_is_generic_and_typed() {
    let read_req = TieredMemoryReadRequest::new("tenant-a", "ns-a", MemoryTier::Semantic)
        .with_limit(25)
        .require_derived_label(true);
    assert_eq!(read_req.tenant_id, "tenant-a");
    assert_eq!(read_req.namespace, "ns-a");
    assert_eq!(read_req.tier, MemoryTier::Semantic);
    assert_eq!(read_req.limit, 25);
    assert!(read_req.require_derived_label);

    let write_req = TieredMemoryWriteRequest::new("tenant-a", "ns-a", MemoryTier::Artifact);
    assert_eq!(write_req.tenant_id, "tenant-a");
    assert_eq!(write_req.namespace, "ns-a");
    assert_eq!(write_req.tier, MemoryTier::Artifact);

    let default_read = TieredMemoryReadRequest::new("t", "n", MemoryTier::State);
    assert_eq!(default_read.limit, 100);
    assert!(!default_read.require_derived_label);
}

#[test]
fn retrieval_api_contract_is_typed_and_external_capability_oriented() {
    let request = RetrievalCapabilityRequest::new("tenant-a", "ns-a", "latest outage").with_limit(8);

    assert_eq!(request.tenant_id, "tenant-a");
    assert_eq!(request.namespace, "ns-a");
    assert_eq!(request.query, "latest outage");
    assert_eq!(request.limit, 8);
    assert!(request.vector_limit > 0);
    assert!(request.graph_limit > 0);

    let degraded = RetrievalStatus::Degraded;
    assert!(matches!(degraded, RetrievalStatus::Degraded));
}

#[test]
fn collection_client_inserts_and_reads_back() {
    let mut client = RangoClient::open("agent-node-1");
    let mut state = client.collection("agent_state");
    let id = state
        .insert_one(doc(vec![
            ("tenant_id", Value::Str("acme".to_string())),
            ("namespace", Value::Str("planner".to_string())),
            ("status", Value::Str("running".to_string())),
            ("step", Value::Str("collect-context".to_string())),
        ]))
        .unwrap();
    let current = state.find_one(&id).unwrap().unwrap();
    assert!(matches!(current.get_lit("status"), Some(Value::Str(s)) if s == "running"));
    let update = doc(vec![("$set", Value::Doc(doc(vec![("step", Value::Str("plan".to_string()))])))]);
    let float_add = |a: u64, b: u64| (f64::from_bits(a) + f64::from_bits(b)).to_bits();
    assert!(state.update_one(&id, &update, &float_add).unwrap());
    assert!(matches!(state.find_one(&id).unwrap().unwrap().get_lit("step"), Some(Value::Str(s)) if s == "plan"));
    assert!(state.delete_one(&id).unwrap());
    assert!(state.find_one(&id).unwrap().is_none());
    let mut cur = state.find_many().unwrap();
    assert!(cur.next().is_none());
    assert_eq!(client.engine.oplog().len(), 3);
}

#[test]
fn invalid_object_id_is_an_import_error() {
    let mut client = RangoClient::open("test-node");
    let result = client.import_lines(
        "people",
        lines(&[r#"{"_id": {"$oid": "zz"}}"#, r#"{"when": {"$date": "not a date"}}"#]),
        &parse_json,
        &parse_double,
        &NoOpProgress,
    );
    assert_eq!(result.imported, 0);
    assert_eq!(result.errors, 2);
}

#[test]
fn import_inserts_exactly_the_lines_that_convert() {
    let mut client = RangoClient::open("test-node");
    let result = client.import_lines(
        "people",
        lines(&[r#"{"name": "Alice"}"#, "this is not json", "", r#"{"name": "Bob"}"#, "[1, 2]"]),
        &parse_json,
        &parse_double,
        &NoOpProgress,
    );
    assert_eq!(result.imported, 2);
    assert_eq!(result.errors, 2);
    let docs = all_docs(&client, "people");
    assert_eq!(docs.len(), 2);
    let names: Vec<String> = docs
        .iter()
        .filter_map(|d| match d.get_lit("name") {
            Some(Value::Str(s)) => Some(s.clone()),
            _ => None,
        })
        .collect();
    assert_eq!(names, vec!["Alice".to_string(), "Bob".to_string()]);
}
