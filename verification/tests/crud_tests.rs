use rango::cursor::Cursor;
use rango::engine::{CollectionName, DocumentId, RangoConfig, RangoEngine};
use rango::types::RangoError;
use rango::value::{Document, Value};

fn setup() -> RangoEngine {
    RangoEngine::open("test-node")
}

fn doc(pairs: Vec<(&str, Value)>) -> Document {
    let mut d = Document::new();
    for (k, v) in pairs {
        d.insert_lit(k, v);
    }
    d
}

fn s(x: &str) -> Value {
    Value::Str(x.to_string())
}

fn get_str(d: &Document, k: &str) -> String {
    match d.get_lit(k) {
        Some(Value::Str(v)) => v.clone(),
        _ => panic!("no string field {}", k),
    }
}

fn float_add(a: u64, b: u64) -> u64 {
    (f64::from_bits(a) + f64::from_bits(b)).to_bits()
}

fn collect(mut c: Cursor) -> Vec<Document> {
    let mut out = Vec::new();
    while let Some(item) = c.next() {
        if let Ok(d) = item {
            out.push(d);
        }
    }
    out
}

#[test]
fn test_insert_and_find_one() {
    let mut engine = setup();
    let coll = CollectionName::new("test");

    let id = engine.insert_one(&coll, doc(vec![("name", s("Alice")), ("age", Value::Int32(30))])).unwrap();
    let found = engine.find_one(&coll, &id).unwrap();

    assert!(found.is_some());
    let d = found.unwrap();
    assert_eq!(get_str(&d, "name"), "Alice");
    assert!(matches!(d.get_lit("age"), Some(Value::Int32(30))));
}

#[test]
fn test_insert_generates_uuid_v7() {
    let mut engine = setup();
    let coll = CollectionName::new("test");

    let id = engine.insert_one(&coll, doc(vec![("name", s("Bob"))])).unwrap();

    match &id.0 {
        Value::Binary { subtype, bytes } => {
            assert_eq!(*subtype, 4);
            assert_eq!(bytes.len(), 16);
            // version 7
            assert_eq!(bytes[6] >> 4, 7);
        }
        _ => panic!("Expected Binary UUID"),
    }
}

#[test]
fn test_insert_preserves_existing_id() {
    let mut engine = setup();
    let coll = CollectionName::new("test");

    let existing = bson::oid::ObjectId::new().bytes().to_vec();
    let id = engine
        .insert_one(&coll, doc(vec![("_id", Value::ObjectId(existing.clone())), ("name", s("Charlie"))]))
        .unwrap();

    match &id.0 {
        Value::ObjectId(oid) => assert_eq!(*oid, existing),
        _ => panic!("Expected ObjectId"),
    }
}

#[test]
fn test_find_one_not_found() {
    let mut engine = setup();
    let coll = CollectionName::new("test");

    let id = DocumentId::new_uuid_v7();
    let found = engine.find_one(&coll, &id).unwrap();

    assert!(found.is_none());
}

#[test]
fn test_find_many() {
    let mut engine = setup();
    let coll = CollectionName::new("test");

    engine.insert_one(&coll, doc(vec![("name", s("Alice"))])).unwrap();
    engine.insert_one(&coll, doc(vec![("name", s("Bob"))])).unwrap();
    engine.insert_one(&coll, doc(vec![("name", s("Charlie"))])).unwrap();

    let cursor = engine.find_many(&coll).unwrap();
    assert_eq!(collect(cursor).len(), 3);
}

#[test]
fn test_update_one_set() {
    let mut engine = setup();
    let coll = CollectionName::new("test");

    let id = engine.insert_one(&coll, doc(vec![("name", s("Alice")), ("age", Value::Int32(30))])).unwrap();
    let update = doc(vec![("$set", Value::Doc(doc(vec![("age", Value::Int32(31))])))]);
    let updated = engine.update_one(&coll, &id, &update, &float_add).unwrap();

    assert!(updated);
    let found = engine.find_one(&coll, &id).unwrap().unwrap();
    assert!(matches!(found.get_lit("age"), Some(Value::Int32(31))));
    assert_eq!(get_str(&found, "name"), "Alice");
}

#[test]
fn test_update_one_unset() {
    let mut engine = setup();
    let coll = CollectionName::new("test");

    let id = engine.insert_one(&coll, doc(vec![("name", s("Alice")), ("age", Value::Int32(30))])).unwrap();
    let update = doc(vec![("$unset", Value::Doc(doc(vec![("age", s(""))])))]);
    let updated = engine.update_one(&coll, &id, &update, &float_add).unwrap();

    assert!(updated);
    let found = engine.find_one(&coll, &id).unwrap().unwrap();
    assert!(found.get_lit("age").is_none());
}

#[test]
fn test_update_one_inc() {
    let mut engine = setup();
    let coll = CollectionName::new("test");

    let id = engine.insert_one(&coll, doc(vec![("name", s("Alice")), ("score", Value::Int64(100))])).unwrap();
    let update = doc(vec![("$inc", Value::Doc(doc(vec![("score", Value::Int64(5))])))]);
    let updated = engine.update_one(&coll, &id, &update, &float_add).unwrap();

    assert!(updated);
    let found = engine.find_one(&coll, &id).unwrap().unwrap();
    assert!(matches!(found.get_lit("score"), Some(Value::Int64(105))));
}

#[test]
fn test_update_one_not_found() {
    let mut engine = setup();
    let coll = CollectionName::new("test");

    let id = DocumentId::new_uuid_v7();
    let update = doc(vec![("$set", Value::Doc(doc(vec![("x", Value::Int32(1))])))]);
    let updated = engine.update_one(&coll, &id, &update, &float_add).unwrap();

    assert!(!updated);
}

#[test]
fn test_delete_one() {
    let mut engine = setup();
    let coll = CollectionName::new("test");

    let id = engine.insert_one(&coll, doc(vec![("name", s("Alice"))])).unwrap();
    let deleted = engine.delete_one(&coll, &id).unwrap();

    assert!(deleted);
    assert!(engine.find_one(&coll, &id).unwrap().is_none());

    let raw = engine.find_all_raw(&coll).unwrap();
    assert_eq!(raw.len(), 1);
    assert!(matches!(raw[0].get_lit("_deleted"), Some(Value::Bool(true))));
}

#[test]
fn test_delete_one_not_found() {
    let mut engine = setup();
    let coll = CollectionName::new("test");

    let id = DocumentId::new_uuid_v7();
    let deleted = engine.delete_one(&coll, &id).unwrap();

    assert!(!deleted);
}

#[test]
fn test_revision_set_on_insert() {
    let mut engine = setup();
    let coll = CollectionName::new("test");

    let id = engine.insert_one(&coll, doc(vec![("name", s("Alice"))])).unwrap();
    let found = engine.find_one(&coll, &id).unwrap().unwrap();
    let rev = get_str(&found, "_rev");

    assert!(!rev.is_empty());
    assert!(rev.contains('-'));
}

#[test]
fn test_updated_at_set_on_insert() {
    let mut engine = setup();
    let coll = CollectionName::new("test");

    let id = engine.insert_one(&coll, doc(vec![("name", s("Alice"))])).unwrap();
    let found = engine.find_one(&coll, &id).unwrap().unwrap();

    assert!(found.get_lit("_updated_at").is_some());
}

#[test]
fn test_document_size_limit() {
    let config = RangoConfig { max_document_size_bytes: 300, memory_budget_bytes: 1024 * 1024 };
    let mut engine = RangoEngine::open_with_config("test-node", config);
    let coll = CollectionName::new("test");

    let id = engine.insert_one(&coll, doc(vec![("name", s("Alice"))])).unwrap();
    assert!(engine.find_one(&coll, &id).unwrap().is_some());

    let big_value = "x".repeat(500);
    let result = engine.insert_one(&coll, doc(vec![("data", s(&big_value))]));
    match result {
        Err(RangoError::DocumentTooLarge { size, limit }) => {
            assert!(size > 300);
            assert_eq!(limit, 300);
        }
        _ => panic!("Expected DocumentTooLarge error"),
    }
}

#[test]
fn test_large_collection_streaming() {
    let mut engine = setup();
    let coll = CollectionName::new("bulk");

    for i in 0..10_000i64 {
        engine.insert_one(&coll, doc(vec![("index", Value::Int64(i))])).unwrap();
    }

    let cursor = engine.find_many(&coll).unwrap();
    assert_eq!(collect(cursor).len(), 10_000);

    let filter = doc(vec![("index", Value::Doc(doc(vec![("$gte", Value::Int64(5000))])))]);
    let cursor = engine.find(&coll, &filter, None, None, None, Some(100)).unwrap();
    assert_eq!(collect(cursor).len(), 100);
}
