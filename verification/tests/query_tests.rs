use rango::cursor::Cursor;
use rango::engine::{CollectionName, RangoEngine};
use rango::value::{Document, Value};

fn setup() -> RangoEngine {
    RangoEngine::open("test-node")
}

fn doc(pairs: Vec<(&str, Value)>) -> Document {
    let mut d = Document::new();
    for (k, v) in pairs {
        d.insert_lit(k, v);
    }
    d
}

fn s(x: &str) -> Value {
    Value::Str(x.to_string())
}

fn sub(pairs: Vec<(&str, Value)>) -> Value {
    Value::Doc(doc(pairs))
}

fn get_str(d: &Document, k: &str) -> String {
    match d.get_lit(k) {
        Some(Value::Str(v)) => v.clone(),
        _ => panic!("no string field {}", k),
    }
}

fn collect(mut c: Cursor) -> Vec<Document> {
    let mut out = Vec::new();
    while let Some(item) = c.next() {
        if let Ok(d) = item {
            out.push(d);
        }
    }
    out
}

#[test]
fn test_find_with_eq_filter() {
    let mut engine = setup();
    let coll = CollectionName::new("test");
    engine.insert_one(&coll, doc(vec![("name", s("Alice")), ("age", Value::Int32(30))])).unwrap();
    engine.insert_one(&coll, doc(vec![("name", s("Bob")), ("age", Value::Int32(25))])).unwrap();
    engine.insert_one(&coll, doc(vec![("name", s("Charlie")), ("age", Value::Int32(35))])).unwrap();

    let cursor = engine.find(&coll, &doc(vec![("name", s("Alice"))]), None, None, None, None).unwrap();
    let results = collect(cursor);
    assert_eq!(results.len(), 1);
    assert_eq!(get_str(&results[0], "name"), "Alice");
}

#[test]
fn test_find_with_gt_filter() {
    let mut engine = setup();
    let coll = CollectionName::new("test");
    engine.insert_one(&coll, doc(vec![("name", s("Alice")), ("score", Value::Int64(80))])).unwrap();
    engine.insert_one(&coll, doc(vec![("name", s("Bob")), ("score", Value::Int64(95))])).unwrap();
    engine.insert_one(&coll, doc(vec![("name", s("Charlie")), ("score", Value::Int64(70))])).unwrap();

    let filter = doc(vec![("score", sub(vec![("$gt", Value::Int64(75))]))]);
    let results = collect(engine.find(&coll, &filter, None, None, None, None).unwrap());
    assert_eq!(results.len(), 2);
}

#[test]
fn test_find_with_in_filter() {
    let mut engine = setup();
    let coll = CollectionName::new("test");
    engine.insert_one(&coll, doc(vec![("name", s("Alice")), ("status", s("active"))])).unwrap();
    engine.insert_one(&coll, doc(vec![("name", s("Bob")), ("status", s("pending"))])).unwrap();
    engine.insert_one(&coll, doc(vec![("name", s("Charlie")), ("status", s("inactive"))])).unwrap();

    let filter = doc(vec![("status", sub(vec![("$in", Value::Array(vec![s("active"), s("pending")]))]))]);
    let results = collect(engine.find(&coll, &filter, None, None, None, None).unwrap());
    assert_eq!(results.len(), 2);
}

#[test]
fn test_find_with_and_filter() {
    let mut engine = setup();
    let coll = CollectionName::new("test");
    engine
        .insert_one(&coll, doc(vec![("name", s("Alice")), ("age", Value::Int32(30)), ("active", Value::Bool(true))]))
        .unwrap();
    engine
        .insert_one(&coll, doc(vec![("name", s("Bob")), ("age", Value::Int32(25)), ("active", Value::Bool(true))]))
        .unwrap();
    engine
        .insert_one(&coll, doc(vec![("name", s("Charlie")), ("age", Value::Int32(30)), ("active", Value::Bool(false))]))
        .unwrap();

    let filter = doc(vec![(
        "$and",
        Value::Array(vec![sub(vec![("age", Value::Int64(30))]), sub(vec![("active", Value::Bool(true))])]),
    )]);
    let results = collect(engine.find(&coll, &filter, None, None, None, None).unwrap());
    assert_eq!(results.len(), 1);
    assert_eq!(get_str(&results[0], "name"), "Alice");
}

#[test]
fn test_find_with_or_filter() {
    let mut engine = setup();
    let coll = CollectionName::new("test");
    engine.insert_one(&coll, doc(vec![("name", s("Alice")), ("role", s("admin"))])).unwrap();
    engine.insert_one(&coll, doc(vec![("name", s("Bob")), ("role", s("user"))])).unwrap();
    engine.insert_one(&coll, doc(vec![("name", s("Charlie")), ("role", s("guest"))])).unwrap();

    let filter = doc(vec![(
        "$or",
        Value::Array(vec![sub(vec![("role", s("admin"))]), sub(vec![("role", s("user"))])]),
    )]);
    let results = collect(engine.find(&coll, &filter, None, None, None, None).unwrap());
    assert_eq!(results.len(), 2);
}

#[test]
fn test_find_with_limit() {
    let mut engine = setup();
    let coll = CollectionName::new("test");
    for i in 0..10 {
        engine.insert_one(&coll, doc(vec![("index", Value::Int32(i))])).unwrap();
    }
    let results = collect(engine.find(&coll, &Document::new(), None, None, None, Some(3)).unwrap());
    assert_eq!(results.len(), 3);
}

#[test]
fn test_find_with_skip() {
    let mut engine = setup();
    let coll = CollectionName::new("test");
    for i in 0..5 {
        engine.insert_one(&coll, doc(vec![("index", Value::Int32(i))])).unwrap();
    }
    let results = collect(engine.find(&coll, &Document::new(), None, None, Some(2), None).unwrap());
    assert_eq!(results.len(), 3);
}

#[test]
fn test_find_with_projection_include() {
    let mut engine = setup();
    let coll = CollectionName::new("test");
    engine
        .insert_one(
            &coll,
            doc(vec![("name", s("Alice")), ("age", Value::Int32(30)), ("email", s("alice@example.com"))]),
        )
        .unwrap();
    let projection = doc(vec![("name", Value::Int32(1))]);
    let mut cursor = engine.find(&coll, &Document::new(), Some(&projection), None, None, None).unwrap();
    let d = cursor.next().unwrap().unwrap();
    assert!(d.get_lit("name").is_some());
    assert!(d.get_lit("age").is_none());
    assert!(d.get_lit("_id").is_some());
}

#[test]
fn test_find_with_projection_exclude() {
    let mut engine = setup();
    let coll = CollectionName::new("test");
    engine
        .insert_one(&coll, doc(vec![("name", s("Alice")), ("age", Value::Int32(30)), ("secret", s("password"))]))
        .unwrap();
    let projection = doc(vec![("secret", Value::Int32(0))]);
    let mut cursor = engine.find(&coll, &Document::new(), Some(&projection), None, None, None).unwrap();
    let d = cursor.next().unwrap().unwrap();
    assert!(d.get_lit("name").is_some());
    assert!(d.get_lit("secret").is_none());
}

#[test]
fn test_find_with_sort() {
    let mut engine = setup();
    let coll = CollectionName::new("test");
    engine.insert_one(&coll, doc(vec![("name", s("Charlie")), ("score", Value::Int64(30))])).unwrap();
    engine.insert_one(&coll, doc(vec![("name", s("Alice")), ("score", Value::Int64(10))])).unwrap();
    engine.insert_one(&coll, doc(vec![("name", s("Bob")), ("score", Value::Int64(20))])).unwrap();

    let key = "score".to_string();
    let results = collect(engine.find(&coll, &Document::new(), None, Some((&key, false)), None, None).unwrap());
    assert_eq!(get_str(&results[0], "name"), "Alice");
    assert_eq!(get_str(&results[1], "name"), "Bob");
    assert_eq!(get_str(&results[2], "name"), "Charlie");
}

#[test]
fn cursor_for_each_visits_documents_in_order_and_stops_at_an_error() {
    let mk = |n: i32| {
        let mut d = Document::new();
        d.insert_lit("n", Value::Int32(n));
        d
    };
    let mut seen: Vec<i32> = Vec::new();
    let cursor = Cursor::from_items(vec![Ok(mk(1)), Ok(mk(2)), Ok(mk(3))]);
    let r = cursor.for_each(|d| {
        if let Some(Value::Int32(n)) = d.get_lit("n") {
            seen.push(*n);
        }
        Ok(())
    });
    assert!(r.is_ok());
    assert_eq!(seen, vec![1, 2, 3]);

    let mut count = 0;
    let cursor = Cursor::from_items(vec![
        Ok(mk(1)),
        Err(rango::types::RangoError::InvalidQueryOperator("$bad".to_string())),
        Ok(mk(3)),
    ]);
    let r = cursor.for_each(|_d| {
        count += 1;
        Ok(())
    });
    assert!(matches!(r, Err(rango::types::RangoError::InvalidQueryOperator(ref m)) if m == "$bad"));
    assert_eq!(count, 1);

    // an error from the closure ends the walk
    let mut count = 0;
    let cursor = Cursor::from_items(vec![Ok(mk(1)), Ok(mk(2))]);
    let r = cursor.for_each(|_d| {
        count += 1;
        Err(rango::types::RangoError::Conflict("stop".to_string()))
    });
    assert!(r.is_err());
    assert_eq!(count, 1);
}
