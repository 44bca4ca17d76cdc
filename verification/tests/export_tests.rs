use rango::export::{document_to_json, value_to_json};
use rango::json::{json_to_bson, JsonValue};
use rango::value::{Document, Value};

fn parse_double(s: &str) -> Result<u64, String> {
    s.parse::<f64>().map(|f| f.to_bits()).map_err(|e| e.to_string())
}

fn text_of(j: &JsonValue) -> String {
    match j {
        JsonValue::Str(s) => s.clone(),
        _ => panic!("expected a JSON string"),
    }
}

#[test]
fn export_non_finite_double_is_zero() {
    for d in [f64::NAN, f64::INFINITY, f64::NEG_INFINITY] {
        let j = value_to_json(&Value::Double(d.to_bits()));
        assert!(matches!(j, JsonValue::Int(0)));
    }
}

#[test]
fn export_finite_double_keeps_its_bits() {
    let j = value_to_json(&Value::Double(1.5f64.to_bits()));
    assert!(matches!(j, JsonValue::Float(b) if b == 1.5f64.to_bits()));
}

#[test]
fn export_integers_and_scalars() {
    assert!(matches!(value_to_json(&Value::Int32(-7)), JsonValue::Int(-7)));
    assert!(matches!(value_to_json(&Value::Int64(1 << 40)), JsonValue::Int(v) if v == 1 << 40));
    assert!(matches!(value_to_json(&Value::Bool(true)), JsonValue::Bool(true)));
    assert!(matches!(value_to_json(&Value::Null), JsonValue::Null));
    assert_eq!(text_of(&value_to_json(&Value::Str("hi".to_string()))), "hi");
}

#[test]
fn export_object_id_is_lower_hex() {
    let bytes: Vec<u8> = (0u8..12).collect();
    let j = value_to_json(&Value::ObjectId(bytes));
    assert_eq!(text_of(&j), "000102030405060708090a0b");
}

#[test]
fn export_uuid_binary_is_hyphenated() {
    let bytes: Vec<u8> = (0u8..16).collect();
    let j = value_to_json(&Value::Binary { subtype: 4, bytes });
    assert_eq!(text_of(&j), "00010203-0405-0607-0809-0a0b0c0d0e0f");
}

#[test]
fn export_other_binary_names_its_subtype() {
    let j = value_to_json(&Value::Binary { subtype: 0, bytes: vec![1, 2, 3] });
    assert_eq!(text_of(&j), "<Binary Generic>");
    let short_uuid = value_to_json(&Value::Binary { subtype: 4, bytes: vec![1, 2] });
    assert_eq!(text_of(&short_uuid), "<Binary Uuid>");
}

#[test]
fn export_datetime_is_its_calendar_text() {
    let j = value_to_json(&Value::DateTime(0));
    assert!(text_of(&j).starts_with("1970-01-01"));
}

#[test]
fn export_raw_kinds_as_the_bson_crate_reads_them() {
    let regex = value_to_json(&Value::Other { tag: 0x0B, raw: b"ab+\0i\0".to_vec() });
    assert_eq!(text_of(&regex), "/ab+/i");
    let code = value_to_json(&Value::Other { tag: 0x0D, raw: vec![3, 0, 0, 0, b'f', b'(', 0] });
    assert_eq!(text_of(&code), "f(");
    let ts = value_to_json(&Value::Other { tag: 0x11, raw: vec![1, 0, 0, 0, 100, 0, 0, 0] });
    assert!(matches!(ts, JsonValue::Int(100)));
    assert_eq!(text_of(&value_to_json(&Value::Other { tag: 0x7F, raw: vec![] })), "$MaxKey");
    assert_eq!(text_of(&value_to_json(&Value::Other { tag: 0xFF, raw: vec![] })), "$MinKey");
    assert!(matches!(value_to_json(&Value::Other { tag: 0x06, raw: vec![] }), JsonValue::Null));
    // bytes that do not read as an element give null
    assert!(matches!(value_to_json(&Value::Other { tag: 0x0B, raw: vec![1, 2] }), JsonValue::Null));
}

#[test]
fn export_nested_document_keeps_order() {
    let mut inner = Document::new();
    inner.insert_lit("z", Value::Int32(1));
    inner.insert_lit("a", Value::Array(vec![Value::Bool(false), Value::Null]));
    let mut d = Document::new();
    d.insert_lit("name", Value::Str("x".to_string()));
    d.insert_lit("inner", Value::Doc(inner));
    let members = document_to_json(&d);
    assert_eq!(members.len(), 2);
    assert_eq!(members[0].0, "name");
    assert_eq!(members[1].0, "inner");
    match &members[1].1 {
        JsonValue::Object(m) => {
            assert_eq!(m[0].0, "z");
            assert_eq!(m[1].0, "a");
            assert!(matches!(&m[1].1, JsonValue::Array(a) if a.len() == 2
                && matches!(a[0], JsonValue::Bool(false)) && matches!(a[1], JsonValue::Null)));
        }
        _ => panic!("expected an object"),
    }
}

#[test]
fn import_then_export_gives_the_input_back() {
    let input = JsonValue::Object(vec![
        ("name".to_string(), JsonValue::Str("Ada".to_string())),
        ("age".to_string(), JsonValue::Int(36)),
        ("big".to_string(), JsonValue::Int(1 << 40)),
        ("score".to_string(), JsonValue::Float(2.5f64.to_bits())),
        ("tags".to_string(), JsonValue::Array(vec![JsonValue::Str("a".to_string()), JsonValue::Bool(true)])),
        ("none".to_string(), JsonValue::Null),
    ]);
    let v = json_to_bson(&input, &parse_double).ok().expect("imports");
    let out = value_to_json(&v);
    match out {
        JsonValue::Object(m) => {
            assert_eq!(m.len(), 6);
            assert_eq!(m[0].0, "name");
            assert_eq!(text_of(&m[0].1), "Ada");
            assert!(matches!(m[1].1, JsonValue::Int(36)));
            assert!(matches!(m[2].1, JsonValue::Int(v) if v == 1 << 40));
            assert!(matches!(m[3].1, JsonValue::Float(b) if b == 2.5f64.to_bits()));
            assert!(matches!(&m[4].1, JsonValue::Array(a) if a.len() == 2));
            assert!(matches!(m[5].1, JsonValue::Null));
        }
        _ => panic!("expected an object"),
    }
}
