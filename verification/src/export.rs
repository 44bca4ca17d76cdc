use vstd::prelude::*;
use crate::value::{VVal, VDoc, Value, Document};
use crate::json::{JsonValue, VJson, DoubleParser, convert, convert_array, convert_object, extended_applies, int_value};
use crate::value::lemma_key_pos_none;
use crate::uuid_gen::{hex_of, hyphenated};
use crate::float::{f64_is_finite, is_finite};
use crate::framing::{le_bytes, write_u32};
use bson::Bson;

verus! {

// JSON export: a BSON value as the JSON an export line holds. Dates,
// object ids and UUIDs become text; a number that is not finite becomes 0.

/// The text `bson::DateTime`'s `Display` gives for `ms` milliseconds since
/// the epoch.
pub uninterp spec fn datetime_text(ms: i64) -> Seq<char>;

/// The text `{:02x?}` gives for `bson::spec::BinarySubtype::from(subtype)`.
pub uninterp spec fn binary_subtype_debug(subtype: u8) -> Seq<char>;

/// Wraps `Display` of `bson::DateTime::from_millis(ms)`; its text is named.
#[verifier::external_body]
fn render_datetime(ms: i64) -> (r: String)
    ensures
        r@ == datetime_text(ms),
{
    bson::DateTime::from_millis(ms).to_string()
}

/// Wraps the `{:02x?}` formatting of `bson::spec::BinarySubtype::from`; its
/// text is named.
#[verifier::external_body]
fn render_subtype(subtype: u8) -> (r: String)
    ensures
        r@ == binary_subtype_debug(subtype),
{
    format!("{:02x?}", bson::spec::BinarySubtype::from(subtype))
}

/// Wraps `Display` of `uuid::Uuid::from_bytes`: the lower-case hyphenated
/// text of the sixteen bytes (uuid's `fmt.rs`).
#[verifier::external_body]
fn render_uuid(b: &Vec<u8>) -> (r: String)
    requires
        b@.len() == 16,
    ensures
        r@ == hyphenated(b@),
{
    let a: [u8; 16] = [b[0], b[1], b[2], b[3], b[4], b[5], b[6], b[7], b[8], b[9], b[10], b[11], b[12], b[13], b[14], b[15]];
    uuid::Uuid::from_bytes(a).to_string()
}

/// Wraps `bson::oid::ObjectId::from_bytes(..).to_hex()`: `hex::encode`, two
/// lower-case hexadecimal digits per byte.
#[verifier::external_body]
fn render_oid(b: &Vec<u8>) -> (r: String)
    requires
        b@.len() == 12,
    ensures
        r@ == hex_of(b@),
{
    let a: [u8; 12] = [b[0], b[1], b[2], b[3], b[4], b[5], b[6], b[7], b[8], b[9], b[10], b[11]];
    bson::oid::ObjectId::from_bytes(a).to_hex()
}

/// An element of a kind the library keeps as raw bytes, as the bson crate
/// reads it: what its JSON is made of.
pub enum OtherValue {
    Regex(String, String),
    Code(String),
    CodeWithScope,
    Timestamp(u32),
    Decimal(String),
    MaxKey,
    MinKey,
    Symbol(String),
    Unknown,
}

pub enum VOther {
    Regex(Seq<char>, Seq<char>),
    Code(Seq<char>),
    CodeWithScope,
    Timestamp(u32),
    Decimal(Seq<char>),
    MaxKey,
    MinKey,
    Symbol(Seq<char>),
    Unknown,
}

impl View for OtherValue {
    type V = VOther;

    open spec fn view(&self) -> VOther {
        match self {
            OtherValue::Regex(p, o) => VOther::Regex(p@, o@),
            OtherValue::Code(c) => VOther::Code(c@),
            OtherValue::CodeWithScope => VOther::CodeWithScope,
            OtherValue::Timestamp(t) => VOther::Timestamp(*t),
            OtherValue::Decimal(d) => VOther::Decimal(d@),
            OtherValue::MaxKey => VOther::MaxKey,
            OtherValue::MinKey => VOther::MinKey,
            OtherValue::Symbol(x) => VOther::Symbol(x@),
            OtherValue::Unknown => VOther::Unknown,
        }
    }
}

/// What `bson::Document::from_reader` reads from `bytes` under the empty
/// key, sorted by kind (`Unknown` for any other kind, or when the bytes do
/// not read as a document).
pub uninterp spec fn decoded_other(bytes: Seq<u8>) -> VOther;

/// Wraps `bson::Document::from_reader` and `Document::get("")`: the element
/// a one-element document holds, its fields moved out by kind (a decimal as
/// `Decimal128`'s `Display` text, a timestamp as its `time`). The result is
/// named.
#[verifier::external_body]
fn decode_other(bytes: &Vec<u8>) -> (r: OtherValue)
    ensures
        r@ == decoded_other(bytes@),
{
    let doc = match bson::Document::from_reader(bytes.as_slice()) { Ok(d) => d, Err(_) => return OtherValue::Unknown };
    match doc.get("").cloned() {
        Some(Bson::RegularExpression(x)) => OtherValue::Regex(x.pattern.into_string(), x.options.into_string()),
        Some(Bson::JavaScriptCode(c)) => OtherValue::Code(c),
        Some(Bson::JavaScriptCodeWithScope(_)) => OtherValue::CodeWithScope,
        Some(Bson::Timestamp(t)) => OtherValue::Timestamp(t.time),
        Some(Bson::Decimal128(x)) => OtherValue::Decimal(x.to_string()),
        Some(Bson::MaxKey) => OtherValue::MaxKey,
        Some(Bson::MinKey) => OtherValue::MinKey,
        Some(Bson::Symbol(x)) => OtherValue::Symbol(x),
        _ => OtherValue::Unknown,
    }
}

/// The BSON document that holds the raw element (`tag`, `raw`) alone, under
/// the empty key: its length, the element type, the empty key's terminator,
/// the payload and the document's terminator.
pub open spec fn element_document(tag: u8, raw: Seq<u8>) -> Seq<u8> {
    le_bytes((raw.len() + 7) as u32) + seq![tag, 0u8] + raw + seq![0u8]
}

/// The JSON of a decoded element: a regular expression as `/pattern/options`,
/// code, symbols and decimals as their text, a timestamp as its seconds, the
/// two keys as `$MaxKey` and `$MinKey`, anything else as null.
pub open spec fn other_json(o: VOther) -> VJson {
    match o {
        VOther::Regex(p, f) => VJson::Str("/"@ + p + "/"@ + f),
        VOther::Code(c) => VJson::Str(c),
        VOther::CodeWithScope => VJson::Str("[JS code with scope]"@),
        VOther::Timestamp(t) => VJson::Int(t as i64),
        VOther::Decimal(d) => VJson::Str(d),
        VOther::MaxKey => VJson::Str("$MaxKey"@),
        VOther::MinKey => VJson::Str("$MinKey"@),
        VOther::Symbol(x) => VJson::Str(x),
        VOther::Unknown => VJson::Null,
    }
}

/// The JSON of a raw element; null where no BSON document could hold it.
pub open spec fn raw_element_json(tag: u8, raw: Seq<u8>) -> VJson {
    if raw.len() + 7 <= i32::MAX {
        other_json(decoded_other(element_document(tag, raw)))
    } else {
        VJson::Null
    }
}

/// The document bytes `element_document` describes.
fn element_document_bytes(tag: u8, raw: &Vec<u8>) -> (r: Vec<u8>)
    requires
        raw@.len() + 7 <= i32::MAX,
    ensures
        r@ == element_document(tag, raw@),
{
    let mut out: Vec<u8> = Vec::new();
    write_u32(&mut out, (raw.len() + 7) as u32);
    out.push(tag);
    out.push(0u8);
    let mut i: usize = 0;
    while i < raw.len()
        invariant
            i <= raw@.len(),
            out@ == le_bytes((raw@.len() + 7) as u32) + seq![tag, 0u8] + raw@.subrange(0, i as int),
        decreases raw@.len() - i,
    {
        out.push(raw[i]);
        proof {
            assert(raw@.subrange(0, i as int + 1) =~= raw@.subrange(0, i as int).push(raw@[i as int]));
        }
        i = i + 1;
    }
    out.push(0u8);
    assert(raw@.subrange(0, raw@.len() as int) =~= raw@);
    assert(out@ =~= element_document(tag, raw@));
    out
}

/// The JSON of the raw element (`tag`, `raw`).
pub fn raw_element_to_json(tag: u8, raw: &Vec<u8>) -> (r: JsonValue)
    ensures
        r@ == raw_element_json(tag, raw@),
{
    if raw.len() > 2147483640 {
        return JsonValue::Null;
    }
    let bytes = element_document_bytes(tag, raw);
    let o = decode_other(&bytes);
    proof {
        reveal_strlit("/");
        reveal_strlit("[JS code with scope]");
        reveal_strlit("$MaxKey");
        reveal_strlit("$MinKey");
    }
    match o {
        OtherValue::Regex(p, f) => {
            let mut s = String::from_str("/");
            crate::text::string_append(&mut s, &p);
            crate::text::string_append(&mut s, &String::from_str("/"));
            crate::text::string_append(&mut s, &f);
            JsonValue::Str(s)
        },
        OtherValue::Code(c) => JsonValue::Str(c),
        OtherValue::CodeWithScope => JsonValue::Str(String::from_str("[JS code with scope]")),
        OtherValue::Timestamp(t) => JsonValue::Int(t as i64),
        OtherValue::Decimal(d) => JsonValue::Str(d),
        OtherValue::MaxKey => JsonValue::Str(String::from_str("$MaxKey")),
        OtherValue::MinKey => JsonValue::Str(String::from_str("$MinKey")),
        OtherValue::Symbol(x) => JsonValue::Str(x),
        OtherValue::Unknown => JsonValue::Null,
    }
}

/// The twelve bytes of an object id: the first twelve, zeros after the end.
pub open spec fn oid12(b: Seq<u8>) -> Seq<u8> {
    Seq::new(12, |i: int| if i < b.len() { b[i] } else { 0u8 })
}

/// The text of a binary value: a UUID's hyphenated text, or the subtype.
pub open spec fn binary_text(subtype: u8, b: Seq<u8>) -> Seq<char> {
    if subtype == 4 && b.len() == 16 { hyphenated(b) } else { "<Binary "@ + binary_subtype_debug(subtype) + ">"@ }
}

/// `j` is the JSON that `v` exports as, `other` giving the JSON of the
/// element kinds the library keeps as raw bytes.
pub open spec fn renders(v: VVal, j: VJson) -> bool
    decreases v,
{
    match v {
        VVal::Null => j == VJson::Null,
        VVal::Bool(b) => j == VJson::Bool(b),
        VVal::Int32(i) => j == VJson::Int(i as i64),
        VVal::Int64(i) => j == VJson::Int(i),
        VVal::Double(d) => j == (if f64_is_finite(d) { VJson::Float(d) } else { VJson::Int(0) }),
        VVal::Str(s) => j == VJson::Str(s),
        VVal::DateTime(t) => j == VJson::Str(datetime_text(t)),
        VVal::ObjectId(b) => j == VJson::Str(hex_of(oid12(b))),
        VVal::Binary(st, b) => j == VJson::Str(binary_text(st, b)),
        VVal::Array(xs) => j is Array && j->Array_0.len() == xs.len()
            && forall|k: int| 0 <= k < xs.len() ==> renders(#[trigger] xs[k], j->Array_0[k]),
        VVal::Doc(d) => j is Object && j->Object_0.len() == d.len()
            && forall|k: int| 0 <= k < d.len() ==> (#[trigger] d[k]).0 == j->Object_0[k].0
                && renders(d[k].1, j->Object_0[k].1),
        VVal::Other(t, raw) => j == raw_element_json(t, raw),
    }
}

/// The twelve bytes of an object id, as `render_oid` takes them.
fn oid_bytes(b: &Vec<u8>) -> (r: Vec<u8>)
    ensures
        r@ == oid12(b@),
{
    let mut r: Vec<u8> = Vec::new();
    let mut i: usize = 0;
    while i < 12
        invariant
            i <= 12,
            r@.len() == i,
            forall|k: int| 0 <= k < i ==> r@[k] == (if k < b@.len() { b@[k] } else { 0u8 }),
        decreases 12 - i,
    {
        if i < b.len() { r.push(b[i]); } else { r.push(0u8); }
        i = i + 1;
    }
    assert(r@ =~= oid12(b@));
    r
}

/// The JSON a value exports as.
pub fn value_to_json(v: &Value) -> (r: JsonValue)
    ensures
        renders(v@, r@),
    decreases v,
{
    match v {
        Value::Null => JsonValue::Null,
        Value::Bool(b) => JsonValue::Bool(*b),
        Value::Int32(i) => JsonValue::Int(*i as i64),
        Value::Int64(i) => JsonValue::Int(*i),
        Value::Double(d) => if is_finite(*d) { JsonValue::Float(*d) } else { JsonValue::Int(0) },
        Value::Str(s) => JsonValue::Str(s.clone()),
        Value::DateTime(t) => JsonValue::Str(render_datetime(*t)),
        Value::ObjectId(b) => {
            let a = oid_bytes(b);
            JsonValue::Str(render_oid(&a))
        },
        Value::Binary { subtype, bytes } => {
            if *subtype == 4 && bytes.len() == 16 {
                JsonValue::Str(render_uuid(bytes))
            } else {
                let mut s = String::from_str("<Binary ");
                crate::text::string_append(&mut s, &render_subtype(*subtype));
                crate::text::string_append(&mut s, &String::from_str(">"));
                proof { reveal_strlit("<Binary "); reveal_strlit(">"); }
                JsonValue::Str(s)
            }
        },
        Value::Array(a) => {
            proof { crate::value::lemma_view_array(*a); }
            let out = values_to_json(a);
            proof {
                crate::json::lemma_view_json_array(out);
                let xs = v@->Array_0;
                let js = JsonValue::Array(out)@->Array_0;
                assert forall|k: int| 0 <= k < xs.len() implies renders(#[trigger] xs[k], js[k]) by {
                    assert(xs[k] == a@[k]@);
                    assert(js[k] == out@[k]@);
                }
                assert(renders(v@, JsonValue::Array(out)@));
            }
            JsonValue::Array(out)
        },
        Value::Doc(d) => {
            let out = document_to_json(d);
            proof {
                crate::json::lemma_view_json_object(out);
                let dd = v@->Doc_0;
                let ms = JsonValue::Object(out)@->Object_0;
                assert(dd == d@);
                assert forall|k: int| 0 <= k < dd.len() implies (#[trigger] dd[k]).0 == ms[k].0
                    && renders(dd[k].1, ms[k].1) by {
                    assert(ms[k] == (out@[k].0@, out@[k].1@));
                    assert(dd[k] == d@[k]);
                }
                assert(renders(v@, JsonValue::Object(out)@));
            }
            JsonValue::Object(out)
        },
        Value::Other { tag, raw } => raw_element_to_json(*tag, raw),
    }
}

/// The JSON of each element of an array.
pub fn values_to_json(a: &Vec<Value>) -> (r: Vec<JsonValue>)
    ensures
        r@.len() == a@.len(),
        forall|k: int| 0 <= k < a@.len() ==> renders(#[trigger] a@[k]@, r@[k]@),
    decreases a,
{
    let mut r: Vec<JsonValue> = Vec::new();
    let mut i: usize = 0;
    while i < a.len()
        invariant
            i <= a.len(),
            r@.len() == i,
            forall|k: int| 0 <= k < i ==> renders(#[trigger] a@[k]@, r@[k]@),
        decreases a.len() - i,
    {
        proof { assert(decreases_to!(a => a@[i as int])); }
        let j = value_to_json(&a[i]);
        r.push(j);
        i = i + 1;
    }
    r
}

/// The JSON object of a document: its fields in order.
pub fn document_to_json(d: &Document) -> (r: Vec<(String, JsonValue)>)
    ensures
        r@.len() == d@.len(),
        forall|k: int| 0 <= k < d@.len() ==> (#[trigger] d@[k]).0 == r@[k].0@ && renders(d@[k].1, r@[k].1@),
    decreases d,
{
    let mut r: Vec<(String, JsonValue)> = Vec::new();
    let mut i: usize = 0;
    while i < d.entries.len()
        invariant
            i <= d.entries@.len(),
            r@.len() == i,
            forall|k: int| 0 <= k < i ==> d.entries@[k].key@ == (#[trigger] r@[k]).0@
                && renders(d.entries@[k].value@, r@[k].1@),
        decreases d.entries@.len() - i,
    {
        let e = &d.entries[i];
        let j = value_to_json(&e.value);
        r.push((e.key.clone(), j));
        i = i + 1;
    }
    assert forall|k: int| 0 <= k < d@.len() implies (#[trigger] d@[k]).0 == r@[k].0@ && renders(d@[k].1, r@[k].1@) by {
        assert(d@[k] == (d.entries@[k].key@, d.entries@[k].value@));
    }
    r
}

// ---------------------------------------------------------------------------
// Import, then export.

/// JSON that an import reads as plain data: finite numbers, no object that
/// reads as extended JSON, and no key twice in an object.
pub open spec fn canonical_json(j: VJson) -> bool
    decreases j,
{
    match j {
        VJson::Float(f) => f64_is_finite(f),
        VJson::Array(a) => forall|k: int| 0 <= k < a.len() ==> canonical_json(#[trigger] a[k]),
        VJson::Object(m) => {
            &&& !(m.len() == 1 && extended_applies(m[0].0, m[0].1))
            &&& forall|i: int, k: int| 0 <= i < k < m.len() ==> #[trigger] m[i].0 != #[trigger] m[k].0
            &&& forall|k: int| 0 <= k < m.len() ==> canonical_json(#[trigger] m[k].1)
        },
        _ => true,
    }
}

/// Exporting what an import of plain JSON stored gives that JSON back.
pub proof fn lemma_export_after_import(j: VJson, pd: DoubleParser)
    requires
        canonical_json(j),
    ensures
        convert(j, pd) is Ok,
        renders(convert(j, pd)->Ok_0, j),
    decreases j, 1int,
{
    match j {
        VJson::Array(a) => {
            lemma_array_round_trip(a, a.len() as int, pd);
        },
        VJson::Object(m) => {
            lemma_object_round_trip(m, m.len() as int, pd);
        },
        VJson::Int(i) => {
            assert(renders(int_value(i), j));
        },
        _ => {},
    }
}

proof fn lemma_array_round_trip(a: Seq<VJson>, n: int, pd: DoubleParser)
    requires
        0 <= n <= a.len(),
        forall|k: int| 0 <= k < a.len() ==> canonical_json(#[trigger] a[k]),
    ensures
        convert_array(a, n, pd) is Ok,
        convert_array(a, n, pd)->Ok_0 is Array,
        convert_array(a, n, pd)->Ok_0->Array_0.len() == n,
        forall|k: int| 0 <= k < n ==> renders(#[trigger] convert_array(a, n, pd)->Ok_0->Array_0[k], a[k]),
    decreases a, 0int, n,
{
    if n > 0 {
        lemma_array_round_trip(a, n - 1, pd);
        lemma_export_after_import(a[n - 1], pd);
        let xs = convert_array(a, n - 1, pd)->Ok_0->Array_0;
        let x = convert(a[n - 1], pd)->Ok_0;
        assert(convert_array(a, n, pd)->Ok_0->Array_0 == xs.push(x));
        assert forall|k: int| 0 <= k < n implies renders(#[trigger] convert_array(a, n, pd)->Ok_0->Array_0[k], a[k]) by {
            if k < n - 1 {
                assert(xs.push(x)[k] == xs[k]);
            }
        }
    }
}

proof fn lemma_object_round_trip(m: Seq<(Seq<char>, VJson)>, n: int, pd: DoubleParser)
    requires
        0 <= n <= m.len(),
        forall|i: int, k: int| 0 <= i < k < m.len() ==> #[trigger] m[i].0 != #[trigger] m[k].0,
        forall|k: int| 0 <= k < m.len() ==> canonical_json(#[trigger] m[k].1),
    ensures
        convert_object(m, n, pd) is Ok,
        convert_object(m, n, pd)->Ok_0 is Doc,
        convert_object(m, n, pd)->Ok_0->Doc_0.len() == n,
        forall|k: int| 0 <= k < n ==> (#[trigger] convert_object(m, n, pd)->Ok_0->Doc_0[k]).0 == m[k].0
            && renders(convert_object(m, n, pd)->Ok_0->Doc_0[k].1, m[k].1),
    decreases m, 0int, n,
{
    if n > 0 {
        lemma_object_round_trip(m, n - 1, pd);
        lemma_export_after_import(m[n - 1].1, pd);
        let d = convert_object(m, n - 1, pd)->Ok_0->Doc_0;
        let x = convert(m[n - 1].1, pd)->Ok_0;
        assert forall|j: int| 0 <= j < d.len() implies d[j].0 != m[n - 1].0 by {
            assert(d[j].0 == m[j].0);
        }
        lemma_key_pos_none(d, m[n - 1].0);
        assert(convert_object(m, n, pd)->Ok_0->Doc_0 == d.push((m[n - 1].0, x)));
        assert forall|k: int| 0 <= k < n implies (#[trigger] convert_object(m, n, pd)->Ok_0->Doc_0[k]).0 == m[k].0
            && renders(convert_object(m, n, pd)->Ok_0->Doc_0[k].1, m[k].1) by {
            if k < n - 1 {
                assert(d.push((m[n - 1].0, x))[k] == d[k]);
            }
        }
    }
}

} // verus!
