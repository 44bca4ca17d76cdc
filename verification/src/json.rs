use vstd::prelude::*;
use crate::types::RangoError;
use crate::value::{VVal, VDoc, Value, Document, doc_insert};
use crate::text::{digit_value, string_append};
use crate::float::{i64_to_f64, i64_to_f64_bits};

verus! {

// JSON Lines import: a JSON value becomes a BSON value, with MongoDB
// extended JSON (`$oid`, `$date`, `$numberInt`, `$numberLong`,
// `$numberDouble`) turned into the types it names.

/// A parsed JSON value. Numbers that fit an `i64` are `Int`; any other
/// number is `Float`, the bit pattern of its nearest double. Objects keep
/// their members in the order the parser gives them.
pub enum JsonValue {
    Null,
    Bool(bool),
    Int(i64),
    Float(u64),
    Str(String),
    Array(Vec<JsonValue>),
    Object(Vec<(String, JsonValue)>),
}

pub enum VJson {
    Null,
    Bool(bool),
    Int(i64),
    Float(u64),
    Str(Seq<char>),
    Array(Seq<VJson>),
    Object(Seq<(Seq<char>, VJson)>),
}

pub open spec fn view_json(j: JsonValue) -> VJson
    decreases j,
{
    match j {
        JsonValue::Null => VJson::Null,
        JsonValue::Bool(b) => VJson::Bool(b),
        JsonValue::Int(i) => VJson::Int(i),
        JsonValue::Float(f) => VJson::Float(f),
        JsonValue::Str(s) => VJson::Str(s@),
        JsonValue::Array(a) => VJson::Array(
            Seq::new(a@.len(), |i: int| if 0 <= i < a@.len() { view_json(a@[i]) } else { VJson::Null }),
        ),
        JsonValue::Object(m) => VJson::Object(
            Seq::new(m@.len(), |i: int| if 0 <= i < m@.len() { (m@[i].0@, view_json(m@[i].1)) } else { (Seq::empty(), VJson::Null) }),
        ),
    }
}

impl View for JsonValue {
    type V = VJson;

    open spec fn view(&self) -> VJson {
        view_json(*self)
    }
}

// ---------------------------------------------------------------------------
// Integer text, as `str::parse` reads it.

/// Why integer text did not parse, as `std::num::IntErrorKind` names it.
#[derive(Debug, Clone, Copy, PartialEq, Eq, Structural)]
pub enum IntFault {
    Empty,
    InvalidDigit,
    PosOverflow,
    NegOverflow,
}

/// The message of `ParseIntError` for each kind.
pub open spec fn int_fault_text(f: IntFault) -> Seq<char> {
    match f {
        IntFault::Empty => "cannot parse integer from empty string"@,
        IntFault::InvalidDigit => "invalid digit found in string"@,
        IntFault::PosOverflow => "number too large to fit in target type"@,
        IntFault::NegOverflow => "number too small to fit in target type"@,
    }
}

/// Reading digits left to right from `body[i..]` with `acc` so far; the
/// first bad digit or the first step out of `[lo, hi]` stops the reading.
pub open spec fn int_scan(body: Seq<char>, neg: bool, lo: int, hi: int, i: int, acc: int) -> Result<int, IntFault>
    decreases body.len() - i,
{
    if i < 0 || i >= body.len() {
        Ok(acc)
    } else {
        match digit_value(body[i]) {
            None => Err(IntFault::InvalidDigit),
            Some(d) => {
                let next = if neg { acc * 10 - d } else { acc * 10 + d };
                if next > hi {
                    Err(IntFault::PosOverflow)
                } else if next < lo {
                    Err(IntFault::NegOverflow)
                } else {
                    int_scan(body, neg, lo, hi, i + 1, next)
                }
            },
        }
    }
}

/// `s.parse()` for a signed integer type with range `[lo, hi]`: an
/// optional sign, then at least one decimal digit.
pub open spec fn parse_int(s: Seq<char>, lo: int, hi: int) -> Result<int, IntFault> {
    if s.len() == 0 {
        Err(IntFault::Empty)
    } else {
        let neg = s[0] == '-';
        let body = if s[0] == '-' || s[0] == '+' { s.drop_first() } else { s };
        if body.len() == 0 { Err(IntFault::InvalidDigit) } else { int_scan(body, neg, lo, hi, 0, 0) }
    }
}

proof fn lemma_int_scan_range(body: Seq<char>, neg: bool, lo: int, hi: int, i: int, acc: int)
    requires
        lo <= acc <= hi,
    ensures
        int_scan(body, neg, lo, hi, i, acc) matches Ok(v) ==> lo <= v <= hi,
    decreases body.len() - i,
{
    if 0 <= i < body.len() {
        match digit_value(body[i]) {
            Some(d) => {
                let next = if neg { acc * 10 - d } else { acc * 10 + d };
                if lo <= next <= hi {
                    lemma_int_scan_range(body, neg, lo, hi, i + 1, next);
                }
            },
            None => {},
        }
    }
}

/// Parses signed decimal text into `[lo, hi]`.
pub fn parse_int_text(s: &str, lo: i64, hi: i64) -> (r: Result<i64, IntFault>)
    requires
        lo <= 0 <= hi,
    ensures
        match parse_int(s@, lo as int, hi as int) {
            Ok(v) => r == Ok::<i64, IntFault>(v as i64) && lo <= v <= hi,
            Err(f) => r == Err::<i64, IntFault>(f),
        },
{
    let n = s.unicode_len();
    if n == 0 {
        return Err(IntFault::Empty);
    }
    let first = s.get_char(0);
    let neg = first == '-';
    let start: usize = if first == '-' || first == '+' { 1 } else { 0 };
    let ghost body = if s@[0] == '-' || s@[0] == '+' { s@.drop_first() } else { s@ };
    assert(body.len() == n - start);
    assert(forall|j: int| 0 <= j < body.len() ==> body[j] == s@[start + j]);
    if start >= n {
        return Err(IntFault::InvalidDigit);
    }
    assert(parse_int(s@, lo as int, hi as int) == int_scan(body, neg, lo as int, hi as int, 0, 0));
    proof { lemma_int_scan_range(body, neg, lo as int, hi as int, 0, 0); }
    let mut acc: i128 = 0;
    let mut i: usize = start;
    while i < n
        invariant
            parse_int(s@, lo as int, hi as int) == int_scan(body, neg, lo as int, hi as int, 0, 0),
            n == s@.len(),
            start <= i <= n,
            body.len() == n - start,
            forall|j: int| 0 <= j < body.len() ==> body[j] == s@[start + j],
            lo <= acc <= hi,
            lo <= 0 <= hi,
            int_scan(body, neg, lo as int, hi as int, 0, 0) == int_scan(body, neg, lo as int, hi as int, i - start, acc as int),
            int_scan(body, neg, lo as int, hi as int, 0, 0) matches Ok(v) ==> lo <= v <= hi,
        decreases n - i,
    {
        let c = s.get_char(i);
        assert(body[i - start] == c);
        if !('0' <= c && c <= '9') {
            return Err(IntFault::InvalidDigit);
        }
        let d = (c as u32 - '0' as u32) as i128;
        assert(digit_value(c) == Some(d as nat));
        let next: i128 = if neg { acc * 10 - d } else { acc * 10 + d };
        if next > hi as i128 {
            return Err(IntFault::PosOverflow);
        }
        if next < lo as i128 {
            return Err(IntFault::NegOverflow);
        }
        acc = next;
        i = i + 1;
    }
    Ok(acc as i64)
}

// ---------------------------------------------------------------------------
// Outside parsers.

/// The text is 24 hexadecimal digits (either case).
pub open spec fn is_oid_hex(s: Seq<char>) -> bool {
    s.len() == 24 && forall|i: int| 0 <= i < 24 ==> #[trigger] hex_digit(s[i]) is Some
}

pub open spec fn hex_digit(c: char) -> Option<nat> {
    if '0' <= c && c <= '9' {
        Some((c as nat - '0' as nat) as nat)
    } else if 'a' <= c && c <= 'f' {
        Some((c as nat - 'a' as nat + 10) as nat)
    } else if 'A' <= c && c <= 'F' {
        Some((c as nat - 'A' as nat + 10) as nat)
    } else {
        None
    }
}

/// The twelve bytes 24 hex digits spell.
pub open spec fn hex_bytes(s: Seq<char>) -> Seq<u8> {
    Seq::new(12, |i: int| (hex_digit(s[2 * i]).unwrap() * 16 + hex_digit(s[2 * i + 1]).unwrap()) as u8)
}

/// The message `bson` gives for text that is not an object id.
pub uninterp spec fn object_id_error(s: Seq<char>) -> Seq<char>;

/// Wraps `bson::oid::ObjectId::parse_str`: hex text of exactly twelve
/// bytes gives those bytes; anything else fails with `bson`'s message,
/// which is named, not spelled out.
#[verifier::external_body]
fn parse_object_id(s: &String) -> (r: Result<Vec<u8>, String>)
    ensures
        match r {
            Ok(b) => is_oid_hex(s@) && b@ == hex_bytes(s@),
            Err(e) => !is_oid_hex(s@) && e@ == object_id_error(s@),
        },
{
    match bson::oid::ObjectId::parse_str(s.as_str()) {
        Ok(oid) => Ok(oid.bytes().to_vec()),
        Err(e) => Err(e.to_string()),
    }
}

/// What `bson::DateTime::parse_rfc3339_str` gives for a text: the
/// milliseconds since the epoch, or its error message.
pub uninterp spec fn rfc3339_outcome(s: Seq<char>) -> Result<i64, Seq<char>>;

/// Wraps `bson::DateTime::parse_rfc3339_str`, taking the milliseconds of
/// the result. RFC 3339 parsing takes pages to state; its outcome is named.
#[verifier::external_body]
fn parse_rfc3339(s: &String) -> (r: Result<i64, String>)
    ensures
        match (r, rfc3339_outcome(s@)) {
            (Ok(t), Ok(u)) => t == u,
            (Err(e), Err(m)) => e@ == m,
            _ => false,
        },
{
    match bson::DateTime::parse_rfc3339_str(s.as_str()) {
        Ok(dt) => Ok(dt.timestamp_millis()),
        Err(e) => Err(e.to_string()),
    }
}

// ---------------------------------------------------------------------------
// The conversion.

pub open spec fn in_i32(i: i64) -> bool {
    i32::MIN <= i <= i32::MAX
}

/// The BSON value of a JSON number that is an integer.
pub open spec fn int_value(i: i64) -> VVal {
    if in_i32(i) { VVal::Int32(i as i32) } else { VVal::Int64(i) }
}

/// The value `$numberDouble` takes from a non-string operand.
pub open spec fn double_of_operand(v: VJson) -> u64 {
    match v {
        VJson::Int(i) => i64_to_f64_bits(i),
        VJson::Float(f) => f,
        _ => 0,
    }
}

/// A parser of double text, as a function of the text.
pub type DoubleParser = spec_fn(Seq<char>) -> Result<u64, Seq<char>>;

/// The BSON value `j` converts to, `pd` reading the text of a
/// `$numberDouble`; the first error met, in document order, otherwise.
pub open spec fn convert(j: VJson, pd: DoubleParser) -> Result<VVal, Seq<char>>
    decreases j, 1int,
{
    match j {
        VJson::Null => Ok(VVal::Null),
        VJson::Bool(b) => Ok(VVal::Bool(b)),
        VJson::Int(i) => Ok(int_value(i)),
        VJson::Float(f) => Ok(VVal::Double(f)),
        VJson::Str(s) => Ok(VVal::Str(s)),
        VJson::Array(a) => convert_array(a, a.len() as int, pd),
        VJson::Object(m) => if m.len() == 1 && extended_applies(m[0].0, m[0].1) {
            convert_extended(m[0].0, m[0].1, pd)
        } else {
            convert_object(m, m.len() as int, pd)
        },
    }
}

/// The first `n` elements of an array, converted.
pub open spec fn convert_array(a: Seq<VJson>, n: int, pd: DoubleParser) -> Result<VVal, Seq<char>>
    decreases a, 0int, n,
{
    if n <= 0 || n > a.len() {
        Ok(VVal::Array(Seq::empty()))
    } else {
        match convert_array(a, n - 1, pd) {
            Ok(VVal::Array(xs)) => match convert(a[n - 1], pd) {
                Ok(x) => Ok(VVal::Array(xs.push(x))),
                Err(e) => Err(e),
            },
            other => other,
        }
    }
}

/// The first `n` members of an object, converted into a document.
pub open spec fn convert_object(m: Seq<(Seq<char>, VJson)>, n: int, pd: DoubleParser) -> Result<VVal, Seq<char>>
    decreases m, 0int, n,
{
    if n <= 0 || n > m.len() {
        Ok(VVal::Doc(Seq::empty()))
    } else {
        match convert_object(m, n - 1, pd) {
            Ok(VVal::Doc(d)) => match convert(m[n - 1].1, pd) {
                Ok(x) => Ok(VVal::Doc(doc_insert(d, m[n - 1].0, x))),
                Err(e) => Err(e),
            },
            other => other,
        }
    }
}

/// A one-member object is extended JSON when its key names a type and its
/// operand has the right form (`$numberDouble` takes any operand).
pub open spec fn extended_applies(k: Seq<char>, v: VJson) -> bool {
    ||| k == "$numberDouble"@
    ||| ((k == "$oid"@ || k == "$date"@ || k == "$numberInt"@ || k == "$numberLong"@) && v is Str)
}

/// What an extended JSON object converts to.
pub open spec fn convert_extended(k: Seq<char>, v: VJson, pd: DoubleParser) -> Result<VVal, Seq<char>> {
    if k == "$oid"@ {
        let s = v->Str_0;
        if is_oid_hex(s) { Ok(VVal::ObjectId(hex_bytes(s))) } else { Err("Invalid ObjectId: "@ + object_id_error(s)) }
    } else if k == "$date"@ {
        match rfc3339_outcome(v->Str_0) {
            Ok(t) => Ok(VVal::DateTime(t)),
            Err(e) => Err("Invalid date: "@ + e),
        }
    } else if k == "$numberInt"@ {
        match parse_int(v->Str_0, i32::MIN as int, i32::MAX as int) {
            Ok(i) => Ok(VVal::Int32(i as i32)),
            Err(f) => Err("Invalid Int32: "@ + int_fault_text(f)),
        }
    } else if k == "$numberLong"@ {
        match parse_int(v->Str_0, i64::MIN as int, i64::MAX as int) {
            Ok(i) => Ok(VVal::Int64(i as i64)),
            Err(f) => Err("Invalid Int64: "@ + int_fault_text(f)),
        }
    } else {
        match v {
            VJson::Str(s) => match pd(s) {
                Ok(b) => Ok(VVal::Double(b)),
                Err(e) => Err("Invalid Double: "@ + e),
            },
            _ => Ok(VVal::Double(double_of_operand(v))),
        }
    }
}

/// A parser's outcome, by value.
pub open spec fn parsed(o: Result<u64, String>) -> Result<u64, Seq<char>> {
    match o {
        Ok(b) => Ok(b),
        Err(e) => Err(e@),
    }
}

/// The closure reads the same text the same way every time.
pub open spec fn deterministic<F: Fn(&str) -> Result<u64, String>>(f: F) -> bool {
    forall|t1: &str, t2: &str, o1: Result<u64, String>, o2: Result<u64, String>|
        t1@ == t2@ && #[trigger] call_ensures(f, (t1,), o1) && #[trigger] call_ensures(f, (t2,), o2)
            ==> parsed(o1) == parsed(o2)
}

/// The closure can read text `s` as `o`.
pub open spec fn reads_as<F: Fn(&str) -> Result<u64, String>>(f: F, s: Seq<char>, o: Result<u64, Seq<char>>) -> bool {
    exists|t: &str, out: Result<u64, String>| t@ == s && #[trigger] call_ensures(f, (t,), out) && parsed(out) == o
}

/// The function a deterministic closure computes.
pub open spec fn parser_of<F: Fn(&str) -> Result<u64, String>>(f: F) -> DoubleParser {
    |s: Seq<char>| choose|o: Result<u64, Seq<char>>| #[trigger] reads_as(f, s, o)
}

/// What a conversion result says: the value, or the error's message.
pub open spec fn outcome_of(r: Result<Value, RangoError>) -> Result<VVal, Seq<char>> {
    match r {
        Ok(v) => Ok(v@),
        Err(RangoError::Storage(m)) => Err(m@),
        Err(_) => Err(Seq::empty()),
    }
}

pub proof fn lemma_view_json_array(a: Vec<JsonValue>)
    ensures
        view_json(JsonValue::Array(a)) is Array,
        view_json(JsonValue::Array(a))->Array_0.len() == a@.len(),
        forall|i: int| 0 <= i < a@.len() ==> #[trigger] view_json(JsonValue::Array(a))->Array_0[i] == a@[i]@,
{
}

pub proof fn lemma_view_json_object(m: Vec<(String, JsonValue)>)
    ensures
        view_json(JsonValue::Object(m)) is Object,
        view_json(JsonValue::Object(m))->Object_0.len() == m@.len(),
        forall|i: int| 0 <= i < m@.len() ==> #[trigger] view_json(JsonValue::Object(m))->Object_0[i] == (m@[i].0@, m@[i].1@),
{
}

/// The text of a string operand.
fn str_operand(v: &JsonValue) -> (r: Option<&String>)
    ensures
        (r is Some) == (v@ is Str),
        r matches Some(s) ==> v@ == VJson::Str(s@),
{
    match v {
        JsonValue::Str(s) => Some(s),
        _ => None,
    }
}

fn storage_error(prefix: &str, detail: &String) -> (r: RangoError)
    ensures
        r matches RangoError::Storage(m) && m@ == prefix@ + detail@,
{
    let mut m = String::from_str(prefix);
    string_append(&mut m, detail);
    RangoError::Storage(m)
}

fn int_fault_message(f: IntFault) -> (r: String)
    ensures
        r@ == int_fault_text(f),
{
    match f {
        IntFault::Empty => String::from_str("cannot parse integer from empty string"),
        IntFault::InvalidDigit => String::from_str("invalid digit found in string"),
        IntFault::PosOverflow => String::from_str("number too large to fit in target type"),
        IntFault::NegOverflow => String::from_str("number too small to fit in target type"),
    }
}

/// Converts the operand of a one-member extended JSON object.
fn extended_value<F: Fn(&str) -> Result<u64, String>>(k: &String, v: &JsonValue, parse_double: &F, Ghost(pd): Ghost<DoubleParser>)
    -> (r: Result<Value, RangoError>)
    requires
        extended_applies(k@, v@),
        forall|t: &str| parse_double.requires((t,)),
        forall|t: &str, o: Result<u64, String>| #[trigger] call_ensures(*parse_double, (t,), o) ==> parsed(o) == pd(t@),
    ensures
        outcome_of(r) == convert_extended(k@, v@, pd),
        r is Err ==> r matches Err(RangoError::Storage(_)),
{
    proof {
        reveal_strlit("$oid");
        reveal_strlit("$date");
        reveal_strlit("$numberInt");
        reveal_strlit("$numberLong");
        reveal_strlit("$numberDouble");
    }
    assert("$oid"@.len() == 4 && "$date"@.len() == 5 && "$numberInt"@.len() == 10 && "$numberLong"@.len() == 11
        && "$numberDouble"@.len() == 13);
    if crate::value::str_is(k, "$oid") {
        assert(v@ is Str);
        let s = match str_operand(v) { Some(s) => s, None => { return Err(RangoError::Storage(String::new())); } };
        match parse_object_id(s) {
            Ok(b) => Ok(Value::ObjectId(b)),
            Err(e) => Err(storage_error("Invalid ObjectId: ", &e)),
        }
    } else if crate::value::str_is(k, "$date") {
        let s = match str_operand(v) { Some(s) => s, None => { return Err(RangoError::Storage(String::new())); } };
        match parse_rfc3339(s) {
            Ok(t) => Ok(Value::DateTime(t)),
            Err(e) => Err(storage_error("Invalid date: ", &e)),
        }
    } else if crate::value::str_is(k, "$numberInt") {
        let s = match str_operand(v) { Some(s) => s, None => { return Err(RangoError::Storage(String::new())); } };
        match parse_int_text(s.as_str(), i32::MIN as i64, i32::MAX as i64) {
            Ok(i) => Ok(Value::Int32(i as i32)),
            Err(f) => Err(storage_error("Invalid Int32: ", &int_fault_message(f))),
        }
    } else if crate::value::str_is(k, "$numberLong") {
        let s = match str_operand(v) { Some(s) => s, None => { return Err(RangoError::Storage(String::new())); } };
        match parse_int_text(s.as_str(), i64::MIN, i64::MAX) {
            Ok(i) => Ok(Value::Int64(i)),
            Err(f) => Err(storage_error("Invalid Int64: ", &int_fault_message(f))),
        }
    } else {
        match v {
            JsonValue::Str(s) => {
                let text = s.as_str();
                let out = parse_double(text);
                assert(parsed(out) == pd(text@));
                match out {
                    Ok(b) => Ok(Value::Double(b)),
                    Err(e) => Err(storage_error("Invalid Double: ", &e)),
                }
            },
            JsonValue::Int(i) => Ok(Value::Double(i64_to_f64(*i))),
            JsonValue::Float(f) => Ok(Value::Double(*f)),
            _ => Ok(Value::Double(0)),
        }
    }
}

/// Converts a JSON value to BSON: numbers that fit become `Int32`, other
/// integers `Int64`, others `Double`; one-member objects in MongoDB
/// extended JSON become the type they name; `parse_double` reads the text
/// of a `$numberDouble` and is taken to read the same text the same way
/// each time. The first error met, in document order, is returned as a
/// `Storage` error.
pub fn json_to_bson<F: Fn(&str) -> Result<u64, String>>(value: &JsonValue, parse_double: &F) -> (r: Result<Value, RangoError>)
    requires
        forall|t: &str| parse_double.requires((t,)),
        deterministic(*parse_double),
    ensures
        outcome_of(r) == convert(value@, parser_of(*parse_double)),
        r is Err ==> r matches Err(RangoError::Storage(_)),
{
    let ghost pd = parser_of(*parse_double);
    proof {
        assert forall|t: &str, o: Result<u64, String>| #[trigger] call_ensures(*parse_double, (t,), o)
            implies parsed(o) == pd(t@) by {
            assert(reads_as(*parse_double, t@, parsed(o)));
            let c = pd(t@);
            assert(reads_as(*parse_double, t@, c));
            let (t2, out) = choose|t2: &str, out: Result<u64, String>| t2@ == t@
                && #[trigger] call_ensures(*parse_double, (t2,), out) && parsed(out) == c;
            assert(parsed(out) == parsed(o));
        }
    }
    convert_value(value, parse_double, Ghost(pd))
}

fn convert_value<F: Fn(&str) -> Result<u64, String>>(value: &JsonValue, parse_double: &F, Ghost(pd): Ghost<DoubleParser>)
    -> (r: Result<Value, RangoError>)
    requires
        forall|t: &str| parse_double.requires((t,)),
        forall|t: &str, o: Result<u64, String>| #[trigger] call_ensures(*parse_double, (t,), o) ==> parsed(o) == pd(t@),
    ensures
        outcome_of(r) == convert(value@, pd),
        r is Err ==> r matches Err(RangoError::Storage(_)),
    decreases value, 1int,
{
    match value {
        JsonValue::Null => Ok(Value::Null),
        JsonValue::Bool(b) => Ok(Value::Bool(*b)),
        JsonValue::Int(i) => {
            if i32::MIN as i64 <= *i && *i <= i32::MAX as i64 {
                Ok(Value::Int32(*i as i32))
            } else {
                Ok(Value::Int64(*i))
            }
        },
        JsonValue::Float(f) => Ok(Value::Double(*f)),
        JsonValue::Str(s) => Ok(Value::Str(s.clone())),
        JsonValue::Array(a) => {
            proof { lemma_view_json_array(*a); }
            let r = convert_elements(a, parse_double, Ghost(pd));
            assert(view_json(JsonValue::Array(*a))->Array_0 =~= Seq::new(a@.len(), |i: int| a@[i]@));
            r
        },
        JsonValue::Object(m) => {
            proof { lemma_view_json_object(*m); }
            let ghost mv = view_json(JsonValue::Object(*m))->Object_0;
            if m.len() == 1 {
                let k = &m[0].0;
                let v = &m[0].1;
                assert(mv[0] == (k@, v@));
                let applies = crate::value::str_is(k, "$numberDouble") || ((crate::value::str_is(k, "$oid")
                    || crate::value::str_is(k, "$date") || crate::value::str_is(k, "$numberInt")
                    || crate::value::str_is(k, "$numberLong")) && str_operand(v).is_some());
                if applies {
                    return extended_value(k, v, parse_double, Ghost(pd));
                }
            }
            let r = convert_members(m, parse_double, Ghost(pd));
            assert(mv =~= Seq::new(m@.len(), |i: int| (m@[i].0@, m@[i].1@)));
            r
        },
    }
}

fn convert_elements<F: Fn(&str) -> Result<u64, String>>(a: &Vec<JsonValue>, parse_double: &F, Ghost(pd): Ghost<DoubleParser>)
    -> (r: Result<Value, RangoError>)
    requires
        forall|t: &str| parse_double.requires((t,)),
        forall|t: &str, o: Result<u64, String>| #[trigger] call_ensures(*parse_double, (t,), o) ==> parsed(o) == pd(t@),
    ensures
        outcome_of(r) == convert_array(Seq::new(a@.len(), |i: int| a@[i]@), a@.len() as int, pd),
        r is Err ==> r matches Err(RangoError::Storage(_)),
    decreases a, 0int,
{
    let ghost av = Seq::new(a@.len(), |i: int| a@[i]@);
    let mut out: Vec<Value> = Vec::new();
    proof { crate::value::lemma_view_array(out); }
    assert(crate::value::view_value(Value::Array(out))->Array_0 =~= Seq::<VVal>::empty());
    assert(crate::value::view_value(Value::Array(out)) == VVal::Array(Seq::empty()));
    let mut i: usize = 0;
    while i < a.len()
        invariant
            i <= a@.len(),
            av == Seq::new(a@.len(), |j: int| a@[j]@),
            forall|t: &str| parse_double.requires((t,)),
            forall|t: &str, o: Result<u64, String>| #[trigger] call_ensures(*parse_double, (t,), o) ==> parsed(o) == pd(t@),
            convert_array(av, i as int, pd) == Ok::<VVal, Seq<char>>(crate::value::view_value(Value::Array(out))),
        decreases a@.len() - i,
    {
        proof { assert(decreases_to!(a => a@[i as int])); }
        let r = convert_value(&a[i], parse_double, Ghost(pd));
        assert(av[i as int] == a@[i as int]@);
        match r {
            Ok(x) => {
                let ghost xv = x@;
                let ghost old_out = out;
                out.push(x);
                proof {
                    crate::value::lemma_view_array(old_out);
                    crate::value::lemma_view_array(out);
                    let xs = crate::value::view_value(Value::Array(old_out))->Array_0;
                    assert(crate::value::view_value(Value::Array(out))->Array_0 =~= xs.push(xv));
                }
            },
            Err(e) => {
                proof {
                    let ev = outcome_of(Err::<Value, RangoError>(e))->Err_0;
                    lemma_array_error_stays(av, i as int + 1, av.len() as int, ev, pd);
                }
                return Err(e);
            },
        }
        i = i + 1;
    }
    Ok(Value::Array(out))
}

fn convert_members<F: Fn(&str) -> Result<u64, String>>(m: &Vec<(String, JsonValue)>, parse_double: &F, Ghost(pd): Ghost<DoubleParser>)
    -> (r: Result<Value, RangoError>)
    requires
        forall|t: &str| parse_double.requires((t,)),
        forall|t: &str, o: Result<u64, String>| #[trigger] call_ensures(*parse_double, (t,), o) ==> parsed(o) == pd(t@),
    ensures
        outcome_of(r) == convert_object(Seq::new(m@.len(), |i: int| (m@[i].0@, m@[i].1@)), m@.len() as int, pd),
        r is Err ==> r matches Err(RangoError::Storage(_)),
    decreases m, 0int,
{
    let ghost mv = Seq::new(m@.len(), |i: int| (m@[i].0@, m@[i].1@));
    let mut doc = Document::new();
    let mut i: usize = 0;
    while i < m.len()
        invariant
            i <= m@.len(),
            mv == Seq::new(m@.len(), |j: int| (m@[j].0@, m@[j].1@)),
            forall|t: &str| parse_double.requires((t,)),
            forall|t: &str, o: Result<u64, String>| #[trigger] call_ensures(*parse_double, (t,), o) ==> parsed(o) == pd(t@),
            convert_object(mv, i as int, pd) == Ok::<VVal, Seq<char>>(VVal::Doc(doc@)),
        decreases m@.len() - i,
    {
        proof { assert(decreases_to!(m => m@[i as int])); }
        let r = convert_value(&m[i].1, parse_double, Ghost(pd));
        assert(mv[i as int] == (m@[i as int].0@, m@[i as int].1@));
        match r {
            Ok(x) => {
                doc.insert(m[i].0.clone(), x);
            },
            Err(e) => {
                proof {
                    let ev = outcome_of(Err::<Value, RangoError>(e))->Err_0;
                    lemma_object_error_stays(mv, i as int + 1, mv.len() as int, ev, pd);
                }
                return Err(e);
            },
        }
        i = i + 1;
    }
    Ok(Value::Doc(doc))
}

proof fn lemma_array_error_stays(a: Seq<VJson>, k: int, n: int, e: Seq<char>, pd: DoubleParser)
    requires
        0 <= k <= n <= a.len(),
        convert_array(a, k, pd) == Err::<VVal, Seq<char>>(e),
    ensures
        convert_array(a, n, pd) == Err::<VVal, Seq<char>>(e),
    decreases n - k,
{
    if k < n {
        lemma_array_error_stays(a, k, n - 1, e, pd);
    }
}

proof fn lemma_object_error_stays(m: Seq<(Seq<char>, VJson)>, k: int, n: int, e: Seq<char>, pd: DoubleParser)
    requires
        0 <= k <= n <= m.len(),
        convert_object(m, k, pd) == Err::<VVal, Seq<char>>(e),
    ensures
        convert_object(m, n, pd) == Err::<VVal, Seq<char>>(e),
    decreases n - k,
{
    if k < n {
        lemma_object_error_stays(m, k, n - 1, e, pd);
    }
}

} // verus!
