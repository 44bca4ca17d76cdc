use vstd::prelude::*;
use crate::float::{f64_eq, f64_compare, i64_to_f64_bits, float_eq, float_compare, i64_to_f64};
use crate::types::RangoError;
use crate::value::{VVal, VDoc, Value, Document, vval_eq, doc_get, value_eq, str_is, view_value, lemma_view_array};

verus! {

// MongoDB-style filters: `{field: value}` (implicit equality),
// `{field: {$eq|$gt|$gte|$lt|$lte|$in: ...}}`, `$and` and `$or`.

/// The outcome of evaluating a filter: a truth value, or the message of an
/// `InvalidQueryOperator` error.
pub type FilterOutcome = Result<bool, Seq<char>>;

pub open spec fn msg_and_or_array() -> Seq<char> { "$and/$or expects array"@ }
pub open spec fn msg_and_or_docs() -> Seq<char> { "$and/$or expects array of documents"@ }
pub open spec fn msg_or_array() -> Seq<char> { "$or expects array"@ }
pub open spec fn msg_or_docs() -> Seq<char> { "$or expects array of documents"@ }
pub open spec fn msg_in_array() -> Seq<char> { "$in expects array"@ }
pub open spec fn msg_nan() -> Seq<char> { "Cannot compare NaN values"@ }
pub open spec fn msg_incomparable() -> Seq<char> { "Cannot compare values of different types"@ }

pub open spec fn starts_with_dollar(k: Seq<char>) -> bool {
    k.len() > 0 && k[0] == '$'
}

/// Lexicographic order of two strings by code point (the order of their
/// UTF-8 bytes): -1, 0 or 1.
pub open spec fn text_order(a: Seq<char>, b: Seq<char>) -> i8
    decreases a.len(),
{
    if a.len() == 0 {
        if b.len() == 0 { 0i8 } else { -1i8 }
    } else if b.len() == 0 {
        1i8
    } else if (a[0] as u32) < (b[0] as u32) {
        -1i8
    } else if (a[0] as u32) > (b[0] as u32) {
        1i8
    } else {
        text_order(a.drop_first(), b.drop_first())
    }
}

pub open spec fn int_order(a: int, b: int) -> i8 {
    if a < b { -1i8 } else if a == b { 0i8 } else { 1i8 }
}

/// Equality used by filters: BSON equality, or equal numbers across the
/// three numeric types (an integer compared with a double is first
/// converted to the nearest double).
pub open spec fn filter_eq(a: Option<VVal>, b: Option<VVal>) -> bool {
    match (a, b) {
        (Some(x), Some(y)) => vval_eq(x, y) || match (x, y) {
            (VVal::Int32(p), VVal::Int64(q)) => p as int == q as int,
            (VVal::Int64(p), VVal::Int32(q)) => p as int == q as int,
            (VVal::Int32(p), VVal::Double(q)) => f64_eq(i64_to_f64_bits(p as i64), q),
            (VVal::Double(p), VVal::Int32(q)) => f64_eq(p, i64_to_f64_bits(q as i64)),
            (VVal::Int64(p), VVal::Double(q)) => f64_eq(i64_to_f64_bits(p), q),
            (VVal::Double(p), VVal::Int64(q)) => f64_eq(p, i64_to_f64_bits(q)),
            _ => false,
        },
        (None, None) => true,
        _ => false,
    }
}

pub open spec fn float_outcome(o: Option<i8>) -> Result<i8, Seq<char>> {
    match o {
        Some(c) => Ok(c),
        None => Err(msg_nan()),
    }
}

/// Ordering of two values for `$gt`/`$gte`/`$lt`/`$lte`.
pub open spec fn value_order(a: VVal, b: VVal) -> Result<i8, Seq<char>> {
    match (a, b) {
        (VVal::Int32(p), VVal::Int32(q)) => Ok(int_order(p as int, q as int)),
        (VVal::Int64(p), VVal::Int64(q)) => Ok(int_order(p as int, q as int)),
        (VVal::Double(p), VVal::Double(q)) => float_outcome(f64_compare(p, q)),
        (VVal::Str(p), VVal::Str(q)) => Ok(text_order(p, q)),
        (VVal::DateTime(p), VVal::DateTime(q)) => Ok(int_order(p as int, q as int)),
        (VVal::Int32(p), VVal::Int64(q)) => Ok(int_order(p as int, q as int)),
        (VVal::Int64(p), VVal::Int32(q)) => Ok(int_order(p as int, q as int)),
        (VVal::Int32(p), VVal::Double(q)) => float_outcome(f64_compare(i64_to_f64_bits(p as i64), q)),
        (VVal::Double(p), VVal::Int32(q)) => float_outcome(f64_compare(p, i64_to_f64_bits(q as i64))),
        (VVal::Int64(p), VVal::Double(q)) => float_outcome(f64_compare(i64_to_f64_bits(p), q)),
        (VVal::Double(p), VVal::Int64(q)) => float_outcome(f64_compare(p, i64_to_f64_bits(q))),
        _ => Err(msg_incomparable()),
    }
}

/// The comparison operators: which orderings satisfy each.
pub open spec fn order_satisfies(op: int, c: i8) -> bool {
    if op == 0 { c == 1 } else if op == 1 { c != -1 } else if op == 2 { c == -1 } else { c != 1 }
}

/// `$gt` (0), `$gte` (1), `$lt` (2), `$lte` (3) on a possibly missing field.
pub open spec fn compare_op(op: int, a: Option<VVal>, b: VVal) -> Result<bool, Seq<char>> {
    match a {
        Some(x) => match value_order(x, b) {
            Ok(c) => Ok(order_satisfies(op, c)),
            Err(e) => Err(e),
        },
        None => Ok(false),
    }
}

/// `$in`: some element equals the field.
pub open spec fn in_any(a: Option<VVal>, arr: Seq<VVal>) -> bool {
    exists|i: int| 0 <= i < arr.len() && filter_eq(a, Some(arr[i]))
}

/// The operators of one operator document `{$op: value, ...}`, from index `i`.
pub open spec fn ops_outcome(doc: VDoc, field: Seq<char>, ops: VDoc, i: int) -> FilterOutcome
    decreases ops.len() - i,
{
    if i < 0 || i >= ops.len() {
        Ok(true)
    } else {
        let op = ops[i].0;
        let ov = ops[i].1;
        let fv = doc_get(doc, field);
        let step: FilterOutcome = if op == "$eq"@ {
            Ok(filter_eq(fv, Some(ov)))
        } else if op == "$gt"@ {
            compare_op(0, fv, ov)
        } else if op == "$gte"@ {
            compare_op(1, fv, ov)
        } else if op == "$lt"@ {
            compare_op(2, fv, ov)
        } else if op == "$lte"@ {
            compare_op(3, fv, ov)
        } else if op == "$in"@ {
            match ov {
                VVal::Array(arr) => Ok(in_any(fv, arr)),
                _ => Err(msg_in_array()),
            }
        } else {
            Err(op)
        };
        match step {
            Ok(true) => ops_outcome(doc, field, ops, i + 1),
            other => other,
        }
    }
}

/// One non-logical filter entry.
pub open spec fn field_outcome(doc: VDoc, field: Seq<char>, value: VVal) -> FilterOutcome {
    match value {
        VVal::Doc(ops) => ops_outcome(doc, field, ops, 0),
        _ => Ok(filter_eq(doc_get(doc, field), Some(value))),
    }
}

/// Entries `i..` of a filter, evaluated in order; the first entry that does
/// not hold decides.
pub open spec fn filter_from(doc: VDoc, f: VDoc, i: int) -> FilterOutcome
    decreases f, f.len() - i,
{
    if i < 0 || i >= f.len() {
        Ok(true)
    } else {
        match entry_outcome(doc, f[i].0, f[i].1) {
            Ok(true) => filter_from(doc, f, i + 1),
            other => other,
        }
    }
}

/// One filter entry.
pub open spec fn entry_outcome(doc: VDoc, key: Seq<char>, value: VVal) -> FilterOutcome
    decreases value, 0int,
{
    if key == "$and"@ {
        match value {
            VVal::Array(arr) => and_from(doc, arr, 0),
            _ => Err(msg_and_or_array()),
        }
    } else if key == "$or"@ {
        match value {
            VVal::Array(arr) => if arr.len() == 0 { Ok(true) } else { or_from(doc, arr, 0) },
            _ => Err(msg_or_array()),
        }
    } else if starts_with_dollar(key) {
        Err(key)
    } else {
        field_outcome(doc, key, value)
    }
}

/// `$and` over the sub-filters `i..`.
pub open spec fn and_from(doc: VDoc, arr: Seq<VVal>, i: int) -> FilterOutcome
    decreases arr, arr.len() - i,
{
    if i < 0 || i >= arr.len() {
        Ok(true)
    } else {
        match arr[i] {
            VVal::Doc(sub) => match filter_from(doc, sub, 0) {
                Ok(true) => and_from(doc, arr, i + 1),
                other => other,
            },
            _ => Err(msg_and_or_docs()),
        }
    }
}

/// `$or` over the sub-filters `i..`.
pub open spec fn or_from(doc: VDoc, arr: Seq<VVal>, i: int) -> FilterOutcome
    decreases arr, arr.len() - i,
{
    if i < 0 || i >= arr.len() {
        Ok(false)
    } else {
        match arr[i] {
            VVal::Doc(sub) => match filter_from(doc, sub, 0) {
                Ok(false) => or_from(doc, arr, i + 1),
                other => other,
            },
            _ => Err(msg_or_docs()),
        }
    }
}

/// What `matches(doc, filter)` gives.
pub open spec fn filter_outcome(doc: VDoc, filter: VDoc) -> FilterOutcome {
    filter_from(doc, filter, 0)
}

/// An executable result agrees with an outcome.
pub open spec fn agrees<T>(r: Result<T, RangoError>, o: Result<T, Seq<char>>) -> bool {
    match (r, o) {
        (Ok(x), Ok(y)) => x == y,
        (Err(RangoError::InvalidQueryOperator(m)), Err(e)) => m@ == e,
        _ => false,
    }
}

// ---------------------------------------------------------------------------

fn op_error(lit: &str) -> (r: RangoError)
    ensures
        r matches RangoError::InvalidQueryOperator(m) && m@ == lit@,
{
    RangoError::InvalidQueryOperator(String::from_str(lit))
}

/// `s` starts with `$`.
pub fn is_operator_name(s: &String) -> (r: bool)
    ensures
        r == starts_with_dollar(s@),
{
    let n = s.as_str().unicode_len();
    n > 0 && s.as_str().get_char(0) == '$'
}

/// Code-point order of two strings.
pub fn text_compare(a: &String, b: &String) -> (r: i8)
    ensures
        r == text_order(a@, b@),
{
    let na = a.as_str().unicode_len();
    let nb = b.as_str().unicode_len();
    let mut i: usize = 0;
    assert(a@.skip(0) =~= a@);
    assert(b@.skip(0) =~= b@);
    while i < na && i < nb
        invariant
            na == a@.len(),
            nb == b@.len(),
            i <= na,
            i <= nb,
            text_order(a@, b@) == text_order(a@.skip(i as int), b@.skip(i as int)),
        decreases na - i,
    {
        let ca = a.as_str().get_char(i);
        let cb = b.as_str().get_char(i);
        assert(a@.skip(i as int)[0] == ca);
        assert(b@.skip(i as int)[0] == cb);
        if (ca as u32) < (cb as u32) {
            return -1;
        }
        if (ca as u32) > (cb as u32) {
            return 1;
        }
        assert(a@.skip(i as int).drop_first() =~= a@.skip(i + 1));
        assert(b@.skip(i as int).drop_first() =~= b@.skip(i + 1));
        i = i + 1;
    }
    if i == na && i == nb {
        assert(a@.skip(i as int).len() == 0);
        0
    } else if i == na {
        -1
    } else {
        1
    }
}

fn int_compare(a: i64, b: i64) -> (r: i8)
    ensures
        r == int_order(a as int, b as int),
{
    if a < b { -1 } else if a == b { 0 } else { 1 }
}

fn float_result(o: Option<i8>) -> (r: Result<i8, RangoError>)
    ensures
        agrees(r, float_outcome(o)),
{
    match o {
        Some(c) => Ok(c),
        None => Err(op_error("Cannot compare NaN values")),
    }
}

/// Equality used by filters.
pub fn filter_equal(a: Option<&Value>, b: Option<&Value>) -> (r: bool)
    ensures
        r == filter_eq(
            match a { Some(x) => Some(x@), None => None },
            match b { Some(x) => Some(x@), None => None },
        ),
{
    match (a, b) {
        (Some(x), Some(y)) => {
            if value_eq(x, y) {
                return true;
            }
            match (x, y) {
                (Value::Int32(p), Value::Int64(q)) => *p as i64 == *q,
                (Value::Int64(p), Value::Int32(q)) => *p == *q as i64,
                (Value::Int32(p), Value::Double(q)) => float_eq(i64_to_f64(*p as i64), *q),
                (Value::Double(p), Value::Int32(q)) => float_eq(*p, i64_to_f64(*q as i64)),
                (Value::Int64(p), Value::Double(q)) => float_eq(i64_to_f64(*p), *q),
                (Value::Double(p), Value::Int64(q)) => float_eq(*p, i64_to_f64(*q)),
                _ => false,
            }
        },
        (None, None) => true,
        _ => false,
    }
}

/// Ordering of two values.
pub fn value_compare(a: &Value, b: &Value) -> (r: Result<i8, RangoError>)
    ensures
        agrees(r, value_order(a@, b@)),
{
    match (a, b) {
        (Value::Int32(p), Value::Int32(q)) => Ok(int_compare(*p as i64, *q as i64)),
        (Value::Int64(p), Value::Int64(q)) => Ok(int_compare(*p, *q)),
        (Value::Double(p), Value::Double(q)) => float_result(float_compare(*p, *q)),
        (Value::Str(p), Value::Str(q)) => Ok(text_compare(p, q)),
        (Value::DateTime(p), Value::DateTime(q)) => Ok(int_compare(*p, *q)),
        (Value::Int32(p), Value::Int64(q)) => Ok(int_compare(*p as i64, *q)),
        (Value::Int64(p), Value::Int32(q)) => Ok(int_compare(*p, *q as i64)),
        (Value::Int32(p), Value::Double(q)) => float_result(float_compare(i64_to_f64(*p as i64), *q)),
        (Value::Double(p), Value::Int32(q)) => float_result(float_compare(*p, i64_to_f64(*q as i64))),
        (Value::Int64(p), Value::Double(q)) => float_result(float_compare(i64_to_f64(*p), *q)),
        (Value::Double(p), Value::Int64(q)) => float_result(float_compare(*p, i64_to_f64(*q))),
        _ => Err(op_error("Cannot compare values of different types")),
    }
}

fn compare_field(op: u8, a: Option<&Value>, b: &Value) -> (r: Result<bool, RangoError>)
    requires
        op < 4,
    ensures
        agrees(r, compare_op(op as int, match a { Some(x) => Some(x@), None => None }, b@)),
{
    match a {
        Some(x) => match value_compare(x, b) {
            Ok(c) => Ok(if op == 0 { c == 1 } else if op == 1 { c != -1 } else if op == 2 { c == -1 } else { c != 1 }),
            Err(e) => Err(e),
        },
        None => Ok(false),
    }
}

pub open spec fn opt_view(a: Option<&Value>) -> Option<VVal> {
    match a { Some(x) => Some(x@), None => None }
}

fn in_array(a: Option<&Value>, arr: &Vec<Value>) -> (r: bool)
    ensures
        r == in_any(opt_view(a), view_value(Value::Array(*arr))->Array_0),
{
    proof { lemma_view_array(*arr); }
    let ghost va = view_value(Value::Array(*arr))->Array_0;
    let mut i: usize = 0;
    while i < arr.len()
        invariant
            i <= arr.len(),
            va == view_value(Value::Array(*arr))->Array_0,
            va.len() == arr@.len(),
            forall|j: int| 0 <= j < arr@.len() ==> #[trigger] va[j] == arr@[j]@,
            forall|j: int| 0 <= j < i ==> !filter_eq(opt_view(a), Some(#[trigger] va[j])),
        decreases arr.len() - i,
    {
        if filter_equal(a, Some(&arr[i])) {
            assert(filter_eq(opt_view(a), Some(va[i as int])));
            return true;
        }
        i = i + 1;
    }
    false
}

fn field_ops(doc: &Document, field: &String, ops: &Document) -> (r: Result<bool, RangoError>)
    ensures
        agrees(r, ops_outcome(doc@, field@, ops@, 0)),
{
    let mut i: usize = 0;
    while i < ops.entries.len()
        invariant
            i <= ops.entries.len(),
            ops_outcome(doc@, field@, ops@, 0) == ops_outcome(doc@, field@, ops@, i as int),
        decreases ops.entries.len() - i,
    {
        let op = &ops.entries[i].key;
        let ov = &ops.entries[i].value;
        let fv = doc.get(field);
        let step: Result<bool, RangoError> = if str_is(op, "$eq") {
            Ok(filter_equal(fv, Some(ov)))
        } else if str_is(op, "$gt") {
            compare_field(0, fv, ov)
        } else if str_is(op, "$gte") {
            compare_field(1, fv, ov)
        } else if str_is(op, "$lt") {
            compare_field(2, fv, ov)
        } else if str_is(op, "$lte") {
            compare_field(3, fv, ov)
        } else if str_is(op, "$in") {
            match ov {
                Value::Array(arr) => Ok(in_array(fv, arr)),
                _ => Err(op_error("$in expects array")),
            }
        } else {
            Err(RangoError::InvalidQueryOperator(op.clone()))
        };
        match step {
            Ok(true) => {},
            other => { return other; },
        }
        i = i + 1;
    }
    Ok(true)
}

fn match_field(doc: &Document, field: &String, value: &Value) -> (r: Result<bool, RangoError>)
    ensures
        agrees(r, field_outcome(doc@, field@, value@)),
{
    match value {
        Value::Doc(ops) => field_ops(doc, field, ops),
        _ => Ok(filter_equal(doc.get(field), Some(value))),
    }
}

/// Evaluates a filter against a document.
pub fn matches(doc: &Document, filter: &Document) -> (r: Result<bool, RangoError>)
    ensures
        agrees(r, filter_outcome(doc@, filter@)),
    decreases filter, 0int,
{
    let mut i: usize = 0;
    while i < filter.entries.len()
        invariant
            i <= filter.entries.len(),
            filter_from(doc@, filter@, 0) == filter_from(doc@, filter@, i as int),
        decreases filter.entries.len() - i,
    {
        proof { assert(decreases_to!(filter => filter.entries@[i as int].value)); }
        let e = &filter.entries[i];
        match match_operator(doc, &e.key, &e.value) {
            Ok(true) => {},
            other => { return other; },
        }
        i = i + 1;
    }
    Ok(true)
}

fn match_operator(doc: &Document, key: &String, value: &Value) -> (r: Result<bool, RangoError>)
    ensures
        agrees(r, entry_outcome(doc@, key@, value@)),
    decreases value, 0int,
{
    if str_is(key, "$and") {
        match value {
            Value::Array(arr) => match_and(doc, arr),
            _ => Err(op_error("$and/$or expects array")),
        }
    } else if str_is(key, "$or") {
        match value {
            Value::Array(arr) => {
                if arr.len() == 0 {
                    proof { lemma_view_array(*arr); }
                    Ok(true)
                } else {
                    match_or(doc, arr)
                }
            },
            _ => Err(op_error("$or expects array")),
        }
    } else if is_operator_name(key) {
        Err(RangoError::InvalidQueryOperator(key.clone()))
    } else {
        match_field(doc, key, value)
    }
}

fn match_and(doc: &Document, arr: &Vec<Value>) -> (r: Result<bool, RangoError>)
    ensures
        agrees(r, and_from(doc@, view_value(Value::Array(*arr))->Array_0, 0)),
    decreases arr, 0int,
{
    proof { lemma_view_array(*arr); }
    let ghost va = view_value(Value::Array(*arr))->Array_0;
    let mut i: usize = 0;
    while i < arr.len()
        invariant
            i <= arr.len(),
            va == view_value(Value::Array(*arr))->Array_0,
            va.len() == arr@.len(),
            forall|j: int| 0 <= j < arr@.len() ==> #[trigger] va[j] == arr@[j]@,
            and_from(doc@, va, 0) == and_from(doc@, va, i as int),
        decreases arr.len() - i,
    {
        assert(va[i as int] == arr@[i as int]@);
        match &arr[i] {
            Value::Doc(sub) => {
                proof { assert(decreases_to!(arr => arr@[i as int])); }
                match matches(doc, sub) {
                    Ok(true) => {},
                    other => { return other; },
                }
            },
            _ => { return Err(op_error("$and/$or expects array of documents")); },
        }
        i = i + 1;
    }
    Ok(true)
}

fn match_or(doc: &Document, arr: &Vec<Value>) -> (r: Result<bool, RangoError>)
    ensures
        agrees(r, or_from(doc@, view_value(Value::Array(*arr))->Array_0, 0)),
    decreases arr, 0int,
{
    proof { lemma_view_array(*arr); }
    let ghost va = view_value(Value::Array(*arr))->Array_0;
    let mut i: usize = 0;
    while i < arr.len()
        invariant
            i <= arr.len(),
            va == view_value(Value::Array(*arr))->Array_0,
            va.len() == arr@.len(),
            forall|j: int| 0 <= j < arr@.len() ==> #[trigger] va[j] == arr@[j]@,
            or_from(doc@, va, 0) == or_from(doc@, va, i as int),
        decreases arr.len() - i,
    {
        assert(va[i as int] == arr@[i as int]@);
        match &arr[i] {
            Value::Doc(sub) => {
                proof { assert(decreases_to!(arr => arr@[i as int])); }
                match matches(doc, sub) {
                    Ok(false) => {},
                    other => { return other; },
                }
            },
            _ => { return Err(op_error("$or expects array of documents")); },
        }
        i = i + 1;
    }
    Ok(false)
}

} // verus!
