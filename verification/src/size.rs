use vstd::prelude::*;
use vstd::utf8::encode_utf8;
use crate::text::{decimal, u64_to_decimal, find_char};
use crate::value::{VVal, VDoc, Value, Document, view_value, lemma_view_array};

verus! {

// The length of a document in the BSON encoding, as `Document::to_writer`
// writes it: an `i32` length, the elements, a terminating zero byte; each
// element is a type byte, the key as a zero-terminated string, then the
// value. Keys holding a zero character cannot be encoded.

/// The UTF-8 byte length of a string (a string held in memory is shorter
/// than `usize::MAX` bytes).
pub open spec fn utf8_len(s: Seq<char>) -> nat {
    (encode_utf8(s).len() as usize) as nat
}

/// Encoded length of a value's payload.
pub open spec fn value_size(v: VVal) -> nat
    decreases v, 0int,
{
    match v {
        VVal::Null => 0,
        VVal::Bool(_) => 1,
        VVal::Int32(_) => 4,
        VVal::Int64(_) => 8,
        VVal::Double(_) => 8,
        VVal::Str(s) => 4 + utf8_len(s) + 1,
        VVal::DateTime(_) => 8,
        VVal::ObjectId(b) => b.len(),
        VVal::Binary(st, b) => if st == 2 { 4 + 1 + 4 + b.len() } else { 4 + 1 + b.len() },
        VVal::Array(a) => 4 + array_elems_size(a, 0) + 1,
        VVal::Doc(d) => 4 + doc_elems_size(d, 0) + 1,
        VVal::Other(_, raw) => raw.len(),
    }
}

/// Elements `i..` of an array, keyed "0", "1", ...
pub open spec fn array_elems_size(a: Seq<VVal>, i: int) -> nat
    decreases a, a.len() - i,
{
    if i < 0 || i >= a.len() {
        0
    } else {
        1 + utf8_len(decimal(i as nat)) + 1 + value_size(a[i]) + array_elems_size(a, i + 1)
    }
}

/// Elements `i..` of a document.
pub open spec fn doc_elems_size(d: VDoc, i: int) -> nat
    decreases d, d.len() - i,
{
    if i < 0 || i >= d.len() {
        0
    } else {
        1 + utf8_len(d[i].0) + 1 + value_size(d[i].1) + doc_elems_size(d, i + 1)
    }
}

pub open spec fn doc_size(d: VDoc) -> nat {
    4 + doc_elems_size(d, 0) + 1
}

/// Some key, at any depth, holds a zero character.
pub open spec fn value_has_nul_key(v: VVal) -> bool
    decreases v, 0int,
{
    match v {
        VVal::Array(a) => array_has_nul_key(a, 0),
        VVal::Doc(d) => doc_has_nul_key(d, 0),
        _ => false,
    }
}

pub open spec fn array_has_nul_key(a: Seq<VVal>, i: int) -> bool
    decreases a, a.len() - i,
{
    if i < 0 || i >= a.len() { false } else { value_has_nul_key(a[i]) || array_has_nul_key(a, i + 1) }
}

pub open spec fn doc_has_nul_key(d: VDoc, i: int) -> bool
    decreases d, d.len() - i,
{
    if i < 0 || i >= d.len() {
        false
    } else {
        d[i].0.contains('\0') || value_has_nul_key(d[i].1) || doc_has_nul_key(d, i + 1)
    }
}

/// The encoded length, saturated at `u64::MAX`; `None` when the document
/// cannot be encoded.
pub open spec fn encoded_len(d: VDoc) -> Option<u64> {
    if doc_has_nul_key(d, 0) {
        None
    } else if doc_size(d) > u64::MAX {
        Some(u64::MAX)
    } else {
        Some(doc_size(d) as u64)
    }
}

fn sat_add(a: u64, b: u64) -> (r: u64)
    ensures
        r as int == if a + b > u64::MAX { u64::MAX as int } else { a + b },
{
    if a > u64::MAX - b { u64::MAX } else { a + b }
}

/// Saturated size and "has a zero key" of a value.
fn value_size_exec(v: &Value) -> (r: (u64, bool))
    ensures
        r.1 == value_has_nul_key(v@),
        r.0 as int == if value_size(v@) > u64::MAX { u64::MAX as int } else { value_size(v@) as int },
    decreases v, 1int,
{
    match v {
        Value::Null => (0, false),
        Value::Bool(_) => (1, false),
        Value::Int32(_) => (4, false),
        Value::Int64(_) => (8, false),
        Value::Double(_) => (8, false),
        Value::Str(s) => {
            let n = s.as_str().len();
            assert(n == utf8_len(s@));
            (sat_add(5, n as u64), false)
        },
        Value::DateTime(_) => (8, false),
        Value::ObjectId(b) => (b.len() as u64, false),
        Value::Binary { subtype, bytes } => {
            if *subtype == 2 { (sat_add(9, bytes.len() as u64), false) } else { (sat_add(5, bytes.len() as u64), false) }
        },
        Value::Array(a) => {
            proof { lemma_view_array(*a); }
            let (n, z) = array_size_exec(a);
            (sat_add(sat_add(4, n), 1), z)
        },
        Value::Doc(d) => {
            let (n, z) = doc_elems_exec(d);
            (sat_add(sat_add(4, n), 1), z)
        },
        Value::Other { tag: _, raw } => (raw.len() as u64, false),
    }
}

fn array_size_exec(a: &Vec<Value>) -> (r: (u64, bool))
    ensures
        r.1 == array_has_nul_key(view_value(Value::Array(*a))->Array_0, 0),
        r.0 as int == if array_elems_size(view_value(Value::Array(*a))->Array_0, 0) > u64::MAX {
            u64::MAX as int
        } else {
            array_elems_size(view_value(Value::Array(*a))->Array_0, 0) as int
        },
    decreases a, 0int,
{
    proof { lemma_view_array(*a); }
    let ghost va = view_value(Value::Array(*a))->Array_0;
    let mut total: u64 = 0;
    let mut zero = false;
    let mut i: usize = a.len();
    while i > 0
        invariant
            i <= a.len(),
            va == view_value(Value::Array(*a))->Array_0,
            va.len() == a@.len(),
            forall|j: int| 0 <= j < a@.len() ==> #[trigger] va[j] == a@[j]@,
            zero == array_has_nul_key(va, i as int),
            total as int == if array_elems_size(va, i as int) > u64::MAX { u64::MAX as int } else { array_elems_size(va, i as int) as int },
        decreases i,
    {
        i = i - 1;
        proof { assert(decreases_to!(a => a@[i as int])); }
        let (n, z) = value_size_exec(&a[i]);
        let key = u64_to_decimal(i as u64);
        let k = key.as_str().len() as u64;
        assert(key@ == decimal(i as nat));
        assert(k == utf8_len(decimal(i as nat)));
        assert(va[i as int] == a@[i as int]@);
        total = sat_add(total, sat_add(sat_add(2, k), n));
        zero = zero || z;
    }
    (total, zero)
}

fn doc_elems_exec(d: &Document) -> (r: (u64, bool))
    ensures
        r.1 == doc_has_nul_key(d@, 0),
        r.0 as int == if doc_elems_size(d@, 0) > u64::MAX { u64::MAX as int } else { doc_elems_size(d@, 0) as int },
    decreases d, 0int,
{
    let mut total: u64 = 0;
    let mut zero = false;
    let mut i: usize = d.entries.len();
    while i > 0
        invariant
            i <= d.entries.len(),
            zero == doc_has_nul_key(d@, i as int),
            total as int == if doc_elems_size(d@, i as int) > u64::MAX { u64::MAX as int } else { doc_elems_size(d@, i as int) as int },
        decreases i,
    {
        i = i - 1;
        proof { assert(decreases_to!(d => d.entries@[i as int].value)); }
        let e = &d.entries[i];
        assert(d@[i as int].0 == e.key@ && d@[i as int].1 == e.value@);
        let (n, z) = value_size_exec(&e.value);
        let k = e.key.as_str().len() as u64;
        let nul = find_char(e.key.as_str(), '\0', 0).is_some();
        proof {
            if nul {
                assert(e.key@.contains('\0'));
            } else {
                assert(!e.key@.contains('\0'));
            }
        }
        total = sat_add(total, sat_add(sat_add(2, k), n));
        zero = zero || nul || z;
    }
    (total, zero)
}

/// The encoded length of a document (`None`: it cannot be encoded).
pub fn encoded_len_of(d: &Document) -> (r: Option<u64>)
    ensures
        r == encoded_len(d@),
{
    let (n, z) = doc_elems_exec(d);
    if z {
        None
    } else {
        Some(sat_add(sat_add(4, n), 1))
    }
}

} // verus!
