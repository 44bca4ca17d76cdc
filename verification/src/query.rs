use vstd::prelude::*;
use crate::float::{f64_compare, f64_is_nan, float_compare};
use crate::filter::{text_order, text_compare};
use crate::types::RangoError;
use crate::value::{VVal, VDoc, Value, Document, doc_get, doc_has, doc_insert, view_value, lemma_key_pos};

verus! {

/// Query engine v1: filters, projections and sort keys.
pub struct QueryEngine;

impl QueryEngine {
    pub fn new() -> (r: Self)
        ensures
            r == QueryEngine,
    {
        QueryEngine
    }
}

// ---------------------------------------------------------------------------
// Projection.

/// A projection value that selects a field (`1` as a 32-bit integer).
pub open spec fn selects(v: VVal) -> bool {
    v == VVal::Int32(1)
}

/// A projection value that drops a field (`0` as a 32-bit integer).
pub open spec fn drops(v: Option<VVal>) -> bool {
    v == Some(VVal::Int32(0))
}

/// A projection is an inclusion projection when some field is selected.
pub open spec fn is_inclusion(p: VDoc) -> bool {
    exists|i: int| 0 <= i < p.len() && selects(p[i].1)
}

/// Inclusion: the selected fields that the document has, in the order of the
/// projection (the first `n` projection fields).
pub open spec fn included(doc: VDoc, p: VDoc, n: int) -> VDoc
    decreases n,
{
    if n <= 0 {
        Seq::empty()
    } else {
        let r = included(doc, p, n - 1);
        let k = p[n - 1].0;
        if n <= p.len() && selects(p[n - 1].1) && doc_has(doc, k) {
            doc_insert(r, k, doc_get(doc, k).unwrap())
        } else {
            r
        }
    }
}

/// Exclusion: the first `n` fields of the document that the projection does
/// not drop.
pub open spec fn excluded(doc: VDoc, p: VDoc, n: int) -> VDoc
    decreases n,
{
    if n <= 0 {
        Seq::empty()
    } else {
        let r = excluded(doc, p, n - 1);
        if n <= doc.len() && !drops(doc_get(p, doc[n - 1].0)) {
            doc_insert(r, doc[n - 1].0, doc[n - 1].1)
        } else {
            r
        }
    }
}

/// What `project(doc, p)` gives: in inclusion mode the selected fields, then
/// `_id` unless the projection drops it; otherwise every field the projection
/// does not drop.
pub open spec fn projected(doc: VDoc, p: VDoc) -> VDoc {
    if is_inclusion(p) {
        let r = included(doc, p, p.len() as int);
        if !drops(doc_get(p, "_id"@)) && doc_has(doc, "_id"@) {
            doc_insert(r, "_id"@, doc_get(doc, "_id"@).unwrap())
        } else {
            r
        }
    } else {
        excluded(doc, p, doc.len() as int)
    }
}

fn is_int32(v: Option<&Value>, n: i32) -> (r: bool)
    ensures
        r == (match v { Some(x) => x@ == VVal::Int32(n), None => false }),
{
    match v {
        Some(Value::Int32(i)) => *i == n,
        _ => false,
    }
}

/// Applies a projection to a document.
pub fn project(doc: &Document, projection: &Document) -> (r: Result<Document, RangoError>)
    ensures
        r matches Ok(d) && d@ == projected(doc@, projection@),
{
    let mut result = Document::new();
    let mut inclusion = false;
    let mut i: usize = 0;
    while i < projection.entries.len()
        invariant
            i <= projection.entries.len(),
            inclusion == exists|j: int| 0 <= j < i && selects(#[trigger] projection@[j].1),
        decreases projection.entries.len() - i,
    {
        assert(projection@[i as int].1 == projection.entries@[i as int].value@);
        if is_int32(Some(&projection.entries[i].value), 1) {
            inclusion = true;
        }
        assert(selects(projection@[i as int].1) ==> exists|j: int| 0 <= j < i + 1 && selects(#[trigger] projection@[j].1));
        i = i + 1;
    }
    if inclusion {
        let mut i: usize = 0;
        while i < projection.entries.len()
            invariant
                i <= projection.entries.len(),
                result@ == included(doc@, projection@, i as int),
            decreases projection.entries.len() - i,
        {
            let e = &projection.entries[i];
            if is_int32(Some(&e.value), 1) {
                match doc.get(&e.key) {
                    Some(v) => {
                        proof { lemma_key_pos(doc@, e.key@); }
                        result.insert(e.key.clone(), v.deep_clone());
                    },
                    None => {},
                }
            }
            i = i + 1;
        }
        if !is_int32(projection.get_lit("_id"), 0) {
            match doc.get_lit("_id") {
                Some(id) => {
                    proof { lemma_key_pos(doc@, "_id"@); }
                    result.insert_lit("_id", id.deep_clone());
                },
                None => {},
            }
        }
    } else {
        let mut i: usize = 0;
        while i < doc.entries.len()
            invariant
                i <= doc.entries.len(),
                result@ == excluded(doc@, projection@, i as int),
            decreases doc.entries.len() - i,
        {
            let e = &doc.entries[i];
            if !is_int32(projection.get(&e.key), 0) {
                result.insert(e.key.clone(), e.value.deep_clone());
            }
            i = i + 1;
        }
    }
    Ok(result)
}

// ---------------------------------------------------------------------------
// Sort keys.

/// The key a document sorts by.
pub enum SortKey {
    Null,
    Int64(i64),
    Double(u64),
    String(String),
    DateTime(i64),
}

pub enum VSortKey {
    Null,
    Int64(i64),
    Double(u64),
    String(Seq<char>),
    DateTime(i64),
}

impl View for SortKey {
    type V = VSortKey;

    open spec fn view(&self) -> VSortKey {
        match self {
            SortKey::Null => VSortKey::Null,
            SortKey::Int64(v) => VSortKey::Int64(*v),
            SortKey::Double(v) => VSortKey::Double(*v),
            SortKey::String(s) => VSortKey::String(s@),
            SortKey::DateTime(v) => VSortKey::DateTime(*v),
        }
    }
}

pub open spec fn msg_unsortable() -> Seq<char> { "Cannot sort by field type"@ }

/// The sort key of a field: integers widen to 64 bits, a missing field and
/// null sort as null, other types cannot be sorted by.
pub open spec fn key_of(v: Option<VVal>) -> Result<VSortKey, Seq<char>> {
    match v {
        Some(VVal::Int32(x)) => Ok(VSortKey::Int64(x as i64)),
        Some(VVal::Int64(x)) => Ok(VSortKey::Int64(x)),
        Some(VVal::Double(x)) => Ok(VSortKey::Double(x)),
        Some(VVal::Str(s)) => Ok(VSortKey::String(s)),
        Some(VVal::DateTime(t)) => Ok(VSortKey::DateTime(t)),
        Some(VVal::Null) => Ok(VSortKey::Null),
        None => Ok(VSortKey::Null),
        Some(_) => Err(msg_unsortable()),
    }
}

/// Extracts the sort key of `field`.
pub fn sort_key(doc: &Document, field: &String) -> (r: Result<SortKey, RangoError>)
    ensures
        match (r, key_of(doc_get(doc@, field@))) {
            (Ok(k), Ok(s)) => k@ == s,
            (Err(RangoError::InvalidQueryOperator(m)), Err(e)) => m@ == e,
            _ => false,
        },
{
    match doc.get(field) {
        Some(Value::Int32(v)) => Ok(SortKey::Int64(*v as i64)),
        Some(Value::Int64(v)) => Ok(SortKey::Int64(*v)),
        Some(Value::Double(v)) => Ok(SortKey::Double(*v)),
        Some(Value::Str(s)) => Ok(SortKey::String(s.clone())),
        Some(Value::DateTime(t)) => Ok(SortKey::DateTime(*t)),
        Some(Value::Null) => Ok(SortKey::Null),
        None => Ok(SortKey::Null),
        Some(_) => Err(RangoError::InvalidQueryOperator(String::from_str("Cannot sort by field type"))),
    }
}

pub open spec fn key_rank(k: VSortKey) -> int {
    match k {
        VSortKey::Null => 0,
        VSortKey::Int64(_) => 1,
        VSortKey::Double(_) => 2,
        VSortKey::String(_) => 3,
        VSortKey::DateTime(_) => 4,
    }
}

/// The order of sort keys: by type rank (null < integer < double < string <
/// date), then by value; doubles that cannot be ordered (NaN) count as equal.
pub open spec fn key_order(a: VSortKey, b: VSortKey) -> i8 {
    match (a, b) {
        (VSortKey::Null, VSortKey::Null) => 0i8,
        (VSortKey::Int64(x), VSortKey::Int64(y)) => if x < y { -1i8 } else if x == y { 0i8 } else { 1i8 },
        (VSortKey::Double(x), VSortKey::Double(y)) => match f64_compare(x, y) {
            Some(c) => c,
            None => 0i8,
        },
        (VSortKey::String(x), VSortKey::String(y)) => text_order(x, y),
        (VSortKey::DateTime(x), VSortKey::DateTime(y)) => if x < y { -1i8 } else if x == y { 0i8 } else { 1i8 },
        _ => if key_rank(a) < key_rank(b) { -1i8 } else if key_rank(a) == key_rank(b) { 0i8 } else { 1i8 },
    }
}

fn rank(k: &SortKey) -> (r: u8)
    ensures
        r as int == key_rank(k@),
{
    match k {
        SortKey::Null => 0,
        SortKey::Int64(_) => 1,
        SortKey::Double(_) => 2,
        SortKey::String(_) => 3,
        SortKey::DateTime(_) => 4,
    }
}

impl SortKey {
    /// Three-way comparison of sort keys.
    pub fn compare(&self, other: &SortKey) -> (r: i8)
        ensures
            r == key_order(self@, other@),
    {
        match (self, other) {
            (SortKey::Null, SortKey::Null) => 0,
            (SortKey::Int64(x), SortKey::Int64(y)) => if *x < *y { -1 } else if *x == *y { 0 } else { 1 },
            (SortKey::Double(x), SortKey::Double(y)) => match float_compare(*x, *y) {
                Some(c) => c,
                None => 0,
            },
            (SortKey::String(x), SortKey::String(y)) => text_compare(x, y),
            (SortKey::DateTime(x), SortKey::DateTime(y)) => if *x < *y { -1 } else if *x == *y { 0 } else { 1 },
            _ => {
                let ra = rank(self);
                let rb = rank(other);
                if ra < rb { -1 } else if ra == rb { 0 } else { 1 }
            },
        }
    }
}

} // verus!
