use vstd::prelude::*;

verus! {

// The document model: BSON values and documents as plain data, with a
// mathematical view (`VVal`, `VDoc`) over which all contracts are stated.

/// One field of a document.
pub struct Entry {
    pub key: String,
    pub value: Value,
}

/// A document: fields in insertion order.
pub struct Document {
    pub entries: Vec<Entry>,
}

/// A BSON value. `Double` holds the IEEE-754 bit pattern of the number;
/// `Other` holds a BSON type that the engine only compares for identity
/// (regular expression, JavaScript code, timestamp, decimal, symbol, min/max
/// key, undefined, DB pointer), as its element type tag and raw bytes.
pub enum Value {
    Null,
    Bool(bool),
    Int32(i32),
    Int64(i64),
    Double(u64),
    Str(String),
    DateTime(i64),
    ObjectId(Vec<u8>),
    Binary { subtype: u8, bytes: Vec<u8> },
    Array(Vec<Value>),
    Doc(Document),
    Other { tag: u8, raw: Vec<u8> },
}

/// The mathematical view of a value.
pub enum VVal {
    Null,
    Bool(bool),
    Int32(i32),
    Int64(i64),
    Double(u64),
    Str(Seq<char>),
    DateTime(i64),
    ObjectId(Seq<u8>),
    Binary(u8, Seq<u8>),
    Array(Seq<VVal>),
    Doc(Seq<(Seq<char>, VVal)>),
    Other(u8, Seq<u8>),
}

/// The mathematical view of a document: its fields in order.
pub type VDoc = Seq<(Seq<char>, VVal)>;

pub open spec fn view_value(v: Value) -> VVal
    decreases v,
{
    match v {
        Value::Null => VVal::Null,
        Value::Bool(b) => VVal::Bool(b),
        Value::Int32(i) => VVal::Int32(i),
        Value::Int64(i) => VVal::Int64(i),
        Value::Double(d) => VVal::Double(d),
        Value::Str(s) => VVal::Str(s@),
        Value::DateTime(t) => VVal::DateTime(t),
        Value::ObjectId(b) => VVal::ObjectId(b@),
        Value::Binary { subtype, bytes } => VVal::Binary(subtype, bytes@),
        Value::Array(a) => VVal::Array(
            Seq::new(a@.len(), |i: int| if 0 <= i < a@.len() { view_value(a@[i]) } else { VVal::Null }),
        ),
        Value::Doc(d) => VVal::Doc(view_doc(d)),
        Value::Other { tag, raw } => VVal::Other(tag, raw@),
    }
}

pub open spec fn view_doc(d: Document) -> VDoc
    decreases d,
{
    Seq::new(
        d.entries@.len(),
        |i: int|
            if 0 <= i < d.entries@.len() {
                (d.entries@[i].key@, view_value(d.entries@[i].value))
            } else {
                (Seq::empty(), VVal::Null)
            },
    )
}

impl View for Value {
    type V = VVal;

    open spec fn view(&self) -> VVal {
        view_value(*self)
    }
}

impl View for Document {
    type V = VDoc;

    open spec fn view(&self) -> VDoc {
        view_doc(*self)
    }
}

// ---------------------------------------------------------------------------
// Field lookup, insertion and removal on the view.

/// Index of the first field named `k`, or -1.
pub open spec fn key_pos(d: VDoc, k: Seq<char>) -> int
    decreases d.len(),
{
    if d.len() == 0 {
        -1
    } else if d[0].0 == k {
        0
    } else {
        let p = key_pos(d.drop_first(), k);
        if p < 0 { -1 } else { p + 1 }
    }
}

pub open spec fn doc_has(d: VDoc, k: Seq<char>) -> bool {
    key_pos(d, k) >= 0
}

/// `Document::get`: the value of the field named `k`.
pub open spec fn doc_get(d: VDoc, k: Seq<char>) -> Option<VVal> {
    let p = key_pos(d, k);
    if p >= 0 { Some(d[p].1) } else { None }
}

/// `Document::insert`: replaces the value of an existing field in place,
/// otherwise appends the field.
pub open spec fn doc_insert(d: VDoc, k: Seq<char>, v: VVal) -> VDoc {
    let p = key_pos(d, k);
    if p >= 0 { d.update(p, (k, v)) } else { d.push((k, v)) }
}

/// `Document::remove`: removes the field, keeping the order of the others.
pub open spec fn doc_remove(d: VDoc, k: Seq<char>) -> VDoc {
    let p = key_pos(d, k);
    if p >= 0 { d.remove(p) } else { d }
}

/// No two fields share a name.
pub open spec fn keys_unique(d: VDoc) -> bool {
    forall|i: int, j: int| 0 <= i < j < d.len() ==> d[i].0 != d[j].0
}

pub proof fn lemma_key_pos(d: VDoc, k: Seq<char>)
    ensures
        -1 <= key_pos(d, k) < d.len(),
        key_pos(d, k) >= 0 ==> d[key_pos(d, k)].0 == k,
        forall|j: int| 0 <= j < key_pos(d, k) ==> d[j].0 != k,
        key_pos(d, k) < 0 ==> forall|j: int| 0 <= j < d.len() ==> d[j].0 != k,
    decreases d.len(),
{
    if d.len() > 0 && d[0].0 != k {
        lemma_key_pos(d.drop_first(), k);
        assert forall|j: int| 0 < j < d.len() implies d[j] == d.drop_first()[j - 1] by {}
    }
}

/// The first index found by a scan that stops at the first match.
pub proof fn lemma_key_pos_at(d: VDoc, k: Seq<char>, i: int)
    requires
        0 <= i < d.len(),
        d[i].0 == k,
        forall|j: int| 0 <= j < i ==> d[j].0 != k,
    ensures
        key_pos(d, k) == i,
{
    lemma_key_pos(d, k);
}

pub proof fn lemma_key_pos_none(d: VDoc, k: Seq<char>)
    requires
        forall|j: int| 0 <= j < d.len() ==> d[j].0 != k,
    ensures
        key_pos(d, k) == -1,
{
    lemma_key_pos(d, k);
}

/// With unique names, a field at any index is the one found by name.
pub proof fn lemma_key_pos_unique(d: VDoc, i: int)
    requires
        keys_unique(d),
        0 <= i < d.len(),
    ensures
        key_pos(d, d[i].0) == i,
{
    lemma_key_pos_at(d, d[i].0, i);
}

pub proof fn lemma_insert_keeps_unique(d: VDoc, k: Seq<char>, v: VVal)
    requires
        keys_unique(d),
    ensures
        keys_unique(doc_insert(d, k, v)),
        doc_get(doc_insert(d, k, v), k) == Some(v),
        forall|k2: Seq<char>| k2 != k ==> doc_get(doc_insert(d, k, v), k2) == doc_get(d, k2),
{
    lemma_key_pos(d, k);
    let d2 = doc_insert(d, k, v);
    lemma_key_pos(d2, k);
    assert forall|k2: Seq<char>| k2 != k implies doc_get(d2, k2) == doc_get(d, k2) by {
        lemma_key_pos(d, k2);
        lemma_key_pos(d2, k2);
        if key_pos(d, k2) >= 0 {
            lemma_key_pos_at(d2, k2, key_pos(d, k2));
        } else {
            lemma_key_pos_none(d2, k2);
        }
    }
    if key_pos(d, k) >= 0 {
        lemma_key_pos_at(d2, k, key_pos(d, k));
    } else {
        lemma_key_pos_at(d2, k, d.len() as int);
    }
}

pub proof fn lemma_remove_keeps_unique(d: VDoc, k: Seq<char>)
    requires
        keys_unique(d),
    ensures
        keys_unique(doc_remove(d, k)),
        doc_get(doc_remove(d, k), k) is None,
        forall|k2: Seq<char>| k2 != k ==> doc_get(doc_remove(d, k), k2) == doc_get(d, k2),
{
    lemma_key_pos(d, k);
    let d2 = doc_remove(d, k);
    let p = key_pos(d, k);
    if p >= 0 {
        assert forall|j: int| 0 <= j < d2.len() implies d2[j] == (if j < p { d[j] } else { d[j + 1] }) by {}
        lemma_key_pos_none(d2, k);
        assert forall|k2: Seq<char>| k2 != k implies doc_get(d2, k2) == doc_get(d, k2) by {
            lemma_key_pos(d, k2);
            if key_pos(d, k2) >= 0 {
                let q = key_pos(d, k2);
                if q < p {
                    lemma_key_pos_at(d2, k2, q);
                } else {
                    lemma_key_pos_at(d2, k2, q - 1);
                }
            } else {
                lemma_key_pos_none(d2, k2);
            }
        }
    }
}

// ---------------------------------------------------------------------------
// BSON equality (`PartialEq for Bson`): structural, with IEEE equality on
// doubles, order-insensitive on documents (an `IndexMap` compares as a map).

pub open spec fn vval_eq(a: VVal, b: VVal) -> bool
    decreases a, 0int,
{
    match (a, b) {
        (VVal::Null, VVal::Null) => true,
        (VVal::Bool(x), VVal::Bool(y)) => x == y,
        (VVal::Int32(x), VVal::Int32(y)) => x == y,
        (VVal::Int64(x), VVal::Int64(y)) => x == y,
        (VVal::Double(x), VVal::Double(y)) => crate::float::f64_eq(x, y),
        (VVal::Str(x), VVal::Str(y)) => x == y,
        (VVal::DateTime(x), VVal::DateTime(y)) => x == y,
        (VVal::ObjectId(x), VVal::ObjectId(y)) => x == y,
        (VVal::Binary(s1, x), VVal::Binary(s2, y)) => s1 == s2 && x == y,
        (VVal::Array(x), VVal::Array(y)) => x.len() == y.len() && arr_eq_from(x, y, 0),
        (VVal::Doc(x), VVal::Doc(y)) => x.len() == y.len() && doc_eq_from(x, y, 0),
        (VVal::Other(t1, x), VVal::Other(t2, y)) => t1 == t2 && x == y,
        _ => false,
    }
}

/// Elements `i..` of two arrays of equal length are pairwise equal.
pub open spec fn arr_eq_from(x: Seq<VVal>, y: Seq<VVal>, i: int) -> bool
    decreases x, x.len() - i,
{
    if i < 0 || i >= x.len() || i >= y.len() {
        true
    } else {
        vval_eq(x[i], y[i]) && arr_eq_from(x, y, i + 1)
    }
}

/// Every field `i..` of `x` has an equal value under the same name in `y`.
pub open spec fn doc_eq_from(x: VDoc, y: VDoc, i: int) -> bool
    decreases x, x.len() - i,
{
    if i < 0 || i >= x.len() {
        true
    } else {
        match doc_get(y, x[i].0) {
            Some(w) => vval_eq(x[i].1, w) && doc_eq_from(x, y, i + 1),
            None => false,
        }
    }
}

pub open spec fn vdoc_eq(x: VDoc, y: VDoc) -> bool {
    x.len() == y.len() && doc_eq_from(x, y, 0)
}

pub proof fn lemma_view_array(v: Vec<Value>)
    ensures
        view_value(Value::Array(v)) is Array,
        view_value(Value::Array(v))->Array_0.len() == v@.len(),
        forall|i: int| 0 <= i < v@.len() ==> #[trigger] view_value(Value::Array(v))->Array_0[i] == v@[i]@,
{
}

pub proof fn lemma_view_array_ext(r: Vec<Value>, a: Vec<Value>)
    requires
        r@.len() == a@.len(),
        forall|j: int| 0 <= j < a@.len() ==> #[trigger] r@[j]@ == a@[j]@,
    ensures
        view_value(Value::Array(r)) == view_value(Value::Array(a)),
{
    lemma_view_array(r);
    lemma_view_array(a);
    assert(view_value(Value::Array(r))->Array_0 =~= view_value(Value::Array(a))->Array_0);
}

// ---------------------------------------------------------------------------
// Executable operations.

/// `s == lit`.
pub fn str_is(s: &String, lit: &str) -> (r: bool)
    ensures
        r == (s@ == lit@),
{
    let l = String::from_str(lit);
    *s == l
}

pub fn clone_bytes(b: &Vec<u8>) -> (r: Vec<u8>)
    ensures
        r@ == b@,
{
    let mut r: Vec<u8> = Vec::new();
    let mut i: usize = 0;
    while i < b.len()
        invariant
            i <= b.len(),
            r@ == b@.subrange(0, i as int),
        decreases b.len() - i,
    {
        r.push(b[i]);
        i = i + 1;
    }
    assert(r@ == b@);
    r
}

impl Value {
    /// A deep copy.
    pub fn deep_clone(&self) -> (r: Value)
        ensures
            r@ == self@,
        decreases self,
    {
        match self {
            Value::Null => Value::Null,
            Value::Bool(b) => Value::Bool(*b),
            Value::Int32(i) => Value::Int32(*i),
            Value::Int64(i) => Value::Int64(*i),
            Value::Double(d) => Value::Double(*d),
            Value::Str(s) => Value::Str(s.clone()),
            Value::DateTime(t) => Value::DateTime(*t),
            Value::ObjectId(b) => Value::ObjectId(clone_bytes(b)),
            Value::Binary { subtype, bytes } => Value::Binary { subtype: *subtype, bytes: clone_bytes(bytes) },
            Value::Array(a) => {
                let r = clone_values(a);
                proof { lemma_view_array_ext(r, *a); }
                Value::Array(r)
            },
            Value::Doc(d) => Value::Doc(d.deep_clone()),
            Value::Other { tag, raw } => Value::Other { tag: *tag, raw: clone_bytes(raw) },
        }
    }
}

/// A deep copy of an array's elements.
pub fn clone_values(a: &Vec<Value>) -> (r: Vec<Value>)
    ensures
        r@.len() == a@.len(),
        forall|j: int| 0 <= j < a@.len() ==> #[trigger] r@[j]@ == a@[j]@,
    decreases a,
{
    let mut r: Vec<Value> = Vec::new();
    let mut i: usize = 0;
    while i < a.len()
        invariant
            i <= a.len(),
            r@.len() == i,
            forall|j: int| 0 <= j < i ==> #[trigger] r@[j]@ == a@[j]@,
        decreases a.len() - i,
    {
        proof { assert(decreases_to!(a => a@[i as int])); }
        let c = a[i].deep_clone();
        r.push(c);
        i = i + 1;
    }
    r
}

impl Document {
    pub fn new() -> (r: Document)
        ensures
            r@ == Seq::<(Seq<char>, VVal)>::empty(),
    {
        let d = Document { entries: Vec::new() };
        assert(d@ =~= Seq::<(Seq<char>, VVal)>::empty());
        d
    }

    pub fn len(&self) -> (r: usize)
        ensures
            r == self@.len(),
    {
        self.entries.len()
    }

    /// A deep copy.
    pub fn deep_clone(&self) -> (r: Document)
        ensures
            r@ == self@,
        decreases self,
    {
        let mut r: Vec<Entry> = Vec::new();
        let mut i: usize = 0;
        while i < self.entries.len()
            invariant
                i <= self.entries.len(),
                r@.len() == i,
                forall|j: int|
                    0 <= j < i ==> #[trigger] r@[j].key@ == self.entries@[j].key@ && r@[j].value@
                        == self.entries@[j].value@,
            decreases self.entries.len() - i,
        {
            let e = &self.entries[i];
            let c = Entry { key: e.key.clone(), value: e.value.deep_clone() };
            r.push(c);
            i = i + 1;
        }
        let out = Document { entries: r };
        assert(out@ =~= self@);
        out
    }

    /// Position of the field named `key`.
    pub fn find(&self, key: &String) -> (r: Option<usize>)
        ensures
            match r {
                Some(i) => i as int == key_pos(self@, key@) && i < self.entries@.len()
                    && self.entries@[i as int].key@ == key@,
                None => key_pos(self@, key@) == -1,
            },
    {
        let mut i: usize = 0;
        while i < self.entries.len()
            invariant
                i <= self.entries.len(),
                forall|j: int| 0 <= j < i ==> self@[j].0 != key@,
            decreases self.entries.len() - i,
        {
            if self.entries[i].key == *key {
                proof { lemma_key_pos_at(self@, key@, i as int); }
                return Some(i);
            }
            i = i + 1;
        }
        proof { lemma_key_pos_none(self@, key@); }
        None
    }

    /// `Document::get`.
    pub fn get(&self, key: &String) -> (r: Option<&Value>)
        ensures
            match r {
                Some(v) => doc_get(self@, key@) == Some(v@),
                None => doc_get(self@, key@) is None,
            },
    {
        match self.find(key) {
            Some(i) => Some(&self.entries[i].value),
            None => None,
        }
    }

    /// `Document::get` with a literal name.
    pub fn get_lit(&self, key: &str) -> (r: Option<&Value>)
        ensures
            match r {
                Some(v) => doc_get(self@, key@) == Some(v@),
                None => doc_get(self@, key@) is None,
            },
    {
        let k = String::from_str(key);
        self.get(&k)
    }

    pub fn contains_key(&self, key: &String) -> (r: bool)
        ensures
            r == doc_has(self@, key@),
    {
        self.find(key).is_some()
    }

    /// `Document::insert`.
    pub fn insert(&mut self, key: String, value: Value)
        ensures
            final(self)@ == doc_insert(old(self)@, key@, value@),
    {
        let ghost k = key@;
        let ghost v = value@;
        match self.find(&key) {
            Some(i) => {
                self.entries.set(i, Entry { key, value });
                assert(self@ =~= doc_insert(old(self)@, k, v));
            },
            None => {
                self.entries.push(Entry { key, value });
                assert(self@ =~= doc_insert(old(self)@, k, v));
            },
        }
    }

    /// `Document::insert` with a literal name.
    pub fn insert_lit(&mut self, key: &str, value: Value)
        ensures
            final(self)@ == doc_insert(old(self)@, key@, value@),
    {
        self.insert(String::from_str(key), value);
    }

    /// `Document::remove`.
    pub fn remove(&mut self, key: &String) -> (r: Option<Value>)
        ensures
            final(self)@ == doc_remove(old(self)@, key@),
            match r {
                Some(v) => doc_get(old(self)@, key@) == Some(v@),
                None => doc_get(old(self)@, key@) is None,
            },
    {
        match self.find(key) {
            Some(i) => {
                let e = self.entries.remove(i);
                assert(self@ =~= doc_remove(old(self)@, key@));
                Some(e.value)
            },
            None => None,
        }
    }

    pub fn remove_lit(&mut self, key: &str) -> (r: Option<Value>)
        ensures
            final(self)@ == doc_remove(old(self)@, key@),
    {
        let k = String::from_str(key);
        self.remove(&k)
    }
}

// ---------------------------------------------------------------------------
// Executable equality.

pub fn value_eq(a: &Value, b: &Value) -> (r: bool)
    ensures
        r == vval_eq(a@, b@),
    decreases a, 0int,
{
    match (a, b) {
        (Value::Null, Value::Null) => true,
        (Value::Bool(x), Value::Bool(y)) => *x == *y,
        (Value::Int32(x), Value::Int32(y)) => *x == *y,
        (Value::Int64(x), Value::Int64(y)) => *x == *y,
        (Value::Double(x), Value::Double(y)) => crate::float::float_eq(*x, *y),
        (Value::Str(x), Value::Str(y)) => *x == *y,
        (Value::DateTime(x), Value::DateTime(y)) => *x == *y,
        (Value::ObjectId(x), Value::ObjectId(y)) => bytes_eq(x, y),
        (Value::Binary { subtype: s1, bytes: x }, Value::Binary { subtype: s2, bytes: y }) => *s1 == *s2 && bytes_eq(x, y),
        (Value::Array(x), Value::Array(y)) => {
            proof {
                lemma_view_array(*x);
                lemma_view_array(*y);
            }
            values_eq(x, y)
        },
        (Value::Doc(x), Value::Doc(y)) => doc_eq(x, y),
        (Value::Other { tag: t1, raw: x }, Value::Other { tag: t2, raw: y }) => *t1 == *t2 && bytes_eq(x, y),
        _ => false,
    }
}

/// Element-wise equality of two arrays.
pub fn values_eq(x: &Vec<Value>, y: &Vec<Value>) -> (r: bool)
    ensures
        r == (x@.len() == y@.len() && arr_eq_from(view_value(Value::Array(*x))->Array_0, view_value(Value::Array(*y))->Array_0, 0)),
    decreases x, 1int,
{
    proof {
        lemma_view_array(*x);
        lemma_view_array(*y);
    }
    let ghost vx = view_value(Value::Array(*x))->Array_0;
    let ghost vy = view_value(Value::Array(*y))->Array_0;
    if x.len() != y.len() {
        return false;
    }
    let mut i: usize = 0;
    while i < x.len()
        invariant
            i <= x.len(),
            x.len() == y.len(),
            vx == view_value(Value::Array(*x))->Array_0,
            vy == view_value(Value::Array(*y))->Array_0,
            vx.len() == x@.len(),
            vy.len() == y@.len(),
            forall|j: int| 0 <= j < x@.len() ==> #[trigger] vx[j] == x@[j]@,
            forall|j: int| 0 <= j < y@.len() ==> #[trigger] vy[j] == y@[j]@,
            arr_eq_from(vx, vy, 0) == arr_eq_from(vx, vy, i as int),
        decreases x.len() - i,
    {
        proof { assert(decreases_to!(x => x@[i as int])); }
        let e = value_eq(&x[i], &y[i]);
        assert(vx[i as int] == x@[i as int]@);
        assert(vy[i as int] == y@[i as int]@);
        if !e {
            assert(!vval_eq(vx[i as int], vy[i as int]));
            assert(!arr_eq_from(vx, vy, i as int));
            return false;
        }
        i = i + 1;
    }
    true
}

pub fn doc_eq(a: &Document, b: &Document) -> (r: bool)
    ensures
        r == vdoc_eq(a@, b@),
    decreases a, 1int,
{
    if a.entries.len() != b.entries.len() {
        return false;
    }
    let mut i: usize = 0;
    while i < a.entries.len()
        invariant
            i <= a.entries.len(),
            doc_eq_from(a@, b@, 0) == doc_eq_from(a@, b@, i as int),
        decreases a.entries.len() - i,
    {
        let e = &a.entries[i];
        match b.get(&e.key) {
            Some(w) => {
                if !value_eq(&e.value, w) {
                    return false;
                }
            },
            None => {
                return false;
            },
        }
        i = i + 1;
    }
    true
}

pub fn bytes_eq(x: &Vec<u8>, y: &Vec<u8>) -> (r: bool)
    ensures
        r == (x@ == y@),
{
    if x.len() != y.len() {
        return false;
    }
    let mut i: usize = 0;
    while i < x.len()
        invariant
            i <= x.len(),
            x.len() == y.len(),
            forall|j: int| 0 <= j < i ==> x@[j] == y@[j],
        decreases x.len() - i,
    {
        if x[i] != y[i] {
            return false;
        }
        i = i + 1;
    }
    assert(x@ =~= y@);
    true
}

} // verus!
