use vstd::prelude::*;
use crate::value::{VVal, VDoc, Value, Document, value_eq};

verus! {

// In-memory document storage: named collections, each holding documents
// keyed by id, in insertion order.

pub struct StoredDoc {
    pub id: Value,
    pub doc: Document,
}

pub struct CollectionData {
    pub name: String,
    pub docs: Vec<StoredDoc>,
}

pub struct MemoryStorage {
    pub collections: Vec<CollectionData>,
}

/// The documents of one collection: `(id, document)` pairs.
pub type CollView = Seq<(VVal, VDoc)>;

pub open spec fn docs_view(docs: Seq<StoredDoc>) -> CollView {
    Seq::new(docs.len(), |i: int| (docs[i].id@, docs[i].doc@))
}

/// Index of the first document whose id is `id`, or -1.
pub open spec fn id_pos(c: CollView, id: VVal) -> int
    decreases c.len(),
{
    if c.len() == 0 {
        -1
    } else if c[0].0 == id {
        0
    } else {
        let p = id_pos(c.drop_first(), id);
        if p < 0 { -1 } else { p + 1 }
    }
}

pub open spec fn coll_get(c: CollView, id: VVal) -> Option<VDoc> {
    let p = id_pos(c, id);
    if p >= 0 { Some(c[p].1) } else { None }
}

/// `put`: replaces the document with that id in place, or appends it.
pub open spec fn coll_put(c: CollView, id: VVal, d: VDoc) -> CollView {
    let p = id_pos(c, id);
    if p >= 0 { c.update(p, (id, d)) } else { c.push((id, d)) }
}

/// `delete`: removes the document with that id.
pub open spec fn coll_delete(c: CollView, id: VVal) -> CollView {
    let p = id_pos(c, id);
    if p >= 0 { c.remove(p) } else { c }
}

pub proof fn lemma_id_pos(c: CollView, id: VVal)
    ensures
        -1 <= id_pos(c, id) < c.len(),
        id_pos(c, id) >= 0 ==> c[id_pos(c, id)].0 == id,
        forall|j: int| 0 <= j < id_pos(c, id) ==> c[j].0 != id,
        id_pos(c, id) < 0 ==> forall|j: int| 0 <= j < c.len() ==> c[j].0 != id,
    decreases c.len(),
{
    if c.len() > 0 && c[0].0 != id {
        lemma_id_pos(c.drop_first(), id);
        assert forall|j: int| 0 < j < c.len() implies c[j] == c.drop_first()[j - 1] by {}
    }
}

pub proof fn lemma_id_pos_at(c: CollView, id: VVal, i: int)
    requires
        0 <= i < c.len(),
        c[i].0 == id,
        forall|j: int| 0 <= j < i ==> c[j].0 != id,
    ensures
        id_pos(c, id) == i,
{
    lemma_id_pos(c, id);
}

pub proof fn lemma_id_pos_none(c: CollView, id: VVal)
    requires
        forall|j: int| 0 <= j < c.len() ==> c[j].0 != id,
    ensures
        id_pos(c, id) == -1,
{
    lemma_id_pos(c, id);
}

/// Identity of ids: the same value, bit for bit.
pub fn same_id(a: &Value, b: &Value) -> (r: bool)
    ensures
        r == (a@ == b@),
    decreases a,
{
    same_value(a, b)
}

/// Structural identity of two values.
pub fn same_value(a: &Value, b: &Value) -> (r: bool)
    ensures
        r == (a@ == b@),
    decreases a, 0int,
{
    match (a, b) {
        (Value::Null, Value::Null) => true,
        (Value::Bool(x), Value::Bool(y)) => *x == *y,
        (Value::Int32(x), Value::Int32(y)) => *x == *y,
        (Value::Int64(x), Value::Int64(y)) => *x == *y,
        (Value::Double(x), Value::Double(y)) => *x == *y,
        (Value::Str(x), Value::Str(y)) => *x == *y,
        (Value::DateTime(x), Value::DateTime(y)) => *x == *y,
        (Value::ObjectId(x), Value::ObjectId(y)) => crate::value::bytes_eq(x, y),
        (Value::Binary { subtype: s1, bytes: x }, Value::Binary { subtype: s2, bytes: y }) => *s1 == *s2 && crate::value::bytes_eq(x, y),
        (Value::Array(x), Value::Array(y)) => {
            proof {
                crate::value::lemma_view_array(*x);
                crate::value::lemma_view_array(*y);
            }
            let r = same_values(x, y);
            proof {
                let vx = crate::value::view_value(Value::Array(*x))->Array_0;
                let vy = crate::value::view_value(Value::Array(*y))->Array_0;
                if r {
                    assert(vx =~= vy);
                } else if vx == vy {
                    assert(x@.len() == y@.len());
                    assert forall|j: int| 0 <= j < x@.len() implies #[trigger] x@[j]@ == y@[j]@ by {
                        assert(vx[j] == vy[j]);
                    }
                }
            }
            r
        },
        (Value::Doc(x), Value::Doc(y)) => {
            let r = same_doc(x, y);
            r
        },
        (Value::Other { tag: t1, raw: x }, Value::Other { tag: t2, raw: y }) => *t1 == *t2 && crate::value::bytes_eq(x, y),
        _ => false,
    }
}

fn same_values(x: &Vec<Value>, y: &Vec<Value>) -> (r: bool)
    ensures
        r == (x@.len() == y@.len() && forall|j: int| 0 <= j < x@.len() ==> #[trigger] x@[j]@ == y@[j]@),
    decreases x, 1int,
{
    if x.len() != y.len() {
        return false;
    }
    let mut i: usize = 0;
    while i < x.len()
        invariant
            i <= x.len(),
            x.len() == y.len(),
            forall|j: int| 0 <= j < i ==> #[trigger] x@[j]@ == y@[j]@,
        decreases x.len() - i,
    {
        proof { assert(decreases_to!(x => x@[i as int])); }
        if !same_value(&x[i], &y[i]) {
            return false;
        }
        i = i + 1;
    }
    true
}

fn same_doc(x: &Document, y: &Document) -> (r: bool)
    ensures
        r == (x@ == y@),
    decreases x, 1int,
{
    if x.entries.len() != y.entries.len() {
        assert(x@.len() != y@.len());
        return false;
    }
    let mut i: usize = 0;
    while i < x.entries.len()
        invariant
            i <= x.entries.len(),
            x.entries.len() == y.entries.len(),
            forall|j: int| 0 <= j < i ==> #[trigger] x@[j] == y@[j],
        decreases x.entries.len() - i,
    {
        proof { assert(decreases_to!(x => x.entries@[i as int].value)); }
        let a = &x.entries[i];
        let b = &y.entries[i];
        assert(x@[i as int] == (a.key@, a.value@));
        assert(y@[i as int] == (b.key@, b.value@));
        if !(a.key == b.key) {
            assert(x@[i as int] != y@[i as int]);
            return false;
        }
        if !same_value(&a.value, &b.value) {
            assert(x@[i as int] != y@[i as int]);
            return false;
        }
        i = i + 1;
    }
    assert(x@ =~= y@);
    true
}

impl MemoryStorage {
    /// The documents of collection `name` (empty when it has none).
    pub open spec fn coll(&self, name: Seq<char>) -> CollView {
        let p = coll_index(self.collections@, name);
        if p >= 0 { docs_view(self.collections@[p].docs@) } else { Seq::empty() }
    }

    pub fn new() -> (r: MemoryStorage)
        ensures
            forall|n: Seq<char>| r.coll(n) == Seq::<(VVal, VDoc)>::empty(),
    {
        MemoryStorage { collections: Vec::new() }
    }

    fn find_collection(&self, name: &String) -> (r: Option<usize>)
        ensures
            match r {
                Some(i) => i < self.collections@.len() && i as int == coll_index(self.collections@, name@),
                None => coll_index(self.collections@, name@) == -1,
            },
    {
        let mut i: usize = 0;
        while i < self.collections.len()
            invariant
                i <= self.collections.len(),
                forall|j: int| 0 <= j < i ==> self.collections@[j].name@ != name@,
            decreases self.collections.len() - i,
        {
            if self.collections[i].name == *name {
                proof { lemma_coll_index_at(self.collections@, name@, i as int); }
                return Some(i);
            }
            i = i + 1;
        }
        proof { lemma_coll_index_none(self.collections@, name@); }
        None
    }

    fn find_doc(docs: &Vec<StoredDoc>, id: &Value) -> (r: Option<usize>)
        ensures
            match r {
                Some(i) => i < docs@.len() && i as int == id_pos(docs_view(docs@), id@),
                None => id_pos(docs_view(docs@), id@) == -1,
            },
    {
        let ghost c = docs_view(docs@);
        let mut i: usize = 0;
        while i < docs.len()
            invariant
                i <= docs.len(),
                c == docs_view(docs@),
                forall|j: int| 0 <= j < i ==> c[j].0 != id@,
            decreases docs.len() - i,
        {
            if same_id(&docs[i].id, id) {
                proof { lemma_id_pos_at(c, id@, i as int); }
                return Some(i);
            }
            i = i + 1;
        }
        proof { lemma_id_pos_none(c, id@); }
        None
    }

    /// The document stored under `id`.
    pub fn get(&self, name: &String, id: &Value) -> (r: Option<&Document>)
        ensures
            match r {
                Some(d) => coll_get(self.coll(name@), id@) == Some(d@),
                None => coll_get(self.coll(name@), id@) is None,
            },
    {
        match self.find_collection(name) {
            Some(ci) => {
                let docs = &self.collections[ci].docs;
                match Self::find_doc(docs, id) {
                    Some(di) => Some(&docs[di].doc),
                    None => None,
                }
            },
            None => None,
        }
    }

    /// Stores `doc` under `id`.
    pub fn put(&mut self, name: &String, id: Value, doc: Document)
        ensures
            final(self).coll(name@) == coll_put(old(self).coll(name@), id@, doc@),
            forall|n: Seq<char>| n != name@ ==> final(self).coll(n) == old(self).coll(n),
    {
        let ghost idv = id@;
        let ghost dv = doc@;
        match self.find_collection(name) {
            Some(ci) => {
                let ghost old_cs = self.collections@;
                proof { lemma_coll_index(self.collections@, name@); }
                let mut coll = self.collections.remove(ci);
                let ghost before = docs_view(coll.docs@);
                let ghost cname = coll.name@;
                match Self::find_doc(&coll.docs, &id) {
                    Some(di) => {
                        coll.docs.set(di, StoredDoc { id, doc });
                        assert(docs_view(coll.docs@) =~= coll_put(before, idv, dv));
                    },
                    None => {
                        coll.docs.push(StoredDoc { id, doc });
                        assert(docs_view(coll.docs@) =~= coll_put(before, idv, dv));
                    },
                }
                self.collections.insert(ci, coll);
                assert(self.collections@ =~= old_cs.update(ci as int, self.collections@[ci as int]));
                assert(self.collections@[ci as int].name@ == cname);
                proof { lemma_replace_collection(old(self).collections@, self.collections@, ci as int, name@); }
            },
            None => {
                let mut docs: Vec<StoredDoc> = Vec::new();
                docs.push(StoredDoc { id, doc });
                assert(docs_view(docs@) =~= coll_put(Seq::empty(), idv, dv));
                self.collections.push(CollectionData { name: name.clone(), docs });
                proof { lemma_append_collection(old(self).collections@, self.collections@, name@); }
            },
        }
    }

    /// Removes the document stored under `id`.
    pub fn delete(&mut self, name: &String, id: &Value) -> (r: bool)
        ensures
            final(self).coll(name@) == coll_delete(old(self).coll(name@), id@),
            forall|n: Seq<char>| n != name@ ==> final(self).coll(n) == old(self).coll(n),
            r == (coll_get(old(self).coll(name@), id@) is Some),
    {
        match self.find_collection(name) {
            Some(ci) => {
                let ghost old_cs = self.collections@;
                proof { lemma_coll_index(self.collections@, name@); }
                let mut coll = self.collections.remove(ci);
                let ghost before = docs_view(coll.docs@);
                let ghost cname = coll.name@;
                let found = match Self::find_doc(&coll.docs, id) {
                    Some(di) => {
                        coll.docs.remove(di);
                        assert(docs_view(coll.docs@) =~= coll_delete(before, id@));
                        true
                    },
                    None => false,
                };
                self.collections.insert(ci, coll);
                assert(self.collections@ =~= old_cs.update(ci as int, self.collections@[ci as int]));
                assert(self.collections@[ci as int].name@ == cname);
                proof {
                    lemma_replace_collection(old(self).collections@, self.collections@, ci as int, name@);
                    lemma_id_pos(before, id@);
                }
                found
            },
            None => {
                assert(self.coll(name@) =~= coll_delete(old(self).coll(name@), id@));
                false
            },
        }
    }

    /// Copies of the documents of a collection, in storage order.
    pub fn scan(&self, name: &String) -> (r: Vec<Document>)
        ensures
            r@.len() == self.coll(name@).len(),
            forall|j: int| 0 <= j < r@.len() ==> #[trigger] r@[j]@ == self.coll(name@)[j].1,
    {
        let mut out: Vec<Document> = Vec::new();
        match self.find_collection(name) {
            Some(ci) => {
                let docs = &self.collections[ci].docs;
                let mut i: usize = 0;
                while i < docs.len()
                    invariant
                        i <= docs.len(),
                        docs == &self.collections@[ci as int].docs,
                        ci as int == coll_index(self.collections@, name@),
                        out@.len() == i,
                        forall|j: int| 0 <= j < i ==> #[trigger] out@[j]@ == docs@[j].doc@,
                    decreases docs.len() - i,
                {
                    out.push(docs[i].doc.deep_clone());
                    i = i + 1;
                }
            },
            None => {},
        }
        out
    }
}

/// Index of the first collection named `name`, or -1.
pub open spec fn coll_index(cs: Seq<CollectionData>, name: Seq<char>) -> int
    decreases cs.len(),
{
    if cs.len() == 0 {
        -1
    } else if cs[0].name@ == name {
        0
    } else {
        let p = coll_index(cs.drop_first(), name);
        if p < 0 { -1 } else { p + 1 }
    }
}

proof fn lemma_coll_index(cs: Seq<CollectionData>, name: Seq<char>)
    ensures
        -1 <= coll_index(cs, name) < cs.len(),
        coll_index(cs, name) >= 0 ==> cs[coll_index(cs, name)].name@ == name,
        forall|j: int| 0 <= j < coll_index(cs, name) ==> cs[j].name@ != name,
        coll_index(cs, name) < 0 ==> forall|j: int| 0 <= j < cs.len() ==> cs[j].name@ != name,
    decreases cs.len(),
{
    if cs.len() > 0 && cs[0].name@ != name {
        lemma_coll_index(cs.drop_first(), name);
        assert forall|j: int| 0 < j < cs.len() implies cs[j] == cs.drop_first()[j - 1] by {}
    }
}

proof fn lemma_coll_index_at(cs: Seq<CollectionData>, name: Seq<char>, i: int)
    requires
        0 <= i < cs.len(),
        cs[i].name@ == name,
        forall|j: int| 0 <= j < i ==> cs[j].name@ != name,
    ensures
        coll_index(cs, name) == i,
{
    lemma_coll_index(cs, name);
}

proof fn lemma_coll_index_none(cs: Seq<CollectionData>, name: Seq<char>)
    requires
        forall|j: int| 0 <= j < cs.len() ==> cs[j].name@ != name,
    ensures
        coll_index(cs, name) == -1,
{
    lemma_coll_index(cs, name);
}

/// Replacing the collection at `ci` (the first named `name`) by one with the
/// same name changes no other collection's documents.
proof fn lemma_replace_collection(a: Seq<CollectionData>, b: Seq<CollectionData>, ci: int, name: Seq<char>)
    requires
        0 <= ci < a.len(),
        a.len() == b.len(),
        coll_index(a, name) == ci,
        b[ci].name@ == name,
        forall|j: int| 0 <= j < a.len() && j != ci ==> b[j] == a[j],
    ensures
        coll_index(b, name) == ci,
        forall|n: Seq<char>| n != name ==> coll_index(b, n) == coll_index(a, n),
        forall|n: Seq<char>| n != name && coll_index(a, n) >= 0 ==> b[coll_index(a, n)] == a[coll_index(a, n)],
{
    lemma_coll_index(a, name);
    lemma_coll_index_at(b, name, ci);
    assert forall|n: Seq<char>| n != name implies coll_index(b, n) == coll_index(a, n)
        && (coll_index(a, n) >= 0 ==> b[coll_index(a, n)] == a[coll_index(a, n)]) by {
        lemma_coll_index(a, n);
        let p = coll_index(a, n);
        if p >= 0 {
            assert(p != ci);
            assert forall|j: int| 0 <= j < p implies b[j].name@ != n by {
                if j != ci { assert(b[j] == a[j]); }
            }
            lemma_coll_index_at(b, n, p);
        } else {
            assert forall|j: int| 0 <= j < b.len() implies b[j].name@ != n by {
                if j != ci { assert(b[j] == a[j]); }
            }
            lemma_coll_index_none(b, n);
        }
    }
}

proof fn lemma_append_collection(a: Seq<CollectionData>, b: Seq<CollectionData>, name: Seq<char>)
    requires
        coll_index(a, name) == -1,
        b.len() == a.len() + 1,
        b[a.len() as int].name@ == name,
        forall|j: int| 0 <= j < a.len() ==> b[j] == a[j],
    ensures
        coll_index(b, name) == a.len(),
        forall|n: Seq<char>| n != name ==> coll_index(b, n) == coll_index(a, n),
        forall|n: Seq<char>| n != name && coll_index(a, n) >= 0 ==> b[coll_index(a, n)] == a[coll_index(a, n)],
{
    lemma_coll_index(a, name);
    lemma_coll_index_at(b, name, a.len() as int);
    assert forall|n: Seq<char>| n != name implies coll_index(b, n) == coll_index(a, n)
        && (coll_index(a, n) >= 0 ==> b[coll_index(a, n)] == a[coll_index(a, n)]) by {
        lemma_coll_index(a, n);
        let p = coll_index(a, n);
        if p >= 0 {
            lemma_coll_index_at(b, n, p);
        } else {
            lemma_coll_index_none(b, n);
        }
    }
}

} // verus!
