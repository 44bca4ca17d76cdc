use vstd::prelude::*;
use crate::types::RangoError;
use crate::value::{VVal, VDoc, Value, Document, doc_get};
use crate::engine::{CollectionName, DocumentId};
use crate::text::string_append;

verus! {

// Secondary indexes kept in memory: for each indexed (collection, field),
// the ids of the documents under each key value, in the order they were
// indexed.

/// What an index orders by: integers (32-bit ones widened), strings, and
/// null (which a missing field also gives).
pub enum IndexKey {
    Null,
    Int64(i64),
    Str(String),
}

pub enum VKey {
    Null,
    Int64(i64),
    Str(Seq<char>),
}

impl View for IndexKey {
    type V = VKey;

    open spec fn view(&self) -> VKey {
        match self {
            IndexKey::Null => VKey::Null,
            IndexKey::Int64(i) => VKey::Int64(*i),
            IndexKey::Str(s) => VKey::Str(s@),
        }
    }
}

/// The key a value is indexed under; `None` for a type that is not indexed.
pub open spec fn key_of_value(v: Option<VVal>) -> Option<VKey> {
    match v {
        Some(VVal::Int32(i)) => Some(VKey::Int64(i as i64)),
        Some(VVal::Int64(i)) => Some(VKey::Int64(i)),
        Some(VVal::Str(s)) => Some(VKey::Str(s)),
        Some(VVal::Null) | None => Some(VKey::Null),
        _ => None,
    }
}

/// Which fields an index covers.
pub struct IndexDefinition {
    pub fields: Vec<String>,
}

pub struct IndexTree {
    collection: String,
    field: String,
    keys: Vec<IndexKey>,
    ids: Vec<Vec<DocumentId>>,
}

/// The view of one index: its collection, its field, and its keys with the
/// ids under each.
pub type TreeView = (Seq<char>, Seq<char>, Seq<VKey>, Seq<Seq<VVal>>);

/// Position of the first key equal to `k` from `i`, or -1.
pub open spec fn first_key(keys: Seq<VKey>, k: VKey, i: int) -> int
    decreases keys.len() - i,
{
    if i < 0 || i >= keys.len() {
        -1
    } else if keys[i] == k {
        i
    } else {
        first_key(keys, k, i + 1)
    }
}

/// Position of the index on (`c`, `f`) from `i`, or -1.
pub open spec fn first_tree(ts: Seq<TreeView>, c: Seq<char>, f: Seq<char>, i: int) -> int
    decreases ts.len() - i,
{
    if i < 0 || i >= ts.len() {
        -1
    } else if ts[i].0 == c && ts[i].1 == f {
        i
    } else {
        first_tree(ts, c, f, i + 1)
    }
}

pub open spec fn has_index(ts: Seq<TreeView>, c: Seq<char>, f: Seq<char>) -> bool {
    first_tree(ts, c, f, 0) >= 0
}

/// The ids under key `k` in one index: none when the key is absent.
pub open spec fn tree_ids(t: TreeView, k: VKey) -> Seq<VVal> {
    let p = first_key(t.2, k, 0);
    if p < 0 || p >= t.3.len() { Seq::empty() } else { t.3[p] }
}

/// The ids under key `k` of the index on (`c`, `f`): none when there is no
/// such index or key.
pub open spec fn indexed_ids(ts: Seq<TreeView>, c: Seq<char>, f: Seq<char>, k: VKey) -> Seq<VVal> {
    let t = first_tree(ts, c, f, 0);
    if t < 0 { Seq::empty() } else { tree_ids(ts[t], k) }
}

pub open spec fn id_views(v: Seq<DocumentId>) -> Seq<VVal> {
    v.map_values(|d: DocumentId| d.0@)
}

proof fn lemma_first_key_range(keys: Seq<VKey>, k: VKey, i: int)
    requires
        0 <= i,
    ensures
        first_key(keys, k, i) == -1 || (i <= first_key(keys, k, i) < keys.len() && keys[first_key(keys, k, i)] == k),
        first_key(keys, k, i) == -1 ==> forall|j: int| i <= j < keys.len() ==> keys[j] != k,
        forall|j: int| i <= j < first_key(keys, k, i) ==> keys[j] != k,
    decreases keys.len() - i,
{
    if i < keys.len() && keys[i] != k {
        lemma_first_key_range(keys, k, i + 1);
    }
}

proof fn lemma_first_tree_range(ts: Seq<TreeView>, c: Seq<char>, f: Seq<char>, i: int)
    requires
        0 <= i,
    ensures
        first_tree(ts, c, f, i) == -1 || (i <= first_tree(ts, c, f, i) < ts.len() && ts[first_tree(ts, c, f, i)].0 == c
            && ts[first_tree(ts, c, f, i)].1 == f),
        first_tree(ts, c, f, i) == -1 ==> forall|j: int| i <= j < ts.len() ==> !(ts[j].0 == c && ts[j].1 == f),
        forall|j: int| i <= j < first_tree(ts, c, f, i) ==> !(ts[j].0 == c && ts[j].1 == f),
    decreases ts.len() - i,
{
    if i < ts.len() && !(ts[i].0 == c && ts[i].1 == f) {
        lemma_first_tree_range(ts, c, f, i + 1);
    }
}

/// The first position is the position of any match before which none is.
proof fn lemma_first_tree_is(ts: Seq<TreeView>, c: Seq<char>, f: Seq<char>, p: int)
    requires
        0 <= p < ts.len(),
        ts[p].0 == c && ts[p].1 == f,
        forall|j: int| 0 <= j < p ==> !(ts[j].0 == c && ts[j].1 == f),
    ensures
        first_tree(ts, c, f, 0) == p,
{
    lemma_first_tree_range(ts, c, f, 0);
}

proof fn lemma_first_key_is(keys: Seq<VKey>, k: VKey, p: int)
    requires
        0 <= p < keys.len(),
        keys[p] == k,
        forall|j: int| 0 <= j < p ==> keys[j] != k,
    ensures
        first_key(keys, k, 0) == p,
{
    lemma_first_key_range(keys, k, 0);
}

pub closed spec fn tree_view(t: IndexTree) -> TreeView {
    (t.collection@, t.field@, t.keys@.map_values(|k: IndexKey| k@), t.ids@.map_values(|v: Vec<DocumentId>| id_views(v@)))
}

/// Equal names at each position give the same first match.
proof fn lemma_first_tree_names(a: Seq<TreeView>, b: Seq<TreeView>, c: Seq<char>, f: Seq<char>, i: int)
    requires
        0 <= i,
        a.len() == b.len(),
        forall|j: int| 0 <= j < a.len() ==> #[trigger] a[j].0 == b[j].0 && a[j].1 == b[j].1,
    ensures
        first_tree(a, c, f, i) == first_tree(b, c, f, i),
    decreases a.len() - i,
{
    if i < a.len() {
        lemma_first_tree_names(a, b, c, f, i + 1);
    }
}

/// Looking up after a push.
proof fn lemma_first_tree_push(ts: Seq<TreeView>, t: TreeView, c: Seq<char>, f: Seq<char>, i: int)
    requires
        0 <= i <= ts.len(),
    ensures
        first_tree(ts.push(t), c, f, i) == if first_tree(ts, c, f, i) >= 0 {
            first_tree(ts, c, f, i)
        } else if t.0 == c && t.1 == f {
            ts.len() as int
        } else {
            -1
        },
    decreases ts.len() - i,
{
    if i < ts.len() {
        assert(ts.push(t)[i] == ts[i]);
        lemma_first_tree_push(ts, t, c, f, i + 1);
    } else {
        assert(ts.push(t)[i] == t);
        assert(first_tree(ts.push(t), c, f, i + 1) == -1);
    }
}

/// In-memory secondary indexes.
pub struct IndexManager {
    trees: Vec<IndexTree>,
}

impl View for IndexManager {
    type V = Seq<TreeView>;

    closed spec fn view(&self) -> Seq<TreeView> {
        self.trees@.map_values(|t: IndexTree| tree_view(t))
    }
}

impl IndexManager {
    /// No (collection, field) is indexed twice, and every key has its ids.
    pub closed spec fn wf(&self) -> bool {
        &&& forall|i: int, j: int| 0 <= i < j < self.trees@.len() ==>
            !(self.trees@[i].collection@ == self.trees@[j].collection@ && self.trees@[i].field@ == self.trees@[j].field@)
        &&& forall|i: int| 0 <= i < self.trees@.len() ==> #[trigger] self.trees@[i].keys@.len() == self.trees@[i].ids@.len()
    }

    pub fn new() -> (r: IndexManager)
        ensures
            r.wf(),
            r@.len() == 0,
    {
        let r = IndexManager { trees: Vec::new() };
        assert(r@ =~= Seq::<TreeView>::empty());
        r
    }

    fn find_tree(&self, c: &String, f: &String) -> (r: Option<usize>)
        ensures
            match r {
                Some(i) => i as int == first_tree(self@, c@, f@, 0) && i < self.trees@.len(),
                None => first_tree(self@, c@, f@, 0) == -1,
            },
    {
        let ghost v = self@;
        proof { lemma_first_tree_range(v, c@, f@, 0); }
        let mut i: usize = 0;
        while i < self.trees.len()
            invariant
                i <= self.trees@.len() == v.len(),
                v == self@,
                forall|j: int| 0 <= j < i ==> !(v[j].0 == c@ && v[j].1 == f@),
            decreases self.trees@.len() - i,
        {
            assert(v[i as int] == tree_view(self.trees@[i as int]));
            if self.trees[i].collection == *c && self.trees[i].field == *f {
                proof { lemma_first_tree_is(v, c@, f@, i as int); }
                return Some(i);
            }
            i = i + 1;
        }
        proof {
            if first_tree(v, c@, f@, 0) >= 0 {
                let p = first_tree(v, c@, f@, 0);
                assert(!(v[p].0 == c@ && v[p].1 == f@));
            }
        }
        None
    }
}


proof fn lemma_first_key_push(keys: Seq<VKey>, x: VKey, k: VKey, i: int)
    requires
        0 <= i <= keys.len(),
    ensures
        first_key(keys.push(x), k, i) == if first_key(keys, k, i) >= 0 {
            first_key(keys, k, i)
        } else if x == k {
            keys.len() as int
        } else {
            -1
        },
    decreases keys.len() - i,
{
    if i < keys.len() {
        assert(keys.push(x)[i] == keys[i]);
        lemma_first_key_push(keys, x, k, i + 1);
    } else {
        assert(keys.push(x)[i] == x);
        assert(first_key(keys.push(x), k, i + 1) == -1);
    }
}

/// Removing an index leaves every other lookup where it was (shifted past
/// the removed position).
proof fn lemma_first_tree_remove(ts: Seq<TreeView>, i: int, c: Seq<char>, f: Seq<char>)
    requires
        0 <= i < ts.len(),
        !(ts[i].0 == c && ts[i].1 == f),
    ensures
        first_tree(ts.remove(i), c, f, 0) == {
            let q = first_tree(ts, c, f, 0);
            if q < 0 { -1 } else if q < i { q } else { q - 1 }
        },
{
    let rem = ts.remove(i);
    let q = first_tree(ts, c, f, 0);
    lemma_first_tree_range(ts, c, f, 0);
    lemma_first_tree_range(rem, c, f, 0);
    let r = first_tree(rem, c, f, 0);
    if q < 0 {
        if r >= 0 {
            if r < i {
                assert(rem[r] == ts[r]);
            } else {
                assert(rem[r] == ts[r + 1]);
            }
        }
    } else if q < i {
        assert(rem[q] == ts[q]);
        assert forall|j: int| 0 <= j < q implies !(rem[j].0 == c && rem[j].1 == f) by {
            assert(rem[j] == ts[j]);
        }
        lemma_first_tree_is(rem, c, f, q);
    } else {
        assert(q != i);
        assert(rem[q - 1] == ts[q]);
        assert forall|j: int| 0 <= j < q - 1 implies !(rem[j].0 == c && rem[j].1 == f) by {
            if j < i {
                assert(rem[j] == ts[j]);
            } else {
                assert(rem[j] == ts[j + 1]);
            }
        }
        lemma_first_tree_is(rem, c, f, q - 1);
    }
}

fn key_eq(a: &IndexKey, b: &IndexKey) -> (r: bool)
    ensures
        r == (a@ == b@),
{
    match (a, b) {
        (IndexKey::Null, IndexKey::Null) => true,
        (IndexKey::Int64(x), IndexKey::Int64(y)) => *x == *y,
        (IndexKey::Str(x), IndexKey::Str(y)) => *x == *y,
        _ => false,
    }
}

fn find_key(keys: &Vec<IndexKey>, k: &IndexKey) -> (r: Option<usize>)
    ensures
        match r {
            Some(p) => p as int == first_key(keys@.map_values(|x: IndexKey| x@), k@, 0) && p < keys@.len(),
            None => first_key(keys@.map_values(|x: IndexKey| x@), k@, 0) == -1,
        },
{
    let ghost kv = keys@.map_values(|x: IndexKey| x@);
    proof { lemma_first_key_range(kv, k@, 0); }
    let mut i: usize = 0;
    while i < keys.len()
        invariant
            i <= keys@.len() == kv.len(),
            kv == keys@.map_values(|x: IndexKey| x@),
            forall|j: int| 0 <= j < i ==> kv[j] != k@,
        decreases keys@.len() - i,
    {
        if key_eq(&keys[i], k) {
            proof { lemma_first_key_is(kv, k@, i as int); }
            return Some(i);
        }
        i = i + 1;
    }
    proof {
        if first_key(kv, k@, 0) >= 0 {
            let p = first_key(kv, k@, 0);
            assert(kv[p] != k@);
        }
    }
    None
}

/// The key a field's value is indexed under.
fn key_from(v: Option<&Value>) -> (r: Option<IndexKey>)
    ensures
        match r {
            Some(k) => key_of_value(match v { Some(x) => Some(x@), None => None }) == Some(k@),
            None => key_of_value(match v { Some(x) => Some(x@), None => None }) is None,
        },
{
    match v {
        Some(Value::Int32(i)) => Some(IndexKey::Int64(*i as i64)),
        Some(Value::Int64(i)) => Some(IndexKey::Int64(*i)),
        Some(Value::Str(s)) => Some(IndexKey::Str(s.clone())),
        Some(Value::Null) => Some(IndexKey::Null),
        None => Some(IndexKey::Null),
        _ => None,
    }
}

fn clone_key(k: &IndexKey) -> (r: IndexKey)
    ensures
        r@ == k@,
{
    match k {
        IndexKey::Null => IndexKey::Null,
        IndexKey::Int64(i) => IndexKey::Int64(*i),
        IndexKey::Str(s) => IndexKey::Str(s.clone()),
    }
}

fn clone_ids(v: &Vec<DocumentId>) -> (r: Vec<DocumentId>)
    ensures
        id_views(r@) == id_views(v@),
{
    let mut out: Vec<DocumentId> = Vec::new();
    let mut i: usize = 0;
    while i < v.len()
        invariant
            i <= v@.len(),
            id_views(out@) == id_views(v@.subrange(0, i as int)),
        decreases v@.len() - i,
    {
        out.push(DocumentId(v[i].0.deep_clone()));
        assert(id_views(v@.subrange(0, i as int + 1)) =~= id_views(v@.subrange(0, i as int)).push(v@[i as int].0@));
        assert(id_views(out@) =~= id_views(v@.subrange(0, i as int)).push(v@[i as int].0@));
        i = i + 1;
    }
    assert(v@.subrange(0, v@.len() as int) =~= v@);
    out
}

/// Every lookup but those on (`c`, `f`) is as it was.
pub open spec fn others_unchanged(a: Seq<TreeView>, b: Seq<TreeView>, c: Seq<char>, f: Seq<char>) -> bool {
    &&& forall|c2: Seq<char>, f2: Seq<char>| !(c2 == c && f2 == f) ==> #[trigger] has_index(b, c2, f2) == has_index(a, c2, f2)
    &&& forall|c2: Seq<char>, f2: Seq<char>, k: VKey| !(c2 == c && f2 == f)
        ==> #[trigger] indexed_ids(b, c2, f2, k) == indexed_ids(a, c2, f2, k)
}

/// The ids an index lookup gives for a value.
pub open spec fn lookup_ids(ts: Seq<TreeView>, c: Seq<char>, f: Seq<char>, v: VVal) -> Seq<VVal> {
    match key_of_value(Some(v)) {
        Some(k) => indexed_ids(ts, c, f, k),
        None => Seq::empty(),
    }
}

/// What indexing a document with id `id` does to the lookup on
/// (`c2`, `f2`, `k`).
pub open spec fn after_indexing(old_ids: Seq<VVal>, has: bool, c: Seq<char>, d: VDoc, id: VVal, c2: Seq<char>, f2: Seq<char>, k: VKey) -> Seq<VVal> {
    if c2 == c && has && key_of_value(doc_get(d, f2)) == Some(k) { old_ids.push(id) } else { old_ids }
}

impl IndexManager {
    /// Creates an index on one field (emptying one that exists); compound
    /// indexes are refused.
    pub fn create_index(&mut self, collection: &CollectionName, def: &IndexDefinition) -> (r: Result<(), RangoError>)
        requires
            old(self).wf(),
        ensures
            final(self).wf(),
            def.fields@.len() != 1 ==> final(self)@ == old(self)@ && (r matches Err(RangoError::InvalidQueryOperator(m))
                && m@ == "Compound indexes not yet supported"@),
            def.fields@.len() == 1 ==> {
                &&& r is Ok
                &&& has_index(final(self)@, collection.0@, def.fields@[0]@)
                &&& forall|k: VKey| #[trigger] indexed_ids(final(self)@, collection.0@, def.fields@[0]@, k).len() == 0
                &&& others_unchanged(old(self)@, final(self)@, collection.0@, def.fields@[0]@)
            },
    {
        if def.fields.len() != 1 {
            return Err(RangoError::InvalidQueryOperator(String::from_str("Compound indexes not yet supported")));
        }
        let field = def.fields[0].clone();
        let ghost ts = self@;
        let ghost c = collection.0@;
        let ghost f = field@;
        let t = IndexTree { collection: collection.0.clone(), field: field.clone(), keys: Vec::new(), ids: Vec::new() };
        let ghost tv = tree_view(t);
        assert(tv.2 =~= Seq::<VKey>::empty());
        match self.find_tree(&collection.0, &field) {
            Some(i) => {
                self.trees.set(i, t);
                proof {
                    lemma_first_tree_range(ts, c, f, 0);
                    assert(self@ =~= ts.update(i as int, tv));
                    assert forall|c2: Seq<char>, f2: Seq<char>| #[trigger] first_tree(self@, c2, f2, 0) == first_tree(ts, c2, f2, 0) by {
                        lemma_first_tree_names(ts, self@, c2, f2, 0);
                    }
                    assert forall|c2: Seq<char>, f2: Seq<char>| !(c2 == c && f2 == f) implies
                        #[trigger] has_index(self@, c2, f2) == has_index(ts, c2, f2) by {
                        assert(first_tree(self@, c2, f2, 0) == first_tree(ts, c2, f2, 0));
                        lemma_first_tree_range(ts, c2, f2, 0);
                        let q = first_tree(ts, c2, f2, 0);
                        if q >= 0 {
                            assert(q != i);
                        }
                    }
                    assert forall|c2: Seq<char>, f2: Seq<char>, k: VKey| !(c2 == c && f2 == f) implies
                        #[trigger] indexed_ids(self@, c2, f2, k) == indexed_ids(ts, c2, f2, k) by {
                        assert(first_tree(self@, c2, f2, 0) == first_tree(ts, c2, f2, 0));
                        lemma_first_tree_range(ts, c2, f2, 0);
                        let q = first_tree(ts, c2, f2, 0);
                        if q >= 0 {
                            assert(q != i);
                        }
                    }
                    assert forall|k: VKey| #[trigger] indexed_ids(self@, c, f, k).len() == 0 by {
                        assert(first_tree(self@, c, f, 0) == i);
                        assert(first_key(tv.2, k, 0) == -1);
                    }
                    assert forall|a: int, b: int| 0 <= a < b < self.trees@.len() implies
                        !(self.trees@[a].collection@ == self.trees@[b].collection@ && self.trees@[a].field@ == self.trees@[b].field@) by {
                        assert(self@[a].0 == ts[a].0 && self@[a].1 == ts[a].1);
                        assert(self@[b].0 == ts[b].0 && self@[b].1 == ts[b].1);
                    }
                }
            },
            None => {
                self.trees.push(t);
                proof {
                    lemma_first_tree_range(ts, c, f, 0);
                    assert(self@ =~= ts.push(tv));
                    assert forall|c2: Seq<char>, f2: Seq<char>| !(c2 == c && f2 == f) implies
                        #[trigger] has_index(self@, c2, f2) == has_index(ts, c2, f2) by {
                        lemma_first_tree_push(ts, tv, c2, f2, 0);
                        lemma_first_tree_range(ts, c2, f2, 0);
                    }
                    assert forall|c2: Seq<char>, f2: Seq<char>, k: VKey| !(c2 == c && f2 == f) implies
                        #[trigger] indexed_ids(self@, c2, f2, k) == indexed_ids(ts, c2, f2, k) by {
                        lemma_first_tree_push(ts, tv, c2, f2, 0);
                        lemma_first_tree_range(ts, c2, f2, 0);
                    }
                    lemma_first_tree_push(ts, tv, c, f, 0);
                    assert forall|k: VKey| #[trigger] indexed_ids(self@, c, f, k).len() == 0 by {
                        assert(first_key(tv.2, k, 0) == -1);
                    }
                    assert forall|a: int, b: int| 0 <= a < b < self.trees@.len() implies
                        !(self.trees@[a].collection@ == self.trees@[b].collection@ && self.trees@[a].field@ == self.trees@[b].field@) by {
                        assert(self@[a].0 == self.trees@[a].collection@);
                        assert(self@[b].0 == self.trees@[b].collection@);
                        if b == ts.len() {
                            assert(self@[a] == ts[a]);
                        } else {
                            assert(self@[a] == ts[a]);
                            assert(self@[b] == ts[b]);
                        }
                    }
                }
            },
        }
        Ok(())
    }

    /// Drops the index on (`collection`, `name`); says whether there was one.
    pub fn drop_index(&mut self, collection: &CollectionName, name: &str) -> (r: Result<bool, RangoError>)
        requires
            old(self).wf(),
        ensures
            final(self).wf(),
            r == Ok::<bool, RangoError>(has_index(old(self)@, collection.0@, name@)),
            !has_index(final(self)@, collection.0@, name@),
            others_unchanged(old(self)@, final(self)@, collection.0@, name@),
    {
        let key = String::from_str(name);
        let ghost ts = self@;
        let ghost c = collection.0@;
        let ghost f = key@;
        match self.find_tree(&collection.0, &key) {
            Some(i) => {
                self.trees.remove(i);
                proof {
                    lemma_first_tree_range(ts, c, f, 0);
                    assert(self@ =~= ts.remove(i as int));
                    assert forall|c2: Seq<char>, f2: Seq<char>| !(c2 == c && f2 == f) implies
                        #[trigger] has_index(self@, c2, f2) == has_index(ts, c2, f2) by {
                        lemma_first_tree_remove(ts, i as int, c2, f2);
                        lemma_first_tree_range(ts, c2, f2, 0);
                        let q = first_tree(ts, c2, f2, 0);
                        if q >= 0 {
                            if q < i {
                                assert(self@[q] == ts[q]);
                            } else {
                                assert(self@[q - 1] == ts[q]);
                            }
                        }
                    }
                    assert forall|c2: Seq<char>, f2: Seq<char>, k: VKey| !(c2 == c && f2 == f) implies
                        #[trigger] indexed_ids(self@, c2, f2, k) == indexed_ids(ts, c2, f2, k) by {
                        lemma_first_tree_remove(ts, i as int, c2, f2);
                        lemma_first_tree_range(ts, c2, f2, 0);
                        let q = first_tree(ts, c2, f2, 0);
                        if q >= 0 {
                            if q < i {
                                assert(self@[q] == ts[q]);
                            } else {
                                assert(self@[q - 1] == ts[q]);
                            }
                        }
                    }
                    lemma_first_tree_range(self@, c, f, 0);
                    if first_tree(self@, c, f, 0) >= 0 {
                        let r = first_tree(self@, c, f, 0);
                        if r < i {
                            assert(self@[r] == ts[r]);
                            assert(ts[r].0 == ts[i as int].0 && ts[r].1 == ts[i as int].1);
                            assert(self.trees@[r] == old(self).trees@[r]);
                        } else {
                            assert(self@[r] == ts[r + 1]);
                            assert(old(self).trees@[r + 1] == self.trees@[r]);
                        }
                        assert(false);
                    }
                    assert forall|a: int, b: int| 0 <= a < b < self.trees@.len() implies
                        !(self.trees@[a].collection@ == self.trees@[b].collection@ && self.trees@[a].field@ == self.trees@[b].field@) by {
                        let oa = if a < i { a } else { a + 1 };
                        let ob = if b < i { b } else { b + 1 };
                        assert(self.trees@[a] == old(self).trees@[oa]);
                        assert(self.trees@[b] == old(self).trees@[ob]);
                    }
                }
                Ok(true)
            },
            None => Ok(false),
        }
    }
}


/// Adds `id` under `k` in one index.
fn add_id(t: &mut IndexTree, k: IndexKey, id: DocumentId)
    requires
        old(t).keys@.len() == old(t).ids@.len(),
    ensures
        final(t).keys@.len() == final(t).ids@.len(),
        final(t).collection == old(t).collection,
        final(t).field == old(t).field,
        forall|k2: VKey| #[trigger] tree_ids(tree_view(*final(t)), k2)
            == if k2 == k@ { tree_ids(tree_view(*old(t)), k2).push(id.0@) } else { tree_ids(tree_view(*old(t)), k2) },
{
    let ghost before = tree_view(*t);
    let ghost kv = k@;
    let ghost iv = id.0@;
    proof { lemma_first_key_range(before.2, kv, 0); }
    match find_key(&t.keys, &k) {
        Some(p) => {
            let mut list = t.ids.remove(p);
            list.push(id);
            t.ids.insert(p, list);
            proof {
                let after = tree_view(*t);
                assert(after.2 =~= before.2);
                assert(after.3 =~= before.3.update(p as int, before.3[p as int].push(iv))) by {
                    assert(id_views(list@) =~= id_views(old(t).ids@[p as int]@).push(iv));
                }
                assert forall|k2: VKey| #[trigger] tree_ids(after, k2)
                    == if k2 == kv { tree_ids(before, k2).push(iv) } else { tree_ids(before, k2) } by {
                    lemma_first_key_range(before.2, k2, 0);
                    let q = first_key(before.2, k2, 0);
                    if k2 != kv && q >= 0 {
                        assert(q != p);
                    }
                }
            }
        },
        None => {
            let ghost n = t.keys@.len();
            t.keys.push(k);
            let mut list: Vec<DocumentId> = Vec::new();
            list.push(id);
            t.ids.push(list);
            proof {
                let after = tree_view(*t);
                assert(after.2 =~= before.2.push(kv));
                assert(after.3 =~= before.3.push(seq![iv])) by {
                    assert(id_views(list@) =~= seq![iv]);
                }
                assert forall|k2: VKey| #[trigger] tree_ids(after, k2)
                    == if k2 == kv { tree_ids(before, k2).push(iv) } else { tree_ids(before, k2) } by {
                    lemma_first_key_push(before.2, kv, k2, 0);
                    lemma_first_key_range(before.2, k2, 0);
                    if k2 == kv {
                        assert(Seq::<VVal>::empty().push(iv) =~= seq![iv]);
                    }
                }
            }
        },
    }
}

impl IndexManager {
    /// Indexes a document under each index of its collection: by the
    /// indexed field's value (a missing field counts as null; a value of a
    /// type that is not indexed is skipped). A document without `_id` is
    /// refused.
    pub fn index_document(&mut self, collection: &CollectionName, doc: &Document) -> (r: Result<(), RangoError>)
        requires
            old(self).wf(),
        ensures
            final(self).wf(),
            doc_get(doc@, "_id"@) is None ==> final(self)@ == old(self)@
                && (r matches Err(RangoError::DocumentNotFound(m)) && m@ == "missing _id"@),
            doc_get(doc@, "_id"@) matches Some(id) ==> {
                &&& r is Ok
                &&& forall|c2: Seq<char>, f2: Seq<char>| #[trigger] has_index(final(self)@, c2, f2) == has_index(old(self)@, c2, f2)
                &&& forall|c2: Seq<char>, f2: Seq<char>, k: VKey| #[trigger] indexed_ids(final(self)@, c2, f2, k)
                    == after_indexing(indexed_ids(old(self)@, c2, f2, k), has_index(old(self)@, c2, f2), collection.0@, doc@, id, c2, f2, k)
            },
    {
        let id_val = match doc.get_lit("_id") {
            Some(v) => v.deep_clone(),
            None => {
                return Err(RangoError::DocumentNotFound(String::from_str("missing _id")));
            },
        };
        let ghost ts = self@;
        let ghost c = collection.0@;
        let ghost iv = id_val@;
        let mut i: usize = 0;
        while i < self.trees.len()
            invariant
                i <= self.trees@.len() == ts.len(),
                ts == old(self)@,
                c == collection.0@,
                iv == id_val@,
                self@.len() == ts.len(),
                forall|j: int| 0 <= j < ts.len() ==> #[trigger] self@[j].0 == ts[j].0 && self@[j].1 == ts[j].1,
                forall|j: int| 0 <= j < ts.len() ==> #[trigger] self.trees@[j].keys@.len() == self.trees@[j].ids@.len(),
                forall|j: int| i <= j < ts.len() ==> #[trigger] self@[j] == ts[j],
                forall|j: int, k: VKey| 0 <= j < i ==> #[trigger] tree_ids(self@[j], k)
                    == if ts[j].0 == c && key_of_value(doc_get(doc@, ts[j].1)) == Some(k) { tree_ids(ts[j], k).push(iv) } else { tree_ids(ts[j], k) },
            decreases ts.len() - i,
        {
            let ghost pre_trees = self.trees@;
            let ghost pre_view = self@;
            assert(pre_view[i as int] == ts[i as int]);
            assert(forall|j: int| 0 <= j < ts.len() ==> pre_view[j].0 == ts[j].0 && pre_view[j].1 == ts[j].1);
            if self.trees[i].collection == collection.0 {
                let key = key_from(doc.get(&self.trees[i].field));
                match key {
                    Some(k) => {
                        let mut t = self.trees.remove(i);
                        add_id(&mut t, k, DocumentId(id_val.deep_clone()));
                        self.trees.insert(i, t);
                        proof {
                            assert(self.trees@ =~= pre_trees.update(i as int, t));
                            assert(self@ =~= pre_view.update(i as int, tree_view(t)));
                            assert(tree_view(t).0 == pre_view[i as int].0);
                            assert(tree_view(t).1 == pre_view[i as int].1);
                            assert forall|j: int| 0 <= j < ts.len() implies #[trigger] self@[j].0 == ts[j].0 && self@[j].1 == ts[j].1 by {
                                if j != i {
                                    assert(self@[j] == pre_view[j]);
                                }
                            }
                        }
                    },
                    None => {},
                }
            }
            i = i + 1;
        }
        proof {
            assert forall|c2: Seq<char>, f2: Seq<char>| #[trigger] first_tree(self@, c2, f2, 0) == first_tree(ts, c2, f2, 0) by {
                lemma_first_tree_names(ts, self@, c2, f2, 0);
            }
            assert forall|c2: Seq<char>, f2: Seq<char>, k: VKey| #[trigger] indexed_ids(self@, c2, f2, k)
                == after_indexing(indexed_ids(ts, c2, f2, k), has_index(ts, c2, f2), c, doc@, iv, c2, f2, k) by {
                assert(first_tree(self@, c2, f2, 0) == first_tree(ts, c2, f2, 0));
                lemma_first_tree_range(ts, c2, f2, 0);
                let q = first_tree(ts, c2, f2, 0);
                if q >= 0 {
                    assert(tree_ids(self@[q], k) == if ts[q].0 == c && key_of_value(doc_get(doc@, ts[q].1)) == Some(k) {
                        tree_ids(ts[q], k).push(iv)
                    } else {
                        tree_ids(ts[q], k)
                    });
                }
            }
            assert forall|a: int, b: int| 0 <= a < b < self.trees@.len() implies
                !(self.trees@[a].collection@ == self.trees@[b].collection@ && self.trees@[a].field@ == self.trees@[b].field@) by {
                assert(self@[a] == tree_view(self.trees@[a]));
                assert(self@[b] == tree_view(self.trees@[b]));
                assert(ts[a] == tree_view(old(self).trees@[a]));
                assert(ts[b] == tree_view(old(self).trees@[b]));
                assert(self@[a].0 == ts[a].0 && self@[a].1 == ts[a].1);
                assert(self@[b].0 == ts[b].0 && self@[b].1 == ts[b].1);
                assert(!(old(self).trees@[a].collection@ == old(self).trees@[b].collection@
                    && old(self).trees@[a].field@ == old(self).trees@[b].field@));
            }
        }
        Ok(())
    }

    /// Empties every index of a collection (the document is not looked at:
    /// removal clears the collection's indexes).
    pub fn remove_document(&mut self, collection: &CollectionName, doc: &Document) -> (r: Result<(), RangoError>)
        requires
            old(self).wf(),
        ensures
            final(self).wf(),
            r is Ok,
            forall|c2: Seq<char>, f2: Seq<char>| #[trigger] has_index(final(self)@, c2, f2) == has_index(old(self)@, c2, f2),
            forall|c2: Seq<char>, f2: Seq<char>, k: VKey| #[trigger] indexed_ids(final(self)@, c2, f2, k)
                == if c2 == collection.0@ { Seq::<VVal>::empty() } else { indexed_ids(old(self)@, c2, f2, k) },
    {
        let ghost ts = self@;
        let ghost c = collection.0@;
        let mut i: usize = 0;
        while i < self.trees.len()
            invariant
                i <= self.trees@.len() == ts.len(),
                ts == old(self)@,
                c == collection.0@,
                self@.len() == ts.len(),
                forall|j: int| 0 <= j < ts.len() ==> #[trigger] self@[j].0 == ts[j].0 && self@[j].1 == ts[j].1,
                forall|j: int| 0 <= j < ts.len() ==> #[trigger] self.trees@[j].keys@.len() == self.trees@[j].ids@.len(),
                forall|j: int| i <= j < ts.len() ==> #[trigger] self@[j] == ts[j],
                forall|j: int, k: VKey| 0 <= j < i ==> #[trigger] tree_ids(self@[j], k)
                    == if ts[j].0 == c { Seq::<VVal>::empty() } else { tree_ids(ts[j], k) },
            decreases ts.len() - i,
        {
            let ghost pre_trees = self.trees@;
            let ghost pre_view = self@;
            assert(pre_view[i as int] == ts[i as int]);
            assert(forall|j: int| 0 <= j < ts.len() ==> pre_view[j].0 == ts[j].0 && pre_view[j].1 == ts[j].1);
            if self.trees[i].collection == collection.0 {
                let mut t = self.trees.remove(i);
                t.keys = Vec::new();
                t.ids = Vec::new();
                self.trees.insert(i, t);
                proof {
                    assert(self.trees@ =~= pre_trees.update(i as int, t));
                    assert(self@ =~= pre_view.update(i as int, tree_view(t)));
                    assert(tree_view(t).2 =~= Seq::<VKey>::empty());
                    assert forall|j: int| 0 <= j < ts.len() implies #[trigger] self@[j].0 == ts[j].0 && self@[j].1 == ts[j].1 by {
                        if j != i {
                            assert(self@[j] == pre_view[j]);
                        }
                    }
                }
            }
            i = i + 1;
        }
        proof {
            assert forall|c2: Seq<char>, f2: Seq<char>| #[trigger] first_tree(self@, c2, f2, 0) == first_tree(ts, c2, f2, 0) by {
                lemma_first_tree_names(ts, self@, c2, f2, 0);
            }
            assert forall|c2: Seq<char>, f2: Seq<char>, k: VKey| #[trigger] indexed_ids(self@, c2, f2, k)
                == if c2 == c { Seq::<VVal>::empty() } else { indexed_ids(ts, c2, f2, k) } by {
                assert(first_tree(self@, c2, f2, 0) == first_tree(ts, c2, f2, 0));
                lemma_first_tree_range(ts, c2, f2, 0);
                let q = first_tree(ts, c2, f2, 0);
                if q >= 0 {
                    assert(tree_ids(self@[q], k) == if ts[q].0 == c { Seq::<VVal>::empty() } else { tree_ids(ts[q], k) });
                }
            }
            assert forall|a: int, b: int| 0 <= a < b < self.trees@.len() implies
                !(self.trees@[a].collection@ == self.trees@[b].collection@ && self.trees@[a].field@ == self.trees@[b].field@) by {
                assert(self@[a] == tree_view(self.trees@[a]));
                assert(self@[b] == tree_view(self.trees@[b]));
                assert(ts[a] == tree_view(old(self).trees@[a]));
                assert(ts[b] == tree_view(old(self).trees@[b]));
                assert(self@[a].0 == ts[a].0 && self@[a].1 == ts[a].1);
                assert(self@[b].0 == ts[b].0 && self@[b].1 == ts[b].1);
                assert(!(old(self).trees@[a].collection@ == old(self).trees@[b].collection@
                    && old(self).trees@[a].field@ == old(self).trees@[b].field@));
            }
        }
        Ok(())
    }

    /// The ids indexed under a value on (`collection`, `field`): none for a
    /// value of a type that is not indexed; an error when there is no such
    /// index.
    pub fn find_by_index(&self, collection: &CollectionName, field: &str, value: &Value) -> (r: Result<Vec<DocumentId>, RangoError>)
        requires
            self.wf(),
        ensures
            !has_index(self@, collection.0@, field@) ==> (r matches Err(RangoError::InvalidQueryOperator(m))
                && m@ == "No index on field: "@ + field@),
            has_index(self@, collection.0@, field@) ==> (r matches Ok(v)
                && id_views(v@) == lookup_ids(self@, collection.0@, field@, value@)),
    {
        let key_name = String::from_str(field);
        let t = match self.find_tree(&collection.0, &key_name) {
            Some(t) => t,
            None => {
                let mut m = String::from_str("No index on field: ");
                string_append(&mut m, &key_name);
                return Err(RangoError::InvalidQueryOperator(m));
            },
        };
        let key = match value {
            Value::Int32(v) => IndexKey::Int64(*v as i64),
            Value::Int64(v) => IndexKey::Int64(*v),
            Value::Str(v) => IndexKey::Str(v.clone()),
            Value::Null => IndexKey::Null,
            _ => {
                return Ok(Vec::new());
            },
        };
        let tree = &self.trees[t];
        assert(self@[t as int] == tree_view(*tree));
        match find_key(&tree.keys, &key) {
            Some(p) => {
                let out = clone_ids(&tree.ids[p]);
                assert(tree_view(*tree).3[p as int] == id_views(tree.ids@[p as int]@));
                Ok(out)
            },
            None => Ok(Vec::new()),
        }
    }
}

} // verus!
