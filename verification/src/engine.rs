use vstd::prelude::*;
use crate::types::RangoError;
use crate::value::{VVal, VDoc, Value, Document, doc_get, doc_insert, doc_remove};
use crate::revision::{Revision, VRevision, revision_text, wall_clock_us, parse_revision, revision_order};
use crate::metrics::{Metrics, wrap_add};
use crate::uuid_gen::{uuid_v7, is_v7};
use crate::oplog::{MemoryOplog, Mutation, MutationMetadata, MutationOp, OplogEntry, OplogOrigin};
use crate::store::{MemoryStorage, CollView, coll_get, coll_put, coll_delete, id_pos, lemma_id_pos};
use crate::size::{encoded_len, encoded_len_of};
use crate::text::{decimal, u64_to_decimal, string_append};
use crate::update::{apply_update, update_applied};
use crate::cursor::{Cursor, stream, matching, sorted_result, item_agrees, doc_views, option_view, option_nat,
    skip_count, stream_docs, sorted_docs};

verus! {

// The embedded engine: documents in named collections, every local write
// stamped with a revision and recorded in the oplog, deletes kept as
// tombstones.

/// The documents of a collection, in storage order.
pub open spec fn coll_docs(c: CollView) -> Seq<VDoc> {
    c.map_values(|e: (VVal, VDoc)| e.1)
}

/// Whether `doc` is a tombstone.
pub fn is_deleted(doc: &Document) -> (r: bool)
    ensures
        r == is_deleted_doc(doc@),
{
    match doc.get_lit("_deleted") {
        Some(Value::Bool(b)) => *b,
        _ => false,
    }
}

/// The name of a collection.
pub struct CollectionName(pub String);

impl CollectionName {
    pub fn new(name: &str) -> (r: CollectionName)
        ensures
            r.0@ == name@,
    {
        CollectionName(String::from_str(name))
    }
}

/// The identity of a document: the value of its `_id` field.
pub struct DocumentId(pub Value);

/// A value that holds a time-ordered UUID: binary data of subtype 4, 16
/// bytes with the version 7 and the RFC 4122 variant.
pub open spec fn is_uuid_value(v: VVal) -> bool {
    v matches VVal::Binary(subtype, bytes) && subtype == 4 && is_v7(bytes)
}

impl DocumentId {
    pub fn from_value(v: Value) -> (r: DocumentId)
        ensures
            r.0@ == v@,
    {
        DocumentId(v)
    }

    /// A fresh time-ordered UUID, as binary data of the UUID subtype.
    pub fn new_uuid_v7() -> (r: DocumentId)
        ensures
            is_uuid_value(r.0@),
    {
        DocumentId(Value::Binary { subtype: 4, bytes: uuid_v7().0 })
    }
}

/// Engine settings.
pub struct RangoConfig {
    pub max_document_size_bytes: usize,
    pub memory_budget_bytes: usize,
}

/// The default document size limit: 16 MiB.
pub open spec fn default_doc_limit() -> usize {
    16_777_216usize
}

impl Default for RangoConfig {
    fn default() -> (r: RangoConfig)
        ensures
            r.max_document_size_bytes == default_doc_limit(),
            r.memory_budget_bytes == 134_217_728usize,
    {
        RangoConfig { max_document_size_bytes: 16 * 1024 * 1024, memory_budget_bytes: 128 * 1024 * 1024 }
    }
}

/// A document whose `_deleted` field is `true` is a tombstone.
pub open spec fn is_deleted_doc(d: VDoc) -> bool {
    doc_get(d, "_deleted"@) == Some(VVal::Bool(true))
}

/// Whether the encoding of `d` fits the size limit.
pub open spec fn fits(d: VDoc, limit: usize) -> bool {
    encoded_len(d) matches Some(n) && n <= limit
}

/// The write metadata every local write sets: `_rev`, `_updated_at` and
/// `_source_node`, in that order.
pub open spec fn stamped(d: VDoc, rev: VRevision, now: i64, node: Seq<char>) -> VDoc {
    doc_insert(
        doc_insert(doc_insert(d, "_rev"@, VVal::Str(revision_text(rev))), "_updated_at"@, VVal::DateTime(now)),
        "_source_node"@,
        VVal::Str(node),
    )
}

/// The id of an inserted document: its own `_id`, else the fresh one.
pub open spec fn new_doc_id(d: VDoc, fresh: VVal) -> VVal {
    match doc_get(d, "_id"@) {
        Some(v) => v,
        None => fresh,
    }
}

/// What an insert stores: the document with its `_id`, stamped, and never
/// a tombstone.
pub open spec fn inserted_doc(d: VDoc, id: VVal, rev: VRevision, now: i64, node: Seq<char>) -> VDoc {
    doc_remove(stamped(doc_insert(d, "_id"@, id), rev, now, node), "_deleted"@)
}

/// What a delete stores: the document marked `_deleted: true`, stamped.
pub open spec fn tombstone_doc(d: VDoc, rev: VRevision, now: i64, node: Seq<char>) -> VDoc {
    stamped(doc_insert(d, "_deleted"@, VVal::Bool(true)), rev, now, node)
}

/// The write id of a local mutation: its revision, `#`, and its oplog number.
pub open spec fn local_write_id(rev: VRevision, seq: nat) -> Seq<char> {
    revision_text(rev) + seq!['#'] + decimal(seq)
}

/// The bit pattern of the double 1.0.
pub open spec fn full_trust() -> u64 {
    0x3FF0_0000_0000_0000
}

/// An oplog entry records a local mutation of collection `c`.
pub open spec fn records(
    e: OplogEntry,
    op: MutationOp,
    c: Seq<char>,
    id: VVal,
    patch: Option<VDoc>,
    rev: VRevision,
    now: i64,
    seq: nat,
) -> bool {
    &&& e.seq == seq
    &&& e.origin == OplogOrigin::Local
    &&& e.applied
    &&& e.mutation.op == op
    &&& e.mutation.collection@ == c
    &&& e.mutation.doc_id@ == id
    &&& match (e.mutation.patch, patch) {
        (Some(p), Some(q)) => p@ == q,
        (None, None) => true,
        _ => false,
    }
    &&& e.mutation.rev@ == rev
    &&& e.mutation.timestamp == now
    &&& e.mutation.write_id@ == local_write_id(rev, seq)
    &&& e.mutation.metadata.id@ == id
    &&& e.mutation.metadata.tenant_id@ == "default"@
    &&& e.mutation.metadata.namespace@ == c
    &&& e.mutation.metadata.kind@ == "state"@
    &&& e.mutation.metadata.rev@ == rev
    &&& e.mutation.metadata.trust_score == full_trust()
}

/// The write id is never empty.
pub proof fn lemma_local_write_id_non_empty(rev: VRevision, seq: nat)
    ensures
        local_write_id(rev, seq).len() > 0,
{
}

/// The revision a document carries.
fn doc_rev(d: &Document) -> (r: Revision)
    ensures
        r@ == doc_revision(d@),
{
    proof { reveal_strlit(""); }
    let r = match d.get_lit("_rev") {
        Some(Value::Str(t)) => match Revision::from_text(t.as_str()) {
            Some(r) => r,
            None => Revision::initial(""),
        },
        _ => Revision::initial(""),
    };
    assert(r@.node_id =~= doc_revision(d@).node_id);
    r
}

/// Adds `loser` to the conflicts of `winner`.
fn add_conflict(loser: &Document, winner: &mut Document)
    ensures
        final(winner)@ == with_conflict(old(winner)@, loser@),
{
    let ghost base: Seq<VVal> = match doc_get(winner@, "_conflicts"@) {
        Some(VVal::Array(a)) => a,
        _ => Seq::empty(),
    };
    let entry = match winner.get_lit("_conflicts") {
        None => Some(Vec::new()),
        Some(Value::Array(a)) => {
            proof { crate::value::lemma_view_array(*a); }
            Some(crate::value::clone_values(a))
        },
        Some(_) => None,
    };
    match entry {
        Some(mut arr) => {
            assert(arr@.len() == base.len());
            assert(forall|j: int| 0 <= j < arr@.len() ==> #[trigger] arr@[j]@ == base[j]);
            let ghost full = base.push(VVal::Doc(loser@));
            arr.push(Value::Doc(loser.deep_clone()));
            assert(forall|j: int| 0 <= j < arr@.len() ==> #[trigger] arr@[j]@ == full[j]);
            while arr.len() > 10
                invariant
                    arr@.len() <= full.len(),
                    arr@.len() >= 10 || arr@.len() == full.len(),
                    forall|j: int| 0 <= j < arr@.len() ==> #[trigger] arr@[j]@ == full[full.len() - arr@.len() + j],
                decreases arr@.len(),
            {
                let ghost before = arr@;
                arr.remove(0);
                assert(forall|j: int| 0 <= j < arr@.len() ==> #[trigger] arr@[j] == before[j + 1]);
            }
            proof {
                crate::value::lemma_view_array(arr);
                assert(crate::value::view_value(Value::Array(arr))->Array_0 =~= last_ten(full));
            }
            winner.insert_lit("_conflicts", Value::Array(arr));
        },
        None => {},
    }
}

/// The conflicting versions a document reports.
fn conflicts_of(d: &Document) -> (r: Vec<Document>)
    ensures
        r@.len() == doc_conflicts(d@).len(),
        forall|j: int| 0 <= j < r@.len() ==> #[trigger] r@[j]@ == doc_conflicts(d@)[j],
{
    let mut out: Vec<Document> = Vec::new();
    if is_deleted(d) {
        return out;
    }
    match d.get_lit("_conflicts") {
        Some(Value::Array(a)) => {
            proof { crate::value::lemma_view_array(*a); }
            let ghost av = crate::value::view_value(Value::Array(*a))->Array_0;
            let mut i: usize = 0;
            while i < a.len()
                invariant
                    i <= a@.len(),
                    av.len() == a@.len(),
                    forall|j: int| 0 <= j < a@.len() ==> #[trigger] av[j] == a@[j]@,
                    out@.len() == conflict_docs(av, i as int).len(),
                    forall|j: int| 0 <= j < out@.len() ==> #[trigger] out@[j]@ == conflict_docs(av, i as int)[j],
                decreases a@.len() - i,
            {
                assert(av[i as int] == a@[i as int]@);
                match &a[i] {
                    Value::Doc(x) => { out.push(x.deep_clone()); },
                    _ => {},
                }
                i = i + 1;
            }
        },
        _ => {},
    }
    out
}

/// Whether two revisions are the same.
fn same_revision(a: &Revision, b: &Revision) -> (r: bool)
    ensures
        r == (a@ == b@),
{
    let r = a.timestamp_ms == b.timestamp_ms && a.counter == b.counter && a.node_id == b.node_id;
    proof {
        if r {
            assert(a@.node_id =~= b@.node_id);
        }
    }
    r
}

/// Resolves the conflicts of `d` in favour of revision `chosen`.
fn resolve_in(d: &Document, chosen: &Revision) -> (r: Result<Document, RangoError>)
    ensures
        match resolved(d@, chosen@) {
            Ok(nd) => r matches Ok(x) && x@ == nd,
            Err(false) => r matches Err(RangoError::Conflict(m)) && m@ == "No conflicts found"@,
            Err(true) => r matches Err(RangoError::Conflict(m)) && m@ == "Chosen revision not found in conflicts"@,
        },
{
    proof {
        reveal_strlit("No conflicts found");
        reveal_strlit("Chosen revision not found in conflicts");
    }
    let a = match d.get_lit("_conflicts") {
        Some(Value::Array(a)) => a,
        _ => { return Err(RangoError::Conflict(String::from_str("No conflicts found"))); },
    };
    proof { crate::value::lemma_view_array(*a); }
    let ghost av = crate::value::view_value(Value::Array(*a))->Array_0;
    let ghost cv = chosen@;
    let mut rest: Vec<Value> = Vec::new();
    let mut pick: Option<Document> = None;
    let mut i: usize = 0;
    while i < a.len()
        invariant
            i <= a@.len(),
            av.len() == a@.len(),
            cv == chosen@,
            forall|j: int| 0 <= j < a@.len() ==> #[trigger] av[j] == a@[j]@,
            rest@.len() == kept_conflicts(av, cv, i as int).len(),
            forall|j: int| 0 <= j < rest@.len() ==> #[trigger] rest@[j]@ == kept_conflicts(av, cv, i as int)[j],
            match chosen_conflict(av, cv, i as int) {
                Some(x) => pick matches Some(p) && p@ == x,
                None => pick is None,
            },
        decreases a@.len() - i,
    {
        assert(av[i as int] == a@[i as int]@);
        match &a[i] {
            Value::Doc(x) => {
                let hit = match x.get_lit("_rev") {
                    Some(Value::Str(t)) => match Revision::from_text(t.as_str()) {
                        Some(rv) => same_revision(&rv, chosen),
                        None => false,
                    },
                    _ => false,
                };
                if hit {
                    pick = Some(x.deep_clone());
                } else {
                    rest.push(Value::Doc(x.deep_clone()));
                }
            },
            _ => {},
        }
        i = i + 1;
    }
    match pick {
        Some(mut p) => {
            if rest.len() > 0 {
                proof {
                    crate::value::lemma_view_array(rest);
                    assert(crate::value::view_value(Value::Array(rest))->Array_0 =~= kept_conflicts(av, cv, av.len() as int));
                }
                p.insert_lit("_conflicts", Value::Array(rest));
            } else {
                p.remove_lit("_conflicts");
            }
            Ok(p)
        },
        None => Err(RangoError::Conflict(String::from_str("Chosen revision not found in conflicts"))),
    }
}

pub struct RangoEngine {
    storage: MemoryStorage,
    oplog: MemoryOplog,
    node_id: String,
    metrics: Metrics,
    config: RangoConfig,
}

impl RangoEngine {
    pub closed spec fn wf(&self) -> bool {
        self.oplog.wf()
    }

    /// The documents of collection `name`, tombstones included.
    pub closed spec fn coll(&self, name: Seq<char>) -> CollView {
        self.storage.coll(name)
    }

    pub closed spec fn node(&self) -> Seq<char> {
        self.node_id@
    }

    pub closed spec fn doc_limit(&self) -> usize {
        self.config.max_document_size_bytes
    }

    /// The local oplog, in append order.
    pub closed spec fn log(&self) -> Seq<OplogEntry> {
        self.oplog.view()
    }

    pub closed spec fn counters(&self) -> Metrics {
        self.metrics
    }

    /// Only collection `c` changed.
    pub open spec fn others_kept(&self, old: &RangoEngine, c: Seq<char>) -> bool {
        forall|n: Seq<char>| n != c ==> #[trigger] self.coll(n) == old.coll(n)
    }

    /// Nothing observable changed but the counters.
    pub open spec fn data_kept(&self, old: &RangoEngine) -> bool {
        &&& forall|n: Seq<char>| #[trigger] self.coll(n) == old.coll(n)
        &&& self.log() == old.log()
        &&& self.node() == old.node()
        &&& self.doc_limit() == old.doc_limit()
        &&& self.wf()
    }

    pub fn open(node_id: &str) -> (r: RangoEngine)
        ensures
            r.wf(),
            r.node() == node_id@,
            r.doc_limit() == default_doc_limit(),
            forall|n: Seq<char>| #[trigger] r.coll(n) == Seq::<(VVal, VDoc)>::empty(),
            r.log().len() == 0,
            r.counters().all_zero(),
    {
        Self::open_with_config(node_id, RangoConfig::default())
    }

    pub fn open_with_config(node_id: &str, config: RangoConfig) -> (r: RangoEngine)
        ensures
            r.wf(),
            r.node() == node_id@,
            r.doc_limit() == config.max_document_size_bytes,
            forall|n: Seq<char>| #[trigger] r.coll(n) == Seq::<(VVal, VDoc)>::empty(),
            r.log().len() == 0,
            r.counters().all_zero(),
    {
        RangoEngine {
            storage: MemoryStorage::new(),
            oplog: MemoryOplog::new(),
            node_id: String::from_str(node_id),
            metrics: Metrics::new(),
            config,
        }
    }

    pub fn metrics(&self) -> (r: &Metrics)
        ensures
            *r == self.counters(),
    {
        &self.metrics
    }

    pub fn config(&self) -> (r: &RangoConfig)
        ensures
            r.max_document_size_bytes == self.doc_limit(),
    {
        &self.config
    }

    pub fn oplog(&self) -> (r: &MemoryOplog)
        requires
            self.wf(),
        ensures
            r.wf(),
            r.view() == self.log(),
    {
        &self.oplog
    }

    pub fn node_id(&self) -> (r: &String)
        ensures
            r@ == self.node(),
    {
        &self.node_id
    }

    /// Checks the encoded size of `doc` against the limit.
    fn validate_document_size(&self, doc: &Document) -> (r: Result<(), RangoError>)
        ensures
            r is Ok <==> fits(doc@, self.doc_limit()),
            encoded_len(doc@) is None ==> r matches Err(RangoError::Storage(_)),
            (encoded_len(doc@) matches Some(n) && n > self.doc_limit()) ==>
                (r matches Err(RangoError::DocumentTooLarge { size, limit }) && size == encoded_len(doc@).unwrap() as usize
                    && limit == self.doc_limit()),
    {
        match encoded_len_of(doc) {
            None => Err(RangoError::Storage(String::from_str("document cannot be encoded: a key contains a NUL character"))),
            Some(n) => {
                if n > self.config.max_document_size_bytes as u64 {
                    Err(RangoError::DocumentTooLarge { size: n as usize, limit: self.config.max_document_size_bytes })
                } else {
                    Ok(())
                }
            },
        }
    }

    /// Stamps `doc` with the write metadata of this node.
    fn stamp(&self, doc: &mut Document, rev: &Revision, now: i64)
        ensures
            final(doc)@ == stamped(old(doc)@, rev@, now, self.node()),
    {
        doc.insert_lit("_rev", Value::Str(rev.to_text()));
        doc.insert_lit("_updated_at", Value::DateTime(now));
        doc.insert_lit("_source_node", Value::Str(self.node_id.clone()));
    }

    /// Appends a local mutation to the oplog. The oplog must have room.
    fn log_local(&mut self, op: MutationOp, collection: &String, id: &Value, patch: Option<Document>, rev: Revision, now: i64)
        requires
            old(self).wf(),
            old(self).log().len() < u64::MAX,
        ensures
            final(self).wf(),
            final(self).log().len() == old(self).log().len() + 1,
            final(self).log().drop_last() == old(self).log(),
            records(final(self).log().last(), op, collection@, id@,
                match patch { Some(p) => Some(p@), None => None }, rev@, now, final(self).log().len()),
            forall|n: Seq<char>| #[trigger] final(self).coll(n) == old(self).coll(n),
            final(self).node() == old(self).node(),
            final(self).doc_limit() == old(self).doc_limit(),
            final(self).counters() == old(self).counters(),
    {
        let seq = self.oplog.latest_seq() + 1;
        let mut write_id = rev.to_text();
        let hash = String::from_str("#");
        proof { reveal_strlit("#"); }
        string_append(&mut write_id, &hash);
        let num = u64_to_decimal(seq);
        string_append(&mut write_id, &num);
        assert(write_id@ =~= local_write_id(rev@, seq as nat));
        let metadata = MutationMetadata {
            id: id.deep_clone(),
            namespace: collection.clone(),
            tenant_id: String::from_str("default"),
            kind: String::from_str("state"),
            rev: rev.clone_revision(),
            created_at: now,
            updated_at: now,
            source: self.node_id.clone(),
            actor: self.node_id.clone(),
            lineage: write_id.clone(),
            schema_version: 1,
            trust_score: 0x3FF0_0000_0000_0000,
            verified: Some(true),
            expires_at: None,
        };
        let mutation = Mutation {
            op,
            collection: collection.clone(),
            doc_id: id.deep_clone(),
            patch,
            seq: 0,
            timestamp: now,
            rev,
            write_id,
            metadata,
        };
        let entry = OplogEntry { seq: 0, timestamp: now, mutation, origin: OplogOrigin::Local, applied: true };
        let r = self.oplog.append(entry);
    }

    /// Inserts `doc` as of revision `rev` and time `now`; `fresh` is the id
    /// it gets when it has no `_id` of its own.
    pub fn insert_one_at(&mut self, collection: &CollectionName, doc: Document, fresh: Value, rev: Revision, now: i64)
        -> (r: Result<DocumentId, RangoError>)
        requires
            old(self).wf(),
        ensures
            insert_effect(*old(self), *final(self), collection.0@, doc@, fresh@, rev@, now, r),
            r is Ok ==> final(self).counters().inserts == wrap_add(old(self).counters().inserts, 1)
                && final(self).counters().same_except(&old(self).counters(), set![0]),
            r is Err ==> final(self).counters() == old(self).counters(),
    {
        let ghost doc0 = doc@;
        let ghost rev0 = rev@;
        let id = match doc.get_lit("_id") {
            Some(v) => v.deep_clone(),
            None => fresh,
        };
        assert(id@ == new_doc_id(doc0, fresh@));
        let mut doc = doc;
        self.validate_document_size(&doc)?;
        doc.insert_lit("_id", id.deep_clone());
        self.stamp(&mut doc, &rev, now);
        doc.remove_lit("_deleted");
        self.validate_document_size(&doc)?;
        if self.oplog.latest_seq() == u64::MAX {
            return Err(RangoError::Storage(String::from_str("oplog sequence exhausted")));
        }
        assert(doc@ == inserted_doc(doc0, id@, rev@, now, self.node()));
        let patch = doc.deep_clone();
        self.storage.put(&collection.0, id.deep_clone(), doc);
        assert(self.coll(collection.0@) == coll_put(old(self).coll(collection.0@), id@, patch@));
        let ghost mid = self.coll(collection.0@);
        let ghost after_put = self.storage;
        let ghost e1 = *self;
        self.log_local(MutationOp::Insert, &collection.0, &id, Some(patch), rev, now);
        assert(self.coll(collection.0@) == mid);
        let ghost e2 = *self;
        self.metrics.record_insert();
        assert(self.coll(collection.0@) == coll_put(old(self).coll(collection.0@), new_doc_id(doc0, fresh@),
            inserted_doc(doc0, new_doc_id(doc0, fresh@), rev0, now, old(self).node())));
        assert forall|n: Seq<char>| n != collection.0@ implies #[trigger] self.coll(n) == old(self).coll(n) by {
            assert(after_put.coll(n) == old(self).storage.coll(n));
            assert(e1.coll(n) == after_put.coll(n));
            assert(e2.coll(n) == e1.coll(n));
            assert(self.coll(n) == e2.coll(n));
        }
        Ok(DocumentId(id))
    }

    /// Storage, oplog and settings of the two engines are the same.
    closed spec fn same_data(&self, other: &RangoEngine) -> bool {
        &&& self.storage == other.storage
        &&& self.oplog == other.oplog
        &&& self.node_id@ == other.node_id@
        &&& self.config.max_document_size_bytes == other.config.max_document_size_bytes
    }

    proof fn lemma_same_data(a: RangoEngine, b: RangoEngine)
        requires
            a.same_data(&b),
        ensures
            forall|n: Seq<char>| #[trigger] b.coll(n) == a.coll(n),
            b.log() == a.log(),
            b.node() == a.node(),
            b.doc_limit() == a.doc_limit(),
            b.wf() == a.wf(),
    {
    }

    /// Records the latency of a local write that started at `start` (in
    /// microseconds); a write never counts as taking less than one.
    fn record_write_latency(&mut self, start: u64)
        ensures
            final(self).same_data(old(self)),
            final(self).counters().local_write_latency_us_count
                == wrap_add(old(self).counters().local_write_latency_us_count, 1),
            exists|us: u64| us >= 1 && final(self).counters().local_write_latency_us_total
                == wrap_add(old(self).counters().local_write_latency_us_total, us),
            final(self).counters().same_except(&old(self).counters(), set![6, 7]),
    {
        let end = wall_clock_us();
        let us: u64 = if end > start { end - start } else { 1 };
        self.metrics.record_local_write_latency_us(us);
        assert(us >= 1 && self.counters().local_write_latency_us_total
            == wrap_add(old(self).counters().local_write_latency_us_total, us));
    }

    /// The current time in milliseconds, for `_updated_at`.
    fn now_ms(rev: &Revision) -> (r: i64)
        ensures
            r as int == if rev.timestamp_ms <= i64::MAX as u64 { rev.timestamp_ms as int } else { i64::MAX as int },
    {
        if rev.timestamp_ms <= i64::MAX as u64 { rev.timestamp_ms as i64 } else { i64::MAX }
    }

    /// Inserts `doc`, stamped with a revision of this node at the current
    /// time; a document without `_id` gets a fresh UUID.
    pub fn insert_one(&mut self, collection: &CollectionName, doc: Document) -> (r: Result<DocumentId, RangoError>)
        requires
            old(self).wf(),
        ensures
            exists|fresh: VVal, rev: VRevision, now: i64| {
                &&& is_uuid_value(fresh)
                &&& rev.node_id == old(self).node()
                &&& rev.counter == 0
                &&& #[trigger] insert_effect(*old(self), *final(self), collection.0@, doc@, fresh, rev, now, r)
            },
            r is Ok ==> {
                &&& final(self).counters().inserts == wrap_add(old(self).counters().inserts, 1)
                &&& final(self).counters().local_write_latency_us_count
                    == wrap_add(old(self).counters().local_write_latency_us_count, 1)
                &&& exists|us: u64| us >= 1 && final(self).counters().local_write_latency_us_total
                    == wrap_add(old(self).counters().local_write_latency_us_total, us)
                &&& final(self).counters().same_except(&old(self).counters(), set![0, 6, 7])
            },
            r is Err ==> final(self).counters() == old(self).counters(),
    {
        let start = wall_clock_us();
        let rev = Revision::now(&self.node_id);
        let ghost rv = rev@;
        let now = Self::now_ms(&rev);
        let fresh = DocumentId::new_uuid_v7().0;
        let ghost fv = fresh@;
        let ghost dv = doc@;
        let r = self.insert_one_at(collection, doc, fresh, rev, now);
        let ghost mid = *self;
        if r.is_ok() {
            self.record_write_latency(start);
            proof { Self::lemma_same_data(mid, *self); }
        }
        assert(insert_effect(*old(self), *self, collection.0@, dv, fv, rv, now, r));
        r
    }

    /// Applies `update` to the live document under `id`, stamped with a
    /// revision of this node at the current time.
    pub fn update_one<F: Fn(u64, u64) -> u64>(&mut self, collection: &CollectionName, id: &DocumentId, update: &Document, float_add: &F)
        -> (r: Result<bool, RangoError>)
        requires
            old(self).wf(),
            forall|a: u64, b: u64| float_add.requires((a, b)),
        ensures
            exists|rev: VRevision, now: i64| {
                &&& rev.node_id == old(self).node()
                &&& rev.counter == 0
                &&& #[trigger] update_effect(*old(self), *final(self), collection.0@, id.0@, update@, *float_add, rev, now, r)
            },
            r == Ok::<bool, RangoError>(true) ==> {
                &&& final(self).counters().updates == wrap_add(old(self).counters().updates, 1)
                &&& final(self).counters().local_write_latency_us_count
                    == wrap_add(old(self).counters().local_write_latency_us_count, 1)
                &&& exists|us: u64| us >= 1 && final(self).counters().local_write_latency_us_total
                    == wrap_add(old(self).counters().local_write_latency_us_total, us)
                &&& final(self).counters().same_except(&old(self).counters(), set![2, 6, 7])
            },
            r != Ok::<bool, RangoError>(true) ==> final(self).counters() == old(self).counters(),
    {
        let start = wall_clock_us();
        let rev = Revision::now(&self.node_id);
        let ghost rv = rev@;
        let now = Self::now_ms(&rev);
        let r = self.update_one_at(collection, id, update, float_add, rev, now);
        let ghost mid = *self;
        let done = match &r { Ok(b) => *b, Err(_) => false };
        if done {
            self.record_write_latency(start);
            proof { Self::lemma_same_data(mid, *self); }
        }
        assert(update_effect(*old(self), *self, collection.0@, id.0@, update@, *float_add, rv, now, r));
        r
    }

    /// Marks the document under `id` deleted, stamped with a revision of
    /// this node at the current time.
    pub fn delete_one(&mut self, collection: &CollectionName, id: &DocumentId) -> (r: Result<bool, RangoError>)
        requires
            old(self).wf(),
        ensures
            exists|rev: VRevision, now: i64| {
                &&& rev.node_id == old(self).node()
                &&& rev.counter == 0
                &&& #[trigger] delete_effect(*old(self), *final(self), collection.0@, id.0@, rev, now, r)
            },
            r == Ok::<bool, RangoError>(true) ==> {
                &&& final(self).counters().deletes == wrap_add(old(self).counters().deletes, 1)
                &&& final(self).counters().local_write_latency_us_count
                    == wrap_add(old(self).counters().local_write_latency_us_count, 1)
                &&& exists|us: u64| us >= 1 && final(self).counters().local_write_latency_us_total
                    == wrap_add(old(self).counters().local_write_latency_us_total, us)
                &&& final(self).counters().same_except(&old(self).counters(), set![3, 6, 7])
            },
            r != Ok::<bool, RangoError>(true) ==> final(self).counters() == old(self).counters(),
    {
        let start = wall_clock_us();
        let rev = Revision::now(&self.node_id);
        let ghost rv = rev@;
        let now = Self::now_ms(&rev);
        let r = self.delete_one_at(collection, id, rev, now);
        let ghost mid = *self;
        let done = match &r { Ok(b) => *b, Err(_) => false };
        if done {
            self.record_write_latency(start);
            proof { Self::lemma_same_data(mid, *self); }
        }
        assert(delete_effect(*old(self), *self, collection.0@, id.0@, rv, now, r));
        r
    }

    /// The live document stored under `id`: `None` for a missing document
    /// and for a tombstone.
    pub fn find_one(&mut self, collection: &CollectionName, id: &DocumentId) -> (r: Result<Option<Document>, RangoError>)
        requires
            old(self).wf(),
        ensures
            final(self).data_kept(old(self)),
            final(self).counters().finds == wrap_add(old(self).counters().finds, 1),
            final(self).counters().same_except(&old(self).counters(), set![1]),
            r matches Ok(found) && match coll_get(old(self).coll(collection.0@), id.0@) {
                Some(d) => if is_deleted_doc(d) { found is None } else { found matches Some(x) && x@ == d },
                None => found is None,
            },
    {
        let ghost e0 = *self;
        self.metrics.record_find();
        assert forall|n: Seq<char>| #[trigger] self.coll(n) == old(self).coll(n) by {
            assert(e0.coll(n) == old(self).coll(n));
        }
        match self.storage.get(&collection.0, &id.0) {
            Some(d) => {
                if is_deleted(d) {
                    Ok(None)
                } else {
                    Ok(Some(d.deep_clone()))
                }
            },
            None => Ok(None),
        }
    }

    /// Applies `update` to the live document under `id` as of revision
    /// `rev` and time `now`. `Ok(false)` when there is no live document.
    /// `float_add` adds two doubles given as bit patterns (for `$inc`).
    pub fn update_one_at<F: Fn(u64, u64) -> u64>(
        &mut self,
        collection: &CollectionName,
        id: &DocumentId,
        update: &Document,
        float_add: &F,
        rev: Revision,
        now: i64,
    ) -> (r: Result<bool, RangoError>)
        requires
            old(self).wf(),
            forall|a: u64, b: u64| float_add.requires((a, b)),
        ensures
            update_effect(*old(self), *final(self), collection.0@, id.0@, update@, *float_add, rev@, now, r),
            r == Ok::<bool, RangoError>(true) ==> final(self).counters().updates == wrap_add(old(self).counters().updates, 1)
                && final(self).counters().same_except(&old(self).counters(), set![2]),
            r != Ok::<bool, RangoError>(true) ==> final(self).counters() == old(self).counters(),
    {
        let mut doc = match self.storage.get(&collection.0, &id.0) {
            Some(d) => d.deep_clone(),
            None => { return Ok(false); },
        };
        if is_deleted(&doc) {
            return Ok(false);
        }
        let ghost cur = doc@;
        let res = apply_update(&mut doc, update, float_add);
        let ghost after = doc@;
        match res {
            Ok(()) => {},
            Err(e) => {
                assert(update_applied(cur, update@, after, Err::<(), RangoError>(e), *float_add));
                return Err(e);
            },
        }
        self.stamp(&mut doc, &rev, now);
        match self.validate_document_size(&doc) {
            Ok(()) => {},
            Err(e) => {
                assert(update_applied(cur, update@, after, Ok::<(), RangoError>(()), *float_add));
                return Err(e);
            },
        }
        if self.oplog.latest_seq() == u64::MAX {
            assert(update_applied(cur, update@, after, Ok::<(), RangoError>(()), *float_add));
            return Err(RangoError::Storage(String::from_str("oplog sequence exhausted")));
        }
        let patch = doc.deep_clone();
        let ghost stored = doc@;
        self.storage.put(&collection.0, id.0.deep_clone(), doc);
        let ghost after_put = self.storage;
        let ghost e1 = *self;
        self.log_local(MutationOp::Update, &collection.0, &id.0, Some(patch), rev, now);
        let ghost e2 = *self;
        self.metrics.record_update();
        assert forall|n: Seq<char>| n != collection.0@ implies #[trigger] self.coll(n) == old(self).coll(n) by {
            assert(after_put.coll(n) == old(self).storage.coll(n));
            assert(e1.coll(n) == after_put.coll(n));
            assert(e2.coll(n) == e1.coll(n));
        }
        assert(self.coll(collection.0@) == e2.coll(collection.0@));
        assert(e1.coll(collection.0@) == e2.coll(collection.0@));
        assert(update_applied(cur, update@, after, Ok::<(), RangoError>(()), *float_add));
        Ok(true)
    }

    /// Marks the document under `id` deleted (a tombstone), as of revision
    /// `rev` and time `now`. `Ok(false)` when there is no such document.
    pub fn delete_one_at(&mut self, collection: &CollectionName, id: &DocumentId, rev: Revision, now: i64)
        -> (r: Result<bool, RangoError>)
        requires
            old(self).wf(),
        ensures
            delete_effect(*old(self), *final(self), collection.0@, id.0@, rev@, now, r),
            r == Ok::<bool, RangoError>(true) ==> final(self).counters().deletes == wrap_add(old(self).counters().deletes, 1)
                && final(self).counters().same_except(&old(self).counters(), set![3]),
            r != Ok::<bool, RangoError>(true) ==> final(self).counters() == old(self).counters(),
    {
        let mut doc = match self.storage.get(&collection.0, &id.0) {
            Some(d) => d.deep_clone(),
            None => { return Ok(false); },
        };
        if self.oplog.latest_seq() == u64::MAX {
            return Err(RangoError::Storage(String::from_str("oplog sequence exhausted")));
        }
        doc.insert_lit("_deleted", Value::Bool(true));
        self.stamp(&mut doc, &rev, now);
        self.storage.put(&collection.0, id.0.deep_clone(), doc);
        let ghost after_put = self.storage;
        let ghost e1 = *self;
        self.log_local(MutationOp::Delete, &collection.0, &id.0, None, rev, now);
        let ghost e2 = *self;
        self.metrics.record_delete();
        assert forall|n: Seq<char>| n != collection.0@ implies #[trigger] self.coll(n) == old(self).coll(n) by {
            assert(after_put.coll(n) == old(self).storage.coll(n));
            assert(e1.coll(n) == after_put.coll(n));
            assert(e2.coll(n) == e1.coll(n));
        }
        assert(self.coll(collection.0@) == e2.coll(collection.0@));
        assert(e1.coll(collection.0@) == e2.coll(collection.0@));
        Ok(true)
    }

    /// Queries collection `collection`: the live documents the filter
    /// accepts, through the projection, `skip` of them passed over and at
    /// most `limit` kept. Without `sort` documents come in storage order and
    /// filter errors come as items; with `sort` (a field and whether
    /// descending) they are stably sorted and documents on which the filter
    /// fails are left out.
    #[verifier::spinoff_prover]
    pub fn find(
        &self,
        collection: &CollectionName,
        filter: &Document,
        projection: Option<&Document>,
        sort: Option<(&String, bool)>,
        skip: Option<usize>,
        limit: Option<usize>,
    ) -> (r: Result<Cursor, RangoError>)
        ensures
            r is Ok,
            sort is None ==> (r matches Ok(cur) && ({
                let s = stream(coll_docs(self.coll(collection.0@)), filter@, option_view(projection), skip_count(skip),
                    option_nat(limit), 0, 0, 0);
                &&& cur.items().len() == s.len()
                &&& forall|k: int| 0 <= k < s.len() ==> #[trigger] item_agrees(cur.items()[k], s[k])
            })),
            sort is Some ==> exists|p: Seq<usize>| #[trigger] sorted_result(
                matching(coll_docs(self.coll(collection.0@)), filter@, self.coll(collection.0@).len() as int),
                sort.unwrap().0@, sort.unwrap().1, p, option_view(projection),
                skip_count(skip), option_nat(limit), r.unwrap().items()),
    {
        let docs = self.storage.scan(&collection.0);
        assert(doc_views(docs@) =~= coll_docs(self.coll(collection.0@)));
        let ghost cd = coll_docs(self.coll(collection.0@));
        let items = match sort {
            None => {
                let items = stream_docs(&docs, filter, projection, skip, limit);
                proof {
                    let s = stream(cd, filter@, option_view(projection), skip_count(skip), option_nat(limit), 0, 0, 0);
                    assert forall|k: int| 0 <= k < s.len() implies #[trigger] item_agrees(items@[k], s[k]) by {
                        assert(item_agrees(items@[k], stream(doc_views(docs@), filter@, option_view(projection),
                            skip_count(skip), option_nat(limit), 0, 0, 0)[k]));
                    }
                }
                items
            },
            Some((field, desc)) => {
                sorted_docs(&docs, filter, projection, field, desc, skip, limit)
            },
        };
        let cur = Cursor::from_items(items);
        proof {
            if sort is Some {
                let field = sort.unwrap().0;
                let desc = sort.unwrap().1;
                let p = choose|p: Seq<usize>| #[trigger] sorted_result(
                    matching(doc_views(docs@), filter@, docs@.len() as int), field@, desc, p,
                    option_view(projection), skip_count(skip), option_nat(limit), items@);
                assert(sorted_result(matching(coll_docs(self.coll(collection.0@)), filter@, self.coll(collection.0@).len() as int),
                    sort.unwrap().0@, sort.unwrap().1, p,
                    option_view(projection), skip_count(skip), option_nat(limit), cur.items()));
                assert(exists|q: Seq<usize>| #[trigger] sorted_result(
                    matching(coll_docs(self.coll(collection.0@)), filter@, self.coll(collection.0@).len() as int),
                    sort.unwrap().0@, sort.unwrap().1, q, option_view(projection),
                    skip_count(skip), option_nat(limit), cur.items()));
            }
        }
        let r = Ok(cur);
        assert(r.unwrap().items() == items@);
        r
    }

    /// Every live document of the collection, in storage order.
    pub fn find_many(&self, collection: &CollectionName) -> (r: Result<Cursor, RangoError>)
        ensures
            r matches Ok(cur) && ({
                let s = stream(coll_docs(self.coll(collection.0@)), Seq::empty(), None, 0, None, 0, 0, 0);
                &&& cur.items().len() == s.len()
                &&& forall|k: int| 0 <= k < s.len() ==> #[trigger] item_agrees(cur.items()[k], s[k])
            }),
    {
        let empty = Document::new();
        self.find(collection, &empty, None, None, None, None)
    }

    /// The first live document, in storage order, that the filter accepts.
    pub fn find_one_by_filter(&self, collection: &CollectionName, filter: &Document) -> (r: Result<Option<Document>, RangoError>)
        ensures
            ({
                let s = stream(coll_docs(self.coll(collection.0@)), filter@, None, 0, None, 0, 0, 0);
                if s.len() == 0 {
                    r matches Ok(None)
                } else {
                    match (r, s[0]) {
                        (Ok(Some(d)), Ok(e)) => d@ == e,
                        (Err(RangoError::InvalidQueryOperator(m)), Err(e)) => m@ == e,
                        _ => false,
                    }
                }
            }),
    {
        let mut cur = self.find(collection, filter, None, None, None, None)?;
        proof {
            let s = stream(coll_docs(self.coll(collection.0@)), filter@, None, 0, None, 0, 0, 0);
            assert(option_view(None) == None::<VDoc>);
            assert(skip_count(None) == 0);
            assert(option_nat(None) == None::<nat>);
            if s.len() > 0 {
                assert(item_agrees(cur.items()[0], s[0]));
            }
        }
        match cur.next() {
            None => Ok(None),
            Some(Ok(d)) => Ok(Some(d)),
            Some(Err(e)) => Err(e),
        }
    }

    /// Applies a document received from another node, by last-writer-wins
    /// on revisions: the newer version is stored and the older one kept in
    /// its `_conflicts`; equal revisions leave the document as it is; a
    /// missing or deleted local document is replaced. A document without
    /// `_id` is refused with `DocumentNotFound`.
    pub fn apply_remote_mutation(&mut self, collection: &CollectionName, doc: Document) -> (r: Result<(), RangoError>)
        requires
            old(self).wf(),
        ensures
            final(self).counters() == old(self).counters(),
            match doc_get(doc@, "_id"@) {
                None => (r matches Err(RangoError::DocumentNotFound(m)) && m@ == "missing _id"@)
                    && final(self).data_kept(old(self)),
                Some(id) => {
                    let c = collection.0@;
                    &&& r is Ok
                    &&& final(self).coll(c) == coll_put(old(self).coll(c), id, lww_merge(coll_get(old(self).coll(c), id), doc@))
                    &&& final(self).others_kept(old(self), c)
                    &&& final(self).log() == old(self).log()
                    &&& final(self).node() == old(self).node()
                    &&& final(self).doc_limit() == old(self).doc_limit()
                    &&& final(self).wf()
                },
            },
    {
        let ghost dv = doc@;
        let id = match doc.get_lit("_id") {
            Some(v) => v.deep_clone(),
            None => {
                proof { reveal_strlit("missing _id"); }
                return Err(RangoError::DocumentNotFound(String::from_str("missing _id")));
            },
        };
        let remote_rev = doc_rev(&doc);
        let ghost c = collection.0@;
        let ghost before = self.coll(c);
        let ghost e0 = *self;
        let local = match self.storage.get(&collection.0, &id) {
            Some(l) => if is_deleted(l) { None } else { Some(l.deep_clone()) },
            None => None,
        };
        match local {
            Some(local_doc) => {
                let local_rev = doc_rev(&local_doc);
                let o = remote_rev.compare(&local_rev);
                if o > 0 {
                    let mut winner = doc;
                    add_conflict(&local_doc, &mut winner);
                    self.storage.put(&collection.0, id, winner);
                } else if o < 0 {
                    let mut winner = local_doc;
                    add_conflict(&doc, &mut winner);
                    self.storage.put(&collection.0, id, winner);
                } else {
                    proof {
                        lemma_id_pos(before, id@);
                        assert(coll_put(before, id@, local_doc@) =~= before);
                    }
                }
            },
            None => {
                self.storage.put(&collection.0, id, doc);
            },
        }
        assert forall|n: Seq<char>| n != c implies #[trigger] self.coll(n) == old(self).coll(n) by {
            assert(self.storage.coll(n) == e0.storage.coll(n));
        }
        Ok(())
    }

    /// The live documents of the collection that hold conflicts, in storage
    /// order, each with its id and the conflicting versions. A document
    /// without `_id` is reported under a fresh UUID.
    pub fn list_conflicts(&self, collection: &CollectionName) -> (r: Result<Vec<(DocumentId, Vec<Document>)>, RangoError>)
        ensures
            r matches Ok(v) && ({
                let want = conflicted(coll_docs(self.coll(collection.0@)), self.coll(collection.0@).len() as int);
                &&& v@.len() == want.len()
                &&& forall|k: int| 0 <= k < v@.len() ==> {
                    &&& match want[k].0 {
                        Some(id) => (#[trigger] v@[k]).0.0@ == id,
                        None => is_uuid_value(v@[k].0.0@),
                    }
                    &&& v@[k].1@.len() == want[k].1.len()
                    &&& forall|j: int| 0 <= j < v@[k].1@.len() ==> #[trigger] v@[k].1@[j]@ == want[k].1[j]
                }
            }),
    {
        let docs = self.storage.scan(&collection.0);
        let ghost ds = coll_docs(self.coll(collection.0@));
        assert(docs@.len() == ds.len());
        let mut out: Vec<(DocumentId, Vec<Document>)> = Vec::new();
        let mut i: usize = 0;
        while i < docs.len()
            invariant
                i <= docs@.len(),
                docs@.len() == ds.len(),
                forall|j: int| 0 <= j < docs@.len() ==> #[trigger] docs@[j]@ == ds[j],
                out@.len() == conflicted(ds, i as int).len(),
                forall|k: int| 0 <= k < out@.len() ==> {
                    &&& match conflicted(ds, i as int)[k].0 {
                        Some(id) => (#[trigger] out@[k]).0.0@ == id,
                        None => is_uuid_value(out@[k].0.0@),
                    }
                    &&& out@[k].1@.len() == conflicted(ds, i as int)[k].1.len()
                    &&& forall|j: int| 0 <= j < out@[k].1@.len() ==> #[trigger] out@[k].1@[j]@ == conflicted(ds, i as int)[k].1[j]
                },
            decreases docs@.len() - i,
        {
            let d = &docs[i];
            assert(d@ == ds[i as int]);
            let found = conflicts_of(d);
            if found.len() > 0 {
                let id = match d.get_lit("_id") {
                    Some(v) => DocumentId(v.deep_clone()),
                    None => DocumentId::new_uuid_v7(),
                };
                let ghost prev = out@;
                out.push((id, found));
                proof {
                    assert forall|k: int| 0 <= k < prev.len() implies #[trigger] out@[k] == prev[k] by {}
                }
            }
            i = i + 1;
        }
        Ok(out)
    }

    /// Replaces the document under `id` by its conflicting version of
    /// revision `chosen`, which keeps the remaining conflicts.
    pub fn resolve_conflict(&mut self, collection: &CollectionName, id: &DocumentId, chosen: &Revision) -> (r: Result<(), RangoError>)
        requires
            old(self).wf(),
        ensures
            final(self).counters() == old(self).counters(),
            ({
                let c = collection.0@;
                match coll_get(old(self).coll(c), id.0@) {
                    None => (r matches Err(RangoError::DocumentNotFound(m)) && m@ == "document not found"@)
                    && final(self).data_kept(old(self)),
                    Some(d) => match resolved(d, chosen@) {
                        Err(false) => r matches Err(RangoError::Conflict(m)) && m@ == "No conflicts found"@
                            && final(self).data_kept(old(self)),
                        Err(true) => r matches Err(RangoError::Conflict(m)) && m@ == "Chosen revision not found in conflicts"@
                            && final(self).data_kept(old(self)),
                        Ok(nd) => {
                            &&& r is Ok
                            &&& final(self).coll(c) == coll_put(old(self).coll(c), id.0@, nd)
                            &&& final(self).others_kept(old(self), c)
                            &&& final(self).log() == old(self).log()
                            &&& final(self).node() == old(self).node()
                            &&& final(self).doc_limit() == old(self).doc_limit()
                            &&& final(self).wf()
                        },
                    },
                }
            }),
    {
        let doc = match self.storage.get(&collection.0, &id.0) {
            Some(d) => d.deep_clone(),
            None => {
                proof { reveal_strlit("document not found"); }
                return Err(RangoError::DocumentNotFound(String::from_str("document not found")));
            },
        };
        let res = resolve_in(&doc, chosen);
        match res {
            Ok(nd) => {
                let ghost e0 = *self;
                self.storage.put(&collection.0, id.0.deep_clone(), nd);
                assert forall|n: Seq<char>| n != collection.0@ implies #[trigger] self.coll(n) == old(self).coll(n) by {
                    assert(self.storage.coll(n) == e0.storage.coll(n));
                }
                Ok(())
            },
            Err(e) => Err(e),
        }
    }

    /// Removes the tombstones of the collection (each by its `_id`) and
    /// says how many it removed. Only safe once every delete has been
    /// synced: a removed tombstone no longer propagates.
    pub fn gc_deleted(&mut self, collection: &CollectionName) -> (r: Result<usize, RangoError>)
        requires
            old(self).wf(),
        ensures
            final(self).counters() == old(self).counters(),
            ({
                let c = collection.0@;
                let g = collected(old(self).coll(c), coll_docs(old(self).coll(c)), old(self).coll(c).len() as int);
                &&& r matches Ok(n) && n == g.1
                &&& final(self).coll(c) == g.0
                &&& final(self).others_kept(old(self), c)
                &&& final(self).log() == old(self).log()
                &&& final(self).node() == old(self).node()
                &&& final(self).doc_limit() == old(self).doc_limit()
                &&& final(self).wf()
            }),
    {
        let ghost c = collection.0@;
        let ghost c0 = self.coll(c);
        let ghost ds = coll_docs(c0);
        let docs = self.storage.scan(&collection.0);
        let mut removed: usize = 0;
        let mut i: usize = 0;
        while i < docs.len()
            invariant
                i <= docs@.len(),
                docs@.len() == ds.len(),
                ds.len() == c0.len(),
                forall|j: int| 0 <= j < docs@.len() ==> #[trigger] docs@[j]@ == ds[j],
                removed <= i,
                c == collection.0@,
                self.coll(c) == collected(c0, ds, i as int).0,
                removed == collected(c0, ds, i as int).1,
                self.others_kept(old(self), c),
                self.log() == old(self).log(),
                self.node() == old(self).node(),
                self.doc_limit() == old(self).doc_limit(),
                self.counters() == old(self).counters(),
                self.wf(),
            decreases docs@.len() - i,
        {
            let d = &docs[i];
            assert(d@ == ds[i as int]);
            if is_deleted(d) {
                match d.get_lit("_id") {
                    Some(v) => {
                        let ghost e0 = *self;
                        self.storage.delete(&collection.0, v);
                        assert forall|n: Seq<char>| n != c implies #[trigger] self.coll(n) == old(self).coll(n) by {
                            assert(self.storage.coll(n) == e0.storage.coll(n));
                            assert(e0.coll(n) == old(self).coll(n));
                        }
                        removed = removed + 1;
                    },
                    None => {},
                }
            }
            i = i + 1;
        }
        Ok(removed)
    }

    /// Every document of the collection, tombstones included, in storage
    /// order.
    pub fn find_all_raw(&self, collection: &CollectionName) -> (r: Result<Vec<Document>, RangoError>)
        ensures
            r matches Ok(docs) && docs@.len() == self.coll(collection.0@).len()
                && forall|j: int| 0 <= j < docs@.len() ==> #[trigger] docs@[j]@ == self.coll(collection.0@)[j].1,
    {
        Ok(self.storage.scan(&collection.0))
    }
}


/// The revision before any write: timestamp 0, counter 0, no node.
pub open spec fn initial_revision() -> VRevision {
    VRevision { timestamp_ms: 0, counter: 0, node_id: Seq::empty() }
}

/// The revision a document carries in `_rev`; one without a readable
/// revision counts as the initial revision.
pub open spec fn doc_revision(d: VDoc) -> VRevision {
    match doc_get(d, "_rev"@) {
        Some(VVal::Str(t)) => match parse_revision(t) {
            Some(r) => r,
            None => initial_revision(),
        },
        _ => initial_revision(),
    }
}

/// How many losing versions a document keeps.
pub open spec fn max_conflicts() -> nat {
    10
}

/// The last ten entries of `s`.
pub open spec fn last_ten(s: Seq<VVal>) -> Seq<VVal> {
    if s.len() > 10 { s.subrange(s.len() - 10, s.len() as int) } else { s }
}

/// `winner` with `loser` added to the end of its `_conflicts` array, which
/// keeps the ten most recent; a `_conflicts` field that is not an array is
/// left alone.
pub open spec fn with_conflict(winner: VDoc, loser: VDoc) -> VDoc {
    match doc_get(winner, "_conflicts"@) {
        None => doc_insert(winner, "_conflicts"@, VVal::Array(seq![VVal::Doc(loser)])),
        Some(VVal::Array(a)) => doc_insert(winner, "_conflicts"@, VVal::Array(last_ten(a.push(VVal::Doc(loser))))),
        Some(_) => winner,
    }
}

/// The document that applying `remote` leaves under its id, given the
/// document `local` stored there: the newer revision wins and keeps the
/// other as a conflict; equal revisions change nothing; a missing or
/// deleted local document is replaced.
pub open spec fn lww_merge(local: Option<VDoc>, remote: VDoc) -> VDoc {
    match local {
        Some(l) if !is_deleted_doc(l) => {
            let o = revision_order(doc_revision(remote), doc_revision(l));
            if o > 0 {
                with_conflict(remote, l)
            } else if o < 0 {
                with_conflict(l, remote)
            } else {
                l
            }
        },
        _ => remote,
    }
}


/// A conflict entry whose revision is `chosen`.
pub open spec fn is_chosen(item: VVal, chosen: VRevision) -> bool {
    item matches VVal::Doc(x) && (doc_get(x, "_rev"@) matches Some(VVal::Str(t)) && parse_revision(t) == Some(chosen))
}

/// The last of the first `n` conflict entries whose revision is `chosen`.
pub open spec fn chosen_conflict(a: Seq<VVal>, chosen: VRevision, n: int) -> Option<VDoc>
    decreases n,
{
    if n <= 0 || n > a.len() {
        None
    } else if is_chosen(a[n - 1], chosen) {
        Some(a[n - 1]->Doc_0)
    } else {
        chosen_conflict(a, chosen, n - 1)
    }
}

/// The first `n` conflict entries that stay: documents not of revision
/// `chosen`.
pub open spec fn kept_conflicts(a: Seq<VVal>, chosen: VRevision, n: int) -> Seq<VVal>
    decreases n,
{
    if n <= 0 || n > a.len() {
        Seq::empty()
    } else if a[n - 1] is Doc && !is_chosen(a[n - 1], chosen) {
        kept_conflicts(a, chosen, n - 1).push(a[n - 1])
    } else {
        kept_conflicts(a, chosen, n - 1)
    }
}

/// Resolving the conflicts of `d` in favour of revision `chosen`: the
/// chosen version, keeping the other conflicts; `Err(false)` when `d` has no
/// conflict array, `Err(true)` when no conflict has that revision.
pub open spec fn resolved(d: VDoc, chosen: VRevision) -> Result<VDoc, bool> {
    match doc_get(d, "_conflicts"@) {
        Some(VVal::Array(a)) => match chosen_conflict(a, chosen, a.len() as int) {
            Some(c) => {
                let rest = kept_conflicts(a, chosen, a.len() as int);
                Ok(if rest.len() > 0 { doc_insert(c, "_conflicts"@, VVal::Array(rest)) } else { doc_remove(c, "_conflicts"@) })
            },
            None => Err(true),
        },
        _ => Err(false),
    }
}

/// The documents among the first `n` conflict entries.
pub open spec fn conflict_docs(a: Seq<VVal>, n: int) -> Seq<VDoc>
    decreases n,
{
    if n <= 0 || n > a.len() {
        Seq::empty()
    } else if a[n - 1] is Doc {
        conflict_docs(a, n - 1).push(a[n - 1]->Doc_0)
    } else {
        conflict_docs(a, n - 1)
    }
}

/// The conflicts a document reports: the documents in its `_conflicts`
/// array (none for a tombstone).
pub open spec fn doc_conflicts(d: VDoc) -> Seq<VDoc> {
    if is_deleted_doc(d) {
        Seq::empty()
    } else {
        match doc_get(d, "_conflicts"@) {
            Some(VVal::Array(a)) => conflict_docs(a, a.len() as int),
            _ => Seq::empty(),
        }
    }
}

/// The documents among the first `n` that report conflicts, each with its
/// `_id` and its conflicts.
pub open spec fn conflicted(docs: Seq<VDoc>, n: int) -> Seq<(Option<VVal>, Seq<VDoc>)>
    decreases n,
{
    if n <= 0 || n > docs.len() {
        Seq::empty()
    } else if doc_conflicts(docs[n - 1]).len() > 0 {
        conflicted(docs, n - 1).push((doc_get(docs[n - 1], "_id"@), doc_conflicts(docs[n - 1])))
    } else {
        conflicted(docs, n - 1)
    }
}

/// Garbage collection over the first `n` documents of a snapshot `docs` of
/// the collection: each tombstone with an `_id` is deleted by that id and
/// counted.
pub open spec fn collected(c: CollView, docs: Seq<VDoc>, n: int) -> (CollView, nat)
    decreases n,
{
    if n <= 0 || n > docs.len() {
        (c, 0)
    } else {
        let prev = collected(c, docs, n - 1);
        match doc_get(docs[n - 1], "_id"@) {
            Some(id) if is_deleted_doc(docs[n - 1]) => (coll_delete(prev.0, id), prev.1 + 1),
            _ => prev,
        }
    }
}

/// What inserting `doc` into collection `c` does, as of revision `rev` and
/// time `now`, with `fresh` as the id of a document without one (counters
/// aside).
pub open spec fn insert_effect(
    old: RangoEngine,
    new: RangoEngine,
    c: Seq<char>,
    doc: VDoc,
    fresh: VVal,
    rev: VRevision,
    now: i64,
    r: Result<DocumentId, RangoError>,
) -> bool {
    let id = new_doc_id(doc, fresh);
    let stored = inserted_doc(doc, id, rev, now, old.node());
    &&& new.wf()
    &&& new.node() == old.node()
    &&& new.doc_limit() == old.doc_limit()
    &&& (r is Ok <==> fits(doc, old.doc_limit()) && fits(stored, old.doc_limit()) && old.log().len() < u64::MAX)
    &&& match r {
        Ok(got) => {
            &&& got.0@ == id
            &&& new.coll(c) == coll_put(old.coll(c), id, stored)
            &&& new.others_kept(&old, c)
            &&& new.log().len() == old.log().len() + 1
            &&& new.log().drop_last() == old.log()
            &&& records(new.log().last(), MutationOp::Insert, c, id, Some(stored), rev, now, new.log().len())
        },
        Err(e) => {
            &&& new.data_kept(&old)
            &&& if !fits(doc, old.doc_limit()) {
                size_refusal(doc, old.doc_limit(), e)
            } else if !fits(stored, old.doc_limit()) {
                size_refusal(stored, old.doc_limit(), e)
            } else {
                e is Storage
            }
        },
    }
}

/// The error a document that does not fit the limit gets: `Storage` when it
/// cannot be encoded, else `DocumentTooLarge` with its size and the limit.
pub open spec fn size_refusal(d: VDoc, limit: usize, e: RangoError) -> bool {
    match encoded_len(d) {
        None => e is Storage,
        Some(n) => e matches RangoError::DocumentTooLarge { size, limit: l } && size == n as usize && l == limit,
    }
}

/// What updating the document under `id` does (counters aside).
pub open spec fn update_effect<F: Fn(u64, u64) -> u64>(
    old: RangoEngine,
    new: RangoEngine,
    c: Seq<char>,
    id: VVal,
    upd: VDoc,
    add: F,
    rev: VRevision,
    now: i64,
    r: Result<bool, RangoError>,
) -> bool {
    let node = old.node();
    let limit = old.doc_limit();
    &&& new.wf()
    &&& new.node() == old.node()
    &&& new.doc_limit() == old.doc_limit()
    &&& match coll_get(old.coll(c), id) {
        Some(cur) if !is_deleted_doc(cur) => match r {
            Ok(true) => exists|after: VDoc| {
                &&& #[trigger] update_applied(cur, upd, after, Ok(()), add)
                &&& fits(stamped(after, rev, now, node), limit)
                &&& new.coll(c) == coll_put(old.coll(c), id, stamped(after, rev, now, node))
                &&& new.others_kept(&old, c)
                &&& new.log().len() == old.log().len() + 1
                &&& new.log().drop_last() == old.log()
                &&& records(new.log().last(), MutationOp::Update, c, id, Some(stamped(after, rev, now, node)), rev, now,
                    new.log().len())
            },
            Ok(false) => false,
            Err(e) => {
                &&& new.data_kept(&old)
                &&& exists|after: VDoc, res: Result<(), RangoError>| {
                    &&& #[trigger] update_applied(cur, upd, after, res, add)
                    &&& match res {
                        Err(e0) => e == e0,
                        Ok(_) => if !fits(stamped(after, rev, now, node), limit) {
                            size_refusal(stamped(after, rev, now, node), limit, e)
                        } else {
                            old.log().len() >= u64::MAX && e is Storage
                        },
                    }
                }
            },
        },
        _ => r == Ok::<bool, RangoError>(false) && new.data_kept(&old),
    }
}

/// What deleting the document under `id` does (counters aside).
pub open spec fn delete_effect(
    old: RangoEngine,
    new: RangoEngine,
    c: Seq<char>,
    id: VVal,
    rev: VRevision,
    now: i64,
    r: Result<bool, RangoError>,
) -> bool {
    &&& new.wf()
    &&& new.node() == old.node()
    &&& new.doc_limit() == old.doc_limit()
    &&& match coll_get(old.coll(c), id) {
        Some(cur) => if old.log().len() < u64::MAX {
            &&& r == Ok::<bool, RangoError>(true)
            &&& new.coll(c) == coll_put(old.coll(c), id, tombstone_doc(cur, rev, now, old.node()))
            &&& new.others_kept(&old, c)
            &&& new.log().len() == old.log().len() + 1
            &&& new.log().drop_last() == old.log()
            &&& records(new.log().last(), MutationOp::Delete, c, id, None, rev, now, new.log().len())
        } else {
            r is Err && new.data_kept(&old)
        },
        None => r == Ok::<bool, RangoError>(false) && new.data_kept(&old),
    }
}

} // verus!
