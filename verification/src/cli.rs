use vstd::prelude::*;
use crate::value::{VVal, VDoc, Value, Document, doc_has, doc_get};
use crate::engine::{RangoEngine, RangoConfig, CollectionName, coll_docs};
use crate::cursor::{stream, item_agrees};
use crate::json::{JsonValue, VJson};
use crate::oplog::OplogEntry;
use crate::text::{string_append, string_push};

verus! {

// The decisions of the command-line tool: workspace diagnostics, the
// workspace configuration, paths, and the audit report's selection.

/// What `doctor` found.
pub struct DoctorReport {
    pub errors: Vec<String>,
    pub warnings: Vec<String>,
}

impl DoctorReport {
    pub fn new() -> (r: DoctorReport)
        ensures
            r.errors@.len() == 0,
            r.warnings@.len() == 0,
    {
        DoctorReport { errors: Vec::new(), warnings: Vec::new() }
    }

    pub fn add_error(&mut self, msg: String)
        ensures
            final(self).errors@ == old(self).errors@.push(msg),
            final(self).warnings@ == old(self).warnings@,
    {
        self.errors.push(msg);
    }

    pub fn add_warning(&mut self, msg: String)
        ensures
            final(self).warnings@ == old(self).warnings@.push(msg),
            final(self).errors@ == old(self).errors@,
    {
        self.warnings.push(msg);
    }

    pub fn has_errors(&self) -> (r: bool)
        ensures
            r == (self.errors@.len() > 0),
    {
        self.errors.len() > 0
    }
}

/// The fields every record of the current shape carries.
pub open spec fn canonical_fields() -> Seq<Seq<char>> {
    seq![
        "tenant_id"@,
        "namespace"@,
        "lineage"@,
        "trust_score"@,
        "verified"@,
        "expires_at"@,
        "_rev"@,
        "_updated_at"@,
        "_source_node"@,
    ]
}

fn canonical_field_names() -> (r: Vec<&'static str>)
    ensures
        r@.len() == canonical_fields().len(),
        forall|i: int| 0 <= i < r@.len() ==> #[trigger] r@[i]@ == canonical_fields()[i],
{
    let v: Vec<&'static str> = vec![
        "tenant_id",
        "namespace",
        "lineage",
        "trust_score",
        "verified",
        "expires_at",
        "_rev",
        "_updated_at",
        "_source_node",
    ];
    v
}

/// The error reported for a record that lacks a canonical field.
pub open spec fn envelope_msg(record_id: Seq<char>, collection: Seq<char>, field: Seq<char>) -> Seq<char> {
    "workspace incompatible: record "@ + record_id + " in collection "@ + collection
        + " missing canonical metadata field `"@ + field
        + "` (legacy v0.0 shape; run upgrade \u{2014} see docs/operations/migration-v0.0-to-v0.1.md)"@
}

/// The errors for a record that lacks some of `fields`: one per missing
/// field, in the fields' order.
pub open spec fn missing_errors(fields: Seq<Seq<char>>, record_id: Seq<char>, collection: Seq<char>, d: VDoc) -> Seq<Seq<char>>
    decreases fields.len(),
{
    if fields.len() == 0 {
        Seq::empty()
    } else {
        let prev = missing_errors(fields.drop_last(), record_id, collection, d);
        if doc_has(d, fields.last()) { prev } else { prev.push(envelope_msg(record_id, collection, fields.last())) }
    }
}

/// The errors for one record: one per missing canonical field.
pub open spec fn envelope_errors(record_id: Seq<char>, collection: Seq<char>, d: VDoc) -> Seq<Seq<char>> {
    missing_errors(canonical_fields(), record_id, collection, d)
}

fn envelope_message(record_id: &str, collection: &str, field: &str) -> (r: String)
    ensures
        r@ == envelope_msg(record_id@, collection@, field@),
{
    let mut s = String::from_str("workspace incompatible: record ");
    string_append(&mut s, &String::from_str(record_id));
    string_append(&mut s, &String::from_str(" in collection "));
    string_append(&mut s, &String::from_str(collection));
    string_append(&mut s, &String::from_str(" missing canonical metadata field `"));
    string_append(&mut s, &String::from_str(field));
    string_append(&mut s, &String::from_str("` (legacy v0.0 shape; run upgrade \u{2014} see docs/operations/migration-v0.0-to-v0.1.md)"));
    s
}

/// Reports every canonical field that a record lacks.
pub fn check_record_envelope(report: &mut DoctorReport, record_id: &str, collection: &str, d: &Document)
    ensures
        final(report).errors@.map_values(|e: String| e@)
            == old(report).errors@.map_values(|e: String| e@) + envelope_errors(record_id@, collection@, d@),
        final(report).warnings@ == old(report).warnings@,
{
    let fields = canonical_field_names();
    let ghost f = canonical_fields();
    let mut i: usize = 0;
    while i < fields.len()
        invariant
            i <= fields@.len() == f.len(),
            f == canonical_fields(),
            forall|k: int| 0 <= k < fields@.len() ==> #[trigger] fields@[k]@ == f[k],
            report.errors@.map_values(|e: String| e@)
                == old(report).errors@.map_values(|e: String| e@)
                    + missing_errors(f.subrange(0, i as int), record_id@, collection@, d@),
            report.warnings@ == old(report).warnings@,
        decreases fields@.len() - i,
    {
        let name = fields[i];
        let ghost pre = f.subrange(0, i as int + 1);
        assert(pre.drop_last() =~= f.subrange(0, i as int));
        assert(pre.last() == name@);
        let key = String::from_str(name);
        let ghost before = report.errors@;
        let ghost old_errs = old(report).errors@.map_values(|e: String| e@);
        let ghost prev = missing_errors(f.subrange(0, i as int), record_id@, collection@, d@);
        if !d.contains_key(&key) {
            report.add_error(envelope_message(record_id, collection, name));
            assert(report.errors@.map_values(|e: String| e@) =~= before.map_values(|e: String| e@).push(envelope_msg(record_id@, collection@, name@)));
            assert(old_errs + prev.push(envelope_msg(record_id@, collection@, name@)) =~= (old_errs + prev).push(envelope_msg(record_id@, collection@, name@)));
        }
        i = i + 1;
    }
    assert(f.subrange(0, f.len() as int) =~= f);
}


/// The texts of a list of messages.
pub open spec fn texts(v: Seq<String>) -> Seq<Seq<char>> {
    v.map_values(|e: String| e@)
}

/// The collections `doctor` samples, in order.
pub open spec fn sample_names() -> Seq<Seq<char>> {
    seq!["documents"@, "records"@, "data"@, "items"@]
}

/// What a scan of collection `name` yields.
pub open spec fn sample_stream(engine: RangoEngine, name: Seq<char>) -> Seq<Result<VDoc, Seq<char>>> {
    stream(coll_docs(engine.coll(name)), Seq::empty(), None, 0, None, 0, 0, 0)
}

/// The documents among some items, in order; errors are passed over.
pub open spec fn ok_docs(s: Seq<Result<VDoc, Seq<char>>>) -> Seq<VDoc>
    decreases s.len(),
{
    if s.len() == 0 {
        Seq::empty()
    } else {
        let prev = ok_docs(s.drop_last());
        match s.last() {
            Ok(d) => prev.push(d),
            Err(_) => prev,
        }
    }
}

/// The records sampled from a scan: those among its first 20 items.
pub open spec fn sampled(s: Seq<Result<VDoc, Seq<char>>>) -> Seq<VDoc> {
    if s.len() <= 20 { ok_docs(s) } else { ok_docs(s.subrange(0, 20)) }
}

/// The first sampled collection from the `i`-th on that has any record,
/// with its sampled records.
pub open spec fn first_sampled(engine: RangoEngine, i: int) -> Option<(Seq<char>, Seq<VDoc>)>
    decreases 4 - i,
{
    if i < 0 || i >= 4 {
        None
    } else {
        let ds = sampled(sample_stream(engine, sample_names()[i]));
        if ds.len() > 0 { Some((sample_names()[i], ds)) } else { first_sampled(engine, i + 1) }
    }
}

/// `id` is how a record `d` is named in a report: what `id_text` gives
/// for its `_id`, or "(unknown)" when it has none.
pub open spec fn id_rendered<F: Fn(&Value) -> String>(id_text: F, d: VDoc, id: Seq<char>) -> bool {
    match doc_get(d, "_id"@) {
        Some(v) => exists|val: Value, out: String| val@ == v && #[trigger] id_text.ensures((&val,), out) && out@ == id,
        None => id == "(unknown)"@,
    }
}

pub open spec fn ids_rendered<F: Fn(&Value) -> String>(id_text: F, ds: Seq<VDoc>, ids: Seq<Seq<char>>) -> bool {
    &&& ids.len() == ds.len()
    &&& forall|k: int| 0 <= k < ds.len() ==> id_rendered(id_text, ds[k], #[trigger] ids[k])
}

/// The errors for records `ds` of collection `c`, named `ids`, in order.
pub open spec fn records_errors(ids: Seq<Seq<char>>, c: Seq<char>, ds: Seq<VDoc>) -> Seq<Seq<char>>
    decreases ds.len(),
{
    if ds.len() == 0 {
        Seq::empty()
    } else {
        records_errors(ids.drop_last(), c, ds.drop_last()) + envelope_errors(ids.last(), c, ds.last())
    }
}

/// Samples records of a few common collections and reports those that lack
/// canonical metadata: the first collection with any record is checked, up
/// to 20 of its items. `id_text` renders a record's `_id`; a record without
/// one is "(unknown)". Gives the collection sampled and how many records.
pub fn check_canonical_envelope_metadata<F: Fn(&Value) -> String>(
    engine: &RangoEngine,
    report: &mut DoctorReport,
    id_text: &F,
) -> (r: Option<(String, usize)>)
    requires
        forall|v: &Value| id_text.requires((v,)),
    ensures
        final(report).warnings@ == old(report).warnings@,
        match first_sampled(*engine, 0) {
            None => r is None && final(report).errors@ == old(report).errors@,
            Some((c, ds)) => {
                &&& r matches Some((rc, n)) && rc@ == c && n == ds.len() && 1 <= n <= 20
                &&& exists|ids: Seq<Seq<char>>| #[trigger] ids_rendered(*id_text, ds, ids)
                    && texts(final(report).errors@) == texts(old(report).errors@) + records_errors(ids, c, ds)
            },
        },
{
    let names: Vec<&'static str> = vec!["documents", "records", "data", "items"];
    assert(names@.len() == 4);
    let mut ci: usize = 0;
    while ci < names.len()
        invariant
            ci <= names@.len() == 4,
            forall|k: int| 0 <= k < 4 ==> #[trigger] names@[k]@ == sample_names()[k],
            report.warnings@ == old(report).warnings@,
            report.errors@ == old(report).errors@,
            forall|v: &Value| id_text.requires((v,)),
            first_sampled(*engine, 0) == first_sampled(*engine, ci as int),
        decreases names@.len() - ci,
    {
        let coll = CollectionName::new(names[ci]);
        let ghost s = sample_stream(*engine, coll.0@);
        if let Ok(mut cursor) = engine.find_many(&coll) {
            let mut count: usize = 0;
            let mut taken: usize = 0;
            let ghost start = report.errors@;
            let ghost mut ds: Seq<VDoc> = Seq::empty();
            let ghost mut ids: Seq<Seq<char>> = Seq::empty();
            assert(s.subrange(0, 0) =~= Seq::<Result<VDoc, Seq<char>>>::empty());
            assert(texts(report.errors@) =~= texts(start) + records_errors(ids, coll.0@, ds));
            while taken < 20
                invariant_except_break
                    taken <= s.len(),
                invariant
                    count <= taken <= 20,
                    start == old(report).errors@,
                    report.warnings@ == old(report).warnings@,
                    forall|v: &Value| id_text.requires((v,)),
                    s == sample_stream(*engine, coll.0@),
                    cursor.items().len() + taken == s.len(),
                    forall|k: int| #![trigger cursor.items()[k]] 0 <= k < cursor.items().len() ==> item_agrees(cursor.items()[k], s[taken + k]),
                    ds == ok_docs(s.subrange(0, taken as int)),
                    count == ds.len(),
                    count == 0 ==> report.errors@ == start,
                    ids_rendered(*id_text, ds, ids),
                    texts(report.errors@) == texts(start) + records_errors(ids, coll.0@, ds),
                ensures
                    taken <= s.len(),
                    taken == 20 || taken == s.len(),
                    count <= taken <= 20,
                    start == old(report).errors@,
                    report.warnings@ == old(report).warnings@,
                    ds == ok_docs(s.subrange(0, taken as int)),
                    count == ds.len(),
                    count == 0 ==> report.errors@ == start,
                    ids_rendered(*id_text, ds, ids),
                    texts(report.errors@) == texts(start) + records_errors(ids, coll.0@, ds),
                decreases 20 - taken,
            {
                let ghost items0 = cursor.items();
                let item = cursor.next();
                match item {
                    None => {
                        break;
                    },
                    Some(Err(_)) => {
                        proof {
                            assert(item_agrees(items0[0], s[taken as int]));
                            let pre = s.subrange(0, taken + 1);
                            assert(pre.drop_last() =~= s.subrange(0, taken as int));
                            assert(pre.last() == s[taken as int]);
                            assert forall|k: int| 0 <= k < cursor.items().len() implies
                                item_agrees(#[trigger] cursor.items()[k], s[taken + 1 + k]) by {
                                assert(cursor.items()[k] == items0[k + 1]);
                                assert(item_agrees(items0[k + 1], s[taken + (k + 1)]));
                            }
                        }
                    },
                    Some(Ok(record)) => {
                        count = count + 1;
                        let id = match record.get_lit("_id") {
                            Some(v) => id_text(v),
                            None => String::from_str("(unknown)"),
                        };
                        proof {
                            assert(item_agrees(items0[0], s[taken as int]));
                            let d = record@;
                            assert(s[taken as int] == Ok::<VDoc, Seq<char>>(d));
                            let pre = s.subrange(0, taken + 1);
                            assert(pre.drop_last() =~= s.subrange(0, taken as int));
                            assert(pre.last() == s[taken as int]);
                            assert forall|k: int| 0 <= k < cursor.items().len() implies
                                item_agrees(#[trigger] cursor.items()[k], s[taken + 1 + k]) by {
                                assert(cursor.items()[k] == items0[k + 1]);
                                assert(item_agrees(items0[k + 1], s[taken + (k + 1)]));
                            }
                            assert(id_rendered(*id_text, d, id@));
                        }
                        let ghost before = report.errors@;
                        check_record_envelope(report, id.as_str(), coll.0.as_str(), &record);
                        proof {
                            let d = record@;
                            let ds2 = ds.push(d);
                            let ids2 = ids.push(id@);
                            assert(ds2.drop_last() =~= ds);
                            assert(ids2.drop_last() =~= ids);
                            assert(records_errors(ids2, coll.0@, ds2)
                                == records_errors(ids, coll.0@, ds) + envelope_errors(id@, coll.0@, d));
                            assert(texts(report.errors@) =~= texts(start) + records_errors(ids2, coll.0@, ds2));
                            assert forall|k: int| 0 <= k < ds2.len() implies id_rendered(*id_text, ds2[k], #[trigger] ids2[k]) by {
                                if k < ds.len() {
                                    assert(ds2[k] == ds[k]);
                                    assert(ids2[k] == ids[k]);
                                }
                            }
                            ds = ds2;
                            ids = ids2;
                        }
                    },
                }
                taken = taken + 1;
            }
            proof {
                if s.len() <= 20 {
                    assert(s.subrange(0, taken as int) =~= s);
                }
            }
            if count > 0 {
                return Some((coll.0, count));
            }
        }
        ci = ci + 1;
    }
    None
}

/// The number a configuration member holds, if it is a non-negative
/// integer.
pub open spec fn member_u64(m: Seq<(Seq<char>, VJson)>, key: Seq<char>) -> Option<u64>
    decreases m.len(),
{
    if m.len() == 0 {
        None
    } else if m[0].0 == key {
        match m[0].1 {
            VJson::Int(i) => if i >= 0 { Some(i as u64) } else { None },
            _ => None,
        }
    } else {
        member_u64(m.drop_first(), key)
    }
}

/// A configuration setting: the member's number, else the default.
pub open spec fn setting(j: VJson, key: Seq<char>, default: usize) -> usize {
    match j {
        VJson::Object(m) => match member_u64(m, key) {
            Some(n) => n as usize,
            None => default,
        },
        _ => default,
    }
}

/// The members of an object, by their views.
pub open spec fn member_views(members: Seq<(String, JsonValue)>) -> Seq<(Seq<char>, VJson)> {
    Seq::new(members.len(), |i: int| (members[i].0@, members[i].1@))
}

fn find_u64_member(members: &Vec<(String, JsonValue)>, key: &str) -> (r: Option<u64>)
    ensures
        r == member_u64(member_views(members@), key@),
{
    let ghost m = member_views(members@);
    assert(m.subrange(0, m.len() as int) =~= m);
    let mut i: usize = 0;
    while i < members.len()
        invariant
            i <= members@.len() == m.len(),
            m == member_views(members@),
            forall|k: int| 0 <= k < m.len() ==> #[trigger] m[k] == (members@[k].0@, members@[k].1@),
            member_u64(m, key@) == member_u64(m.subrange(i as int, m.len() as int), key@),
        decreases members@.len() - i,
    {
        let ghost rest = m.subrange(i as int, m.len() as int);
        assert(rest[0] == m[i as int]);
        if str_is_key(&members[i].0, key) {
            assert(m[i as int] == (members@[i as int].0@, members@[i as int].1@));
            assert(rest[0].0 == key@);
            let ghost vv = members@[i as int].1@;
            assert(member_u64(rest, key@) == (match vv {
                VJson::Int(x) => if x >= 0 { Some(x as u64) } else { None },
                _ => None,
            }));
            let res = match &members[i].1 {
                JsonValue::Int(v) => {
                    assert(vv == VJson::Int(*v));
                    if *v >= 0 { Some(*v as u64) } else { None }
                },
                other => {
                    assert(!(vv is Int));
                    None
                },
            };
            assert(res == member_u64(rest, key@));
            assert(res == member_u64(m, key@));
            return res;
        }
        assert(rest.drop_first() =~= m.subrange(i as int + 1, m.len() as int));
        i = i + 1;
    }
    assert(m.subrange(i as int, m.len() as int) =~= Seq::<(Seq<char>, VJson)>::empty());
    None
}

fn str_is_key(s: &String, key: &str) -> (r: bool)
    ensures
        r == (s@ == key@),
{
    crate::value::str_is(s, key)
}

/// The workspace configuration from its JSON file: each setting the file
/// gives as a non-negative integer, else its default (16 MiB per document,
/// 128 MiB of memory). A file that is not an object gives both defaults.
pub fn config_from_json(json: &JsonValue) -> (r: RangoConfig)
    ensures
        r.max_document_size_bytes == setting(json@, "max_document_size_bytes"@, 16_777_216usize),
        r.memory_budget_bytes == setting(json@, "memory_budget_bytes"@, 134_217_728usize),
{
    match json {
        JsonValue::Object(members) => {
            assert(json@ == VJson::Object(member_views(members@))) by {
                assert(json@->Object_0 =~= member_views(members@));
            }
            let max_doc = match find_u64_member(members, "max_document_size_bytes") {
                Some(n) => n as usize,
                None => 16 * 1024 * 1024,
            };
            let budget = match find_u64_member(members, "memory_budget_bytes") {
                Some(n) => n as usize,
                None => 128 * 1024 * 1024,
            };
            RangoConfig { max_document_size_bytes: max_doc, memory_budget_bytes: budget }
        },
        _ => RangoConfig { max_document_size_bytes: 16 * 1024 * 1024, memory_budget_bytes: 128 * 1024 * 1024 },
    }
}

/// Whether a path names a parent directory: a `..` component between
/// separators.
pub open spec fn has_parent_ref(p: Seq<char>) -> bool {
    exists|i: int| #![trigger p[i]] 0 <= i && i + 2 <= p.len() && p[i] == '.' && p[i + 1] == '.'
        && (i == 0 || p[i - 1] == '/') && (i + 2 == p.len() || p[i + 2] == '/')
}

/// Whether a path refers to a parent directory, which the tool refuses.
pub fn path_has_parent_ref(path: &str) -> (r: bool)
    ensures
        r == has_parent_ref(path@),
{
    let n = path.unicode_len();
    let mut i: usize = 0;
    while n >= 2 && i <= n - 2
        invariant
            n == path@.len(),
            i <= n,
            forall|k: int| #![trigger path@[k]] 0 <= k < i && k + 2 <= n ==> !(path@[k] == '.' && path@[k + 1] == '.'
                && (k == 0 || path@[k - 1] == '/') && (k + 2 == n || path@[k + 2] == '/')),
        decreases n - i,
    {
        let a = path.get_char(i);
        let b = path.get_char(i + 1);
        let before_ok = i == 0 || path.get_char(i - 1) == '/';
        let after_ok = i + 2 == n || path.get_char(i + 2) == '/';
        if a == '.' && b == '.' && before_ok && after_ok {
            assert(path@[i as int] == '.');
            return true;
        }
        i = i + 1;
    }
    false
}

/// Whether an oplog entry belongs in an audit report: a governance audit
/// record, of the tenant and namespace asked for, if any.
pub open spec fn audit_selected(e: OplogEntry, tenant_id: Option<Seq<char>>, namespace: Option<Seq<char>>) -> bool {
    &&& e.mutation.collection@ == "__governance_audit"@
    &&& (tenant_id matches Some(t) ==> e.mutation.metadata.tenant_id@ == t)
    &&& (namespace matches Some(n) ==> e.mutation.metadata.namespace@ == n)
}

/// The positions of the entries an audit report lists, in order.
pub open spec fn audit_positions(es: Seq<OplogEntry>, tenant_id: Option<Seq<char>>, namespace: Option<Seq<char>>) -> Seq<usize>
    decreases es.len(),
{
    if es.len() == 0 {
        Seq::empty()
    } else {
        let prev = audit_positions(es.drop_last(), tenant_id, namespace);
        if audit_selected(es.last(), tenant_id, namespace) { prev.push((es.len() - 1) as usize) } else { prev }
    }
}

pub open spec fn opt_view(o: Option<&str>) -> Option<Seq<char>> {
    match o {
        Some(s) => Some(s@),
        None => None,
    }
}

/// Chooses the entries an audit report lists.
pub fn select_audit_entries(entries: &Vec<OplogEntry>, tenant_id: Option<&str>, namespace: Option<&str>) -> (r: Vec<usize>)
    ensures
        r@ == audit_positions(entries@, opt_view(tenant_id), opt_view(namespace)),
{
    let mut out: Vec<usize> = Vec::new();
    let mut i: usize = 0;
    while i < entries.len()
        invariant
            i <= entries@.len(),
            out@ == audit_positions(entries@.subrange(0, i as int), opt_view(tenant_id), opt_view(namespace)),
        decreases entries@.len() - i,
    {
        let e = &entries[i];
        let ghost pre = entries@.subrange(0, i as int + 1);
        assert(pre.drop_last() =~= entries@.subrange(0, i as int));
        assert(pre.last() == *e);
        let mut ok = str_is_key(&e.mutation.collection, "__governance_audit");
        if let Some(t) = tenant_id {
            ok = ok && str_is_key(&e.mutation.metadata.tenant_id, t);
        }
        if let Some(n) = namespace {
            ok = ok && str_is_key(&e.mutation.metadata.namespace, n);
        }
        if ok {
            out.push(i);
        }
        i = i + 1;
    }
    assert(entries@.subrange(0, entries@.len() as int) =~= entries@);
    out
}

/// A field of the audit report's CSV: commas become semicolons.
pub open spec fn csv_safe(s: Seq<char>) -> Seq<char> {
    s.map_values(|c: char| if c == ',' { ';' } else { c })
}

pub fn csv_escape(s: &str) -> (r: String)
    ensures
        r@ == csv_safe(s@),
{
    let n = s.unicode_len();
    let mut out = String::new();
    let mut i: usize = 0;
    while i < n
        invariant
            i <= n == s@.len(),
            out@ == csv_safe(s@.subrange(0, i as int)),
        decreases n - i,
    {
        let c = s.get_char(i);
        string_push(&mut out, if c == ',' { ';' } else { c });
        assert(csv_safe(s@.subrange(0, i as int + 1)) =~= csv_safe(s@.subrange(0, i as int)).push(if c == ',' { ';' } else { c }));
        i = i + 1;
    }
    assert(s@.subrange(0, n as int) =~= s@);
    out
}

} // verus!
