use vstd::prelude::*;
use crate::types::{MemoryTier, RangoError};
use crate::value::{VVal, VDoc, Value, Document};
use crate::engine::{RangoEngine, RangoConfig, CollectionName, DocumentId};
use crate::cursor::Cursor;
use crate::revision::VRevision;
use crate::json::{JsonValue, json_to_bson, deterministic};

verus! {

// The client side: requests for tiered memory, and JSON Lines import.

/// How a read is labelled: derived from canonical memory or canonical.
#[derive(Debug, Clone, Copy, PartialEq, Eq, Structural)]
pub struct DerivedReadLabel {
    pub derived: bool,
    pub canonical: bool,
}

impl DerivedReadLabel {
    /// The label of a derived, non-canonical read.
    pub fn derived_non_canonical() -> (r: Self)
        ensures
            r.derived,
            !r.canonical,
    {
        DerivedReadLabel { derived: true, canonical: false }
    }
}

/// A request to project a candidate into semantic memory.
pub struct SemanticProjectionRequest {
    pub tenant_id: String,
    pub namespace: String,
    pub candidate_id: String,
    pub tier: MemoryTier,
    pub payload: Document,
}

impl SemanticProjectionRequest {
    pub fn new(tenant_id: &str, namespace: &str, candidate_id: &str, payload: Document) -> (r: Self)
        ensures
            r.tenant_id@ == tenant_id@,
            r.namespace@ == namespace@,
            r.candidate_id@ == candidate_id@,
            r.tier == MemoryTier::Semantic,
            r.payload@ == payload@,
    {
        SemanticProjectionRequest {
            tenant_id: String::from_str(tenant_id),
            namespace: String::from_str(namespace),
            candidate_id: String::from_str(candidate_id),
            tier: MemoryTier::Semantic,
            payload,
        }
    }
}

/// The answer to a semantic projection.
pub struct SemanticProjectionResponse {
    pub accepted: bool,
    pub write_id: String,
    pub label: DerivedReadLabel,
}

/// A read of one tier of memory.
pub struct TieredMemoryReadRequest {
    pub tenant_id: String,
    pub namespace: String,
    pub tier: MemoryTier,
    pub limit: usize,
    pub require_derived_label: bool,
}

impl TieredMemoryReadRequest {
    /// A read of at most 100 items, with no label required.
    pub fn new(tenant_id: &str, namespace: &str, tier: MemoryTier) -> (r: Self)
        ensures
            r.tenant_id@ == tenant_id@,
            r.namespace@ == namespace@,
            r.tier == tier,
            r.limit == 100,
            !r.require_derived_label,
    {
        TieredMemoryReadRequest {
            tenant_id: String::from_str(tenant_id),
            namespace: String::from_str(namespace),
            tier,
            limit: 100,
            require_derived_label: false,
        }
    }

    pub fn with_limit(self, limit: usize) -> (r: Self)
        ensures
            r.limit == limit,
            r.tenant_id == self.tenant_id,
            r.namespace == self.namespace,
            r.tier == self.tier,
            r.require_derived_label == self.require_derived_label,
    {
        let mut s = self;
        s.limit = limit;
        s
    }

    pub fn require_derived_label(self, required: bool) -> (r: Self)
        ensures
            r.require_derived_label == required,
            r.tenant_id == self.tenant_id,
            r.namespace == self.namespace,
            r.tier == self.tier,
            r.limit == self.limit,
    {
        let mut s = self;
        s.require_derived_label = required;
        s
    }
}

/// A write to one tier of memory.
pub struct TieredMemoryWriteRequest {
    pub tenant_id: String,
    pub namespace: String,
    pub tier: MemoryTier,
}

impl TieredMemoryWriteRequest {
    pub fn new(tenant_id: &str, namespace: &str, tier: MemoryTier) -> (r: Self)
        ensures
            r.tenant_id@ == tenant_id@,
            r.namespace@ == namespace@,
            r.tier == tier,
    {
        TieredMemoryWriteRequest { tenant_id: String::from_str(tenant_id), namespace: String::from_str(namespace), tier }
    }
}

// ---------------------------------------------------------------------------
// Import.

/// Hears how an import goes.
pub trait ImportProgress {
    fn on_document(&self, count: usize);
    fn on_error(&self, line: usize, error: String);
    fn on_complete(&self, imported: usize, errors: usize);
}

/// Hears nothing.
pub struct NoOpProgress;

impl ImportProgress for NoOpProgress {
    fn on_document(&self, count: usize) {
    }

    fn on_error(&self, line: usize, error: String) {
    }

    fn on_complete(&self, imported: usize, errors: usize) {
    }
}

pub struct ImportResult {
    pub imported: usize,
    pub errors: usize,
}

pub struct ExportResult {
    pub exported: usize,
}

/// Whitespace as `char::is_whitespace` knows it (the Unicode `White_Space`
/// property).
pub open spec fn is_space(c: char) -> bool {
    ||| ('\u{9}' <= c && c <= '\u{d}')
    ||| c == ' '
    ||| c == '\u{85}'
    ||| c == '\u{a0}'
    ||| c == '\u{1680}'
    ||| ('\u{2000}' <= c && c <= '\u{200a}')
    ||| c == '\u{2028}'
    ||| c == '\u{2029}'
    ||| c == '\u{202f}'
    ||| c == '\u{205f}'
    ||| c == '\u{3000}'
}

fn space(c: char) -> (r: bool)
    ensures
        r == is_space(c),
{
    ('\u{9}' <= c && c <= '\u{d}') || c == ' ' || c == '\u{85}' || c == '\u{a0}' || c == '\u{1680}'
        || ('\u{2000}' <= c && c <= '\u{200a}') || c == '\u{2028}' || c == '\u{2029}' || c == '\u{202f}'
        || c == '\u{205f}' || c == '\u{3000}'
}

/// How many characters from the front of `s[i..]` satisfy `p`.
pub open spec fn leading(s: Seq<char>, i: int, bom: bool) -> int
    decreases s.len() - i,
{
    if i < 0 || i >= s.len() {
        0
    } else if (if bom { s[i] == '\u{feff}' } else { is_space(s[i]) }) {
        1 + leading(s, i + 1, bom)
    } else {
        0
    }
}

/// How many whitespace characters end `s[..n]`.
pub open spec fn trailing(s: Seq<char>, n: int) -> int
    decreases n,
{
    if n <= 0 || n > s.len() {
        0
    } else if is_space(s[n - 1]) {
        1 + trailing(s, n - 1)
    } else {
        0
    }
}

/// `str::trim`.
pub open spec fn trimmed(s: Seq<char>) -> Seq<char> {
    let a = leading(s, 0, false);
    if a >= s.len() { Seq::empty() } else { s.subrange(a, s.len() - trailing(s, s.len() as int)) }
}

/// A line of JSON Lines as the importer reads it: trimmed, and on the first
/// line without any leading byte-order marks.
pub open spec fn sanitized(line_num: int, raw: Seq<char>) -> Seq<char> {
    let t = trimmed(raw);
    if line_num == 0 { t.subrange(leading(t, 0, true), t.len() as int) } else { t }
}

proof fn lemma_leading_bounds(s: Seq<char>, i: int, bom: bool)
    requires
        0 <= i <= s.len(),
    ensures
        0 <= leading(s, i, bom) <= s.len() - i,
    decreases s.len() - i,
{
    if i < s.len() {
        lemma_leading_bounds(s, i + 1, bom);
    }
}

proof fn lemma_trailing_bounds(s: Seq<char>, n: int)
    requires
        0 <= n <= s.len(),
    ensures
        0 <= trailing(s, n) <= n,
        trailing(s, n) < n ==> !is_space(s[n - 1 - trailing(s, n)]),
    decreases n,
{
    if n > 0 {
        lemma_trailing_bounds(s, n - 1);
    }
}

/// Counts leading characters (whitespace, or byte-order marks).
fn count_leading(s: &str, bom: bool) -> (r: usize)
    ensures
        r as int == leading(s@, 0, bom),
        r <= s@.len(),
        r < s@.len() ==> leading(s@, r as int, bom) == 0,
{
    let n = s.unicode_len();
    let mut i: usize = 0;
    while i < n
        invariant_except_break
            i <= n,
            n == s@.len(),
            leading(s@, 0, bom) == i + leading(s@, i as int, bom),
        ensures
            i <= n,
            n == s@.len(),
            leading(s@, 0, bom) == i + leading(s@, i as int, bom),
            i < n ==> leading(s@, i as int, bom) == 0,
        decreases n - i,
    {
        let c = s.get_char(i);
        let hit = if bom { c == '\u{feff}' } else { space(c) };
        if !hit {
            break;
        }
        i = i + 1;
    }
    proof { lemma_leading_bounds(s@, i as int, bom); }
    i
}

/// Counts whitespace at the end of `s[..n]`.
fn count_trailing(s: &str, n: usize) -> (r: usize)
    requires
        n <= s@.len(),
    ensures
        r as int == trailing(s@, n as int),
        r <= n,
{
    let mut k: usize = 0;
    while k < n
        invariant_except_break
            k <= n <= s@.len(),
            trailing(s@, n as int) == k + trailing(s@, (n - k) as int),
        ensures
            k <= n <= s@.len(),
            trailing(s@, n as int) == k + trailing(s@, (n - k) as int),
            k < n ==> trailing(s@, (n - k) as int) == 0,
        decreases n - k,
    {
        let c = s.get_char(n - k - 1);
        if !space(c) {
            break;
        }
        k = k + 1;
    }
    proof { lemma_trailing_bounds(s@, (n - k) as int); }
    k
}

/// Trims a line of JSON Lines, and strips byte-order marks that start the
/// first line.
pub fn sanitize_json_line(line_num: usize, raw: &str) -> (r: String)
    ensures
        r@ == sanitized(line_num as int, raw@),
{
    let n = raw.unicode_len();
    let a = count_leading(raw, false);
    let t: String = if a >= n {
        String::new()
    } else {
        let z = count_trailing(raw, n);
        proof { lemma_trailing_bounds(raw@, n as int); }
        assert(z < n - a) by {
            // The first non-whitespace character stops the count from the end.
            if z >= n - a {
                assert(leading(raw@, a as int, false) == 0);
                lemma_leading_bounds(raw@, a as int + 1, false);
                assert(!is_space(raw@[a as int]));
                assert(trailing(raw@, n as int) >= n - a);
                lemma_trailing_covers(raw@, n as int, a as int);
            }
        }
        String::from_str(raw.substring_char(a, n - z))
    };
    assert(t@ == trimmed(raw@));
    if line_num == 0 {
        let b = count_leading(t.as_str(), true);
        let m = t.as_str().unicode_len();
        String::from_str(t.as_str().substring_char(b, m))
    } else {
        t
    }
}

/// Whitespace at the end that reaches back to index `a` covers `s[a]`.
proof fn lemma_trailing_covers(s: Seq<char>, n: int, a: int)
    requires
        0 <= a < n <= s.len(),
        trailing(s, n) >= n - a,
    ensures
        is_space(s[a]),
    decreases n,
{
    if n - 1 > a {
        lemma_trailing_covers(s, n - 1, a);
    }
}

/// A parsed line becomes a document: only a JSON object does.
pub fn parse_line_document<F: Fn(&str) -> Result<u64, String>>(value: &JsonValue, parse_double: &F) -> (r: Result<Document, RangoError>)
    requires
        forall|t: &str| parse_double.requires((t,)),
        deterministic(*parse_double),
    ensures
        match crate::json::convert(value@, crate::json::parser_of(*parse_double)) {
            Ok(VVal::Doc(d)) => r matches Ok(doc) && doc@ == d,
            Ok(_) => r matches Err(RangoError::Storage(m)) && m@ == "Expected JSON object, got other type"@,
            Err(e) => r matches Err(RangoError::Storage(m)) && m@ == e,
        },
{
    match json_to_bson(value, parse_double) {
        Ok(Value::Doc(d)) => Ok(d),
        Ok(_) => Err(RangoError::Storage(String::from_str("Expected JSON object, got other type"))),
        Err(e) => Err(e),
    }
}

/// One line of an import as read: an error reading it, or its text.
pub enum ImportLine {
    Failed(String),
    Text(String),
}

/// Whether the line at index `i` is counted, as an import or as an error:
/// a line that failed to read is; a line is skipped when nothing is left of
/// it after sanitizing.
pub open spec fn counted(line: ImportLine, i: int) -> bool {
    match line {
        ImportLine::Failed(_) => true,
        ImportLine::Text(t) => sanitized(i, t@).len() > 0,
    }
}

/// How many of the lines are counted.
pub open spec fn non_blank(lines: Seq<ImportLine>) -> nat
    decreases lines.len(),
{
    if lines.len() == 0 {
        0
    } else {
        non_blank(lines.drop_last()) + if counted(lines.last(), lines.len() - 1) { 1nat } else { 0nat }
    }
}

/// What became of a line: `None` when it was skipped, the document it
/// imported, or the message it was reported with.
pub open spec fn line_outcome<G: Fn(&str) -> Result<JsonValue, String>, F: Fn(&str) -> Result<u64, String>>(
    pj: G,
    pd: F,
    line: ImportLine,
    i: int,
    o: Option<Result<VDoc, Seq<char>>>,
    limit: usize,
    node: Seq<char>,
    log_full: bool,
) -> bool {
    match line {
        ImportLine::Failed(e) => o == Some(Err::<VDoc, Seq<char>>(e@)),
        ImportLine::Text(raw) => {
            let t = sanitized(i, raw@);
            if t.len() == 0 {
                o is None
            } else {
                exists|s: &str, pr: Result<JsonValue, String>| s@ == t && #[trigger] call_ensures(pj, (s,), pr)
                    && parsed_outcome(pr, pd, o, limit, node, log_full)
            }
        },
    }
}

/// What became of a line that `parse_json` read as `pr`: its parse error,
/// the error of converting it, the document it imported, or (only when the
/// document does not fit as stored, or the log is full) the engine's
/// refusal.
pub open spec fn parsed_outcome<F: Fn(&str) -> Result<u64, String>>(
    pr: Result<JsonValue, String>,
    pd: F,
    o: Option<Result<VDoc, Seq<char>>>,
    limit: usize,
    node: Seq<char>,
    log_full: bool,
) -> bool {
    match pr {
        Err(e) => o == Some(Err::<VDoc, Seq<char>>(e@)),
        Ok(v) => match crate::json::convert(v@, crate::json::parser_of(pd)) {
            Ok(VVal::Doc(d)) => o == Some(Ok::<VDoc, Seq<char>>(d)) || (o is Some && o.unwrap() is Err && ({
                ||| !crate::engine::fits(d, limit)
                ||| exists|fresh: VVal, rev: VRevision, now: i64| rev.node_id == node && !crate::engine::fits(
                    #[trigger] crate::engine::inserted_doc(d, crate::engine::new_doc_id(d, fresh), rev, now, node), limit)
                ||| log_full
            })),
            Ok(_) => o == Some(Err::<VDoc, Seq<char>>("Expected JSON object, got other type"@)),
            Err(e) => o == Some(Err::<VDoc, Seq<char>>(e)),
        },
    }
}

/// The documents the lines imported, in order.
pub open spec fn imported_docs(outs: Seq<Option<Result<VDoc, Seq<char>>>>) -> Seq<VDoc>
    decreases outs.len(),
{
    if outs.len() == 0 {
        Seq::empty()
    } else {
        let prev = imported_docs(outs.drop_last());
        match outs.last() {
            Some(Ok(d)) => prev.push(d),
            _ => prev,
        }
    }
}

/// How many lines were reported as errors.
pub open spec fn error_count(outs: Seq<Option<Result<VDoc, Seq<char>>>>) -> nat
    decreases outs.len(),
{
    if outs.len() == 0 {
        0
    } else {
        error_count(outs.drop_last()) + match outs.last() {
            Some(Err(_)) => 1nat,
            _ => 0nat,
        }
    }
}

/// A collection after the documents `ds` were inserted in order, the `k`-th
/// under its own `_id` or the fresh id `fr[k]`, stamped with `rv[k]` at
/// `nw[k]`.
pub open spec fn import_fold(c0: Seq<(VVal, VDoc)>, ds: Seq<VDoc>, fr: Seq<VVal>, rv: Seq<VRevision>, nw: Seq<i64>,
    node: Seq<char>) -> Seq<(VVal, VDoc)>
    decreases ds.len(),
{
    if ds.len() == 0 {
        c0
    } else {
        let prev = import_fold(c0, ds.drop_last(), fr.drop_last(), rv.drop_last(), nw.drop_last(), node);
        let id = crate::engine::new_doc_id(ds.last(), fr.last());
        crate::store::coll_put(prev, id, crate::engine::inserted_doc(ds.last(), id, rv.last(), nw.last(), node))
    }
}

/// The embedded client.
pub struct RangoClient {
    pub engine: RangoEngine,
}

impl RangoClient {
    pub fn open(node_id: &str) -> (r: RangoClient)
        ensures
            r.engine.wf(),
            r.engine.node() == node_id@,
            r.engine.log().len() == 0,
            forall|n: Seq<char>| #[trigger] r.engine.coll(n) == Seq::<(VVal, VDoc)>::empty(),
    {
        RangoClient { engine: RangoEngine::open(node_id) }
    }

    pub fn open_with_config(node_id: &str, config: RangoConfig) -> (r: RangoClient)
        ensures
            r.engine.wf(),
            r.engine.node() == node_id@,
            r.engine.doc_limit() == config.max_document_size_bytes,
            r.engine.log().len() == 0,
            forall|n: Seq<char>| #[trigger] r.engine.coll(n) == Seq::<(VVal, VDoc)>::empty(),
    {
        RangoClient { engine: RangoEngine::open_with_config(node_id, config) }
    }

    /// Imports JSON Lines into a collection. Each line is sanitized; a line
    /// with nothing left is skipped. A line that failed to read, does not
    /// parse (`parse_json`), is not an object, does not convert, or is
    /// refused by the engine counts as an error and is reported with its
    /// line number (from 1); every other line is inserted.
    pub fn import_lines<G: Fn(&str) -> Result<JsonValue, String>, F: Fn(&str) -> Result<u64, String>, P: ImportProgress>(
        &mut self,
        collection: &str,
        lines: Vec<ImportLine>,
        parse_json: &G,
        parse_double: &F,
        progress: &P,
    ) -> (r: ImportResult)
        requires
            old(self).engine.wf(),
            forall|t: &str| parse_json.requires((t,)),
            forall|t: &str| parse_double.requires((t,)),
            deterministic(*parse_double),
        ensures
            final(self).engine.wf(),
            r.imported + r.errors == non_blank(lines@),
            final(self).engine.log().len() == old(self).engine.log().len() + r.imported,
            final(self).engine.node() == old(self).engine.node(),
            final(self).engine.doc_limit() == old(self).engine.doc_limit(),
            final(self).engine.others_kept(&old(self).engine, collection@),
            // What became of each line, and what the collection then holds.
            exists|outs: Seq<Option<Result<VDoc, Seq<char>>>>, fr: Seq<VVal>, rv: Seq<VRevision>, nw: Seq<i64>|
                #![trigger import_fold(old(self).engine.coll(collection@), imported_docs(outs), fr, rv, nw, old(self).engine.node())]
            {
                &&& outs.len() == lines@.len()
                &&& forall|k: int| 0 <= k < outs.len() ==> line_outcome(*parse_json, *parse_double, lines@[k], k,
                    #[trigger] outs[k], old(self).engine.doc_limit(), old(self).engine.node(),
                    old(self).engine.log().len() + lines@.len() >= u64::MAX)
                &&& r.imported == imported_docs(outs).len()
                &&& r.errors == error_count(outs)
                &&& fr.len() == imported_docs(outs).len()
                &&& rv.len() == imported_docs(outs).len()
                &&& nw.len() == imported_docs(outs).len()
                &&& forall|k: int| 0 <= k < fr.len() ==> crate::engine::is_uuid_value(#[trigger] fr[k])
                &&& forall|k: int| 0 <= k < rv.len() ==> (#[trigger] rv[k]).node_id == old(self).engine.node()
                &&& final(self).engine.coll(collection@) == import_fold(old(self).engine.coll(collection@),
                    imported_docs(outs), fr, rv, nw, old(self).engine.node())
            },
    {
        let coll = CollectionName::new(collection);
        let mut imported: usize = 0;
        let mut errors: usize = 0;
        let mut lines = lines;
        let ghost all = lines@;
        assert(all.len() == lines.len());
        let ghost start_len = self.engine.log().len();
        let ghost e_start = self.engine;
        let ghost c = collection@;
        let ghost node = self.engine.node();
        let ghost limit = self.engine.doc_limit();
        let ghost full = start_len + all.len() >= u64::MAX;
        let ghost mut outs: Seq<Option<Result<VDoc, Seq<char>>>> = Seq::empty();
        let ghost mut fr: Seq<VVal> = Seq::empty();
        let ghost mut rv: Seq<VRevision> = Seq::empty();
        let ghost mut nw: Seq<i64> = Seq::empty();
        let mut done: usize = 0;
        while lines.len() > 0
            invariant
                self.engine.wf(),
                done + lines@.len() == all.len(),
                all.len() <= usize::MAX,
                lines@ == all.subrange(done as int, all.len() as int),
                imported + errors == non_blank(all.subrange(0, done as int)),
                imported + errors <= done,
                self.engine.log().len() == start_len + imported,
                start_len == old(self).engine.log().len(),
                e_start == old(self).engine,
                c == collection@,
                coll.0@ == c,
                node == old(self).engine.node(),
                limit == old(self).engine.doc_limit(),
                full == (start_len + all.len() >= u64::MAX),
                self.engine.node() == node,
                self.engine.doc_limit() == limit,
                self.engine.others_kept(&e_start, c),
                outs.len() == done,
                forall|k: int| 0 <= k < outs.len() ==> line_outcome(*parse_json, *parse_double, all[k], k,
                    #[trigger] outs[k], limit, node, full),
                imported == imported_docs(outs).len(),
                errors == error_count(outs),
                fr.len() == imported_docs(outs).len(),
                rv.len() == imported_docs(outs).len(),
                nw.len() == imported_docs(outs).len(),
                forall|k: int| 0 <= k < fr.len() ==> crate::engine::is_uuid_value(#[trigger] fr[k]),
                forall|k: int| 0 <= k < rv.len() ==> (#[trigger] rv[k]).node_id == node,
                self.engine.coll(c) == import_fold(e_start.coll(c), imported_docs(outs), fr, rv, nw, node),
                forall|t: &str| parse_json.requires((t,)),
                forall|t: &str| parse_double.requires((t,)),
                deterministic(*parse_double),
            decreases lines@.len(),
        {
            let line = lines.remove(0);
            let ghost pre = all.subrange(0, done as int + 1);
            assert(pre.drop_last() =~= all.subrange(0, done as int));
            assert(pre.last() == line);
            assert(pre.len() - 1 == done);
            assert(line == all[done as int]);
            let line_no: usize = done + 1;
            let ghost o: Option<Result<VDoc, Seq<char>>>;
            let ghost mut added: Option<(VVal, VRevision, i64)> = None;
            match line {
                ImportLine::Failed(e) => {
                    proof { o = Some(Err::<VDoc, Seq<char>>(e@)); }
                    errors = errors + 1;
                    progress.on_error(line_no, e);
                },
                ImportLine::Text(raw) => {
                    let text = sanitize_json_line(done, raw.as_str());
                    if text.as_str().unicode_len() > 0 {
                        let ts = text.as_str();
                        let pr = parse_json(ts);
                        let ghost prg = pr;
                        match pr {
                            Err(e) => {
                                proof {
                                    o = Some(Err::<VDoc, Seq<char>>(e@));
                                    assert(parsed_outcome(prg, *parse_double, o, limit, node, full));
                                }
                                errors = errors + 1;
                                progress.on_error(line_no, e);
                            },
                            Ok(v) => {
                                match parse_line_document(&v, parse_double) {
                                    Ok(doc) => {
                                        let ghost e0 = self.engine;
                                        let ghost dv = doc@;
                                        let res = self.engine.insert_one(&coll, doc);
                                        let ghost (f, rvk, nwk) = choose|f: VVal, rv: VRevision, nw: i64| {
                                            &&& crate::engine::is_uuid_value(f)
                                            &&& rv.node_id == e0.node()
                                            &&& rv.counter == 0
                                            &&& #[trigger] crate::engine::insert_effect(e0, self.engine, coll.0@, dv, f, rv, nw, res)
                                        };
                                        proof {
                                            assert(crate::engine::insert_effect(e0, self.engine, coll.0@, dv, f, rvk, nwk, res));
                                        }
                                        match res {
                                            Ok(_) => {
                                                proof {
                                                    o = Some(Ok::<VDoc, Seq<char>>(dv));
                                                    added = Some((f, rvk, nwk));
                                                    assert(parsed_outcome(prg, *parse_double, o, limit, node, full));
                                                }
                                                imported = imported + 1;
                                                progress.on_document(imported);
                                            },
                                            Err(e) => {
                                                let msg = error_text(&e);
                                                proof {
                                                    o = Some(Err::<VDoc, Seq<char>>(msg@));
                                                    let id = crate::engine::new_doc_id(dv, f);
                                                    let stored = crate::engine::inserted_doc(dv, id, rvk, nwk, node);
                                                    if crate::engine::fits(dv, limit) && crate::engine::fits(stored, limit) {
                                                        assert(e0.log().len() >= u64::MAX);
                                                        assert(full);
                                                    }
                                                    assert(parsed_outcome(prg, *parse_double, o, limit, node, full));
                                                }
                                                errors = errors + 1;
                                                progress.on_error(line_no, msg);
                                            },
                                        }
                                    },
                                    Err(e) => {
                                        let msg = error_text(&e);
                                        proof {
                                            o = Some(Err::<VDoc, Seq<char>>(msg@));
                                            assert(parsed_outcome(prg, *parse_double, o, limit, node, full));
                                        }
                                        errors = errors + 1;
                                        progress.on_error(line_no, msg);
                                    },
                                }
                            },
                        }
                        proof {
                            assert(line_outcome(*parse_json, *parse_double, all[done as int], done as int, o, limit, node, full));
                        }
                    } else {
                        proof { o = None; }
                    }
                },
            }
            proof {
                let outs2 = outs.push(o);
                assert(outs2.drop_last() =~= outs);
                assert forall|k: int| 0 <= k < outs2.len() implies line_outcome(*parse_json, *parse_double, all[k], k,
                    #[trigger] outs2[k], limit, node, full) by {
                    if k < outs.len() {
                        assert(outs2[k] == outs[k]);
                    }
                }
                match added {
                    Some((f, rvk, nwk)) => {
                        let ds = imported_docs(outs);
                        let d = o->Some_0->Ok_0;
                        assert(imported_docs(outs2) == ds.push(d));
                        let fr2 = fr.push(f);
                        let rv2 = rv.push(rvk);
                        let nw2 = nw.push(nwk);
                        assert(ds.push(d).drop_last() =~= ds);
                        assert(fr2.drop_last() =~= fr);
                        assert(rv2.drop_last() =~= rv);
                        assert(nw2.drop_last() =~= nw);
                        assert forall|k: int| 0 <= k < fr2.len() implies crate::engine::is_uuid_value(#[trigger] fr2[k]) by {
                            if k < fr.len() { assert(fr2[k] == fr[k]); }
                        }
                        assert forall|k: int| 0 <= k < rv2.len() implies (#[trigger] rv2[k]).node_id == node by {
                            if k < rv.len() { assert(rv2[k] == rv[k]); }
                        }
                        fr = fr2;
                        rv = rv2;
                        nw = nw2;
                    },
                    None => {
                        assert(imported_docs(outs2) == imported_docs(outs));
                    },
                }
                outs = outs2;
            }
            done = done + 1;
        }
        assert(all.subrange(0, done as int) =~= all);
        progress.on_complete(imported, errors);
        ImportResult { imported, errors }
    }
}

/// The message of an error, as reported to a progress listener: the text it
/// carries, or "document too large".
pub open spec fn error_message(e: RangoError) -> Seq<char> {
    match e {
        RangoError::Storage(m) => m@,
        RangoError::DocumentNotFound(m) => m@,
        RangoError::DocumentTooLarge { .. } => "document too large"@,
        RangoError::InvalidQueryOperator(m) => m@,
        RangoError::Conflict(m) => m@,
        RangoError::Sync(m) => m@,
    }
}

pub fn error_text(e: &RangoError) -> (r: String)
    ensures
        r@ == error_message(*e),
{
    match e {
        RangoError::Storage(m) => m.clone(),
        RangoError::DocumentNotFound(m) => m.clone(),
        RangoError::DocumentTooLarge { size, limit } => String::from_str("document too large"),
        RangoError::InvalidQueryOperator(m) => m.clone(),
        RangoError::Conflict(m) => m.clone(),
        RangoError::Sync(m) => m.clone(),
    }
}


/// One collection of the embedded client: its operations are the engine's,
/// on that collection.
pub struct CollectionClient<'a> {
    pub engine: &'a mut RangoEngine,
    pub name: CollectionName,
}

impl RangoClient {
    /// The collection `name`; what is done through it is done to this
    /// client's engine.
    pub fn collection<'a>(&'a mut self, name: &str) -> (r: CollectionClient<'a>)
        ensures
            r.name.0@ == name@,
            *r.engine == old(self).engine,
            final(self).engine == *final(r.engine),
    {
        CollectionClient { engine: &mut self.engine, name: CollectionName::new(name) }
    }
}

impl<'a> CollectionClient<'a> {
    /// Inserts a document (see `RangoEngine::insert_one`).
    pub fn insert_one(&mut self, doc: Document) -> (r: Result<DocumentId, RangoError>)
        requires
            old(self).engine.wf(),
        ensures
            final(self).name == old(self).name,
            exists|fresh: VVal, rev: VRevision, now: i64| {
                &&& crate::engine::is_uuid_value(fresh)
                &&& rev.node_id == old(self).engine.node()
                &&& rev.counter == 0
                &&& #[trigger] crate::engine::insert_effect(*old(self).engine, *final(self).engine, old(self).name.0@, doc@,
                    fresh, rev, now, r)
            },
    {
        let ghost e0 = *self.engine;
        let ghost dv = doc@;
        let r = self.engine.insert_one(&self.name, doc);
        proof {
            let (f, rv, nw) = choose|f: VVal, rv: VRevision, nw: i64| {
                &&& crate::engine::is_uuid_value(f)
                &&& rv.node_id == e0.node()
                &&& rv.counter == 0
                &&& #[trigger] crate::engine::insert_effect(e0, *self.engine, self.name.0@, dv, f, rv, nw, r)
            };
            assert(crate::engine::insert_effect(e0, *self.engine, self.name.0@, dv, f, rv, nw, r));
        }
        r
    }

    /// The live document under `id` (see `RangoEngine::find_one`).
    pub fn find_one(&mut self, id: &DocumentId) -> (r: Result<Option<Document>, RangoError>)
        requires
            old(self).engine.wf(),
        ensures
            final(self).name == old(self).name,
            final(self).engine.data_kept(old(self).engine),
            r matches Ok(found) && match crate::store::coll_get(old(self).engine.coll(old(self).name.0@), id.0@) {
                Some(d) => if crate::engine::is_deleted_doc(d) { found is None } else { found matches Some(x) && x@ == d },
                None => found is None,
            },
    {
        self.engine.find_one(&self.name, id)
    }

    /// The collection's live documents, in storage order.
    pub fn find_many(&mut self) -> (r: Result<Cursor, RangoError>)
        ensures
            *final(self).engine == *old(self).engine,
            final(self).name == old(self).name,
            r matches Ok(cur) && ({
                let s = crate::cursor::stream(crate::engine::coll_docs(old(self).engine.coll(old(self).name.0@)), Seq::empty(), None,
                    0, None, 0, 0, 0);
                &&& cur.items().len() == s.len()
                &&& forall|k: int| 0 <= k < s.len() ==> #[trigger] crate::cursor::item_agrees(cur.items()[k], s[k])
            }),
    {
        self.engine.find_many(&self.name)
    }

    /// Updates the live document under `id` (see `RangoEngine::update_one`).
    pub fn update_one<F: Fn(u64, u64) -> u64>(&mut self, id: &DocumentId, update: &Document, float_add: &F)
        -> (r: Result<bool, RangoError>)
        requires
            old(self).engine.wf(),
            forall|a: u64, b: u64| float_add.requires((a, b)),
        ensures
            final(self).name == old(self).name,
            exists|rev: VRevision, now: i64| {
                &&& rev.node_id == old(self).engine.node()
                &&& rev.counter == 0
                &&& #[trigger] crate::engine::update_effect(*old(self).engine, *final(self).engine, old(self).name.0@, id.0@,
                    update@, *float_add, rev, now, r)
            },
    {
        let ghost e0 = *self.engine;
        let r = self.engine.update_one(&self.name, id, update, float_add);
        proof {
            let (rv, nw) = choose|rv: VRevision, nw: i64| {
                &&& rv.node_id == e0.node()
                &&& rv.counter == 0
                &&& #[trigger] crate::engine::update_effect(e0, *self.engine, self.name.0@, id.0@, update@, *float_add, rv, nw, r)
            };
            assert(crate::engine::update_effect(e0, *self.engine, self.name.0@, id.0@, update@, *float_add, rv, nw, r));
        }
        r
    }

    /// Marks the document under `id` deleted (see `RangoEngine::delete_one`).
    pub fn delete_one(&mut self, id: &DocumentId) -> (r: Result<bool, RangoError>)
        requires
            old(self).engine.wf(),
        ensures
            final(self).name == old(self).name,
            exists|rev: VRevision, now: i64| {
                &&& rev.node_id == old(self).engine.node()
                &&& rev.counter == 0
                &&& #[trigger] crate::engine::delete_effect(*old(self).engine, *final(self).engine, old(self).name.0@, id.0@,
                    rev, now, r)
            },
    {
        let ghost e0 = *self.engine;
        let r = self.engine.delete_one(&self.name, id);
        proof {
            let (rv, nw) = choose|rv: VRevision, nw: i64| {
                &&& rv.node_id == e0.node()
                &&& rv.counter == 0
                &&& #[trigger] crate::engine::delete_effect(e0, *self.engine, self.name.0@, id.0@, rv, nw, r)
            };
            assert(crate::engine::delete_effect(e0, *self.engine, self.name.0@, id.0@, rv, nw, r));
        }
        r
    }
}

} // verus!
