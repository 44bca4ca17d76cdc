use vstd::prelude::*;
use crate::types::{GovernanceDecision, PolicyDecision, MemoryTier, RangoError, spec_decision_label};
use crate::value::{VVal, VDoc, Value, Document, doc_insert, doc_get};
use crate::revision::{Revision, wall_clock_ms};
use crate::oplog::{MemoryOplog, Mutation, MutationMetadata, MutationOp, OplogEntry, OplogOrigin, read_window};
use crate::float::{f64_is_finite, f64_compare, is_finite, float_compare};
use crate::containment::{ContainmentState, ContainmentMode, cooled, observed, fresh_scope, gate_reason};
use crate::control_plane::{decision_view, write_verdict, ctx_view, payload_view};
use crate::control_plane::{
    ControlPlane, WriteValidationHook, TrustScoringHook, PromotionGateHook, RetrievalGateHook,
    BoundedContextFilterHook, AnomalySignalHook, AuditSink,
};
use crate::text::{string_append, u64_to_decimal, decimal};
use crate::retrieval::{AdapterError, RetrievalCapabilityRequest, RetrievalStatus};
use crate::uuid_gen::uuid_v7;

verus! {

// The sync hub: nodes push mutations, pull what others wrote, and promote
// candidates between memory tiers, each request authenticated by a bearer
// token and scoped to one tenant and namespace.

#[derive(Debug, Clone)]
pub struct AuthPrincipal {
    pub node_id: String,
    pub tenant_id: String,
}

/// The headers a request carries that the hub reads.
pub struct RequestHeaders {
    pub protocol_version: Option<String>,
    pub authorization: Option<String>,
    pub read_tier: Option<String>,
}

pub struct PushRequest {
    pub node_id: String,
    pub tenant_id: String,
    pub namespace: String,
    pub mutations: Vec<Mutation>,
    pub last_checkpoint: u64,
}

pub struct PushResponse {
    pub accepted_seqs: Vec<u64>,
    pub new_checkpoint: u64,
    pub rejected_non_owner_count: u64,
    pub rejected_cross_tenant_count: u64,
    pub audit: Vec<GovernanceDecision>,
}

pub struct PullRequest {
    pub node_id: String,
    pub tenant_id: String,
    pub namespace: String,
    pub since_checkpoint: u64,
}

pub struct PullResponse {
    pub mutations: Vec<Mutation>,
    pub new_checkpoint: u64,
    pub audit: Vec<GovernanceDecision>,
}

pub struct PromoteRequest {
    pub node_id: String,
    pub tenant_id: String,
    pub namespace: String,
    pub from_tier: MemoryTier,
    pub to_tier: MemoryTier,
    pub candidate_id: String,
    pub mutation: Mutation,
}

pub struct PromoteResponse {
    pub accepted_seqs: Vec<u64>,
    pub new_checkpoint: u64,
    pub rejected_count: u64,
    pub audit: Vec<GovernanceDecision>,
}

/// HTTP status codes the hub answers with when it refuses a request.
pub open spec fn status_bad_request() -> u16 { 400 }
pub open spec fn status_unauthorized() -> u16 { 401 }
pub open spec fn status_forbidden() -> u16 { 403 }

/// The token of an `Authorization: Bearer <token>` header.
pub open spec fn bearer_token(auth: Seq<char>) -> Option<Seq<char>> {
    if auth.len() >= 7 && auth.subrange(0, 7) == "Bearer "@ {
        Some(auth.subrange(7, auth.len() as int))
    } else {
        None
    }
}

/// The token of an authorization header.
pub fn parse_bearer(auth: &str) -> (r: Option<String>)
    ensures
        match bearer_token(auth@) {
            Some(t) => r matches Some(s) && s@ == t,
            None => r is None,
        },
{
    proof { reveal_strlit("Bearer "); }
    let n = auth.unicode_len();
    if n < 7 {
        return None;
    }
    let head = String::from_str(auth.substring_char(0, 7));
    let want = String::from_str("Bearer ");
    if head == want {
        Some(String::from_str(auth.substring_char(7, n)))
    } else {
        None
    }
}

/// The one protocol version the hub speaks.
pub open spec fn version_ok(version: Option<String>) -> bool {
    version matches Some(v) && v@ == "1"@
}

pub fn protocol_ok(version: &Option<String>) -> (r: bool)
    ensures
        r == version_ok(*version),
{
    match version {
        Some(v) => crate::value::str_is(v, "1"),
        None => false,
    }
}

// ---------------------------------------------------------------------------
// Metadata validation.

/// The bit pattern of the double 0.0 and of 1.0.
pub open spec fn zero_bits() -> u64 { 0 }
pub open spec fn one_bits() -> u64 { 0x3FF0_0000_0000_0000 }

/// The first fault of a mutation's metadata, if any: a required text that is
/// empty, a schema version of zero, or a trust score that is not a number in
/// `[0, 1]`.
pub open spec fn metadata_fault(m: MutationMetadata) -> Option<Seq<char>> {
    if m.tenant_id@.len() == 0 {
        Some("tenant_id_required"@)
    } else if m.namespace@.len() == 0 {
        Some("namespace_required"@)
    } else if m.kind@.len() == 0 {
        Some("type_required"@)
    } else if m.source@.len() == 0 {
        Some("source_required"@)
    } else if m.actor@.len() == 0 {
        Some("actor_required"@)
    } else if m.lineage@.len() == 0 {
        Some("lineage_required"@)
    } else if m.schema_version == 0 {
        Some("schema_version_must_be_positive"@)
    } else if !f64_is_finite(m.trust_score) || f64_compare(m.trust_score, zero_bits()) == Some(-1i8)
        || f64_compare(m.trust_score, one_bits()) == Some(1i8) {
        Some("trust_score_out_of_range"@)
    } else {
        None
    }
}

/// Checks the metadata of a mutation.
pub fn validate_metadata(m: &MutationMetadata) -> (r: Result<(), String>)
    ensures
        match metadata_fault(*m) {
            None => r is Ok,
            Some(f) => r matches Err(e) && e@ == f,
        },
{
    if m.tenant_id.as_str().unicode_len() == 0 {
        return Err(String::from_str("tenant_id_required"));
    }
    if m.namespace.as_str().unicode_len() == 0 {
        return Err(String::from_str("namespace_required"));
    }
    if m.kind.as_str().unicode_len() == 0 {
        return Err(String::from_str("type_required"));
    }
    if m.source.as_str().unicode_len() == 0 {
        return Err(String::from_str("source_required"));
    }
    if m.actor.as_str().unicode_len() == 0 {
        return Err(String::from_str("actor_required"));
    }
    if m.lineage.as_str().unicode_len() == 0 {
        return Err(String::from_str("lineage_required"));
    }
    if m.schema_version == 0 {
        return Err(String::from_str("schema_version_must_be_positive"));
    }
    if !is_finite(m.trust_score) || float_compare(m.trust_score, 0) == Some(-1i8)
        || float_compare(m.trust_score, 0x3FF0_0000_0000_0000) == Some(1i8) {
        return Err(String::from_str("trust_score_out_of_range"));
    }
    Ok(())
}

// ---------------------------------------------------------------------------
// Small decisions of the routes.

fn reject(reason: &str) -> (r: GovernanceDecision)
    ensures
        r.decision == PolicyDecision::Reject,
        r.reason@ == reason@,
{
    GovernanceDecision { decision: PolicyDecision::Reject, reason: String::from_str(reason) }
}

/// `s` starts with `prefix`.
pub open spec fn has_prefix(s: Seq<char>, prefix: Seq<char>) -> bool {
    s.len() >= prefix.len() && s.subrange(0, prefix.len() as int) == prefix
}

fn starts_with_text(s: &String, prefix: &str) -> (r: bool)
    ensures
        r == has_prefix(s@, prefix@),
{
    let n = s.as_str().unicode_len();
    let k = prefix.unicode_len();
    if n < k {
        return false;
    }
    let head = String::from_str(s.as_str().substring_char(0, k));
    let want = String::from_str(prefix);
    head == want
}

/// A rejection for low trust is reported as poisoning.
pub open spec fn normalized_reason(d: PolicyDecision, reason: Seq<char>) -> Seq<char> {
    if d == PolicyDecision::Reject && has_prefix(reason, "trust_score_below_threshold"@) {
        "poisoning_low_trust:"@ + reason
    } else {
        reason
    }
}

pub fn normalize_write_decision(decision: GovernanceDecision) -> (r: GovernanceDecision)
    ensures
        r.decision == decision.decision,
        r.reason@ == normalized_reason(decision.decision, decision.reason@),
{
    let mut decision = decision;
    if decision.decision == PolicyDecision::Reject && starts_with_text(&decision.reason, "trust_score_below_threshold") {
        let mut reason = String::from_str("poisoning_low_trust:");
        string_append(&mut reason, &decision.reason);
        decision.reason = reason;
    }
    decision
}

/// The tier a pull reads: semantic when asked for, state otherwise.
pub open spec fn read_tier_of(header: Option<Seq<char>>) -> MemoryTier {
    match header {
        Some(h) => if h == "semantic"@ { MemoryTier::Semantic } else { MemoryTier::State },
        None => MemoryTier::State,
    }
}

pub fn parse_read_tier(header: &Option<String>) -> (r: MemoryTier)
    ensures
        r == read_tier_of(match header { Some(h) => Some(h@), None => None }),
{
    match header {
        Some(h) => if crate::value::str_is(h, "semantic") { MemoryTier::Semantic } else { MemoryTier::State },
        None => MemoryTier::State,
    }
}

/// Semantic reads see semantic projections only, other reads everything
/// else.
pub open spec fn visible_for_tier(kind: Seq<char>, tier: MemoryTier) -> bool {
    if tier == MemoryTier::Semantic { kind == "semantic_projection"@ } else { kind != "semantic_projection"@ }
}

pub fn mutation_visible_for_tier(mutation: &Mutation, tier: MemoryTier) -> (r: bool)
    ensures
        r == visible_for_tier(mutation.metadata.kind@, tier),
{
    let projection = crate::value::str_is(&mutation.metadata.kind, "semantic_projection");
    if tier == MemoryTier::Semantic { projection } else { !projection }
}

/// A semantic read marks what it returns as derived, not canonical.
pub fn annotate_mutation_for_read_tier(mutation: Mutation, tier: MemoryTier) -> (r: Mutation)
    ensures
        r.op == mutation.op,
        r.collection == mutation.collection,
        r.doc_id == mutation.doc_id,
        r.seq == mutation.seq,
        r.timestamp == mutation.timestamp,
        r.rev == mutation.rev,
        r.write_id == mutation.write_id,
        r.metadata == mutation.metadata,
        tier != MemoryTier::Semantic ==> r.patch == mutation.patch,
        tier == MemoryTier::Semantic ==> match mutation.patch {
            Some(p) => r.patch matches Some(q) && q@ == doc_insert(doc_insert(p@, "derived"@, VVal::Bool(true)),
                "canonical"@, VVal::Bool(false)),
            None => r.patch is None,
        },
{
    let mut mutation = mutation;
    if tier == MemoryTier::Semantic {
        match mutation.patch {
            Some(mut p) => {
                p.insert_lit("derived", Value::Bool(true));
                p.insert_lit("canonical", Value::Bool(false));
                mutation.patch = Some(p);
            },
            None => {},
        }
    }
    mutation
}

/// The fields that carry a candidate's identity through the read path.
pub open spec fn identity_seq_field() -> Seq<char> { "__rango_candidate_seq"@ }
pub open spec fn identity_write_id_field() -> Seq<char> { "__rango_candidate_write_id"@ }

/// A pull candidate: the entry's patch with its identity added.
pub fn add_candidate_identity(entry: &OplogEntry) -> (r: Option<Document>)
    ensures
        match entry.mutation.patch {
            Some(p) => r matches Some(c) && c@ == doc_insert(doc_insert(p@, identity_seq_field(),
                VVal::Int64(entry.seq as i64)), identity_write_id_field(), VVal::Str(entry.mutation.write_id@)),
            None => r is None,
        },
{
    match &entry.mutation.patch {
        Some(p) => {
            let mut c = p.deep_clone();
            c.insert_lit("__rango_candidate_seq", Value::Int64(entry.seq as i64));
            c.insert_lit("__rango_candidate_write_id", Value::Str(entry.mutation.write_id.clone()));
            Some(c)
        },
        None => None,
    }
}

/// The identity a candidate carries, if it still carries one.
pub fn candidate_identity(candidate: &Document) -> (r: Option<(u64, String)>)
    ensures
        match (crate::value::doc_get(candidate@, identity_seq_field()), crate::value::doc_get(candidate@, identity_write_id_field())) {
            (Some(VVal::Int64(s)), Some(VVal::Str(w))) => r matches Some((rs, rw)) && rs == s as u64 && rw@ == w,
            _ => r is None,
        },
{
    let seq = match candidate.get_lit("__rango_candidate_seq") {
        Some(Value::Int64(s)) => *s as u64,
        _ => { return None; },
    };
    match candidate.get_lit("__rango_candidate_write_id") {
        Some(Value::Str(w)) => Some((seq, w.clone())),
        _ => None,
    }
}

/// An oplog entry belongs to the scope of a tenant and namespace.
pub open spec fn in_scope(e: OplogEntry, tenant: Seq<char>, ns: Seq<char>) -> bool {
    e.mutation.metadata.tenant_id@ == tenant && e.mutation.metadata.namespace@ == ns
}

/// The audit record of a governance decision.
pub open spec fn audit_patch(
    stage: Seq<char>,
    decision: PolicyDecision,
    reason: Seq<char>,
    tenant: Seq<char>,
    ns: Seq<char>,
    write_id: Seq<char>,
    now: i64,
) -> VDoc {
    let d0 = Seq::<(Seq<char>, VVal)>::empty();
    let d1 = doc_insert(d0, "stage"@, VVal::Str(stage));
    let d2 = doc_insert(d1, "decision"@, VVal::Str(spec_decision_label(decision)));
    let d3 = doc_insert(d2, "reason"@, VVal::Str(reason));
    let d4 = doc_insert(d3, "tenant_id"@, VVal::Str(tenant));
    let d5 = doc_insert(d4, "namespace"@, VVal::Str(ns));
    let d6 = doc_insert(d5, "write_id"@, VVal::Str(write_id));
    doc_insert(d6, "recorded_at"@, VVal::DateTime(now))
}

/// An oplog entry is the audit record of a decision of `stage` in a scope.
pub open spec fn audit_entry(
    e: OplogEntry,
    stage: Seq<char>,
    d: PolicyDecision,
    reason: Seq<char>,
    tenant: Seq<char>,
    ns: Seq<char>,
    write_id: Seq<char>,
) -> bool {
    &&& e.origin == OplogOrigin::Local
    &&& e.mutation.op == MutationOp::Insert
    &&& e.mutation.collection@ == "__governance_audit"@
    &&& e.mutation.metadata.kind@ == "governance_audit"@
    &&& in_scope(e, tenant, ns)
    &&& exists|now: i64| e.mutation.patch matches Some(p) && #[trigger] audit_patch(stage, d, reason, tenant, ns, write_id, now) == p@
}

/// The write id of the `n`-th audit record: it names the scope, the stage,
/// the audited write and the running count.
pub open spec fn audit_write_id(tenant: Seq<char>, ns: Seq<char>, stage: Seq<char>, write_id: Seq<char>, n: u64) -> Seq<char> {
    "governance-audit:"@ + tenant + ":"@ + ns + ":"@ + stage + ":"@ + write_id + ":"@ + decimal(n as nat)
}

/// `after` is `before` with the audit record of a decision appended, when
/// the log has room for one.
pub open spec fn audit_appended(
    before: Seq<OplogEntry>,
    after: Seq<OplogEntry>,
    stage: Seq<char>,
    d: PolicyDecision,
    reason: Seq<char>,
    tenant: Seq<char>,
    ns: Seq<char>,
    write_id: Seq<char>,
) -> bool {
    if before.len() < u64::MAX {
        &&& after.len() == before.len() + 1
        &&& after.drop_last() == before
        &&& audit_entry(after.last(), stage, d, reason, tenant, ns, write_id)
    } else {
        after == before
    }
}

/// The write id of an optional one, or `none`.
pub open spec fn write_id_or_none(w: Option<Seq<char>>) -> Seq<char> {
    match w {
        Some(s) => s,
        None => "none"@,
    }
}

/// A copy of a mutation: every field the same, by value.
/// An entry that already took write id `w` in tenant `t` and namespace `n`.
pub open spec fn same_identity(e: OplogEntry, w: Seq<char>, t: Seq<char>, n: Seq<char>) -> bool {
    &&& e.mutation.write_id@ == w
    &&& e.mutation.metadata.tenant_id@ == t
    &&& e.mutation.metadata.namespace@ == n
}

pub open spec fn same_mutation(c: Mutation, m: Mutation) -> bool {
    &&& same_but_patch(c, m)
    &&& match (c.patch, m.patch) {
        (Some(p), Some(q)) => p@ == q@,
        (None, None) => true,
        _ => false,
    }
}

/// Every field of the two mutations but the patch the same, by value.
pub open spec fn same_but_patch(c: Mutation, m: Mutation) -> bool {
    &&& c.op == m.op
    &&& c.collection@ == m.collection@
    &&& c.doc_id@ == m.doc_id@
    &&& c.seq == m.seq
    &&& c.timestamp == m.timestamp
    &&& c.rev@ == m.rev@
    &&& c.write_id@ == m.write_id@
    &&& c.metadata.id@ == m.metadata.id@
    &&& c.metadata.namespace@ == m.metadata.namespace@
    &&& c.metadata.tenant_id@ == m.metadata.tenant_id@
    &&& c.metadata.kind@ == m.metadata.kind@
    &&& c.metadata.rev@ == m.metadata.rev@
    &&& c.metadata.created_at == m.metadata.created_at
    &&& c.metadata.updated_at == m.metadata.updated_at
    &&& c.metadata.source@ == m.metadata.source@
    &&& c.metadata.actor@ == m.metadata.actor@
    &&& c.metadata.lineage@ == m.metadata.lineage@
    &&& c.metadata.schema_version == m.metadata.schema_version
    &&& c.metadata.trust_score == m.metadata.trust_score
    &&& c.metadata.verified == m.metadata.verified
    &&& c.metadata.expires_at == m.metadata.expires_at
}

/// A copy of a mutation.
pub fn copy_mutation(m: &Mutation) -> (c: Mutation)
    ensures
        same_mutation(c, *m),
{
    let md = &m.metadata;
    let metadata = MutationMetadata {
        id: md.id.deep_clone(),
        namespace: md.namespace.clone(),
        tenant_id: md.tenant_id.clone(),
        kind: md.kind.clone(),
        rev: md.rev.clone_revision(),
        created_at: md.created_at,
        updated_at: md.updated_at,
        source: md.source.clone(),
        actor: md.actor.clone(),
        lineage: md.lineage.clone(),
        schema_version: md.schema_version,
        trust_score: md.trust_score,
        verified: md.verified,
        expires_at: md.expires_at,
    };
    Mutation {
        op: m.op,
        collection: m.collection.clone(),
        doc_id: m.doc_id.deep_clone(),
        patch: match &m.patch {
            Some(p) => Some(p.deep_clone()),
            None => None,
        },
        seq: m.seq,
        timestamp: m.timestamp,
        rev: m.rev.clone_revision(),
        write_id: m.write_id.clone(),
        metadata,
    }
}

/// A mutation that may come back from a pull of a scope and tier.
pub open spec fn pullable_copy(m: Mutation, tenant: Seq<char>, ns: Seq<char>, tier: MemoryTier) -> bool {
    &&& m.metadata.tenant_id@ == tenant
    &&& m.metadata.namespace@ == ns
    &&& m.metadata.kind@ != "governance_audit"@
    &&& visible_for_tier(m.metadata.kind@, tier)
    &&& m.patch is Some
}

/// The entries among `es` that a pull for (`t`, `ns`) in `tier` offers to
/// the read path, in order.
pub open spec fn pull_scoped(es: Seq<OplogEntry>, t: Seq<char>, ns: Seq<char>, tier: MemoryTier) -> Seq<OplogEntry>
    decreases es.len(),
{
    if es.len() == 0 {
        Seq::empty()
    } else {
        let prev = pull_scoped(es.drop_last(), t, ns, tier);
        if pullable_copy(es.last().mutation, t, ns, tier) { prev.push(es.last()) } else { prev }
    }
}

/// The read-path candidate of an entry: its patch with its identity added.
pub open spec fn candidate_doc(e: OplogEntry) -> VDoc {
    doc_insert(doc_insert(patch_doc(e.mutation), identity_seq_field(), VVal::Int64(e.seq as i64)),
        identity_write_id_field(), VVal::Str(e.mutation.write_id@))
}

pub open spec fn candidate_docs(es: Seq<OplogEntry>) -> Seq<VDoc> {
    es.map_values(|e: OplogEntry| candidate_doc(e))
}

/// A candidate that carries the identity (`seq`, `w`).
pub open spec fn has_identity(d: VDoc, seq: u64, w: Seq<char>) -> bool {
    match (crate::value::doc_get(d, identity_seq_field()), crate::value::doc_get(d, identity_write_id_field())) {
        (Some(VVal::Int64(s)), Some(VVal::Str(x))) => s as u64 == seq && x == w,
        _ => false,
    }
}

/// Some kept candidate carries the identity (`seq`, `w`).
pub open spec fn identity_kept(kept: Seq<VDoc>, seq: u64, w: Seq<char>) -> bool {
    exists|k: int| 0 <= k < kept.len() && #[trigger] has_identity(kept[k], seq, w)
}

/// The entries whose candidates the read path kept, in log order.
pub open spec fn pull_kept(es: Seq<OplogEntry>, kept: Seq<VDoc>) -> Seq<OplogEntry>
    decreases es.len(),
{
    if es.len() == 0 {
        Seq::empty()
    } else {
        let prev = pull_kept(es.drop_last(), kept);
        if identity_kept(kept, es.last().seq, es.last().mutation.write_id@) { prev.push(es.last()) } else { prev }
    }
}

/// The patch a read in `tier` returns: a semantic read marks it derived,
/// not canonical.
pub open spec fn tier_patch(p: VDoc, tier: MemoryTier) -> VDoc {
    if tier == MemoryTier::Semantic {
        doc_insert(doc_insert(p, "derived"@, VVal::Bool(true)), "canonical"@, VVal::Bool(false))
    } else {
        p
    }
}

/// `m` is the mutation of entry `e` as a pull in `tier` returns it.
/// It is that mutation unchanged but for the tier's marks on its patch.
pub open spec fn pulled_as(m: Mutation, e: OplogEntry, tier: MemoryTier) -> bool {
    &&& same_but_patch(m, e.mutation)
    &&& m.patch matches Some(q) && q@ == tier_patch(patch_doc(e.mutation), tier)
}

/// Whether some candidate carries the identity (`seq`, `w`).
fn identity_listed(filtered: &Vec<Document>, seq: u64, w: &String) -> (r: bool)
    ensures
        r == identity_kept(crate::cursor::doc_views(filtered@), seq, w@),
{
    let ghost fv = crate::cursor::doc_views(filtered@);
    let mut k: usize = 0;
    while k < filtered.len()
        invariant
            k <= filtered@.len(),
            fv == crate::cursor::doc_views(filtered@),
            forall|j: int| 0 <= j < k ==> !has_identity(#[trigger] fv[j], seq, w@),
        decreases filtered@.len() - k,
    {
        assert(fv[k as int] == filtered@[k as int]@);
        match candidate_identity(&filtered[k]) {
            Some((s, x)) => {
                if s == seq && x == *w {
                    assert(has_identity(fv[k as int], seq, w@));
                    return true;
                }
            },
            None => {},
        }
        k = k + 1;
    }
    false
}

fn is_audit_kind(m: &Mutation) -> (r: bool)
    ensures
        r == (m.metadata.kind@ == "governance_audit"@),
{
    crate::value::str_is(&m.metadata.kind, "governance_audit")
}

// ---------------------------------------------------------------------------
// What a push decides.

/// The document a mutation carries: its patch, or an empty one.
pub open spec fn patch_doc(m: Mutation) -> VDoc {
    match m.patch {
        Some(p) => p@,
        None => Seq::empty(),
    }
}

/// The decisions of a list, as values.
pub open spec fn decisions_view(v: Seq<GovernanceDecision>) -> Seq<(PolicyDecision, Seq<char>)> {
    v.map_values(|d: GovernanceDecision| decision_view(d))
}

/// The decision on one mutation pushed to scope (`t`, `n`) at `now`, with
/// the scope in state `st`, whether it was refused for crossing the scope,
/// and the scope's state after: containment first (after a cooldown), then
/// the metadata, the scope, and the write path's verdict.
pub open spec fn push_step<V: WriteValidationHook, T: TrustScoringHook>(
    v: V,
    tr: T,
    st: ContainmentState,
    m: Mutation,
    t: Seq<char>,
    n: Seq<char>,
    now: u64,
) -> ((PolicyDecision, Seq<char>), bool, ContainmentState) {
    let c = cooled(st, now);
    let (d, cross) = match gate_reason(c.mode) {
        Some(why) => ((PolicyDecision::Reject, why), false),
        None => match metadata_fault(m.metadata) {
            Some(e) => ((PolicyDecision::Reject, "invalid_metadata:"@ + e), false),
            None => if !(m.metadata.tenant_id@ == t && m.metadata.namespace@ == n) {
                ((PolicyDecision::Reject, "cross_tenant_or_namespace_mutation"@), true)
            } else {
                let ctx = (t, n, m.metadata.actor@, m.metadata.source@, MemoryTier::State);
                let pv = (1int, patch_doc(m), Some(m.metadata.trust_score));
                let w = write_verdict(v.validate_spec(ctx, pv), tr.score_spec(ctx, pv));
                ((w.0, normalized_reason(w.0, w.1)), false)
            },
        },
    };
    (d, cross, observed(c, d.0, now))
}

/// The decisions on the mutations `ms` pushed in order, each with whether
/// it crossed the scope.
pub open spec fn push_outcomes<V: WriteValidationHook, T: TrustScoringHook>(
    v: V,
    tr: T,
    st: ContainmentState,
    ms: Seq<Mutation>,
    t: Seq<char>,
    n: Seq<char>,
    now: u64,
) -> Seq<((PolicyDecision, Seq<char>), bool)>
    decreases ms.len(),
{
    if ms.len() == 0 {
        Seq::empty()
    } else {
        let (d, cross, st2) = push_step(v, tr, st, ms[0], t, n, now);
        seq![(d, cross)] + push_outcomes(v, tr, st2, ms.drop_first(), t, n, now)
    }
}

/// The scope's containment state after the mutations `ms` are pushed.
pub open spec fn push_end<V: WriteValidationHook, T: TrustScoringHook>(
    v: V,
    tr: T,
    st: ContainmentState,
    ms: Seq<Mutation>,
    t: Seq<char>,
    n: Seq<char>,
    now: u64,
) -> ContainmentState
    decreases ms.len(),
{
    if ms.len() == 0 {
        st
    } else {
        push_end(v, tr, push_step(v, tr, st, ms[0], t, n, now).2, ms.drop_first(), t, n, now)
    }
}

/// How many outcomes do not reject.
pub open spec fn accepted_count(os: Seq<((PolicyDecision, Seq<char>), bool)>) -> nat
    decreases os.len(),
{
    if os.len() == 0 {
        0
    } else {
        accepted_count(os.drop_last()) + if os.last().0.0 != PolicyDecision::Reject { 1nat } else { 0nat }
    }
}

/// How many outcomes crossed the scope.
pub open spec fn cross_count(os: Seq<((PolicyDecision, Seq<char>), bool)>) -> nat
    decreases os.len(),
{
    if os.len() == 0 {
        0
    } else {
        cross_count(os.drop_last()) + if os.last().1 { 1nat } else { 0nat }
    }
}

/// Why a promotion is refused before the promotion path runs, if it is:
/// the token's node, then its tenant, then the mutation's metadata, then
/// its scope.
pub open spec fn promote_early(p: AuthPrincipal, node: Seq<char>, tenant: Seq<char>, ns: Seq<char>, m: Mutation) -> Option<Seq<char>> {
    if node != p.node_id@ {
        Some("node_mismatch"@)
    } else if tenant != p.tenant_id@ {
        Some("tenant_mismatch"@)
    } else {
        match metadata_fault(m.metadata) {
            Some(e) => Some("invalid_metadata:"@ + e),
            None => if !(m.metadata.tenant_id@ == tenant && m.metadata.namespace@ == ns) {
                Some("cross_tenant_or_namespace_mutation"@)
            } else {
                None
            },
        }
    }
}

/// The decision on a promotion that passed the early checks, with its
/// scope in state `st` at `now`: the route between tiers, then
/// containment (after a cooldown), then the promotion gate on the
/// sanitized candidate.
pub open spec fn promote_verdict<P: PromotionGateHook>(
    gate: P,
    st: ContainmentState,
    rq: (Seq<char>, Seq<char>, MemoryTier, MemoryTier, Seq<char>),
    m: Mutation,
    now: u64,
) -> (PolicyDecision, Seq<char>) {
    if !crate::control_plane::semantic_route_ok(rq.2, rq.3) {
        (PolicyDecision::Reject, crate::control_plane::semantic_route_reason())
    } else {
        match gate_reason(cooled(st, now).mode) {
            Some(why) => (PolicyDecision::Reject, why),
            None => {
                let pv = (1int, patch_doc(m), Some(m.metadata.trust_score));
                gate.allow_spec(rq, gate.sanitize_spec(rq, pv))
            },
        }
    }
}

/// An entry shaped as an audit record of scope (`t`, `ns`).
pub open spec fn audit_shaped(e: OplogEntry, t: Seq<char>, ns: Seq<char>) -> bool {
    &&& e.origin == OplogOrigin::Local
    &&& e.mutation.op == MutationOp::Insert
    &&& e.mutation.collection@ == "__governance_audit"@
    &&& e.mutation.metadata.kind@ == "governance_audit"@
    &&& in_scope(e, t, ns)
}

/// The mutations of `ms` whose decisions in `os` do not reject, in order.
pub open spec fn accepted_of(ms: Seq<Mutation>, os: Seq<((PolicyDecision, Seq<char>), bool)>) -> Seq<Mutation>
    decreases ms.len(),
{
    if ms.len() == 0 || os.len() == 0 {
        Seq::empty()
    } else {
        let prev = accepted_of(ms.drop_last(), os.drop_last());
        if os.last().0.0 != PolicyDecision::Reject { prev.push(ms.last()) } else { prev }
    }
}

/// How many entries were made locally.
pub open spec fn local_count(es: Seq<OplogEntry>) -> nat
    decreases es.len(),
{
    if es.len() == 0 {
        0
    } else {
        local_count(es.drop_last()) + if es.last().origin == OplogOrigin::Local { 1nat } else { 0nat }
    }
}

/// What a write to scope (`t`, `ns`) left in the log from position `base`
/// on, having accepted `acc` under the numbers `seqs`: every new local entry
/// is an audit record of the scope; every new remote entry holds an
/// accepted mutation and is numbered by its seq; each accepted seq numbers
/// an entry with that mutation's write id in the scope.
pub open spec fn write_log_ok(log: Seq<OplogEntry>, base: int, t: Seq<char>, ns: Seq<char>, acc: Seq<Mutation>, seqs: Seq<u64>) -> bool {
    &&& seqs.len() == acc.len()
    &&& forall|k: int| 0 <= k < acc.len() ==> {
        &&& 1 <= #[trigger] seqs[k] <= log.len()
        &&& same_identity(log[seqs[k] - 1], acc[k].write_id@, t, ns)
    }
    &&& forall|j: int| base <= j < log.len() && (#[trigger] log[j]).origin == OplogOrigin::Local ==> audit_shaped(log[j], t, ns)
    &&& forall|j: int| base <= j < log.len() && (#[trigger] log[j]).origin == OplogOrigin::Remote ==>
        exists|k: int| 0 <= k < acc.len() && log[j].mutation == #[trigger] acc[k] && seqs[k] == j + 1
}

/// An audit record keeps what was said of the log.
proof fn lemma_write_log_audit(log: Seq<OplogEntry>, after: Seq<OplogEntry>, base: int, t: Seq<char>, ns: Seq<char>,
    acc: Seq<Mutation>, seqs: Seq<u64>, stage: Seq<char>, d: PolicyDecision, reason: Seq<char>, w: Seq<char>)
    requires
        0 <= base <= log.len(),
        write_log_ok(log, base, t, ns, acc, seqs),
        audit_appended(log, after, stage, d, reason, t, ns, w),
    ensures
        write_log_ok(after, base, t, ns, acc, seqs),
        after.len() <= log.len() + 1,
        after.subrange(0, log.len() as int) == log,
        local_count(after.subrange(base, after.len() as int)) == local_count(log.subrange(base, log.len() as int))
            + if log.len() < u64::MAX { 1nat } else { 0nat },
{
    if log.len() < u64::MAX {
        assert forall|j: int| 0 <= j < log.len() implies #[trigger] after[j] == log[j] by {
            assert(after.drop_last()[j] == after[j]);
        }
        assert(after.subrange(0, log.len() as int) =~= log);
        assert(after.subrange(base, after.len() as int).drop_last() =~= log.subrange(base, log.len() as int));
        assert forall|k: int| 0 <= k < acc.len() implies {
            &&& 1 <= #[trigger] seqs[k] <= after.len()
            &&& same_identity(after[seqs[k] - 1], acc[k].write_id@, t, ns)
        } by {
            assert(after[seqs[k] - 1] == log[seqs[k] - 1]);
        }
        assert forall|j: int| base <= j < after.len() && (#[trigger] after[j]).origin == OplogOrigin::Remote implies
            exists|k: int| 0 <= k < acc.len() && after[j].mutation == #[trigger] acc[k] && seqs[k] == j + 1 by {
            assert(j < log.len());
            assert(after[j] == log[j]);
        }
    } else {
        assert(after.subrange(0, log.len() as int) =~= log);
    }
}

/// Accepting a mutation keeps what was said of the log, with the mutation
/// and its number added: either it is appended as a remote entry, or an
/// entry with its write id was already there.
proof fn lemma_write_log_accept(log: Seq<OplogEntry>, after: Seq<OplogEntry>, base: int, t: Seq<char>, ns: Seq<char>,
    acc: Seq<Mutation>, seqs: Seq<u64>, m: Mutation, seq: u64)
    requires
        0 <= base <= log.len(),
        write_log_ok(log, base, t, ns, acc, seqs),
        (after == log && 1 <= seq <= log.len() && same_identity(log[seq - 1], m.write_id@, t, ns)) || ({
            &&& after.len() == log.len() + 1
            &&& after.drop_last() == log
            &&& after.last().origin == OplogOrigin::Remote
            &&& after.last().mutation == m
            &&& m.metadata.tenant_id@ == t
            &&& m.metadata.namespace@ == ns
            &&& seq == after.len()
        }),
    ensures
        write_log_ok(after, base, t, ns, acc.push(m), seqs.push(seq)),
        after.subrange(0, log.len() as int) == log,
        local_count(after.subrange(base, after.len() as int)) == local_count(log.subrange(base, log.len() as int)),
{
    let acc2 = acc.push(m);
    let seqs2 = seqs.push(seq);
    if after == log {
        assert(after.subrange(0, log.len() as int) =~= log);
        assert forall|j: int| base <= j < after.len() && (#[trigger] after[j]).origin == OplogOrigin::Remote implies
            exists|k: int| 0 <= k < acc2.len() && after[j].mutation == #[trigger] acc2[k] && seqs2[k] == j + 1 by {
            let k = choose|k: int| 0 <= k < acc.len() && log[j].mutation == #[trigger] acc[k] && seqs[k] == j + 1;
            assert(acc2[k] == acc[k]);
        }
    } else {
        assert forall|j: int| 0 <= j < log.len() implies #[trigger] after[j] == log[j] by {
            assert(after.drop_last()[j] == after[j]);
        }
        assert(after.subrange(0, log.len() as int) =~= log);
        assert(after.subrange(base, after.len() as int).drop_last() =~= log.subrange(base, log.len() as int));
        assert forall|j: int| base <= j < after.len() && (#[trigger] after[j]).origin == OplogOrigin::Remote implies
            exists|k: int| 0 <= k < acc2.len() && after[j].mutation == #[trigger] acc2[k] && seqs2[k] == j + 1 by {
            if j < log.len() {
                assert(after[j] == log[j]);
                let k = choose|k: int| 0 <= k < acc.len() && log[j].mutation == #[trigger] acc[k] && seqs[k] == j + 1;
                assert(acc2[k] == acc[k]);
            } else {
                assert(acc2[acc.len() as int] == m);
            }
        }
        assert forall|j: int| base <= j < after.len() && (#[trigger] after[j]).origin == OplogOrigin::Local implies
            audit_shaped(after[j], t, ns) by {
            assert(j < log.len());
            assert(after[j] == log[j]);
        }
    }
    assert forall|k: int| 0 <= k < acc2.len() implies {
        &&& 1 <= #[trigger] seqs2[k] <= after.len()
        &&& same_identity(after[seqs2[k] - 1], acc2[k].write_id@, t, ns)
    } by {
        if k < acc.len() {
            assert(seqs2[k] == seqs[k]);
            assert(acc2[k] == acc[k]);
            assert(after[seqs[k] - 1] == log[seqs[k] - 1]);
        }
    }
}

/// A refused mutation of a push leaves its audit record and nothing else.
proof fn lemma_push_refused_step(before: Seq<OplogEntry>, after: Seq<OplogEntry>, base: int, t: Seq<char>, ns: Seq<char>,
    acc: Seq<Mutation>, seqs: Seq<u64>, all: Seq<Mutation>, n: int, outs: Seq<((PolicyDecision, Seq<char>), bool)>,
    o: ((PolicyDecision, Seq<char>), bool), total: int, d: PolicyDecision, reason: Seq<char>, w: Seq<char>)
    requires
        0 <= base <= before.len(),
        0 <= n < total == all.len(),
        outs.len() == n,
        acc == accepted_of(all.subrange(0, n), outs),
        write_log_ok(before, base, t, ns, acc, seqs),
        base + 2 * total < u64::MAX ==> local_count(before.subrange(base, before.len() as int)) == n,
        before.len() <= base + 2 * n,
        audit_appended(before, after, "write"@, d, reason, t, ns, w),
        o.0.0 == PolicyDecision::Reject,
    ensures
        acc == accepted_of(all.subrange(0, n + 1), outs.push(o)),
        write_log_ok(after, base, t, ns, acc, seqs),
        base + 2 * total < u64::MAX ==> local_count(after.subrange(base, after.len() as int)) == n + 1,
        after.len() <= base + 2 * (n + 1),
        after.subrange(0, before.len() as int) == before,
{
    lemma_write_log_audit(before, after, base, t, ns, acc, seqs, "write"@, d, reason, w);
    assert(all.subrange(0, n + 1).drop_last() =~= all.subrange(0, n));
    assert(outs.push(o).drop_last() =~= outs);
}

/// An accepted mutation of a push leaves its audit record and, unless an
/// entry with its write id was there already, itself as a remote entry.
proof fn lemma_push_accepted_step(before: Seq<OplogEntry>, mid: Seq<OplogEntry>, after: Seq<OplogEntry>, base: int,
    t: Seq<char>, ns: Seq<char>, acc: Seq<Mutation>, seqs: Seq<u64>, all: Seq<Mutation>, n: int,
    outs: Seq<((PolicyDecision, Seq<char>), bool)>, o: ((PolicyDecision, Seq<char>), bool), total: int,
    d: PolicyDecision, reason: Seq<char>, m: Mutation, seq: u64)
    requires
        0 <= base <= before.len(),
        0 <= n < total == all.len(),
        outs.len() == n,
        acc == accepted_of(all.subrange(0, n), outs),
        write_log_ok(before, base, t, ns, acc, seqs),
        base + 2 * total < u64::MAX ==> local_count(before.subrange(base, before.len() as int)) == n,
        before.len() <= base + 2 * n,
        audit_appended(before, mid, "write"@, d, reason, t, ns, m.write_id@),
        o.0.0 != PolicyDecision::Reject,
        m == all[n],
        (after == mid && 1 <= seq <= mid.len() && same_identity(mid[seq - 1], m.write_id@, t, ns)) || ({
            &&& after.len() == mid.len() + 1
            &&& after.drop_last() == mid
            &&& after.last().origin == OplogOrigin::Remote
            &&& after.last().mutation == m
            &&& m.metadata.tenant_id@ == t
            &&& m.metadata.namespace@ == ns
            &&& seq == after.len()
        }),
    ensures
        acc.push(m) == accepted_of(all.subrange(0, n + 1), outs.push(o)),
        write_log_ok(after, base, t, ns, acc.push(m), seqs.push(seq)),
        base + 2 * total < u64::MAX ==> local_count(after.subrange(base, after.len() as int)) == n + 1,
        after.len() <= base + 2 * (n + 1),
        after.subrange(0, before.len() as int) == before,
{
    lemma_write_log_audit(before, mid, base, t, ns, acc, seqs, "write"@, d, reason, m.write_id@);
    lemma_write_log_accept(mid, after, base, t, ns, acc, seqs, m, seq);
    assert(all.subrange(0, n + 1).drop_last() =~= all.subrange(0, n));
    assert(all.subrange(0, n + 1).last() == m);
    assert(outs.push(o).drop_last() =~= outs);
    assert(after.subrange(0, before.len() as int) =~= mid.subrange(0, before.len() as int));
}

/// `a + k` modulo 2^64, as an atomic counter counts.
pub open spec fn bump_by(a: u64, k: nat) -> u64 {
    ((a + k) % 0x1_0000_0000_0000_0000) as u64
}

// ---------------------------------------------------------------------------
// The hub's state.

pub struct ServerState<V, T, P, R, B, A, S> {
    oplog: MemoryOplog,
    tokens: Vec<(String, AuthPrincipal)>,
    non_owner_rejections: u64,
    cross_tenant_rejections: u64,
    pub control_plane: ControlPlane<V, T, P, R, B, A, S>,
    containment: Vec<(String, String, ContainmentState)>,
    audit_counter: u64,
}

/// The principal a token names: the first entry with that token.
pub open spec fn token_lookup(tokens: Seq<(String, AuthPrincipal)>, t: Seq<char>) -> Option<AuthPrincipal>
    decreases tokens.len(),
{
    if tokens.len() == 0 {
        None
    } else if tokens[0].0@ == t {
        Some(tokens[0].1)
    } else {
        token_lookup(tokens.drop_first(), t)
    }
}

/// Position of the first containment scope for (`t`, `n`) at or after `i`, or -1.
pub open spec fn scope_pos(c: Seq<(String, String, ContainmentState)>, t: Seq<char>, n: Seq<char>, i: int) -> int
    decreases c.len() - i,
{
    if i < 0 || i >= c.len() {
        -1
    } else if c[i].0@ == t && c[i].1@ == n {
        i
    } else {
        scope_pos(c, t, n, i + 1)
    }
}

/// The containment state of scope (`t`, `n`): none until a decision there
/// has been gated or counted.
pub open spec fn scope_state(c: Seq<(String, String, ContainmentState)>, t: Seq<char>, n: Seq<char>) -> Option<ContainmentState> {
    let p = scope_pos(c, t, n, 0);
    if p < 0 { None } else { Some(c[p].2) }
}

/// The state a scope is taken in at `now_ms`: its own, or a fresh one.
pub open spec fn scope_or_fresh(s: Option<ContainmentState>, now_ms: u64) -> ContainmentState {
    match s {
        Some(st) => st,
        None => fresh_scope(now_ms),
    }
}

proof fn lemma_scope_pos_range(c: Seq<(String, String, ContainmentState)>, t: Seq<char>, n: Seq<char>, i: int)
    requires
        0 <= i,
    ensures
        scope_pos(c, t, n, i) == -1 || (i <= scope_pos(c, t, n, i) < c.len() && c[scope_pos(c, t, n, i)].0@ == t
            && c[scope_pos(c, t, n, i)].1@ == n),
        scope_pos(c, t, n, i) == -1 ==> forall|j: int| i <= j < c.len() ==> !(c[j].0@ == t && c[j].1@ == n),
        forall|j: int| i <= j < scope_pos(c, t, n, i) ==> !(c[j].0@ == t && c[j].1@ == n),
    decreases c.len() - i,
{
    if i < c.len() && !(c[i].0@ == t && c[i].1@ == n) {
        lemma_scope_pos_range(c, t, n, i + 1);
    }
}

/// The first position is the position of any match before which none is.
proof fn lemma_scope_pos_is(c: Seq<(String, String, ContainmentState)>, t: Seq<char>, n: Seq<char>, p: int)
    requires
        0 <= p < c.len(),
        c[p].0@ == t && c[p].1@ == n,
        forall|j: int| 0 <= j < p ==> !(c[j].0@ == t && c[j].1@ == n),
    ensures
        scope_pos(c, t, n, 0) == p,
{
    lemma_scope_pos_range(c, t, n, 0);
}

/// Equal names at each position give the same first match.
proof fn lemma_scope_pos_names(a: Seq<(String, String, ContainmentState)>, b: Seq<(String, String, ContainmentState)>,
    t: Seq<char>, n: Seq<char>, i: int)
    requires
        0 <= i,
        a.len() == b.len(),
        forall|j: int| 0 <= j < a.len() ==> #[trigger] a[j].0@ == b[j].0@ && a[j].1@ == b[j].1@,
    ensures
        scope_pos(a, t, n, i) == scope_pos(b, t, n, i),
    decreases a.len() - i,
{
    if i < a.len() {
        lemma_scope_pos_names(a, b, t, n, i + 1);
    }
}

/// Looking a scope up after a push.
proof fn lemma_scope_pos_push(c: Seq<(String, String, ContainmentState)>, e: (String, String, ContainmentState),
    t: Seq<char>, n: Seq<char>, i: int)
    requires
        0 <= i <= c.len(),
    ensures
        scope_pos(c.push(e), t, n, i) == if scope_pos(c, t, n, i) >= 0 {
            scope_pos(c, t, n, i)
        } else if e.0@ == t && e.1@ == n {
            c.len() as int
        } else {
            -1
        },
    decreases c.len() - i,
{
    if i < c.len() {
        assert(c.push(e)[i] == c[i]);
        lemma_scope_pos_push(c, e, t, n, i + 1);
    } else {
        assert(c.push(e)[i] == e);
        assert(scope_pos(c.push(e), t, n, i + 1) == -1);
    }
}

/// Replacing the state at the position of scope (`t`, `n`), names kept,
/// changes that scope's state and no other's.
proof fn lemma_scope_state_update(c: Seq<(String, String, ContainmentState)>, r: int, e: (String, String, ContainmentState),
    t: Seq<char>, n: Seq<char>)
    requires
        0 <= r < c.len(),
        scope_pos(c, t, n, 0) == r,
        e.0@ == c[r].0@,
        e.1@ == c[r].1@,
    ensures
        scope_state(c.update(r, e), t, n) == Some(e.2),
        forall|t2: Seq<char>, n2: Seq<char>| !(t2 == t && n2 == n) ==>
            #[trigger] scope_state(c.update(r, e), t2, n2) == scope_state(c, t2, n2),
{
    let u = c.update(r, e);
    assert forall|j: int| 0 <= j < u.len() implies #[trigger] u[j].0@ == c[j].0@ && u[j].1@ == c[j].1@ by {}
    lemma_scope_pos_names(u, c, t, n, 0);
    assert forall|t2: Seq<char>, n2: Seq<char>| !(t2 == t && n2 == n) implies
        #[trigger] scope_state(u, t2, n2) == scope_state(c, t2, n2) by {
        lemma_scope_pos_names(u, c, t2, n2, 0);
        lemma_scope_pos_range(c, t2, n2, 0);
        lemma_scope_pos_range(c, t, n, 0);
        let p = scope_pos(c, t2, n2, 0);
        if p >= 0 {
            assert(p != r);
            assert(u[p] == c[p]);
        }
    }
}

/// What an authorization header authenticates.
pub open spec fn principal_of(tokens: Seq<(String, AuthPrincipal)>, auth: Option<Seq<char>>) -> Option<AuthPrincipal> {
    match auth {
        Some(a) => match bearer_token(a) {
            Some(t) => token_lookup(tokens, t),
            None => None,
        },
        None => None,
    }
}

pub open spec fn header_text(h: Option<String>) -> Option<Seq<char>> {
    match h {
        Some(s) => Some(s@),
        None => None,
    }
}

/// `a + 1` modulo 2^64, as an atomic counter counts.
pub open spec fn bump(a: u64) -> u64 {
    if a == u64::MAX { 0 } else { (a + 1) as u64 }
}

fn bump_exec(a: u64) -> (r: u64)
    ensures
        r == bump(a),
{
    if a == u64::MAX { 0 } else { a + 1 }
}

impl<V, T, P, R, B, A, S> ServerState<V, T, P, R, B, A, S>
    where
        V: WriteValidationHook,
        T: TrustScoringHook,
        P: PromotionGateHook,
        R: RetrievalGateHook,
        B: BoundedContextFilterHook,
        A: AnomalySignalHook,
        S: AuditSink,
{
    pub closed spec fn wf(&self) -> bool {
        &&& self.oplog.wf()
        &&& forall|i: int| 0 <= i < self.containment@.len() ==> (#[trigger] self.containment@[i]).2.wf()
    }

    /// The hub's oplog.
    pub closed spec fn log(&self) -> Seq<OplogEntry> {
        self.oplog.view()
    }

    /// The hooks of the write path: validation and trust scoring.
    pub closed spec fn write_hooks(&self) -> (V, T) {
        (self.control_plane.validation_hook, self.control_plane.trust_hook)
    }

    /// The hooks of the read path: the retrieval gate and the bounded
    /// context filter.
    pub closed spec fn read_hooks(&self) -> (R, B) {
        (self.control_plane.retrieval_hook, self.control_plane.bounded_context_hook)
    }

    /// The promotion gate hook.
    pub closed spec fn promotion_gate(&self) -> P {
        self.control_plane.promotion_hook
    }

    /// The containment state of scope (`t`, `n`), if it has one yet.
    pub closed spec fn scope(&self, t: Seq<char>, n: Seq<char>) -> Option<ContainmentState> {
        scope_state(self.containment@, t, n)
    }

    pub closed spec fn token_table(&self) -> Seq<(String, AuthPrincipal)> {
        self.tokens@
    }

    pub closed spec fn non_owner_count(&self) -> u64 {
        self.non_owner_rejections
    }

    pub closed spec fn cross_tenant_count(&self) -> u64 {
        self.cross_tenant_rejections
    }

    pub fn with_control_plane(control_plane: ControlPlane<V, T, P, R, B, A, S>) -> (r: Self)
        ensures
            r.wf(),
            r.log().len() == 0,
            r.token_table().len() == 0,
            r.non_owner_count() == 0,
            r.cross_tenant_count() == 0,
    {
        ServerState {
            oplog: MemoryOplog::new(),
            tokens: Vec::new(),
            non_owner_rejections: 0,
            cross_tenant_rejections: 0,
            control_plane,
            containment: Vec::new(),
            audit_counter: 0,
        }
    }

    /// A hub over an oplog it already holds, such as one restored from
    /// disk.
    pub fn with_oplog(oplog: MemoryOplog, control_plane: ControlPlane<V, T, P, R, B, A, S>) -> (r: Self)
        requires
            oplog.wf(),
        ensures
            r.wf(),
            r.log() == oplog.view(),
            r.token_table().len() == 0,
            r.non_owner_count() == 0,
            r.cross_tenant_count() == 0,
            forall|t: Seq<char>, n: Seq<char>| #[trigger] r.scope(t, n) is None,
    {
        ServerState {
            oplog,
            tokens: Vec::new(),
            non_owner_rejections: 0,
            cross_tenant_rejections: 0,
            control_plane,
            containment: Vec::new(),
            audit_counter: 0,
        }
    }

    /// The hub's oplog.
    pub fn oplog(&self) -> (r: &MemoryOplog)
        requires
            self.wf(),
        ensures
            r.wf(),
            r.view() == self.log(),
    {
        &self.oplog
    }

    /// Registers `token` for a node of tenant `default`.
    pub fn add_token(&mut self, token: &str, node_id: &str)
        ensures
            final(self).token_table()[0].0@ == token@,
            final(self).token_table()[0].1.node_id@ == node_id@,
            final(self).token_table()[0].1.tenant_id@ == "default"@,
            final(self).token_table().drop_first() == old(self).token_table(),
            final(self).log() == old(self).log(),
            old(self).wf() ==> final(self).wf(),
            final(self).non_owner_count() == old(self).non_owner_count(),
            final(self).cross_tenant_count() == old(self).cross_tenant_count(),
    {
        self.add_token_with_tenant(token, node_id, "default");
    }

    /// Registers `token` for a node of a tenant; a later registration of the
    /// same token takes precedence.
    pub fn add_token_with_tenant(&mut self, token: &str, node_id: &str, tenant_id: &str)
        ensures
            final(self).token_table()[0].0@ == token@,
            final(self).token_table()[0].1.node_id@ == node_id@,
            final(self).token_table()[0].1.tenant_id@ == tenant_id@,
            final(self).token_table().len() == old(self).token_table().len() + 1,
            final(self).token_table().drop_first() == old(self).token_table(),
            final(self).log() == old(self).log(),
            forall|t: Seq<char>, n: Seq<char>| #[trigger] final(self).scope(t, n) == old(self).scope(t, n),
            old(self).wf() ==> final(self).wf(),
            final(self).non_owner_count() == old(self).non_owner_count(),
            final(self).cross_tenant_count() == old(self).cross_tenant_count(),
    {
        let p = AuthPrincipal { node_id: String::from_str(node_id), tenant_id: String::from_str(tenant_id) };
        self.tokens.insert(0, (String::from_str(token), p));
        assert(self.tokens@.drop_first() =~= old(self).tokens@);
        assert(self.containment == old(self).containment);
    }

    /// How many pushes and promotions came from a node other than the
    /// token's.
    pub fn non_owner_rejections(&self) -> (r: u64)
        ensures
            r == self.non_owner_count(),
    {
        self.non_owner_rejections
    }

    /// How many requests crossed a tenant or namespace boundary.
    pub fn cross_tenant_rejections(&self) -> (r: u64)
        ensures
            r == self.cross_tenant_count(),
    {
        self.cross_tenant_rejections
    }

    /// The principal an authorization header authenticates.
    fn validate_token(&self, auth: &Option<String>) -> (r: Option<AuthPrincipal>)
        ensures
            match principal_of(self.token_table(), header_text(*auth)) {
                Some(p) => r matches Some(q) && q.node_id@ == p.node_id@ && q.tenant_id@ == p.tenant_id@,
                None => r is None,
            },
    {
        let a = match auth {
            Some(a) => a,
            None => { return None; },
        };
        let t = match parse_bearer(a.as_str()) {
            Some(t) => t,
            None => { return None; },
        };
        assert(principal_of(self.token_table(), header_text(*auth)) == token_lookup(self.tokens@, t@));
        let mut i: usize = 0;
        assert(self.tokens@.subrange(0, self.tokens@.len() as int) =~= self.tokens@);
        while i < self.tokens.len()
            invariant
                i <= self.tokens@.len(),
                token_lookup(self.tokens@, t@) == token_lookup(self.tokens@.subrange(i as int, self.tokens@.len() as int), t@),
                principal_of(self.token_table(), header_text(*auth)) == token_lookup(self.tokens@, t@),
            decreases self.tokens@.len() - i,
        {
            let ghost rest = self.tokens@.subrange(i as int, self.tokens@.len() as int);
            assert(rest.drop_first() =~= self.tokens@.subrange(i + 1, self.tokens@.len() as int));
            assert(rest[0] == self.tokens@[i as int]);
            if self.tokens[i].0 == t {
                assert(rest[0].0@ == t@);
                assert(token_lookup(rest, t@) == Some(self.tokens@[i as int].1));
                let p = &self.tokens[i].1;
                let q = AuthPrincipal { node_id: p.node_id.clone(), tenant_id: p.tenant_id.clone() };
                assert(q.node_id@ == self.tokens@[i as int].1.node_id@);
                return Some(q);
            }
            i = i + 1;
        }
        assert(self.tokens@.subrange(i as int, self.tokens@.len() as int).len() == 0);
        None
    }

    /// The containment state of a scope, created fresh at `now_ms` when new.
    fn containment_index(&mut self, tenant_id: &String, namespace: &String, now_ms: u64) -> (r: usize)
        requires
            old(self).wf(),
        ensures
            final(self).wf(),
            final(self).control_plane == old(self).control_plane,
            r < final(self).containment@.len(),
            forall|i: int| 0 <= i < final(self).containment@.len() ==> (#[trigger] final(self).containment@[i]).2.wf(),
            final(self).containment@[r as int].0@ == tenant_id@,
            final(self).containment@[r as int].1@ == namespace@,
            scope_pos(final(self).containment@, tenant_id@, namespace@, 0) == r,
            final(self).containment@[r as int].2 == scope_or_fresh(old(self).scope(tenant_id@, namespace@), now_ms),
            forall|t2: Seq<char>, n2: Seq<char>| !(t2 == tenant_id@ && n2 == namespace@) ==>
                #[trigger] final(self).scope(t2, n2) == old(self).scope(t2, n2),
            final(self).oplog == old(self).oplog,
            final(self).tokens == old(self).tokens,
            final(self).non_owner_rejections == old(self).non_owner_rejections,
            final(self).cross_tenant_rejections == old(self).cross_tenant_rejections,
            final(self).audit_counter == old(self).audit_counter,
    {
        let ghost c0 = self.containment@;
        let mut i: usize = 0;
        while i < self.containment.len()
            invariant
                i <= self.containment@.len(),
                self.wf(),
                self.containment@ == c0,
                c0 == old(self).containment@,
                self.oplog == old(self).oplog,
                self.tokens == old(self).tokens,
                self.non_owner_rejections == old(self).non_owner_rejections,
                self.cross_tenant_rejections == old(self).cross_tenant_rejections,
                self.audit_counter == old(self).audit_counter,
                forall|j: int| 0 <= j < i ==> !(#[trigger] c0[j].0@ == tenant_id@ && c0[j].1@ == namespace@),
            decreases self.containment@.len() - i,
        {
            if self.containment[i].0 == *tenant_id && self.containment[i].1 == *namespace {
                proof { lemma_scope_pos_is(c0, tenant_id@, namespace@, i as int); }
                return i;
            }
            i = i + 1;
        }
        proof { lemma_scope_pos_range(c0, tenant_id@, namespace@, 0); }
        let e = (tenant_id.clone(), namespace.clone(), ContainmentState::new(now_ms));
        self.containment.push(e);
        proof {
            assert(self.containment@ == c0.push(e));
            lemma_scope_pos_push(c0, e, tenant_id@, namespace@, 0);
            assert forall|t2: Seq<char>, n2: Seq<char>| !(t2 == tenant_id@ && n2 == namespace@) implies
                #[trigger] self.scope(t2, n2) == old(self).scope(t2, n2) by {
                lemma_scope_pos_push(c0, e, t2, n2, 0);
                lemma_scope_pos_range(c0, t2, n2, 0);
                let p = scope_pos(c0, t2, n2, 0);
                if p >= 0 {
                    assert(c0.push(e)[p] == c0[p]);
                }
            }
        }
        self.containment.len() - 1
    }

    /// The decision containment imposes on a scope at `now_ms`, after a
    /// quiet scope has cooled down.
    fn containment_gate(&mut self, tenant_id: &String, namespace: &String, now_ms: u64) -> (r: Option<GovernanceDecision>)
        requires
            old(self).wf(),
        ensures
            final(self).wf(),
            final(self).control_plane == old(self).control_plane,
            r matches Some(d) ==> d.decision == PolicyDecision::Reject,
            ({
                let st = cooled(scope_or_fresh(old(self).scope(tenant_id@, namespace@), now_ms), now_ms);
                &&& final(self).scope(tenant_id@, namespace@) == Some(st)
                &&& match gate_reason(st.mode) {
                    None => r is None,
                    Some(why) => r matches Some(d) && d.decision == PolicyDecision::Reject && d.reason@ == why,
                }
            }),
            forall|t2: Seq<char>, n2: Seq<char>| !(t2 == tenant_id@ && n2 == namespace@) ==>
                #[trigger] final(self).scope(t2, n2) == old(self).scope(t2, n2),
            final(self).oplog == old(self).oplog,
            final(self).tokens == old(self).tokens,
            final(self).non_owner_rejections == old(self).non_owner_rejections,
            final(self).cross_tenant_rejections == old(self).cross_tenant_rejections,
            final(self).audit_counter == old(self).audit_counter,
    {
        let i = self.containment_index(tenant_id, namespace, now_ms);
        let ghost mid = self.containment@;
        let ghost s1 = *self;
        let (t, n, mut st) = self.containment.remove(i);
        st.maybe_reset_after_cooldown(now_ms);
        let r = st.gate_decision();
        self.containment.insert(i, (t, n, st));
        proof {
            assert(self.containment@ =~= mid.update(i as int, (t, n, st)));
            lemma_scope_state_update(mid, i as int, (t, n, st), tenant_id@, namespace@);
            assert forall|t2: Seq<char>, n2: Seq<char>| !(t2 == tenant_id@ && n2 == namespace@) implies
                #[trigger] self.scope(t2, n2) == old(self).scope(t2, n2) by {
                assert(s1.scope(t2, n2) == old(self).scope(t2, n2));
                assert(self.scope(t2, n2) == scope_state(mid.update(i as int, (t, n, st)), t2, n2));
            }
        }
        r
    }

    /// Counts a decision made in a scope at `now_ms`.
    fn register_decision_outcome(&mut self, tenant_id: &String, namespace: &String, decision: &GovernanceDecision, now_ms: u64)
        requires
            old(self).wf(),
        ensures
            final(self).wf(),
            final(self).control_plane == old(self).control_plane,
            final(self).scope(tenant_id@, namespace@) == Some(
                observed(scope_or_fresh(old(self).scope(tenant_id@, namespace@), now_ms), decision.decision, now_ms)),
            forall|t2: Seq<char>, n2: Seq<char>| !(t2 == tenant_id@ && n2 == namespace@) ==>
                #[trigger] final(self).scope(t2, n2) == old(self).scope(t2, n2),
            final(self).oplog == old(self).oplog,
            final(self).tokens == old(self).tokens,
            final(self).non_owner_rejections == old(self).non_owner_rejections,
            final(self).cross_tenant_rejections == old(self).cross_tenant_rejections,
            final(self).audit_counter == old(self).audit_counter,
    {
        let i = self.containment_index(tenant_id, namespace, now_ms);
        let ghost mid = self.containment@;
        let ghost s1 = *self;
        let (t, n, mut st) = self.containment.remove(i);
        st.observe_decision(decision, now_ms);
        self.containment.insert(i, (t, n, st));
        proof {
            assert(self.containment@ =~= mid.update(i as int, (t, n, st)));
            lemma_scope_state_update(mid, i as int, (t, n, st), tenant_id@, namespace@);
            assert forall|t2: Seq<char>, n2: Seq<char>| !(t2 == tenant_id@ && n2 == namespace@) implies
                #[trigger] self.scope(t2, n2) == old(self).scope(t2, n2) by {
                assert(s1.scope(t2, n2) == old(self).scope(t2, n2));
                assert(self.scope(t2, n2) == scope_state(mid.update(i as int, (t, n, st)), t2, n2));
            }
        }
    }

    /// Audits a decision at `stage` and counts it toward its scope's
    /// containment.
    fn record_decision(
        &mut self,
        stage: &str,
        tenant_id: &String,
        namespace: &String,
        write_id: Option<&String>,
        decision: &GovernanceDecision,
        now_ms: u64,
    )
        requires
            old(self).wf(),
        ensures
            final(self).wf(),
            final(self).control_plane == old(self).control_plane,
            final(self).tokens == old(self).tokens,
            final(self).non_owner_rejections == old(self).non_owner_rejections,
            final(self).cross_tenant_rejections == old(self).cross_tenant_rejections,
            final(self).audit_counter == bump(old(self).audit_counter),
            audit_appended(old(self).log(), final(self).log(), stage@, decision.decision, decision.reason@, tenant_id@,
                namespace@, write_id_or_none(match write_id { Some(w) => Some(w@), None => None })),
            final(self).scope(tenant_id@, namespace@) == Some(
                observed(scope_or_fresh(old(self).scope(tenant_id@, namespace@), now_ms), decision.decision, now_ms)),
            forall|t2: Seq<char>, n2: Seq<char>| !(t2 == tenant_id@ && n2 == namespace@) ==>
                #[trigger] final(self).scope(t2, n2) == old(self).scope(t2, n2),
    {
        let _ = self.persist_audit_evidence(stage, tenant_id, namespace, write_id, decision);
        let ghost s1 = *self;
        self.register_decision_outcome(tenant_id, namespace, decision, now_ms);
        proof {
            assert(s1.scope(tenant_id@, namespace@) == old(self).scope(tenant_id@, namespace@));
            assert forall|t2: Seq<char>, n2: Seq<char>| !(t2 == tenant_id@ && n2 == namespace@) implies
                #[trigger] self.scope(t2, n2) == old(self).scope(t2, n2) by {
                assert(s1.scope(t2, n2) == old(self).scope(t2, n2));
            }
        }
    }

    /// Appends the audit record of a decision to the oplog.
    fn persist_audit_evidence(
        &mut self,
        stage: &str,
        tenant_id: &String,
        namespace: &String,
        write_id: Option<&String>,
        decision: &GovernanceDecision,
    ) -> (r: Result<u64, RangoError>)
        requires
            old(self).wf(),
        ensures
            final(self).wf(),
            final(self).control_plane == old(self).control_plane,
            final(self).tokens == old(self).tokens,
            final(self).containment == old(self).containment,
            final(self).non_owner_rejections == old(self).non_owner_rejections,
            final(self).cross_tenant_rejections == old(self).cross_tenant_rejections,
            final(self).audit_counter == bump(old(self).audit_counter),
            old(self).log().len() < u64::MAX ==> {
                &&& r is Ok
                &&& final(self).log().len() == old(self).log().len() + 1
                &&& final(self).log().drop_last() == old(self).log()
                &&& audit_entry(final(self).log().last(), stage@, decision.decision, decision.reason@, tenant_id@,
                    namespace@, write_id_or_none(match write_id { Some(w) => Some(w@), None => None }))
                &&& final(self).log().last().mutation.op == MutationOp::Insert
                &&& final(self).log().last().mutation.write_id@ == audit_write_id(tenant_id@, namespace@, stage@,
                    write_id_or_none(match write_id { Some(w) => Some(w@), None => None }), final(self).audit_counter)
            },
            old(self).log().len() >= u64::MAX ==> r is Err && final(self).log() == old(self).log(),
    {
        let (uuid_bytes, uuid_text) = uuid_v7();
        let doc_id = Value::Binary { subtype: 4, bytes: uuid_bytes };
        let now_ms = wall_clock_ms();
        let now: i64 = if now_ms <= i64::MAX as u64 { now_ms as i64 } else { i64::MAX };
        let rev = Revision::now(&String::from_str("governance-runtime"));
        let wid = match write_id {
            Some(w) => w.clone(),
            None => String::from_str("none"),
        };
        proof { reveal_strlit("none"); }
        let mut patch = Document::new();
        patch.insert_lit("stage", Value::Str(String::from_str(stage)));
        patch.insert_lit("decision", Value::Str(String::from_str(crate::types::decision_label(decision))));
        patch.insert_lit("reason", Value::Str(decision.reason.clone()));
        patch.insert_lit("tenant_id", Value::Str(tenant_id.clone()));
        patch.insert_lit("namespace", Value::Str(namespace.clone()));
        patch.insert_lit("write_id", Value::Str(wid.clone()));
        patch.insert_lit("recorded_at", Value::DateTime(now));
        let ghost pv = patch@;
        assert(audit_patch(stage@, decision.decision, decision.reason@, tenant_id@, namespace@,
            write_id_or_none(match write_id { Some(w) => Some(w@), None => None }), now) == pv);
        self.audit_counter = bump_exec(self.audit_counter);
        let mut audit_write_id = String::from_str("governance-audit:");
        let colon = String::from_str(":");
        string_append(&mut audit_write_id, tenant_id);
        string_append(&mut audit_write_id, &colon);
        string_append(&mut audit_write_id, namespace);
        string_append(&mut audit_write_id, &colon);
        string_append(&mut audit_write_id, &String::from_str(stage));
        string_append(&mut audit_write_id, &colon);
        string_append(&mut audit_write_id, &wid);
        string_append(&mut audit_write_id, &colon);
        string_append(&mut audit_write_id, &u64_to_decimal(self.audit_counter));
        let metadata = MutationMetadata {
            id: doc_id.deep_clone(),
            namespace: namespace.clone(),
            tenant_id: tenant_id.clone(),
            kind: String::from_str("governance_audit"),
            rev: rev.clone_revision(),
            created_at: now,
            updated_at: now,
            source: String::from_str("server.runtime"),
            actor: String::from_str("governance"),
            lineage: uuid_text,
            schema_version: 1,
            trust_score: 0x3FF0_0000_0000_0000,
            verified: Some(true),
            expires_at: None,
        };
        let mutation = Mutation {
            op: MutationOp::Insert,
            collection: String::from_str("__governance_audit"),
            doc_id,
            patch: Some(patch),
            seq: 0,
            timestamp: now,
            rev,
            write_id: audit_write_id,
            metadata,
        };
        let entry = OplogEntry { seq: 0, timestamp: now, mutation, origin: OplogOrigin::Local, applied: true };
        self.oplog.append(entry)
    }

    /// Appends a remote mutation unless one with the same write id was
    /// already accepted in the same tenant and namespace, whose number is
    /// then returned.
    fn append_mutation(&mut self, mutation: Mutation, tenant_id: &String, namespace: &String) -> (r: Result<u64, RangoError>)
        requires
            old(self).wf(),
            mutation.metadata.tenant_id@ == tenant_id@,
            mutation.metadata.namespace@ == namespace@,
        ensures
            final(self).wf(),
            final(self).control_plane == old(self).control_plane,
            final(self).tokens == old(self).tokens,
            final(self).containment == old(self).containment,
            final(self).non_owner_rejections == old(self).non_owner_rejections,
            final(self).cross_tenant_rejections == old(self).cross_tenant_rejections,
            final(self).audit_counter == old(self).audit_counter,
            final(self).log() == old(self).log() || ({
                &&& final(self).log().len() == old(self).log().len() + 1
                &&& final(self).log().drop_last() == old(self).log()
                &&& final(self).log().last().origin == OplogOrigin::Remote
                &&& final(self).log().last().mutation == mutation
            }),
            r matches Ok(seq) ==> 1 <= seq <= final(self).log().len(),
            // A write id is taken once per tenant and namespace: a repeat
            // appends nothing and answers the first entry's number.
            (exists|j: int| 0 <= j < old(self).log().len()
                && #[trigger] same_identity(old(self).log()[j], mutation.write_id@, tenant_id@, namespace@)) ==> {
                &&& final(self).log() == old(self).log()
                &&& r matches Ok(seq) && same_identity(old(self).log()[seq - 1], mutation.write_id@, tenant_id@, namespace@)
            },
            !(exists|j: int| 0 <= j < old(self).log().len()
                && #[trigger] same_identity(old(self).log()[j], mutation.write_id@, tenant_id@, namespace@))
                && old(self).log().len() < u64::MAX ==> {
                &&& final(self).log().len() == old(self).log().len() + 1
                &&& r == Ok::<u64, RangoError>(final(self).log().len() as u64)
            },
            !(exists|j: int| 0 <= j < old(self).log().len()
                && #[trigger] same_identity(old(self).log()[j], mutation.write_id@, tenant_id@, namespace@))
                && old(self).log().len() >= u64::MAX ==> r is Err && final(self).log() == old(self).log(),
    {
        let n = self.oplog.len();
        let all = self.oplog.read_since(1, n);
        let ghost v = self.oplog.view();
        assert(read_window(v, 1, n) =~= v);
        proof { self.oplog.lemma_numbered(); }
        let mut i: usize = 0;
        while i < all.len()
            invariant
                i <= all@.len() == v.len(),
                self.wf(),
                v == self.oplog.view(),
                v == old(self).log(),
                forall|j: int| 0 <= j < all@.len() ==> *all@[j] == #[trigger] v[j],
                forall|j: int| 0 <= j < v.len() ==> #[trigger] v[j].seq == j + 1,
                forall|j: int| 0 <= j < all@.len() ==> 1 <= (#[trigger] all@[j]).seq <= self.oplog.view().len(),
                forall|j: int| 0 <= j < i ==> !(#[trigger] same_identity(v[j], mutation.write_id@, tenant_id@, namespace@)),
            decreases all@.len() - i,
        {
            let e = all[i];
            if e.mutation.write_id == mutation.write_id && e.mutation.metadata.tenant_id == *tenant_id
                && e.mutation.metadata.namespace == *namespace {
                assert(same_identity(v[i as int], mutation.write_id@, tenant_id@, namespace@));
                assert(e.seq == i + 1);
                return Ok(e.seq);
            }
            i = i + 1;
        }
        let entry = OplogEntry { seq: 0, timestamp: mutation.timestamp, mutation, origin: OplogOrigin::Remote, applied: false };
        self.oplog.append(entry)
    }

    /// Authenticates a request: the protocol version must be `1` (else 400)
    /// and the token known (else 401).
    fn authenticate(&self, headers: &RequestHeaders) -> (r: Result<AuthPrincipal, u16>)
        ensures
            !version_ok(headers.protocol_version) ==> r == Err::<AuthPrincipal, u16>(status_bad_request()),
            version_ok(headers.protocol_version) ==> match principal_of(self.token_table(), header_text(headers.authorization)) {
                None => r == Err::<AuthPrincipal, u16>(status_unauthorized()),
                Some(p) => r matches Ok(q) && q.node_id@ == p.node_id@ && q.tenant_id@ == p.tenant_id@,
            },
    {
        if !protocol_ok(&headers.protocol_version) {
            return Err(400);
        }
        match self.validate_token(&headers.authorization) {
            Some(p) => Ok(p),
            None => Err(401),
        }
    }

    /// Handles a push: each mutation passes containment, metadata
    /// validation, the tenant and namespace boundary and the write path, in
    /// that order, and is appended (once per write id) only if none of them
    /// rejects it; every decision is audited, counted toward containment and
    /// reported. A push naming another node or tenant than the token's is
    /// refused as a whole, and that refusal is audited too. `now_ms` is the
    /// time on a monotonic clock.
    #[verifier::rlimit(60)]
    #[verifier::spinoff_prover]
    pub fn handle_push(&mut self, headers: &RequestHeaders, req: PushRequest, now_ms: u64) -> (r: Result<PushResponse, u16>)
        requires
            old(self).wf(),
        ensures
            final(self).wf(),
            final(self).token_table() == old(self).token_table(),
            final(self).log().len() >= old(self).log().len(),
            final(self).log().subrange(0, old(self).log().len() as int) == old(self).log(),
            !version_ok(headers.protocol_version) ==> r == Err::<PushResponse, u16>(status_bad_request())
                && *final(self) == *old(self),
            version_ok(headers.protocol_version) && principal_of(old(self).token_table(), header_text(headers.authorization)) is None
                ==> r == Err::<PushResponse, u16>(status_unauthorized()) && *final(self) == *old(self),
            // Success is owed once the request is authenticated, unless
            // the log runs out of numbers.
            version_ok(headers.protocol_version)
                && (principal_of(old(self).token_table(), header_text(headers.authorization)) matches Some(p)
                && (req.node_id@ != p.node_id@ || req.tenant_id@ != p.tenant_id@
                    || old(self).log().len() + 2 * req.mutations@.len() < u64::MAX)) ==> r is Ok,
            // Nothing outside the request's tenant and namespace is ever
            // accepted, nor anything with invalid metadata.
            forall|j: int| old(self).log().len() <= j < final(self).log().len()
                && (#[trigger] final(self).log()[j]).origin == OplogOrigin::Remote ==> {
                &&& in_scope(final(self).log()[j], req.tenant_id@, req.namespace@)
                &&& metadata_fault(final(self).log()[j].mutation.metadata) is None
            },
            r matches Ok(resp) ==> ({
                let p = principal_of(old(self).token_table(), header_text(headers.authorization)).unwrap();
                let st0 = scope_or_fresh(old(self).scope(req.tenant_id@, req.namespace@), now_ms);
                &&& version_ok(headers.protocol_version)
                &&& resp.new_checkpoint == final(self).log().len()
                &&& forall|k: int| 0 <= k < resp.accepted_seqs@.len() ==> 1 <= #[trigger] resp.accepted_seqs@[k] <= final(self).log().len()
                &&& if req.node_id@ != p.node_id@ || req.tenant_id@ != p.tenant_id@ {
                    let reason = if req.node_id@ != p.node_id@ { "node_mismatch"@ } else { "tenant_mismatch"@ };
                    &&& resp.accepted_seqs@.len() == 0
                    &&& resp.rejected_non_owner_count == (if req.node_id@ != p.node_id@ { 1u64 } else { 0u64 })
                    &&& resp.rejected_cross_tenant_count == (if req.node_id@ != p.node_id@ { 0u64 } else { 1u64 })
                    &&& decisions_view(resp.audit@) == seq![(PolicyDecision::Reject, reason)]
                    &&& audit_appended(old(self).log(), final(self).log(), "write"@, PolicyDecision::Reject, reason,
                        req.tenant_id@, req.namespace@, "none"@)
                    // A refusal for another node is only audited; one for another
                    // tenant also counts toward containment.
                    &&& final(self).scope(req.tenant_id@, req.namespace@) == if req.node_id@ != p.node_id@ {
                        old(self).scope(req.tenant_id@, req.namespace@)
                    } else {
                        Some(observed(st0, PolicyDecision::Reject, now_ms))
                    }
                    &&& if req.node_id@ != p.node_id@ {
                        &&& final(self).non_owner_count() == bump(old(self).non_owner_count())
                        &&& final(self).cross_tenant_count() == old(self).cross_tenant_count()
                    } else {
                        &&& final(self).non_owner_count() == old(self).non_owner_count()
                        &&& final(self).cross_tenant_count() == bump(old(self).cross_tenant_count())
                    }
                } else {
                    let os = push_outcomes(old(self).write_hooks().0, old(self).write_hooks().1,
                        st0, req.mutations@, req.tenant_id@, req.namespace@, now_ms);
                    &&& os.len() == req.mutations@.len()
                    &&& decisions_view(resp.audit@) == os.map_values(|o: ((PolicyDecision, Seq<char>), bool)| o.0)
                    &&& resp.accepted_seqs@.len() == accepted_count(os)
                    &&& resp.rejected_non_owner_count == 0
                    &&& resp.rejected_cross_tenant_count == cross_count(os)
                    &&& final(self).non_owner_count() == old(self).non_owner_count()
                    &&& final(self).cross_tenant_count() == bump_by(old(self).cross_tenant_count(), cross_count(os))
                    // The log gains one audit record per decision and, as remote
                    // entries, the accepted mutations, each numbered by its seq.
                    &&& write_log_ok(final(self).log(), old(self).log().len() as int, req.tenant_id@, req.namespace@,
                        accepted_of(req.mutations@, os), resp.accepted_seqs@)
                    &&& old(self).log().len() + 2 * req.mutations@.len() < u64::MAX ==> local_count(
                        final(self).log().subrange(old(self).log().len() as int, final(self).log().len() as int))
                        == req.mutations@.len()
                    &&& scope_or_fresh(final(self).scope(req.tenant_id@, req.namespace@), now_ms) == push_end(
                        old(self).write_hooks().0, old(self).write_hooks().1,
                        st0, req.mutations@, req.tenant_id@, req.namespace@, now_ms)
                }
            }),
            r is Ok ==> forall|t2: Seq<char>, n2: Seq<char>| !(t2 == req.tenant_id@ && n2 == req.namespace@) ==>
                #[trigger] final(self).scope(t2, n2) == old(self).scope(t2, n2),
    {
        let principal = self.authenticate(headers)?;
        let ghost old_len = self.log().len();
        if req.node_id != principal.node_id || req.tenant_id != principal.tenant_id {
            let node_bad = req.node_id != principal.node_id;
            if node_bad {
                self.non_owner_rejections = bump_exec(self.non_owner_rejections);
            } else {
                self.cross_tenant_rejections = bump_exec(self.cross_tenant_rejections);
            }
            proof { reveal_strlit("node_mismatch"); reveal_strlit("tenant_mismatch"); reveal_strlit("write"); reveal_strlit("none"); }
            let decision = if node_bad { reject("node_mismatch") } else { reject("tenant_mismatch") };
            if node_bad {
                let _ = self.persist_audit_evidence("write", &req.tenant_id, &req.namespace, None, &decision);
            } else {
                self.record_decision("write", &req.tenant_id, &req.namespace, None, &decision, now_ms);
            }
            let mut audit = Vec::new();
            audit.push(decision);
            let resp = PushResponse {
                accepted_seqs: Vec::new(),
                new_checkpoint: self.oplog.latest_seq(),
                rejected_non_owner_count: if node_bad { 1 } else { 0 },
                rejected_cross_tenant_count: if node_bad { 0 } else { 1 },
                audit,
            };
            proof {
                assert(decisions_view(resp.audit@) =~= seq![decision_view(decision)]);
                if self.log() != old(self).log() {
                    assert forall|j: int| 0 <= j < old_len implies #[trigger] self.log()[j] == old(self).log()[j] by {
                        assert(self.log().drop_last()[j] == self.log()[j]);
                    }
                }
                assert(self.log().subrange(0, old_len as int) =~= old(self).log());
            }
            return Ok(resp);
        }
        let ghost v = self.control_plane.validation_hook;
        let ghost tr = self.control_plane.trust_hook;
        let ghost t = req.tenant_id@;
        let ghost ns = req.namespace@;
        let ghost st0 = scope_or_fresh(old(self).scope(t, ns), now_ms);
        let ghost all = req.mutations@;
        let ghost old_cross = self.cross_tenant_rejections;
        let mut mutations = req.mutations;
        let ghost total = mutations@.len();
        let count = mutations.len();
        assert(total == count);
        let mut accepted_seqs: Vec<u64> = Vec::new();
        let mut rejected_cross_tenant_count: u64 = 0;
        let mut audit: Vec<GovernanceDecision> = Vec::new();
        let ghost mut st = st0;
        let ghost mut outs: Seq<((PolicyDecision, Seq<char>), bool)> = Seq::empty();
        let ghost mut acc: Seq<Mutation> = Seq::empty();
        assert(decisions_view(audit@) =~= outs.map_values(|o: ((PolicyDecision, Seq<char>), bool)| o.0));
        assert(mutations@ =~= all.subrange(0, total as int));
        assert(all.subrange(0, 0) =~= Seq::<Mutation>::empty());
        assert(self.log().subrange(old_len as int, self.log().len() as int) =~= Seq::<OplogEntry>::empty());
        assert(write_log_ok(self.log(), old_len as int, t, ns, acc, accepted_seqs@));
        assert(outs + push_outcomes(v, tr, st, mutations@, t, ns, now_ms) =~= push_outcomes(v, tr, st0, all, t, ns, now_ms));
        while mutations.len() > 0
            invariant
                self.wf(),
                self.tokens == old(self).tokens,
                self.control_plane == old(self).control_plane,
                v == self.control_plane.validation_hook,
                tr == self.control_plane.trust_hook,
                t == req.tenant_id@,
                ns == req.namespace@,
                self.log().len() >= old_len,
                old_len == old(self).log().len(),
                self.log().subrange(0, old_len as int) == old(self).log(),
                self.log().len() <= old_len + 2 * audit@.len(),
                forall|j: int| old_len <= j < self.log().len() && (#[trigger] self.log()[j]).origin == OplogOrigin::Remote ==> {
                    &&& in_scope(self.log()[j], req.tenant_id@, req.namespace@)
                    &&& metadata_fault(self.log()[j].mutation.metadata) is None
                },
                forall|k: int| 0 <= k < accepted_seqs@.len() ==> 1 <= #[trigger] accepted_seqs@[k] <= self.log().len(),
                audit@.len() + mutations@.len() == total,
                outs.len() == audit@.len(),
                decisions_view(audit@) == outs.map_values(|o: ((PolicyDecision, Seq<char>), bool)| o.0),
                outs + push_outcomes(v, tr, st, mutations@, t, ns, now_ms) == push_outcomes(v, tr, st0, all, t, ns, now_ms),
                push_end(v, tr, st, mutations@, t, ns, now_ms) == push_end(v, tr, st0, all, t, ns, now_ms),
                scope_or_fresh(self.scope(t, ns), now_ms) == st,
                forall|t2: Seq<char>, n2: Seq<char>| !(t2 == t && n2 == ns) ==>
                    #[trigger] self.scope(t2, n2) == old(self).scope(t2, n2),
                accepted_seqs@.len() == accepted_count(outs),
                mutations@ == all.subrange(audit@.len() as int, total as int),
                acc == accepted_of(all.subrange(0, audit@.len() as int), outs),
                write_log_ok(self.log(), old_len as int, t, ns, acc, accepted_seqs@),
                old_len + 2 * total < u64::MAX ==> local_count(self.log().subrange(old_len as int, self.log().len() as int))
                    == audit@.len(),
                rejected_cross_tenant_count == cross_count(outs),
                rejected_cross_tenant_count <= audit@.len(),
                self.cross_tenant_rejections == bump_by(old_cross, cross_count(outs)),
                old_cross == old(self).cross_tenant_rejections,
                self.non_owner_rejections == old(self).non_owner_rejections,
                total == req.mutations@.len(),
                all == req.mutations@,
                st0 == scope_or_fresh(old(self).scope(t, ns), now_ms),
                total <= usize::MAX,
                version_ok(headers.protocol_version),
                principal_of(old(self).token_table(), header_text(headers.authorization)) matches Some(p)
                    && req.node_id@ == p.node_id@ && req.tenant_id@ == p.tenant_id@,
            decreases mutations@.len(),
        {
            let ghost rest = mutations@;
            let mutation = mutations.remove(0);
            assert(mutations@ =~= rest.drop_first());
            let ghost step = push_step(v, tr, st, mutation, t, ns, now_ms);
            assert(push_outcomes(v, tr, st, rest, t, ns, now_ms)
                =~= seq![(step.0, step.1)] + push_outcomes(v, tr, step.2, mutations@, t, ns, now_ms));
            assert(outs.push((step.0, step.1)) + push_outcomes(v, tr, step.2, mutations@, t, ns, now_ms)
                =~= outs + push_outcomes(v, tr, st, rest, t, ns, now_ms));
            assert(push_end(v, tr, st, rest, t, ns, now_ms) == push_end(v, tr, step.2, mutations@, t, ns, now_ms));
            let ghost before = self.log();
            let ghost outs2 = outs.push((step.0, step.1));
            assert(outs2.drop_last() =~= outs);
            let ghost audit0 = audit@;
            let ghost n = audit0.len() as int;
            assert(mutation == all[n]);
            match self.containment_gate(&req.tenant_id, &req.namespace, now_ms) {
                Some(containment) => {
                    self.record_decision("write", &req.tenant_id, &req.namespace, Some(&mutation.write_id), &containment, now_ms);
                    proof {
                        lemma_push_refused_step(before, self.log(), old_len as int, t, ns, acc, accepted_seqs@, all, n, outs,
                            (step.0, step.1), total as int, containment.decision, containment.reason@, mutation.write_id@);
                    }
                    audit.push(containment);
                    proof {
                        self.lemma_log_grew(before, old(self).log(), old_len as int, req.tenant_id@, req.namespace@);
                        assert(decisions_view(audit@) =~= decisions_view(audit0).push(decision_view(containment)));
                        assert(outs2.map_values(|o: ((PolicyDecision, Seq<char>), bool)| o.0)
                            =~= outs.map_values(|o: ((PolicyDecision, Seq<char>), bool)| o.0).push(step.0));
                        outs = outs2;
                        st = step.2;
                    }
                    continue;
                },
                None => {},
            }
            match validate_metadata(&mutation.metadata) {
                Ok(()) => {},
                Err(err) => {
                    let mut reason = String::from_str("invalid_metadata:");
                    string_append(&mut reason, &err);
                    proof { reveal_strlit("invalid_metadata:"); }
                    let decision = GovernanceDecision { decision: PolicyDecision::Reject, reason };
                    self.record_decision("write", &req.tenant_id, &req.namespace, Some(&mutation.write_id), &decision, now_ms);
                    proof {
                        lemma_push_refused_step(before, self.log(), old_len as int, t, ns, acc, accepted_seqs@, all, n, outs,
                            (step.0, step.1), total as int, decision.decision, decision.reason@, mutation.write_id@);
                    }
                    audit.push(decision);
                    proof {
                        self.lemma_log_grew(before, old(self).log(), old_len as int, req.tenant_id@, req.namespace@);
                        assert(decisions_view(audit@) =~= decisions_view(audit0).push(decision_view(decision)));
                        assert(outs2.map_values(|o: ((PolicyDecision, Seq<char>), bool)| o.0)
                            =~= outs.map_values(|o: ((PolicyDecision, Seq<char>), bool)| o.0).push(step.0));
                        outs = outs2;
                        st = step.2;
                    }
                    continue;
                },
            }
            if mutation.metadata.tenant_id != req.tenant_id || mutation.metadata.namespace != req.namespace {
                let ghost s_pre = *self;
                self.cross_tenant_rejections = bump_exec(self.cross_tenant_rejections);
                let ghost s_b = *self;
                assert(audit@.len() < total);
                assert(rejected_cross_tenant_count < u64::MAX);
                rejected_cross_tenant_count = rejected_cross_tenant_count + 1;
                proof { reveal_strlit("cross_tenant_or_namespace_mutation"); }
                let decision = reject("cross_tenant_or_namespace_mutation");
                self.record_decision("write", &req.tenant_id, &req.namespace, Some(&mutation.write_id), &decision, now_ms);
                proof {
                    lemma_push_refused_step(before, self.log(), old_len as int, t, ns, acc, accepted_seqs@, all, n, outs,
                        (step.0, step.1), total as int, decision.decision, decision.reason@, mutation.write_id@);
                }
                audit.push(decision);
                proof {
                    self.lemma_log_grew(before, old(self).log(), old_len as int, req.tenant_id@, req.namespace@);
                    assert(decisions_view(audit@) =~= decisions_view(audit0).push(decision_view(decision)));
                    assert(outs2.map_values(|o: ((PolicyDecision, Seq<char>), bool)| o.0)
                        =~= outs.map_values(|o: ((PolicyDecision, Seq<char>), bool)| o.0).push(step.0));
                    assert forall|t2: Seq<char>, n2: Seq<char>| !(t2 == t && n2 == ns) implies
                        #[trigger] self.scope(t2, n2) == old(self).scope(t2, n2) by {
                        assert(s_b.scope(t2, n2) == s_pre.scope(t2, n2));
                    }
                    outs = outs2;
                    st = step.2;
                }
                continue;
            }
            let write_ctx = crate::control_plane::WriteContext {
                tenant_id: req.tenant_id.clone(),
                namespace: req.namespace.clone(),
                actor: mutation.metadata.actor.clone(),
                source: mutation.metadata.source.clone(),
                tier: MemoryTier::State,
            };
            let document = match &mutation.patch {
                Some(p) => p.deep_clone(),
                None => Document::new(),
            };
            let payload = crate::control_plane::WritePayload::StateWithTrust {
                document,
                trust_score: mutation.metadata.trust_score,
            };
            assert(ctx_view(write_ctx) == (t, ns, mutation.metadata.actor@, mutation.metadata.source@, MemoryTier::State));
            assert(payload_view(payload) == (1int, patch_doc(mutation), Some(mutation.metadata.trust_score)));
            let decision = match self.control_plane.write_path(&write_ctx, &payload) {
                Ok(d) => d,
                Err(_) => { return Err(500); },
            };
            let decision = normalize_write_decision(decision);
            self.record_decision("write", &req.tenant_id, &req.namespace, Some(&mutation.write_id), &decision, now_ms);
            proof {
                assert(decisions_view(audit@.push(decision)) =~= decisions_view(audit0).push(decision_view(decision)));
                assert(outs2.map_values(|o: ((PolicyDecision, Seq<char>), bool)| o.0)
                    =~= outs.map_values(|o: ((PolicyDecision, Seq<char>), bool)| o.0).push(step.0));
            }
            if crate::types::is_reject(&decision) {
                proof {
                    lemma_push_refused_step(before, self.log(), old_len as int, t, ns, acc, accepted_seqs@, all, n, outs,
                        (step.0, step.1), total as int, decision.decision, decision.reason@, mutation.write_id@);
                }
                audit.push(decision);
                proof {
                    self.lemma_log_grew(before, old(self).log(), old_len as int, req.tenant_id@, req.namespace@);
                    outs = outs2;
                    st = step.2;
                }
                continue;
            }
            let ghost mid = self.log();
            proof { self.lemma_log_grew(before, old(self).log(), old_len as int, req.tenant_id@, req.namespace@); }
            let ghost mv = mutation.metadata;
            let ghost mg = mutation;
            let ghost s_r = *self;
            let res = self.append_mutation(mutation, &req.tenant_id, &req.namespace);
            proof {
                assert forall|t2: Seq<char>, n2: Seq<char>| !(t2 == t && n2 == ns) implies
                    #[trigger] self.scope(t2, n2) == old(self).scope(t2, n2) by {
                    assert(s_r.scope(t2, n2) == old(self).scope(t2, n2));
                }
                assert(self.scope(t, ns) == s_r.scope(t, ns));
                if self.log() != mid {
                    assert(self.log().drop_last() == mid);
                    assert forall|j: int| old_len <= j < self.log().len()
                        && (#[trigger] self.log()[j]).origin == OplogOrigin::Remote implies {
                        &&& in_scope(self.log()[j], req.tenant_id@, req.namespace@)
                        &&& metadata_fault(self.log()[j].mutation.metadata) is None
                    } by {
                        if j < mid.len() {
                            assert(self.log()[j] == mid[j]);
                        }
                    }
                    assert(self.log().subrange(0, old_len as int) =~= mid.subrange(0, old_len as int));
                }
            }
            let seq = match res {
                Ok(seq) => seq,
                Err(_) => { return Err(500); },
            };
            proof {
                if self.log() == mid {
                    if !(exists|j: int| 0 <= j < mid.len() && #[trigger] same_identity(mid[j], mg.write_id@, t, ns)) {
                        assert(mid.len() >= u64::MAX);
                    }
                }
                lemma_push_accepted_step(before, mid, self.log(), old_len as int, t, ns, acc, accepted_seqs@, all, n, outs,
                    (step.0, step.1), total as int, decision.decision, decision.reason@, mg, seq);
            }
            accepted_seqs.push(seq);
            audit.push(decision);
            proof {
                outs = outs2;
                acc = acc.push(mg);
                st = step.2;
            }
        }
        let resp = PushResponse {
            accepted_seqs,
            new_checkpoint: self.oplog.latest_seq(),
            rejected_non_owner_count: 0,
            rejected_cross_tenant_count,
            audit,
        };
        proof {
            assert(outs =~= push_outcomes(v, tr, st0, all, t, ns, now_ms));
            assert(all.subrange(0, total as int) =~= all);
        }
        Ok(resp)
    }

    /// Handles a pull: the entries after the checkpoint that belong to the
    /// request's tenant and namespace, are not audit records and are visible
    /// to the requested tier are offered to the read path; containment can
    /// overrule its decision; the decision is audited and counted; the
    /// entries whose candidates the read path kept come back, annotated for
    /// the tier. A token of another node gets 403; a pull for another
    /// tenant's data gets nothing but an audited refusal.
    pub fn handle_pull(&mut self, headers: &RequestHeaders, req: PullRequest, now_ms: u64) -> (r: Result<PullResponse, u16>)
        requires
            old(self).wf(),
        ensures
            final(self).wf(),
            final(self).token_table() == old(self).token_table(),
            final(self).log().len() >= old(self).log().len(),
            final(self).log().subrange(0, old(self).log().len() as int) == old(self).log(),
            !version_ok(headers.protocol_version) ==> r == Err::<PullResponse, u16>(status_bad_request())
                && final(self).log() == old(self).log(),
            version_ok(headers.protocol_version) ==> match principal_of(old(self).token_table(), header_text(headers.authorization)) {
                None => r == Err::<PullResponse, u16>(status_unauthorized()) && *final(self) == *old(self),
                Some(p) => {
                    // A token of another node is forbidden.
                    &&& p.node_id@ != req.node_id@ ==> r == Err::<PullResponse, u16>(status_forbidden())
                        && *final(self) == *old(self)
                    // A pull for another tenant's data is answered with
                    // nothing but the audited refusal.
                    &&& p.node_id@ == req.node_id@ && p.tenant_id@ != req.tenant_id@ ==> {
                        &&& r matches Ok(resp) && resp.mutations@.len() == 0
                            && decisions_view(resp.audit@) == seq![(PolicyDecision::Reject, "tenant_mismatch"@)]
                        &&& audit_appended(old(self).log(), final(self).log(), "read"@, PolicyDecision::Reject,
                            "tenant_mismatch"@, req.tenant_id@, req.namespace@, "none"@)
                        &&& final(self).cross_tenant_count() == bump(old(self).cross_tenant_count())
                    }
                    // Otherwise the pull is answered: containment, after a
                    // cooldown, can overrule the read path's decision.
                    &&& p.node_id@ == req.node_id@ ==> r is Ok
                    &&& p.node_id@ == req.node_id@ && p.tenant_id@ == req.tenant_id@ ==> (r matches Ok(resp)
                        && decision_view(resp.audit@[0]) == match gate_reason(cooled(
                            scope_or_fresh(old(self).scope(req.tenant_id@, req.namespace@), now_ms), now_ms).mode) {
                            Some(why) => (PolicyDecision::Reject, why),
                            None => read_verdict(old(self).read_hooks().0,
                                (req.tenant_id@, req.namespace@, read_tier_of(header_text(headers.read_tier)), 1000usize)),
                        })
                },
            },
            r matches Ok(resp) ==> {
                let tier = read_tier_of(header_text(headers.read_tier));
                &&& resp.new_checkpoint == old(self).log().len()
                &&& resp.audit@.len() == 1
                &&& resp.audit@[0].decision == PolicyDecision::Reject ==> resp.mutations@.len() == 0
                // What comes back: the entries after the checkpoint that the
                // read path was offered and kept, in log order, marked for
                // the tier.
                &&& resp.audit@[0].decision != PolicyDecision::Reject ==> ({
                    let es = pull_scoped(read_window(old(self).log(), bump(req.since_checkpoint), 1000), req.tenant_id@,
                        req.namespace@, tier);
                    let kept = read_kept(old(self).read_hooks().0, old(self).read_hooks().1,
                        (req.tenant_id@, req.namespace@, tier, 1000usize), candidate_docs(es));
                    &&& resp.mutations@.len() == pull_kept(es, kept).len()
                    &&& forall|k: int| 0 <= k < resp.mutations@.len() ==>
                        pulled_as(#[trigger] resp.mutations@[k], pull_kept(es, kept)[k], tier)
                })
                // Only the request's own scope comes back, never an audit
                // record, only what the tier may see.
                &&& forall|k: int| 0 <= k < resp.mutations@.len() ==> {
                    &&& (#[trigger] resp.mutations@[k]).metadata.tenant_id@ == req.tenant_id@
                    &&& resp.mutations@[k].metadata.namespace@ == req.namespace@
                    &&& resp.mutations@[k].metadata.kind@ != "governance_audit"@
                    &&& visible_for_tier(resp.mutations@[k].metadata.kind@, tier)
                    &&& resp.mutations@[k].patch is Some
                }
            },
    {
        let principal = self.authenticate(headers)?;
        if principal.node_id != req.node_id {
            return Err(403);
        }
        // The checkpoint a pull answers with does not count its own audit
        // record.
        let checkpoint = self.oplog.latest_seq();
        let ghost old_len = self.log().len();
        if principal.tenant_id != req.tenant_id {
            self.cross_tenant_rejections = bump_exec(self.cross_tenant_rejections);
            proof { reveal_strlit("tenant_mismatch"); reveal_strlit("read"); reveal_strlit("none"); }
            let decision = reject("tenant_mismatch");
            let _ = self.persist_audit_evidence("read", &req.tenant_id, &req.namespace, None, &decision);
            let mut audit = Vec::new();
            audit.push(decision);
            proof {
                assert(decisions_view(audit@) =~= seq![decision_view(decision)]);
                if self.log() != old(self).log() {
                    assert forall|j: int| 0 <= j < old_len implies #[trigger] self.log()[j] == old(self).log()[j] by {
                        assert(self.log().drop_last()[j] == self.log()[j]);
                    }
                }
                assert(self.log().subrange(0, old_len as int) =~= old(self).log());
            }
            return Ok(PullResponse { mutations: Vec::new(), new_checkpoint: checkpoint, audit });
        }
        let tier = parse_read_tier(&headers.read_tier);
        let ghost tv = read_tier_of(header_text(headers.read_tier));
        assert(tier == tv);
        let ghost w = read_window(old(self).log(), bump(req.since_checkpoint), 1000);
        let ghost t = req.tenant_id@;
        let ghost ns = req.namespace@;
        // The scoped entries, copied out of the log.
        let mut scoped: Vec<(u64, Mutation)> = Vec::new();
        {
            let entries = self.oplog.read_since(req.since_checkpoint.wrapping_add(1), 1000);
            let mut i: usize = 0;
            while i < entries.len()
                invariant
                    i <= entries@.len() == w.len(),
                    forall|k: int| 0 <= k < entries@.len() ==> *entries@[k] == #[trigger] w[k],
                    scoped@.len() == pull_scoped(w.subrange(0, i as int), t, ns, tier).len(),
                    forall|k: int| 0 <= k < scoped@.len() ==> {
                        &&& (#[trigger] scoped@[k]).0 == pull_scoped(w.subrange(0, i as int), t, ns, tier)[k].seq
                        &&& same_mutation(scoped@[k].1, pull_scoped(w.subrange(0, i as int), t, ns, tier)[k].mutation)
                        &&& pullable_copy(scoped@[k].1, t, ns, tier)
                    },
                    t == req.tenant_id@,
                    ns == req.namespace@,
                decreases entries@.len() - i,
            {
                let e = entries[i];
                let ghost pre = w.subrange(0, i as int + 1);
                assert(pre.drop_last() =~= w.subrange(0, i as int));
                assert(pre.last() == *e);
                if e.mutation.metadata.tenant_id == req.tenant_id && e.mutation.metadata.namespace == req.namespace
                    && !is_audit_kind(&e.mutation) && mutation_visible_for_tier(&e.mutation, tier) && e.mutation.patch.is_some() {
                    let c = copy_mutation(&e.mutation);
                    scoped.push((e.seq, c));
                }
                i = i + 1;
            }
            assert(w.subrange(0, w.len() as int) =~= w);
        }
        let ghost es = pull_scoped(w, t, ns, tier);
        let mut candidates: Vec<Document> = Vec::new();
        let mut i: usize = 0;
        while i < scoped.len()
            invariant
                i <= scoped@.len() == es.len(),
                forall|k: int| 0 <= k < scoped@.len() ==> {
                    &&& (#[trigger] scoped@[k]).0 == es[k].seq
                    &&& same_mutation(scoped@[k].1, es[k].mutation)
                    &&& pullable_copy(scoped@[k].1, t, ns, tier)
                },
                crate::cursor::doc_views(candidates@) == candidate_docs(es).subrange(0, i as int),
            decreases scoped@.len() - i,
        {
            let (seq, m) = &scoped[i];
            assert(scoped@[i as int].0 == es[i as int].seq);
            match &m.patch {
                Some(p) => {
                    let mut c = p.deep_clone();
                    c.insert_lit("__rango_candidate_seq", Value::Int64(*seq as i64));
                    c.insert_lit("__rango_candidate_write_id", Value::Str(m.write_id.clone()));
                    let ghost before = candidates@;
                    candidates.push(c);
                    proof {
                        assert(c@ == candidate_doc(es[i as int]));
                        assert(crate::cursor::doc_views(candidates@) =~= crate::cursor::doc_views(before).push(c@));
                        assert(candidate_docs(es).subrange(0, i + 1) =~= candidate_docs(es).subrange(0, i as int).push(c@));
                    }
                },
                None => {},
            }
            i = i + 1;
        }
        assert(candidate_docs(es).subrange(0, es.len() as int) =~= candidate_docs(es));
        let read_request = crate::control_plane::ReadRequest {
            tenant_id: req.tenant_id.clone(),
            namespace: req.namespace.clone(),
            tier,
            limit: 1000,
        };
        let (read_decision, filtered) = match self.control_plane.read_path(&read_request, candidates) {
            Ok(x) => x,
            Err(_) => { return Err(500); },
        };
        let ghost kept = crate::cursor::doc_views(filtered@);
        proof {
            let rv = (t, ns, tier, 1000usize);
            assert(crate::control_plane::read_view(read_request) == rv);
            assert(kept =~= read_kept(old(self).read_hooks().0, old(self).read_hooks().1, rv, candidate_docs(es)));
        }
        let read_decision = match self.containment_gate(&req.tenant_id, &req.namespace, now_ms) {
            Some(d) => d,
            None => read_decision,
        };
        let ghost before_audit = self.log();
        let _ = self.persist_audit_evidence("read", &req.tenant_id, &req.namespace, None, &read_decision);
        self.register_decision_outcome(&req.tenant_id, &req.namespace, &read_decision, now_ms);
        proof {
            if self.log() != before_audit {
                assert(self.log().drop_last() == before_audit);
                assert forall|j: int| 0 <= j < old_len implies #[trigger] self.log()[j] == old(self).log()[j] by {
                    assert(self.log().drop_last()[j] == self.log()[j]);
                }
                assert(self.log().subrange(0, old_len as int) =~= old(self).log());
            } else {
                assert(self.log().subrange(0, old_len as int) =~= old(self).log());
            }
        }
        if crate::types::is_reject(&read_decision) {
            let mut audit = Vec::new();
            audit.push(read_decision);
            return Ok(PullResponse { mutations: Vec::new(), new_checkpoint: checkpoint, audit });
        }
        // The scoped entries whose candidates the read path kept, in log
        // order; each entry has its own number, so an identity names one.
        let mut mutations: Vec<Mutation> = Vec::new();
        let mut i: usize = 0;
        while i < scoped.len()
            invariant
                i <= scoped@.len() == es.len(),
                forall|k: int| 0 <= k < scoped@.len() ==> {
                    &&& (#[trigger] scoped@[k]).0 == es[k].seq
                    &&& same_mutation(scoped@[k].1, es[k].mutation)
                    &&& pullable_copy(scoped@[k].1, t, ns, tier)
                },
                kept == crate::cursor::doc_views(filtered@),
                mutations@.len() == pull_kept(es.subrange(0, i as int), kept).len(),
                forall|k: int| 0 <= k < mutations@.len() ==>
                    pulled_as(#[trigger] mutations@[k], pull_kept(es.subrange(0, i as int), kept)[k], tier),
                forall|k: int| 0 <= k < mutations@.len() ==> pullable_copy(#[trigger] mutations@[k], req.tenant_id@, req.namespace@, tier),
                t == req.tenant_id@,
                ns == req.namespace@,
            decreases scoped@.len() - i,
        {
            let ghost pre = es.subrange(0, i as int + 1);
            assert(pre.drop_last() =~= es.subrange(0, i as int));
            assert(pre.last() == es[i as int]);
            assert(scoped@[i as int].0 == es[i as int].seq);
            let take = identity_listed(&filtered, scoped[i].0, &scoped[i].1.write_id);
            if take {
                let m = copy_mutation(&scoped[i].1);
                let ann = annotate_mutation_for_read_tier(m, tier);
                let ghost before = mutations@;
                mutations.push(ann);
                proof {
                    assert(pulled_as(ann, es[i as int], tier));
                    assert forall|k: int| 0 <= k < mutations@.len() implies
                        pulled_as(#[trigger] mutations@[k], pull_kept(pre, kept)[k], tier) by {
                        if k < before.len() {
                            assert(mutations@[k] == before[k]);
                        }
                    }
                }
            }
            i = i + 1;
        }
        assert(es.subrange(0, es.len() as int) =~= es);
        let mut audit = Vec::new();
        audit.push(read_decision);
        Ok(PullResponse { mutations, new_checkpoint: checkpoint, audit })
    }

    /// Handles a promotion: the node and tenant of the token, the
    /// mutation's metadata and scope, and the route between tiers are
    /// checked in that order (each failure answers with one rejection, which
    /// is audited);
    /// then the promotion path decides, containment can overrule it, the
    /// decision is audited and counted, and only an allowed candidate is
    /// appended.
    pub fn handle_promote(&mut self, headers: &RequestHeaders, req: PromoteRequest, now_ms: u64) -> (r: Result<PromoteResponse, u16>)
        requires
            old(self).wf(),
        ensures
            final(self).wf(),
            final(self).token_table() == old(self).token_table(),
            final(self).log().len() >= old(self).log().len(),
            final(self).log().subrange(0, old(self).log().len() as int) == old(self).log(),
            !version_ok(headers.protocol_version) ==> r == Err::<PromoteResponse, u16>(status_bad_request())
                && final(self).log() == old(self).log(),
            version_ok(headers.protocol_version) && principal_of(old(self).token_table(), header_text(headers.authorization)) is None
                ==> r == Err::<PromoteResponse, u16>(status_unauthorized()) && final(self).log() == old(self).log(),
            // Only an in-scope candidate with valid metadata on an allowed
            // route is ever appended.
            forall|j: int| old(self).log().len() <= j < final(self).log().len()
                && (#[trigger] final(self).log()[j]).origin == OplogOrigin::Remote ==> {
                &&& in_scope(final(self).log()[j], req.tenant_id@, req.namespace@)
                &&& metadata_fault(final(self).log()[j].mutation.metadata) is None
                &&& crate::control_plane::semantic_route_ok(req.from_tier, req.to_tier)
            },
            r matches Ok(resp) ==> {
                &&& resp.new_checkpoint == final(self).log().len()
                &&& resp.audit@.len() == 1
                &&& (resp.rejected_count == 1 && resp.accepted_seqs@.len() == 0
                    && resp.audit@[0].decision != PolicyDecision::Allow)
                    || (resp.rejected_count == 0 && resp.accepted_seqs@.len() == 1
                    && resp.audit@[0].decision == PolicyDecision::Allow
                    && 1 <= resp.accepted_seqs@[0] <= final(self).log().len())
            },
            version_ok(headers.protocol_version)
                && principal_of(old(self).token_table(), header_text(headers.authorization)) is Some ==> ({
                let p = principal_of(old(self).token_table(), header_text(headers.authorization)).unwrap();
                let rq = (req.tenant_id@, req.namespace@, req.from_tier, req.to_tier, req.candidate_id@);
                let st0 = scope_or_fresh(old(self).scope(req.tenant_id@, req.namespace@), now_ms);
                match promote_early(p, req.node_id@, req.tenant_id@, req.namespace@, req.mutation) {
                    // An early refusal is answered and audited.
                    Some(why) => {
                        &&& r matches Ok(resp) && resp.rejected_count == 1
                            && decisions_view(resp.audit@) == seq![(PolicyDecision::Reject, why)]
                        &&& audit_appended(old(self).log(), final(self).log(), "promotion"@, PolicyDecision::Reject, why,
                            req.tenant_id@, req.namespace@, req.mutation.write_id@)
                        &&& final(self).non_owner_count() == if req.node_id@ != p.node_id@ {
                            bump(old(self).non_owner_count())
                        } else {
                            old(self).non_owner_count()
                        }
                        &&& final(self).cross_tenant_count() == if req.node_id@ == p.node_id@ && (req.tenant_id@ != p.tenant_id@
                            || metadata_fault(req.mutation.metadata) is None) {
                            bump(old(self).cross_tenant_count())
                        } else {
                            old(self).cross_tenant_count()
                        }
                    },
                    // Otherwise the verdict decides, and success is owed
                    // while the log has numbers left.
                    None => {
                        let d = promote_verdict(old(self).promotion_gate(), st0, rq, req.mutation, now_ms);
                        &&& old(self).log().len() + 2 < u64::MAX ==> r is Ok
                        &&& r matches Ok(resp) ==> decisions_view(resp.audit@) == seq![d]
                            && (resp.rejected_count == 0 <==> d.0 == PolicyDecision::Allow)
                        // The log gains the audit record and, for an allowed
                        // promotion, the candidate as a remote entry.
                        &&& r matches Ok(resp) ==> if d.0 == PolicyDecision::Allow {
                            &&& write_log_ok(final(self).log(), old(self).log().len() as int, req.tenant_id@, req.namespace@,
                                seq![req.mutation], resp.accepted_seqs@)
                            &&& old(self).log().len() + 2 < u64::MAX ==> local_count(final(self).log().subrange(
                                old(self).log().len() as int, final(self).log().len() as int)) == 1
                        } else {
                            audit_appended(old(self).log(), final(self).log(), "promotion"@, d.0, d.1, req.tenant_id@,
                                req.namespace@, req.mutation.write_id@)
                        }
                    },
                }
            }),
    {
        let principal = self.authenticate(headers)?;
        let ghost old_len = self.log().len();
        proof {
            reveal_strlit("node_mismatch");
            reveal_strlit("tenant_mismatch");
            reveal_strlit("invalid_metadata:");
            reveal_strlit("cross_tenant_or_namespace_mutation");
            reveal_strlit("promotion");
        }
        let early: Option<GovernanceDecision> = if req.node_id != principal.node_id {
            self.non_owner_rejections = bump_exec(self.non_owner_rejections);
            Some(reject("node_mismatch"))
        } else if req.tenant_id != principal.tenant_id {
            self.cross_tenant_rejections = bump_exec(self.cross_tenant_rejections);
            Some(reject("tenant_mismatch"))
        } else {
            match validate_metadata(&req.mutation.metadata) {
                Ok(()) => {
                    if req.mutation.metadata.tenant_id != req.tenant_id || req.mutation.metadata.namespace != req.namespace {
                        self.cross_tenant_rejections = bump_exec(self.cross_tenant_rejections);
                        Some(reject("cross_tenant_or_namespace_mutation"))
                    } else {
                        None
                    }
                },
                Err(err) => {
                    let mut reason = String::from_str("invalid_metadata:");
                    string_append(&mut reason, &err);
                    Some(GovernanceDecision { decision: PolicyDecision::Reject, reason })
                },
            }
        };
        assert(self.log() == old(self).log());
        assert(self.wf());
        match early {
            Some(decision) => {
                assert(decision_view(decision) == (PolicyDecision::Reject,
                    promote_early(principal_of(old(self).token_table(), header_text(headers.authorization)).unwrap(),
                        req.node_id@, req.tenant_id@, req.namespace@, req.mutation).unwrap()));
                let _ = self.persist_audit_evidence("promotion", &req.tenant_id, &req.namespace, Some(&req.mutation.write_id), &decision);
                proof {
                    if self.log() != old(self).log() {
                        assert forall|j: int| 0 <= j < old_len implies #[trigger] self.log()[j] == old(self).log()[j] by {
                            assert(self.log().drop_last()[j] == self.log()[j]);
                        }
                    }
                    assert(self.log().subrange(0, old_len as int) =~= old(self).log());
                }
                let resp = self.promote_refusal(decision);
                assert(decisions_view(resp.audit@) =~= seq![decision_view(decision)]);
                return Ok(resp);
            },
            None => {},
        }
        assert(promote_early(principal_of(old(self).token_table(), header_text(headers.authorization)).unwrap(),
            req.node_id@, req.tenant_id@, req.namespace@, req.mutation) is None);
        let promotion_request = crate::control_plane::PromotionRequest {
            tenant_id: req.tenant_id.clone(),
            namespace: req.namespace.clone(),
            from: req.from_tier,
            to: req.to_tier,
            candidate_id: req.candidate_id.clone(),
        };
        let route = crate::control_plane::validate_semantic_promotion(&promotion_request);
        if crate::types::is_reject(&route) {
            let ghost before = self.log();
            let _ = self.persist_audit_evidence("promotion", &req.tenant_id, &req.namespace, Some(&req.mutation.write_id), &route);
            proof { reveal_strlit("promotion"); }
            assert(audit_appended(old(self).log(), self.log(), "promotion"@, route.decision, route.reason@, req.tenant_id@,
                req.namespace@, req.mutation.write_id@));
            self.register_decision_outcome(&req.tenant_id, &req.namespace, &route, now_ms);
            proof {
                assert(before.subrange(0, before.len() as int) =~= before);
                self.lemma_prefix_kept(before, old(self).log());
            }
            return Ok(self.promote_refusal(route));
        }
        let document = match &req.mutation.patch {
            Some(p) => p.deep_clone(),
            None => Document::new(),
        };
        let payload = crate::control_plane::WritePayload::StateWithTrust {
            document,
            trust_score: req.mutation.metadata.trust_score,
        };
        let decision = match self.control_plane.promotion_path(&promotion_request, &payload) {
            Ok((d, _)) => d,
            Err(_) => { return Err(500); },
        };
        let decision = match self.containment_gate(&req.tenant_id, &req.namespace, now_ms) {
            Some(d) => d,
            None => decision,
        };
        let ghost before = self.log();
        let _ = self.persist_audit_evidence("promotion", &req.tenant_id, &req.namespace, Some(&req.mutation.write_id), &decision);
        proof { reveal_strlit("promotion"); }
        assert(audit_appended(old(self).log(), self.log(), "promotion"@, decision.decision, decision.reason@, req.tenant_id@,
            req.namespace@, req.mutation.write_id@));
        let ghost after_audit = self.log();
        self.register_decision_outcome(&req.tenant_id, &req.namespace, &decision, now_ms);
        proof {
            assert(before.subrange(0, before.len() as int) =~= before);
            self.lemma_prefix_kept(before, old(self).log());
        }
        if decision.decision != PolicyDecision::Allow {
            return Ok(self.promote_refusal(decision));
        }
        let ghost mid = self.log();
        let ghost mv = req.mutation.metadata;
        let ghost mg = req.mutation;
        let res = self.append_mutation(req.mutation, &req.tenant_id, &req.namespace);
        proof {
            if self.log() != mid {
                assert(self.log().drop_last() == mid);
                assert forall|j: int| 0 <= j < mid.len() implies #[trigger] self.log()[j] == mid[j] by {
                    assert(self.log().drop_last()[j] == self.log()[j]);
                }
                assert(self.log().subrange(0, old_len as int) =~= mid.subrange(0, old_len as int));
            }
        }
        let seq = match res {
            Ok(seq) => seq,
            Err(_) => { return Err(500); },
        };
        proof {
            let t = req.tenant_id@;
            let ns = req.namespace@;
            let base = old(self).log().len() as int;
            assert(old(self).log().subrange(base, base) =~= Seq::<OplogEntry>::empty());
            assert(write_log_ok(old(self).log(), base, t, ns, Seq::<Mutation>::empty(), Seq::<u64>::empty()));
            lemma_write_log_audit(old(self).log(), mid, base, t, ns, Seq::<Mutation>::empty(), Seq::<u64>::empty(),
                "promotion"@, decision.decision, decision.reason@, mg.write_id@);
            if self.log() == mid {
                if !(exists|j: int| 0 <= j < mid.len() && #[trigger] same_identity(mid[j], mg.write_id@, t, ns)) {
                    assert(mid.len() >= u64::MAX);
                }
            }
            lemma_write_log_accept(mid, self.log(), base, t, ns, Seq::<Mutation>::empty(), Seq::<u64>::empty(), mg, seq);
            assert(Seq::<Mutation>::empty().push(mg) =~= seq![mg]);
        }
        let mut accepted_seqs = Vec::new();
        accepted_seqs.push(seq);
        proof { assert(accepted_seqs@ =~= Seq::<u64>::empty().push(seq)); }
        let mut audit = Vec::new();
        audit.push(decision);
        Ok(PromoteResponse { accepted_seqs, new_checkpoint: self.oplog.latest_seq(), rejected_count: 0, audit })
    }

    /// A promotion answered with one refusal.
    fn promote_refusal(&self, decision: GovernanceDecision) -> (r: PromoteResponse)
        requires
            self.wf(),
            decision.decision != PolicyDecision::Allow,
        ensures
            r.accepted_seqs@.len() == 0,
            r.rejected_count == 1,
            r.new_checkpoint == self.log().len(),
            r.audit@.len() == 1,
            r.audit@[0] == decision,
    {
        let mut audit = Vec::new();
        audit.push(decision);
        PromoteResponse { accepted_seqs: Vec::new(), new_checkpoint: self.oplog.latest_seq(), rejected_count: 1, audit }
    }

    /// The log grew only by local records since `before`, whose prefix was
    /// `base`.
    proof fn lemma_prefix_kept(&self, before: Seq<OplogEntry>, base: Seq<OplogEntry>)
        requires
            before.len() >= base.len(),
            before.subrange(0, base.len() as int) == base,
            forall|j: int| base.len() <= j < before.len() ==> (#[trigger] before[j]).origin == OplogOrigin::Local,
            self.log() == before || (self.log().len() == before.len() + 1 && self.log().drop_last() == before
                && self.log().last().origin == OplogOrigin::Local),
        ensures
            self.log().len() >= base.len(),
            self.log().subrange(0, base.len() as int) == base,
            forall|j: int| base.len() <= j < self.log().len() ==> (#[trigger] self.log()[j]).origin == OplogOrigin::Local,
    {
        if self.log() != before {
            assert forall|j: int| 0 <= j < before.len() implies #[trigger] self.log()[j] == before[j] by {
                assert(self.log().drop_last()[j] == self.log()[j]);
            }
            assert(self.log().subrange(0, base.len() as int) =~= before.subrange(0, base.len() as int));
        }
    }

    /// Entries appended after a snapshot of the log were audit records, so
    /// what held of the remote entries still holds.
    proof fn lemma_log_grew(&self, before: Seq<OplogEntry>, base: Seq<OplogEntry>, old_len: int, tenant: Seq<char>, ns: Seq<char>)
        requires
            0 <= old_len <= before.len(),
            before.subrange(0, old_len) == base,
            forall|j: int| old_len <= j < before.len() && (#[trigger] before[j]).origin == OplogOrigin::Remote ==> {
                &&& in_scope(before[j], tenant, ns)
                &&& metadata_fault(before[j].mutation.metadata) is None
            },
            self.log() == before || (self.log().len() == before.len() + 1 && self.log().drop_last() == before
                && self.log().last().origin == OplogOrigin::Local),
        ensures
            self.log().len() >= old_len,
            self.log().subrange(0, old_len) == base,
            forall|j: int| old_len <= j < self.log().len() && (#[trigger] self.log()[j]).origin == OplogOrigin::Remote ==> {
                &&& in_scope(self.log()[j], tenant, ns)
                &&& metadata_fault(self.log()[j].mutation.metadata) is None
            },
    {
        if self.log() != before {
            assert forall|j: int| old_len <= j < self.log().len() && (#[trigger] self.log()[j]).origin == OplogOrigin::Remote implies {
                &&& in_scope(self.log()[j], tenant, ns)
                &&& metadata_fault(self.log()[j].mutation.metadata) is None
            } by {
                assert(j < before.len());
                assert(self.log().drop_last()[j] == self.log()[j]);
            }
            assert forall|j: int| 0 <= j < old_len implies #[trigger] self.log()[j] == before[j] by {
                assert(self.log().drop_last()[j] == self.log()[j]);
            }
            assert(self.log().subrange(0, old_len) =~= before.subrange(0, old_len));
        }
    }
}


impl ServerState<
    crate::control_plane::NoopWriteValidationHook,
    crate::control_plane::NoopTrustScoringHook,
    crate::control_plane::NoopPromotionGateHook,
    crate::control_plane::NoopRetrievalGateHook,
    crate::control_plane::NoopBoundedContextFilterHook,
    crate::control_plane::NoopAnomalySignalHook,
    crate::control_plane::NoopAuditSink,
> {
    /// A hub over `oplog` whose hooks do nothing.
    pub fn new(oplog: MemoryOplog) -> (r: Self)
        requires
            oplog.wf(),
        ensures
            r.wf(),
            r.log() == oplog.view(),
            r.token_table().len() == 0,
            r.non_owner_count() == 0,
            r.cross_tenant_count() == 0,
    {
        Self::with_oplog(oplog, crate::control_plane::default_control_plane())
    }
}

// ---------------------------------------------------------------------------
// Retrieval reads.

/// Whether some filtered document carries `id` as its `candidate_id`.
pub open spec fn id_allowed(filtered: Seq<VDoc>, id: Seq<char>) -> bool {
    exists|j: int| 0 <= j < filtered.len() && doc_get(#[trigger] filtered[j], "candidate_id"@) == Some(VVal::Str(id))
}

/// The positions of the ranked candidates that the filter let through, in
/// rank order.
pub open spec fn allowed_positions(ids: Seq<Seq<char>>, filtered: Seq<VDoc>) -> Seq<usize>
    decreases ids.len(),
{
    if ids.len() == 0 {
        Seq::empty()
    } else {
        let prev = allowed_positions(ids.drop_last(), filtered);
        if id_allowed(filtered, ids.last()) { prev.push((ids.len() - 1) as usize) } else { prev }
    }
}

/// The payloads of ranked candidates.
pub open spec fn ranked_docs(v: Seq<(String, Document)>) -> Seq<VDoc> {
    v.map_values(|c: (String, Document)| c.1@)
}

/// The candidates a read `rv` keeps: none when its limit is zero or its
/// gate rejects it, else what the filter keeps, at most `limit` of them.
pub open spec fn read_kept<R: RetrievalGateHook, B: BoundedContextFilterHook>(
    gate: R,
    filter: B,
    rv: (Seq<char>, Seq<char>, MemoryTier, usize),
    docs: Seq<VDoc>,
) -> Seq<VDoc> {
    if rv.3 == 0 || gate.allow_spec(rv).0 == PolicyDecision::Reject {
        Seq::empty()
    } else {
        crate::control_plane::bounded(filter.apply_spec(rv, docs), rv.3)
    }
}

/// The read path's decision on a read `rv`.
pub open spec fn read_verdict<R: RetrievalGateHook>(gate: R, rv: (Seq<char>, Seq<char>, MemoryTier, usize)) -> (PolicyDecision, Seq<char>) {
    if rv.3 == 0 {
        (PolicyDecision::Reject, crate::control_plane::invalid_limit_reason())
    } else {
        gate.allow_spec(rv)
    }
}

/// The first `n` items, or all of them.
pub open spec fn first_n<X>(s: Seq<X>, n: usize) -> Seq<X> {
    if n < s.len() { s.subrange(0, n as int) } else { s }
}

pub open spec fn doc_views(v: Seq<Document>) -> Seq<VDoc> {
    v.map_values(|d: Document| d@)
}

pub open spec fn ranked_ids(v: Seq<(String, Document)>) -> Seq<Seq<char>> {
    v.map_values(|c: (String, Document)| c.0@)
}

fn docs_carry_id(filtered: &Vec<Document>, id: &String) -> (r: bool)
    ensures
        r == id_allowed(doc_views(filtered@), id@),
{
    let ghost fv = doc_views(filtered@);
    let mut j: usize = 0;
    while j < filtered.len()
        invariant
            j <= filtered@.len(),
            fv == doc_views(filtered@),
            forall|k: int| 0 <= k < j ==> doc_get(#[trigger] fv[k], "candidate_id"@) != Some(VVal::Str(id@)),
        decreases filtered@.len() - j,
    {
        assert(fv[j as int] == filtered@[j as int]@);
        match filtered[j].get_lit("candidate_id") {
            Some(Value::Str(s)) => {
                if *s == *id {
                    return true;
                }
            },
            _ => {},
        }
        j = j + 1;
    }
    false
}

/// Keeps the ranked candidates that the filter let through, in rank order,
/// at most `limit` of them.
pub fn select_ranked(ranked: &Vec<(String, Document)>, filtered: &Vec<Document>, limit: usize) -> (r: Vec<usize>)
    ensures
        r@ == first_n(allowed_positions(ranked_ids(ranked@), doc_views(filtered@)), limit),
{
    let ghost ids = ranked_ids(ranked@);
    let ghost fv = doc_views(filtered@);
    let mut out: Vec<usize> = Vec::new();
    let mut i: usize = 0;
    while i < ranked.len()
        invariant
            i <= ranked@.len() == ids.len(),
            ids == ranked_ids(ranked@),
            fv == doc_views(filtered@),
            out@ == first_n(allowed_positions(ids.subrange(0, i as int), fv), limit),
        decreases ranked@.len() - i,
    {
        let ghost pre = ids.subrange(0, i as int + 1);
        let ghost prev = allowed_positions(ids.subrange(0, i as int), fv);
        assert(pre.drop_last() =~= ids.subrange(0, i as int));
        assert(pre.last() == ranked@[i as int].0@);
        let hit = docs_carry_id(filtered, &ranked[i].0);
        if hit {
            proof { lemma_positions_len(ids.subrange(0, i as int), fv); }
            if out.len() < limit {
                out.push(i);
                assert(out@ =~= first_n(prev.push(i), limit));
            } else {
                assert(first_n(prev.push(i), limit) =~= first_n(prev, limit));
            }
        }
        i = i + 1;
    }
    assert(ids.subrange(0, ranked@.len() as int) =~= ids);
    out
}

proof fn lemma_positions_len(ids: Seq<Seq<char>>, filtered: Seq<VDoc>)
    requires
        ids.len() <= usize::MAX,
    ensures
        allowed_positions(ids, filtered).len() <= ids.len(),
        forall|k: int| 0 <= k < allowed_positions(ids, filtered).len() ==> #[trigger] allowed_positions(ids, filtered)[k] < ids.len(),
    decreases ids.len(),
{
    if ids.len() > 0 {
        lemma_positions_len(ids.drop_last(), filtered);
    }
}

/// The answer to a retrieval read: how retrieval went, why, whether the
/// caller should fall back to canonical reads, and the positions (in the
/// ranked list) of the candidates returned.
pub struct RetrievalReadResponse {
    pub status: RetrievalStatus,
    pub retrieval_status_reason: String,
    pub canonical_fallback: bool,
    pub kept: Vec<usize>,
}

impl<V, T, P, R, B, A, S> ServerState<V, T, P, R, B, A, S>
    where
        V: WriteValidationHook,
        T: TrustScoringHook,
        P: PromotionGateHook,
        R: RetrievalGateHook,
        B: BoundedContextFilterHook,
        A: AnomalySignalHook,
        S: AuditSink,
{
    /// Handles a retrieval read, given what retrieval answered (already
    /// ranked: each candidate's id and payload, best first). A caller of
    /// another tenant is refused. When retrieval failed the answer is
    /// degraded, with its reason, and points to canonical reads; otherwise
    /// the read path decides over the payloads, and the ranked candidates it
    /// lets through are returned in rank order, at most the request's limit.
    /// Either way the decision is counted toward containment and audited.
    pub fn handle_retrieval_read(
        &mut self,
        headers: &RequestHeaders,
        req: &RetrievalCapabilityRequest,
        ranked: Result<Vec<(String, Document)>, AdapterError>,
        now_ms: u64,
    ) -> (r: Result<RetrievalReadResponse, u16>)
        requires
            old(self).wf(),
        ensures
            final(self).wf(),
            final(self).token_table() == old(self).token_table(),
            !version_ok(headers.protocol_version) ==> r == Err::<RetrievalReadResponse, u16>(status_bad_request())
                && final(self).log() == old(self).log(),
            version_ok(headers.protocol_version) && principal_of(old(self).token_table(), header_text(headers.authorization)) is None
                ==> r == Err::<RetrievalReadResponse, u16>(status_unauthorized()) && final(self).log() == old(self).log(),
            version_ok(headers.protocol_version) && (principal_of(old(self).token_table(), header_text(headers.authorization)) matches Some(p)
                && p.tenant_id@ != req.tenant_id@)
                ==> r == Err::<RetrievalReadResponse, u16>(status_forbidden()) && final(self).log() == old(self).log(),
            r is Ok ==> final(self).log().len() <= old(self).log().len() + 1
                && final(self).log().subrange(0, old(self).log().len() as int) == old(self).log(),
            r is Ok && old(self).log().len() < u64::MAX ==> final(self).log().len() == old(self).log().len() + 1,
            // Success is owed to a caller of the request's tenant.
            version_ok(headers.protocol_version) && (principal_of(old(self).token_table(), header_text(headers.authorization)) matches Some(p)
                && p.tenant_id@ == req.tenant_id@) ==> r is Ok,
            // The decision is audited and counted toward the scope's
            // containment: a failed retrieval as a sanitizing decision with
            // its reason, an answered one as the read path decided.
            r is Ok ==> ({
                let d = match ranked {
                    Err(e) => (PolicyDecision::Sanitize, e.reason@),
                    Ok(_) => read_verdict(old(self).read_hooks().0,
                        (req.tenant_id@, req.namespace@, MemoryTier::State, req.limit)),
                };
                &&& audit_appended(old(self).log(), final(self).log(), "retrieval"@, d.0, d.1, req.tenant_id@,
                    req.namespace@, "none"@)
                &&& final(self).scope(req.tenant_id@, req.namespace@) == Some(observed(
                    scope_or_fresh(old(self).scope(req.tenant_id@, req.namespace@), now_ms), d.0, now_ms))
                &&& forall|t2: Seq<char>, n2: Seq<char>| !(t2 == req.tenant_id@ && n2 == req.namespace@) ==>
                    #[trigger] final(self).scope(t2, n2) == old(self).scope(t2, n2)
            }),
            r matches Ok(resp) ==> match ranked {
                Err(e) => {
                    &&& resp.status == RetrievalStatus::Degraded
                    &&& resp.retrieval_status_reason@ == e.reason@
                    &&& resp.canonical_fallback
                    &&& resp.kept@.len() == 0
                },
                Ok(v) => {
                    let rv = (req.tenant_id@, req.namespace@, MemoryTier::State, req.limit);
                    &&& resp.status == RetrievalStatus::Healthy
                    &&& !resp.canonical_fallback
                    &&& resp.retrieval_status_reason@ == read_verdict(old(self).read_hooks().0, rv).1
                    &&& resp.kept@ == first_n(allowed_positions(ranked_ids(v@),
                        read_kept(old(self).read_hooks().0, old(self).read_hooks().1, rv, ranked_docs(v@))), req.limit)
                    &&& resp.kept@.len() <= req.limit
                    &&& forall|k: int| 0 <= k < resp.kept@.len() ==> #[trigger] resp.kept@[k] < v@.len()
                    &&& forall|k: int, m: int| 0 <= k < m < resp.kept@.len() ==> resp.kept@[k] < resp.kept@[m]
                    &&& req.limit == 0 ==> resp.retrieval_status_reason@ == crate::control_plane::invalid_limit_reason()
                },
            },
    {
        let principal = self.authenticate(headers)?;
        if principal.tenant_id != req.tenant_id {
            return Err(403);
        }
        let ghost before = self.log();
        let request = crate::control_plane::ReadRequest {
            tenant_id: req.tenant_id.clone(),
            namespace: req.namespace.clone(),
            tier: MemoryTier::State,
            limit: req.limit,
        };
        match ranked {
            Ok(v) => {
                let mut docs: Vec<Document> = Vec::new();
                let mut i: usize = 0;
                while i < v.len()
                    invariant
                        i <= v@.len(),
                        doc_views(docs@) == ranked_docs(v@).subrange(0, i as int),
                    decreases v@.len() - i,
                {
                    let d = v[i].1.deep_clone();
                    let ghost before = docs@;
                    docs.push(d);
                    assert(doc_views(docs@) =~= doc_views(before).push(d@));
                    assert(ranked_docs(v@).subrange(0, i + 1) =~= ranked_docs(v@).subrange(0, i as int).push(d@));
                    i = i + 1;
                }
                assert(ranked_docs(v@).subrange(0, v@.len() as int) =~= ranked_docs(v@));
                assert(crate::cursor::doc_views(docs@) == doc_views(docs@));
                let (decision, filtered) = match self.control_plane.read_path(&request, docs) {
                    Ok(x) => x,
                    Err(_) => {
                        return Err(500);
                    },
                };
                proof {
                    let rv = (req.tenant_id@, req.namespace@, MemoryTier::State, req.limit);
                    assert(crate::control_plane::read_view(request) == rv);
                    assert(doc_views(filtered@) =~= read_kept(old(self).read_hooks().0, old(self).read_hooks().1, rv,
                        ranked_docs(v@)));
                    assert(decision_view(decision).1 == read_verdict(old(self).read_hooks().0, rv).1);
                }
                let kept = select_ranked(&v, &filtered, req.limit);
                proof {
                    let ap = allowed_positions(ranked_ids(v@), doc_views(filtered@));
                    lemma_positions_len(ranked_ids(v@), doc_views(filtered@));
                    lemma_positions_increasing(ranked_ids(v@), doc_views(filtered@));
                }
                proof { reveal_strlit("retrieval"); reveal_strlit("none"); }
                self.record_decision("retrieval", &req.tenant_id, &req.namespace, None, &decision, now_ms);
                Ok(RetrievalReadResponse {
                    status: RetrievalStatus::Healthy,
                    retrieval_status_reason: decision.reason,
                    canonical_fallback: false,
                    kept,
                })
            },
            Err(err) => {
                let decision = GovernanceDecision { decision: PolicyDecision::Sanitize, reason: err.reason.clone() };
                proof { reveal_strlit("retrieval"); reveal_strlit("none"); }
                self.record_decision("retrieval", &req.tenant_id, &req.namespace, None, &decision, now_ms);
                Ok(RetrievalReadResponse {
                    status: RetrievalStatus::Degraded,
                    retrieval_status_reason: err.reason,
                    canonical_fallback: true,
                    kept: Vec::new(),
                })
            },
        }
    }
}

proof fn lemma_positions_increasing(ids: Seq<Seq<char>>, filtered: Seq<VDoc>)
    requires
        ids.len() <= usize::MAX,
    ensures
        forall|k: int, m: int| 0 <= k < m < allowed_positions(ids, filtered).len()
            ==> allowed_positions(ids, filtered)[k] < allowed_positions(ids, filtered)[m],
    decreases ids.len(),
{
    if ids.len() > 0 {
        let prev = allowed_positions(ids.drop_last(), filtered);
        lemma_positions_increasing(ids.drop_last(), filtered);
        lemma_positions_len(ids.drop_last(), filtered);
        let cur = allowed_positions(ids, filtered);
        if id_allowed(filtered, ids.last()) {
            let last = (ids.len() - 1) as usize;
            assert(cur == prev.push(last));
            assert forall|k: int, m: int| 0 <= k < m < cur.len() implies cur[k] < cur[m] by {
                assert(cur[k] == prev[k]);
                assert(prev[k] < ids.drop_last().len());
                if m < prev.len() {
                    assert(cur[m] == prev[m]);
                    assert(prev[k] < prev[m]);
                } else {
                    assert(cur[m] == last);
                    assert(last == ids.drop_last().len());
                }
            }
        } else {
            assert(cur == prev);
        }
    }
}

} // verus!
