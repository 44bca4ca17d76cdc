use vstd::prelude::*;
use crate::value::{VVal, VDoc, doc_get, doc_insert, keys_unique, lemma_insert_keeps_unique, lemma_remove_keeps_unique};
use crate::revision::{VRevision, revision_order};
use crate::filter::text_order;
use crate::sort::{lemma_text_order_antisymmetric, lemma_text_order_transitive};
use crate::store::{CollView, coll_get, coll_put, coll_delete, id_pos, lemma_id_pos, lemma_id_pos_at};
use crate::engine::{
    new_doc_id, inserted_doc, tombstone_doc, stamped, is_deleted_doc, with_conflict, last_ten,
    max_conflicts, lww_merge, doc_revision,
};

verus! {

// What holds across the engine's operations: a read gives back what a write
// stored, deletes leave tombstones, and replicas that exchange versions
// agree on the winner.

/// The reserved field names are all different (they differ in length).
pub proof fn lemma_reserved_names()
    ensures
        "_id"@.len() == 3,
        "_rev"@.len() == 4,
        "_deleted"@.len() == 8,
        "_conflicts"@.len() == 10,
        "_updated_at"@.len() == 11,
        "_source_node"@.len() == 12,
{
    reveal_strlit("_id");
    reveal_strlit("_rev");
    reveal_strlit("_deleted");
    reveal_strlit("_conflicts");
    reveal_strlit("_updated_at");
    reveal_strlit("_source_node");
}

/// Storing a document under an id and then reading that id gives the
/// document back.
pub proof fn lemma_put_then_get(c: CollView, id: VVal, d: VDoc)
    ensures
        coll_get(coll_put(c, id, d), id) == Some(d),
{
    lemma_id_pos(c, id);
    let p = id_pos(c, id);
    let c2 = coll_put(c, id, d);
    if p >= 0 {
        lemma_id_pos_at(c2, id, p);
    } else {
        lemma_id_pos_at(c2, id, c.len() as int);
    }
}

/// Storing under one id leaves what another id reads unchanged.
pub proof fn lemma_put_keeps_others(c: CollView, id: VVal, d: VDoc, other: VVal)
    requires
        other != id,
    ensures
        coll_get(coll_put(c, id, d), other) == coll_get(c, other),
{
    lemma_id_pos(c, id);
    lemma_id_pos(c, other);
    let c2 = coll_put(c, id, d);
    let q = id_pos(c, other);
    if q >= 0 {
        lemma_id_pos_at(c2, other, q);
    } else {
        lemma_id_pos(c2, other);
        assert forall|j: int| 0 <= j < c2.len() implies c2[j].0 != other by {
            if j < c.len() && j != id_pos(c, id) {
                assert(c2[j] == c[j]);
            }
        }
        crate::store::lemma_id_pos_none(c2, other);
    }
}

/// A removed id reads as absent.
pub proof fn lemma_delete_then_get(c: CollView, id: VVal)
    requires
        forall|i: int, j: int| 0 <= i < j < c.len() ==> c[i].0 != c[j].0,
    ensures
        coll_get(coll_delete(c, id), id) is None,
{
    lemma_id_pos(c, id);
    let p = id_pos(c, id);
    let c2 = coll_delete(c, id);
    if p >= 0 {
        assert forall|j: int| 0 <= j < c2.len() implies c2[j].0 != id by {
            if j < p {
            } else {
                assert(c2[j] == c[j + 1]);
            }
        }
    }
    crate::store::lemma_id_pos_none(c2, id);
}

/// Stamping a document sets its write metadata and keeps every other field.
pub proof fn lemma_stamped_fields(d: VDoc, rev: VRevision, now: i64, node: Seq<char>)
    requires
        keys_unique(d),
    ensures
        keys_unique(stamped(d, rev, now, node)),
        doc_get(stamped(d, rev, now, node), "_updated_at"@) == Some(VVal::DateTime(now)),
        doc_get(stamped(d, rev, now, node), "_source_node"@) == Some(VVal::Str(node)),
        forall|k: Seq<char>| k != "_rev"@ && k != "_updated_at"@ && k != "_source_node"@
            ==> #[trigger] doc_get(stamped(d, rev, now, node), k) == doc_get(d, k),
{
    let s1 = doc_insert(d, "_rev"@, VVal::Str(crate::revision::revision_text(rev)));
    let s2 = doc_insert(s1, "_updated_at"@, VVal::DateTime(now));
    lemma_insert_keeps_unique(d, "_rev"@, VVal::Str(crate::revision::revision_text(rev)));
    lemma_insert_keeps_unique(s1, "_updated_at"@, VVal::DateTime(now));
    lemma_insert_keeps_unique(s2, "_source_node"@, VVal::Str(node));
    lemma_reserved_names();
}

/// Read-after-write for inserts: the inserted document is stored under its
/// id, is live, carries that id, and keeps every field of the caller's
/// document but the write metadata (`_id`, `_rev`, `_updated_at`,
/// `_source_node`, `_deleted`).
pub proof fn lemma_insert_then_read(c: CollView, doc: VDoc, fresh: VVal, rev: VRevision, now: i64, node: Seq<char>)
    requires
        keys_unique(doc),
    ensures
        ({
            let id = new_doc_id(doc, fresh);
            let stored = inserted_doc(doc, id, rev, now, node);
            &&& coll_get(coll_put(c, id, stored), id) == Some(stored)
            &&& !is_deleted_doc(stored)
            &&& doc_get(stored, "_id"@) == Some(id)
            &&& forall|k: Seq<char>| k != "_id"@ && k != "_rev"@ && k != "_updated_at"@ && k != "_source_node"@
                && k != "_deleted"@ ==> #[trigger] doc_get(stored, k) == doc_get(doc, k)
        }),
{
    let id = new_doc_id(doc, fresh);
    let with_id = doc_insert(doc, "_id"@, id);
    lemma_insert_keeps_unique(doc, "_id"@, id);
    lemma_stamped_fields(with_id, rev, now, node);
    let st = stamped(with_id, rev, now, node);
    lemma_remove_keeps_unique(st, "_deleted"@);
    lemma_put_then_get(c, id, inserted_doc(doc, id, rev, now, node));
    lemma_reserved_names();
    assert(doc_get(st, "_id"@) == doc_get(with_id, "_id"@));
    assert forall|k: Seq<char>| k != "_id"@ && k != "_rev"@ && k != "_updated_at"@ && k != "_source_node"@
        && k != "_deleted"@ implies #[trigger] doc_get(inserted_doc(doc, id, rev, now, node), k) == doc_get(doc, k) by {
        assert(doc_get(inserted_doc(doc, id, rev, now, node), k) == doc_get(st, k));
        assert(doc_get(st, k) == doc_get(with_id, k));
        assert(doc_get(with_id, k) == doc_get(doc, k));
    }
}

/// After a delete the document reads back as a tombstone, with its other
/// fields kept.
pub proof fn lemma_delete_then_read(c: CollView, id: VVal, cur: VDoc, rev: VRevision, now: i64, node: Seq<char>)
    requires
        keys_unique(cur),
    ensures
        ({
            let stored = tombstone_doc(cur, rev, now, node);
            &&& coll_get(coll_put(c, id, stored), id) == Some(stored)
            &&& is_deleted_doc(stored)
            &&& forall|k: Seq<char>| k != "_rev"@ && k != "_updated_at"@ && k != "_source_node"@ && k != "_deleted"@
                ==> #[trigger] doc_get(stored, k) == doc_get(cur, k)
        }),
{
    let marked = doc_insert(cur, "_deleted"@, VVal::Bool(true));
    lemma_insert_keeps_unique(cur, "_deleted"@, VVal::Bool(true));
    lemma_stamped_fields(marked, rev, now, node);
    lemma_put_then_get(c, id, tombstone_doc(cur, rev, now, node));
    lemma_reserved_names();
}

/// A document keeps at most ten conflicting versions: after a conflict is
/// added, a `_conflicts` array never holds more than ten entries.
pub proof fn lemma_conflicts_bounded(winner: VDoc, loser: VDoc)
    requires
        keys_unique(winner),
    ensures
        doc_get(with_conflict(winner, loser), "_conflicts"@) matches Some(VVal::Array(a))
            ==> a.len() <= max_conflicts() || doc_get(winner, "_conflicts"@) == Some(VVal::Array(a)),
{
    match doc_get(winner, "_conflicts"@) {
        None => lemma_insert_keeps_unique(winner, "_conflicts"@, VVal::Array(seq![VVal::Doc(loser)])),
        Some(VVal::Array(a)) => lemma_insert_keeps_unique(winner, "_conflicts"@,
            VVal::Array(last_ten(a.push(VVal::Doc(loser))))),
        Some(_) => {},
    }
}

/// Adding a conflict changes no field but `_conflicts`.
pub proof fn lemma_with_conflict_fields(winner: VDoc, loser: VDoc)
    requires
        keys_unique(winner),
    ensures
        keys_unique(with_conflict(winner, loser)),
        forall|k: Seq<char>| k != "_conflicts"@ ==> #[trigger] doc_get(with_conflict(winner, loser), k) == doc_get(winner, k),
        doc_revision(with_conflict(winner, loser)) == doc_revision(winner),
        is_deleted_doc(with_conflict(winner, loser)) == is_deleted_doc(winner),
{
    match doc_get(winner, "_conflicts"@) {
        None => lemma_insert_keeps_unique(winner, "_conflicts"@, VVal::Array(seq![VVal::Doc(loser)])),
        Some(VVal::Array(a)) => lemma_insert_keeps_unique(winner, "_conflicts"@,
            VVal::Array(last_ten(a.push(VVal::Doc(loser))))),
        Some(_) => {},
    }
    lemma_reserved_names();
    assert(doc_get(with_conflict(winner, loser), "_rev"@) == doc_get(winner, "_rev"@));
    assert(doc_get(with_conflict(winner, loser), "_deleted"@) == doc_get(winner, "_deleted"@));
}

/// Applying the same version twice in a row is the same as applying it
/// once, when the version is not a tombstone and is not older than the
/// local document.
pub proof fn lemma_apply_idempotent(local: Option<VDoc>, remote: VDoc)
    requires
        keys_unique(remote),
        local is Some ==> keys_unique(local.unwrap()),
        !is_deleted_doc(remote),
        (local matches Some(l) && !is_deleted_doc(l)) ==> revision_order(doc_revision(remote), doc_revision(local.unwrap())) >= 0,
    ensures
        lww_merge(Some(lww_merge(local, remote)), remote) == lww_merge(local, remote),
{
    match local {
        Some(l) => {
            if !is_deleted_doc(l) {
                lemma_with_conflict_fields(remote, l);
                lemma_revision_order_reflexive(doc_revision(remote));
            } else {
                lemma_revision_order_reflexive(doc_revision(remote));
            }
        },
        None => lemma_revision_order_reflexive(doc_revision(remote)),
    }
}

/// Applying a live document that is already stored, as it is stored,
/// leaves it as it is: no conflict is recorded, however often it comes.
pub proof fn lemma_apply_stored_unchanged(l: VDoc)
    requires
        !is_deleted_doc(l),
    ensures
        lww_merge(Some(l), l) == l,
{
    lemma_revision_order_reflexive(doc_revision(l));
}

/// Every revision compares equal to itself.
pub proof fn lemma_revision_order_reflexive(a: VRevision)
    ensures
        revision_order(a, a) == 0,
{
    lemma_text_order_antisymmetric(a.node_id, a.node_id);
}

/// Two strings that compare equal are the same.
pub proof fn lemma_text_order_zero(a: Seq<char>, b: Seq<char>)
    requires
        text_order(a, b) == 0,
    ensures
        a == b,
    decreases a.len(),
{
    if a.len() > 0 && b.len() > 0 {
        lemma_text_order_zero(a.drop_first(), b.drop_first());
        vstd::utf8::char_u32_cast(a[0], a[0] as u32);
        vstd::utf8::char_u32_cast(b[0], b[0] as u32);
        assert(a[0] == b[0]);
        assert(a =~= seq![a[0]] + a.drop_first());
        assert(b =~= seq![b[0]] + b.drop_first());
    } else {
        assert(a =~= b);
    }
}

/// Revisions are totally ordered: the order is antisymmetric, only equal
/// revisions compare equal, and it is transitive.
pub proof fn lemma_revision_order_total(a: VRevision, b: VRevision, c: VRevision)
    ensures
        revision_order(a, b) == -revision_order(b, a),
        revision_order(a, b) == 0 ==> a == b,
        revision_order(a, b) <= 0 && revision_order(b, c) <= 0 ==> revision_order(a, c) <= 0,
{
    lemma_text_order_antisymmetric(a.node_id, b.node_id);
    if revision_order(a, b) == 0 {
        lemma_text_order_zero(a.node_id, b.node_id);
    }
    if revision_order(a, b) <= 0 && revision_order(b, c) <= 0 && a.timestamp_ms == b.timestamp_ms
        && b.timestamp_ms == c.timestamp_ms && a.counter == b.counter && b.counter == c.counter {
        lemma_text_order_transitive(a.node_id, b.node_id, c.node_id);
    }
}

/// The later of two revisions.
pub open spec fn later(a: VRevision, b: VRevision) -> VRevision {
    if revision_order(a, b) >= 0 { a } else { b }
}

/// Applying a live version to a live document leaves the later revision,
/// live.
pub proof fn lemma_merge_revision(l: VDoc, r: VDoc)
    requires
        keys_unique(l),
        keys_unique(r),
        !is_deleted_doc(l),
        !is_deleted_doc(r),
    ensures
        doc_revision(lww_merge(Some(l), r)) == later(doc_revision(r), doc_revision(l)),
        !is_deleted_doc(lww_merge(Some(l), r)),
        keys_unique(lww_merge(Some(l), r)),
{
    lemma_with_conflict_fields(r, l);
    lemma_with_conflict_fields(l, r);
    lemma_revision_order_total(doc_revision(r), doc_revision(l), doc_revision(l));
}

/// Replicas converge: starting from the same live document, applying two
/// live versions in either order leaves the same (latest) revision.
pub proof fn lemma_replicas_converge(l: VDoc, a: VDoc, b: VDoc)
    requires
        keys_unique(l),
        keys_unique(a),
        keys_unique(b),
        !is_deleted_doc(l),
        !is_deleted_doc(a),
        !is_deleted_doc(b),
    ensures
        doc_revision(lww_merge(Some(lww_merge(Some(l), a)), b))
            == doc_revision(lww_merge(Some(lww_merge(Some(l), b)), a)),
{
    lemma_merge_revision(l, a);
    lemma_merge_revision(l, b);
    lemma_merge_revision(lww_merge(Some(l), a), b);
    lemma_merge_revision(lww_merge(Some(l), b), a);
    let rl = doc_revision(l);
    let ra = doc_revision(a);
    let rb = doc_revision(b);
    lemma_revision_order_total(ra, rl, rb);
    lemma_revision_order_total(rb, rl, ra);
    lemma_revision_order_total(rl, ra, rb);
    lemma_revision_order_total(rl, rb, ra);
    lemma_revision_order_total(ra, rb, rl);
    lemma_revision_order_total(rb, ra, rl);
}

} // verus!
