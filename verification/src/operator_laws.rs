use vstd::prelude::*;
use crate::value::{VVal, VDoc, doc_get, doc_insert, doc_remove, doc_has, key_pos, keys_unique, lemma_key_pos,
    lemma_key_pos_at, lemma_key_pos_none, lemma_key_pos_unique, lemma_insert_keeps_unique, lemma_remove_keeps_unique};
use crate::query::{key_of, key_order, projected, included, excluded, is_inclusion, selects, drops};
use crate::types::RangoError;
use crate::revision::{VRevision, parse_revision};
use crate::engine::{resolved, kept_conflicts, chosen_conflict, is_chosen};
use crate::update::{UpdateState, update_applied, update_result, update_prefix, inc_fields, inc_one};
use crate::filter::{value_order, compare_op, int_order, text_order, filter_outcome, filter_from, entry_outcome,
    field_outcome, ops_outcome, starts_with_dollar, filter_eq};
use crate::float::f64_compare;

verus! {

// What the query and update operators mean, stated against the values they
// act on: comparisons against the order of values, `$inc` against integer
// addition, projections field by field, sort keys against the order of the
// values they come from, and conflict resolution against the conflicts it
// starts from.

// ---------------------------------------------------------------------------
// Comparison operators.

/// Every ordering of two values is one of -1, 0 and 1.
pub proof fn lemma_text_order_range(a: Seq<char>, b: Seq<char>)
    ensures
        text_order(a, b) == -1 || text_order(a, b) == 0 || text_order(a, b) == 1,
    decreases a.len(),
{
    if a.len() > 0 && b.len() > 0 && (a[0] as u32) == (b[0] as u32) {
        lemma_text_order_range(a.drop_first(), b.drop_first());
    }
}

pub proof fn lemma_value_order_range(x: VVal, b: VVal)
    ensures
        value_order(x, b) matches Ok(c) ==> (c == -1 || c == 0 || c == 1),
{
    if let (VVal::Str(p), VVal::Str(q)) = (x, b) {
        lemma_text_order_range(p, q);
    }
}

/// The comparison operators mean what their names say. For a field value
/// `x` and a bound `b` that can be ordered: `$gt` holds exactly when `x`
/// orders above `b`, `$gte` when above or equal, `$lt` exactly when below,
/// `$lte` when below or equal; so a value equal to the bound satisfies
/// `$gte` and `$lte` but neither `$gt` nor `$lt`. Values that cannot be
/// ordered give the ordering's error, and a missing field satisfies none.
pub proof fn lemma_comparison_operators(x: VVal, b: VVal)
    ensures
        value_order(x, b) matches Ok(c) ==> {
            &&& compare_op(0, Some(x), b) == Ok::<bool, Seq<char>>(c == 1)
            &&& compare_op(1, Some(x), b) == Ok::<bool, Seq<char>>(c == 1 || c == 0)
            &&& compare_op(2, Some(x), b) == Ok::<bool, Seq<char>>(c == -1)
            &&& compare_op(3, Some(x), b) == Ok::<bool, Seq<char>>(c == -1 || c == 0)
        },
        value_order(x, b) matches Err(e) ==> forall|op: int| 0 <= op < 4 ==> #[trigger] compare_op(op, Some(x), b)
            == Err::<bool, Seq<char>>(e),
        forall|op: int| 0 <= op < 4 ==> #[trigger] compare_op(op, None, b) == Ok::<bool, Seq<char>>(false),
{
    lemma_value_order_range(x, b);
}

/// On integers (32- or 64-bit, mixed) the comparison operators are the
/// comparisons of the numbers: `$gt` is `>`, `$gte` is `>=`, `$lt` is `<`
/// and `$lte` is `<=`.
pub proof fn lemma_integer_comparisons(x: VVal, b: VVal)
    requires
        x is Int32 || x is Int64,
        b is Int32 || b is Int64,
    ensures
        compare_op(0, Some(x), b) == Ok::<bool, Seq<char>>(int_value_of(x) > int_value_of(b)),
        compare_op(1, Some(x), b) == Ok::<bool, Seq<char>>(int_value_of(x) >= int_value_of(b)),
        compare_op(2, Some(x), b) == Ok::<bool, Seq<char>>(int_value_of(x) < int_value_of(b)),
        compare_op(3, Some(x), b) == Ok::<bool, Seq<char>>(int_value_of(x) <= int_value_of(b)),
{
}

/// The number an integer value holds.
pub open spec fn int_value_of(v: VVal) -> int {
    match v {
        VVal::Int32(i) => i as int,
        VVal::Int64(i) => i as int,
        _ => 0,
    }
}

/// A filter made of one comparison on one field, `{f: {$op: b}}`, holds of
/// a document exactly as the comparison holds of the field's value: with
/// `$lt` exactly when the field is present and orders below the bound, with
/// `$lte` when it orders below or equal, with `$gt` above, with `$gte` above
/// or equal.
pub proof fn lemma_single_comparison_filter(doc: VDoc, f: Seq<char>, b: VVal)
    requires
        !starts_with_dollar(f),
    ensures
        filter_outcome(doc, seq![(f, VVal::Doc(seq![("$lt"@, b)]))]) == Ok::<bool, Seq<char>>(true)
            <==> (doc_get(doc, f) matches Some(x) && value_order(x, b) == Ok::<i8, Seq<char>>(-1i8)),
        filter_outcome(doc, seq![(f, VVal::Doc(seq![("$lte"@, b)]))]) == Ok::<bool, Seq<char>>(true)
            <==> (doc_get(doc, f) matches Some(x) && (value_order(x, b) == Ok::<i8, Seq<char>>(-1i8)
                || value_order(x, b) == Ok::<i8, Seq<char>>(0i8))),
        filter_outcome(doc, seq![(f, VVal::Doc(seq![("$gt"@, b)]))]) == Ok::<bool, Seq<char>>(true)
            <==> (doc_get(doc, f) matches Some(x) && value_order(x, b) == Ok::<i8, Seq<char>>(1i8)),
        filter_outcome(doc, seq![(f, VVal::Doc(seq![("$gte"@, b)]))]) == Ok::<bool, Seq<char>>(true)
            <==> (doc_get(doc, f) matches Some(x) && (value_order(x, b) == Ok::<i8, Seq<char>>(1i8)
                || value_order(x, b) == Ok::<i8, Seq<char>>(0i8))),
{
    reveal_strlit("$and");
    reveal_strlit("$or");
    reveal_strlit("$eq");
    reveal_strlit("$gt");
    reveal_strlit("$gte");
    reveal_strlit("$lt");
    reveal_strlit("$lte");
    match doc_get(doc, f) {
        Some(x) => lemma_comparison_operators(x, b),
        None => {},
    }
    assert("$lt"@[1] != "$eq"@[1]);
    assert("$lte"@.len() != "$eq"@.len());
    assert("$gt"@[1] != "$eq"@[1]);
    assert("$lt"@[1] != "$gt"@[1]);
    assert("$lte"@[1] != "$gte"@[1]);
    assert("$lt"@.len() != "$gte"@.len() && "$lte"@.len() != "$gt"@.len() && "$lt"@.len() != "$lte"@.len()
        && "$gt"@.len() != "$gte"@.len());
    lemma_one_op(doc, f, "$lt"@, b, 2);
    lemma_one_op(doc, f, "$lte"@, b, 3);
    lemma_one_op(doc, f, "$gt"@, b, 0);
    lemma_one_op(doc, f, "$gte"@, b, 1);
}

proof fn lemma_one_op(doc: VDoc, f: Seq<char>, op: Seq<char>, b: VVal, k: int)
    requires
        !starts_with_dollar(f),
        f != "$and"@,
        f != "$or"@,
        op == "$lt"@ && k == 2 || op == "$lte"@ && k == 3 || op == "$gt"@ && k == 0 || op == "$gte"@ && k == 1,
        op != "$eq"@,
        "$lt"@ != "$gt"@ && "$lt"@ != "$gte"@ && "$lte"@ != "$gt"@ && "$lte"@ != "$gte"@ && "$lt"@ != "$lte"@
            && "$gt"@ != "$gte"@,
    ensures
        filter_outcome(doc, seq![(f, VVal::Doc(seq![(op, b)]))]) == compare_op(k, doc_get(doc, f), b),
{
    let ops = seq![(op, b)];
    let flt = seq![(f, VVal::Doc(ops))];
    assert(ops_outcome(doc, f, ops, 1) == Ok::<bool, Seq<char>>(true));
    assert(ops_outcome(doc, f, ops, 0) == compare_op(k, doc_get(doc, f), b));
    assert(field_outcome(doc, f, VVal::Doc(ops)) == compare_op(k, doc_get(doc, f), b));
    assert(entry_outcome(doc, f, VVal::Doc(ops)) == compare_op(k, doc_get(doc, f), b));
    assert(filter_from(doc, flt, 1) == Ok::<bool, Seq<char>>(true));
    assert(filter_from(doc, flt, 0) == compare_op(k, doc_get(doc, f), b));
}

// ---------------------------------------------------------------------------
// Sort keys.

/// Sorting by a field orders documents by the field's value: the keys of two
/// integer fields (32- or 64-bit, mixed) compare as the numbers do, the keys
/// of two dates as the instants do, and the keys of two strings in
/// code-point order; a missing field or null sorts before any integer.
pub proof fn lemma_sort_keys_follow_values(x: VVal, y: VVal)
    ensures
        (x is Int32 || x is Int64) && (y is Int32 || y is Int64) ==> (key_of(Some(x)) matches Ok(kx)
            && (key_of(Some(y)) matches Ok(ky) && key_order(kx, ky) == int_order(int_value_of(x), int_value_of(y)))),
        x matches VVal::DateTime(p) ==> (y matches VVal::DateTime(q) ==> (key_of(Some(x)) matches Ok(kx)
            && (key_of(Some(y)) matches Ok(ky) && key_order(kx, ky) == int_order(p as int, q as int)))),
        x matches VVal::Str(p) ==> (y matches VVal::Str(q) ==> (key_of(Some(x)) matches Ok(kx)
            && (key_of(Some(y)) matches Ok(ky) && key_order(kx, ky) == text_order(p, q)))),
        (x is Int32 || x is Int64) ==> (key_of(Some(x)) matches Ok(kx) && key_of(None) matches Ok(kn)
            && key_order(kn, kx) == -1 && (key_of(Some(VVal::Null)) matches Ok(kz) && key_order(kz, kx) == -1)),
        x matches VVal::Double(p) ==> (y matches VVal::Double(q) ==> (f64_compare(p, q) matches Some(c) ==>
            (key_of(Some(x)) matches Ok(kx) && (key_of(Some(y)) matches Ok(ky) && key_order(kx, ky) == c)))),
{
}

/// Equality filters compare integers by value, across widths: a 32-bit and
/// a 64-bit integer are equal exactly when they hold the same number, and a
/// missing field equals no value.
pub proof fn lemma_integer_equality(x: VVal, y: VVal)
    requires
        x is Int32 || x is Int64,
        y is Int32 || y is Int64,
    ensures
        filter_eq(Some(x), Some(y)) <==> int_value_of(x) == int_value_of(y),
        !filter_eq(None, Some(y)),
{
}

// ---------------------------------------------------------------------------
// Projection.

/// Some projection field named `k` among the first `n` selects it.
pub open spec fn selected_before(p: VDoc, k: Seq<char>, n: int) -> bool {
    exists|i: int| 0 <= i < n && i < p.len() && p[i].0 == k && #[trigger] p[i].1 == VVal::Int32(1)
}

proof fn lemma_included_fields(doc: VDoc, p: VDoc, n: int, k: Seq<char>)
    requires
        0 <= n <= p.len(),
    ensures
        keys_unique(included(doc, p, n)),
        doc_get(included(doc, p, n), k) == (if selected_before(p, k, n) { doc_get(doc, k) } else { None::<VVal> }),
    decreases n,
{
    if n == 0 {
        lemma_key_pos_none(included(doc, p, n), k);
    } else {
        lemma_included_fields(doc, p, n - 1, k);
        let r = included(doc, p, n - 1);
        let kk = p[n - 1].0;
        lemma_key_pos(doc, kk);
        if selects(p[n - 1].1) && doc_has(doc, kk) {
            lemma_insert_keeps_unique(r, kk, doc_get(doc, kk).unwrap());
        }
        if kk == k {
            if selects(p[n - 1].1) {
                assert(selected_before(p, k, n)) by { assert(p[n - 1].1 == VVal::Int32(1)); }
            } else if selected_before(p, k, n) {
                let i = choose|i: int| 0 <= i < n && i < p.len() && p[i].0 == k && #[trigger] p[i].1 == VVal::Int32(1);
                assert(i != n - 1);
                assert(selected_before(p, k, n - 1));
            }
        } else {
            if selected_before(p, k, n) {
                let i = choose|i: int| 0 <= i < n && i < p.len() && p[i].0 == k && #[trigger] p[i].1 == VVal::Int32(1);
                assert(selected_before(p, k, n - 1));
            }
            if selected_before(p, k, n - 1) {
                let i = choose|i: int| 0 <= i < n - 1 && i < p.len() && p[i].0 == k && #[trigger] p[i].1 == VVal::Int32(1);
                assert(selected_before(p, k, n));
            }
        }
    }
}

/// Some of the first `n` fields of the document is named `k`.
pub open spec fn named_before(d: VDoc, k: Seq<char>, n: int) -> bool {
    exists|i: int| 0 <= i < n && i < d.len() && #[trigger] d[i].0 == k
}

proof fn lemma_excluded_fields(doc: VDoc, p: VDoc, n: int, k: Seq<char>)
    requires
        keys_unique(doc),
        0 <= n <= doc.len(),
    ensures
        keys_unique(excluded(doc, p, n)),
        doc_get(excluded(doc, p, n), k) == (if named_before(doc, k, n) && doc_get(p, k) != Some(VVal::Int32(0)) {
            doc_get(doc, k)
        } else {
            None::<VVal>
        }),
    decreases n,
{
    if n == 0 {
        lemma_key_pos_none(excluded(doc, p, n), k);
    } else {
        lemma_excluded_fields(doc, p, n - 1, k);
        let r = excluded(doc, p, n - 1);
        let kk = doc[n - 1].0;
        lemma_key_pos_unique(doc, n - 1);
        if !drops(doc_get(p, kk)) {
            lemma_insert_keeps_unique(r, kk, doc[n - 1].1);
        }
        if kk == k {
            assert(named_before(doc, k, n)) by { assert(doc[n - 1].0 == k); }
        } else {
            if named_before(doc, k, n) {
                let i = choose|i: int| 0 <= i < n && i < doc.len() && #[trigger] doc[i].0 == k;
                assert(named_before(doc, k, n - 1));
            }
            if named_before(doc, k, n - 1) {
                let i = choose|i: int| 0 <= i < n - 1 && i < doc.len() && #[trigger] doc[i].0 == k;
                assert(named_before(doc, k, n));
            }
        }
    }
}

/// What a projection keeps, field by field. An inclusion projection (one
/// that maps some field to 1) keeps exactly the fields it maps to 1, and
/// `_id` unless it maps `_id` to 0; an exclusion projection keeps every
/// field it does not map to 0. A kept field has the document's value; every
/// other field is absent from the result.
pub proof fn lemma_projection_fields(doc: VDoc, p: VDoc, k: Seq<char>)
    requires
        keys_unique(doc),
        keys_unique(p),
    ensures
        (exists|i: int| 0 <= i < p.len() && #[trigger] p[i].1 == VVal::Int32(1)) ==> doc_get(projected(doc, p), k) == (
            if doc_get(p, k) == Some(VVal::Int32(1)) || (k == "_id"@ && doc_get(p, "_id"@) != Some(VVal::Int32(0))) {
                doc_get(doc, k)
            } else {
                None::<VVal>
            }),
        !(exists|i: int| 0 <= i < p.len() && #[trigger] p[i].1 == VVal::Int32(1)) ==> doc_get(projected(doc, p), k) == (
            if doc_get(p, k) == Some(VVal::Int32(0)) { None::<VVal> } else { doc_get(doc, k) }),
        keys_unique(projected(doc, p)),
{
    lemma_key_pos(p, k);
    lemma_key_pos(doc, k);
    if is_inclusion(p) {
        let ghost w = choose|i: int| 0 <= i < p.len() && selects(p[i].1);
        assert(p[w].1 == VVal::Int32(1));
        lemma_included_fields(doc, p, p.len() as int, k);
        let r = included(doc, p, p.len() as int);
        lemma_included_fields(doc, p, p.len() as int, "_id"@);
        assert(selected_before(p, k, p.len() as int) <==> doc_get(p, k) == Some(VVal::Int32(1))) by {
            if selected_before(p, k, p.len() as int) {
                let i = choose|i: int| 0 <= i < p.len() && i < p.len() && p[i].0 == k && #[trigger] p[i].1 == VVal::Int32(1);
                lemma_key_pos_unique(p, i);
            }
            if doc_get(p, k) == Some(VVal::Int32(1)) {
                let i = key_pos(p, k);
                assert(p[i].1 == VVal::Int32(1));
            }
        }
        if !drops(doc_get(p, "_id"@)) && doc_has(doc, "_id"@) {
            lemma_key_pos(doc, "_id"@);
            lemma_insert_keeps_unique(r, "_id"@, doc_get(doc, "_id"@).unwrap());
        }
        if k == "_id"@ && doc_get(p, "_id"@) == Some(VVal::Int32(0)) {
            assert(!selected_before(p, k, p.len() as int));
        }
    } else {
        assert(!(exists|i: int| 0 <= i < p.len() && #[trigger] p[i].1 == VVal::Int32(1))) by {
            if exists|i: int| 0 <= i < p.len() && #[trigger] p[i].1 == VVal::Int32(1) {
                let i = choose|i: int| 0 <= i < p.len() && #[trigger] p[i].1 == VVal::Int32(1);
                assert(selects(p[i].1));
            }
        }
        lemma_excluded_fields(doc, p, doc.len() as int, k);
        assert(named_before(doc, k, doc.len() as int) <==> doc_has(doc, k)) by {
            if named_before(doc, k, doc.len() as int) {
                let i = choose|i: int| 0 <= i < doc.len() && i < doc.len() && #[trigger] doc[i].0 == k;
                lemma_key_pos_unique(doc, i);
            }
            if doc_has(doc, k) {
                assert(doc[key_pos(doc, k)].0 == k);
            }
        }
    }
}

// ---------------------------------------------------------------------------
// `$inc`.

/// The update `{$inc: {k: by}}`.
pub open spec fn inc_update(k: Seq<char>, by: VVal) -> VDoc {
    seq![("$inc"@, VVal::Doc(seq![(k, by)]))]
}

/// `$inc` adds: after `{$inc: {k: b}}` on a document whose field `k` holds
/// the integer `a` of the same width (32 or 64 bits), the update succeeds and
/// `k` holds `a + b` of that width, wrapped around by one full range when
/// the sum leaves it; every other field is unchanged.
pub proof fn lemma_inc_adds<F: Fn(u64, u64) -> u64>(
    doc: VDoc,
    k: Seq<char>,
    by: VVal,
    after: VDoc,
    r: Result<(), RangoError>,
    add: F,
)
    requires
        keys_unique(doc),
        update_applied(doc, inc_update(k, by), after, r, add),
    ensures
        doc_get(doc, k) matches Some(VVal::Int32(a)) ==> (by matches VVal::Int32(b) ==> {
            &&& r is Ok
            &&& doc_get(after, k) matches Some(VVal::Int32(n)) && (n == a + b || n == a + b - 0x1_0000_0000
                || n == a + b + 0x1_0000_0000)
            &&& i32::MIN <= a + b <= i32::MAX ==> doc_get(after, k) == Some(VVal::Int32((a + b) as i32))
            &&& forall|k2: Seq<char>| k2 != k ==> doc_get(after, k2) == doc_get(doc, k2)
        }),
        doc_get(doc, k) matches Some(VVal::Int64(a)) ==> (by matches VVal::Int64(b) ==> {
            &&& r is Ok
            &&& doc_get(after, k) matches Some(VVal::Int64(n)) && (n == a + b || n == a + b - 0x1_0000_0000_0000_0000
                || n == a + b + 0x1_0000_0000_0000_0000)
            &&& i64::MIN <= a + b <= i64::MAX ==> doc_get(after, k) == Some(VVal::Int64((a + b) as i64))
            &&& forall|k2: Seq<char>| k2 != k ==> doc_get(after, k2) == doc_get(doc, k2)
        }),
        doc_get(doc, k) matches Some(VVal::Double(a)) ==> (by matches VVal::Double(b) ==> {
            &&& r is Ok
            &&& doc_get(after, k) matches Some(VVal::Double(n)) && call_ensures(add, (a, b), n)
            &&& forall|k2: Seq<char>| k2 != k ==> doc_get(after, k2) == doc_get(doc, k2)
        }),
        // a field of another type, or an increment of another type, is left alone
        !(doc_get(doc, k) matches Some(VVal::Int32(_)) && by is Int32)
            && !(doc_get(doc, k) matches Some(VVal::Int64(_)) && by is Int64)
            && !(doc_get(doc, k) matches Some(VVal::Double(_)) && by is Double) ==> r is Ok && after == doc,
{
    let upd = inc_update(k, by);
    let sums = choose|sums: Seq<u64>| {
        let st = #[trigger] update_result(doc, upd, sums, add);
        &&& st.sums_valid
        &&& st.sums_used == sums.len()
        &&& after == st.doc
        &&& match r {
            Ok(()) => st.invalid is None,
            Err(RangoError::InvalidQueryOperator(m)) => st.invalid == Some(m@),
            _ => false,
        }
    };
    reveal_strlit("$inc");
    reveal_strlit("$set");
    reveal_strlit("$unset");
    assert("$inc"@[1] != "$set"@[1]);
    assert("$inc"@.len() != "$unset"@.len());
    let st0 = UpdateState { doc, sums_used: 0, sums_valid: true, invalid: None };
    assert(update_prefix(doc, upd, 0, sums, add) == st0);
    let s = seq![(k, by)];
    assert(upd[0].1 == VVal::Doc(s));
    assert(inc_fields(st0, s, 0, sums, add) == st0);
    let st1 = inc_one(st0, k, by, sums, add);
    assert(inc_fields(st0, s, 1, sums, add) == st1);
    assert(update_prefix(doc, upd, 1, sums, add) == st1);
    assert(update_result(doc, upd, sums, add) == st1);
    match (doc_get(doc, k), by) {
        (Some(VVal::Int32(a)), VVal::Int32(b)) => {
            lemma_insert_keeps_unique(doc, k, VVal::Int32(crate::update::wrap_i32(a + b)));
        },
        (Some(VVal::Int64(a)), VVal::Int64(b)) => {
            lemma_insert_keeps_unique(doc, k, VVal::Int64(crate::update::wrap_i64(a + b)));
        },
        (Some(VVal::Double(a)), VVal::Double(b)) => {
            lemma_insert_keeps_unique(doc, k, VVal::Double(sums[0]));
        },
        _ => {},
    }
}

/// `$set` writes and `$unset` removes: after `{$set: {k: v}}` the field `k`
/// holds `v`; after `{$unset: {k: ..}}` there is no field `k`; either way
/// the update succeeds and every other field is unchanged.
pub proof fn lemma_set_unset<F: Fn(u64, u64) -> u64>(
    doc: VDoc,
    k: Seq<char>,
    v: VVal,
    after: VDoc,
    r: Result<(), RangoError>,
    add: F,
    unset: bool,
)
    requires
        keys_unique(doc),
        update_applied(doc, seq![(if unset { "$unset"@ } else { "$set"@ }, VVal::Doc(seq![(k, v)]))], after, r, add),
    ensures
        r is Ok,
        !unset ==> doc_get(after, k) == Some(v),
        unset ==> doc_get(after, k) is None,
        forall|k2: Seq<char>| k2 != k ==> doc_get(after, k2) == doc_get(doc, k2),
{
    let upd = seq![(if unset { "$unset"@ } else { "$set"@ }, VVal::Doc(seq![(k, v)]))];
    let sums = choose|sums: Seq<u64>| {
        let st = #[trigger] update_result(doc, upd, sums, add);
        &&& st.sums_valid
        &&& st.sums_used == sums.len()
        &&& after == st.doc
        &&& match r {
            Ok(()) => st.invalid is None,
            Err(RangoError::InvalidQueryOperator(m)) => st.invalid == Some(m@),
            _ => false,
        }
    };
    reveal_strlit("$set");
    reveal_strlit("$unset");
    assert("$set"@.len() != "$unset"@.len());
    let st0 = UpdateState { doc, sums_used: 0, sums_valid: true, invalid: None };
    assert(update_prefix(doc, upd, 0, sums, add) == st0);
    let s = seq![(k, v)];
    assert(upd[0].1 == VVal::Doc(s));
    if unset {
        assert(crate::update::unset_fields(doc, s, 0) == doc);
        assert(crate::update::unset_fields(doc, s, 1) == doc_remove(doc, k));
        lemma_remove_keeps_unique(doc, k);
    } else {
        assert(crate::update::set_fields(doc, s, 0) == doc);
        assert(crate::update::set_fields(doc, s, 1) == doc_insert(doc, k, v));
        lemma_insert_keeps_unique(doc, k, v);
    }
    assert(update_result(doc, upd, sums, add) == update_prefix(doc, upd, 1, sums, add));
}

// ---------------------------------------------------------------------------
// Resolving conflicts.

/// A conflict entry that is a document whose `_rev` reads as revision `r`.
pub open spec fn entry_of_revision(item: VVal, r: VRevision) -> bool {
    item is Doc && (doc_get(item->Doc_0, "_rev"@) matches Some(VVal::Str(t)) && parse_revision(t) == Some(r))
}

proof fn lemma_kept_conflicts(a: Seq<VVal>, c: VRevision, n: int)
    requires
        0 <= n <= a.len(),
    ensures
        forall|j: int| 0 <= j < n && #[trigger] a[j] is Doc && !entry_of_revision(a[j], c)
            ==> kept_conflicts(a, c, n).contains(a[j]),
        forall|i: int| 0 <= i < kept_conflicts(a, c, n).len() ==> {
            &&& a.subrange(0, n).contains(#[trigger] kept_conflicts(a, c, n)[i])
            &&& kept_conflicts(a, c, n)[i] is Doc
            &&& !entry_of_revision(kept_conflicts(a, c, n)[i], c)
        },
    decreases n,
{
    if n > 0 {
        lemma_kept_conflicts(a, c, n - 1);
        let prev = kept_conflicts(a, c, n - 1);
        let cur = kept_conflicts(a, c, n);
        assert(forall|v: VVal| is_chosen(v, c) == entry_of_revision(v, c));
        assert forall|j: int| 0 <= j < n && #[trigger] a[j] is Doc && !entry_of_revision(a[j], c)
            implies cur.contains(a[j]) by {
            if j < n - 1 {
                let w = choose|w: int| 0 <= w < prev.len() && prev[w] == a[j];
                if cur != prev {
                    assert(cur == prev.push(a[n - 1]));
                    assert(cur[w] == a[j]);
                }
            } else {
                assert(cur == prev.push(a[n - 1]));
                assert(cur[prev.len() as int] == a[j]);
            }
        }
        assert forall|i: int| 0 <= i < cur.len() implies a.subrange(0, n).contains(#[trigger] cur[i]) by {
            if i < prev.len() {
                if cur != prev {
                    assert(cur == prev.push(a[n - 1]));
                }
                assert(cur[i] == prev[i]);
                let sub = a.subrange(0, n - 1);
                let w = choose|w: int| 0 <= w < sub.len() && sub[w] == prev[i];
                assert(a.subrange(0, n)[w] == prev[i]);
            } else {
                assert(cur == prev.push(a[n - 1]));
                assert(a.subrange(0, n)[n - 1] == cur[i]);
            }
        }
        assert forall|i: int| 0 <= i < cur.len() implies (#[trigger] cur[i]) is Doc && !entry_of_revision(cur[i], c) by {
            if i < prev.len() {
                if cur != prev {
                    assert(cur == prev.push(a[n - 1]));
                }
                assert(cur[i] == prev[i]);
            } else {
                assert(cur == prev.push(a[n - 1]));
            }
        }
    }
}

proof fn lemma_chosen_found(a: Seq<VVal>, c: VRevision, n: int)
    requires
        0 <= n <= a.len(),
    ensures
        chosen_conflict(a, c, n) matches Some(x) ==> exists|j: int| 0 <= j < n && #[trigger] a[j] == VVal::Doc(x)
            && entry_of_revision(a[j], c),
    decreases n,
{
    if n > 0 {
        lemma_chosen_found(a, c, n - 1);
        if is_chosen(a[n - 1], c) {
            assert(a[n - 1] == VVal::Doc(chosen_conflict(a, c, n)->Some_0));
        }
    }
}

/// Resolving in favour of a revision keeps the other conflicts. When the
/// document's `_conflicts` hold a version of revision `chosen`, the result
/// is such a version, and every other conflict version is still listed in
/// the result's `_conflicts`; the listed ones are all among the original
/// conflicts and none is of revision `chosen`. When no other version is
/// left, the result lists no conflicts.
pub proof fn lemma_resolve_keeps_other_conflicts(d: VDoc, chosen: VRevision)
    requires
        resolved(d, chosen) is Ok,
    ensures
        ({
            let nd = resolved(d, chosen)->Ok_0;
            let a = doc_get(d, "_conflicts"@)->Some_0->Array_0;
            &&& doc_get(d, "_conflicts"@) matches Some(VVal::Array(_))
            // the result is a version of the chosen revision
            &&& exists|j: int| 0 <= j < a.len() && #[trigger] entry_of_revision(a[j], chosen)
                && forall|k: Seq<char>| k != "_conflicts"@ ==> doc_get(nd, k) == doc_get(a[j]->Doc_0, k)
            // every other version is kept, and nothing else is listed
            &&& (exists|j: int| 0 <= j < a.len() && #[trigger] a[j] is Doc && !entry_of_revision(a[j], chosen)) ==>
                (doc_get(nd, "_conflicts"@) matches Some(VVal::Array(b))
                    && (forall|j: int| 0 <= j < a.len() && #[trigger] a[j] is Doc && !entry_of_revision(a[j], chosen)
                        ==> b.contains(a[j]))
                    && forall|i: int| 0 <= i < b.len() ==> a.contains(#[trigger] b[i]) && !entry_of_revision(b[i], chosen))
            // with no other version left, no conflicts are listed
            &&& (forall|j: int| 0 <= j < a.len() && #[trigger] a[j] is Doc ==> keys_unique(a[j]->Doc_0))
                && !(exists|j: int| 0 <= j < a.len() && #[trigger] a[j] is Doc && !entry_of_revision(a[j], chosen))
                ==> doc_get(nd, "_conflicts"@) is None
        }),
{
    let a = doc_get(d, "_conflicts"@)->Some_0->Array_0;
    let c = chosen_conflict(a, chosen, a.len() as int)->Some_0;
    let rest = kept_conflicts(a, chosen, a.len() as int);
    let nd = resolved(d, chosen)->Ok_0;
    lemma_kept_conflicts(a, chosen, a.len() as int);
    lemma_chosen_found(a, chosen, a.len() as int);
    assert(a.subrange(0, a.len() as int) =~= a);
    lemma_insert_get(c, "_conflicts"@, VVal::Array(rest));
    lemma_remove_get(c, "_conflicts"@);
    let j = choose|j: int| 0 <= j < a.len() && #[trigger] a[j] == VVal::Doc(c) && entry_of_revision(a[j], chosen);
    assert(a[j]->Doc_0 == c);
    if exists|j: int| 0 <= j < a.len() && #[trigger] a[j] is Doc && !entry_of_revision(a[j], chosen) {
        let w = choose|w: int| 0 <= w < a.len() && #[trigger] a[w] is Doc && !entry_of_revision(a[w], chosen);
        assert(rest.contains(a[w]));
        assert(rest.len() > 0);
        assert(nd == doc_insert(c, "_conflicts"@, VVal::Array(rest)));
    } else {
        if rest.len() > 0 {
            assert(rest[0] is Doc && !entry_of_revision(rest[0], chosen));
            let w = choose|w: int| 0 <= w < a.len() && a[w] == rest[0];
            assert(a[w] is Doc && !entry_of_revision(a[w], chosen));
        }
        assert(nd == doc_remove(c, "_conflicts"@));
        if forall|j: int| 0 <= j < a.len() && #[trigger] a[j] is Doc ==> keys_unique(a[j]->Doc_0) {
            assert(a[j] is Doc);
            lemma_remove_keeps_unique(c, "_conflicts"@);
        }
    }
    assert forall|k: Seq<char>| k != "_conflicts"@ implies doc_get(nd, k) == doc_get(a[j]->Doc_0, k) by {}
}

/// Inserting a field sets it and leaves every other name's value.
proof fn lemma_insert_get(d: VDoc, k: Seq<char>, v: VVal)
    ensures
        doc_get(doc_insert(d, k, v), k) == Some(v),
        forall|k2: Seq<char>| k2 != k ==> doc_get(doc_insert(d, k, v), k2) == doc_get(d, k2),
{
    lemma_key_pos(d, k);
    let d2 = doc_insert(d, k, v);
    assert forall|k2: Seq<char>| k2 != k implies doc_get(d2, k2) == doc_get(d, k2) by {
        lemma_key_pos(d, k2);
        if key_pos(d, k2) >= 0 {
            lemma_key_pos_at(d2, k2, key_pos(d, k2));
        } else {
            lemma_key_pos_none(d2, k2);
        }
    }
    if key_pos(d, k) >= 0 {
        lemma_key_pos_at(d2, k, key_pos(d, k));
    } else {
        lemma_key_pos_at(d2, k, d.len() as int);
    }
}

/// Removing a field leaves every other name's value.
proof fn lemma_remove_get(d: VDoc, k: Seq<char>)
    ensures
        forall|k2: Seq<char>| k2 != k ==> doc_get(doc_remove(d, k), k2) == doc_get(d, k2),
{
    lemma_key_pos(d, k);
    let d2 = doc_remove(d, k);
    let p = key_pos(d, k);
    if p >= 0 {
        assert forall|j: int| 0 <= j < d2.len() implies d2[j] == (if j < p { d[j] } else { d[j + 1] }) by {}
        assert forall|k2: Seq<char>| k2 != k implies doc_get(d2, k2) == doc_get(d, k2) by {
            lemma_key_pos(d, k2);
            if key_pos(d, k2) >= 0 {
                let q = key_pos(d, k2);
                if q < p {
                    lemma_key_pos_at(d2, k2, q);
                } else {
                    lemma_key_pos_at(d2, k2, q - 1);
                }
            } else {
                lemma_key_pos_none(d2, k2);
            }
        }
    }
}

} // verus!
