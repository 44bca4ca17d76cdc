use vstd::prelude::*;
use crate::types::RangoError;
use crate::value::{VVal, VDoc, Value, Document, doc_get, doc_insert, doc_remove, str_is, lemma_key_pos};

verus! {

// Update documents: `{$set: {...}, $unset: {...}, $inc: {...}}`, applied in
// order. Adding two doubles is floating-point arithmetic, which the caller
// supplies as `add` over bit patterns; the contract is stated for whatever
// values it returns.

/// The state of an update after some of its operators.
pub struct UpdateState {
    pub doc: VDoc,
    /// Results of the double additions performed so far.
    pub sums_used: nat,
    /// Every double addition's result is one that `add` may return.
    pub sums_valid: bool,
    /// The first operator that is not `$set`, `$unset` or `$inc`.
    pub invalid: Option<Seq<char>>,
}

/// `a + b` wrapped into the range of `i32`.
pub open spec fn wrap_i32(x: int) -> i32 {
    if x > i32::MAX { (x - 0x1_0000_0000) as i32 } else if x < i32::MIN { (x + 0x1_0000_0000) as i32 } else { x as i32 }
}

/// `a + b` wrapped into the range of `i64`.
pub open spec fn wrap_i64(x: int) -> i64 {
    if x > i64::MAX {
        (x - 0x1_0000_0000_0000_0000) as i64
    } else if x < i64::MIN {
        (x + 0x1_0000_0000_0000_0000) as i64
    } else {
        x as i64
    }
}

/// `$set`: the first `n` fields inserted.
pub open spec fn set_fields(doc: VDoc, set: VDoc, n: int) -> VDoc
    decreases n,
{
    if n <= 0 || n > set.len() { doc } else { doc_insert(set_fields(doc, set, n - 1), set[n - 1].0, set[n - 1].1) }
}

/// `$unset`: the first `n` named fields removed.
pub open spec fn unset_fields(doc: VDoc, keys: VDoc, n: int) -> VDoc
    decreases n,
{
    if n <= 0 || n > keys.len() { doc } else { doc_remove(unset_fields(doc, keys, n - 1), keys[n - 1].0) }
}

/// One `$inc` field: integers of the same width add (wrapping around, as a
/// release build does), doubles add through `add` (consuming the next of
/// `sums`), anything else is left alone.
pub open spec fn inc_one<F: Fn(u64, u64) -> u64>(st: UpdateState, k: Seq<char>, v: VVal, sums: Seq<u64>, add: F) -> UpdateState {
    match (doc_get(st.doc, k), v) {
        (Some(VVal::Int32(a)), VVal::Int32(b)) => UpdateState { doc: doc_insert(st.doc, k, VVal::Int32(wrap_i32(a + b))), ..st },
        (Some(VVal::Int64(a)), VVal::Int64(b)) => UpdateState { doc: doc_insert(st.doc, k, VVal::Int64(wrap_i64(a + b))), ..st },
        (Some(VVal::Double(a)), VVal::Double(b)) => UpdateState {
            doc: doc_insert(st.doc, k, VVal::Double(sums[st.sums_used as int])),
            sums_used: st.sums_used + 1,
            sums_valid: st.sums_valid && st.sums_used < sums.len() && call_ensures(add, (a, b), sums[st.sums_used as int]),
            ..st
        },
        _ => st,
    }
}

/// `$inc`: the first `n` fields.
pub open spec fn inc_fields<F: Fn(u64, u64) -> u64>(st: UpdateState, inc: VDoc, n: int, sums: Seq<u64>, add: F) -> UpdateState
    decreases n,
{
    if n <= 0 || n > inc.len() {
        st
    } else {
        inc_one(inc_fields(st, inc, n - 1, sums, add), inc[n - 1].0, inc[n - 1].1, sums, add)
    }
}

/// The first `n` operators of the update.
pub open spec fn update_prefix<F: Fn(u64, u64) -> u64>(doc: VDoc, upd: VDoc, n: int, sums: Seq<u64>, add: F) -> UpdateState
    decreases n,
{
    if n <= 0 || n > upd.len() {
        UpdateState { doc, sums_used: 0, sums_valid: true, invalid: None }
    } else {
        let st = update_prefix(doc, upd, n - 1, sums, add);
        let op = upd[n - 1].0;
        let arg = upd[n - 1].1;
        if st.invalid is Some {
            st
        } else if op == "$set"@ {
            match arg {
                VVal::Doc(s) => UpdateState { doc: set_fields(st.doc, s, s.len() as int), ..st },
                _ => st,
            }
        } else if op == "$unset"@ {
            match arg {
                VVal::Doc(s) => UpdateState { doc: unset_fields(st.doc, s, s.len() as int), ..st },
                _ => st,
            }
        } else if op == "$inc"@ {
            match arg {
                VVal::Doc(s) => inc_fields(st, s, s.len() as int, sums, add),
                _ => st,
            }
        } else {
            UpdateState { invalid: Some(op), ..st }
        }
    }
}

/// The whole update applied.
pub open spec fn update_result<F: Fn(u64, u64) -> u64>(doc: VDoc, upd: VDoc, sums: Seq<u64>, add: F) -> UpdateState {
    update_prefix(doc, upd, upd.len() as int, sums, add)
}

/// What `apply_update` did, for some results `sums` of the double additions.
pub open spec fn update_applied<F: Fn(u64, u64) -> u64>(
    before: VDoc,
    upd: VDoc,
    after: VDoc,
    r: Result<(), RangoError>,
    add: F,
) -> bool {
    exists|sums: Seq<u64>| {
        let st = #[trigger] update_result(before, upd, sums, add);
        &&& st.sums_valid
        &&& st.sums_used == sums.len()
        &&& after == st.doc
        &&& match r {
            Ok(()) => st.invalid is None,
            Err(RangoError::InvalidQueryOperator(k)) => st.invalid == Some(k@),
            _ => false,
        }
    }
}

proof fn lemma_inc_stable<F: Fn(u64, u64) -> u64>(st: UpdateState, inc: VDoc, n: int, s1: Seq<u64>, s2: Seq<u64>, add: F)
    requires
        s1.len() <= s2.len(),
        s2.subrange(0, s1.len() as int) == s1,
        inc_fields(st, inc, n, s1, add).sums_used <= s1.len(),
    ensures
        inc_fields(st, inc, n, s2, add) == inc_fields(st, inc, n, s1, add),
        inc_fields(st, inc, n, s1, add).sums_used >= st.sums_used,
        inc_fields(st, inc, n, s1, add).invalid == st.invalid,
    decreases n,
{
    if n > 0 && n <= inc.len() {
        let p1 = inc_fields(st, inc, n - 1, s1, add);
        assert(p1.sums_used <= s1.len());
        lemma_inc_stable(st, inc, n - 1, s1, s2, add);
        if p1.sums_used < s1.len() {
            assert(s2[p1.sums_used as int] == s1[p1.sums_used as int]);
        }
    }
}

proof fn lemma_prefix_stable<F: Fn(u64, u64) -> u64>(doc: VDoc, upd: VDoc, n: int, s1: Seq<u64>, s2: Seq<u64>, add: F)
    requires
        s1.len() <= s2.len(),
        s2.subrange(0, s1.len() as int) == s1,
        update_prefix(doc, upd, n, s1, add).sums_used <= s1.len(),
    ensures
        update_prefix(doc, upd, n, s2, add) == update_prefix(doc, upd, n, s1, add),
    decreases n,
{
    if n > 0 && n <= upd.len() {
        let st = update_prefix(doc, upd, n - 1, s1, add);
        match upd[n - 1].1 {
            VVal::Doc(s) => {
                if upd[n - 1].0 == "$inc"@ && st.invalid is None && upd[n - 1].0 != "$set"@ && upd[n - 1].0 != "$unset"@ {
                    assert(s1.subrange(0, s1.len() as int) =~= s1);
                    lemma_inc_stable(st, s, s.len() as int, s1, s1, add);
                }
            },
            _ => {},
        }
        assert(st.sums_used <= s1.len());
        lemma_prefix_stable(doc, upd, n - 1, s1, s2, add);
        match upd[n - 1].1 {
            VVal::Doc(s) => {
                if upd[n - 1].0 == "$inc"@ && st.invalid is None && upd[n - 1].0 != "$set"@ && upd[n - 1].0 != "$unset"@ {
                    lemma_inc_stable(st, s, s.len() as int, s1, s2, add);
                }
            },
            _ => {},
        }
    }
}

fn apply_set(doc: &mut Document, set: &Document)
    ensures
        final(doc)@ == set_fields(old(doc)@, set@, set@.len() as int),
{
    let mut i: usize = 0;
    while i < set.entries.len()
        invariant
            i <= set.entries.len(),
            doc@ == set_fields(old(doc)@, set@, i as int),
        decreases set.entries.len() - i,
    {
        let e = &set.entries[i];
        assert(set@[i as int].0 == e.key@ && set@[i as int].1 == e.value@);
        doc.insert(e.key.clone(), e.value.deep_clone());
        i = i + 1;
    }
}

fn apply_unset(doc: &mut Document, keys: &Document)
    ensures
        final(doc)@ == unset_fields(old(doc)@, keys@, keys@.len() as int),
{
    let mut i: usize = 0;
    while i < keys.entries.len()
        invariant
            i <= keys.entries.len(),
            doc@ == unset_fields(old(doc)@, keys@, i as int),
        decreases keys.entries.len() - i,
    {
        let e = &keys.entries[i];
        assert(keys@[i as int].0 == e.key@);
        doc.remove(&e.key);
        i = i + 1;
    }
}

fn add_i32_wrapping(a: i32, b: i32) -> (r: i32)
    ensures
        r == wrap_i32(a + b),
{
    let s = a as i64 + b as i64;
    if s > i32::MAX as i64 { (s - 0x1_0000_0000i64) as i32 } else if s < i32::MIN as i64 { (s + 0x1_0000_0000i64) as i32 } else { s as i32 }
}

fn add_i64_wrapping(a: i64, b: i64) -> (r: i64)
    ensures
        r == wrap_i64(a + b),
{
    let s = a as i128 + b as i128;
    if s > i64::MAX as i128 {
        (s - 0x1_0000_0000_0000_0000i128) as i64
    } else if s < i64::MIN as i128 {
        (s + 0x1_0000_0000_0000_0000i128) as i64
    } else {
        s as i64
    }
}

fn apply_inc<F: Fn(u64, u64) -> u64>(
    doc: &mut Document,
    inc: &Document,
    float_add: &F,
    Ghost(st0): Ghost<UpdateState>,
    Ghost(sums0): Ghost<Seq<u64>>,
) -> (r: Ghost<Seq<u64>>)
    requires
        forall|a: u64, b: u64| float_add.requires((a, b)),
        st0.doc == old(doc)@,
        st0.sums_used == sums0.len(),
        st0.sums_valid,
    ensures
        r@.len() >= sums0.len(),
        r@.subrange(0, sums0.len() as int) == sums0,
        inc_fields(st0, inc@, inc@.len() as int, r@, *float_add).doc == final(doc)@,
        inc_fields(st0, inc@, inc@.len() as int, r@, *float_add).sums_used == r@.len(),
        inc_fields(st0, inc@, inc@.len() as int, r@, *float_add).sums_valid,
        inc_fields(st0, inc@, inc@.len() as int, r@, *float_add).invalid == st0.invalid,
{
    let ghost mut sums = sums0;
    let mut i: usize = 0;
    assert(sums.subrange(0, sums0.len() as int) =~= sums0);
    while i < inc.entries.len()
        invariant
            i <= inc.entries.len(),
            forall|a: u64, b: u64| float_add.requires((a, b)),
            sums.len() >= sums0.len(),
            sums.subrange(0, sums0.len() as int) == sums0,
            inc_fields(st0, inc@, i as int, sums, *float_add).doc == doc@,
            inc_fields(st0, inc@, i as int, sums, *float_add).sums_used == sums.len(),
            inc_fields(st0, inc@, i as int, sums, *float_add).sums_valid,
            inc_fields(st0, inc@, i as int, sums, *float_add).invalid == st0.invalid,
        decreases inc.entries.len() - i,
    {
        let e = &inc.entries[i];
        assert(inc@[i as int].0 == e.key@ && inc@[i as int].1 == e.value@);
        let ghost prev = inc_fields(st0, inc@, i as int, sums, *float_add);
        let cur = doc.get(&e.key);
        match (cur, &e.value) {
            (Some(Value::Int32(a)), Value::Int32(b)) => {
                let n = add_i32_wrapping(*a, *b);
                doc.insert(e.key.clone(), Value::Int32(n));
            },
            (Some(Value::Int64(a)), Value::Int64(b)) => {
                let n = add_i64_wrapping(*a, *b);
                doc.insert(e.key.clone(), Value::Int64(n));
            },
            (Some(Value::Double(a)), Value::Double(b)) => {
                let n = float_add(*a, *b);
                let ghost old_sums = sums;
                proof {
                    sums = sums.push(n);
                    assert(sums.subrange(0, old_sums.len() as int) =~= old_sums);
                    lemma_inc_stable(st0, inc@, i as int, old_sums, sums, *float_add);
                    assert(sums.subrange(0, sums0.len() as int) =~= sums0);
                }
                doc.insert(e.key.clone(), Value::Double(n));
            },
            _ => {},
        }
        i = i + 1;
    }
    Ghost(sums)
}

/// Applies an update document to `doc`, operator by operator. An operator
/// other than `$set`, `$unset` and `$inc` stops the update with
/// `InvalidQueryOperator` (the operators before it stay applied).
pub fn apply_update<F: Fn(u64, u64) -> u64>(doc: &mut Document, update: &Document, float_add: &F) -> (r: Result<(), RangoError>)
    requires
        forall|a: u64, b: u64| float_add.requires((a, b)),
    ensures
        update_applied(old(doc)@, update@, final(doc)@, r, *float_add),
{
    let ghost mut sums: Seq<u64> = Seq::empty();
    let mut i: usize = 0;
    while i < update.entries.len()
        invariant
            i <= update.entries.len(),
            forall|a: u64, b: u64| float_add.requires((a, b)),
            update_prefix(old(doc)@, update@, i as int, sums, *float_add).doc == doc@,
            update_prefix(old(doc)@, update@, i as int, sums, *float_add).sums_used == sums.len(),
            update_prefix(old(doc)@, update@, i as int, sums, *float_add).sums_valid,
            update_prefix(old(doc)@, update@, i as int, sums, *float_add).invalid is None,
        decreases update.entries.len() - i,
    {
        let e = &update.entries[i];
        assert(update@[i as int].0 == e.key@ && update@[i as int].1 == e.value@);
        let ghost st = update_prefix(old(doc)@, update@, i as int, sums, *float_add);
        if str_is(&e.key, "$set") {
            match &e.value {
                Value::Doc(s) => apply_set(doc, s),
                _ => {},
            }
        } else if str_is(&e.key, "$unset") {
            match &e.value {
                Value::Doc(s) => apply_unset(doc, s),
                _ => {},
            }
        } else if str_is(&e.key, "$inc") {
            match &e.value {
                Value::Doc(s) => {
                    let ghost old_sums = sums;
                    let g = apply_inc(doc, s, float_add, Ghost(st), Ghost(sums));
                    proof {
                        sums = g@;
                        lemma_prefix_stable(old(doc)@, update@, i as int, old_sums, sums, *float_add);
                    }
                },
                _ => {},
            }
        } else {
            let r = Err(RangoError::InvalidQueryOperator(e.key.clone()));
            proof {
                let st2 = update_prefix(old(doc)@, update@, i + 1, sums, *float_add);
                assert(st2.invalid == Some(e.key@));
                lemma_invalid_persists(old(doc)@, update@, i + 1, update@.len() as int, sums, *float_add);
                assert(update_result(old(doc)@, update@, sums, *float_add) == st2);
            }
            return r;
        }
        i = i + 1;
    }
    assert(update_result(old(doc)@, update@, sums, *float_add) == update_prefix(old(doc)@, update@, i as int, sums, *float_add));
    Ok(())
}

proof fn lemma_invalid_persists<F: Fn(u64, u64) -> u64>(doc: VDoc, upd: VDoc, m: int, n: int, sums: Seq<u64>, add: F)
    requires
        1 <= m <= n <= upd.len(),
        update_prefix(doc, upd, m, sums, add).invalid is Some,
    ensures
        update_prefix(doc, upd, n, sums, add) == update_prefix(doc, upd, m, sums, add),
    decreases n - m,
{
    if m < n {
        lemma_invalid_persists(doc, upd, m, n - 1, sums, add);
    }
}

} // verus!
