use vstd::prelude::*;
use crate::types::RangoError;
use crate::value::{VDoc, Document, doc_get};
use crate::filter::filter_outcome;
use crate::query::{VSortKey, SortKey, key_of, sort_key, project, projected};
use crate::sort::{stable_order, is_perm, sorted_by, stable_by, orderable};
use crate::engine::{is_deleted, is_deleted_doc};

verus! {

// Query results: which documents a query yields, in which order, and the
// cursor that hands them out.

/// A document as a query shows it: projected when a projection is given.
pub open spec fn shown(d: VDoc, proj: Option<VDoc>) -> VDoc {
    match proj {
        Some(p) => projected(d, p),
        None => d,
    }
}

/// An item of a query result agrees with its description: the same
/// document, or a filter error with the same message.
pub open spec fn item_agrees(x: Result<Document, RangoError>, y: Result<VDoc, Seq<char>>) -> bool {
    match (x, y) {
        (Ok(d), Ok(e)) => d@ == e,
        (Err(RangoError::InvalidQueryOperator(m)), Err(e)) => m@ == e,
        _ => false,
    }
}

/// The items an unsorted query yields from `docs[i..]`, having skipped
/// `skipped` matches and yielded `emitted` documents so far: tombstones and
/// documents the filter rejects are passed over, a filter error is yielded as
/// it comes (and counts toward neither skip nor limit), the first `skip`
/// matches are passed over, and nothing more comes once `limit` documents
/// have been yielded.
pub open spec fn stream(
    docs: Seq<VDoc>,
    f: VDoc,
    proj: Option<VDoc>,
    skip: nat,
    limit: Option<nat>,
    i: int,
    skipped: nat,
    emitted: nat,
) -> Seq<Result<VDoc, Seq<char>>>
    decreases docs.len() - i,
{
    if i < 0 || i >= docs.len() || (limit matches Some(l) && emitted >= l) {
        Seq::empty()
    } else if is_deleted_doc(docs[i]) {
        stream(docs, f, proj, skip, limit, i + 1, skipped, emitted)
    } else {
        match filter_outcome(docs[i], f) {
            Err(m) => seq![Err(m)] + stream(docs, f, proj, skip, limit, i + 1, skipped, emitted),
            Ok(false) => stream(docs, f, proj, skip, limit, i + 1, skipped, emitted),
            Ok(true) => if skipped < skip {
                stream(docs, f, proj, skip, limit, i + 1, skipped + 1, emitted)
            } else {
                seq![Ok(shown(docs[i], proj))] + stream(docs, f, proj, skip, limit, i + 1, skipped, emitted + 1)
            },
        }
    }
}

/// The live documents among the first `n` that the filter accepts, in
/// order (documents on which the filter fails are left out).
pub open spec fn matching(docs: Seq<VDoc>, f: VDoc, n: int) -> Seq<VDoc>
    decreases n,
{
    if n <= 0 || n > docs.len() {
        Seq::empty()
    } else if !is_deleted_doc(docs[n - 1]) && filter_outcome(docs[n - 1], f) == Ok::<bool, Seq<char>>(true) {
        matching(docs, f, n - 1).push(docs[n - 1])
    } else {
        matching(docs, f, n - 1)
    }
}

/// The key a document sorts by; a field that cannot be sorted by counts as
/// null.
pub open spec fn doc_sort_key(d: VDoc, field: Seq<char>) -> VSortKey {
    match key_of(doc_get(d, field)) {
        Ok(k) => k,
        Err(_) => VSortKey::Null,
    }
}

/// The views of a sequence of documents.
pub open spec fn doc_views(docs: Seq<Document>) -> Seq<VDoc> {
    docs.map_values(|d: Document| d@)
}

/// How many matches a query passes over.
pub open spec fn skip_count(skip: Option<usize>) -> nat {
    match skip {
        Some(n) => n as nat,
        None => 0,
    }
}

pub open spec fn option_view(p: Option<&Document>) -> Option<VDoc> {
    match p {
        Some(d) => Some(d@),
        None => None,
    }
}

pub open spec fn option_nat(o: Option<usize>) -> Option<nat> {
    match o {
        Some(n) => Some(n as nat),
        None => None,
    }
}

/// What a sorted query yields: the matching documents `m`, put in the order
/// `p` of a stable sort by `field`, then `skip` passed over, at most `limit`
/// kept, each shown through the projection.
pub open spec fn sorted_result(
    m: Seq<VDoc>,
    field: Seq<char>,
    desc: bool,
    p: Seq<usize>,
    proj: Option<VDoc>,
    skip: nat,
    limit: Option<nat>,
    out: Seq<Result<Document, RangoError>>,
) -> bool {
    let keys = Seq::new(m.len(), |k: int| doc_sort_key(m[k], field));
    let from: int = if skip < m.len() { skip as int } else { m.len() as int };
    let count: int = match limit {
        Some(l) => if l < m.len() - from { l as int } else { m.len() - from },
        None => m.len() - from,
    };
    &&& is_perm(p, m.len())
    &&& stable_by(keys, p, desc)
    &&& ((forall|k: int| 0 <= k < m.len() ==> #[trigger] orderable(keys[k])) ==> sorted_by(keys, p, desc))
    &&& out.len() == count
    &&& forall|k: int| 0 <= k < count ==> #[trigger] item_agrees(out[k], Ok(shown(m[p[from + k] as int], proj)))
}

fn show(doc: &Document, projection: Option<&Document>) -> (r: Document)
    ensures
        r@ == shown(doc@, option_view(projection)),
{
    match projection {
        Some(p) => match project(doc, p) {
            Ok(d) => d,
            Err(_) => doc.deep_clone(),
        },
        None => doc.deep_clone(),
    }
}

/// The items an unsorted query over `docs` yields.
pub fn stream_docs(docs: &Vec<Document>, filter: &Document, projection: Option<&Document>, skip: Option<usize>, limit: Option<usize>)
    -> (r: Vec<Result<Document, RangoError>>)
    ensures
        ({
            let s = stream(doc_views(docs@), filter@, option_view(projection),
                skip_count(skip), option_nat(limit), 0, 0, 0);
            &&& r@.len() == s.len()
            &&& forall|k: int| 0 <= k < r@.len() ==> #[trigger] item_agrees(r@[k], s[k])
        }),
{
    let ghost ds = doc_views(docs@);
    let ghost f = filter@;
    let ghost pv = option_view(projection);
    let skip_val: usize = match skip { Some(n) => n, None => 0 };
    assert(skip_val as nat == skip_count(skip));
    let ghost lim = option_nat(limit);
    let ghost whole = stream(ds, f, pv, skip_val as nat, lim, 0, 0, 0);
    let ghost mut acc: Seq<Result<VDoc, Seq<char>>> = Seq::empty();
    let mut out: Vec<Result<Document, RangoError>> = Vec::new();
    let mut skipped: usize = 0;
    let mut emitted: usize = 0;
    let mut i: usize = 0;
    while i < docs.len()
        invariant
            i <= docs@.len(),
            ds == doc_views(docs@),
            f == filter@,
            pv == option_view(projection),
            lim == option_nat(limit),
            skipped <= i,
            emitted <= i,
            whole == stream(ds, f, pv, skip_val as nat, lim, 0, 0, 0),
            whole == acc + stream(ds, f, pv, skip_val as nat, lim, i as int, skipped as nat, emitted as nat),
            out@.len() == acc.len(),
            forall|k: int| 0 <= k < out@.len() ==> #[trigger] item_agrees(out@[k], acc[k]),
        ensures
            i <= docs@.len(),
            whole == acc + stream(ds, f, pv, skip_val as nat, lim, i as int, skipped as nat, emitted as nat),
            out@.len() == acc.len(),
            forall|k: int| 0 <= k < out@.len() ==> #[trigger] item_agrees(out@[k], acc[k]),
            i >= docs@.len() || (lim matches Some(l) && emitted >= l),
        decreases docs@.len() - i,
    {
        match limit {
            Some(l) => {
                if emitted >= l {
                    break;
                }
            },
            None => {},
        }
        let d = &docs[i];
        assert(ds[i as int] == d@);
        if is_deleted(d) {
            i = i + 1;
            continue;
        }
        match crate::filter::matches(d, filter) {
            Ok(true) => {
                if skipped < skip_val {
                    skipped = skipped + 1;
                } else {
                    let shown_doc = show(d, projection);
                    proof {
                        let item = Ok::<VDoc, Seq<char>>(shown(d@, pv));
                        assert(acc.push(item) + stream(ds, f, pv, skip_val as nat, lim, i + 1, skipped as nat, (emitted + 1) as nat)
                            =~= acc + (seq![item] + stream(ds, f, pv, skip_val as nat, lim, i + 1, skipped as nat, (emitted + 1) as nat)));
                        acc = acc.push(item);
                    }
                    out.push(Ok(shown_doc));
                    emitted = emitted + 1;
                }
            },
            Ok(false) => {},
            Err(e) => {
                proof {
                    let m = filter_outcome(d@, f)->Err_0;
                    let item = Err::<VDoc, Seq<char>>(m);
                    assert(acc.push(item) + stream(ds, f, pv, skip_val as nat, lim, i + 1, skipped as nat, emitted as nat)
                        =~= acc + (seq![item] + stream(ds, f, pv, skip_val as nat, lim, i + 1, skipped as nat, emitted as nat)));
                    acc = acc.push(item);
                }
                out.push(Err(e));
            },
        }
        i = i + 1;
    }
    proof {
        assert(stream(ds, f, pv, skip_val as nat, lim, i as int, skipped as nat, emitted as nat) =~= Seq::<Result<VDoc, Seq<char>>>::empty());
        assert(whole =~= acc);
    }
    out
}

/// The items a sorted query over `docs` yields. Documents on which the
/// filter fails are left out; a field that cannot be sorted by counts as
/// null.
pub fn sorted_docs(
    docs: &Vec<Document>,
    filter: &Document,
    projection: Option<&Document>,
    field: &String,
    desc: bool,
    skip: Option<usize>,
    limit: Option<usize>,
) -> (r: Vec<Result<Document, RangoError>>)
    ensures
        exists|p: Seq<usize>| #[trigger] sorted_result(
            matching(doc_views(docs@), filter@, docs@.len() as int),
            field@, desc, p, option_view(projection),
            skip_count(skip), option_nat(limit), r@),
{
    let ghost ds = doc_views(docs@);
    let ghost f = filter@;
    let mut live: Vec<&Document> = Vec::new();
    let mut i: usize = 0;
    while i < docs.len()
        invariant
            i <= docs@.len(),
            ds == doc_views(docs@),
            f == filter@,
            live@.len() == matching(ds, f, i as int).len(),
            forall|k: int| 0 <= k < live@.len() ==> (#[trigger] live@[k])@ == matching(ds, f, i as int)[k],
        decreases docs@.len() - i,
    {
        let d = &docs[i];
        assert(ds[i as int] == d@);
        if !is_deleted(d) {
            match crate::filter::matches(d, filter) {
                Ok(true) => { live.push(d); },
                _ => {},
            }
        }
        i = i + 1;
    }
    let ghost m = matching(ds, f, docs@.len() as int);
    let mut keys: Vec<SortKey> = Vec::new();
    let mut k: usize = 0;
    while k < live.len()
        invariant
            k <= live@.len(),
            live@.len() == m.len(),
            forall|j: int| 0 <= j < live@.len() ==> (#[trigger] live@[j])@ == m[j],
            keys@.len() == k,
            forall|j: int| 0 <= j < k ==> (#[trigger] keys@[j])@ == doc_sort_key(m[j], field@),
        decreases live@.len() - k,
    {
        let key = match sort_key(live[k], field) {
            Ok(key) => key,
            Err(_) => SortKey::Null,
        };
        keys.push(key);
        k = k + 1;
    }
    let ghost ks = Seq::new(m.len(), |j: int| doc_sort_key(m[j], field@));
    assert(keys@.map_values(|key: SortKey| key@) =~= ks);
    let p = stable_order(&keys, desc);
    proof {
        if forall|t: int| 0 <= t < m.len() ==> #[trigger] orderable(ks[t]) {
            assert forall|t: int| 0 <= t < keys@.len() implies #[trigger] orderable(keys@[t]@) by {
                assert(keys@[t]@ == keys@.map_values(|key: SortKey| key@)[t]);
            }
        }
    }
    let n = live.len();
    let skip_val: usize = match skip { Some(s) => s, None => 0 };
    let from: usize = if skip_val < n { skip_val } else { n };
    let count: usize = match limit {
        Some(l) => if l < n - from { l } else { n - from },
        None => n - from,
    };
    let mut out: Vec<Result<Document, RangoError>> = Vec::new();
    let mut j: usize = 0;
    while j < count
        invariant
            j <= count,
            from + count <= n,
            n == live@.len(),
            live@.len() == m.len(),
            forall|t: int| 0 <= t < live@.len() ==> (#[trigger] live@[t])@ == m[t],
            is_perm(p@, n as nat),
            out@.len() == j,
            forall|t: int| 0 <= t < j ==> #[trigger] item_agrees(out@[t], Ok(shown(m[p@[from + t] as int], option_view(projection)))),
        decreases count - j,
    {
        let idx = p[from + j];
        let shown_doc = show(live[idx], projection);
        out.push(Ok(shown_doc));
        j = j + 1;
    }
    assert(skip_val as nat == skip_count(skip));
    assert(sorted_result(m, field@, desc, p@, option_view(projection), skip_count(skip), option_nat(limit), out@));
    out
}

/// The first item that is an error, if any.
pub open spec fn first_error(items: Seq<Result<Document, RangoError>>) -> Option<RangoError>
    decreases items.len(),
{
    if items.len() == 0 {
        None
    } else {
        match items[0] {
            Err(e) => Some(e),
            Ok(_) => first_error(items.drop_first()),
        }
    }
}

/// Hands out the items of a query result one at a time.
pub struct Cursor {
    items: Vec<Result<Document, RangoError>>,
}

impl Cursor {
    /// The items not yet handed out, in order.
    pub closed spec fn items(&self) -> Seq<Result<Document, RangoError>> {
        self.items@
    }

    pub fn from_items(items: Vec<Result<Document, RangoError>>) -> (r: Cursor)
        ensures
            r.items() == items@,
    {
        Cursor { items }
    }

    /// The next item, if any.
    pub fn next(&mut self) -> (r: Option<Result<Document, RangoError>>)
        ensures
            old(self).items().len() == 0 ==> r is None && final(self).items() == old(self).items(),
            old(self).items().len() > 0 ==> r == Some(old(self).items()[0])
                && final(self).items() == old(self).items().drop_first(),
    {
        if self.items.len() == 0 {
            None
        } else {
            let x = self.items.remove(0);
            assert(self.items@ =~= old(self).items@.drop_first());
            Some(x)
        }
    }

    /// Hands each document to `f`, in order, and stops at the first error:
    /// an item that is one, or one that `f` returns.
    pub fn for_each<F: FnMut(Document) -> Result<(), RangoError>>(self, f: F) -> (r: Result<(), RangoError>)
        requires
            forall|d: Document| f.requires((d,)),
        ensures
            r is Ok ==> first_error(self.items()) is None,
            (forall|d: Document, out: Result<(), RangoError>| f.ensures((d,), out) ==> out is Ok) ==> r == match first_error(self.items()) {
                Some(e) => Err::<(), RangoError>(e),
                None => Ok::<(), RangoError>(()),
            },
    {
        let mut g = f;
        let mut cur = self;
        while cur.remaining() > 0
            invariant
                forall|d: Document| g.requires((d,)),
                (forall|d: Document, out: Result<(), RangoError>| f.ensures((d,), out) ==> out is Ok)
                    ==> (forall|d: Document, out: Result<(), RangoError>| g.ensures((d,), out) ==> out is Ok),
                first_error(cur.items()) == first_error(self.items()),
            decreases cur.items().len(),
        {
            let ghost before = cur.items();
            match cur.next() {
                Some(Ok(d)) => {
                    match g(d) {
                        Ok(()) => {},
                        Err(e) => { return Err(e); },
                    }
                },
                Some(Err(e)) => { return Err(e); },
                None => {},
            }
        }
        Ok(())
    }

    /// How many items are left.
    pub fn remaining(&self) -> (r: usize)
        ensures
            r == self.items().len(),
    {
        self.items.len()
    }
}

} // verus!
