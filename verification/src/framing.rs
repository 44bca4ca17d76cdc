use vstd::prelude::*;
use vstd::arithmetic::div_mod::lemma_fundamental_div_mod;
use vstd::slice::{slice_subrange, slice_to_vec};
use crate::value::{VVal, Value, Document, doc_get, view_value};

verus! {

// The on-disk layout of the file oplog: a sequence of frames, each a
// little-endian `u32` length followed by that many bytes (a BSON entry, or
// its ciphertext), and the set of applied sequence numbers kept beside it.
// Reading and writing files, BSON encoding and decryption happen outside;
// this module decides what the bytes are and what compaction keeps.

/// The number that four little-endian bytes from `i` encode.
pub open spec fn le_u32(b: Seq<u8>, i: int) -> int {
    b[i] + 256 * b[i + 1] + 65536 * b[i + 2] + 16777216 * b[i + 3]
}

/// The four little-endian bytes of `v`.
pub open spec fn le_bytes(v: u32) -> Seq<u8> {
    let q1 = v / 256;
    let q2 = q1 / 256;
    seq![(v % 256) as u8, (q1 % 256) as u8, (q2 % 256) as u8, (q2 / 256) as u8]
}

pub proof fn lemma_le_bytes(v: u32)
    ensures
        le_u32(le_bytes(v), 0) == v,
        le_bytes(v).len() == 4,
{
    let q1 = v / 256;
    let q2 = q1 / 256;
    lemma_fundamental_div_mod(v as int, 256);
    lemma_fundamental_div_mod(q1 as int, 256);
    lemma_fundamental_div_mod(q2 as int, 256);
    assert(q2 / 256 < 256);
}

/// Reads the little-endian `u32` at `pos`, if four bytes are there.
pub fn read_u32(bytes: &[u8], pos: usize) -> (r: Option<u32>)
    ensures
        pos + 4 <= bytes@.len() ==> r == Some(le_u32(bytes@, pos as int) as u32) && le_u32(bytes@, pos as int) <= u32::MAX,
        pos + 4 > bytes@.len() ==> r is None,
{
    if pos > bytes.len() || bytes.len() - pos < 4 {
        return None;
    }
    let b0 = bytes[pos] as u32;
    let b1 = bytes[pos + 1] as u32;
    let b2 = bytes[pos + 2] as u32;
    let b3 = bytes[pos + 3] as u32;
    Some(b0 + 256 * b1 + 65536 * b2 + 16777216 * b3)
}

/// Appends the little-endian bytes of `value`.
pub fn write_u32(out: &mut Vec<u8>, value: u32)
    ensures
        final(out)@ == old(out)@ + le_bytes(value),
{
    let q1 = value / 256;
    let q2 = q1 / 256;
    out.push((value % 256) as u8);
    out.push((q1 % 256) as u8);
    out.push((q2 % 256) as u8);
    out.push((q2 / 256) as u8);
    assert(final(out)@ =~= old(out)@ + le_bytes(value)) by {
        assert(q2 / 256 < 256);
    }
}

/// The frames that a byte string holds, read from the start: a frame whose
/// header or body is cut short ends the reading.
pub open spec fn frames(s: Seq<u8>) -> Seq<Seq<u8>>
    decreases s.len(),
{
    if s.len() < 4 {
        Seq::empty()
    } else {
        let n = le_u32(s, 0);
        if 4 + n > s.len() || n < 0 {
            Seq::empty()
        } else {
            seq![s.subrange(4, 4 + n)] + frames(s.subrange(4 + n, s.len() as int))
        }
    }
}

/// One frame: the length, then the payload.
pub open spec fn framed(p: Seq<u8>) -> Seq<u8> {
    le_bytes(p.len() as u32) + p
}

/// Frames laid end to end.
pub open spec fn framed_all(ps: Seq<Seq<u8>>) -> Seq<u8>
    decreases ps.len(),
{
    if ps.len() == 0 {
        Seq::empty()
    } else {
        framed_all(ps.drop_last()) + framed(ps.last())
    }
}

/// The views of a list of byte vectors.
pub open spec fn views(v: Seq<Vec<u8>>) -> Seq<Seq<u8>> {
    v.map_values(|b: Vec<u8>| b@)
}

/// Splits a file's bytes into its frames.
pub fn split_frames(bytes: &[u8]) -> (r: Vec<Vec<u8>>)
    ensures
        views(r@) == frames(bytes@),
{
    let mut out: Vec<Vec<u8>> = Vec::new();
    let mut pos: usize = 0;
    let n = bytes.len();
    assert(bytes@.subrange(0, n as int) =~= bytes@);
    assert(views(out@) + frames(bytes@) =~= frames(bytes@));
    loop
        invariant_except_break
            pos <= n == bytes@.len(),
            frames(bytes@) == views(out@) + frames(bytes@.subrange(pos as int, n as int)),
        ensures
            views(out@) == frames(bytes@),
        decreases n - pos,
    {
        let ghost rest = bytes@.subrange(pos as int, n as int);
        let len = match read_u32(bytes, pos) {
            Some(l) => l,
            None => {
                assert(frames(rest) =~= Seq::<Seq<u8>>::empty());
                assert(views(out@) + frames(rest) =~= views(out@));
                break;
            },
        };
        assert(le_u32(rest, 0) == le_u32(bytes@, pos as int));
        if (len as usize) > n - pos - 4 {
            assert(frames(rest) =~= Seq::<Seq<u8>>::empty());
            assert(views(out@) + frames(rest) =~= views(out@));
            break;
        }
        let end = pos + 4 + len as usize;
        let body = slice_to_vec(slice_subrange(bytes, pos + 4, end));
        let ghost old_out = out@;
        out.push(body);
        proof {
            assert(rest.subrange(4, 4 + len as int) =~= body@);
            assert(rest.subrange(4 + len as int, rest.len() as int) =~= bytes@.subrange(end as int, n as int));
            assert(views(out@) =~= views(old_out).push(body@));
            assert(frames(rest) == seq![body@] + frames(bytes@.subrange(end as int, n as int)));
            assert(views(old_out) + frames(rest) =~= views(out@) + frames(bytes@.subrange(end as int, n as int)));
        }
        pos = end;
    }
    out
}

/// Reading a frame back gives its payload, and the rest after it.
pub proof fn lemma_frame_roundtrip(p: Seq<u8>, rest: Seq<u8>)
    requires
        p.len() <= u32::MAX,
    ensures
        frames(framed(p) + rest) == seq![p] + frames(rest),
{
    let s = framed(p) + rest;
    lemma_le_bytes(p.len() as u32);
    assert(le_u32(s, 0) == le_u32(le_bytes(p.len() as u32), 0));
    assert(s.subrange(4, 4 + p.len() as int) =~= p);
    assert(s.subrange(4 + p.len() as int, s.len() as int) =~= rest);
}

/// Frames written one after another read back as the same payloads, in
/// order.
pub proof fn lemma_frames_of_log(ps: Seq<Seq<u8>>)
    requires
        forall|i: int| 0 <= i < ps.len() ==> #[trigger] ps[i].len() <= u32::MAX,
    ensures
        frames(framed_all(ps)) == ps,
    decreases ps.len(),
{
    if ps.len() > 0 {
        lemma_frames_append(ps.drop_last(), ps.last());
        lemma_frames_of_log(ps.drop_last());
        assert(ps.drop_last().push(ps.last()) =~= ps);
    }
}

/// Appending a frame to a log of frames appends its payload.
proof fn lemma_frames_append(ps: Seq<Seq<u8>>, p: Seq<u8>)
    requires
        forall|i: int| 0 <= i < ps.len() ==> #[trigger] ps[i].len() <= u32::MAX,
        p.len() <= u32::MAX,
    ensures
        frames(framed_all(ps) + framed(p)) == frames(framed_all(ps)).push(p),
    decreases ps.len(),
{
    if ps.len() == 0 {
        assert(framed_all(ps) + framed(p) =~= framed(p) + Seq::<u8>::empty());
        lemma_frame_roundtrip(p, Seq::empty());
        assert(frames(Seq::<u8>::empty()) =~= Seq::<Seq<u8>>::empty());
        assert(frames(framed_all(ps)) =~= Seq::<Seq<u8>>::empty());
    } else {
        let init = ps.drop_last();
        let q = ps.last();
        // framed_all(ps) = framed(ps[0]) + (the frames of ps[1..])
        let tail = ps.subrange(1, ps.len() as int);
        lemma_framed_all_front(ps);
        lemma_frames_append(tail, p);
        lemma_frame_roundtrip(ps[0], framed_all(tail) + framed(p));
        lemma_frame_roundtrip(ps[0], framed_all(tail));
        assert(framed(ps[0]) + framed_all(tail) + framed(p) =~= framed(ps[0]) + (framed_all(tail) + framed(p)));
        assert(seq![ps[0]] + frames(framed_all(tail)).push(p) =~= (seq![ps[0]] + frames(framed_all(tail))).push(p));
    }
}

/// A log of frames starts with its first frame.
proof fn lemma_framed_all_front(ps: Seq<Seq<u8>>)
    requires
        ps.len() > 0,
    ensures
        framed_all(ps) == framed(ps[0]) + framed_all(ps.subrange(1, ps.len() as int)),
    decreases ps.len(),
{
    if ps.len() == 1 {
        assert(ps.subrange(1, 1) =~= Seq::<Seq<u8>>::empty());
        assert(ps.drop_last() =~= Seq::<Seq<u8>>::empty());
        assert(framed(ps[0]) + Seq::<u8>::empty() =~= framed(ps[0]));
        assert(Seq::<u8>::empty() + framed(ps[0]) =~= framed(ps[0]));
    } else {
        let init = ps.drop_last();
        lemma_framed_all_front(init);
        let tail = ps.subrange(1, ps.len() as int);
        assert(init.subrange(1, init.len() as int) =~= tail.drop_last());
        assert(tail.last() == ps.last());
        assert(init[0] == ps[0]);
        assert(framed(ps[0]) + framed_all(tail.drop_last()) + framed(ps.last())
            =~= framed(ps[0]) + (framed_all(tail.drop_last()) + framed(tail.last())));
    }
}

/// Lays payloads out as frames.
pub fn encode_frames(payloads: &Vec<Vec<u8>>) -> (r: Vec<u8>)
    requires
        forall|i: int| 0 <= i < payloads@.len() ==> #[trigger] payloads@[i]@.len() <= u32::MAX,
    ensures
        r@ == framed_all(views(payloads@)),
        frames(r@) == views(payloads@),
{
    let mut out: Vec<u8> = Vec::new();
    let mut i: usize = 0;
    while i < payloads.len()
        invariant
            i <= payloads@.len(),
            out@ == framed_all(views(payloads@.subrange(0, i as int))),
            forall|k: int| 0 <= k < payloads@.len() ==> #[trigger] payloads@[k]@.len() <= u32::MAX,
        decreases payloads@.len() - i,
    {
        let p = &payloads[i];
        write_u32(&mut out, p.len() as u32);
        let mut j: usize = 0;
        let ghost mid = out@;
        while j < p.len()
            invariant
                j <= p@.len(),
                out@ == mid + p@.subrange(0, j as int),
            decreases p@.len() - j,
        {
            out.push(p[j]);
            j = j + 1;
            assert(out@ =~= mid + p@.subrange(0, j as int));
        }
        proof {
            let pre = views(payloads@.subrange(0, i as int + 1));
            assert(pre.drop_last() =~= views(payloads@.subrange(0, i as int)));
            assert(pre.last() == p@);
            assert(p@.subrange(0, p@.len() as int) =~= p@);
        }
        i = i + 1;
    }
    proof {
        assert(payloads@.subrange(0, payloads@.len() as int) =~= payloads@);
        let ps = views(payloads@);
        assert forall|k: int| 0 <= k < ps.len() implies #[trigger] ps[k].len() <= u32::MAX by {
            assert(payloads@[k]@.len() <= u32::MAX);
        }
        lemma_frames_of_log(ps);
    }
    out
}

// ---------------------------------------------------------------------------
// What the frames hold, and compaction.

/// What a frame turned out to hold once it was decrypted and decoded.
#[derive(Debug, Clone, Copy, PartialEq, Eq, Structural)]
pub enum FrameStatus {
    /// Decryption failed.
    Undecryptable,
    /// The bytes are not a BSON document.
    Unreadable,
    /// A BSON document that is not an oplog entry.
    Malformed,
    /// An oplog entry with this sequence number.
    Entry(u64),
}

/// Whether compaction keeps a frame: entries that were applied go; a frame
/// that does not decrypt, or holds a document that is not an entry, is kept
/// to be safe; bytes that are not a document are dropped.
pub open spec fn kept(st: FrameStatus, applied: Set<u64>) -> bool {
    match st {
        FrameStatus::Undecryptable => true,
        FrameStatus::Unreadable => false,
        FrameStatus::Malformed => true,
        FrameStatus::Entry(seq) => !applied.contains(seq),
    }
}

/// The frames that compaction keeps, in order.
pub open spec fn compacted(fs: Seq<Seq<u8>>, st: Seq<FrameStatus>, applied: Set<u64>) -> Seq<Seq<u8>>
    decreases fs.len(),
{
    if fs.len() == 0 || st.len() < fs.len() {
        Seq::empty()
    } else {
        let n = fs.len() - 1;
        compacted(fs.drop_last(), st, applied) + if kept(st[n], applied) { seq![fs[n]] } else { Seq::empty() }
    }
}

/// Compacts an oplog: the frames that stay, laid out again, and how many.
pub fn compact_frames(frames_in: &Vec<Vec<u8>>, statuses: &Vec<FrameStatus>, applied: &Vec<u64>) -> (r: (Vec<u8>, u64))
    requires
        statuses@.len() == frames_in@.len(),
        forall|i: int| 0 <= i < frames_in@.len() ==> #[trigger] frames_in@[i]@.len() <= u32::MAX,
    ensures
        frames(r.0@) == compacted(views(frames_in@), statuses@, applied@.to_set()),
        r.1 == compacted(views(frames_in@), statuses@, applied@.to_set()).len(),
{
    let ghost fs = views(frames_in@);
    let ghost ap = applied@.to_set();
    let mut keep: Vec<Vec<u8>> = Vec::new();
    let mut i: usize = 0;
    while i < frames_in.len()
        invariant
            i <= frames_in@.len() == statuses@.len(),
            fs == views(frames_in@),
            ap == applied@.to_set(),
            views(keep@) == compacted(fs.subrange(0, i as int), statuses@, ap),
            keep@.len() <= i,
            forall|k: int| 0 <= k < keep@.len() ==> #[trigger] keep@[k]@.len() <= u32::MAX,
            forall|k: int| 0 <= k < frames_in@.len() ==> #[trigger] frames_in@[k]@.len() <= u32::MAX,
        decreases frames_in@.len() - i,
    {
        let st = statuses[i];
        let stays = match st {
            FrameStatus::Undecryptable => true,
            FrameStatus::Unreadable => false,
            FrameStatus::Malformed => true,
            FrameStatus::Entry(seq) => !contains_u64(applied, seq),
        };
        let ghost pre = fs.subrange(0, i as int + 1);
        assert(pre.drop_last() =~= fs.subrange(0, i as int));
        assert(pre[i as int] == frames_in@[i as int]@);
        assert(stays == kept(statuses@[i as int], ap));
        if stays {
            let ghost before = keep@;
            keep.push(crate::value::clone_bytes(&frames_in[i]));
            assert(views(keep@) =~= views(before).push(frames_in@[i as int]@));
            assert(views(keep@) =~= compacted(pre, statuses@, ap));
        } else {
            assert(compacted(pre, statuses@, ap) =~= compacted(fs.subrange(0, i as int), statuses@, ap));
        }
        i = i + 1;
    }
    assert(fs.subrange(0, frames_in@.len() as int) =~= fs);
    let count = keep.len() as u64;
    let bytes = encode_frames(&keep);
    (bytes, count)
}

/// Whether `v` holds `x`.
pub fn contains_u64(v: &Vec<u64>, x: u64) -> (r: bool)
    ensures
        r == v@.contains(x),
        r == v@.to_set().contains(x),
{
    let mut i: usize = 0;
    while i < v.len()
        invariant
            i <= v@.len(),
            forall|k: int| 0 <= k < i ==> v@[k] != x,
        decreases v@.len() - i,
    {
        if v[i] == x {
            assert(v@.contains(x)) by { assert(v@[i as int] == x); }
            return true;
        }
        i = i + 1;
    }
    false
}

/// The sequence number of the last entry that decodes, or 0 when none does;
/// `None` when a frame does not decrypt.
pub open spec fn latest_seq_of(st: Seq<FrameStatus>) -> Option<u64>
    decreases st.len(),
{
    if st.len() == 0 {
        Some(0)
    } else {
        match latest_seq_of(st.drop_last()) {
            None => None,
            Some(prev) => match st.last() {
                FrameStatus::Undecryptable => None,
                FrameStatus::Entry(seq) => Some(seq),
                _ => Some(prev),
            },
        }
    }
}

/// Recovers the last sequence number when an oplog is opened.
pub fn recover_latest_seq(statuses: &Vec<FrameStatus>) -> (r: Option<u64>)
    ensures
        r == latest_seq_of(statuses@),
{
    let mut latest: u64 = 0;
    let mut i: usize = 0;
    while i < statuses.len()
        invariant
            i <= statuses@.len(),
            latest_seq_of(statuses@.subrange(0, i as int)) == Some(latest),
        decreases statuses@.len() - i,
    {
        let ghost pre = statuses@.subrange(0, i as int + 1);
        assert(pre.drop_last() =~= statuses@.subrange(0, i as int));
        match statuses[i] {
            FrameStatus::Undecryptable => {
                proof { lemma_latest_none_stays(statuses@, i as int + 1); }
                assert(statuses@.subrange(0, statuses@.len() as int) =~= statuses@);
                return None;
            },
            FrameStatus::Entry(seq) => {
                latest = seq;
            },
            _ => {},
        }
        i = i + 1;
    }
    assert(statuses@.subrange(0, statuses@.len() as int) =~= statuses@);
    Some(latest)
}

/// Once a frame fails to decrypt, recovery fails whatever follows.
proof fn lemma_latest_none_stays(st: Seq<FrameStatus>, k: int)
    requires
        0 < k <= st.len(),
        latest_seq_of(st.subrange(0, k)) is None,
    ensures
        latest_seq_of(st) is None,
    decreases st.len() - k,
{
    if k < st.len() {
        let pre = st.subrange(0, k + 1);
        assert(pre.drop_last() =~= st.subrange(0, k));
        lemma_latest_none_stays(st, k + 1);
    } else {
        assert(st.subrange(0, k) =~= st);
    }
}

/// The positions of the frames that a read from `seq` returns: entries with
/// a sequence number at least `seq`, in order, up to `limit` of them.
pub open spec fn since_from(st: Seq<FrameStatus>, i: int, seq: u64, limit: usize, taken: nat) -> Seq<usize>
    decreases st.len() - i,
{
    if i < 0 || i >= st.len() || taken >= limit {
        Seq::empty()
    } else if st[i] matches FrameStatus::Entry(s) && s >= seq {
        seq![i as usize] + since_from(st, i + 1, seq, limit, taken + 1)
    } else {
        since_from(st, i + 1, seq, limit, taken)
    }
}

/// Chooses the frames that a read from `seq` returns.
pub fn select_since(statuses: &Vec<FrameStatus>, seq: u64, limit: usize) -> (r: Vec<usize>)
    ensures
        r@ == since_from(statuses@, 0, seq, limit, 0),
{
    let mut out: Vec<usize> = Vec::new();
    let mut i: usize = 0;
    let n = statuses.len();
    while i < n && out.len() < limit
        invariant
            i <= n == statuses@.len(),
            out@.len() <= limit,
            since_from(statuses@, 0, seq, limit, 0) == out@ + since_from(statuses@, i as int, seq, limit, out@.len()),
        decreases n - i,
    {
        let ghost before = out@;
        let hit = match statuses[i] {
            FrameStatus::Entry(s) => s >= seq,
            _ => false,
        };
        if hit {
            out.push(i);
            assert(before + since_from(statuses@, i as int, seq, limit, before.len())
                =~= out@ + since_from(statuses@, i as int + 1, seq, limit, out@.len()));
        }
        i = i + 1;
    }
    assert(out@ + since_from(statuses@, i as int, seq, limit, out@.len()) =~= out@);
    out
}

// ---------------------------------------------------------------------------
// The applied set, kept as a document `{ applied: [Int64, ...] }`.

/// The numbers that an applied-set document lists: its `applied` array's
/// 64-bit integers, each read as unsigned.
pub open spec fn applied_listed(d: Seq<(Seq<char>, VVal)>) -> Set<u64> {
    match doc_get(d, "applied"@) {
        Some(VVal::Array(items)) => Set::new(|x: u64| exists|k: int| 0 <= k < items.len() && #[trigger] items[k] == VVal::Int64(x as i64)),
        _ => Set::empty(),
    }
}

/// What the oplog keeps in memory: the last sequence number handed out and
/// the entries marked applied.
pub struct FileOplogState {
    pub next_seq: u64,
    pub applied: Vec<u64>,
}

impl FileOplogState {
    /// No number is listed twice.
    pub open spec fn wf(&self) -> bool {
        self.applied@.no_duplicates()
    }

    /// Starts from what was read back: the last sequence number and the
    /// applied set, without repeats.
    pub fn new(next_seq: u64, applied: Vec<u64>) -> (r: FileOplogState)
        ensures
            r.wf(),
            r.next_seq == next_seq,
            r.applied@.to_set() == applied@.to_set(),
    {
        let mut set: Vec<u64> = Vec::new();
        let mut i: usize = 0;
        while i < applied.len()
            invariant
                i <= applied@.len(),
                set@.no_duplicates(),
                set@.to_set() == applied@.subrange(0, i as int).to_set(),
            decreases applied@.len() - i,
        {
            let x = applied[i];
            let ghost before = set@;
            proof {
                assert(applied@.subrange(0, i as int + 1) =~= applied@.subrange(0, i as int).push(x));
                applied@.subrange(0, i as int).lemma_push_to_set_commute(x);
                before.lemma_push_to_set_commute(x);
            }
            if !contains_u64(&set, x) {
                set.push(x);
                proof { broadcast use vstd::seq_lib::group_seq_properties; }
                assert(set@ == before.push(x));
            }
            assert(set@.to_set() =~= applied@.subrange(0, i as int + 1).to_set());
            i = i + 1;
        }
        assert(applied@.subrange(0, applied@.len() as int) =~= applied@);
        FileOplogState { next_seq, applied: set }
    }

    /// Hands out the next sequence number for an append.
    pub fn next(&mut self) -> (r: u64)
        requires
            old(self).next_seq < u64::MAX,
        ensures
            r == old(self).next_seq + 1,
            final(self).next_seq == r,
            final(self).applied == old(self).applied,
    {
        self.next_seq = self.next_seq + 1;
        self.next_seq
    }

    /// Marks an entry applied.
    pub fn mark_applied(&mut self, seq: u64)
        requires
            old(self).wf(),
        ensures
            final(self).wf(),
            final(self).applied@.to_set() == old(self).applied@.to_set().insert(seq),
            final(self).next_seq == old(self).next_seq,
    {
        if !contains_u64(&self.applied, seq) {
            self.applied.push(seq);
            proof { broadcast use vstd::seq_lib::group_seq_properties; }
        }
        assert(self.applied@.to_set() =~= old(self).applied@.to_set().insert(seq)) by {
            broadcast use vstd::seq_lib::group_seq_properties;
        }
    }

    /// The document that records the applied set.
    pub fn applied_doc(&self) -> (r: Document)
        ensures
            applied_listed(r@) == self.applied@.to_set(),
    {
        let mut items: Vec<Value> = Vec::new();
        let mut i: usize = 0;
        while i < self.applied.len()
            invariant
                i <= self.applied@.len(),
                items@.len() == i,
                forall|k: int| 0 <= k < i ==> #[trigger] items@[k]@ == VVal::Int64(self.applied@[k] as i64),
            decreases self.applied@.len() - i,
        {
            items.push(Value::Int64(self.applied[i] as i64));
            i = i + 1;
        }
        let ghost is = items@;
        let ghost iv = Value::Array(items)@;
        let mut d = Document::new();
        d.insert_lit("applied", Value::Array(items));
        proof {
            let vs = self.applied@;
            assert(doc_get(d@, "applied"@) == Some(iv));
            let arr = iv->Array_0;
            assert(arr.len() == vs.len());
            assert forall|x: u64| applied_listed(d@).contains(x) <==> vs.to_set().contains(x) by {
                if vs.to_set().contains(x) {
                    let k = choose|k: int| 0 <= k < vs.len() && vs[k] == x;
                    assert(arr[k] == view_value(is[k]));
                    assert(is[k]@ == VVal::Int64(vs[k] as i64));
                    assert(arr[k] == VVal::Int64(x as i64));
                }
                if applied_listed(d@).contains(x) {
                    let k = choose|k: int| 0 <= k < arr.len() && #[trigger] arr[k] == VVal::Int64(x as i64);
                    let y = vs[k];
                    assert(arr[k] == view_value(is[k]));
                    assert(is[k]@ == VVal::Int64(vs[k] as i64));
                    assert(arr[k] == VVal::Int64(y as i64));
                    assert(y == x) by (bit_vector) requires (y as i64) == (x as i64);
                    assert(vs.contains(x));
                }
            }
            assert(applied_listed(d@) =~= vs.to_set());
        }
        d
    }
}

/// Reads the applied set back from its document: the `applied` array's
/// 64-bit integers, without repeats; nothing when there is no such array.
pub fn applied_from_doc(d: &Document) -> (r: Vec<u64>)
    ensures
        r@.no_duplicates(),
        r@.to_set() == applied_listed(d@),
{
    let mut out: Vec<u64> = Vec::new();
    match d.get_lit("applied") {
        Some(Value::Array(items)) => {
            let ghost arr = Value::Array(*items)@->Array_0;
            let mut i: usize = 0;
            while i < items.len()
                invariant
                    i <= items@.len(),
                    arr.len() == items@.len(),
                    forall|k: int| 0 <= k < items@.len() ==> #[trigger] arr[k] == items@[k]@,
                    out@.no_duplicates(),
                    forall|x: u64| out@.contains(x) <==> exists|k: int| 0 <= k < i && #[trigger] arr[k] == VVal::Int64(x as i64),
                decreases items@.len() - i,
            {
                match &items[i] {
                    Value::Int64(v) => {
                        let x = *v as u64;
                        assert((x as i64) == *v) by (bit_vector) requires x == *v as u64;
                        let ghost before = out@;
                        if !contains_u64(&out, x) {
                            out.push(x);
                            proof { broadcast use vstd::seq_lib::group_seq_properties; }
                        }
                        assert(forall|y: u64| out@.contains(y) <==> (before.contains(y) || y == x)) by {
                            broadcast use vstd::seq_lib::group_seq_properties;
                        }
                        assert(arr[i as int] == VVal::Int64(x as i64));
                        assert forall|y: u64| out@.contains(y) <==> exists|k: int| 0 <= k < i + 1 && #[trigger] arr[k] == VVal::Int64(y as i64) by {
                            if exists|k: int| 0 <= k < i + 1 && #[trigger] arr[k] == VVal::Int64(y as i64) {
                                let k = choose|k: int| 0 <= k < i + 1 && #[trigger] arr[k] == VVal::Int64(y as i64);
                                if k == i {
                                    assert(y == x) by (bit_vector) requires (y as i64) == (x as i64);
                                }
                            }
                        }
                    },
                    _ => {
                        assert forall|y: u64| out@.contains(y) <==> exists|k: int| 0 <= k < i + 1 && #[trigger] arr[k] == VVal::Int64(y as i64) by {
                            if exists|k: int| 0 <= k < i + 1 && #[trigger] arr[k] == VVal::Int64(y as i64) {
                                let k = choose|k: int| 0 <= k < i + 1 && #[trigger] arr[k] == VVal::Int64(y as i64);
                                assert(k != i);
                            }
                        }
                    },
                }
                i = i + 1;
            }
            proof {
                assert(doc_get(d@, "applied"@) == Some(VVal::Array(arr)));
                assert(out@.to_set() =~= applied_listed(d@));
            }
        },
        _ => {
            proof {
                assert(out@.to_set() =~= applied_listed(d@));
            }
        },
    }
    out
}

/// The name of the file that keeps an oplog's applied set, beside it.
pub fn applied_marker_name(file_name: &str) -> (r: String)
    ensures
        r@ == file_name@ + ".applied"@,
{
    let mut s = String::from_str(file_name);
    crate::text::string_append(&mut s, &String::from_str(".applied"));
    s
}

} // verus!
