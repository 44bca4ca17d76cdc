use vstd::prelude::*;
use crate::value::{Value, Document};
use crate::revision::Revision;
use crate::types::RangoError;

verus! {

// The operation log: mutations, their metadata, and logs that number them.

#[derive(Debug, Clone, Copy, PartialEq, Eq, Structural)]
pub enum MutationOp {
    Insert,
    Update,
    Delete,
}

#[derive(Debug, Clone, Copy, PartialEq, Eq, Structural)]
pub enum OplogOrigin {
    Local,
    Remote,
}

/// The envelope every mutation carries: who wrote what, where, and how far
/// it is trusted. `trust_score` is the bit pattern of an IEEE-754 double;
/// times are milliseconds since the Unix epoch.
pub struct MutationMetadata {
    pub id: Value,
    pub namespace: String,
    pub tenant_id: String,
    pub kind: String,
    pub rev: Revision,
    pub created_at: i64,
    pub updated_at: i64,
    pub source: String,
    pub actor: String,
    pub lineage: String,
    pub schema_version: u32,
    pub trust_score: u64,
    pub verified: Option<bool>,
    pub expires_at: Option<i64>,
}

pub struct Mutation {
    pub op: MutationOp,
    pub collection: String,
    pub doc_id: Value,
    pub patch: Option<Document>,
    pub seq: u64,
    pub timestamp: i64,
    pub rev: Revision,
    pub write_id: String,
    pub metadata: MutationMetadata,
}

pub struct OplogEntry {
    pub seq: u64,
    pub timestamp: i64,
    pub mutation: Mutation,
    pub origin: OplogOrigin,
    pub applied: bool,
}

/// A log that numbers entries and keeps none of them.
pub struct NullOplog {
    seq: u64,
}

impl NullOplog {
    pub closed spec fn latest(&self) -> u64 {
        self.seq
    }

    pub fn new() -> (r: NullOplog)
        ensures
            r.latest() == 0,
    {
        NullOplog { seq: 0 }
    }

    /// Numbers `entry` and discards it.
    pub fn append(&mut self, entry: OplogEntry) -> (r: Result<u64, RangoError>)
        ensures
            old(self).latest() < u64::MAX ==> r == Ok::<u64, RangoError>((old(self).latest() + 1) as u64)
                && final(self).latest() == old(self).latest() + 1,
            old(self).latest() == u64::MAX ==> r is Err && final(self).latest() == old(self).latest(),
    {
        if self.seq == u64::MAX {
            return Err(RangoError::Storage(String::from_str("oplog sequence exhausted")));
        }
        self.seq = self.seq + 1;
        Ok(self.seq)
    }

    /// Keeps nothing, so reads nothing.
    pub fn read_since(&self, seq: u64, limit: usize) -> (r: Vec<OplogEntry>)
        ensures
            r@.len() == 0,
    {
        Vec::new()
    }

    pub fn latest_seq(&self) -> (r: u64)
        ensures
            r == self.latest(),
    {
        self.seq
    }
}

/// An oplog held in memory: entries in append order, numbered from 1.
pub struct MemoryOplog {
    entries: Vec<OplogEntry>,
}

/// Entries are numbered 1, 2, 3, ... in order.
pub open spec fn numbered(s: Seq<OplogEntry>) -> bool {
    forall|i: int| 0 <= i < s.len() ==> #[trigger] s[i].seq == i + 1
}

/// The entries `read_since(seq, limit)` returns: those numbered `seq` or
/// later, in order, at most `limit` of them.
pub open spec fn read_window(s: Seq<OplogEntry>, seq: u64, limit: usize) -> Seq<OplogEntry> {
    let from: int = if seq == 0 { 0 } else if seq - 1 < s.len() { seq - 1 } else { s.len() as int };
    let to: int = if from + limit < s.len() { from + limit } else { s.len() as int };
    s.subrange(from, to)
}

impl MemoryOplog {
    pub closed spec fn view(&self) -> Seq<OplogEntry> {
        self.entries@
    }

    pub closed spec fn wf(&self) -> bool {
        numbered(self.entries@)
    }

    pub fn new() -> (r: MemoryOplog)
        ensures
            r.wf(),
            r.view().len() == 0,
    {
        MemoryOplog { entries: Vec::new() }
    }

    /// Entries are numbered from 1 in order.
    pub proof fn lemma_numbered(&self)
        requires
            self.wf(),
        ensures
            forall|i: int| 0 <= i < self.view().len() ==> #[trigger] self.view()[i].seq == i + 1,
    {
    }

    pub fn len(&self) -> (r: usize)
        ensures
            r == self.view().len(),
    {
        self.entries.len()
    }

    /// The number of the last entry (0 when empty).
    pub fn latest_seq(&self) -> (r: u64)
        requires
            self.wf(),
        ensures
            r == self.view().len(),
    {
        let n = self.entries.len();
        if n == 0 {
            0
        } else {
            self.entries[n - 1].seq
        }
    }

    /// Numbers `entry` with the next sequence number and keeps it.
    pub fn append(&mut self, entry: OplogEntry) -> (r: Result<u64, RangoError>)
        requires
            old(self).wf(),
        ensures
            final(self).wf(),
            old(self).view().len() < u64::MAX ==> r == Ok::<u64, RangoError>((old(self).view().len() + 1) as u64)
                && final(self).view().len() == old(self).view().len() + 1
                && final(self).view().drop_last() == old(self).view()
                && final(self).view().last().seq == old(self).view().len() + 1
                && final(self).view().last().mutation == entry.mutation
                && final(self).view().last().timestamp == entry.timestamp
                && final(self).view().last().origin == entry.origin
                && final(self).view().last().applied == entry.applied,
            old(self).view().len() >= u64::MAX ==> r is Err && final(self).view() == old(self).view(),
    {
        let n = self.entries.len();
        if n as u64 == u64::MAX {
            return Err(RangoError::Storage(String::from_str("oplog sequence exhausted")));
        }
        let mut entry = entry;
        entry.seq = (n as u64) + 1;
        let seq = entry.seq;
        self.entries.push(entry);
        assert(self.entries@.drop_last() =~= old(self).entries@);
        Ok(seq)
    }

    /// Entries numbered `seq` or later, in order, at most `limit` of them.
    pub fn read_since(&self, seq: u64, limit: usize) -> (r: Vec<&OplogEntry>)
        requires
            self.wf(),
        ensures
            r@.len() == read_window(self.view(), seq, limit).len(),
            forall|i: int| 0 <= i < r@.len() ==> *r@[i] == #[trigger] read_window(self.view(), seq, limit)[i],
            forall|i: int| 0 <= i < r@.len() ==> 1 <= (#[trigger] r@[i]).seq <= self.view().len(),
    {
        let n = self.entries.len();
        let from: usize = if seq == 0 { 0 } else if ((seq - 1) as u128) < (n as u128) { (seq - 1) as usize } else { n };
        let to: usize = if (from as u128) + (limit as u128) < (n as u128) { from + limit } else { n };
        let mut out: Vec<&OplogEntry> = Vec::new();
        let mut i: usize = from;
        while i < to
            invariant
                from <= i <= to <= n,
                n == self.entries@.len(),
                out@.len() == i - from,
                forall|j: int| 0 <= j < out@.len() ==> *out@[j] == #[trigger] self.entries@[from + j],
            decreases to - i,
        {
            out.push(&self.entries[i]);
            i = i + 1;
        }
        proof {
            let w = read_window(self.view(), seq, limit);
            assert(w =~= self.entries@.subrange(from as int, to as int));
            assert forall|j: int| 0 <= j < out@.len() implies *out@[j] == #[trigger] w[j] by {
                assert(*out@[j] == self.entries@[from + j]);
            }
            assert forall|j: int| 0 <= j < out@.len() implies 1 <= (#[trigger] out@[j]).seq <= self.view().len() by {
                assert(*out@[j] == self.entries@[from + j]);
                assert(self.entries@[from + j].seq == from + j + 1);
            }
        }
        out
    }

    /// Marks the entry numbered `seq` as applied; false when there is none.
    pub fn mark_applied(&mut self, seq: u64) -> (r: bool)
        requires
            old(self).wf(),
        ensures
            final(self).wf(),
            r == (1 <= seq <= old(self).view().len()),
            final(self).view().len() == old(self).view().len(),
            forall|i: int| 0 <= i < old(self).view().len() ==> {
                &&& #[trigger] final(self).view()[i].mutation == old(self).view()[i].mutation
                &&& final(self).view()[i].applied == (old(self).view()[i].applied || i + 1 == seq)
            },
    {
        let n = self.entries.len();
        if seq == 0 || (seq as u128) > (n as u128) {
            return false;
        }
        let i = (seq - 1) as usize;
        let mut e = self.entries.remove(i);
        e.applied = true;
        self.entries.insert(i, e);
        assert(self.entries@ =~= old(self).entries@.update(i as int, self.entries@[i as int]));
        true
    }

    /// Hands over the entries, in order.
    pub fn into_entries(self) -> (r: Vec<OplogEntry>)
        ensures
            r@ == self.view(),
    {
        self.entries
    }
}

} // verus!
