use vstd::prelude::*;
use crate::filter::{text_order, text_compare};
use crate::text::{decimal, parse_unsigned, u64_to_decimal, string_append, parse_unsigned_text,
    find_char, lemma_decimal_roundtrip, lemma_parse_decimal, digit_value};

verus! {

/// A hybrid-logical-clock revision: wall-clock milliseconds, a counter that
/// orders revisions made in the same millisecond, and the node that made it.
/// Its text form is `<timestamp_ms>-<counter>-<node_id>`.
pub struct Revision {
    pub timestamp_ms: u64,
    pub counter: u32,
    pub node_id: String,
}

pub struct VRevision {
    pub timestamp_ms: u64,
    pub counter: u32,
    pub node_id: Seq<char>,
}

impl View for Revision {
    type V = VRevision;

    open spec fn view(&self) -> VRevision {
        VRevision { timestamp_ms: self.timestamp_ms, counter: self.counter, node_id: self.node_id@ }
    }
}

/// Revisions are ordered by timestamp, then counter, then node id.
pub open spec fn revision_order(a: VRevision, b: VRevision) -> i8 {
    if a.timestamp_ms < b.timestamp_ms {
        -1i8
    } else if a.timestamp_ms > b.timestamp_ms {
        1i8
    } else if a.counter < b.counter {
        -1i8
    } else if a.counter > b.counter {
        1i8
    } else {
        text_order(a.node_id, b.node_id)
    }
}

/// The text form of a revision.
pub open spec fn revision_text(r: VRevision) -> Seq<char> {
    decimal(r.timestamp_ms as nat) + seq!['-'] + decimal(r.counter as nat) + seq!['-'] + r.node_id
}

/// Index of the first `c` in `s` at or after `i`, or -1.
pub open spec fn char_pos(s: Seq<char>, c: char, i: int) -> int
    decreases s.len() - i,
{
    if i < 0 || i >= s.len() {
        -1
    } else if s[i] == c {
        i
    } else {
        char_pos(s, c, i + 1)
    }
}

pub proof fn lemma_char_pos(s: Seq<char>, c: char, i: int)
    requires
        0 <= i,
    ensures
        char_pos(s, c, i) == -1 ==> forall|j: int| i <= j < s.len() ==> s[j] != c,
        char_pos(s, c, i) != -1 ==> i <= char_pos(s, c, i) < s.len() && s[char_pos(s, c, i)] == c
            && forall|j: int| i <= j < char_pos(s, c, i) ==> s[j] != c,
    decreases s.len() - i,
{
    if i < s.len() && s[i] != c {
        lemma_char_pos(s, c, i + 1);
    }
}

pub proof fn lemma_char_pos_at(s: Seq<char>, c: char, i: int, k: int)
    requires
        0 <= i <= k < s.len(),
        s[k] == c,
        forall|j: int| i <= j < k ==> s[j] != c,
    ensures
        char_pos(s, c, i) == k,
    decreases k - i,
{
    if i < k {
        lemma_char_pos_at(s, c, i + 1, k);
    }
}

pub proof fn lemma_char_pos_none(s: Seq<char>, c: char, i: int)
    requires
        0 <= i,
        forall|j: int| i <= j < s.len() ==> s[j] != c,
    ensures
        char_pos(s, c, i) == -1,
    decreases s.len() - i,
{
    if i < s.len() {
        lemma_char_pos_none(s, c, i + 1);
    }
}

/// Parsing the text form: the timestamp before the first `-`, the counter
/// before the second, the node id after it (it may itself hold `-`).
pub open spec fn parse_revision(s: Seq<char>) -> Option<VRevision> {
    let p1 = char_pos(s, '-', 0);
    let p2 = char_pos(s, '-', p1 + 1);
    if p1 < 0 || p2 < 0 {
        None
    } else {
        match (parse_unsigned(s.subrange(0, p1), u64::MAX as nat), parse_unsigned(s.subrange(p1 + 1, p2), u32::MAX as nat)) {
            (Some(t), Some(c)) => Some(VRevision { timestamp_ms: t as u64, counter: c as u32, node_id: s.subrange(p2 + 1, s.len() as int) }),
            _ => None,
        }
    }
}

/// Wraps `SystemTime::elapsed` on the Unix epoch: milliseconds since the
/// epoch by the system clock (0 if the clock is set before the epoch). The
/// value depends on the clock; nothing is stated of it.
#[verifier::external_body]
pub(crate) fn wall_clock_ms() -> u64 {
    match std::time::UNIX_EPOCH.elapsed() {
        Ok(d) => d.as_millis() as u64,
        Err(_) => 0,
    }
}

/// Wraps `SystemTime::elapsed` on the Unix epoch: microseconds since the
/// epoch by the system clock (0 if the clock is set before the epoch). The
/// value depends on the clock; nothing is stated of it.
#[verifier::external_body]
pub(crate) fn wall_clock_us() -> u64 {
    match std::time::UNIX_EPOCH.elapsed() {
        Ok(d) => d.as_micros() as u64,
        Err(_) => 0,
    }
}

impl Revision {
    pub fn new(timestamp_ms: u64, counter: u32, node_id: String) -> (r: Revision)
        ensures
            r@ == (VRevision { timestamp_ms, counter, node_id: node_id@ }),
    {
        Revision { timestamp_ms, counter, node_id }
    }

    /// The revision every document has before its first write.
    pub fn initial(node_id: &str) -> (r: Revision)
        ensures
            r@ == (VRevision { timestamp_ms: 0, counter: 0, node_id: node_id@ }),
    {
        Revision { timestamp_ms: 0, counter: 0, node_id: String::from_str(node_id) }
    }

    /// A revision of `node_id` at the current wall-clock time.
    pub fn now(node_id: &String) -> (r: Revision)
        ensures
            r.node_id@ == node_id@,
            r.counter == 0,
    {
        Revision { timestamp_ms: wall_clock_ms(), counter: 0, node_id: node_id.clone() }
    }

    pub fn timestamp_ms(&self) -> (r: u64)
        ensures
            r == self.timestamp_ms,
    {
        self.timestamp_ms
    }

    pub fn clone_revision(&self) -> (r: Revision)
        ensures
            r@ == self@,
    {
        Revision { timestamp_ms: self.timestamp_ms, counter: self.counter, node_id: self.node_id.clone() }
    }

    /// Three-way comparison.
    pub fn compare(&self, other: &Revision) -> (r: i8)
        ensures
            r == revision_order(self@, other@),
    {
        if self.timestamp_ms < other.timestamp_ms {
            -1
        } else if self.timestamp_ms > other.timestamp_ms {
            1
        } else if self.counter < other.counter {
            -1
        } else if self.counter > other.counter {
            1
        } else {
            text_compare(&self.node_id, &other.node_id)
        }
    }

    /// The text form.
    pub fn to_text(&self) -> (r: String)
        ensures
            r@ == revision_text(self@),
    {
        let mut s = u64_to_decimal(self.timestamp_ms);
        let dash = String::from_str("-");
        proof { reveal_strlit("-"); }
        string_append(&mut s, &dash);
        let c = u64_to_decimal(self.counter as u64);
        string_append(&mut s, &c);
        string_append(&mut s, &dash);
        string_append(&mut s, &self.node_id);
        assert(s@ =~= revision_text(self@));
        s
    }

    /// Parses the text form.
    pub fn from_text(s: &str) -> (r: Option<Revision>)
        ensures
            match r {
                Some(v) => parse_revision(s@) == Some(v@),
                None => parse_revision(s@) is None,
            },
    {
        proof {
            lemma_char_pos(s@, '-', 0);
        }
        let n = s.unicode_len();
        let p1 = match find_char(s, '-', 0) {
            Some(p) => p,
            None => {
                proof { lemma_char_pos_none(s@, '-', 0); }
                return None;
            },
        };
        proof { lemma_char_pos_at(s@, '-', 0, p1 as int); }
        let p2 = match find_char(s, '-', p1 + 1) {
            Some(p) => p,
            None => {
                proof { lemma_char_pos_none(s@, '-', p1 + 1); }
                return None;
            },
        };
        proof { lemma_char_pos_at(s@, '-', p1 + 1, p2 as int); }
        let ts_text = s.substring_char(0, p1);
        let counter_text = s.substring_char(p1 + 1, p2);
        let node_text = s.substring_char(p2 + 1, n);
        let ts = match parse_unsigned_text(ts_text, u64::MAX) {
            Some(t) => t,
            None => { return None; },
        };
        let counter = match parse_unsigned_text(counter_text, u32::MAX as u64) {
            Some(c) => c,
            None => { return None; },
        };
        Some(Revision { timestamp_ms: ts, counter: counter as u32, node_id: String::from_str(node_text) })
    }
}

/// Parsing the text form of a revision gives the revision back.
pub proof fn lemma_revision_text_roundtrip(r: VRevision)
    ensures
        parse_revision(revision_text(r)) == Some(r),
{
    let a = decimal(r.timestamp_ms as nat);
    let b = decimal(r.counter as nat);
    let s = revision_text(r);
    lemma_decimal_roundtrip(r.timestamp_ms as nat);
    lemma_decimal_roundtrip(r.counter as nat);
    assert forall|j: int| 0 <= j < a.len() implies s[j] != '-' by {
        assert(s[j] == a[j]);
        assert(digit_value(a[j]) is Some);
    }
    assert(s[a.len() as int] == '-');
    lemma_char_pos_at(s, '-', 0, a.len() as int);
    let p2: int = (a.len() + 1 + b.len()) as int;
    let a1: int = (a.len() + 1) as int;
    assert forall|j: int| a.len() + 1 <= j < p2 implies s[j] != '-' by {
        assert(s[j] == b[j - a.len() - 1]);
        assert(digit_value(b[j - a.len() - 1]) is Some);
    }
    assert(s[p2] == '-');
    lemma_char_pos_at(s, '-', a1, p2);
    assert(s.subrange(0, a.len() as int) =~= a);
    assert(s.subrange(a1, p2) =~= b);
    assert(s.subrange(p2 + 1, s.len() as int) =~= r.node_id);
    lemma_parse_decimal(r.timestamp_ms as nat, u64::MAX as nat);
    lemma_parse_decimal(r.counter as nat, u32::MAX as nat);
}

} // verus!
