use vstd::prelude::*;
use crate::filter::text_order;
use crate::float::{f64_is_nan, f64_compare};
use crate::query::{SortKey, VSortKey, key_order};

verus! {

// Stable sorting by sort key, ascending or descending.

/// The comparison a sort uses: the key order, reversed when descending.
pub open spec fn dir_order(a: VSortKey, b: VSortKey, desc: bool) -> int {
    if desc { -(key_order(a, b) as int) } else { key_order(a, b) as int }
}

/// A key that takes part in the order: anything but a NaN double.
pub open spec fn orderable(k: VSortKey) -> bool {
    !(k matches VSortKey::Double(x) && f64_is_nan(x))
}

/// `p` lists each of `0..n` exactly once.
pub open spec fn is_perm(p: Seq<usize>, n: nat) -> bool {
    &&& p.len() == n
    &&& forall|i: int| 0 <= i < p.len() ==> #[trigger] p[i] < n
    &&& forall|i: int, j: int| 0 <= i < j < p.len() ==> p[i] != p[j]
}

/// Listing the keys in the order `p` gives is sorted.
pub open spec fn sorted_by(keys: Seq<VSortKey>, p: Seq<usize>, desc: bool) -> bool {
    forall|i: int, j: int| 0 <= i < j < p.len() ==> dir_order(keys[p[i] as int], keys[p[j] as int], desc) <= 0
}

/// Keys that compare equal keep their original order.
pub open spec fn stable_by(keys: Seq<VSortKey>, p: Seq<usize>, desc: bool) -> bool {
    forall|i: int, j: int| 0 <= i < j < p.len() && dir_order(keys[p[i] as int], keys[p[j] as int], desc) == 0 ==> p[i] < p[j]
}

/// Comparing two strings the other way round gives the opposite answer.
pub proof fn lemma_text_order_antisymmetric(a: Seq<char>, b: Seq<char>)
    ensures
        text_order(a, b) == -text_order(b, a),
    decreases a.len(),
{
    if a.len() > 0 && b.len() > 0 && (a[0] as u32) == (b[0] as u32) {
        lemma_text_order_antisymmetric(a.drop_first(), b.drop_first());
    }
}

/// The order of strings is transitive.
pub proof fn lemma_text_order_transitive(a: Seq<char>, b: Seq<char>, c: Seq<char>)
    requires
        text_order(a, b) <= 0,
        text_order(b, c) <= 0,
    ensures
        text_order(a, c) <= 0,
    decreases a.len(),
{
    if a.len() > 0 && b.len() > 0 && c.len() > 0 && (a[0] as u32) == (b[0] as u32) && (b[0] as u32) == (c[0] as u32) {
        lemma_text_order_transitive(a.drop_first(), b.drop_first(), c.drop_first());
    }
}

/// Comparing two sort keys the other way round gives the opposite answer.
pub proof fn lemma_key_order_antisymmetric(a: VSortKey, b: VSortKey)
    ensures
        key_order(a, b) == -key_order(b, a),
{
    match (a, b) {
        (VSortKey::String(x), VSortKey::String(y)) => lemma_text_order_antisymmetric(x, y),
        _ => {},
    }
}

/// The order of sort keys is transitive, NaN doubles aside.
pub proof fn lemma_key_order_transitive(a: VSortKey, b: VSortKey, c: VSortKey)
    requires
        orderable(a),
        orderable(b),
        orderable(c),
        key_order(a, b) <= 0,
        key_order(b, c) <= 0,
    ensures
        key_order(a, c) <= 0,
{
    match (a, b, c) {
        (VSortKey::String(x), VSortKey::String(y), VSortKey::String(z)) => lemma_text_order_transitive(x, y, z),
        _ => {},
    }
}

proof fn lemma_dir_antisymmetric(a: VSortKey, b: VSortKey, desc: bool)
    ensures
        dir_order(a, b, desc) == -dir_order(b, a, desc),
{
    lemma_key_order_antisymmetric(a, b);
}

proof fn lemma_dir_transitive(a: VSortKey, b: VSortKey, c: VSortKey, desc: bool)
    requires
        orderable(a),
        orderable(b),
        orderable(c),
        dir_order(a, b, desc) <= 0,
        dir_order(b, c, desc) <= 0,
    ensures
        dir_order(a, c, desc) <= 0,
{
    lemma_key_order_antisymmetric(a, b);
    lemma_key_order_antisymmetric(b, c);
    lemma_key_order_antisymmetric(a, c);
    if desc {
        lemma_key_order_transitive(c, b, a);
    } else {
        lemma_key_order_transitive(a, b, c);
    }
}

/// Whether key `a` sorts after key `b`.
fn comes_after(a: &SortKey, b: &SortKey, desc: bool) -> (r: bool)
    ensures
        r == (dir_order(a@, b@, desc) > 0),
{
    let c = a.compare(b);
    if desc { c < 0 } else { c > 0 }
}

/// The order in which a stable sort lists the keys: a permutation of their
/// positions that keeps equal keys in their original order and, when no key
/// is a NaN double, lists the keys in ascending (or descending) order.
pub fn stable_order(keys: &Vec<SortKey>, desc: bool) -> (p: Vec<usize>)
    ensures
        is_perm(p@, keys@.len()),
        stable_by(keys@.map_values(|k: SortKey| k@), p@, desc),
        (forall|i: int| 0 <= i < keys@.len() ==> #[trigger] orderable(keys@[i]@))
            ==> sorted_by(keys@.map_values(|k: SortKey| k@), p@, desc),
{
    let ghost ks = keys@.map_values(|k: SortKey| k@);
    let ghost clean = forall|i: int| 0 <= i < keys@.len() ==> #[trigger] orderable(keys@[i]@);
    let mut out: Vec<usize> = Vec::new();
    let mut n: usize = 0;
    while n < keys.len()
        invariant
            n <= keys@.len(),
            ks == keys@.map_values(|k: SortKey| k@),
            clean == forall|i: int| 0 <= i < keys@.len() ==> #[trigger] orderable(keys@[i]@),
            is_perm(out@, n as nat),
            stable_by(ks, out@, desc),
            clean ==> sorted_by(ks, out@, desc),
        decreases keys@.len() - n,
    {
        // Find where key `n` goes: after every key that does not come after it.
        let mut j: usize = out.len();
        while j > 0 && comes_after(&keys[out[j - 1]], &keys[n], desc)
            invariant
                j <= out@.len(),
                n < keys@.len(),
                out@.len() == n,
                ks == keys@.map_values(|k: SortKey| k@),
                is_perm(out@, n as nat),
                forall|b: int| j <= b < out@.len() ==> #[trigger] dir_order(ks[out@[b] as int], ks[n as int], desc) > 0,
            decreases j,
        {
            j = j - 1;
        }
        proof {
            if j > 0 {
                assert(dir_order(ks[out@[j - 1] as int], ks[n as int], desc) <= 0);
            }
        }
        let ghost before = out@;
        out.insert(j, n);
        proof {
            assert(out@ =~= before.subrange(0, j as int).push(n).add(before.subrange(j as int, before.len() as int)));
            assert forall|i: int| 0 <= i < out@.len() implies #[trigger] out@[i] < n + 1 by {
                if i < j { assert(out@[i] == before[i]); } else if i > j { assert(out@[i] == before[i - 1]); }
            }
            assert forall|a: int, b: int| 0 <= a < b < out@.len() implies out@[a] != out@[b] by {
                if a < j && b < j {
                } else if a < j && b == j {
                    assert(before[a] < n);
                } else if a < j {
                    assert(out@[b] == before[b - 1]);
                } else if a == j {
                    assert(out@[b] == before[b - 1]);
                    assert(before[b - 1] < n);
                } else {
                    assert(out@[a] == before[a - 1]);
                    assert(out@[b] == before[b - 1]);
                }
            }
            assert forall|a: int, b: int|
                0 <= a < b < out@.len() && dir_order(ks[out@[a] as int], ks[out@[b] as int], desc) == 0
                implies out@[a] < out@[b] by {
                if a < j && b < j {
                } else if a < j && b == j {
                    assert(before[a] < n);
                } else if a < j {
                    assert(out@[b] == before[b - 1]);
                } else if a == j {
                    assert(out@[b] == before[b - 1]);
                    lemma_dir_antisymmetric(ks[before[b - 1] as int], ks[n as int], desc);
                } else {
                    assert(out@[a] == before[a - 1]);
                    assert(out@[b] == before[b - 1]);
                }
            }
            if clean {
                assert forall|a: int, b: int| 0 <= a < b < out@.len()
                    implies dir_order(ks[out@[a] as int], ks[out@[b] as int], desc) <= 0 by {
                    if a < j && b < j {
                    } else if a < j && b == j {
                        assert(out@[a] == before[a]);
                        if a < j - 1 {
                            lemma_dir_transitive(ks[before[a] as int], ks[before[j - 1] as int], ks[n as int], desc);
                        }
                    } else if a < j {
                        assert(out@[b] == before[b - 1]);
                    } else if a == j {
                        assert(out@[b] == before[b - 1]);
                        lemma_dir_antisymmetric(ks[before[b - 1] as int], ks[n as int], desc);
                    } else {
                        assert(out@[a] == before[a - 1]);
                        assert(out@[b] == before[b - 1]);
                    }
                }
            }
        }
        n = n + 1;
    }
    out
}

} // verus!
