//! Sorted association lists: sequences of (key, value) entries whose keys
//! ascend strictly in byte order. They model the caches, the pending-write
//! tracker and the store.

use vstd::prelude::*;
use crate::bytes::{lex_lt, lex_le, lemma_lex_irreflexive, lemma_lex_transitive, lemma_lex_total, compare_bytes};
use crate::row::OrderedRow;

verus! {

pub open spec fn strictly_sorted<V>(s: Seq<(Seq<u8>, V)>) -> bool {
    forall|i: int, j: int| 0 <= i < j < s.len() ==> lex_lt(#[trigger] s[i].0, #[trigger] s[j].0)
}

pub open spec fn has_key<V>(s: Seq<(Seq<u8>, V)>, k: Seq<u8>) -> bool {
    exists|i: int| 0 <= i < s.len() && (#[trigger] s[i]).0 == k
}

/// The value stored under `k`, if any.
pub open spec fn get<V>(s: Seq<(Seq<u8>, V)>, k: Seq<u8>) -> Option<V>
    decreases s.len(),
{
    if s.len() == 0 {
        None
    } else if s[0].0 == k {
        Some(s[0].1)
    } else {
        get(s.drop_first(), k)
    }
}

/// `s` with `k` bound to `v`, in its place in the order.
pub open spec fn put<V>(s: Seq<(Seq<u8>, V)>, k: Seq<u8>, v: V) -> Seq<(Seq<u8>, V)>
    decreases s.len(),
{
    if s.len() == 0 {
        seq![(k, v)]
    } else if s[0].0 == k {
        seq![(k, v)] + s.drop_first()
    } else if lex_lt(k, s[0].0) {
        seq![(k, v)] + s
    } else {
        seq![s[0]] + put(s.drop_first(), k, v)
    }
}

/// `s` without the entry under `k`.
pub open spec fn remove_key<V>(s: Seq<(Seq<u8>, V)>, k: Seq<u8>) -> Seq<(Seq<u8>, V)>
    decreases s.len(),
{
    if s.len() == 0 {
        s
    } else if s[0].0 == k {
        s.drop_first()
    } else {
        seq![s[0]] + remove_key(s.drop_first(), k)
    }
}

/// `p` is where `k` stands or would stand in `s`.
pub open spec fn is_position<V>(s: Seq<(Seq<u8>, V)>, k: Seq<u8>, p: int) -> bool {
    &&& 0 <= p <= s.len()
    &&& forall|i: int| 0 <= i < p ==> lex_lt(#[trigger] s[i].0, k)
    &&& p < s.len() ==> lex_le(k, s[p].0)
}

pub proof fn lemma_sorted_tail<V>(s: Seq<(Seq<u8>, V)>)
    requires
        strictly_sorted(s),
        s.len() > 0,
    ensures
        strictly_sorted(s.drop_first()),
{
    assert forall|i: int, j: int| 0 <= i < j < s.drop_first().len() implies lex_lt(
        #[trigger] s.drop_first()[i].0,
        #[trigger] s.drop_first()[j].0,
    ) by {
        assert(s.drop_first()[i] == s[i + 1]);
        assert(s.drop_first()[j] == s[j + 1]);
    }
}

/// Where `k` is found at `p`, or not found, the recursive operations act at `p`.
pub proof fn lemma_ops_at<V>(s: Seq<(Seq<u8>, V)>, k: Seq<u8>, v: V, p: int)
    requires
        strictly_sorted(s),
        is_position(s, k, p),
    ensures
        p < s.len() && s[p].0 == k ==> put(s, k, v) == s.take(p) + seq![(k, v)] + s.skip(p + 1),
        p < s.len() && s[p].0 == k ==> remove_key(s, k) == s.take(p) + s.skip(p + 1),
        p < s.len() && s[p].0 == k ==> get(s, k) == Some(s[p].1),
        !(p < s.len() && s[p].0 == k) ==> put(s, k, v) == s.take(p) + seq![(k, v)] + s.skip(p),
        !(p < s.len() && s[p].0 == k) ==> remove_key(s, k) == s,
        !(p < s.len() && s[p].0 == k) ==> get(s, k) == None::<V>,
        !(p < s.len() && s[p].0 == k) ==> !has_key(s, k),
        p < s.len() && s[p].0 == k ==> has_key(s, k),
    decreases s.len(),
{
    if s.len() == 0 {
        assert(s.take(p) + seq![(k, v)] + s.skip(p) =~= seq![(k, v)]);
    } else if p == 0 {
        if s[0].0 == k {
            assert(s.take(0) + seq![(k, v)] + s.skip(1) =~= seq![(k, v)] + s.drop_first());
            assert(s.take(0) + s.skip(1) =~= s.drop_first());
        } else {
            assert(lex_lt(k, s[0].0));
            assert(s.take(0) + seq![(k, v)] + s.skip(0) =~= seq![(k, v)] + s);
            assert forall|i: int| 0 <= i < s.len() implies s[i].0 != k by {
                if i > 0 {
                    lemma_lex_transitive(k, s[0].0, s[i].0);
                }
                lemma_lex_irreflexive(k);
            }
            lemma_not_has_ops(s, k);
        }
    } else {
        let t = s.drop_first();
        lemma_sorted_tail(s);
        assert(lex_lt(s[0].0, k));
        lemma_lex_irreflexive(k);
        assert(s[0].0 != k);
        assert(!lex_lt(k, s[0].0)) by {
            lemma_lex_total(k, s[0].0);
        }
        assert forall|i: int| 0 <= i < p - 1 implies lex_lt(#[trigger] t[i].0, k) by {
            assert(t[i] == s[i + 1]);
        }
        if p - 1 < t.len() {
            assert(t[p - 1] == s[p]);
        }
        lemma_ops_at(t, k, v, p - 1);
        assert(s.take(p) =~= seq![s[0]] + t.take(p - 1));
        assert(s.skip(p) =~= t.skip(p - 1));
        if p < s.len() {
            assert(s.skip(p + 1) =~= t.skip(p));
        }
        if p < s.len() && s[p].0 == k {
            assert(put(s, k, v) =~= s.take(p) + seq![(k, v)] + s.skip(p + 1));
            assert(remove_key(s, k) =~= s.take(p) + s.skip(p + 1));
            assert(has_key(s, k)) by {
                assert(s[p].0 == k);
            }
        } else {
            assert(put(s, k, v) =~= s.take(p) + seq![(k, v)] + s.skip(p));
            assert(remove_key(s, k) =~= seq![s[0]] + t);
            assert(seq![s[0]] + t =~= s);
            assert(!has_key(s, k)) by {
                if has_key(s, k) {
                    let i = choose|i: int| 0 <= i < s.len() && (#[trigger] s[i]).0 == k;
                    assert(i > 0);
                    assert(t[i - 1] == s[i]);
                }
            }
        }
    }
}

proof fn lemma_not_has_ops<V>(s: Seq<(Seq<u8>, V)>, k: Seq<u8>)
    requires
        forall|i: int| 0 <= i < s.len() ==> s[i].0 != k,
    ensures
        remove_key(s, k) == s,
        get(s, k) == None::<V>,
        !has_key(s, k),
    decreases s.len(),
{
    if s.len() > 0 {
        let t = s.drop_first();
        assert forall|i: int| 0 <= i < t.len() implies t[i].0 != k by {
            assert(t[i] == s[i + 1]);
        }
        lemma_not_has_ops(t, k);
        assert(seq![s[0]] + t =~= s);
    }
}

/// Inserting at a position keeps the keys sorted.
pub proof fn lemma_insert_sorted<V>(s: Seq<(Seq<u8>, V)>, k: Seq<u8>, v: V, p: int)
    requires
        strictly_sorted(s),
        is_position(s, k, p),
        !(p < s.len() && s[p].0 == k),
    ensures
        strictly_sorted(s.take(p) + seq![(k, v)] + s.skip(p)),
{
    let r = s.take(p) + seq![(k, v)] + s.skip(p);
    assert forall|i: int, j: int| 0 <= i < j < r.len() implies lex_lt(#[trigger] r[i].0, #[trigger] r[j].0) by {
        if p < s.len() {
            assert(lex_lt(k, s[p].0));
        }
        if j < p {
            assert(r[i] == s[i] && r[j] == s[j]);
        } else if j == p {
            assert(r[i] == s[i]);
        } else if i < p {
            assert(r[i] == s[i] && r[j] == s[j - 1]);
            if j - 1 > p {
                lemma_lex_transitive(k, s[p].0, s[j - 1].0);
            }
            lemma_lex_transitive(s[i].0, k, s[j - 1].0);
        } else if i == p {
            assert(r[j] == s[j - 1]);
            if j - 1 > p {
                lemma_lex_transitive(k, s[p].0, s[j - 1].0);
            }
        } else {
            assert(r[i] == s[i - 1] && r[j] == s[j - 1]);
        }
    }
}

/// Replacing the value at a position keeps the keys sorted.
pub proof fn lemma_update_sorted<V>(s: Seq<(Seq<u8>, V)>, p: int, v: V)
    requires
        strictly_sorted(s),
        0 <= p < s.len(),
    ensures
        strictly_sorted(s.update(p, (s[p].0, v))),
        s.take(p) + seq![(s[p].0, v)] + s.skip(p + 1) == s.update(p, (s[p].0, v)),
{
    let r = s.update(p, (s[p].0, v));
    assert forall|i: int, j: int| 0 <= i < j < r.len() implies lex_lt(#[trigger] r[i].0, #[trigger] r[j].0) by {
        assert(r[i].0 == s[i].0 && r[j].0 == s[j].0);
    }
    assert(s.take(p) + seq![(s[p].0, v)] + s.skip(p + 1) =~= r);
}

/// Removing any entry keeps the keys sorted.
pub proof fn lemma_remove_sorted<V>(s: Seq<(Seq<u8>, V)>, p: int)
    requires
        strictly_sorted(s),
        0 <= p < s.len(),
    ensures
        strictly_sorted(s.remove(p)),
        s.take(p) + s.skip(p + 1) == s.remove(p),
{
    let r = s.remove(p);
    assert forall|i: int, j: int| 0 <= i < j < r.len() implies lex_lt(#[trigger] r[i].0, #[trigger] r[j].0) by {
        if j < p {
            assert(r[i] == s[i] && r[j] == s[j]);
        } else if i < p {
            assert(r[i] == s[i] && r[j] == s[j + 1]);
        } else {
            assert(r[i] == s[i + 1] && r[j] == s[j + 1]);
        }
    }
    assert(s.take(p) + s.skip(p + 1) =~= r);
}

/// The first and last keys after putting a new key at its position.
pub proof fn lemma_put_ends<V>(s: Seq<(Seq<u8>, V)>, k: Seq<u8>, v: V, p: int)
    requires
        strictly_sorted(s),
        is_position(s, k, p),
        !(p < s.len() && s[p].0 == k),
    ensures
        put(s, k, v).len() == s.len() + 1,
        put(s, k, v)[0].0 == if p == 0 { k } else { s[0].0 },
        put(s, k, v).last().0 == if p == s.len() { k } else { s.last().0 },
        strictly_sorted(put(s, k, v)),
        p > 0 ==> lex_lt(s[0].0, k),
        p < s.len() ==> lex_lt(k, s.last().0),
{
    lemma_ops_at(s, k, v, p);
    lemma_insert_sorted(s, k, v, p);
    let r = s.take(p) + seq![(k, v)] + s.skip(p);
    if p == 0 {
        assert(r[0] == (k, v));
    } else {
        assert(r[0] == s[0]);
    }
    if p == s.len() {
        assert(r.last() == (k, v));
    } else {
        assert(r.last() == s.last());
        assert(lex_le(k, s[p].0));
        if p < s.len() - 1 {
            lemma_lex_transitive(k, s[p].0, s.last().0);
        }
    }
}

/// After removing the entry at `p`, the first key is no smaller and the last no larger.
pub proof fn lemma_remove_ends<V>(s: Seq<(Seq<u8>, V)>, p: int)
    requires
        strictly_sorted(s),
        0 <= p < s.len(),
        s.len() > 1,
    ensures
        lex_le(s[0].0, s.remove(p)[0].0),
        lex_le(s.remove(p).last().0, s.last().0),
{
    let r = s.remove(p);
    if p == 0 {
        assert(r[0] == s[1]);
    } else {
        assert(r[0] == s[0]);
    }
    if p == s.len() - 1 {
        assert(r.last() == s[s.len() - 2]);
    } else {
        assert(r.last() == s.last());
    }
}

/// The keyed view of a vector of entries under ordered keys.
pub open spec fn keyed<V: View>(v: Seq<(OrderedRow, V)>) -> Seq<(Seq<u8>, V::V)> {
    v.map_values(|e: (OrderedRow, V)| (e.0@, e.1@))
}

/// Finds where `k` stands, or would stand, among sorted entries, and whether it is there.
pub fn search<V: View>(v: &Vec<(OrderedRow, V)>, k: &[u8]) -> (r: (usize, bool))
    requires
        strictly_sorted(keyed(v@)),
    ensures
        is_position(keyed(v@), k@, r.0 as int),
        r.1 == (r.0 < v@.len() && keyed(v@)[r.0 as int].0 == k@),
{
    let ghost s = keyed(v@);
    let mut lo: usize = 0;
    let mut hi: usize = v.len();
    while lo < hi
        invariant
            0 <= lo <= hi <= v@.len(),
            s == keyed(v@),
            strictly_sorted(s),
            forall|i: int| 0 <= i < lo ==> lex_lt(#[trigger] s[i].0, k@),
            forall|i: int| hi <= i < s.len() ==> lex_le(k@, #[trigger] s[i].0),
        decreases hi - lo,
    {
        let mid = lo + (hi - lo) / 2;
        let c = compare_bytes(v[mid].0.as_bytes(), k);
        if c == -1 {
            proof {
                assert forall|i: int| 0 <= i < mid + 1 implies lex_lt(#[trigger] s[i].0, k@) by {
                    if i < mid {
                        lemma_lex_transitive(s[i].0, s[mid as int].0, k@);
                    }
                }
            }
            lo = mid + 1;
        } else {
            proof {
                assert forall|i: int| mid <= i < s.len() implies lex_le(k@, #[trigger] s[i].0) by {
                    if i > mid {
                        if s[mid as int].0 != k@ {
                            lemma_lex_transitive(k@, s[mid as int].0, s[i].0);
                        }
                    }
                }
            }
            hi = mid;
        }
    }
    if lo < v.len() {
        let c = compare_bytes(v[lo].0.as_bytes(), k);
        (lo, c == 0)
    } else {
        (lo, false)
    }
}

} // verus!
