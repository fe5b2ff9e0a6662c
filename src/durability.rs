//! What a flush leaves in the store: scanning the store after a flush yields
//! exactly the rows held before it, pending writes applied.

use vstd::prelude::*;
use crate::bytes::{lex_lt, lex_le, lemma_lex_transitive, lemma_lex_irreflexive, lemma_lex_total};
use crate::sorted::{strictly_sorted, get, put, remove_key, lemma_sorted_tail};
use crate::merge::{all_above, merge_spec};
use crate::delta::{Delta, delta_row};
use crate::row::RowValue;
use crate::codec::{be_bytes, be_value, pow256, cell_value, cell_key, decode_cell, biased};
use crate::row::{DataType, DatumValue, ScalarValue};
use crate::persist::{flush_writes, row_writes, decode_rows, decoded, group_ok, group_row, group_key};
use crate::store::{apply_writes, scan_spec};

verus! {

/// The value under `x` after pushing `e`: an earlier binding wins.
pub proof fn lemma_get_push<V>(s: Seq<(Seq<u8>, V)>, e: (Seq<u8>, V), x: Seq<u8>)
    ensures
        get(s.push(e), x) == if get(s, x) is Some { get(s, x) } else if e.0 == x { Some(e.1) } else { None },
    decreases s.len(),
{
    let r = s.push(e);
    if s.len() == 0 {
        assert(r[0] == e);
        assert(r.drop_first() =~= Seq::<(Seq<u8>, V)>::empty());
        assert(get(r.drop_first(), x) is None);
        assert(get(r, x) == if e.0 == x { Some(e.1) } else { get(r.drop_first(), x) });
    } else {
        assert(r[0] == s[0]);
        assert(r.drop_first() =~= s.drop_first().push(e));
        lemma_get_push(s.drop_first(), e, x);
        assert(get(r, x) == if s[0].0 == x { Some(s[0].1) } else { get(r.drop_first(), x) });
    }
}

pub proof fn lemma_get_unfold<V>(s: Seq<(Seq<u8>, V)>, x: Seq<u8>)
    requires
        s.len() > 0,
    ensures
        get(s, x) == if s[0].0 == x { Some(s[0].1) } else { get(s.drop_first(), x) },
{
}

pub proof fn lemma_get_put<V>(s: Seq<(Seq<u8>, V)>, k: Seq<u8>, v: V, x: Seq<u8>)
    ensures
        get(put(s, k, v), x) == if x == k { Some(v) } else { get(s, x) },
    decreases s.len(),
{
    let r = put(s, k, v);
    assert(r.len() > 0);
    lemma_get_unfold(r, x);
    if s.len() > 0 {
        lemma_get_unfold(s, x);
    }
    if s.len() == 0 {
        assert(r[0] == (k, v));
        assert(r.drop_first() =~= Seq::<(Seq<u8>, V)>::empty());
    } else if s[0].0 == k {
        assert(r[0] == (k, v));
        assert(r.drop_first() =~= s.drop_first());
    } else if lex_lt(k, s[0].0) {
        assert(r[0] == (k, v));
        assert(r.drop_first() =~= s);
    } else {
        assert(r[0] == s[0]);
        assert(r.drop_first() =~= put(s.drop_first(), k, v));
        lemma_get_put(s.drop_first(), k, v, x);
    }
}

/// No key at or below every key of `s` is in `s`.
pub proof fn lemma_get_above<V>(s: Seq<(Seq<u8>, V)>, b: Seq<u8>)
    requires
        all_above(s, b),
    ensures
        get(s, b) is None,
    decreases s.len(),
{
    if s.len() > 0 {
        lemma_lex_irreflexive(b);
        let t = s.drop_first();
        assert(all_above(t, b)) by {
            assert forall|i: int| 0 <= i < t.len() implies lex_lt(b, #[trigger] t[i].0) by {
                assert(t[i] == s[i + 1]);
            }
        }
        lemma_get_above(t, b);
    }
}

pub proof fn lemma_sorted_head_above<V>(s: Seq<(Seq<u8>, V)>)
    requires
        strictly_sorted(s),
        s.len() > 0,
    ensures
        all_above(s.drop_first(), s[0].0),
        strictly_sorted(s.drop_first()),
{
    lemma_sorted_tail(s);
    assert forall|i: int| 0 <= i < s.drop_first().len() implies lex_lt(s[0].0, #[trigger] s.drop_first()[i].0) by {
        assert(s.drop_first()[i] == s[i + 1]);
    }
}

pub proof fn lemma_get_remove<V>(s: Seq<(Seq<u8>, V)>, k: Seq<u8>, x: Seq<u8>)
    requires
        strictly_sorted(s),
    ensures
        get(remove_key(s, k), x) == if x == k { None } else { get(s, x) },
    decreases s.len(),
{
    if s.len() > 0 {
        lemma_sorted_head_above(s);
        if s[0].0 == k {
            lemma_get_above(s.drop_first(), k);
        } else {
            assert((seq![s[0]] + remove_key(s.drop_first(), k)).drop_first() =~= remove_key(s.drop_first(), k));
            lemma_get_remove(s.drop_first(), k, x);
        }
    }
}

/// Putting keeps the keys sorted, and above any bound below the new key.
pub proof fn lemma_put_sorted<V>(s: Seq<(Seq<u8>, V)>, k: Seq<u8>, v: V)
    requires
        strictly_sorted(s),
    ensures
        strictly_sorted(put(s, k, v)),
        forall|b: Seq<u8>| all_above(s, b) && lex_lt(b, k) ==> #[trigger] all_above(put(s, k, v), b),
    decreases s.len(),
{
    let r = put(s, k, v);
    if s.len() == 0 {
    } else {
        lemma_sorted_head_above(s);
        if s[0].0 == k {
            assert forall|i: int, j: int| 0 <= i < j < r.len() implies lex_lt(#[trigger] r[i].0, #[trigger] r[j].0) by {
                assert(r[j] == s[j]);
                if i > 0 {
                    assert(r[i] == s[i]);
                }
            }
            assert forall|b: Seq<u8>| all_above(s, b) && lex_lt(b, k) implies #[trigger] all_above(r, b) by {
                assert forall|i: int| 0 <= i < r.len() implies lex_lt(b, #[trigger] r[i].0) by {
                    if i > 0 {
                        assert(r[i] == s[i]);
                    }
                }
            }
        } else if lex_lt(k, s[0].0) {
            assert forall|i: int, j: int| 0 <= i < j < r.len() implies lex_lt(#[trigger] r[i].0, #[trigger] r[j].0) by {
                assert(r[j] == s[j - 1]);
                if i > 0 {
                    assert(r[i] == s[i - 1]);
                } else if j > 1 {
                    lemma_lex_transitive(k, s[0].0, s[j - 1].0);
                }
            }
            assert forall|b: Seq<u8>| all_above(s, b) && lex_lt(b, k) implies #[trigger] all_above(r, b) by {
                assert forall|i: int| 0 <= i < r.len() implies lex_lt(b, #[trigger] r[i].0) by {
                    if i > 0 {
                        assert(r[i] == s[i - 1]);
                    }
                }
            }
        } else {
            let t = s.drop_first();
            lemma_lex_total(k, s[0].0);
            lemma_put_sorted(t, k, v);
            let pt = put(t, k, v);
            assert(all_above(pt, s[0].0));
            assert(r == seq![s[0]] + pt);
            assert(r[0] == s[0]);
            assert forall|i: int, j: int| 0 <= i < j < r.len() implies lex_lt(#[trigger] r[i].0, #[trigger] r[j].0) by {
                assert(r[j] == pt[j - 1]);
                if i > 0 {
                    assert(r[i] == pt[i - 1]);
                }
            }
            assert forall|b: Seq<u8>| all_above(s, b) && lex_lt(b, k) implies #[trigger] all_above(r, b) by {
                assert(all_above(t, b)) by {
                    assert forall|i: int| 0 <= i < t.len() implies lex_lt(b, #[trigger] t[i].0) by {
                        assert(t[i] == s[i + 1]);
                    }
                }
                assert(all_above(pt, b));
                assert(lex_lt(b, s[0].0));
                assert forall|i: int| 0 <= i < r.len() implies lex_lt(b, #[trigger] r[i].0) by {
                    if i > 0 {
                        assert(r[i] == pt[i - 1]);
                    }
                }
            }
        }
    }
}

/// Removing keeps the keys sorted, and above any bound they were above.
pub proof fn lemma_remove_key_sorted<V>(s: Seq<(Seq<u8>, V)>, k: Seq<u8>)
    requires
        strictly_sorted(s),
    ensures
        strictly_sorted(remove_key(s, k)),
        forall|b: Seq<u8>| all_above(s, b) ==> #[trigger] all_above(remove_key(s, k), b),
    decreases s.len(),
{
    let r = remove_key(s, k);
    if s.len() > 0 {
        let t = s.drop_first();
        lemma_sorted_head_above(s);
        if s[0].0 == k {
            assert(r == t);
            assert forall|b: Seq<u8>| all_above(s, b) implies #[trigger] all_above(r, b) by {
                assert forall|i: int| 0 <= i < r.len() implies lex_lt(b, #[trigger] r[i].0) by {
                    assert(r[i] == s[i + 1]);
                }
            }
        } else {
            lemma_remove_key_sorted(t, k);
            let rt = remove_key(t, k);
            assert(all_above(rt, s[0].0));
            assert(r == seq![s[0]] + rt);
            assert(r[0] == s[0]);
            assert forall|i: int, j: int| 0 <= i < j < r.len() implies lex_lt(#[trigger] r[i].0, #[trigger] r[j].0) by {
                assert(r[j] == rt[j - 1]);
                if i > 0 {
                    assert(r[i] == rt[i - 1]);
                }
            }
            assert forall|b: Seq<u8>| all_above(s, b) implies #[trigger] all_above(r, b) by {
                assert(all_above(t, b)) by {
                    assert forall|i: int| 0 <= i < t.len() implies lex_lt(b, #[trigger] t[i].0) by {
                        assert(t[i] == s[i + 1]);
                    }
                }
                assert(all_above(rt, b));
                assert(lex_lt(b, s[0].0));
                assert forall|i: int| 0 <= i < r.len() implies lex_lt(b, #[trigger] r[i].0) by {
                    if i > 0 {
                        assert(r[i] == rt[i - 1]);
                    }
                }
            }
        }
    }
}


/// The last write to `y` in `w`, if any: `Some(None)` for a removal.
pub open spec fn last_write(w: Seq<(Seq<u8>, Option<Seq<u8>>)>, y: Seq<u8>) -> Option<Option<Seq<u8>>>
    decreases w.len(),
{
    if w.len() == 0 {
        None
    } else if w.last().0 == y {
        Some(w.last().1)
    } else {
        last_write(w.drop_last(), y)
    }
}

pub proof fn lemma_apply_writes(s: Seq<(Seq<u8>, Seq<u8>)>, w: Seq<(Seq<u8>, Option<Seq<u8>>)>, y: Seq<u8>)
    requires
        strictly_sorted(s),
    ensures
        strictly_sorted(apply_writes(s, w)),
        get(apply_writes(s, w), y) == match last_write(w, y) {
            Some(Some(v)) => Some(v),
            Some(None) => None,
            None => get(s, y),
        },
    decreases w.len(),
{
    if w.len() > 0 {
        lemma_apply_writes(s, w.drop_last(), y);
        let before = apply_writes(s, w.drop_last());
        match w.last().1 {
            Some(v) => {
                lemma_put_sorted(before, w.last().0, v);
                lemma_get_put(before, w.last().0, v, y);
            },
            None => {
                lemma_remove_key_sorted(before, w.last().0);
                lemma_get_remove(before, w.last().0, y);
            },
        }
    }
}

proof fn lemma_strip_prefix(p: Seq<u8>, a: Seq<u8>, b: Seq<u8>)
    ensures
        lex_lt(p + a, p + b) == lex_lt(a, b),
{
    assert((p + a).take(p.len() as int) =~= (p + b).take(p.len() as int));
    crate::bytes::lemma_lex_skip(p + a, p + b, p.len() as int);
    assert((p + a).skip(p.len() as int) =~= a);
    assert((p + b).skip(p.len() as int) =~= b);
}

/// Keys under `p` in the store are `p` followed by the scanned keys.
pub proof fn lemma_get_scan(s: Seq<(Seq<u8>, Seq<u8>)>, p: Seq<u8>, x: Seq<u8>)
    ensures
        get(scan_spec(s, p), x) == get(s, p + x),
    decreases s.len(),
{
    if s.len() > 0 {
        let dl = s.drop_last();
        let e = s.last();
        lemma_get_scan(dl, p, x);
        assert(s =~= dl.push(e));
        lemma_get_push(dl, e, p + x);
        if p.is_prefix_of(e.0) {
            let st = (e.0.skip(p.len() as int), e.1);
            lemma_get_push(scan_spec(dl, p), st, x);
            assert(e.0 =~= p + e.0.skip(p.len() as int));
            if st.0 == x {
                assert(e.0 == p + x);
            }
            if e.0 == p + x {
                assert((p + x).skip(p.len() as int) =~= x);
            }
        } else {
            if e.0 == p + x {
                assert(p.is_prefix_of(p + x)) by {
                    assert((p + x).take(p.len() as int) =~= p);
                }
            }
        }
    }
}

/// Every key of `s` is below `b`.
pub open spec fn all_below<V>(s: Seq<(Seq<u8>, V)>, b: Seq<u8>) -> bool {
    forall|i: int| 0 <= i < s.len() ==> lex_lt(#[trigger] s[i].0, b)
}

/// A scan of a sorted store is sorted.
pub proof fn lemma_scan_sorted(s: Seq<(Seq<u8>, Seq<u8>)>, p: Seq<u8>)
    requires
        strictly_sorted(s),
    ensures
        strictly_sorted(scan_spec(s, p)),
        forall|b: Seq<u8>| all_below(s, p + b) ==> #[trigger] all_below(scan_spec(s, p), b),
    decreases s.len(),
{
    if s.len() > 0 {
        let dl = s.drop_last();
        let e = s.last();
        assert(strictly_sorted(dl)) by {
            assert forall|i: int, j: int| 0 <= i < j < dl.len() implies lex_lt(#[trigger] dl[i].0, #[trigger] dl[j].0) by {
                assert(dl[i] == s[i] && dl[j] == s[j]);
            }
        }
        lemma_scan_sorted(dl, p);
        let sd = scan_spec(dl, p);
        assert forall|b: Seq<u8>| all_below(s, p + b) implies all_below(dl, p + b) by {
            assert forall|i: int| 0 <= i < dl.len() implies lex_lt(#[trigger] dl[i].0, p + b) by {
                assert(dl[i] == s[i]);
            }
        }
        if p.is_prefix_of(e.0) {
            let st = (e.0.skip(p.len() as int), e.1);
            assert(e.0 =~= p + st.0);
            assert(all_below(dl, p + st.0)) by {
                assert forall|i: int| 0 <= i < dl.len() implies lex_lt(#[trigger] dl[i].0, p + st.0) by {
                    assert(dl[i] == s[i]);
                    assert(s[s.len() - 1] == e);
                }
            }
            assert(all_below(sd, st.0));
            let r = sd.push(st);
            assert forall|i: int, j: int| 0 <= i < j < r.len() implies lex_lt(#[trigger] r[i].0, #[trigger] r[j].0) by {
                assert(r[i] == sd[i]);
                if j < sd.len() {
                    assert(r[j] == sd[j]);
                } else {
                    assert(r[j] == st);
                }
            }
            assert forall|b: Seq<u8>| all_below(s, p + b) implies #[trigger] all_below(r, b) by {
                assert(all_below(sd, b));
                assert(lex_lt(e.0, p + b)) by {
                    assert(s[s.len() - 1] == e);
                }
                lemma_strip_prefix(p, st.0, b);
                assert forall|i: int| 0 <= i < r.len() implies lex_lt(#[trigger] r[i].0, b) by {
                    if i < sd.len() {
                        assert(r[i] == sd[i]);
                    }
                }
            }
        }
    }
}


pub proof fn lemma_get_some<V>(s: Seq<(Seq<u8>, V)>, x: Seq<u8>)
    requires
        get(s, x) is Some,
    ensures
        exists|i: int| 0 <= i < s.len() && (#[trigger] s[i]).0 == x && s[i].1 == get(s, x)->Some_0,
    decreases s.len(),
{
    lemma_get_unfold(s, x);
    if s[0].0 != x {
        lemma_get_some(s.drop_first(), x);
        let i = choose|i: int| 0 <= i < s.drop_first().len() && (#[trigger] s.drop_first()[i]).0 == x
            && s.drop_first()[i].1 == get(s.drop_first(), x)->Some_0;
        assert(s[i + 1] == s.drop_first()[i]);
    }
}

proof fn lemma_get_some_above<V>(s: Seq<(Seq<u8>, V)>, x: Seq<u8>)
    requires
        strictly_sorted(s),
        get(s, x) is Some,
    ensures
        s.len() > 0,
        lex_le(s[0].0, x),
{
    lemma_get_some(s, x);
    let i = choose|i: int| 0 <= i < s.len() && (#[trigger] s[i]).0 == x && s[i].1 == get(s, x)->Some_0;
    if i > 0 {
        assert(lex_lt(s[0].0, s[i].0));
    }
}

/// Two sorted lists with the same lookups are the same list.
pub proof fn lemma_sorted_unique<V>(a: Seq<(Seq<u8>, V)>, b: Seq<(Seq<u8>, V)>)
    requires
        strictly_sorted(a),
        strictly_sorted(b),
        forall|x: Seq<u8>| #[trigger] get(a, x) == get(b, x),
    ensures
        a == b,
    decreases a.len() + b.len(),
{
    if a.len() == 0 && b.len() == 0 {
        assert(a =~= b);
    } else if a.len() == 0 {
        lemma_get_unfold(b, b[0].0);
        assert(get(a, b[0].0) == get(b, b[0].0));
    } else if b.len() == 0 {
        lemma_get_unfold(a, a[0].0);
        assert(get(a, a[0].0) == get(b, a[0].0));
    } else {
        let a0 = a[0].0;
        let b0 = b[0].0;
        lemma_get_unfold(a, a0);
        lemma_get_unfold(b, b0);
        assert(get(a, a0) == get(b, a0));
        assert(get(a, b0) == get(b, b0));
        lemma_get_some_above(b, a0);
        lemma_get_some_above(a, b0);
        lemma_lex_total(a0, b0);
        assert(a0 == b0);
        assert(a[0] == b[0]);
        let at = a.drop_first();
        let bt = b.drop_first();
        lemma_sorted_head_above(a);
        lemma_sorted_head_above(b);
        assert forall|x: Seq<u8>| #[trigger] get(at, x) == get(bt, x) by {
            lemma_get_unfold(a, x);
            lemma_get_unfold(b, x);
            assert(get(a, x) == get(b, x));
            if x == a0 {
                lemma_get_above(at, a0);
                lemma_get_above(bt, a0);
            }
        }
        lemma_sorted_unique(at, bt);
        assert(a =~= seq![a[0]] + at);
        assert(b =~= seq![b[0]] + bt);
    }
}


proof fn lemma_get_cons<V>(e: (Seq<u8>, V), rest: Seq<(Seq<u8>, V)>, x: Seq<u8>)
    ensures
        get(seq![e] + rest, x) == if e.0 == x { Some(e.1) } else { get(rest, x) },
{
    let r = seq![e] + rest;
    lemma_get_unfold(r, x);
    assert(r[0] == e);
    assert(r.drop_first() =~= rest);
}

/// Above a bound below a sorted list's first key.
proof fn lemma_sorted_all_above<V>(s: Seq<(Seq<u8>, V)>, b: Seq<u8>)
    requires
        strictly_sorted(s),
        s.len() > 0,
        lex_lt(b, s[0].0),
    ensures
        all_above(s, b),
{
    assert forall|i: int| 0 <= i < s.len() implies lex_lt(b, #[trigger] s[i].0) by {
        if i > 0 {
            lemma_lex_transitive(b, s[0].0, s[i].0);
        }
    }
}

/// A key's row after the merge: its pending effect where it has one, else its stored row.
pub proof fn lemma_get_merge(r: Seq<(Seq<u8>, RowValue)>, d: Seq<(Seq<u8>, Delta)>, k: Seq<u8>)
    requires
        strictly_sorted(r),
        strictly_sorted(d),
    ensures
        get(merge_spec(r, d), k) == match get(d, k) {
            Some(x) => delta_row(x),
            None => get(r, k),
        },
    decreases r.len() + d.len(),
{
    if r.len() == 0 && d.len() == 0 {
    } else if d.len() == 0 || (r.len() > 0 && lex_lt(r[0].0, d[0].0)) {
        lemma_sorted_head_above(r);
        lemma_get_merge(r.drop_first(), d, k);
        lemma_get_cons(r[0], merge_spec(r.drop_first(), d), k);
        lemma_get_unfold(r, k);
        if d.len() > 0 {
            lemma_sorted_all_above(d, r[0].0);
            if k == r[0].0 {
                lemma_get_above(d, k);
            }
        }
    } else {
        lemma_sorted_head_above(d);
        lemma_get_unfold(d, k);
        let same = r.len() > 0 && r[0].0 == d[0].0;
        if r.len() > 0 {
            lemma_sorted_head_above(r);
            lemma_get_unfold(r, k);
            if !same {
                lemma_lex_total(r[0].0, d[0].0);
                lemma_sorted_all_above(r, d[0].0);
            }
        }
        let rest = if same {
            lemma_get_merge(r.drop_first(), d.drop_first(), k);
            merge_spec(r.drop_first(), d.drop_first())
        } else {
            lemma_get_merge(r, d.drop_first(), k);
            merge_spec(r, d.drop_first())
        };
        if k == d[0].0 {
            lemma_get_above(d.drop_first(), k);
            if same {
                lemma_get_above(r.drop_first(), k);
            } else if r.len() > 0 {
                lemma_get_above(r, k);
            }
        }
        match delta_row(d[0].1) {
            Some(x) => {
                lemma_get_cons((d[0].0, x), rest, k);
            },
            None => {},
        }
    }
}


pub proof fn lemma_be_len(x: nat, n: nat)
    ensures
        be_bytes(x, n).len() == n,
    decreases n,
{
    if n > 0 {
        lemma_be_len(x / 256, (n - 1) as nat);
    }
}

pub proof fn lemma_be_value_of_bytes(x: nat, n: nat)
    requires
        x < pow256(n),
    ensures
        be_value(be_bytes(x, n)) == x,
    decreases n,
{
    if n > 0 {
        let q = x / 256;
        assert(q < pow256((n - 1) as nat)) by (nonlinear_arith)
            requires x < 256 * pow256((n - 1) as nat), q == x / 256;
        lemma_be_value_of_bytes(q, (n - 1) as nat);
        let b = be_bytes(x, n);
        assert(b.drop_last() =~= be_bytes(q, (n - 1) as nat));
        assert(b.last() == (x % 256) as u8);
        assert(q * 256 + x % 256 == x) by (nonlinear_arith)
            requires q == x / 256;
    } else {
        assert(x == 0);
    }
}

pub proof fn lemma_bytes_of_be_value(q: Seq<u8>)
    ensures
        be_bytes(be_value(q), q.len()) == q,
        be_value(q) < pow256(q.len()),
    decreases q.len(),
{
    if q.len() > 0 {
        let dl = q.drop_last();
        lemma_bytes_of_be_value(dl);
        let v = be_value(q);
        let w = be_value(dl);
        assert(v == w * 256 + q.last() as nat);
        assert(v / 256 == w && v % 256 == q.last() as nat) by (nonlinear_arith)
            requires v == w * 256 + q.last() as nat, q.last() < 256;
        assert(be_bytes(v, q.len()) =~= dl.push(q.last()));
        assert(q =~= dl.push(q.last()));
        assert(v < pow256(q.len())) by (nonlinear_arith)
            requires v == w * 256 + q.last() as nat, q.last() < 256, w < pow256(dl.len()),
                pow256(q.len()) == 256 * pow256(dl.len());
    } else {
        assert(q =~= Seq::<u8>::empty());
    }
}

/// The row key of a physical cell key: all but its last four bytes.
pub open spec fn key_of(x: Seq<u8>) -> Seq<u8> {
    x.take(x.len() - 4)
}

/// The cell index of a physical cell key: its last four bytes.
pub open spec fn index_of(x: Seq<u8>) -> nat {
    be_value(x.skip(x.len() - 4))
}

pub proof fn lemma_pow256_4()
    ensures
        pow256(4) == 0x1_0000_0000,
{
    reveal_with_fuel(pow256, 5);
}

/// A cell key splits back into its row key and cell index, and only so.
pub proof fn lemma_cell_key_split(x: Seq<u8>, k: Seq<u8>, i: nat)
    requires
        i < 0x1_0000_0000,
    ensures
        (x == k + be_bytes(i, 4)) <==> (x.len() >= 4 && key_of(x) == k && index_of(x) == i),
{
    lemma_pow256_4();
    lemma_be_len(i, 4);
    lemma_be_value_of_bytes(i, 4);
    if x == k + be_bytes(i, 4) {
        assert(key_of(x) =~= k);
        assert(x.skip(x.len() - 4) =~= be_bytes(i, 4));
    }
    if x.len() >= 4 && key_of(x) == k && index_of(x) == i {
        let q = x.skip(x.len() - 4);
        lemma_bytes_of_be_value(q);
        assert(x =~= key_of(x) + q);
    }
}


pub proof fn lemma_get_concat<V>(a: Seq<(Seq<u8>, V)>, b: Seq<(Seq<u8>, V)>, x: Seq<u8>)
    ensures
        get(a + b, x) == if get(a, x) is Some { get(a, x) } else { get(b, x) },
    decreases a.len(),
{
    if a.len() == 0 {
        assert(a + b =~= b);
    } else {
        lemma_get_unfold(a, x);
        lemma_get_unfold(a + b, x);
        assert((a + b)[0] == a[0]);
        assert((a + b).drop_first() =~= a.drop_first() + b);
        lemma_get_concat(a.drop_first(), b, x);
    }
}

pub proof fn lemma_get_first_match<V>(s: Seq<(Seq<u8>, V)>, i: int, x: Seq<u8>)
    requires
        0 <= i < s.len(),
        s[i].0 == x,
        forall|j: int| 0 <= j < i ==> (#[trigger] s[j]).0 != x,
    ensures
        get(s, x) == Some(s[i].1),
    decreases i,
{
    lemma_get_unfold(s, x);
    if i > 0 {
        assert forall|j: int| 0 <= j < i - 1 implies (#[trigger] s.drop_first()[j]).0 != x by {
            assert(s.drop_first()[j] == s[j + 1]);
        }
        assert(s.drop_first()[i - 1] == s[i]);
        assert(s[0].0 != x);
        lemma_get_first_match(s.drop_first(), i - 1, x);
    }
}

pub proof fn lemma_get_no_match<V>(s: Seq<(Seq<u8>, V)>, x: Seq<u8>)
    requires
        forall|j: int| 0 <= j < s.len() ==> (#[trigger] s[j]).0 != x,
    ensures
        get(s, x) is None,
    decreases s.len(),
{
    if s.len() > 0 {
        lemma_get_unfold(s, x);
        assert(s[0].0 != x);
        assert forall|j: int| 0 <= j < s.drop_first().len() implies (#[trigger] s.drop_first()[j]).0 != x by {
            assert(s.drop_first()[j] == s[j + 1]);
        }
        lemma_get_no_match(s.drop_first(), x);
    }
}

/// The stored cells of one row: cell `i` under the row key followed by `i` in four bytes.
pub open spec fn row_cells(e: (Seq<u8>, RowValue), c: nat) -> Seq<(Seq<u8>, Seq<u8>)> {
    Seq::new(c, |i: int| (e.0 + be_bytes(i as nat, 4), cell_value(e.1[i])))
}

/// The stored cells of rows `m`, row after row.
pub open spec fn cells(m: Seq<(Seq<u8>, RowValue)>, c: nat) -> Seq<(Seq<u8>, Seq<u8>)>
    decreases m.len(),
{
    if m.len() == 0 {
        Seq::empty()
    } else {
        cells(m.drop_last(), c) + row_cells(m.last(), c)
    }
}

/// The cell that a physical key names, looked up in the rows `m`.
pub open spec fn cell_lookup(m: Seq<(Seq<u8>, RowValue)>, c: nat, x: Seq<u8>) -> Option<Seq<u8>> {
    if x.len() >= 4 && index_of(x) < c {
        match get(m, key_of(x)) {
            Some(r) => Some(cell_value(r[index_of(x) as int])),
            None => None,
        }
    } else {
        None
    }
}

pub proof fn lemma_get_row_cells(e: (Seq<u8>, RowValue), c: nat, x: Seq<u8>)
    requires
        c <= 0x1_0000_0000,
    ensures
        get(row_cells(e, c), x) == if x.len() >= 4 && key_of(x) == e.0 && index_of(x) < c {
            Some(cell_value(e.1[index_of(x) as int]))
        } else {
            None
        },
{
    let rc = row_cells(e, c);
    if x.len() >= 4 && key_of(x) == e.0 && index_of(x) < c {
        let i = index_of(x) as int;
        lemma_cell_key_split(x, e.0, i as nat);
        assert forall|j: int| 0 <= j < i implies (#[trigger] rc[j]).0 != x by {
            lemma_cell_key_split(x, e.0, j as nat);
        }
        lemma_get_first_match(rc, i, x);
    } else {
        assert forall|j: int| 0 <= j < rc.len() implies (#[trigger] rc[j]).0 != x by {
            lemma_cell_key_split(x, e.0, j as nat);
        }
        lemma_get_no_match(rc, x);
    }
}

/// Looking up a physical key in the cells of rows is looking up its row.
pub proof fn lemma_get_cells(m: Seq<(Seq<u8>, RowValue)>, c: nat, x: Seq<u8>)
    requires
        c <= 0x1_0000_0000,
    ensures
        get(cells(m, c), x) == cell_lookup(m, c, x),
    decreases m.len(),
{
    if m.len() == 0 {
        lemma_get_no_match(cells(m, c), x);
        if x.len() >= 4 {
            lemma_get_no_match(m, key_of(x));
        }
    } else {
        let dl = m.drop_last();
        lemma_get_cells(dl, c, x);
        lemma_get_concat(cells(dl, c), row_cells(m.last(), c), x);
        lemma_get_row_cells(m.last(), c, x);
        if x.len() >= 4 {
            assert(m =~= dl.push(m.last()));
            lemma_get_push(dl, m.last(), key_of(x));
        }
    }
}


pub proof fn lemma_last_write_concat(a: Seq<(Seq<u8>, Option<Seq<u8>>)>, b: Seq<(Seq<u8>, Option<Seq<u8>>)>, y: Seq<u8>)
    ensures
        last_write(a + b, y) == if last_write(b, y) is Some { last_write(b, y) } else { last_write(a, y) },
    decreases b.len(),
{
    if b.len() == 0 {
        assert(a + b =~= a);
    } else {
        assert((a + b).drop_last() =~= a + b.drop_last());
        assert((a + b).last() == b.last());
        lemma_last_write_concat(a, b.drop_last(), y);
    }
}

pub proof fn lemma_last_write_match(s: Seq<(Seq<u8>, Option<Seq<u8>>)>, i: int, y: Seq<u8>)
    requires
        0 <= i < s.len(),
        s[i].0 == y,
        forall|j: int| i < j < s.len() ==> (#[trigger] s[j]).0 != y,
    ensures
        last_write(s, y) == Some(s[i].1),
    decreases s.len(),
{
    if i < s.len() - 1 {
        assert(s.last() == s[s.len() - 1]);
        assert forall|j: int| i < j < s.drop_last().len() implies (#[trigger] s.drop_last()[j]).0 != y by {
            assert(s.drop_last()[j] == s[j]);
        }
        assert(s.drop_last()[i] == s[i]);
        lemma_last_write_match(s.drop_last(), i, y);
    }
}

pub proof fn lemma_last_write_none(s: Seq<(Seq<u8>, Option<Seq<u8>>)>, y: Seq<u8>)
    requires
        forall|j: int| 0 <= j < s.len() ==> (#[trigger] s[j]).0 != y,
    ensures
        last_write(s, y) is None,
    decreases s.len(),
{
    if s.len() > 0 {
        assert(s.last() == s[s.len() - 1]);
        assert forall|j: int| 0 <= j < s.drop_last().len() implies (#[trigger] s.drop_last()[j]).0 != y by {
            assert(s.drop_last()[j] == s[j]);
        }
        lemma_last_write_none(s.drop_last(), y);
    }
}

/// The write a pending effect makes to the cell a physical key names, if any.
pub open spec fn effect_cell(d: Delta, i: nat) -> Option<Seq<u8>> {
    match delta_row(d) {
        Some(r) => Some(cell_value(r[i as int])),
        None => None,
    }
}

pub proof fn lemma_last_write_row(p: Seq<u8>, e: (Seq<u8>, Delta), c: nat, x: Seq<u8>)
    requires
        c <= 0x1_0000_0000,
    ensures
        last_write(row_writes(p, e, c), p + x) == if x.len() >= 4 && key_of(x) == e.0 && index_of(x) < c {
            Some(effect_cell(e.1, index_of(x)))
        } else {
            None
        },
{
    let w = row_writes(p, e, c);
    assert forall|j: int| 0 <= j < c implies ((#[trigger] w[j]).0 == p + x <==> e.0 + be_bytes(j as nat, 4) == x) by {
        assert(cell_key(p, e.0, j as nat) =~= p + (e.0 + be_bytes(j as nat, 4)));
        if w[j].0 == p + x {
            assert((p + x).skip(p.len() as int) =~= x);
            assert((p + (e.0 + be_bytes(j as nat, 4))).skip(p.len() as int) =~= e.0 + be_bytes(j as nat, 4));
        }
    }
    if x.len() >= 4 && key_of(x) == e.0 && index_of(x) < c {
        let i = index_of(x) as int;
        lemma_cell_key_split(x, e.0, i as nat);
        assert forall|j: int| i < j < w.len() implies (#[trigger] w[j]).0 != p + x by {
            lemma_cell_key_split(x, e.0, j as nat);
        }
        lemma_last_write_match(w, i, p + x);
    } else {
        assert forall|j: int| 0 <= j < w.len() implies (#[trigger] w[j]).0 != p + x by {
            lemma_cell_key_split(x, e.0, j as nat);
        }
        lemma_last_write_none(w, p + x);
    }
}

/// The cell writes of a flush, looked up by physical key: the pending effect of the key's row.
pub proof fn lemma_last_write_flush(p: Seq<u8>, d: Seq<(Seq<u8>, Delta)>, c: nat, x: Seq<u8>)
    requires
        c <= 0x1_0000_0000,
        strictly_sorted(d),
    ensures
        last_write(flush_writes(p, d, c), p + x) == if x.len() >= 4 && index_of(x) < c {
            match get(d, key_of(x)) {
                Some(e) => Some(effect_cell(e, index_of(x))),
                None => None,
            }
        } else {
            None
        },
    decreases d.len(),
{
    if d.len() == 0 {
        if x.len() >= 4 {
            lemma_get_no_match(d, key_of(x));
        }
    } else {
        let dl = d.drop_last();
        let e = d.last();
        assert(strictly_sorted(dl)) by {
            assert forall|i: int, j: int| 0 <= i < j < dl.len() implies lex_lt(#[trigger] dl[i].0, #[trigger] dl[j].0) by {
                assert(dl[i] == d[i] && dl[j] == d[j]);
            }
        }
        lemma_last_write_flush(p, dl, c, x);
        lemma_last_write_concat(flush_writes(p, dl, c), row_writes(p, e, c), p + x);
        lemma_last_write_row(p, e, c, x);
        if x.len() >= 4 {
            assert(d =~= dl.push(e));
            lemma_get_push(dl, e, key_of(x));
            if key_of(x) == e.0 {
                assert forall|j: int| 0 <= j < dl.len() implies (#[trigger] dl[j]).0 != e.0 by {
                    assert(dl[j] == d[j]);
                    assert(d[d.len() - 1] == e);
                    lemma_lex_irreflexive(e.0);
                }
                lemma_get_no_match(dl, e.0);
            }
        }
    }
}


/// A cell value fits a column type: null, or a value of that type.
pub open spec fn datum_has_type(d: DatumValue, t: DataType) -> bool {
    match d {
        None => true,
        Some(ScalarValue::Int16(_)) => t == DataType::Int16,
        Some(ScalarValue::Int32(_)) => t == DataType::Int32,
        Some(ScalarValue::Int64(_)) => t == DataType::Int64,
        Some(ScalarValue::Bool(_)) => t == DataType::Boolean,
        Some(ScalarValue::Utf8(_)) => t == DataType::Varchar,
    }
}

pub proof fn lemma_pow256_small()
    ensures
        pow256(2) == 0x1_0000,
        pow256(4) == 0x1_0000_0000,
        pow256(8) == 0x1_0000_0000_0000_0000,
{
    reveal_with_fuel(pow256, 9);
}

/// A stored cell of the right type decodes to the value it stores.
pub proof fn lemma_decode_encode_cell(d: DatumValue, t: DataType)
    requires
        datum_has_type(d, t),
    ensures
        decode_cell(cell_value(d), t) == Some(d),
{
    lemma_pow256_small();
    let b = cell_value(d);
    match d {
        None => {},
        Some(v) => {
            assert(b.drop_first() =~= crate::codec::scalar_value_bytes(v));
            match v {
                ScalarValue::Int16(x) => {
                    lemma_be_len(biased(x as int, 16), 2);
                    lemma_be_value_of_bytes(biased(x as int, 16), 2);
                },
                ScalarValue::Int32(x) => {
                    lemma_be_len(biased(x as int, 32), 4);
                    lemma_be_value_of_bytes(biased(x as int, 32), 4);
                },
                ScalarValue::Int64(x) => {
                    lemma_be_len(biased(x as int, 64), 8);
                    lemma_be_value_of_bytes(biased(x as int, 64), 8);
                },
                ScalarValue::Bool(x) => {},
                ScalarValue::Utf8(chars) => {
                    vstd::utf8::encode_utf8_valid_utf8(chars);
                    vstd::utf8::encode_utf8_decode_utf8(chars);
                },
            }
        },
    }
}

/// Stored bytes that decode are the encoding of what they decode to.
pub proof fn lemma_encode_decode_cell(b: Seq<u8>, t: DataType)
    requires
        decode_cell(b, t) is Some,
    ensures
        cell_value(decode_cell(b, t)->Some_0) == b,
        datum_has_type(decode_cell(b, t)->Some_0, t),
{
    lemma_pow256_small();
    if b.len() == 1 && b[0] == 0 {
        assert(b =~= seq![0u8]);
    } else {
        let p = b.drop_first();
        assert(b =~= seq![1u8] + p);
        lemma_bytes_of_be_value(p);
        match t {
            DataType::Varchar => {
                vstd::utf8::decode_utf8_encode_utf8(p);
            },
            DataType::Boolean => {
                assert(seq![if p[0] == 1 { 1u8 } else { 0u8 }] =~= p);
            },
            _ => {},
        }
    }
}


pub proof fn lemma_cells_index(m: Seq<(Seq<u8>, RowValue)>, c: nat)
    ensures
        cells(m, c).len() == m.len() * c,
        forall|j: int, i: int| 0 <= j < m.len() && 0 <= i < c ==>
            #[trigger] cells(m, c)[j * c + i] == (m[j].0 + be_bytes(i as nat, 4), cell_value(m[j].1[i])),
    decreases m.len(),
{
    if m.len() > 0 {
        let dl = m.drop_last();
        lemma_cells_index(dl, c);
        let n = m.len();
        assert(cells(m, c).len() == n * c) by (nonlinear_arith)
            requires cells(m, c).len() == cells(dl, c).len() + c, cells(dl, c).len() == (n - 1) * c;
        assert forall|j: int, i: int| 0 <= j < m.len() && 0 <= i < c implies
            #[trigger] cells(m, c)[j * c + i] == (m[j].0 + be_bytes(i as nat, 4), cell_value(m[j].1[i])) by {
            if j < n - 1 {
                assert(j * c + i < (n - 1) * c) by (nonlinear_arith)
                    requires j < n - 1, i < c, 0 <= i;
                assert(dl[j] == m[j]);
                assert(cells(m, c)[j * c + i] == cells(dl, c)[j * c + i]);
            } else {
                assert(j * c + i - (n - 1) * c == i) by (nonlinear_arith)
                    requires j == n - 1;
                assert(cells(m, c)[j * c + i] == row_cells(m.last(), c)[i]);
            }
        }
    }
}

pub proof fn lemma_cell_at(m: Seq<(Seq<u8>, RowValue)>, c: nat, j: int, i: int)
    requires
        0 <= j < m.len(),
        0 <= i < c,
    ensures
        cells(m, c)[j * c + i] == (m[j].0 + be_bytes(i as nat, 4), cell_value(m[j].1[i])),
        cells(m, c).len() == m.len() * c,
{
    lemma_cells_index(m, c);
}

/// Every row fits the column types.
pub open spec fn rows_typed(m: Seq<(Seq<u8>, RowValue)>, t: Seq<DataType>) -> bool {
    forall|j: int| 0 <= j < m.len() ==> {
        &&& (#[trigger] m[j]).1.len() == t.len()
        &&& forall|i: int| 0 <= i < t.len() ==> datum_has_type(m[j].1[i], t[i])
    }
}

/// The cells of sorted, typed rows decode to those rows.
pub proof fn lemma_decode_cells(m: Seq<(Seq<u8>, RowValue)>, t: Seq<DataType>)
    requires
        strictly_sorted(m),
        rows_typed(m, t),
        0 < t.len() <= 0x1_0000_0000,
    ensures
        decode_rows(cells(m, t.len()), t) == Some(m),
{
    let c = t.len();
    let e = cells(m, c);
    lemma_cells_index(m, c);
    let n = m.len();
    assert(e.len() % c == 0 && e.len() / c == n) by (nonlinear_arith)
        requires e.len() == n * c, c > 0;
    assert forall|j: nat| j < e.len() / c implies #[trigger] group_ok(e, t, j) by {
        lemma_cell_at(m, c, j as int, 0);
        lemma_be_len(0, 4);
        lemma_cell_key_split(e[(j * c) as int].0, m[j as int].0, 0);
        assert forall|i: int| 0 <= i < c implies {
            &&& (#[trigger] e[j * c + i]).0 == group_key(e, c, j) + be_bytes(i as nat, 4)
            &&& decode_cell(e[j * c + i].1, t[i]) is Some
        } by {
            lemma_cell_at(m, c, j as int, i);
            lemma_decode_encode_cell(m[j as int].1[i], t[i]);
        }
    }
    assert(decoded(e, t) =~= m) by {
        assert forall|j: int| 0 <= j < n implies #[trigger] decoded(e, t)[j] == m[j] by {
            lemma_cell_at(m, c, j, 0);
            lemma_be_len(0, 4);
            lemma_cell_key_split(e[j * c].0, m[j].0, 0);
            let g = group_row(e, t, j as nat);
            assert(g.1 =~= m[j].1) by {
                assert forall|i: int| 0 <= i < c implies g.1[i] == m[j].1[i] by {
                    lemma_cell_at(m, c, j, i);
                    lemma_decode_encode_cell(m[j].1[i], t[i]);
                }
            }
        }
    }
}

/// Cells that decode are exactly the cells of the rows they decode to.
pub proof fn lemma_decoded_cells(e: Seq<(Seq<u8>, Seq<u8>)>, t: Seq<DataType>)
    requires
        decode_rows(e, t) is Some,
        t.len() <= 0x1_0000_0000,
    ensures
        e == cells(decode_rows(e, t)->Some_0, t.len()),
        rows_typed(decode_rows(e, t)->Some_0, t),
{
    let c = t.len();
    let m = decode_rows(e, t)->Some_0;
    let n = m.len();
    lemma_cells_index(m, c);
    assert(n * c == e.len()) by (nonlinear_arith)
        requires n == e.len() / c, e.len() % c == 0, c > 0;
    assert forall|x: int| 0 <= x < e.len() implies #[trigger] e[x] == cells(m, c)[x] by {
        let ci = c as int;
        let j = x / ci;
        let i = x % ci;
        assert(x == j * ci + i && 0 <= j < n && 0 <= i < ci) by (nonlinear_arith)
            requires 0 <= x < e.len(), e.len() == n * ci, ci > 0, j == x / ci, i == x % ci;
        assert(group_ok(e, t, j as nat));
        lemma_encode_decode_cell(e[j * c + i].1, t[i]);
        assert(m[j] == group_row(e, t, j as nat));
        lemma_cell_at(m, c, j, i);
        lemma_cell_key_split(e[j * c].0, m[j].0, 0);
    }
    assert(e =~= cells(m, c));
    assert forall|j: int| 0 <= j < m.len() implies {
        &&& (#[trigger] m[j]).1.len() == t.len()
        &&& forall|i: int| 0 <= i < t.len() ==> datum_has_type(m[j].1[i], t[i])
    } by {
        assert(group_ok(e, t, j as nat));
        assert(m[j] == group_row(e, t, j as nat));
        assert forall|i: int| 0 <= i < t.len() implies datum_has_type(m[j].1[i], t[i]) by {
            lemma_encode_decode_cell(e[j * c + i].1, t[i]);
        }
    }
}


/// Extending two keys, the first sorting before and not a prefix of the
/// second, keeps their order.
pub proof fn lemma_lex_extend(a: Seq<u8>, b: Seq<u8>, x: Seq<u8>, y: Seq<u8>)
    requires
        lex_lt(a, b),
        !a.is_prefix_of(b),
    ensures
        lex_lt(a + x, b + y),
    decreases a.len(),
{
    if a.len() == 0 {
        assert(a.is_prefix_of(b));
    } else {
        assert((a + x)[0] == a[0]);
        assert((b + y)[0] == b[0]);
        if a[0] == b[0] {
            assert((a + x).drop_first() =~= a.drop_first() + x);
            assert((b + y).drop_first() =~= b.drop_first() + y);
            if a.drop_first().is_prefix_of(b.drop_first()) {
                assert(a.is_prefix_of(b)) by {
                    assert forall|i: int| 0 <= i < a.len() implies a[i] == b[i] by {
                        if i > 0 {
                            assert(a[i] == a.drop_first()[i - 1]);
                            assert(b[i] == b.drop_first()[i - 1]);
                        }
                    }
                }
            }
            lemma_lex_extend(a.drop_first(), b.drop_first(), x, y);
        }
    }
}

/// Fixed-width big-endian bytes sort as the numbers do.
pub proof fn lemma_be_order(x: nat, y: nat, n: nat)
    requires
        x < y < pow256(n),
    ensures
        lex_lt(be_bytes(x, n), be_bytes(y, n)),
    decreases n,
{
    if n == 0 {
        assert(false);
    } else {
        let m = (n - 1) as nat;
        let qx = x / 256;
        let qy = y / 256;
        lemma_be_len(qx, m);
        lemma_be_len(qy, m);
        assert(qx <= qy && qy < pow256(m)) by (nonlinear_arith)
            requires x < y, y < 256 * pow256(m), qx == x / 256, qy == y / 256;
        let bx = be_bytes(x, n);
        let by_ = be_bytes(y, n);
        assert(bx =~= be_bytes(qx, m) + seq![(x % 256) as u8]);
        assert(by_ =~= be_bytes(qy, m) + seq![(y % 256) as u8]);
        if qx == qy {
            assert(x % 256 < y % 256) by (nonlinear_arith)
                requires x < y, qx == x / 256, qy == y / 256, qx == qy;
            lemma_strip_prefix(be_bytes(qx, m), seq![(x % 256) as u8], seq![(y % 256) as u8]);
            assert(seq![(x % 256) as u8].drop_first() =~= Seq::<u8>::empty());
        } else {
            lemma_be_order(qx, qy, m);
            if be_bytes(qx, m).is_prefix_of(be_bytes(qy, m)) {
                assert(be_bytes(qx, m) =~= be_bytes(qy, m));
                lemma_lex_irreflexive(be_bytes(qx, m));
            }
            lemma_lex_extend(be_bytes(qx, m), be_bytes(qy, m), seq![(x % 256) as u8], seq![(y % 256) as u8]);
        }
    }
}

/// No key of `m` is a prefix of a later one.
pub open spec fn prefix_free(m: Seq<(Seq<u8>, RowValue)>) -> bool {
    forall|i: int, j: int| 0 <= i < j < m.len() ==> !(#[trigger] m[i].0).is_prefix_of(#[trigger] m[j].0)
}

/// Every key of `m` sorts before `b` and is no prefix of it.
pub open spec fn below_apart(m: Seq<(Seq<u8>, RowValue)>, b: Seq<u8>) -> bool {
    forall|j: int| 0 <= j < m.len() ==> lex_lt((#[trigger] m[j]).0, b) && !m[j].0.is_prefix_of(b)
}

/// The cells of sorted rows under prefix-free keys are sorted.
pub proof fn lemma_cells_sorted(m: Seq<(Seq<u8>, RowValue)>, c: nat)
    requires
        strictly_sorted(m),
        prefix_free(m),
        c <= 0x1_0000_0000,
    ensures
        strictly_sorted(cells(m, c)),
        forall|b: Seq<u8>, y: Seq<u8>| below_apart(m, b) ==> #[trigger] all_below(cells(m, c), b + y),
    decreases m.len(),
{
    lemma_pow256_4();
    if m.len() > 0 {
        let dl = m.drop_last();
        let e = m.last();
        assert(strictly_sorted(dl)) by {
            assert forall|i: int, j: int| 0 <= i < j < dl.len() implies lex_lt(#[trigger] dl[i].0, #[trigger] dl[j].0) by {
                assert(dl[i] == m[i] && dl[j] == m[j]);
            }
        }
        assert(prefix_free(dl)) by {
            assert forall|i: int, j: int| 0 <= i < j < dl.len() implies !(#[trigger] dl[i].0).is_prefix_of(#[trigger] dl[j].0) by {
                assert(dl[i] == m[i] && dl[j] == m[j]);
            }
        }
        lemma_cells_sorted(dl, c);
        let a = cells(dl, c);
        let rc = row_cells(e, c);
        assert(below_apart(dl, e.0)) by {
            assert forall|j: int| 0 <= j < dl.len() implies lex_lt((#[trigger] dl[j]).0, e.0) && !dl[j].0.is_prefix_of(e.0) by {
                assert(dl[j] == m[j]);
                assert(m[m.len() - 1] == e);
            }
        }
        assert(strictly_sorted(rc)) by {
            assert forall|i: int, j: int| 0 <= i < j < rc.len() implies lex_lt(#[trigger] rc[i].0, #[trigger] rc[j].0) by {
                lemma_be_order(i as nat, j as nat, 4);
                lemma_strip_prefix(e.0, be_bytes(i as nat, 4), be_bytes(j as nat, 4));
            }
        }
        let r = a + rc;
        assert(cells(m, c) == r);
        assert forall|i: int, j: int| 0 <= i < j < r.len() implies lex_lt(#[trigger] r[i].0, #[trigger] r[j].0) by {
            if j < a.len() {
                assert(r[i] == a[i] && r[j] == a[j]);
            } else if i >= a.len() {
                assert(r[i] == rc[i - a.len()] && r[j] == rc[j - a.len()]);
            } else {
                assert(r[i] == a[i] && r[j] == rc[j - a.len()]);
                assert(all_below(a, e.0 + be_bytes((j - a.len()) as nat, 4)));
            }
        }
        assert forall|b: Seq<u8>, y: Seq<u8>| below_apart(m, b) implies #[trigger] all_below(cells(m, c), b + y) by {
            assert(below_apart(dl, b)) by {
                assert forall|j: int| 0 <= j < dl.len() implies lex_lt((#[trigger] dl[j]).0, b) && !dl[j].0.is_prefix_of(b) by {
                    assert(dl[j] == m[j]);
                }
            }
            assert(all_below(a, b + y));
            assert(lex_lt(e.0, b) && !e.0.is_prefix_of(b)) by {
                assert(m[m.len() - 1] == e);
            }
            assert forall|i: int| 0 <= i < r.len() implies lex_lt(#[trigger] r[i].0, b + y) by {
                if i >= a.len() {
                    assert(r[i] == rc[i - a.len()]);
                    lemma_lex_extend(e.0, b, be_bytes((i - a.len()) as nat, 4), y);
                } else {
                    assert(r[i] == a[i]);
                }
            }
        }
    } else {
        assert forall|b: Seq<u8>, y: Seq<u8>| below_apart(m, b) implies #[trigger] all_below(cells(m, c), b + y) by {}
    }
}


/// Every pending row fits the column types.
pub open spec fn pending_typed(d: Seq<(Seq<u8>, Delta)>, t: Seq<DataType>) -> bool {
    forall|j: int| 0 <= j < d.len() ==> match delta_row((#[trigger] d[j]).1) {
        Some(r) => r.len() == t.len() && forall|i: int| 0 <= i < t.len() ==> datum_has_type(r[i], t[i]),
        None => true,
    }
}

proof fn lemma_get_sorted_at<V>(s: Seq<(Seq<u8>, V)>, j: int)
    requires
        strictly_sorted(s),
        0 <= j < s.len(),
    ensures
        get(s, s[j].0) == Some(s[j].1),
{
    assert forall|i: int| 0 <= i < j implies (#[trigger] s[i]).0 != s[j].0 by {
        lemma_lex_irreflexive(s[j].0);
    }
    lemma_get_first_match(s, j, s[j].0);
}

/// Merging typed rows with typed pending rows gives typed rows.
proof fn lemma_merge_typed(r: Seq<(Seq<u8>, RowValue)>, d: Seq<(Seq<u8>, Delta)>, t: Seq<DataType>)
    requires
        strictly_sorted(r),
        strictly_sorted(d),
        rows_typed(r, t),
        pending_typed(d, t),
    ensures
        rows_typed(merge_spec(r, d), t),
{
    let m = merge_spec(r, d);
    crate::merge::lemma_merge_sorted(r, d);
    assert forall|j: int| 0 <= j < m.len() implies {
        &&& (#[trigger] m[j]).1.len() == t.len()
        &&& forall|i: int| 0 <= i < t.len() ==> datum_has_type(m[j].1[i], t[i])
    } by {
        lemma_get_sorted_at(m, j);
        lemma_get_merge(r, d, m[j].0);
        match get(d, m[j].0) {
            Some(x) => {
                lemma_get_some(d, m[j].0);
                let q = choose|q: int| 0 <= q < d.len() && (#[trigger] d[q]).0 == m[j].0 && d[q].1 == get(d, m[j].0)->Some_0;
                assert(pending_typed(d, t));
                assert(match delta_row(d[q].1) {
                    Some(row) => row.len() == t.len() && forall|i: int| 0 <= i < t.len() ==> datum_has_type(row[i], t[i]),
                    None => true,
                });
            },
            None => {
                lemma_get_some(r, m[j].0);
                let q = choose|q: int| 0 <= q < r.len() && (#[trigger] r[q]).0 == m[j].0 && r[q].1 == get(r, m[j].0)->Some_0;
                assert(r[q].1.len() == t.len());
            },
        }
    }
}

/// After a flush, the store holds exactly the rows that were stored, with the
/// pending effects applied: scanning and decoding it yields the merge.
pub proof fn lemma_flush_then_scan(
    store: Seq<(Seq<u8>, Seq<u8>)>,
    p: Seq<u8>,
    t: Seq<DataType>,
    d: Seq<(Seq<u8>, Delta)>,
)
    requires
        strictly_sorted(store),
        strictly_sorted(d),
        0 < t.len() <= 0x1_0000_0000,
        decode_rows(scan_spec(store, p), t) is Some,
        pending_typed(d, t),
        prefix_free(merge_spec(decode_rows(scan_spec(store, p), t)->Some_0, d)),
    ensures
        decode_rows(scan_spec(apply_writes(store, flush_writes(p, d, t.len())), p), t)
            == Some(merge_spec(decode_rows(scan_spec(store, p), t)->Some_0, d)),
{
    let c = t.len();
    let e0 = scan_spec(store, p);
    let r = decode_rows(e0, t)->Some_0;
    let m = merge_spec(r, d);
    let w = flush_writes(p, d, c);
    let s1 = apply_writes(store, w);
    let e1 = scan_spec(s1, p);
    lemma_decoded_cells(e0, t);
    crate::merge::lemma_merge_sorted(r, d);
    lemma_merge_typed(r, d, t);
    lemma_apply_writes(store, w, p);
    lemma_scan_sorted(s1, p);
    lemma_cells_sorted(m, c);
    assert forall|x: Seq<u8>| #[trigger] get(e1, x) == get(cells(m, c), x) by {
        lemma_get_scan(s1, p, x);
        lemma_apply_writes(store, w, p + x);
        lemma_get_scan(store, p, x);
        lemma_get_cells(r, c, x);
        lemma_get_cells(m, c, x);
        lemma_last_write_flush(p, d, c, x);
        if x.len() >= 4 {
            lemma_get_merge(r, d, key_of(x));
        }
    }
    lemma_sorted_unique(e1, cells(m, c));
    lemma_decode_cells(m, t);
}

} // verus!
