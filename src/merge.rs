//! Reconciliation: the durable rows merged with the pending writes, in one
//! forward pass over both sorted sequences.

use vstd::prelude::*;
use crate::bytes::{lex_lt, compare_bytes, lemma_lex_transitive};
use crate::row::{OrderedRow, Row, RowValue};
use crate::delta::{Delta, DeltaTracker, delta_row};
use crate::sorted::{strictly_sorted, keyed};

verus! {

/// The rows that storage `s` holds once the pending effects `d` are applied,
/// both sorted by key.
pub open spec fn merge_spec(s: Seq<(Seq<u8>, RowValue)>, d: Seq<(Seq<u8>, Delta)>) -> Seq<(Seq<u8>, RowValue)>
    decreases s.len() + d.len(),
{
    if s.len() == 0 && d.len() == 0 {
        Seq::empty()
    } else if d.len() == 0 || (s.len() > 0 && lex_lt(s[0].0, d[0].0)) {
        seq![s[0]] + merge_spec(s.drop_first(), d)
    } else {
        let rest = if s.len() > 0 && s[0].0 == d[0].0 {
            merge_spec(s.drop_first(), d.drop_first())
        } else {
            merge_spec(s, d.drop_first())
        };
        match delta_row(d[0].1) {
            Some(r) => seq![(d[0].0, r)] + rest,
            None => rest,
        }
    }
}

/// Every key of `s` is above `b`.
pub open spec fn all_above<V>(s: Seq<(Seq<u8>, V)>, b: Seq<u8>) -> bool {
    forall|i: int| 0 <= i < s.len() ==> lex_lt(b, #[trigger] s[i].0)
}

proof fn lemma_sorted_above<V>(s: Seq<(Seq<u8>, V)>)
    requires
        strictly_sorted(s),
        s.len() > 0,
    ensures
        all_above(s.drop_first(), s[0].0),
        strictly_sorted(s.drop_first()),
{
    assert forall|i: int| 0 <= i < s.drop_first().len() implies lex_lt(s[0].0, #[trigger] s.drop_first()[i].0) by {
        assert(s.drop_first()[i] == s[i + 1]);
    }
    crate::sorted::lemma_sorted_tail(s);
}

proof fn lemma_above_trans<V>(s: Seq<(Seq<u8>, V)>, a: Seq<u8>, b: Seq<u8>)
    requires
        lex_lt(a, b),
        all_above(s, b),
    ensures
        all_above(s, a),
{
    assert forall|i: int| 0 <= i < s.len() implies lex_lt(a, #[trigger] s[i].0) by {
        lemma_lex_transitive(a, b, s[i].0);
    }
}

/// The merge of sorted sequences is sorted, and stays above any bound that both inputs stay above.
pub proof fn lemma_merge_sorted(s: Seq<(Seq<u8>, RowValue)>, d: Seq<(Seq<u8>, Delta)>)
    requires
        strictly_sorted(s),
        strictly_sorted(d),
    ensures
        strictly_sorted(merge_spec(s, d)),
        forall|b: Seq<u8>| all_above(s, b) && all_above(d, b) ==> #[trigger] all_above(merge_spec(s, d), b),
    decreases s.len() + d.len(),
{
    if s.len() == 0 && d.len() == 0 {
    } else if d.len() == 0 || (s.len() > 0 && lex_lt(s[0].0, d[0].0)) {
        lemma_sorted_above(s);
        lemma_merge_sorted(s.drop_first(), d);
        let rest = merge_spec(s.drop_first(), d);
        if d.len() > 0 {
            lemma_sorted_above(d);
            lemma_above_trans(d.drop_first(), s[0].0, d[0].0);
            assert(all_above(d, s[0].0)) by {
                assert forall|i: int| 0 <= i < d.len() implies lex_lt(s[0].0, #[trigger] d[i].0) by {
                    if i > 0 {
                        assert(d[i] == d.drop_first()[i - 1]);
                    }
                }
            }
        }
        assert(all_above(rest, s[0].0));
        lemma_prepend(s[0], rest);
        assert forall|b: Seq<u8>| all_above(s, b) && all_above(d, b) implies #[trigger] all_above(merge_spec(s, d), b) by {
            assert(all_above(s.drop_first(), b)) by {
                assert forall|i: int| 0 <= i < s.drop_first().len() implies lex_lt(b, #[trigger] s.drop_first()[i].0) by {
                    assert(s.drop_first()[i] == s[i + 1]);
                }
            }
            assert(lex_lt(b, s[0].0));
            assert(merge_spec(s, d) == seq![s[0]] + rest);
        }
    } else {
        lemma_sorted_above(d);
        let same = s.len() > 0 && s[0].0 == d[0].0;
        if s.len() > 0 && !same {
            assert(lex_lt(d[0].0, s[0].0)) by {
                crate::bytes::lemma_lex_total(s[0].0, d[0].0);
            }
        }
        let rest = if same {
            lemma_sorted_above(s);
            lemma_merge_sorted(s.drop_first(), d.drop_first());
            merge_spec(s.drop_first(), d.drop_first())
        } else {
            lemma_merge_sorted(s, d.drop_first());
            if s.len() > 0 {
                lemma_sorted_above(s);
                assert(all_above(s, d[0].0)) by {
                    assert forall|i: int| 0 <= i < s.len() implies lex_lt(d[0].0, #[trigger] s[i].0) by {
                        if i > 0 {
                            assert(s[i] == s.drop_first()[i - 1]);
                            lemma_lex_transitive(d[0].0, s[0].0, s[i].0);
                        }
                    }
                }
            }
            merge_spec(s, d.drop_first())
        };
        assert(all_above(rest, d[0].0)) by {
            if same {
                assert(s.len() > 0 && s[0].0 == d[0].0);
                assert(all_above(s.drop_first(), d[0].0));
            }
        }
        match delta_row(d[0].1) {
            Some(r) => {
                lemma_prepend((d[0].0, r), rest);
            },
            None => {},
        }
        assert forall|b: Seq<u8>| all_above(s, b) && all_above(d, b) implies #[trigger] all_above(merge_spec(s, d), b) by {
            assert(lex_lt(b, d[0].0));
            lemma_above_trans(rest, b, d[0].0);
            assert(all_above(d.drop_first(), b)) by {
                assert forall|i: int| 0 <= i < d.drop_first().len() implies lex_lt(b, #[trigger] d.drop_first()[i].0) by {
                    assert(d.drop_first()[i] == d[i + 1]);
                }
            }
            if same {
                assert(all_above(s.drop_first(), b)) by {
                    assert forall|i: int| 0 <= i < s.drop_first().len() implies lex_lt(b, #[trigger] s.drop_first()[i].0) by {
                        assert(s.drop_first()[i] == s[i + 1]);
                    }
                }
            }
        }
    }
}

proof fn lemma_prepend<V>(e: (Seq<u8>, V), rest: Seq<(Seq<u8>, V)>)
    requires
        strictly_sorted(rest),
        all_above(rest, e.0),
    ensures
        strictly_sorted(seq![e] + rest),
        forall|b: Seq<u8>| lex_lt(b, e.0) ==> #[trigger] all_above(seq![e] + rest, b),
{
    let m = seq![e] + rest;
    assert forall|i: int, j: int| 0 <= i < j < m.len() implies lex_lt(#[trigger] m[i].0, #[trigger] m[j].0) by {
        assert(m[j] == rest[j - 1]);
        if i > 0 {
            assert(m[i] == rest[i - 1]);
        }
    }
    assert forall|b: Seq<u8>| lex_lt(b, e.0) implies #[trigger] all_above(seq![e] + rest, b) by {
        assert forall|i: int| 0 <= i < m.len() implies lex_lt(b, #[trigger] m[i].0) by {
            if i > 0 {
                assert(m[i] == rest[i - 1]);
                lemma_lex_transitive(b, e.0, m[i].0);
            }
        }
    }
}

/// The durable rows `storage` with the pending effects of `deltas` applied:
/// a deleted key drops out, an inserted or overwritten key carries its pending
/// row, and keys that only the tracker holds come in at their place.
pub fn merge_with_deltas(storage: &Vec<(OrderedRow, Row)>, deltas: &DeltaTracker) -> (r: Vec<(OrderedRow, Row)>)
    requires
        strictly_sorted(keyed(storage@)),
        deltas.wf(),
    ensures
        keyed(r@) == merge_spec(keyed(storage@), deltas@),
        strictly_sorted(keyed(r@)),
{
    let ghost s = keyed(storage@);
    let ghost d = deltas@;
    let mut out: Vec<(OrderedRow, Row)> = Vec::new();
    let mut i: usize = 0;
    let mut j: usize = 0;
    let n = storage.len();
    let m = deltas.len();
    proof {
        assert(s.skip(0) =~= s);
        assert(d.skip(0) =~= d);
        assert(keyed(out@) + merge_spec(s, d) =~= merge_spec(s, d));
    }
    while i < n || j < m
        invariant
            n == s.len(),
            m == d.len(),
            0 <= i <= n,
            0 <= j <= m,
            s == keyed(storage@),
            d == deltas@,
            keyed(out@) + merge_spec(s.skip(i as int), d.skip(j as int)) == merge_spec(s, d),
        decreases (n - i) + (m - j),
    {
        let ghost ss = s.skip(i as int);
        let ghost dd = d.skip(j as int);
        let ghost before = keyed(out@);
        let c: i8 = if j == m {
            -1
        } else if i == n {
            1
        } else {
            compare_bytes(storage[i].0.as_bytes(), deltas.entry(j).0.as_bytes())
        };
        if c == -1 {
            proof {
                assert(ss[0] == s[i as int]);
                assert(ss.drop_first() =~= s.skip(i + 1));
            }
            out.push((storage[i].0.duplicate(), storage[i].1.duplicate()));
            proof {
                assert(keyed(out@) =~= before + seq![ss[0]]);
                assert(keyed(out@) + merge_spec(s.skip(i + 1), dd) =~= before + (seq![ss[0]] + merge_spec(ss.drop_first(), dd)));
            }
            i = i + 1;
        } else {
            let e = deltas.entry(j);
            proof {
                assert(dd[0] == d[j as int]);
                assert(dd.drop_first() =~= d.skip(j + 1));
                if i < n {
                    assert(ss[0] == s[i as int]);
                    assert(ss.drop_first() =~= s.skip(i + 1));
                }
            }
            let ghost rest = if c == 0 {
                merge_spec(s.skip(i + 1), d.skip(j + 1))
            } else {
                merge_spec(ss, d.skip(j + 1))
            };
            match e.1.row() {
                Some(row) => {
                    out.push((e.0.duplicate(), row.duplicate()));
                    proof {
                        assert(keyed(out@) =~= before + seq![(dd[0].0, row@)]);
                        assert(keyed(out@) + rest =~= before + (seq![(dd[0].0, row@)] + rest));
                    }
                },
                None => {},
            }
            if c == 0 {
                i = i + 1;
            }
            j = j + 1;
        }
    }
    proof {
        assert(s.skip(i as int) =~= Seq::<(Seq<u8>, RowValue)>::empty());
        assert(d.skip(j as int) =~= Seq::<(Seq<u8>, Delta)>::empty());
        assert(keyed(out@) + Seq::<(Seq<u8>, RowValue)>::empty() =~= keyed(out@));
        lemma_merge_sorted(s, d);
    }
    out
}

} // verus!
