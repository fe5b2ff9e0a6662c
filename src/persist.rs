//! Rows as cells in the store: a row of `c` columns is `c` consecutive entries,
//! keyed by the row's key followed by the cell's index in four bytes.

use vstd::prelude::*;
use crate::bytes::{compare_bytes, lex_lt};
use crate::codec::{be_bytes, push_be, decode_cell, cell_value, cell_key, decode_datum, encode_cell, encode_cell_key};
use crate::delta::{Delta, DeltaTracker, delta_row};
use crate::row::{DataType, Datum, Row, RowValue, OrderedRow, datum_view, copy_bytes};
use crate::sorted::{strictly_sorted, keyed};
use crate::store::{byte_entries, byte_writes};

verus! {

/// The row key of group `j`: the first cell's key without its four index bytes.
pub open spec fn group_key(e: Seq<(Seq<u8>, Seq<u8>)>, c: nat, j: nat) -> Seq<u8> {
    let k0 = e[(j * c) as int].0;
    k0.take(k0.len() - 4)
}

/// Group `j` is `c` cells under one key with indices `0..c`, each decoding by its column type.
pub open spec fn group_ok(e: Seq<(Seq<u8>, Seq<u8>)>, types: Seq<DataType>, j: nat) -> bool {
    let c = types.len();
    &&& e[(j * c) as int].0.len() >= 4
    &&& forall|i: int| 0 <= i < c ==> {
        &&& (#[trigger] e[j * c + i]).0 == group_key(e, c, j) + be_bytes(i as nat, 4)
        &&& decode_cell(e[j * c + i].1, types[i]) is Some
    }
}

/// The key and row that group `j` decodes to.
pub open spec fn group_row(e: Seq<(Seq<u8>, Seq<u8>)>, types: Seq<DataType>, j: nat) -> (Seq<u8>, RowValue) {
    let c = types.len();
    (group_key(e, c, j), Seq::new(c, |i: int| decode_cell(e[j * c + i].1, types[i])->Some_0))
}

pub open spec fn decoded(e: Seq<(Seq<u8>, Seq<u8>)>, types: Seq<DataType>) -> Seq<(Seq<u8>, RowValue)> {
    Seq::new(e.len() / types.len(), |j: int| group_row(e, types, j as nat))
}

/// The rows that scanned cells `e` hold, or `None` where the cells do not form
/// whole, well-formed groups with strictly ascending keys.
pub open spec fn decode_rows(e: Seq<(Seq<u8>, Seq<u8>)>, types: Seq<DataType>) -> Option<Seq<(Seq<u8>, RowValue)>> {
    if types.len() > 0 && e.len() % types.len() == 0
        && (forall|j: nat| j < e.len() / types.len() ==> #[trigger] group_ok(e, types, j))
        && strictly_sorted(decoded(e, types)) {
        Some(decoded(e, types))
    } else {
        None
    }
}

/// The writes for one pending effect: one per cell, absent values for a delete.
pub open spec fn row_writes(prefix: Seq<u8>, e: (Seq<u8>, Delta), c: nat) -> Seq<(Seq<u8>, Option<Seq<u8>>)> {
    Seq::new(c, |i: int| (cell_key(prefix, e.0, i as nat), match delta_row(e.1) {
        Some(r) => Some(cell_value(r[i])),
        None => None,
    }))
}

/// The writes for all pending effects, in key order.
pub open spec fn flush_writes(prefix: Seq<u8>, d: Seq<(Seq<u8>, Delta)>, c: nat) -> Seq<(Seq<u8>, Option<Seq<u8>>)>
    decreases d.len(),
{
    if d.len() == 0 {
        Seq::empty()
    } else {
        flush_writes(prefix, d.drop_last(), c) + row_writes(prefix, d.last(), c)
    }
}

/// Every pending row has `c` cells.
pub open spec fn rows_have_arity(d: Seq<(Seq<u8>, Delta)>, c: nat) -> bool {
    forall|j: int| 0 <= j < d.len() ==> match delta_row(#[trigger] d[j].1) {
        Some(r) => r.len() == c,
        None => true,
    }
}

fn key_with_index(key: &[u8], i: u32) -> (r: Vec<u8>)
    ensures
        r@ == key@ + be_bytes(i as nat, 4),
{
    let mut out = copy_bytes(key);
    push_be(&mut out, i as u64, 4);
    out
}

fn copy_prefix(b: &[u8], n: usize) -> (r: Vec<u8>)
    requires
        n <= b@.len(),
    ensures
        r@ == b@.take(n as int),
{
    let mut out: Vec<u8> = Vec::new();
    let mut i: usize = 0;
    while i < n
        invariant
            0 <= i <= n <= b@.len(),
            out@ == b@.take(i as int),
        decreases n - i,
    {
        out.push(b[i]);
        i = i + 1;
        assert(out@ =~= b@.take(i as int));
    }
    out
}

/// Decodes one group of cells starting at `base`; `None` where it is malformed.
fn decode_group(e: &Vec<(Vec<u8>, Vec<u8>)>, types: &Vec<DataType>, base: usize, j: Ghost<nat>) -> (r: Option<(OrderedRow, Row)>)
    requires
        types@.len() > 0,
        types@.len() <= u32::MAX,
        base == j@ * types@.len(),
        base + types@.len() <= e@.len(),
    ensures
        match r {
            Some(g) => group_ok(byte_entries(e@), types@, j@) && (g.0@, g.1@) == group_row(byte_entries(e@), types@, j@),
            None => !group_ok(byte_entries(e@), types@, j@),
        },
{
    let ghost s = byte_entries(e@);
    let c = types.len();
    let total = e.len();
    let k0 = e[base].0.as_slice();
    if k0.len() < 4 {
        return None;
    }
    let key = copy_prefix(k0, k0.len() - 4);
    let mut cells: Vec<Datum> = Vec::new();
    let mut i: usize = 0;
    while i < c
        invariant
            0 <= i <= c,
            c == types@.len(),
            c <= u32::MAX,
            base == j@ * c,
            base + c <= e@.len(),
            total == e@.len(),
            s == byte_entries(e@),
            s[base as int].0.len() >= 4,
            key@ == group_key(s, c as nat, j@),
            cells@.len() == i,
            forall|x: int| 0 <= x < i ==> {
                &&& (#[trigger] s[j@ * c + x]).0 == group_key(s, c as nat, j@) + be_bytes(x as nat, 4)
                &&& decode_cell(s[j@ * c + x].1, types@[x]) == Some(datum_view(cells@[x]))
            },
        decreases c - i,
    {
        let expected = key_with_index(key.as_slice(), i as u32);
        assert(s[base + i] == (e@[base + i].0@, e@[base + i].1@));
        if compare_bytes(e[base + i].0.as_slice(), expected.as_slice()) != 0 {
            return None;
        }
        match decode_datum(e[base + i].1.as_slice(), types[i]) {
            Some(d) => {
                cells.push(d);
            },
            None => {
                return None;
            },
        }
        i = i + 1;
    }
    let row = Row(cells);
    proof {
        let g = group_row(s, types@, j@);
        assert(row@ =~= g.1);
    }
    Some((OrderedRow::from_bytes(key), row))
}

/// The rows held by scanned cells, in key order; `None` where the cells are malformed.
pub fn decode_entries(e: &Vec<(Vec<u8>, Vec<u8>)>, types: &Vec<DataType>) -> (r: Option<Vec<(OrderedRow, Row)>>)
    requires
        types@.len() > 0,
        types@.len() <= u32::MAX,
    ensures
        match r {
            Some(v) => decode_rows(byte_entries(e@), types@) == Some(keyed(v@)),
            None => decode_rows(byte_entries(e@), types@) is None,
        },
{
    let ghost s = byte_entries(e@);
    let c = types.len();
    if e.len() % c != 0 {
        return None;
    }
    let n = e.len() / c;
    assert(n * c == e@.len()) by (nonlinear_arith)
        requires n == e@.len() / (c as nat), e@.len() % (c as nat) == 0, c > 0;
    let total = e.len();
    let mut out: Vec<(OrderedRow, Row)> = Vec::new();
    let mut j: usize = 0;
    let mut base: usize = 0;
    while j < n
        invariant
            0 <= j <= n,
            c == types@.len(),
            c > 0,
            c <= u32::MAX,
            n * c == e@.len(),
            total == e@.len(),
            n == s.len() / (c as nat),
            base == j * c,
            s == byte_entries(e@),
            out@.len() == j,
            forall|x: nat| x < j ==> #[trigger] group_ok(s, types@, x),
            keyed(out@) =~= decoded(s, types@).take(j as int),
            strictly_sorted(keyed(out@)),
        decreases n - j,
    {
        assert(base + c <= e@.len()) by (nonlinear_arith)
            requires base == j * c, j < n, n * c == e@.len();
        let dg = decode_group(e, types, base, Ghost(j as nat));
        if dg.is_none() {
            proof {
                assert(0 <= j < s.len() / (c as nat) && !group_ok(s, types@, (j as int) as nat));
                assert(decode_rows(s, types@) is None);
            }
            return None;
        }
        let g = dg.unwrap();
        proof {
            assert(decoded(s, types@)[j as int] == group_row(s, types@, j as nat));
        }
        if j > 0 {
            if compare_bytes(out[j - 1].0.as_bytes(), g.0.as_bytes()) != -1 {
                proof {
                    assert(keyed(out@)[j - 1] == decoded(s, types@)[j - 1]);
                    crate::bytes::lemma_lex_total(decoded(s, types@)[j - 1].0, decoded(s, types@)[j as int].0);
                    assert(!lex_lt(decoded(s, types@)[j - 1].0, decoded(s, types@)[j as int].0));
                    assert(!strictly_sorted(decoded(s, types@)));
                }
                return None;
            }
        }
        let ghost prev = keyed(out@);
        let ghost gk = g.0@;
        out.push(g);
        proof {
            assert(keyed(out@) =~= prev.push((g.0@, g.1@)));
            assert forall|x: int, y: int| 0 <= x < y < keyed(out@).len() implies crate::bytes::lex_lt(
                #[trigger] keyed(out@)[x].0, #[trigger] keyed(out@)[y].0) by {
                if y < j {
                    assert(keyed(out@)[x] == prev[x] && keyed(out@)[y] == prev[y]);
                } else {
                    assert(keyed(out@)[y].0 == gk);
                    assert(lex_lt(prev[j - 1].0, gk));
                    if x < j - 1 {
                        crate::bytes::lemma_lex_transitive(prev[x].0, prev[j - 1].0, gk);
                    }
                }
            }
        }
        assert((j + 1) * c == j * c + c) by (nonlinear_arith);
        base = base + c;
        j = j + 1;
    }
    proof {
        assert(decoded(s, types@).len() == n);
        assert(decoded(s, types@).take(n as int) =~= decoded(s, types@));
    }
    Some(out)
}


/// The writes that make the pending effects `deltas` durable under `prefix`:
/// for each effect in key order, one write per cell.
pub fn build_flush_batch(prefix: &[u8], deltas: &DeltaTracker, c: usize) -> (r: Vec<(Vec<u8>, Option<Vec<u8>>)>)
    requires
        c <= u32::MAX,
        rows_have_arity(deltas@, c as nat),
    ensures
        byte_writes(r@) == flush_writes(prefix@, deltas@, c as nat),
{
    let ghost d = deltas@;
    let mut out: Vec<(Vec<u8>, Option<Vec<u8>>)> = Vec::new();
    let mut j: usize = 0;
    let m = deltas.len();
    assert(byte_writes(out@) =~= flush_writes(prefix@, d.take(0), c as nat));
    while j < m
        invariant
            0 <= j <= m,
            m == d.len(),
            d == deltas@,
            c <= u32::MAX,
            rows_have_arity(d, c as nat),
            byte_writes(out@) == flush_writes(prefix@, d.take(j as int), c as nat),
        decreases m - j,
    {
        let e = deltas.entry(j);
        let ghost before = byte_writes(out@);
        let ghost rw = row_writes(prefix@, d[j as int], c as nat);
        let row = e.1.row();
        let mut i: usize = 0;
        assert(before + rw.take(0) =~= before);
        while i < c
            invariant
                0 <= i <= c,
                c <= u32::MAX,
                (e.0@, e.1@) == d[j as int],
                rw == row_writes(prefix@, d[j as int], c as nat),
                match row {
                    Some(r) => delta_row(e.1@) == Some(r@) && r@.len() == c,
                    None => delta_row(e.1@) == None::<RowValue>,
                },
                byte_writes(out@) == before + rw.take(i as int),
            decreases c - i,
        {
            let key = encode_cell_key(prefix, &e.0, i as u32);
            let value = match row {
                Some(r) => {
                    assert(r@[i as int] == datum_view(r.0@[i as int]));
                    Some(encode_cell(&r.0[i]))
                },
                None => None,
            };
            assert(rw[i as int] == (key@, crate::store::opt_bytes(value)));
            let ghost prev = byte_writes(out@);
            out.push((key, value));
            assert(byte_writes(out@) =~= prev.push(rw[i as int]));
            i = i + 1;
            assert(byte_writes(out@) =~= before + rw.take(i as int));
        }
        proof {
            assert(rw.take(i as int) =~= rw);
            assert(d.take(j + 1).drop_last() =~= d.take(j as int));
            assert(d.take(j + 1).last() == d[j as int]);
        }
        j = j + 1;
    }
    assert(d.take(j as int) =~= d);
    out
}

} // verus!
