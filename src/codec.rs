//! Byte encodings: the order-preserving encoding of keys, the encoding of one
//! cell's value, and the physical key of one cell.

use vstd::prelude::*;
use vstd::utf8::{encode_utf8, valid_utf8};
use crate::row::{DataType, OrderType, ScalarImpl, ScalarValue, Datum, DatumValue, Row, RowValue, OrderedRow, datum_view};

verus! {

/// `x` as `n` bytes, most significant first.
pub open spec fn be_bytes(x: nat, n: nat) -> Seq<u8>
    decreases n,
{
    if n == 0 {
        Seq::empty()
    } else {
        be_bytes(x / 256, (n - 1) as nat).push((x % 256) as u8)
    }
}

/// The unsigned value of bytes read most significant first.
pub open spec fn be_value(b: Seq<u8>) -> nat
    decreases b.len(),
{
    if b.len() == 0 {
        0
    } else {
        be_value(b.drop_last()) * 256 + b.last() as nat
    }
}

/// Appends `x` as `n` bytes, most significant first.
pub fn push_be(out: &mut Vec<u8>, x: u64, n: usize)
    ensures
        final(out)@ == old(out)@ + be_bytes(x as nat, n as nat),
    decreases n,
{
    if n == 0 {
        assert(old(out)@ + be_bytes(x as nat, 0) =~= old(out)@);
        return;
    }
    push_be(out, x / 256, n - 1);
    out.push((x % 256) as u8);
    assert(final(out)@ =~= old(out)@ + be_bytes(x as nat, n as nat));
}

/// Reads bytes most significant first.
pub fn read_be(b: &[u8]) -> (r: u64)
    requires
        b@.len() <= 8,
    ensures
        r as nat == be_value(b@),
        r < pow256(b@.len()),
{
    let mut acc: u64 = 0;
    let mut i: usize = 0;
    while i < b.len()
        invariant
            0 <= i <= b@.len() <= 8,
            acc as nat == be_value(b@.take(i as int)),
            acc < pow256(i as nat),
        decreases b@.len() - i,
    {
        proof {
            assert(b@.take(i + 1).drop_last() =~= b@.take(i as int));
            lemma_pow256_step(i as nat);
            lemma_pow256_bound(i as nat);
        }
        assert(acc * 256 + b[i as int] as u64 <= u64::MAX) by (nonlinear_arith)
            requires acc < pow256(i as nat), pow256(i as nat) * 256 <= 0x1_0000_0000_0000_0000, b[i as int] < 256;
        let ghost prev = acc as int;
        let ghost p = pow256(i as nat) as int;
        acc = acc * 256 + b[i] as u64;
        assert(acc < p * 256) by (nonlinear_arith)
            requires prev < p, acc == prev * 256 + b[i as int] as int, b[i as int] < 256;
        i = i + 1;
    }
    assert(b@.take(i as int) =~= b@);
    acc
}

pub open spec fn pow256(n: nat) -> nat
    decreases n,
{
    if n == 0 { 1 } else { 256 * pow256((n - 1) as nat) }
}

proof fn lemma_pow256_step(n: nat)
    ensures
        pow256(n + 1) == pow256(n) * 256,
{
}

proof fn lemma_pow256_values()
    ensures
        pow256(1) == 0x100,
        pow256(2) == 0x1_0000,
        pow256(3) == 0x100_0000,
        pow256(4) == 0x1_0000_0000,
        pow256(5) == 0x100_0000_0000,
        pow256(6) == 0x1_0000_0000_0000,
        pow256(7) == 0x100_0000_0000_0000,
        pow256(8) == 0x1_0000_0000_0000_0000,
{
    reveal_with_fuel(pow256, 9);
}

proof fn lemma_pow256_bound(n: nat)
    requires
        n <= 7,
    ensures
        pow256(n) * 256 <= 0x1_0000_0000_0000_0000,
{
    lemma_pow256_values();
    if n == 0 {} else if n == 1 {} else if n == 2 {} else if n == 3 {} else if n == 4 {} else if n == 5 {} else if n == 6 {} else {}
}


/// A signed value moved up so that unsigned order is signed order.
pub open spec fn biased(v: int, bits: nat) -> nat {
    (v + pow2_half(bits)) as nat
}

pub open spec fn pow2_half(bits: nat) -> int {
    if bits == 16 { 0x8000 } else if bits == 32 { 0x8000_0000 } else { 0x8000_0000_0000_0000 }
}

/// Bytes with each zero byte escaped as `0, 255`.
pub open spec fn escape(b: Seq<u8>) -> Seq<u8>
    decreases b.len(),
{
    if b.len() == 0 {
        Seq::empty()
    } else {
        escape(b.drop_last()) + if b.last() == 0 { seq![0u8, 255u8] } else { seq![b.last()] }
    }
}

/// Every byte complemented, which reverses the order of prefix-free encodings.
pub open spec fn invert(b: Seq<u8>) -> Seq<u8> {
    b.map_values(|x: u8| (255 - x) as u8)
}

/// The ascending key encoding of a non-null value.
pub open spec fn scalar_key(v: ScalarValue) -> Seq<u8> {
    match v {
        ScalarValue::Int16(x) => be_bytes(biased(x as int, 16), 2),
        ScalarValue::Int32(x) => be_bytes(biased(x as int, 32), 4),
        ScalarValue::Int64(x) => be_bytes(biased(x as int, 64), 8),
        ScalarValue::Bool(x) => seq![if x { 1u8 } else { 0u8 }],
        ScalarValue::Utf8(s) => escape(encode_utf8(s)) + seq![0u8, 0u8],
    }
}

/// The key encoding of one cell: a null marker sorting first, then the value;
/// complemented for a descending column.
pub open spec fn datum_key(d: DatumValue, o: OrderType) -> Seq<u8> {
    let asc = match d {
        None => seq![0u8],
        Some(v) => seq![1u8] + scalar_key(v),
    };
    match o {
        OrderType::Ascending => asc,
        OrderType::Descending => invert(asc),
    }
}

/// The key encoding of a row: its cells' encodings, one after the other.
pub open spec fn row_key(r: RowValue, os: Seq<OrderType>) -> Seq<u8>
    decreases r.len(),
{
    if r.len() == 0 || os.len() == 0 {
        Seq::empty()
    } else {
        row_key(r.drop_last(), os.drop_last()) + datum_key(r.last(), os.last())
    }
}

/// The stored encoding of a non-null value.
pub open spec fn scalar_value_bytes(v: ScalarValue) -> Seq<u8> {
    match v {
        ScalarValue::Int16(x) => be_bytes(biased(x as int, 16), 2),
        ScalarValue::Int32(x) => be_bytes(biased(x as int, 32), 4),
        ScalarValue::Int64(x) => be_bytes(biased(x as int, 64), 8),
        ScalarValue::Bool(x) => seq![if x { 1u8 } else { 0u8 }],
        ScalarValue::Utf8(s) => encode_utf8(s),
    }
}

/// The stored encoding of one cell.
pub open spec fn cell_value(d: DatumValue) -> Seq<u8> {
    match d {
        None => seq![0u8],
        Some(v) => seq![1u8] + scalar_value_bytes(v),
    }
}

/// The cell that stored bytes `b` hold for a column of type `t`, or `None` where
/// they are malformed.
pub open spec fn decode_cell(b: Seq<u8>, t: DataType) -> Option<DatumValue> {
    if b.len() == 1 && b[0] == 0 {
        Some(None)
    } else if b.len() >= 1 && b[0] == 1 {
        let p = b.drop_first();
        match t {
            DataType::Int16 => if p.len() == 2 {
                Some(Some(ScalarValue::Int16((be_value(p) - 0x8000) as i16)))
            } else {
                None
            },
            DataType::Int32 => if p.len() == 4 {
                Some(Some(ScalarValue::Int32((be_value(p) - 0x8000_0000) as i32)))
            } else {
                None
            },
            DataType::Int64 => if p.len() == 8 {
                Some(Some(ScalarValue::Int64((be_value(p) - 0x8000_0000_0000_0000) as i64)))
            } else {
                None
            },
            DataType::Boolean => if p.len() == 1 && p[0] <= 1 {
                Some(Some(ScalarValue::Bool(p[0] == 1)))
            } else {
                None
            },
            DataType::Varchar => if valid_utf8(p) {
                Some(Some(ScalarValue::Utf8(vstd::utf8::decode_utf8(p))))
            } else {
                None
            },
        }
    } else {
        None
    }
}

/// The physical key of cell `i` of the row under `key`.
pub open spec fn cell_key(prefix: Seq<u8>, key: Seq<u8>, i: nat) -> Seq<u8> {
    prefix + key + be_bytes(i, 4)
}

/// Relies on `String::from_utf8`: it succeeds exactly on valid UTF-8, and the
/// string it gives holds the bytes it was given.
#[verifier::external_body]
fn string_from_utf8(b: Vec<u8>) -> (r: Option<String>)
    ensures
        r is Some <==> valid_utf8(b@),
        r matches Some(s) ==> encode_utf8(s@) == b@,
{
    String::from_utf8(b).ok()
}

fn push_scalar_value(out: &mut Vec<u8>, v: &ScalarImpl)
    ensures
        final(out)@ == old(out)@ + scalar_value_bytes(v@),
{
    match v {
        ScalarImpl::Int16(x) => push_be(out, (*x as i64 + 0x8000) as u64, 2),
        ScalarImpl::Int32(x) => push_be(out, (*x as i64 + 0x8000_0000) as u64, 4),
        ScalarImpl::Int64(x) => push_be(out, (*x as i128 + 0x8000_0000_0000_0000) as u64, 8),
        ScalarImpl::Bool(x) => out.push(if *x { 1u8 } else { 0u8 }),
        ScalarImpl::Utf8(s) => {
            let b = s.as_str().as_bytes();
            let mut i: usize = 0;
            while i < b.len()
                invariant
                    0 <= i <= b@.len(),
                    b@ == encode_utf8(s@),
                    out@ == old(out)@ + b@.take(i as int),
                decreases b@.len() - i,
            {
                out.push(b[i]);
                i = i + 1;
                assert(out@ =~= old(out)@ + b@.take(i as int));
            }
            assert(b@.take(i as int) =~= b@);
        },
    }
}

/// The stored encoding of one cell.
pub fn encode_cell(d: &Datum) -> (r: Vec<u8>)
    ensures
        r@ == cell_value(datum_view(*d)),
{
    let mut out: Vec<u8> = Vec::new();
    match d {
        None => {
            out.push(0u8);
            assert(out@ =~= seq![0u8]);
        },
        Some(v) => {
            out.push(1u8);
            push_scalar_value(&mut out, v);
            assert(out@ =~= seq![1u8] + scalar_value_bytes(v@));
        },
    }
    out
}

/// Decodes stored bytes as a cell of type `t`; `None` where they are malformed.
pub fn decode_datum(b: &[u8], t: DataType) -> (r: Option<Datum>)
    ensures
        match r {
            Some(d) => decode_cell(b@, t) == Some(datum_view(d)),
            None => decode_cell(b@, t) is None,
        },
{
    if b.len() == 1 && b[0] == 0 {
        return Some(None);
    }
    if b.len() == 0 || b[0] != 1 {
        return None;
    }
    let ghost p = b@.drop_first();
    let n = b.len() - 1;
    match t {
        DataType::Int16 => {
            if n != 2 {
                return None;
            }
            let u = read_be(&b[1..3]);
            proof { lemma_pow256_values(); }
            assert(b@.subrange(1, 3) =~= p);
            Some(Some(ScalarImpl::Int16((u as i64 - 0x8000) as i16)))
        },
        DataType::Int32 => {
            if n != 4 {
                return None;
            }
            let u = read_be(&b[1..5]);
            proof { lemma_pow256_values(); }
            assert(b@.subrange(1, 5) =~= p);
            Some(Some(ScalarImpl::Int32((u as i64 - 0x8000_0000) as i32)))
        },
        DataType::Int64 => {
            if n != 8 {
                return None;
            }
            let u = read_be(&b[1..9]);
            proof { lemma_pow256_values(); }
            assert(b@.subrange(1, 9) =~= p);
            Some(Some(ScalarImpl::Int64((u as i128 - 0x8000_0000_0000_0000) as i64)))
        },
        DataType::Boolean => {
            if n != 1 || b[1] > 1 {
                return None;
            }
            Some(Some(ScalarImpl::Bool(b[1] == 1)))
        },
        DataType::Varchar => {
            let mut v: Vec<u8> = Vec::new();
            let mut i: usize = 1;
            while i < b.len()
                invariant
                    1 <= i <= b@.len(),
                    v@ == b@.subrange(1, i as int),
                decreases b@.len() - i,
            {
                v.push(b[i]);
                i = i + 1;
                assert(v@ =~= b@.subrange(1, i as int));
            }
            assert(v@ =~= p);
            match string_from_utf8(v) {
                Some(s) => {
                    proof {
                        vstd::utf8::encode_utf8_decode_utf8(s@);
                    }
                    Some(Some(ScalarImpl::Utf8(s)))
                },
                None => None,
            }
        },
    }
}


fn push_scalar_key(out: &mut Vec<u8>, v: &ScalarImpl)
    ensures
        final(out)@ == old(out)@ + scalar_key(v@),
{
    match v {
        ScalarImpl::Utf8(s) => {
            let b = s.as_str().as_bytes();
            let mut i: usize = 0;
            while i < b.len()
                invariant
                    0 <= i <= b@.len(),
                    b@ == encode_utf8(s@),
                    out@ == old(out)@ + escape(b@.take(i as int)),
                decreases b@.len() - i,
            {
                proof {
                    assert(b@.take(i + 1).drop_last() =~= b@.take(i as int));
                }
                if b[i] == 0 {
                    out.push(0u8);
                    out.push(255u8);
                } else {
                    out.push(b[i]);
                }
                i = i + 1;
                assert(out@ =~= old(out)@ + escape(b@.take(i as int)));
            }
            assert(b@.take(i as int) =~= b@);
            out.push(0u8);
            out.push(0u8);
            assert(out@ =~= old(out)@ + scalar_key(v@));
        },
        _ => {
            push_scalar_value(out, v);
        },
    }
}

fn push_datum_key(out: &mut Vec<u8>, d: &Datum, o: OrderType)
    ensures
        final(out)@ == old(out)@ + datum_key(datum_view(*d), o),
{
    let mut asc: Vec<u8> = Vec::new();
    match d {
        None => {
            asc.push(0u8);
        },
        Some(v) => {
            asc.push(1u8);
            push_scalar_key(&mut asc, v);
        },
    }
    let ghost a = match datum_view(*d) {
        None => seq![0u8],
        Some(v) => seq![1u8] + scalar_key(v),
    };
    assert(asc@ =~= a);
    let desc = match o {
        OrderType::Ascending => false,
        OrderType::Descending => true,
    };
    let mut i: usize = 0;
    while i < asc.len()
        invariant
            0 <= i <= asc@.len(),
            asc@ == a,
            desc == (o == OrderType::Descending),
            out@ == old(out)@ + if desc { invert(a.take(i as int)) } else { a.take(i as int) },
        decreases asc@.len() - i,
    {
        if desc {
            out.push(255 - asc[i]);
        } else {
            out.push(asc[i]);
        }
        i = i + 1;
        assert(out@ =~= old(out)@ + if desc { invert(a.take(i as int)) } else { a.take(i as int) });
    }
    assert(a.take(i as int) =~= a);
}

impl OrderedRow {
    /// The key of `row` with its columns sorting in the directions `order_types`.
    pub fn new(row: Row, order_types: &[OrderType]) -> (r: OrderedRow)
        requires
            row@.len() == order_types@.len(),
        ensures
            r@ == row_key(row@, order_types@),
    {
        let mut out: Vec<u8> = Vec::new();
        let mut i: usize = 0;
        while i < row.0.len()
            invariant
                0 <= i <= row@.len(),
                row@.len() == order_types@.len(),
                out@ == row_key(row@.take(i as int), order_types@.take(i as int)),
            decreases row@.len() - i,
        {
            proof {
                assert(row@.take(i + 1).drop_last() =~= row@.take(i as int));
                assert(order_types@.take(i + 1).drop_last() =~= order_types@.take(i as int));
                assert(row@[i as int] == datum_view(row.0@[i as int]));
            }
            push_datum_key(&mut out, &row.0[i], order_types[i]);
            i = i + 1;
        }
        proof {
            assert(row@.take(i as int) =~= row@);
            assert(order_types@.take(i as int) =~= order_types@);
        }
        OrderedRow::from_bytes(out)
    }
}

/// Appends the physical key of cell `i` of the row under `key`.
pub fn encode_cell_key(prefix: &[u8], key: &OrderedRow, i: u32) -> (r: Vec<u8>)
    ensures
        r@ == cell_key(prefix@, key@, i as nat),
{
    let mut out = crate::row::copy_bytes(prefix);
    let kb = key.as_bytes();
    let mut j: usize = 0;
    while j < kb.len()
        invariant
            0 <= j <= kb@.len(),
            out@ == prefix@ + kb@.take(j as int),
        decreases kb@.len() - j,
    {
        out.push(kb[j]);
        j = j + 1;
        assert(out@ =~= prefix@ + kb@.take(j as int));
    }
    assert(kb@.take(j as int) =~= kb@);
    push_be(&mut out, i as u64, 4);
    out
}

} // verus!
