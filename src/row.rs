//! Rows of nullable typed cells, and the ordered keys that rows are kept under.

use vstd::prelude::*;

verus! {

/// The type of one column, which a stored cell is decoded by.
#[derive(Debug, Clone, Copy, PartialEq, Eq)]
pub enum DataType {
    Int16,
    Int32,
    Int64,
    Boolean,
    Varchar,
}

/// The direction in which one column of an ordered key sorts.
#[derive(Debug, Clone, Copy, PartialEq, Eq)]
pub enum OrderType {
    Ascending,
    Descending,
}

/// One non-null cell value.
#[derive(Debug, Clone, PartialEq, Eq, Hash)]
pub enum ScalarImpl {
    Int16(i16),
    Int32(i32),
    Int64(i64),
    Bool(bool),
    Utf8(String),
}

/// The mathematical value of a cell.
pub enum ScalarValue {
    Int16(i16),
    Int32(i32),
    Int64(i64),
    Bool(bool),
    Utf8(Seq<char>),
}

impl View for ScalarImpl {
    type V = ScalarValue;

    open spec fn view(&self) -> ScalarValue {
        match self {
            ScalarImpl::Int16(v) => ScalarValue::Int16(*v),
            ScalarImpl::Int32(v) => ScalarValue::Int32(*v),
            ScalarImpl::Int64(v) => ScalarValue::Int64(*v),
            ScalarImpl::Bool(v) => ScalarValue::Bool(*v),
            ScalarImpl::Utf8(s) => ScalarValue::Utf8(s@),
        }
    }
}

/// A nullable cell.
pub type Datum = Option<ScalarImpl>;

pub type DatumValue = Option<ScalarValue>;

pub open spec fn datum_view(d: Datum) -> DatumValue {
    match d {
        Some(s) => Some(s@),
        None => None,
    }
}

/// A fixed-arity sequence of nullable cells.
#[derive(Debug, Clone, PartialEq, Eq, Hash)]
pub struct Row(pub Vec<Datum>);

pub type RowValue = Seq<DatumValue>;

impl View for Row {
    type V = RowValue;

    open spec fn view(&self) -> RowValue {
        self.0@.map_values(|d: Datum| datum_view(d))
    }
}

impl ScalarImpl {
    /// A copy of this value.
    pub fn duplicate(&self) -> (r: ScalarImpl)
        ensures
            r@ == self@,
    {
        match self {
            ScalarImpl::Int16(v) => ScalarImpl::Int16(*v),
            ScalarImpl::Int32(v) => ScalarImpl::Int32(*v),
            ScalarImpl::Int64(v) => ScalarImpl::Int64(*v),
            ScalarImpl::Bool(v) => ScalarImpl::Bool(*v),
            ScalarImpl::Utf8(s) => ScalarImpl::Utf8(s.clone()),
        }
    }
}

impl Row {
    pub fn new(values: Vec<Datum>) -> (r: Row)
        ensures
            r.0 == values,
    {
        Row(values)
    }

    pub fn len(&self) -> (r: usize)
        ensures
            r == self@.len(),
    {
        self.0.len()
    }

    /// A copy of this row, cell for cell.
    pub fn duplicate(&self) -> (r: Row)
        ensures
            r@ == self@,
    {
        let mut out: Vec<Datum> = Vec::new();
        let mut i: usize = 0;
        while i < self.0.len()
            invariant
                0 <= i <= self.0@.len(),
                out@.len() == i,
                forall|j: int| 0 <= j < i ==> datum_view(#[trigger] out@[j]) == datum_view(self.0@[j]),
            decreases self.0@.len() - i,
        {
            let d = match &self.0[i] {
                Some(s) => Some(s.duplicate()),
                None => None,
            };
            out.push(d);
            i = i + 1;
        }
        let r = Row(out);
        assert(r@ =~= self@);
        r
    }
}

/// A copy of a byte string.
pub fn copy_bytes(b: &[u8]) -> (r: Vec<u8>)
    ensures
        r@ == b@,
{
    let mut out: Vec<u8> = Vec::new();
    let mut i: usize = 0;
    while i < b.len()
        invariant
            0 <= i <= b@.len(),
            out@ =~= b@.take(i as int),
        decreases b@.len() - i,
    {
        out.push(b[i]);
        i = i + 1;
        assert(out@ =~= b@.take(i as int));
    }
    assert(b@.take(i as int) =~= b@);
    out
}

/// A key of the ordered key space, held as its order-preserving byte encoding:
/// keys compare as their encodings compare, byte by byte.
#[derive(Debug, Clone, PartialEq, Eq, Hash, PartialOrd, Ord)]
pub struct OrderedRow {
    bytes: Vec<u8>,
}

impl View for OrderedRow {
    type V = Seq<u8>;

    closed spec fn view(&self) -> Seq<u8> {
        self.bytes@
    }
}

impl OrderedRow {
    /// The key whose encoding is `bytes`.
    pub fn from_bytes(bytes: Vec<u8>) -> (r: OrderedRow)
        ensures
            r@ == bytes@,
    {
        OrderedRow { bytes }
    }

    pub fn as_bytes(&self) -> (r: &[u8])
        ensures
            r@ == self@,
    {
        self.bytes.as_slice()
    }

    pub fn duplicate(&self) -> (r: OrderedRow)
        ensures
            r@ == self@,
    {
        OrderedRow { bytes: copy_bytes(self.bytes.as_slice()) }
    }
}

} // verus!
