//! Column descriptions and the values of rows.

use vstd::prelude::*;

use crate::bytes::{copy_range, from_bits, of_bits};

verus! {

/// The type of a column.
#[derive(Clone, Copy, Debug, PartialEq, Eq, Structural)]
pub enum ValueKind {
    Bool,
    I64,
    U64,
    F64,
    Timestamp,
    Bytes,
}

/// The description of a column.
#[derive(Clone, Copy, Debug, PartialEq, Eq, Structural)]
pub struct ColumnSpec {
    pub col_id: u32,
    pub kind: ValueKind,
    /// Whether the column is the primary key.
    pub is_pk: bool,
    /// Whether the column is the timestamp.
    pub is_ts: bool,
}

impl ColumnSpec {
    /// An ordinary column.
    pub fn new(col_id: u32, kind: ValueKind) -> (res: Self)
        ensures
            res == (ColumnSpec { col_id, kind, is_pk: false, is_ts: false }),
    {
        ColumnSpec { col_id, kind, is_pk: false, is_ts: false }
    }

    /// The column as the primary key.
    pub fn pk(self) -> (res: Self)
        ensures
            res == (ColumnSpec { is_pk: true, ..self }),
    {
        ColumnSpec { col_id: self.col_id, kind: self.kind, is_pk: true, is_ts: self.is_ts }
    }

    /// The column as the timestamp.
    pub fn ts(self) -> (res: Self)
        ensures
            res == (ColumnSpec { is_ts: true, ..self }),
    {
        ColumnSpec { col_id: self.col_id, kind: self.kind, is_pk: self.is_pk, is_ts: true }
    }
}

/// A value of a row. A double-precision number is held as its bits.
#[derive(Debug)]
pub enum Value {
    Bool(bool),
    I64(i64),
    U64(u64),
    F64(u64),
    Timestamp(i64),
    Bytes(Vec<u8>),
}

/// The mathematical value of a [`Value`].
pub enum ValueView {
    Bool(bool),
    I64(i64),
    U64(u64),
    F64(u64),
    Timestamp(i64),
    Bytes(Seq<u8>),
}

impl View for Value {
    type V = ValueView;

    open spec fn view(&self) -> ValueView {
        match *self {
            Value::Bool(x) => ValueView::Bool(x),
            Value::I64(x) => ValueView::I64(x),
            Value::U64(x) => ValueView::U64(x),
            Value::F64(x) => ValueView::F64(x),
            Value::Timestamp(x) => ValueView::Timestamp(x),
            Value::Bytes(x) => ValueView::Bytes(x@),
        }
    }
}

impl Clone for Value {
    fn clone(&self) -> (res: Self)
        ensures
            res@ == self@,
    {
        match self {
            Value::Bool(x) => Value::Bool(*x),
            Value::I64(x) => Value::I64(*x),
            Value::U64(x) => Value::U64(*x),
            Value::F64(x) => Value::F64(*x),
            Value::Timestamp(x) => Value::Timestamp(*x),
            Value::Bytes(x) => {
                let b: Vec<u8> = copy_range(x.as_slice(), 0, x.len());
                assert(b@ =~= x@);
                Value::Bytes(b)
            },
        }
    }
}

/// The values of a row.
pub open spec fn row_view(row: Seq<Value>) -> Seq<ValueView> {
    row.map_values(|v: Value| v@)
}

/// The values of a row of rows.
pub open spec fn rows_view(rows: Seq<Vec<Value>>) -> Seq<Seq<ValueView>> {
    rows.map_values(|r: Vec<Value>| row_view(r@))
}

/// A copy of a row.
pub fn copy_row(row: &Vec<Value>) -> (r: Vec<Value>)
    ensures
        row_view(r@) == row_view(row@),
{
    let mut out: Vec<Value> = Vec::new();
    let mut i: usize = 0;
    while i < row.len()
        invariant
            i <= row@.len(),
            row_view(out@) == row_view(row@).take(i as int),
        decreases row@.len() - i,
    {
        let ghost before = out@;
        let v: Value = row[i].clone();
        out.push(v);
        i = i + 1;
        assert(row_view(out@) =~= row_view(before).push(v@));
        assert(row_view(row@).take(i as int) =~= row_view(row@).take(i - 1).push(v@));
    }
    assert(row_view(row@).take(i as int) =~= row_view(row@));
    out
}

/// A fixed-width value as the signed number with the same bits; a truth value
/// as zero or one.
pub open spec fn stored_number(v: ValueView) -> Option<i64> {
    match v {
        ValueView::Bool(x) => Some(if x {
            1
        } else {
            0
        }),
        ValueView::I64(x) => Some(x),
        ValueView::U64(x) => Some(from_bits(x)),
        ValueView::F64(x) => Some(from_bits(x)),
        ValueView::Timestamp(x) => Some(x),
        ValueView::Bytes(x) => None,
    }
}

/// The number that a fixed-width value is stored as.
pub fn to_stored(v: &Value) -> (r: Option<i64>)
    ensures
        r == stored_number(v@),
{
    match v {
        Value::Bool(x) => Some(if *x {
            1
        } else {
            0
        }),
        Value::I64(x) => Some(*x),
        Value::U64(x) => Some(of_bits(*x)),
        Value::F64(x) => Some(of_bits(*x)),
        Value::Timestamp(x) => Some(*x),
        Value::Bytes(x) => None,
    }
}

} // verus!
