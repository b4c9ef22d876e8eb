//! Relational projection: rows under a schema, in sealed blocks, with an index
//! in memory from each primary key to its row.

use std::collections::HashMap;

use vstd::prelude::*;

use crate::bytes::{from_bits, of_bits};
use crate::error::{constraint_error, CenError, CenResult};
use crate::ids::{BlockId, SegmentId};
use crate::projection::column::{
    copy_row, row_view, rows_view, stored_number, to_stored, ColumnSpec, Value, ValueKind,
    ValueView,
};
use crate::text::{decimal, with_number};

verus! {

broadcast use vstd::std_specs::hash::group_hash_axioms;

/// The name and the columns of a table.
#[derive(Debug)]
pub struct TableSchema {
    pub name: String,
    pub columns: Vec<ColumnSpec>,
}

/// The place of the first column from `i` on that has the number.
pub open spec fn column_place(columns: Seq<ColumnSpec>, col_id: u32, i: int) -> Option<int>
    decreases columns.len() - i,
{
    if i < 0 || i >= columns.len() {
        None
    } else if columns[i].col_id == col_id {
        Some(i)
    } else {
        column_place(columns, col_id, i + 1)
    }
}

/// The place of the first column from `i` on that is the primary key.
pub open spec fn pk_place(columns: Seq<ColumnSpec>, i: int) -> Option<int>
    decreases columns.len() - i,
{
    if i < 0 || i >= columns.len() {
        None
    } else if columns[i].is_pk {
        Some(i)
    } else {
        pk_place(columns, i + 1)
    }
}

impl TableSchema {
    /// A schema with the given name and columns.
    pub fn new(name: &str, columns: Vec<ColumnSpec>) -> (res: Self)
        ensures
            res.name@ == name@,
            res.columns@ == columns@,
    {
        TableSchema { name: name.to_owned(), columns }
    }

    /// The place of the column with the number.
    pub fn find_column(&self, col_id: u32) -> (r: Option<usize>)
        ensures
            match r {
                Some(i) => column_place(self.columns@, col_id, 0) == Some(i as int),
                None => column_place(self.columns@, col_id, 0) is None,
            },
    {
        let mut i: usize = 0;
        while i < self.columns.len()
            invariant
                i <= self.columns@.len(),
                column_place(self.columns@, col_id, i as int) == column_place(
                    self.columns@,
                    col_id,
                    0,
                ),
            decreases self.columns@.len() - i,
        {
            if self.columns[i].col_id == col_id {
                return Some(i);
            }
            i = i + 1;
        }
        None
    }

    /// The place of the primary key column.
    pub fn pk_index(&self) -> (r: Option<usize>)
        ensures
            match r {
                Some(i) => pk_place(self.columns@, 0) == Some(i as int) && i < self.columns@.len(),
                None => pk_place(self.columns@, 0) is None,
            },
    {
        let mut i: usize = 0;
        while i < self.columns.len()
            invariant
                i <= self.columns@.len(),
                pk_place(self.columns@, i as int) == pk_place(self.columns@, 0),
            decreases self.columns@.len() - i,
        {
            if self.columns[i].is_pk {
                return Some(i);
            }
            i = i + 1;
        }
        None
    }
}

/// A row's values.
pub type Row = Seq<ValueView>;

/// The key under which a row is indexed: a signed number as it is, an unsigned
/// one by its bits, anything else as zero.
pub open spec fn index_key(v: ValueView) -> i64 {
    match v {
        ValueView::I64(x) => x,
        ValueView::U64(x) => from_bits(x),
        _ => 0,
    }
}

/// The last of the first `n` rows whose primary key is the signed number.
pub open spec fn last_pending(rows: Seq<Row>, pk_idx: int, pk: i64, n: int) -> Option<int>
    decreases n,
{
    if n <= 0 {
        None
    } else if rows[n - 1][pk_idx] == ValueView::I64(pk) {
        Some(n - 1)
    } else {
        last_pending(rows, pk_idx, pk, n - 1)
    }
}

/// The last of the first `n` rows that is indexed under the key.
pub open spec fn last_keyed(rows: Seq<Row>, pk_idx: int, pk: i64, n: int) -> Option<int>
    decreases n,
{
    if n <= 0 {
        None
    } else if index_key(rows[n - 1][pk_idx]) == pk {
        Some(n - 1)
    } else {
        last_keyed(rows, pk_idx, pk, n - 1)
    }
}

/// What a table holds: its sealed blocks of rows, and the buffered rows.
#[verifier::ext_equal]
pub struct TableView {
    pub blocks: Seq<Seq<Row>>,
    pub pending: Seq<Row>,
}

/// The place of the last row that is indexed under the key in the first `n`
/// blocks.
pub open spec fn sealed_place(blocks: Seq<Seq<Row>>, pk_idx: int, pk: i64, n: int) -> Option<
    (int, int),
>
    decreases n,
{
    if n <= 0 {
        None
    } else {
        match last_keyed(blocks[n - 1], pk_idx, pk, blocks[n - 1].len() as int) {
            Some(s) => Some((n - 1, s)),
            None => sealed_place(blocks, pk_idx, pk, n - 1),
        }
    }
}

/// The row with a primary key: the last buffered one with it, else the last
/// sealed one that is indexed under it.
pub open spec fn row_with(v: TableView, pk_idx: int, pk: i64) -> Option<Row> {
    match last_pending(v.pending, pk_idx, pk, v.pending.len() as int) {
        Some(i) => Some(v.pending[i]),
        None => match sealed_place(v.blocks, pk_idx, pk, v.blocks.len() as int) {
            Some(p) => Some(v.blocks[p.0][p.1]),
            None => None,
        },
    }
}

/// The table after its buffered rows were sealed as one block.
pub open spec fn flushed(v: TableView) -> TableView {
    if v.pending.len() == 0 {
        v
    } else {
        TableView { blocks: v.blocks.push(v.pending), pending: seq![] }
    }
}

/// The rows of the first `n` blocks.
pub open spec fn sealed_rows(blocks: Seq<Seq<Row>>, n: int) -> Seq<Row>
    decreases n,
{
    if n <= 0 {
        seq![]
    } else {
        sealed_rows(blocks, n - 1) + blocks[n - 1]
    }
}

/// What a buffered value gives in a scan: numbers and truth values, nothing
/// else.
pub open spec fn scanned(v: ValueView) -> Option<i64> {
    match v {
        ValueView::I64(x) => Some(x),
        ValueView::U64(x) => Some(from_bits(x)),
        ValueView::Bool(x) => Some(if x {
            1
        } else {
            0
        }),
        _ => None,
    }
}

/// A column of the first `n` rows, as stored in blocks.
pub open spec fn stored_column(rows: Seq<Row>, col: int, n: int) -> Seq<i64>
    decreases n,
{
    if n <= 0 {
        seq![]
    } else {
        match stored_number(rows[n - 1][col]) {
            Some(x) => stored_column(rows, col, n - 1).push(x),
            None => stored_column(rows, col, n - 1),
        }
    }
}

/// A column of the first `n` buffered rows.
pub open spec fn buffered_column(rows: Seq<Row>, col: int, n: int) -> Seq<i64>
    decreases n,
{
    if n <= 0 {
        seq![]
    } else {
        match scanned(rows[n - 1][col]) {
            Some(x) => buffered_column(rows, col, n - 1).push(x),
            None => buffered_column(rows, col, n - 1),
        }
    }
}

/// A column of the first `n` blocks.
pub open spec fn sealed_column(blocks: Seq<Seq<Row>>, col: int, n: int) -> Seq<i64>
    decreases n,
{
    if n <= 0 {
        seq![]
    } else {
        sealed_column(blocks, col, n - 1) + stored_column(
            blocks[n - 1],
            col,
            blocks[n - 1].len() as int,
        )
    }
}

/// Whether every row has the given number of values.
pub open spec fn rows_fit(rows: Seq<Row>, width: nat) -> bool {
    forall|i: int| 0 <= i < rows.len() ==> (#[trigger] rows[i]).len() == width
}

/// The message for a row with the wrong number of values.
pub open spec fn width_message(want: nat, got: nat) -> Seq<char> {
    "insert: expected "@ + decimal(want) + " values, got "@ + decimal(got)
}

/// Where the index has the key.
spec fn indexed(index: Map<i64, (BlockId, u32)>, pk: i64) -> Option<(int, int)> {
    if index.contains_key(pk) {
        Some((index[pk].0.0 as int, index[pk].1 as int))
    } else {
        None
    }
}

/// A sealed block of rows.
#[derive(Debug)]
pub struct RowBlock {
    pub rows: Vec<Vec<Value>>,
}

/// The rows of each block.
pub open spec fn blocks_view(blocks: Seq<RowBlock>) -> Seq<Seq<Row>> {
    blocks.map_values(|b: RowBlock| rows_view(b.rows@))
}

/// How many rows are buffered before they are sealed.
pub const ROW_CAPACITY: usize = 512;

/// A table.
pub struct RelationalTable {
    schema: TableSchema,
    segment_id: SegmentId,
    block_size: u32,
    blocks: Vec<RowBlock>,
    index: HashMap<i64, (BlockId, u32)>,
    pending: Vec<Vec<Value>>,
}

impl View for RelationalTable {
    type V = TableView;

    closed spec fn view(&self) -> TableView {
        TableView { blocks: blocks_view(self.blocks@), pending: rows_view(self.pending@) }
    }
}

impl RelationalTable {
    /// The table's columns.
    pub closed spec fn columns(&self) -> Seq<ColumnSpec> {
        self.schema.columns@
    }

    /// The table's name.
    pub closed spec fn name(&self) -> Seq<char> {
        self.schema.name@
    }

    /// The place of the primary key column.
    pub open spec fn pk_idx(&self) -> int {
        pk_place(self.columns(), 0)->0
    }

    /// The schema has a primary key, every row has a value for each column,
    /// and the index has each key at its last row.
    pub closed spec fn wf(&self) -> bool {
        &&& pk_place(self.schema.columns@, 0) is Some
        &&& 0 <= pk_place(self.schema.columns@, 0)->0 < self.schema.columns@.len()
        &&& rows_fit(self@.pending, self.schema.columns@.len())
        &&& forall|i: int|
            0 <= i < self@.blocks.len() ==> rows_fit(
                #[trigger] self@.blocks[i],
                self.schema.columns@.len(),
            )
        &&& forall|pk: i64|
            #[trigger] indexed(self.index@, pk) == sealed_place(
                self@.blocks,
                self.pk_idx(),
                pk,
                self@.blocks.len() as int,
            )
    }

    /// Whether block and row numbers suffice for the blocks and `extra` more
    /// rows.
    pub open spec fn has_room(&self, extra: int) -> bool {
        self@.blocks.len() + self@.pending.len() + extra <= u32::MAX
    }

    /// An empty table. The schema must have a column, and one must be marked as
    /// the primary key.
    pub fn new(schema: TableSchema, segment_id: SegmentId, block_size: u32) -> (r: CenResult<Self>)
        ensures
            match r {
                Ok(t) => t.wf() && t@ == (TableView { blocks: seq![], pending: seq![] })
                    && t.columns() == schema.columns@ && t.name() == schema.name@,
                Err(e) => if schema.columns@.len() == 0 {
                    e@ == constraint_error("RelationalTable: schema must have >= 1 column"@)
                } else {
                    e@ == constraint_error(
                        "RelationalTable: schema must have a primary key column (mark one with .pk())"@,
                    )
                },
            },
            r is Ok <==> pk_place(schema.columns@, 0) is Some,
    {
        if schema.columns.len() == 0 {
            return Err(CenError::constraint("RelationalTable: schema must have >= 1 column"));
        }
        if schema.pk_index().is_none() {
            return Err(
                CenError::constraint(
                    "RelationalTable: schema must have a primary key column (mark one with .pk())",
                ),
            );
        }
        let t = RelationalTable {
            schema,
            segment_id,
            block_size,
            blocks: Vec::new(),
            index: HashMap::new(),
            pending: Vec::new(),
        };
        assert(t@ =~= (TableView { blocks: seq![], pending: seq![] }));
        Ok(t)
    }

    /// The table's schema.
    pub fn schema(&self) -> (r: &TableSchema)
        ensures
            r.columns@ == self.columns(),
            r.name@ == self.name(),
    {
        &self.schema
    }

    /// Adds a row, whose values stand in the order of the columns. The row is
    /// buffered; a full buffer is sealed.
    pub fn insert(&mut self, row: Vec<Value>) -> (r: CenResult<()>)
        requires
            old(self).wf(),
            old(self).has_room(1),
        ensures
            final(self).wf(),
            final(self).columns() == old(self).columns(),
            final(self).name() == old(self).name(),
            match r {
                Ok(_) => row@.len() == old(self).columns().len() && final(self)@ == ({
                    let v = TableView {
                        pending: old(self)@.pending.push(row_view(row@)),
                        ..old(self)@
                    };
                    if v.pending.len() >= ROW_CAPACITY {
                        flushed(v)
                    } else {
                        v
                    }
                }),
                Err(e) => row@.len() != old(self).columns().len() && final(self)@ == old(self)@
                    && e@ == constraint_error(
                    width_message(old(self).columns().len(), row@.len()),
                ),
            },
    {
        if row.len() != self.schema.columns.len() {
            let mut message: String = with_number("insert: expected ", self.schema.columns.len());
            let tail: String = with_number(" values, got ", row.len());
            message.append(tail.as_str());
            assert(message@ =~= width_message(self.schema.columns@.len(), row@.len()));
            return Err(CenError::constraint(message.as_str()));
        }
        let ghost v = self@;
        let ghost before = self.pending@;
        let ghost added = row_view(row@);
        self.pending.push(row);
        proof {
            assert(rows_view(self.pending@) =~= rows_view(before).push(added));
            assert(self@ =~= (TableView { pending: v.pending.push(added), ..v }));
            assert(rows_fit(self@.pending, self.schema.columns@.len()));
        }
        if self.pending.len() >= ROW_CAPACITY {
            self.flush_pending()
        } else {
            Ok(())
        }
    }

    /// The row with a primary key.
    pub fn find_by_pk(&self, pk: i64) -> (r: CenResult<Option<Vec<Value>>>)
        requires
            self.wf(),
        ensures
            r is Ok,
            match r->Ok_0 {
                Some(row) => row_with(self@, self.pk_idx(), pk) == Some(row_view(row@)),
                None => row_with(self@, self.pk_idx(), pk) is None,
            },
    {
        let pk_idx: usize = self.pk_column();
        let ghost rows = self@.pending;
        let mut i: usize = self.pending.len();
        while i > 0
            invariant
                i <= self.pending@.len(),
                self.wf(),
                pk_idx == self.pk_idx(),
                pk_idx < self.schema.columns@.len(),
                rows == rows_view(self.pending@),
                rows == self@.pending,
                last_pending(rows, pk_idx as int, pk, i as int) == last_pending(
                    rows,
                    pk_idx as int,
                    pk,
                    rows.len() as int,
                ),
            decreases i,
        {
            i = i - 1;
            assert(rows[i as int] == row_view(self.pending@[i as int]@));
            assert(rows[i as int].len() == self.schema.columns@.len());
            assert(rows[i as int][pk_idx as int] == self.pending@[i as int]@[pk_idx as int]@);
            let here: bool = match &self.pending[i][pk_idx] {
                Value::I64(x) => *x == pk,
                _ => false,
            };
            if here {
                return Ok(Some(copy_row(&self.pending[i])));
            }
        }
        match self.index.get(&pk) {
            Some(place) => {
                proof {
                    assert(indexed(self.index@, pk) == sealed_place(
                        self@.blocks,
                        self.pk_idx(),
                        pk,
                        self@.blocks.len() as int,
                    ));
                    lemma_sealed_place(
                        self@.blocks,
                        self.pk_idx(),
                        pk,
                        self@.blocks.len() as int,
                    );
                    let b = place.0.0 as int;
                    assert(self@.blocks[b] == rows_view(self.blocks@[b].rows@));
                }
                let block: &RowBlock = &self.blocks[place.0.0 as usize];
                Ok(Some(copy_row(&block.rows[place.1 as usize])))
            },
            None => {
                assert(indexed(self.index@, pk) == sealed_place(
                    self@.blocks,
                    self.pk_idx(),
                    pk,
                    self@.blocks.len() as int,
                ));
                Ok(None)
            },
        }
    }

    fn pk_column(&self) -> (r: usize)
        requires
            self.wf(),
        ensures
            r == self.pk_idx(),
            r < self.schema.columns@.len(),
    {
        match self.schema.pk_index() {
            Some(i) => i,
            None => 0,
        }
    }

    /// Seals the buffered rows as one block.
    pub fn flush_pending(&mut self) -> (r: CenResult<()>)
        requires
            old(self).wf(),
            old(self).has_room(0),
        ensures
            final(self).wf(),
            final(self).columns() == old(self).columns(),
            final(self).name() == old(self).name(),
            r is Ok,
            final(self)@ == flushed(old(self)@),
    {
        if self.pending.len() == 0 {
            return Ok(());
        }
        let ghost v = self@;
        let pk_idx: usize = self.pk_column();
        let ghost rows = v.pending;
        let ghost first = self.index@;
        let number: u32 = self.blocks.len() as u32;
        let mut s: usize = 0;
        while s < self.pending.len()
            invariant
                s <= self.pending@.len(),
                self.pending@.len() <= u32::MAX,
                self.pending@ == old(self).pending@,
                self.blocks@ == old(self).blocks@,
                self.schema == old(self).schema,
                rows == rows_view(self.pending@),
                rows_fit(rows, self.schema.columns@.len()),
                pk_idx < self.schema.columns@.len(),
                number == self.blocks@.len(),
                forall|pk: i64|
                    #[trigger] indexed(self.index@, pk) == (match last_keyed(
                        rows,
                        pk_idx as int,
                        pk,
                        s as int,
                    ) {
                        Some(t) => Some((number as int, t)),
                        None => indexed(first, pk),
                    }),
            decreases self.pending@.len() - s,
        {
            assert(rows[s as int] == row_view(self.pending@[s as int]@));
            assert(rows[s as int].len() == self.schema.columns@.len());
            assert(rows[s as int][pk_idx as int] == self.pending@[s as int]@[pk_idx as int]@);
            let pk: i64 = match &self.pending[s][pk_idx] {
                Value::I64(x) => *x,
                Value::U64(x) => of_bits(*x),
                _ => 0,
            };
            let ghost here = self.index@;
            let _earlier: Option<(BlockId, u32)> = self.index.insert(
                pk,
                (BlockId(number), s as u32),
            );
            assert forall|other: i64| #[trigger] indexed(self.index@, other) == (if other == pk {
                Some((number as int, s as int))
            } else {
                indexed(here, other)
            }) by {}
            s = s + 1;
        }
        let mut rows_now: Vec<Vec<Value>> = Vec::new();
        std::mem::swap(&mut rows_now, &mut self.pending);
        let ghost blocks_before = self.blocks@;
        self.blocks.push(RowBlock { rows: rows_now });
        proof {
            assert(blocks_view(self.blocks@) =~= blocks_view(blocks_before).push(rows));
            assert(rows_view(self.pending@) =~= seq![]);
            assert(self@ =~= flushed(v));
            assert forall|pk: i64| #[trigger] indexed(self.index@, pk) == sealed_place(
                self@.blocks,
                self.pk_idx(),
                pk,
                self@.blocks.len() as int,
            ) by {
                lemma_sealed_prefix(
                    self@.blocks,
                    v.blocks,
                    self.pk_idx(),
                    pk,
                    v.blocks.len() as int,
                );
                assert(indexed(first, pk) == sealed_place(
                    v.blocks,
                    self.pk_idx(),
                    pk,
                    v.blocks.len() as int,
                ));
            }
            assert forall|i: int| 0 <= i < self@.blocks.len() implies rows_fit(
                #[trigger] self@.blocks[i],
                self.schema.columns@.len(),
            ) by {
                if i < v.blocks.len() {
                    assert(self@.blocks[i] == v.blocks[i]);
                }
            }
        }
        Ok(())
    }

    /// One column of all rows as signed numbers: of the sealed blocks, whose
    /// column must have a fixed width, as they are stored, of the buffered rows
    /// the numbers and truth values.
    pub fn scan_column_i64(&self, col_idx: usize) -> (r: CenResult<Vec<i64>>)
        requires
            self.wf(),
            self@.blocks.len() > 0 || self@.pending.len() > 0 ==> col_idx < self.columns().len(),
            self@.blocks.len() > 0 ==> self.columns()[col_idx as int].kind != ValueKind::Bytes,
        ensures
            r is Ok,
            (r->Ok_0)@ == sealed_column(
                self@.blocks,
                col_idx as int,
                self@.blocks.len() as int,
            ) + buffered_column(self@.pending, col_idx as int, self@.pending.len() as int),
    {
        let ghost v = self@;
        let mut out: Vec<i64> = Vec::new();
        assert(v.blocks.len() == self.blocks@.len() && v.pending.len() == self.pending@.len());
        if self.blocks.len() == 0 && self.pending.len() == 0 {
            assert(out@ =~= seq![]);
            return Ok(out);
        }
        let mut b: usize = 0;
        while b < self.blocks.len()
            invariant
                b <= self.blocks@.len(),
                self.wf(),
                v == self@,
                v.blocks == blocks_view(self.blocks@),
                col_idx < self.schema.columns@.len(),
                out@ == sealed_column(v.blocks, col_idx as int, b as int),
            decreases self.blocks@.len() - b,
        {
            let block: &RowBlock = &self.blocks[b];
            let ghost rows = v.blocks[b as int];
            let ghost before = out@;
            assert(rows == rows_view(block.rows@));
            assert(rows_fit(rows, self.schema.columns@.len()));
            let mut s: usize = 0;
            assert(out@ =~= before + stored_column(rows, col_idx as int, 0));
            while s < block.rows.len()
                invariant
                    s <= block.rows@.len(),
                    rows == rows_view(block.rows@),
                    rows_fit(rows, self.schema.columns@.len()),
                    col_idx < self.schema.columns@.len(),
                    out@ == before + stored_column(rows, col_idx as int, s as int),
                decreases block.rows@.len() - s,
            {
                assert(rows[s as int] == row_view(block.rows@[s as int]@));
                assert(rows[s as int].len() == self.schema.columns@.len());
                assert(rows[s as int][col_idx as int] == block.rows@[s as int]@[col_idx as int]@);
                match to_stored(&block.rows[s][col_idx]) {
                    Some(x) => {
                        out.push(x);
                        assert(out@ =~= before + stored_column(rows, col_idx as int, s + 1));
                    },
                    None => {},
                }
                s = s + 1;
            }
            b = b + 1;
        }
        let ghost sealed = out@;
        let ghost rows = v.pending;
        let mut s: usize = 0;
        assert(out@ =~= sealed + buffered_column(rows, col_idx as int, 0));
        while s < self.pending.len()
            invariant
                s <= self.pending@.len(),
                rows == rows_view(self.pending@),
                rows_fit(rows, self.schema.columns@.len()),
                col_idx < self.schema.columns@.len(),
                out@ == sealed + buffered_column(rows, col_idx as int, s as int),
            decreases self.pending@.len() - s,
        {
            assert(rows[s as int] == row_view(self.pending@[s as int]@));
            assert(rows[s as int].len() == self.schema.columns@.len());
            assert(rows[s as int][col_idx as int] == self.pending@[s as int]@[col_idx as int]@);
            let x: Option<i64> = match &self.pending[s][col_idx] {
                Value::I64(x) => Some(*x),
                Value::U64(x) => Some(of_bits(*x)),
                Value::Bool(x) => Some(if *x {
                    1
                } else {
                    0
                }),
                _ => None,
            };
            match x {
                Some(x) => {
                    out.push(x);
                    assert(out@ =~= sealed + buffered_column(rows, col_idx as int, s + 1));
                },
                None => {},
            }
            s = s + 1;
        }
        Ok(out)
    }

    /// All rows: the buffered ones, then those of the sealed blocks.
    pub fn iter(&self) -> (r: Vec<Vec<Value>>)
        ensures
            rows_view(r@) == self@.pending + sealed_rows(self@.blocks, self@.blocks.len() as int),
    {
        let ghost v = self@;
        let mut out: Vec<Vec<Value>> = Vec::new();
        push_rows(&mut out, &self.pending);
        assert(rows_view(out@) =~= v.pending);
        let mut b: usize = 0;
        assert(rows_view(out@) =~= v.pending + sealed_rows(v.blocks, 0));
        while b < self.blocks.len()
            invariant
                b <= self.blocks@.len(),
                v.blocks == blocks_view(self.blocks@),
                rows_view(out@) == v.pending + sealed_rows(v.blocks, b as int),
            decreases self.blocks@.len() - b,
        {
            let ghost before = rows_view(out@);
            push_rows(&mut out, &self.blocks[b].rows);
            assert(v.blocks[b as int] == rows_view(self.blocks@[b as int].rows@));
            b = b + 1;
            assert(rows_view(out@) =~= v.pending + sealed_rows(v.blocks, b as int));
        }
        out
    }

    /// The number of rows, buffered ones among them.
    pub fn row_count(&self) -> (r: usize)
        requires
            self@.pending.len() + sealed_rows(self@.blocks, self@.blocks.len() as int).len()
                <= usize::MAX,
        ensures
            r == self@.pending.len() + sealed_rows(self@.blocks, self@.blocks.len() as int).len(),
    {
        let ghost v = self@;
        let ghost n = v.blocks.len() as int;
        let mut total: usize = self.pending.len();
        let mut b: usize = 0;
        while b < self.blocks.len()
            invariant
                b <= self.blocks@.len(),
                n == v.blocks.len() == self.blocks@.len(),
                v.blocks == blocks_view(self.blocks@),
                v.pending.len() + sealed_rows(v.blocks, n).len() <= usize::MAX,
                total == v.pending.len() + sealed_rows(v.blocks, b as int).len(),
            decreases self.blocks@.len() - b,
        {
            assert(v.blocks[b as int] == rows_view(self.blocks@[b as int].rows@));
            proof {
                lemma_rows_grow(v.blocks, b + 1, n);
            }
            total = total + self.blocks[b].rows.len();
            b = b + 1;
        }
        total
    }

    /// The number of sealed blocks.
    pub fn block_count(&self) -> (r: usize)
        ensures
            r == self@.blocks.len(),
    {
        self.blocks.len()
    }
}

/// Adds copies of rows.
fn push_rows(out: &mut Vec<Vec<Value>>, rows: &Vec<Vec<Value>>)
    ensures
        rows_view(final(out)@) == rows_view(old(out)@) + rows_view(rows@),
{
    let ghost before = rows_view(out@);
    let mut i: usize = 0;
    assert(rows_view(out@) =~= before + rows_view(rows@).take(0));
    while i < rows.len()
        invariant
            i <= rows@.len(),
            rows_view(out@) == before + rows_view(rows@).take(i as int),
        decreases rows@.len() - i,
    {
        let ghost here = out@;
        let row: Vec<Value> = copy_row(&rows[i]);
        out.push(row);
        assert(rows_view(out@) =~= rows_view(here).push(row_view(row@)));
        i = i + 1;
        assert(rows_view(rows@).take(i as int) =~= rows_view(rows@).take(i - 1).push(
            rows_view(rows@)[i - 1],
        ));
        assert(rows_view(out@) =~= before + rows_view(rows@).take(i as int));
    }
    assert(rows_view(rows@).take(i as int) =~= rows_view(rows@));
}

proof fn lemma_rows_grow(blocks: Seq<Seq<Row>>, m: int, n: int)
    requires
        0 <= m <= n,
    ensures
        sealed_rows(blocks, m).len() <= sealed_rows(blocks, n).len(),
    decreases n,
{
    if m < n {
        lemma_rows_grow(blocks, m, n - 1);
    }
}

proof fn lemma_last_keyed(rows: Seq<Row>, pk_idx: int, pk: i64, n: int)
    requires
        0 <= n <= rows.len(),
    ensures
        match last_keyed(rows, pk_idx, pk, n) {
            Some(s) => 0 <= s < n && index_key(rows[s][pk_idx]) == pk,
            None => true,
        },
    decreases n,
{
    if n > 0 {
        lemma_last_keyed(rows, pk_idx, pk, n - 1);
    }
}

proof fn lemma_sealed_place(blocks: Seq<Seq<Row>>, pk_idx: int, pk: i64, n: int)
    requires
        0 <= n <= blocks.len(),
    ensures
        match sealed_place(blocks, pk_idx, pk, n) {
            Some(p) => 0 <= p.0 < n && 0 <= p.1 < blocks[p.0].len(),
            None => true,
        },
    decreases n,
{
    if n > 0 {
        lemma_last_keyed(blocks[n - 1], pk_idx, pk, blocks[n - 1].len() as int);
        lemma_sealed_place(blocks, pk_idx, pk, n - 1);
    }
}

proof fn lemma_sealed_prefix(
    a: Seq<Seq<Row>>,
    b: Seq<Seq<Row>>,
    pk_idx: int,
    pk: i64,
    n: int,
)
    requires
        0 <= n <= a.len(),
        n <= b.len(),
        forall|i: int| 0 <= i < n ==> #[trigger] a[i] == b[i],
    ensures
        sealed_place(a, pk_idx, pk, n) == sealed_place(b, pk_idx, pk, n),
    decreases n,
{
    if n > 0 {
        assert(a[n - 1] == b[n - 1]);
        lemma_sealed_prefix(a, b, pk_idx, pk, n - 1);
    }
}

proof fn lemma_signed_keys(rows: Seq<Row>, pk_idx: int, pk: i64, n: int)
    requires
        0 <= n <= rows.len(),
        forall|i: int| 0 <= i < n ==> (#[trigger] rows[i])[pk_idx] is I64,
    ensures
        last_pending(rows, pk_idx, pk, n) == last_keyed(rows, pk_idx, pk, n),
    decreases n,
{
    if n > 0 {
        lemma_signed_keys(rows, pk_idx, pk, n - 1);
        assert(rows[n - 1][pk_idx] is I64);
    }
}

/// A row with a signed primary key is found under it from the moment it is
/// inserted.
pub proof fn law_inserted_row_is_found(v: TableView, pk_idx: int, pk: i64, row: Row)
    requires
        row[pk_idx] == ValueView::I64(pk),
    ensures
        row_with(TableView { pending: v.pending.push(row), ..v }, pk_idx, pk) == Some(row),
{
    let w = TableView { pending: v.pending.push(row), ..v };
    assert(w.pending[w.pending.len() - 1] == row);
}

/// Where the buffered rows have signed primary keys, sealing them changes no
/// lookup.
pub proof fn law_flush_keeps_lookups(v: TableView, pk_idx: int, pk: i64)
    requires
        forall|i: int| 0 <= i < v.pending.len() ==> (#[trigger] v.pending[i])[pk_idx] is I64,
    ensures
        row_with(flushed(v), pk_idx, pk) == row_with(v, pk_idx, pk),
{
    if v.pending.len() > 0 {
        let w = flushed(v);
        let n = v.blocks.len() as int;
        lemma_signed_keys(v.pending, pk_idx, pk, v.pending.len() as int);
        lemma_sealed_prefix(w.blocks, v.blocks, pk_idx, pk, n);
        lemma_sealed_place(v.blocks, pk_idx, pk, n);
        lemma_last_keyed(v.pending, pk_idx, pk, v.pending.len() as int);
        assert(w.blocks[n] == v.pending);
    }
}

/// Builds blocks without a table.
pub struct RelationalProjection;

impl RelationalProjection {
    /// The block with the given rows.
    pub fn build_block(rows: &Vec<Vec<Value>>) -> (r: RowBlock)
        ensures
            rows_view(r.rows@) == rows_view(rows@),
    {
        let mut out: Vec<Vec<Value>> = Vec::new();
        push_rows(&mut out, rows);
        assert(rows_view(out@) =~= rows_view(rows@));
        RowBlock { rows: out }
    }
}

} // verus!
