//! Time-series projection: readings in blocks, each with the range of its
//! timestamps and series, so that a scan can skip the blocks outside its own
//! range.
//!
//! The value of a reading is a double-precision number, held as its bits.

use vstd::prelude::*;

use crate::error::CenResult;
use crate::ids::{BlockId, SegmentId};
use crate::projection::column::{ColumnSpec, ValueKind};
use crate::sequences::lemma_filter_push;

verus! {

/// A reading: timestamp, series, and the bits of its value.
pub type Reading = (i64, i64, u64);

/// The columns of a time-series table.
#[derive(Debug)]
pub struct TimeSeriesSchema {
    /// The number of the timestamp column.
    pub ts_col_id: u32,
    /// The number of the series column, which is the primary key.
    pub series_col_id: u32,
    /// The other columns.
    pub extra_cols: Vec<ColumnSpec>,
}

impl TimeSeriesSchema {
    /// The columns in order: timestamp, series, then the others.
    pub fn to_specs(&self) -> (r: Vec<ColumnSpec>)
        ensures
            r@ == seq![
                (ColumnSpec {
                    col_id: self.ts_col_id,
                    kind: ValueKind::Timestamp,
                    is_pk: false,
                    is_ts: true,
                }),
                (ColumnSpec {
                    col_id: self.series_col_id,
                    kind: ValueKind::I64,
                    is_pk: true,
                    is_ts: false,
                }),
            ] + self.extra_cols@,
    {
        let mut specs: Vec<ColumnSpec> = Vec::new();
        specs.push(ColumnSpec::new(self.ts_col_id, ValueKind::Timestamp).ts());
        specs.push(ColumnSpec::new(self.series_col_id, ValueKind::I64).pk());
        let ghost head = specs@;
        let mut i: usize = 0;
        assert(specs@ =~= head + self.extra_cols@.take(0));
        while i < self.extra_cols.len()
            invariant
                i <= self.extra_cols@.len(),
                specs@ == head + self.extra_cols@.take(i as int),
            decreases self.extra_cols@.len() - i,
        {
            specs.push(self.extra_cols[i]);
            i = i + 1;
            assert(specs@ =~= head + self.extra_cols@.take(i as int));
        }
        assert(self.extra_cols@.take(i as int) =~= self.extra_cols@);
        specs
    }
}

/// What is known of a block without reading it.
#[derive(Clone, Copy, Debug)]
pub struct TsBlockSummary {
    pub block_id: BlockId,
    pub min_ts: i64,
    pub max_ts: i64,
    pub min_series: i64,
    pub max_series: i64,
    pub row_count: u32,
}

/// Whether `a` goes before `b`: by series, then by timestamp.
pub open spec fn reading_before(a: Reading, b: Reading) -> bool {
    a.1 < b.1 || (a.1 == b.1 && a.0 < b.0)
}

/// Where a reading goes among the first `n` sorted ones: behind all that it
/// does not go before.
pub open spec fn reading_place(sorted: Seq<Reading>, x: Reading, n: int) -> int
    decreases n,
{
    if n > 0 && reading_before(x, sorted[n - 1]) {
        reading_place(sorted, x, n - 1)
    } else {
        n
    }
}

/// The first `n` readings sorted by series and timestamp; equal ones keep
/// their order.
pub open spec fn sorted_readings(rows: Seq<Reading>, n: int) -> Seq<Reading>
    decreases n,
{
    if n <= 0 {
        seq![]
    } else {
        let before = sorted_readings(rows, n - 1);
        before.insert(reading_place(before, rows[n - 1], before.len() as int), rows[n - 1])
    }
}

/// How many readings go into a block: as many as its usable bytes hold at 24
/// bytes each, but at least one.
pub open spec fn rows_per_block(block_size: u32) -> int {
    if block_size >= 512 + 24 {
        (block_size - 512) / 24
    } else {
        1
    }
}

/// The readings from `start` on, cut into blocks of at most `size`.
pub open spec fn pieces(rows: Seq<Reading>, start: int, size: int) -> Seq<Seq<Reading>>
    decreases rows.len() - start,
{
    if start < 0 || start >= rows.len() || size <= 0 {
        seq![]
    } else {
        let end = if start + size < rows.len() {
            start + size
        } else {
            rows.len() as int
        };
        seq![rows.subrange(start, end)] + pieces(rows, end, size)
    }
}

/// What a store holds: its blocks of readings, and the buffered ones.
#[verifier::ext_equal]
pub struct SeriesView {
    pub blocks: Seq<Seq<Reading>>,
    pub pending: Seq<Reading>,
}

/// The store after its buffered readings were sealed.
pub open spec fn series_sealed(v: SeriesView, block_size: u32) -> SeriesView {
    SeriesView {
        blocks: v.blocks + pieces(
            sorted_readings(v.pending, v.pending.len() as int),
            0,
            rows_per_block(block_size),
        ),
        pending: seq![],
    }
}

/// The store after one more reading: a full buffer is sealed.
pub open spec fn series_appended(v: SeriesView, x: Reading, capacity: int, block_size: u32) -> SeriesView {
    let w = SeriesView { pending: v.pending.push(x), ..v };
    if w.pending.len() >= capacity {
        series_sealed(w, block_size)
    } else {
        w
    }
}

/// The store after the first `n` of some readings.
pub open spec fn batch_appended(
    v: SeriesView,
    xs: Seq<Reading>,
    n: int,
    capacity: int,
    block_size: u32,
) -> SeriesView
    decreases n,
{
    if n <= 0 {
        v
    } else {
        series_appended(
            batch_appended(v, xs, n - 1, capacity, block_size),
            xs[n - 1],
            capacity,
            block_size,
        )
    }
}

/// The readings of the first `n` blocks.
pub open spec fn block_readings(blocks: Seq<Seq<Reading>>, n: int) -> Seq<Reading>
    decreases n,
{
    if n <= 0 {
        seq![]
    } else {
        block_readings(blocks, n - 1) + blocks[n - 1]
    }
}

/// All readings: those of the blocks, then the buffered ones.
pub open spec fn all_readings(v: SeriesView) -> Seq<Reading> {
    block_readings(v.blocks, v.blocks.len() as int) + v.pending
}

/// Whether a timestamp is from `lo` to `hi`.
pub open spec fn in_range(lo: i64, hi: i64) -> spec_fn(Reading) -> bool {
    |x: Reading| lo <= x.0 <= hi
}

/// Whether a reading is of the series and its timestamp from `lo` to `hi`.
pub open spec fn of_series(series_id: i64, lo: i64, hi: i64) -> spec_fn(Reading) -> bool {
    |x: Reading| x.1 == series_id && lo <= x.0 <= hi
}

/// The least timestamp of the first `n` readings.
pub open spec fn min_ts_of(rows: Seq<Reading>, n: int) -> i64
    decreases n,
{
    if n <= 1 {
        rows[0].0
    } else if rows[n - 1].0 < min_ts_of(rows, n - 1) {
        rows[n - 1].0
    } else {
        min_ts_of(rows, n - 1)
    }
}

/// The greatest timestamp of the first `n` readings.
pub open spec fn max_ts_of(rows: Seq<Reading>, n: int) -> i64
    decreases n,
{
    if n <= 1 {
        rows[0].0
    } else if rows[n - 1].0 > max_ts_of(rows, n - 1) {
        rows[n - 1].0
    } else {
        max_ts_of(rows, n - 1)
    }
}

/// The least series of the first `n` readings.
pub open spec fn min_series_of(rows: Seq<Reading>, n: int) -> i64
    decreases n,
{
    if n <= 1 {
        rows[0].1
    } else if rows[n - 1].1 < min_series_of(rows, n - 1) {
        rows[n - 1].1
    } else {
        min_series_of(rows, n - 1)
    }
}

/// The greatest series of the first `n` readings.
pub open spec fn max_series_of(rows: Seq<Reading>, n: int) -> i64
    decreases n,
{
    if n <= 1 {
        rows[0].1
    } else if rows[n - 1].1 > max_series_of(rows, n - 1) {
        rows[n - 1].1
    } else {
        max_series_of(rows, n - 1)
    }
}

/// The summary of a block.
pub open spec fn summary_of(rows: Seq<Reading>, number: int) -> TsBlockSummary {
    let n = rows.len() as int;
    TsBlockSummary {
        block_id: BlockId(number as u32),
        min_ts: min_ts_of(rows, n),
        max_ts: max_ts_of(rows, n),
        min_series: min_series_of(rows, n),
        max_series: max_series_of(rows, n),
        row_count: n as u32,
    }
}

/// Whether a block's timestamps may be from `lo` to `hi`.
pub open spec fn overlaps(s: TsBlockSummary, lo: i64, hi: i64) -> bool {
    s.max_ts >= lo && s.min_ts <= hi
}

/// Whether a block may hold readings of the series.
pub open spec fn may_hold(s: TsBlockSummary, series_id: i64) -> bool {
    s.min_series <= series_id <= s.max_series
}

/// How many of the first `n` blocks a scan by time reads.
pub open spec fn touched_blocks(summaries: Seq<TsBlockSummary>, lo: i64, hi: i64, n: int) -> nat
    decreases n,
{
    if n <= 0 {
        0
    } else {
        touched_blocks(summaries, lo, hi, n - 1) + if overlaps(summaries[n - 1], lo, hi) {
            1nat
        } else {
            0nat
        }
    }
}

/// How many of the first `n` blocks a scan by time and series reads.
pub open spec fn touched_for_series(
    summaries: Seq<TsBlockSummary>,
    series_id: i64,
    lo: i64,
    hi: i64,
    n: int,
) -> nat
    decreases n,
{
    if n <= 0 {
        0
    } else {
        touched_for_series(summaries, series_id, lo, hi, n - 1) + if overlaps(
            summaries[n - 1],
            lo,
            hi,
        ) && may_hold(summaries[n - 1], series_id) {
            1nat
        } else {
            0nat
        }
    }
}

proof fn lemma_bounds(rows: Seq<Reading>, n: int, i: int)
    requires
        0 <= i < n <= rows.len(),
    ensures
        min_ts_of(rows, n) <= rows[i].0 <= max_ts_of(rows, n),
        min_series_of(rows, n) <= rows[i].1 <= max_series_of(rows, n),
    decreases n,
{
    if i < n - 1 {
        lemma_bounds(rows, n - 1, i);
    }
    if n > 1 {
        if i == n - 1 {
            lemma_bounds(rows, n - 1, 0);
        }
    }
}

proof fn lemma_filter_none(s: Seq<Reading>, p: spec_fn(Reading) -> bool)
    requires
        forall|i: int| 0 <= i < s.len() ==> !p(#[trigger] s[i]),
    ensures
        s.filter(p) == Seq::<Reading>::empty(),
    decreases s.len(),
{
    reveal(Seq::filter);
    if s.len() > 0 {
        let t = s.drop_last();
        assert forall|i: int| 0 <= i < t.len() implies !p(#[trigger] t[i]) by {
            assert(t[i] == s[i]);
        }
        lemma_filter_none(t, p);
        assert(!p(s[s.len() - 1]));
    }
}

proof fn lemma_filter_concat(a: Seq<Reading>, b: Seq<Reading>, p: spec_fn(Reading) -> bool)
    ensures
        (a + b).filter(p) == a.filter(p) + b.filter(p),
    decreases b.len(),
{
    reveal(Seq::filter);
    if b.len() == 0 {
        assert(a + b =~= a);
        assert(a.filter(p) + b.filter(p) =~= a.filter(p));
    } else {
        let front = b.drop_last();
        lemma_filter_concat(a, front, p);
        assert(b =~= front.push(b.last()));
        assert(a + b =~= (a + front).push(b.last()));
        lemma_filter_push(a + front, b.last(), p);
        lemma_filter_push(front, b.last(), p);
        if p(b.last()) {
            assert((a.filter(p) + front.filter(p)).push(b.last()) =~= a.filter(p) + front.filter(
                p,
            ).push(b.last()));
        }
    }
}

/// A block whose summary lies outside a range of time holds no reading in it.
pub proof fn law_skipped_block_is_empty(rows: Seq<Reading>, number: int, lo: i64, hi: i64)
    requires
        rows.len() > 0,
        !overlaps(summary_of(rows, number), lo, hi),
    ensures
        rows.filter(in_range(lo, hi)) == Seq::<Reading>::empty(),
{
    assert forall|i: int| 0 <= i < rows.len() implies !in_range(lo, hi)(#[trigger] rows[i]) by {
        lemma_bounds(rows, rows.len() as int, i);
    }
    lemma_filter_none(rows, in_range(lo, hi));
}

/// A block whose summary lies outside a range of time or excludes a series
/// holds no reading of that series in the range.
pub proof fn law_skipped_series_block_is_empty(
    rows: Seq<Reading>,
    number: int,
    series_id: i64,
    lo: i64,
    hi: i64,
)
    requires
        rows.len() > 0,
        !(overlaps(summary_of(rows, number), lo, hi) && may_hold(
            summary_of(rows, number),
            series_id,
        )),
    ensures
        rows.filter(of_series(series_id, lo, hi)) == Seq::<Reading>::empty(),
{
    assert forall|i: int| 0 <= i < rows.len() implies !of_series(series_id, lo, hi)(
        #[trigger] rows[i],
    ) by {
        lemma_bounds(rows, rows.len() as int, i);
    }
    lemma_filter_none(rows, of_series(series_id, lo, hi));
}

/// A sealed block of readings.
#[derive(Debug)]
pub struct TsBlock {
    pub rows: Vec<Reading>,
}

/// The readings of each block.
pub open spec fn ts_blocks(blocks: Seq<TsBlock>) -> Seq<Seq<Reading>> {
    blocks.map_values(|b: TsBlock| b.rows@)
}

/// A store of readings.
pub struct TimeSeriesStore {
    schema: TimeSeriesSchema,
    segment_id: SegmentId,
    block_size: u32,
    blocks: Vec<TsBlock>,
    summaries: Vec<TsBlockSummary>,
    pending: Vec<Reading>,
    pending_capacity: usize,
}

impl View for TimeSeriesStore {
    type V = SeriesView;

    closed spec fn view(&self) -> SeriesView {
        SeriesView { blocks: ts_blocks(self.blocks@), pending: self.pending@ }
    }
}

impl TimeSeriesStore {
    /// The summaries of the blocks.
    pub closed spec fn summaries(&self) -> Seq<TsBlockSummary> {
        self.summaries@
    }

    /// How many readings are buffered before they are sealed.
    pub closed spec fn capacity(&self) -> usize {
        self.pending_capacity
    }

    /// The size of a block in bytes.
    pub closed spec fn size(&self) -> u32 {
        self.block_size
    }

    /// The numbers of the timestamp and the series column, and the other
    /// columns.
    pub closed spec fn columns(&self) -> (u32, u32, Seq<ColumnSpec>) {
        (self.schema.ts_col_id, self.schema.series_col_id, self.schema.extra_cols@)
    }

    /// Every block holds readings and has its summary.
    pub open spec fn wf(&self) -> bool {
        &&& self.summaries().len() == self@.blocks.len()
        &&& self@.blocks.len() <= u32::MAX
        &&& forall|i: int|
            0 <= i < self@.blocks.len() ==> (#[trigger] self@.blocks[i]).len() > 0
                && self.summaries()[i] == summary_of(self@.blocks[i], i)
    }

    /// Whether block numbers suffice for the blocks and `extra` more readings.
    pub open spec fn has_room(&self, extra: int) -> bool {
        self@.blocks.len() + self@.pending.len() + extra <= u32::MAX
    }

    /// What no operation on readings changes.
    pub open spec fn same_setup(&self, other: &TimeSeriesStore) -> bool {
        &&& self.capacity() == other.capacity()
        &&& self.size() == other.size()
        &&& self.columns() == other.columns()
    }

    /// An empty store, which buffers up to 1024 readings.
    pub fn new(schema: TimeSeriesSchema, segment_id: SegmentId, block_size: u32) -> (res: Self)
        ensures
            res.wf(),
            res.capacity() == 1024,
            res.size() == block_size,
            res.columns() == (schema.ts_col_id, schema.series_col_id, schema.extra_cols@),
            res@ == (SeriesView { blocks: seq![], pending: seq![] }),
    {
        let res = TimeSeriesStore {
            schema,
            segment_id,
            block_size,
            blocks: Vec::new(),
            summaries: Vec::new(),
            pending: Vec::new(),
            pending_capacity: 1024,
        };
        assert(res@ =~= (SeriesView { blocks: seq![], pending: seq![] }));
        res
    }

    /// The store with another bound on the buffered readings.
    pub fn with_pending_capacity(self, cap: usize) -> (res: Self)
        requires
            self.wf(),
        ensures
            res.wf(),
            res.capacity() == cap,
            res.size() == self.size(),
            res.columns() == self.columns(),
            res.summaries() == self.summaries(),
            res@ == self@,
    {
        let mut res: TimeSeriesStore = self;
        res.pending_capacity = cap;
        res
    }

    /// Adds a reading. It is buffered; a full buffer is sealed.
    pub fn append(&mut self, ts: i64, series_id: i64, value: u64) -> (r: CenResult<()>)
        requires
            old(self).wf(),
            old(self).has_room(1),
        ensures
            final(self).wf(),
            final(self).same_setup(old(self)),
            r is Ok,
            final(self)@ == series_appended(
                old(self)@,
                (ts, series_id, value),
                old(self).capacity() as int,
                old(self).size(),
            ),
            final(self)@.blocks.len() + final(self)@.pending.len() <= old(self)@.blocks.len()
                + old(self)@.pending.len() + 1,
    {
        self.pending.push((ts, series_id, value));
        assert(self@ =~= (SeriesView {
            pending: old(self)@.pending.push((ts, series_id, value)),
            ..old(self)@
        }));
        if self.pending.len() >= self.pending_capacity {
            self.flush_pending()
        } else {
            Ok(())
        }
    }

    /// Adds readings in their order.
    pub fn append_batch(&mut self, readings: &[Reading]) -> (r: CenResult<()>)
        requires
            old(self).wf(),
            old(self).has_room(readings@.len() as int),
        ensures
            final(self).wf(),
            final(self).same_setup(old(self)),
            r is Ok,
            final(self)@ == batch_appended(
                old(self)@,
                readings@,
                readings@.len() as int,
                old(self).capacity() as int,
                old(self).size(),
            ),
    {
        let ghost cap = self.capacity() as int;
        let ghost size = self.size();
        let mut i: usize = 0;
        while i < readings.len()
            invariant
                i <= readings@.len(),
                self.wf(),
                self.same_setup(old(self)),
                cap == old(self).capacity(),
                size == old(self).size(),
                old(self).has_room(readings@.len() as int),
                self@.blocks.len() + self@.pending.len() <= old(self)@.blocks.len() + old(
                    self,
                )@.pending.len() + i,
                self@ == batch_appended(old(self)@, readings@, i as int, cap, size),
            decreases readings@.len() - i,
        {
            let x: Reading = readings[i];
            let _done: CenResult<()> = self.append(x.0, x.1, x.2);
            i = i + 1;
        }
        Ok(())
    }

    /// Seals the buffered readings, sorted by series and timestamp, into blocks
    /// of as many readings as a block holds.
    pub fn flush_pending(&mut self) -> (r: CenResult<()>)
        requires
            old(self).wf(),
            old(self).has_room(0),
        ensures
            final(self).wf(),
            final(self).same_setup(old(self)),
            r is Ok,
            final(self)@ == series_sealed(old(self)@, old(self).size()),
            final(self)@.blocks.len() <= old(self)@.blocks.len() + old(self)@.pending.len(),
    {
        let ghost v = self@;
        let ghost count = v.pending.len() as int;
        let sorted: Vec<Reading> = sort_readings(&self.pending);
        let ghost rows = sorted@;
        proof {
            lemma_sorted_len(v.pending, count);
        }
        let per: usize = if self.block_size >= 512 + 24 {
            ((self.block_size - 512) / 24) as usize
        } else {
            1
        };
        let mut start: usize = 0;
        assert(v.blocks + pieces(rows, 0, per as int) == series_sealed(v, self.block_size).blocks);
        while start < sorted.len()
            invariant
                start <= sorted@.len(),
                rows == sorted@,
                rows.len() == count,
                per > 0,
                per <= 0xffff_ffff,
                self.same_setup(old(self)),
                v.blocks.len() + count <= u32::MAX,
                self.wf(),
                self@.blocks.len() <= v.blocks.len() + start,
                self@.blocks + pieces(rows, start as int, per as int) == v.blocks + pieces(
                    rows,
                    0,
                    per as int,
                ),
            decreases sorted@.len() - start,
        {
            let n: usize = sorted.len();
            let end: usize = if n - start > per {
                start + per
            } else {
                n
            };
            let ghost piece = rows.subrange(start as int, end as int);
            let block: TsBlock = copy_block(&sorted, start, end);
            let number: u32 = self.blocks.len() as u32;
            let summary: TsBlockSummary = summarize(&block, number);
            let ghost here = self@;
            let ghost blocks_before = self.blocks@;
            let ghost sums_before = self.summaries@;
            self.summaries.push(summary);
            self.blocks.push(block);
            proof {
                assert(ts_blocks(self.blocks@) =~= ts_blocks(blocks_before).push(piece));
                assert(self@.blocks == here.blocks.push(piece));
                assert(self@.blocks + pieces(rows, end as int, per as int) =~= here.blocks + pieces(
                    rows,
                    start as int,
                    per as int,
                ));
                assert forall|i: int| 0 <= i < self@.blocks.len() implies (
                #[trigger] self@.blocks[i]).len() > 0 && self.summaries()[i] == summary_of(
                    self@.blocks[i],
                    i,
                ) by {
                    if i < here.blocks.len() {
                        assert(self@.blocks[i] == here.blocks[i]);
                        assert(self.summaries()[i] == sums_before[i]);
                    }
                }
            }
            start = end;
        }
        proof {
            assert(pieces(rows, start as int, per as int) =~= seq![]);
            assert(self@.blocks =~= v.blocks + pieces(rows, 0, per as int));
        }
        let ghost done = self@;
        self.pending = Vec::new();
        proof {
            assert(self@.blocks == done.blocks);
            assert(self@ =~= series_sealed(v, self.block_size));
        }
        Ok(())
    }

    /// The readings with timestamps from `lo` to `hi`: those of the blocks,
    /// then the buffered ones. Returns how many blocks were read, too: only
    /// those whose range of time overlaps.
    pub fn range_scan(&self, lo: i64, hi: i64) -> (r: CenResult<(usize, Vec<Reading>)>)
        requires
            self.wf(),
        ensures
            r is Ok,
            r->Ok_0.0 == touched_blocks(
                self.summaries(),
                lo,
                hi,
                self.summaries().len() as int,
            ),
            (r->Ok_0.1)@ == all_readings(self@).filter(in_range(lo, hi)),
    {
        let ghost v = self@;
        let ghost p = in_range(lo, hi);
        let mut out: Vec<Reading> = Vec::new();
        let mut touched: usize = 0;
        let mut b: usize = 0;
        proof {
            reveal(Seq::filter);
            assert(out@ =~= block_readings(v.blocks, 0).filter(p));
        }
        while b < self.summaries.len()
            invariant
                b <= self.summaries@.len(),
                self.wf(),
                v == self@,
                v.blocks == ts_blocks(self.blocks@),
                p == in_range(lo, hi),
                touched <= b,
                touched == touched_blocks(self.summaries@, lo, hi, b as int),
                out@ == block_readings(v.blocks, b as int).filter(p),
            decreases self.summaries@.len() - b,
        {
            let s: TsBlockSummary = self.summaries[b];
            let ghost rows = v.blocks[b as int];
            proof {
                assert(v.blocks[b as int].len() > 0);
                lemma_filter_concat(block_readings(v.blocks, b as int), rows, p);
            }
            if !(s.max_ts < lo || s.min_ts > hi) {
                touched = touched + 1;
                assert(rows == self.blocks@[b as int].rows@);
                push_in_range(&mut out, &self.blocks[b].rows, lo, hi);
            } else {
                proof {
                    law_skipped_block_is_empty(rows, b as int, lo, hi);
                    assert(block_readings(v.blocks, b as int).filter(p) + rows.filter(p)
                        =~= block_readings(v.blocks, b as int).filter(p));
                }
            }
            b = b + 1;
        }
        push_in_range(&mut out, &self.pending, lo, hi);
        proof {
            lemma_filter_concat(
                block_readings(v.blocks, v.blocks.len() as int),
                v.pending,
                p,
            );
        }
        Ok((touched, out))
    }

    /// The readings of one series with timestamps from `lo` to `hi`, as
    /// timestamp and value: those of the blocks, then the buffered ones.
    /// Returns how many blocks were read, too: only those whose ranges of time
    /// and series overlap.
    pub fn range_scan_for_series(&self, series_id: i64, lo: i64, hi: i64) -> (r: CenResult<
        (usize, Vec<(i64, u64)>),
    >)
        requires
            self.wf(),
        ensures
            r is Ok,
            r->Ok_0.0 == touched_for_series(
                self.summaries(),
                series_id,
                lo,
                hi,
                self.summaries().len() as int,
            ),
            (r->Ok_0.1)@ == all_readings(self@).filter(of_series(series_id, lo, hi)).map_values(
                |x: Reading| (x.0, x.2),
            ),
    {
        let ghost v = self@;
        let ghost p = of_series(series_id, lo, hi);
        let ghost f = |x: Reading| (x.0, x.2);
        let mut out: Vec<(i64, u64)> = Vec::new();
        let mut touched: usize = 0;
        let mut b: usize = 0;
        proof {
            reveal(Seq::filter);
            assert(out@ =~= block_readings(v.blocks, 0).filter(p).map_values(f));
        }
        while b < self.summaries.len()
            invariant
                b <= self.summaries@.len(),
                self.wf(),
                v == self@,
                v.blocks == ts_blocks(self.blocks@),
                p == of_series(series_id, lo, hi),
                f == (|x: Reading| (x.0, x.2)),
                touched <= b,
                touched == touched_for_series(self.summaries@, series_id, lo, hi, b as int),
                out@ == block_readings(v.blocks, b as int).filter(p).map_values(f),
            decreases self.summaries@.len() - b,
        {
            let s: TsBlockSummary = self.summaries[b];
            let ghost rows = v.blocks[b as int];
            let ghost before = block_readings(v.blocks, b as int).filter(p);
            proof {
                assert(v.blocks[b as int].len() > 0);
                lemma_filter_concat(block_readings(v.blocks, b as int), rows, p);
            }
            if !(s.max_ts < lo || s.min_ts > hi) && !(series_id < s.min_series || series_id
                > s.max_series) {
                touched = touched + 1;
                assert(rows == self.blocks@[b as int].rows@);
                push_of_series(&mut out, &self.blocks[b].rows, series_id, lo, hi);
                assert(before.map_values(f) + rows.filter(p).map_values(f) =~= (before
                    + rows.filter(p)).map_values(f));
            } else {
                proof {
                    law_skipped_series_block_is_empty(rows, b as int, series_id, lo, hi);
                    assert(before + rows.filter(p) =~= before);
                }
            }
            b = b + 1;
        }
        let ghost before = block_readings(v.blocks, v.blocks.len() as int).filter(p);
        push_of_series(&mut out, &self.pending, series_id, lo, hi);
        proof {
            lemma_filter_concat(
                block_readings(v.blocks, v.blocks.len() as int),
                v.pending,
                p,
            );
            assert(before.map_values(f) + v.pending.filter(p).map_values(f) =~= (before
                + v.pending.filter(p)).map_values(f));
        }
        Ok((touched, out))
    }

    /// The number of sealed blocks.
    pub fn block_count(&self) -> (r: usize)
        ensures
            r == self@.blocks.len(),
    {
        self.blocks.len()
    }

    /// A sealed block.
    pub fn block(&self, i: usize) -> (r: &TsBlock)
        requires
            i < self@.blocks.len(),
        ensures
            r.rows@ == self@.blocks[i as int],
    {
        &self.blocks[i]
    }

    /// The number of readings, buffered ones among them.
    pub fn row_count(&self) -> (r: usize)
        requires
            all_readings(self@).len() <= usize::MAX,
        ensures
            r == all_readings(self@).len(),
    {
        let ghost v = self@;
        let ghost n = v.blocks.len() as int;
        let mut total: usize = self.pending.len();
        let mut b: usize = 0;
        while b < self.blocks.len()
            invariant
                b <= self.blocks@.len(),
                n == v.blocks.len() == self.blocks@.len(),
                v.blocks == ts_blocks(self.blocks@),
                v.pending.len() + block_readings(v.blocks, n).len() <= usize::MAX,
                total == v.pending.len() + block_readings(v.blocks, b as int).len(),
            decreases self.blocks@.len() - b,
        {
            assert(v.blocks[b as int] == self.blocks@[b as int].rows@);
            proof {
                lemma_readings_grow(v.blocks, b + 1, n);
            }
            total = total + self.blocks[b].rows.len();
            b = b + 1;
        }
        total
    }

    /// Seals the store: no reading stays buffered.
    pub fn seal(&mut self) -> (r: CenResult<()>)
        requires
            old(self).wf(),
            old(self).has_room(0),
        ensures
            final(self).wf(),
            final(self).same_setup(old(self)),
            r is Ok,
            final(self)@ == series_sealed(old(self)@, old(self).size()),
    {
        self.flush_pending()
    }
}

/// Adds the readings with timestamps from `lo` to `hi`.
fn push_in_range(out: &mut Vec<Reading>, rows: &Vec<Reading>, lo: i64, hi: i64)
    ensures
        final(out)@ == old(out)@ + rows@.filter(in_range(lo, hi)),
{
    let ghost p = in_range(lo, hi);
    let mut i: usize = 0;
    proof {
        reveal(Seq::filter);
        assert(out@ =~= old(out)@ + rows@.take(0).filter(p));
    }
    while i < rows.len()
        invariant
            i <= rows@.len(),
            p == in_range(lo, hi),
            out@ == old(out)@ + rows@.take(i as int).filter(p),
        decreases rows@.len() - i,
    {
        let x: Reading = rows[i];
        proof {
            assert(rows@.take(i + 1) =~= rows@.take(i as int).push(x));
            lemma_filter_push(rows@.take(i as int), x, p);
        }
        if x.0 >= lo && x.0 <= hi {
            out.push(x);
            assert(out@ =~= old(out)@ + rows@.take(i + 1).filter(p));
        }
        i = i + 1;
    }
    assert(rows@.take(i as int) =~= rows@);
}

/// Adds timestamp and value of the readings of a series with timestamps from
/// `lo` to `hi`.
fn push_of_series(
    out: &mut Vec<(i64, u64)>,
    rows: &Vec<Reading>,
    series_id: i64,
    lo: i64,
    hi: i64,
)
    ensures
        final(out)@ == old(out)@ + rows@.filter(of_series(series_id, lo, hi)).map_values(
            |x: Reading| (x.0, x.2),
        ),
{
    let ghost p = of_series(series_id, lo, hi);
    let ghost f = |x: Reading| (x.0, x.2);
    let mut i: usize = 0;
    proof {
        reveal(Seq::filter);
        assert(out@ =~= old(out)@ + rows@.take(0).filter(p).map_values(f));
    }
    while i < rows.len()
        invariant
            i <= rows@.len(),
            p == of_series(series_id, lo, hi),
            f == (|x: Reading| (x.0, x.2)),
            out@ == old(out)@ + rows@.take(i as int).filter(p).map_values(f),
        decreases rows@.len() - i,
    {
        let x: Reading = rows[i];
        let ghost kept = rows@.take(i as int).filter(p);
        proof {
            assert(rows@.take(i + 1) =~= rows@.take(i as int).push(x));
            lemma_filter_push(rows@.take(i as int), x, p);
        }
        if x.1 == series_id && x.0 >= lo && x.0 <= hi {
            out.push((x.0, x.2));
            assert(kept.push(x).map_values(f) =~= kept.map_values(f).push((x.0, x.2)));
            assert(out@ =~= old(out)@ + rows@.take(i + 1).filter(p).map_values(f));
        }
        i = i + 1;
    }
    assert(rows@.take(i as int) =~= rows@);
}

proof fn lemma_readings_grow(blocks: Seq<Seq<Reading>>, m: int, n: int)
    requires
        0 <= m <= n,
    ensures
        block_readings(blocks, m).len() <= block_readings(blocks, n).len(),
    decreases n,
{
    if m < n {
        lemma_readings_grow(blocks, m, n - 1);
    }
}

proof fn lemma_reading_place(sorted: Seq<Reading>, x: Reading, n: int)
    requires
        0 <= n <= sorted.len(),
    ensures
        0 <= reading_place(sorted, x, n) <= n,
        forall|k: int|
            reading_place(sorted, x, n) <= k < n ==> reading_before(x, #[trigger] sorted[k]),
        reading_place(sorted, x, n) > 0 ==> !reading_before(
            x,
            sorted[reading_place(sorted, x, n) - 1],
        ),
    decreases n,
{
    if n > 0 && reading_before(x, sorted[n - 1]) {
        lemma_reading_place(sorted, x, n - 1);
    }
}

proof fn lemma_sorted_len(rows: Seq<Reading>, n: int)
    requires
        0 <= n <= rows.len(),
    ensures
        sorted_readings(rows, n).len() == n,
    decreases n,
{
    if n > 0 {
        lemma_sorted_len(rows, n - 1);
        let before = sorted_readings(rows, n - 1);
        lemma_reading_place(before, rows[n - 1], before.len() as int);
    }
}

/// Whether no reading goes before an earlier one.
pub open spec fn readings_in_order(rows: Seq<Reading>) -> bool {
    forall|i: int, j: int|
        0 <= i < j < rows.len() ==> !reading_before(#[trigger] rows[j], #[trigger] rows[i])
}

/// Sorting puts readings in order and neither loses nor adds any.
pub proof fn law_sorting_readings(rows: Seq<Reading>, n: int)
    requires
        0 <= n <= rows.len(),
    ensures
        readings_in_order(sorted_readings(rows, n)),
        sorted_readings(rows, n).to_multiset() == rows.take(n).to_multiset(),
    decreases n,
{
    broadcast use vstd::seq_lib::group_to_multiset_ensures;
    if n == 0 {
        assert(rows.take(0) =~= seq![]);
    } else {
        law_sorting_readings(rows, n - 1);
        let before = sorted_readings(rows, n - 1);
        let x = rows[n - 1];
        let p = reading_place(before, x, before.len() as int);
        lemma_reading_place(before, x, before.len() as int);
        let now = before.insert(p, x);
        vstd::seq_lib::to_multiset_insert(before, p, x);
        assert(rows.take(n) =~= rows.take(n - 1).push(x));
        assert forall|i: int, j: int| 0 <= i < j < now.len() implies !reading_before(
            #[trigger] now[j],
            #[trigger] now[i],
        ) by {
            if j == p {
                if i < p - 1 {
                    assert(!reading_before(before[p - 1], before[i]));
                }
            } else if i == p {
                assert(now[j] == before[j - 1]);
            } else {
                let i0 = if i < p { i } else { i - 1 };
                let j0 = if j < p { j } else { j - 1 };
                assert(now[i] == before[i0]);
                assert(now[j] == before[j0]);
            }
        }
    }
}

proof fn lemma_readings_prefix(a: Seq<Seq<Reading>>, b: Seq<Seq<Reading>>, n: int)
    requires
        0 <= n <= a.len(),
        n <= b.len(),
        forall|i: int| 0 <= i < n ==> #[trigger] a[i] == b[i],
    ensures
        block_readings(a, n) == block_readings(b, n),
    decreases n,
{
    if n > 0 {
        lemma_readings_prefix(a, b, n - 1);
        assert(a[n - 1] == b[n - 1]);
    }
}

proof fn lemma_pieces_hold_all(
    blocks: Seq<Seq<Reading>>,
    rows: Seq<Reading>,
    start: int,
    size: int,
)
    requires
        0 <= start <= rows.len(),
        size > 0,
    ensures
        ({
            let all = blocks + pieces(rows, start, size);
            block_readings(all, all.len() as int) == block_readings(blocks, blocks.len() as int)
                + rows.skip(start)
        }),
    decreases rows.len() - start,
{
    let all = blocks + pieces(rows, start, size);
    let n = blocks.len() as int;
    if start < rows.len() {
        let end = if start + size < rows.len() {
            start + size
        } else {
            rows.len() as int
        };
        let piece = rows.subrange(start, end);
        let more = blocks.push(piece);
        lemma_pieces_hold_all(more, rows, end, size);
        assert(more + pieces(rows, end, size) =~= all);
        lemma_readings_prefix(more, blocks, n);
        assert(more[n] == piece);
        assert(piece + rows.skip(end) =~= rows.skip(start));
        assert(block_readings(blocks, n) + piece + rows.skip(end) =~= block_readings(blocks, n)
            + rows.skip(start));
    } else {
        assert(all =~= blocks);
        assert(block_readings(blocks, n) + rows.skip(start) =~= block_readings(blocks, n));
    }
}

/// Sealing neither loses nor adds readings.
pub proof fn law_sealing_keeps_readings(v: SeriesView, block_size: u32)
    ensures
        all_readings(series_sealed(v, block_size)).to_multiset() == all_readings(v).to_multiset(),
{
    let n = v.pending.len() as int;
    let rows = sorted_readings(v.pending, n);
    let w = series_sealed(v, block_size);
    let front = block_readings(v.blocks, v.blocks.len() as int);
    lemma_pieces_hold_all(v.blocks, rows, 0, rows_per_block(block_size));
    assert(rows.skip(0) =~= rows);
    assert(all_readings(w) =~= front + rows);
    law_sorting_readings(v.pending, n);
    assert(v.pending.take(n) =~= v.pending);
    vstd::seq_lib::lemma_multiset_commutative(front, rows);
    vstd::seq_lib::lemma_multiset_commutative(front, v.pending);
}

/// Sorts readings by series and timestamp; equal ones keep their order.
fn sort_readings(rows: &Vec<Reading>) -> (r: Vec<Reading>)
    ensures
        r@ == sorted_readings(rows@, rows@.len() as int),
{
    let mut out: Vec<Reading> = Vec::new();
    let mut n: usize = 0;
    while n < rows.len()
        invariant
            n <= rows@.len(),
            out@ == sorted_readings(rows@, n as int),
        decreases rows@.len() - n,
    {
        let x: Reading = rows[n];
        let mut p: usize = out.len();
        while p > 0 && (x.1 < out[p - 1].1 || (x.1 == out[p - 1].1 && x.0 < out[p - 1].0))
            invariant
                p <= out@.len(),
                reading_place(out@, x, p as int) == reading_place(out@, x, out@.len() as int),
            decreases p,
        {
            p = p - 1;
        }
        out.insert(p, x);
        n = n + 1;
    }
    out
}

/// The block with the readings `start` to `end`.
fn copy_block(rows: &Vec<Reading>, start: usize, end: usize) -> (r: TsBlock)
    requires
        start <= end <= rows@.len(),
    ensures
        r.rows@ == rows@.subrange(start as int, end as int),
{
    let mut out: Vec<Reading> = Vec::new();
    let mut i: usize = start;
    while i < end
        invariant
            start <= i <= end <= rows@.len(),
            out@ == rows@.subrange(start as int, i as int),
        decreases end - i,
    {
        out.push(rows[i]);
        i = i + 1;
        assert(out@ =~= rows@.subrange(start as int, i as int));
    }
    TsBlock { rows: out }
}

/// The summary of a block.
fn summarize(block: &TsBlock, number: u32) -> (r: TsBlockSummary)
    requires
        0 < block.rows@.len() <= u32::MAX,
    ensures
        r == summary_of(block.rows@, number as int),
{
    let ghost rows = block.rows@;
    let first: Reading = block.rows[0];
    let mut min_ts: i64 = first.0;
    let mut max_ts: i64 = first.0;
    let mut min_series: i64 = first.1;
    let mut max_series: i64 = first.1;
    let mut i: usize = 1;
    while i < block.rows.len()
        invariant
            1 <= i <= block.rows@.len(),
            rows == block.rows@,
            min_ts == min_ts_of(rows, i as int),
            max_ts == max_ts_of(rows, i as int),
            min_series == min_series_of(rows, i as int),
            max_series == max_series_of(rows, i as int),
        decreases block.rows@.len() - i,
    {
        let x: Reading = block.rows[i];
        if x.0 < min_ts {
            min_ts = x.0;
        }
        if x.0 > max_ts {
            max_ts = x.0;
        }
        if x.1 < min_series {
            min_series = x.1;
        }
        if x.1 > max_series {
            max_series = x.1;
        }
        i = i + 1;
    }
    TsBlockSummary {
        block_id: BlockId(number),
        min_ts,
        max_ts,
        min_series,
        max_series,
        row_count: block.rows.len() as u32,
    }
}

/// Builds blocks without a store.
pub struct TimeSeriesProjection;

impl TimeSeriesProjection {
    /// The block with the given readings.
    pub fn build_block(readings: &Vec<Reading>) -> (r: TsBlock)
        ensures
            r.rows@ == readings@,
    {
        let r: TsBlock = copy_block(readings, 0, readings.len());
        assert(r.rows@ =~= readings@);
        r
    }
}

} // verus!
