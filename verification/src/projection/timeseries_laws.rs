//! What a store of readings gives back of them.

use vstd::prelude::*;

use crate::projection::timeseries::{
    all_readings, batch_appended, in_range, law_sealing_keeps_readings,
    law_sorting_readings, max_series_of, max_ts_of, min_series_of, min_ts_of, of_series,
    pieces, rows_per_block, series_appended, sorted_readings, summary_of,
    touched_blocks, touched_for_series, Reading, SeriesView, TsBlockSummary,
};

verus! {

/// How often a value occurs in a row: by the places that hold it.
pub open spec fn times<A>(s: Seq<A>, x: A) -> nat
    decreases s.len(),
{
    if s.len() == 0 {
        0
    } else {
        times(s.drop_last(), x) + if s.last() == x {
            1nat
        } else {
            0nat
        }
    }
}

/// A selection has every value as often as the row, or not at all.
proof fn lemma_times_filter<A>(s: Seq<A>, p: spec_fn(A) -> bool, x: A)
    ensures
        times(s.filter(p), x) == if p(x) {
            times(s, x)
        } else {
            0
        },
    decreases s.len(),
{
    reveal(Seq::filter);
    if s.len() > 0 {
        lemma_times_filter(s.drop_last(), p, x);
        let before = s.drop_last().filter(p);
        if p(s.last()) {
            assert(before.push(s.last()).drop_last() =~= before);
        }
    }
}

proof fn lemma_times_count<A>(s: Seq<A>, x: A)
    ensures
        times(s, x) == s.to_multiset().count(x),
    decreases s.len(),
{
    broadcast use vstd::seq_lib::group_to_multiset_ensures;

    if s.len() > 0 {
        lemma_times_count(s.drop_last(), x);
        assert(s =~= s.drop_last().push(s.last()));
    } else {
        assert(s =~= Seq::empty());
    }
}

/// A scan by time gives each reading from the first to the last timestamp, both
/// of them included, as often as it was stored, and no other.
pub proof fn law_range_scan(v: SeriesView, lo: i64, hi: i64, x: Reading)
    ensures
        times(all_readings(v).filter(in_range(lo, hi)), x) == if lo <= x.0 && x.0 <= hi {
            times(all_readings(v), x)
        } else {
            0
        },
{
    lemma_times_filter(all_readings(v), in_range(lo, hi), x);
}

/// A scan by time of one series gives the readings of that series alone.
pub proof fn law_series_scan(v: SeriesView, series_id: i64, lo: i64, hi: i64, x: Reading)
    ensures
        times(all_readings(v).filter(of_series(series_id, lo, hi)), x) == if x.1 == series_id && lo
            <= x.0 && x.0 <= hi {
            times(all_readings(v), x)
        } else {
            0
        },
{
    lemma_times_filter(all_readings(v), of_series(series_id, lo, hi), x);
}

/// An appended reading is there once more, and the others as often as before.
pub proof fn law_appended_reading(
    v: SeriesView,
    x: Reading,
    capacity: int,
    block_size: u32,
    y: Reading,
)
    ensures
        times(all_readings(series_appended(v, x, capacity, block_size)), y) == times(
            all_readings(v),
            y,
        ) + if x == y {
            1nat
        } else {
            0nat
        },
{
    let w = SeriesView { pending: v.pending.push(x), ..v };
    assert(all_readings(w) =~= all_readings(v).push(x));
    assert(all_readings(w).drop_last() =~= all_readings(v));
    let r = series_appended(v, x, capacity, block_size);
    law_sealing_keeps_readings(w, block_size);
    lemma_times_count(all_readings(r), y);
    lemma_times_count(all_readings(w), y);
}

/// A batch of readings is there after it was appended.
pub proof fn law_appended_batch(
    v: SeriesView,
    xs: Seq<Reading>,
    n: int,
    capacity: int,
    block_size: u32,
    y: Reading,
)
    requires
        0 <= n <= xs.len(),
    ensures
        times(all_readings(batch_appended(v, xs, n, capacity, block_size)), y) == times(
            all_readings(v),
            y,
        ) + times(xs.take(n), y),
    decreases n,
{
    if n > 0 {
        law_appended_batch(v, xs, n - 1, capacity, block_size, y);
        let before = batch_appended(v, xs, n - 1, capacity, block_size);
        law_appended_reading(before, xs[n - 1], capacity, block_size, y);
        assert(xs.take(n).drop_last() =~= xs.take(n - 1));
    }
}

/// Sealed readings stand in the order of their series, and within a series of
/// their timestamps.
pub proof fn law_sealed_order(rows: Seq<Reading>, i: int, j: int)
    requires
        0 <= i < j < rows.len(),
    ensures
        ({
            let s = sorted_readings(rows, rows.len() as int);
            &&& s.len() == rows.len()
            &&& s[i].1 < s[j].1 || (s[i].1 == s[j].1 && s[i].0 <= s[j].0)
        }),
{
    broadcast use vstd::seq_lib::group_to_multiset_ensures;

    law_sorting_readings(rows, rows.len() as int);
    let s = sorted_readings(rows, rows.len() as int);
    assert(rows.take(rows.len() as int) =~= rows);
    assert(s.to_multiset().len() == s.len());
    assert(rows.to_multiset().len() == rows.len());
}

/// A block holds as many readings of 24 bytes as fit behind the 512 bytes of
/// its header, and at least one.
pub proof fn law_block_capacity(block_size: u32)
    ensures
        rows_per_block(block_size) >= 1,
        rows_per_block(block_size) > 1 ==> 512 + 24 * rows_per_block(block_size) <= block_size,
        512 + 24 * (rows_per_block(block_size) + 1) > block_size,
{
}

proof fn lemma_pieces(rows: Seq<Reading>, start: int, size: int)
    requires
        0 <= start <= rows.len(),
        size >= 1,
    ensures
        forall|k: int|
            0 <= k < pieces(rows, start, size).len() ==> 1 <= (#[trigger] pieces(
                rows,
                start,
                size,
            )[k]).len() <= size,
        forall|k: int|
            0 <= k < pieces(rows, start, size).len() - 1 ==> (#[trigger] pieces(
                rows,
                start,
                size,
            )[k]).len() == size,
    decreases rows.len() - start,
{
    if start < rows.len() {
        let end = if start + size < rows.len() {
            start + size
        } else {
            rows.len() as int
        };
        lemma_pieces(rows, end, size);
        let rest = pieces(rows, end, size);
        let all = pieces(rows, start, size);
        assert(all =~= seq![rows.subrange(start, end)] + rest);
        assert forall|k: int| 0 <= k < all.len() implies 1 <= (#[trigger] all[k]).len() <= size by {
            if k > 0 {
                assert(all[k] == rest[k - 1]);
            }
        }
        assert forall|k: int| 0 <= k < all.len() - 1 implies (#[trigger] all[k]).len() == size by {
            if k > 0 {
                assert(all[k] == rest[k - 1]);
            } else if end == rows.len() {
                assert(rest.len() == 0);
            }
        }
    }
}

/// Sealing cuts readings into blocks of which all but the last are full.
pub proof fn law_full_blocks(rows: Seq<Reading>, block_size: u32, k: int)
    requires
        0 <= k < pieces(rows, 0, rows_per_block(block_size)).len(),
    ensures
        ({
            let all = pieces(rows, 0, rows_per_block(block_size));
            &&& 1 <= all[k].len() <= rows_per_block(block_size)
            &&& k < all.len() - 1 ==> all[k].len() == rows_per_block(block_size)
        }),
{
    lemma_pieces(rows, 0, rows_per_block(block_size));
}

proof fn lemma_least_and_greatest(rows: Seq<Reading>, n: int)
    requires
        1 <= n <= rows.len(),
    ensures
        forall|i: int|
            0 <= i < n ==> min_ts_of(rows, n) <= (#[trigger] rows[i]).0 <= max_ts_of(rows, n),
        forall|i: int|
            0 <= i < n ==> min_series_of(rows, n) <= (#[trigger] rows[i]).1 <= max_series_of(
                rows,
                n,
            ),
        exists|i: int| 0 <= i < n && (#[trigger] rows[i]).0 == min_ts_of(rows, n),
        exists|i: int| 0 <= i < n && (#[trigger] rows[i]).0 == max_ts_of(rows, n),
        exists|i: int| 0 <= i < n && (#[trigger] rows[i]).1 == min_series_of(rows, n),
        exists|i: int| 0 <= i < n && (#[trigger] rows[i]).1 == max_series_of(rows, n),
    decreases n,
{
    if n == 1 {
        assert(rows[0] == rows[0]);
    } else {
        lemma_least_and_greatest(rows, n - 1);
        assert(rows[n - 1] == rows[n - 1]);
    }
}

/// The summary of a block bounds its timestamps and its series, by values that
/// occur in it.
pub proof fn law_summary(rows: Seq<Reading>, number: int)
    requires
        rows.len() > 0,
    ensures
        ({
            let s = summary_of(rows, number);
            &&& forall|i: int| 0 <= i < rows.len() ==> s.min_ts <= (#[trigger] rows[i]).0 <= s.max_ts
            &&& forall|i: int|
                0 <= i < rows.len() ==> s.min_series <= (#[trigger] rows[i]).1 <= s.max_series
            &&& exists|i: int| 0 <= i < rows.len() && (#[trigger] rows[i]).0 == s.min_ts
            &&& exists|i: int| 0 <= i < rows.len() && (#[trigger] rows[i]).0 == s.max_ts
            &&& exists|i: int| 0 <= i < rows.len() && (#[trigger] rows[i]).1 == s.min_series
            &&& exists|i: int| 0 <= i < rows.len() && (#[trigger] rows[i]).1 == s.max_series
        }),
{
    lemma_least_and_greatest(rows, rows.len() as int);
}

/// A scan touches the blocks whose span of timestamps meets that of the scan.
pub proof fn law_touched(s: Seq<TsBlockSummary>, lo: i64, hi: i64, n: int)
    requires
        0 <= n <= s.len(),
    ensures
        touched_blocks(s, lo, hi, n) == s.take(n).filter(
            |b: TsBlockSummary| b.min_ts <= hi && lo <= b.max_ts,
        ).len(),
    decreases n,
{
    reveal(Seq::filter);
    if n > 0 {
        law_touched(s, lo, hi, n - 1);
        assert(s.take(n).drop_last() =~= s.take(n - 1));
        assert(s.take(n).last() == s[n - 1]);
    }
}

/// A scan of a series touches those of them whose span of series holds it.
pub proof fn law_touched_for_series(
    s: Seq<TsBlockSummary>,
    series_id: i64,
    lo: i64,
    hi: i64,
    n: int,
)
    requires
        0 <= n <= s.len(),
    ensures
        touched_for_series(s, series_id, lo, hi, n) == s.take(n).filter(
            |b: TsBlockSummary|
                b.min_ts <= hi && lo <= b.max_ts && b.min_series <= series_id && series_id
                    <= b.max_series,
        ).len(),
    decreases n,
{
    reveal(Seq::filter);
    if n > 0 {
        law_touched_for_series(s, series_id, lo, hi, n - 1);
        assert(s.take(n).drop_last() =~= s.take(n - 1));
        assert(s.take(n).last() == s[n - 1]);
    }
}

} // verus!
