//! What tables and key-value stores give back of what was written.

use vstd::prelude::*;

use crate::projection::column::{ColumnSpec, ValueView};
use crate::projection::kv::{
    chunk_end, chunks, coherent, has_key, last_row, last_with, live_rows, plain_bytes, row_cost,
    stored_keys, usable_bytes, value_in, write_keys, KvView, Pair,
};
use crate::projection::relational::{
    buffered_column, column_place, last_keyed, last_pending, pk_place, row_with, sealed_place,
    stored_column, Row, TableView,
};

verus! {

/// All pairs that a store was given, in the order of the writes.
pub open spec fn written(blocks: Seq<Seq<Pair>>, n: int) -> Seq<Pair>
    decreases n,
{
    if n <= 0 {
        seq![]
    } else {
        written(blocks, n - 1) + blocks[n - 1]
    }
}

/// Whether a pair is the last with its key.
pub open spec fn is_last_write(s: Seq<Pair>, key: Seq<u8>, value: Seq<u8>) -> bool {
    exists|i: int|
        0 <= i < s.len() && (#[trigger] s[i]).0 == key && s[i].1 == value && forall|j: int|
            i < j < s.len() ==> (#[trigger] s[j]).0 != key
}

/// Whether no pair has the key.
pub open spec fn never_written(s: Seq<Pair>, key: Seq<u8>) -> bool {
    forall|j: int| 0 <= j < s.len() ==> (#[trigger] s[j]).0 != key
}

proof fn lemma_last_with(pairs: Seq<Pair>, key: Seq<u8>, n: int)
    requires
        0 <= n <= pairs.len(),
    ensures
        match last_with(pairs, key, n) {
            Some(i) => 0 <= i < n && pairs[i].0 == key && forall|j: int|
                i < j < n ==> (#[trigger] pairs[j]).0 != key,
            None => forall|j: int| 0 <= j < n ==> (#[trigger] pairs[j]).0 != key,
        },
    decreases n,
{
    if n > 0 {
        lemma_last_with(pairs, key, n - 1);
    }
}

proof fn lemma_last_row(blocks: Seq<Seq<Pair>>, key: Seq<u8>, n: int)
    requires
        0 <= n <= blocks.len(),
    ensures
        match last_row(blocks, key, n) {
            Some(p) => 0 <= p.0 < n && 0 <= p.1 < blocks[p.0].len() && is_last_write(
                written(blocks, n),
                key,
                blocks[p.0][p.1].1,
            ),
            None => never_written(written(blocks, n), key),
        },
    decreases n,
{
    if n > 0 {
        let b = blocks[n - 1];
        let before = written(blocks, n - 1);
        let all = written(blocks, n);
        lemma_last_with(b, key, b.len() as int);
        lemma_last_row(blocks, key, n - 1);
        match last_with(b, key, b.len() as int) {
            Some(s) => {
                let i = before.len() + s;
                assert(all[i] == b[s]);
                assert forall|j: int| i < j < all.len() implies (#[trigger] all[j]).0 != key by {
                    assert(all[j] == b[j - before.len()]);
                }
            },
            None => {
                lemma_nothing_later(before, b, key);
            },
        }
    }
}

/// Pairs without a key do not change what is known of it.
proof fn lemma_nothing_later(a: Seq<Pair>, b: Seq<Pair>, key: Seq<u8>)
    requires
        never_written(b, key),
    ensures
        never_written(a, key) ==> never_written(a + b, key),
        forall|v: Seq<u8>| #[trigger] is_last_write(a, key, v) ==> is_last_write(a + b, key, v),
{
    let all = a + b;
    assert forall|j: int| a.len() <= j < all.len() implies (#[trigger] all[j]).0 != key by {
        assert(all[j] == b[j - a.len()]);
    }
    assert forall|j: int| 0 <= j < a.len() implies (#[trigger] all[j]) == a[j] by {}
    assert forall|v: Seq<u8>| #[trigger] is_last_write(a, key, v) implies is_last_write(
        all,
        key,
        v,
    ) by {
        let i = choose|i: int|
            0 <= i < a.len() && (#[trigger] a[i]).0 == key && a[i].1 == v && forall|j: int|
                i < j < a.len() ==> (#[trigger] a[j]).0 != key;
        assert(all[i] == a[i]);
    }
}

/// A key's value is that of the last write with it, and a key that was never
/// written has none.
pub proof fn law_last_write_wins(v: KvView, key: Seq<u8>)
    requires
        coherent(v),
    ensures
        ({
            let all = written(v.blocks, v.blocks.len() as int) + v.pending;
            match value_in(v, key) {
                Some(x) => is_last_write(all, key, x),
                None => never_written(all, key),
            }
        }),
{
    let front = written(v.blocks, v.blocks.len() as int);
    let all = front + v.pending;
    let n = v.pending.len() as int;
    lemma_last_with(v.pending, key, n);
    lemma_last_row(v.blocks, key, v.blocks.len() as int);
    match last_with(v.pending, key, n) {
        Some(s) => {
            let i = front.len() + s;
            assert(all[i] == v.pending[s]);
            assert forall|j: int| i < j < all.len() implies (#[trigger] all[j]).0 != key by {
                assert(all[j] == v.pending[j - front.len()]);
            }
        },
        None => {
            lemma_nothing_later(front, v.pending, key);
            assert(!has_key(v.pending, key));
            if v.index.dom().contains(key) {
                assert(last_row(v.blocks, key, v.blocks.len() as int) == Some(v.index[key]));
            }
        },
    }
}

/// The keys that a store counts are those with a value.
pub proof fn law_counted_keys(v: KvView, key: Seq<u8>)
    ensures
        stored_keys(v).contains(key) <==> value_in(v, key) is Some,
{
    let n = v.pending.len() as int;
    let keys = write_keys(v.pending);
    lemma_last_with(v.pending, key, n);
    match last_with(v.pending, key, n) {
        Some(i) => {
            assert(keys[i] == key);
            assert(keys.contains(key));
        },
        None => {
            if keys.contains(key) {
                let i = keys.index_of(key);
                assert(v.pending[i].0 == key);
            }
        },
    }
}

/// The bytes that pairs take in a block: 40 for each, and its key and value.
pub open spec fn taken(s: Seq<Pair>) -> nat
    decreases s.len(),
{
    if s.len() == 0 {
        0
    } else {
        taken(s.drop_last()) + 40 + s.last().0.len() + s.last().1.len()
    }
}

proof fn lemma_chunk_end(pairs: Seq<Pair>, start: int, i: int, used: nat, usable: nat)
    requires
        0 <= start <= i <= pairs.len(),
        used == taken(pairs.subrange(start, i)),
        i > start + 1 ==> used <= usable,
        start < pairs.len(),
    ensures
        ({
            let e = chunk_end(pairs, start, i, used, usable);
            &&& i <= e <= pairs.len()
            &&& e > start
            &&& e > start + 1 ==> taken(pairs.subrange(start, e)) <= usable
            &&& e < pairs.len() ==> taken(pairs.subrange(start, e + 1)) > usable
        }),
    decreases pairs.len() - i,
{
    if i < pairs.len() {
        let here = pairs.subrange(start, i + 1);
        assert(here.drop_last() =~= pairs.subrange(start, i));
        assert(here.last() == pairs[i]);
        if !(used + row_cost(pairs[i]) > usable && i > start) {
            lemma_chunk_end(pairs, start, i + 1, used + row_cost(pairs[i]), usable);
        }
    }
}

/// A block takes as many pairs as fit behind the 512 bytes of its header, and at
/// least one.
pub proof fn law_block_is_full(pairs: Seq<Pair>, start: int, block_size: u32)
    requires
        0 <= start < pairs.len(),
        block_size >= 512,
    ensures
        ({
            let e = chunk_end(pairs, start, start, 0, usable_bytes(block_size));
            &&& start < e <= pairs.len()
            &&& e > start + 1 ==> 512 + taken(pairs.subrange(start, e)) <= block_size
            &&& e < pairs.len() ==> 512 + taken(pairs.subrange(start, e + 1)) > block_size
        }),
{
    assert(pairs.subrange(start, start) =~= seq![]);
    lemma_chunk_end(pairs, start, start, 0, usable_bytes(block_size));
}

proof fn lemma_chunks_joined(pairs: Seq<Pair>, start: int, usable: nat)
    requires
        0 <= start <= pairs.len(),
    ensures
        written(chunks(pairs, start, usable), chunks(pairs, start, usable).len() as int)
            == pairs.skip(start),
    decreases pairs.len() - start,
{
    let all = chunks(pairs, start, usable);
    if start < pairs.len() {
        assert(pairs.subrange(start, start) =~= seq![]);
        lemma_chunk_end(pairs, start, start, 0, usable);
        let e = chunk_end(pairs, start, start, 0, usable);
        let rest = chunks(pairs, e, usable);
        lemma_chunks_joined(pairs, e, usable);
        lemma_written_front(pairs.subrange(start, e), rest, rest.len() as int);
        assert(all =~= seq![pairs.subrange(start, e)] + rest);
        assert(pairs.skip(start) =~= pairs.subrange(start, e) + pairs.skip(e));
    } else {
        assert(pairs.skip(start) =~= seq![]);
    }
}

proof fn lemma_written_front(b: Seq<Pair>, rest: Seq<Seq<Pair>>, n: int)
    requires
        0 <= n <= rest.len(),
    ensures
        written(seq![b] + rest, n + 1) == b + written(rest, n),
    decreases n,
{
    let all = seq![b] + rest;
    if n == 0 {
        reveal_with_fuel(written, 2);
        assert(written(all, 1) =~= b);
        assert(b + written(rest, 0) =~= b);
    } else {
        lemma_written_front(b, rest, n - 1);
        assert(all[n] == rest[n - 1]);
        assert(written(all, n + 1) =~= b + written(rest, n));
    }
}

/// Sealing cuts the writes into blocks without losing or reordering one.
pub proof fn law_blocks_hold_writes(pairs: Seq<Pair>, usable: nat)
    ensures
        written(chunks(pairs, 0, usable), chunks(pairs, 0, usable).len() as int) == pairs,
{
    lemma_chunks_joined(pairs, 0, usable);
    assert(pairs.skip(0) =~= pairs);
}

/// The listed rows of sealed blocks are those with a value that is not empty.
pub proof fn law_listed_rows(blocks: Seq<Seq<Pair>>, n: int, p: Pair)
    requires
        0 <= n <= blocks.len(),
    ensures
        live_rows(blocks, n).contains(p) <==> p.1.len() != 0 && exists|b: int|
            0 <= b < n && (#[trigger] blocks[b]).contains(p),
    decreases n,
{
    if n > 0 {
        law_listed_rows(blocks, n - 1, p);
        let q = |x: Pair| x.1.len() > 0;
        let before = live_rows(blocks, n - 1);
        let here = blocks[n - 1].filter(q);
        crate::sequences::lemma_filter_contains(blocks[n - 1], q, p);
        let all = live_rows(blocks, n);
        assert(all =~= before + here);
        if before.contains(p) {
            let i = before.index_of(p);
            assert(all[i] == p);
            let b = choose|b: int| 0 <= b < n - 1 && (#[trigger] blocks[b]).contains(p);
            assert(blocks[b].contains(p));
        }
        if here.contains(p) {
            let i = here.index_of(p);
            assert(all[before.len() + i] == p);
            assert(blocks[n - 1].contains(p));
        }
        if all.contains(p) {
            let i = all.index_of(p);
            if i < before.len() {
                assert(before[i] == p);
            } else {
                assert(here[i - before.len()] == p);
            }
        }
    }
}

proof fn lemma_plain_bytes(pairs: Seq<Pair>, n: int)
    requires
        0 <= n <= pairs.len(),
    ensures
        plain_bytes(pairs, n) + 32 * n == taken(pairs.take(n)),
    decreases n,
{
    if n > 0 {
        lemma_plain_bytes(pairs, n - 1);
        assert(pairs.take(n).drop_last() =~= pairs.take(n - 1));
        assert(pairs.take(n).last() == pairs[n - 1]);
    }
}

/// The raw size of a block is what its pairs take but for 32 bytes of each.
pub proof fn law_raw_size(pairs: Seq<Pair>)
    ensures
        plain_bytes(pairs, pairs.len() as int) + 32 * pairs.len() == taken(pairs),
{
    lemma_plain_bytes(pairs, pairs.len() as int);
    assert(pairs.take(pairs.len() as int) =~= pairs);
}

// --- tables ------------------------------------------------------------------------

/// A column is found by its number: the first that has it.
pub proof fn law_column_by_number(columns: Seq<ColumnSpec>, col_id: u32, i: int)
    requires
        0 <= i <= columns.len(),
    ensures
        match column_place(columns, col_id, i) {
            Some(k) => i <= k < columns.len() && columns[k].col_id == col_id && forall|j: int|
                i <= j < k ==> (#[trigger] columns[j]).col_id != col_id,
            None => forall|j: int|
                i <= j < columns.len() ==> (#[trigger] columns[j]).col_id != col_id,
        },
    decreases columns.len() - i,
{
    if i < columns.len() {
        law_column_by_number(columns, col_id, i + 1);
    }
}

/// The primary key is the first column that is marked as such.
pub proof fn law_primary_key(columns: Seq<ColumnSpec>, i: int)
    requires
        0 <= i <= columns.len(),
    ensures
        match pk_place(columns, i) {
            Some(k) => i <= k < columns.len() && columns[k].is_pk && forall|j: int|
                i <= j < k ==> !(#[trigger] columns[j]).is_pk,
            None => forall|j: int| i <= j < columns.len() ==> !(#[trigger] columns[j]).is_pk,
        },
    decreases columns.len() - i,
{
    if i < columns.len() {
        law_primary_key(columns, i + 1);
    }
}

proof fn lemma_pending(rows: Seq<Row>, pk_idx: int, pk: i64, n: int)
    requires
        0 <= n <= rows.len(),
    ensures
        match last_pending(rows, pk_idx, pk, n) {
            Some(i) => 0 <= i < n && rows[i][pk_idx] == ValueView::I64(pk) && forall|j: int|
                i < j < n ==> (#[trigger] rows[j])[pk_idx] != ValueView::I64(pk),
            None => forall|j: int| 0 <= j < n ==> (#[trigger] rows[j])[pk_idx] != ValueView::I64(pk),
        },
    decreases n,
{
    if n > 0 {
        lemma_pending(rows, pk_idx, pk, n - 1);
    }
}

proof fn lemma_keyed(rows: Seq<Row>, pk_idx: int, pk: i64, n: int)
    requires
        0 <= n <= rows.len(),
        forall|j: int| 0 <= j < n ==> (#[trigger] rows[j])[pk_idx] is I64,
    ensures
        match last_keyed(rows, pk_idx, pk, n) {
            Some(i) => 0 <= i < n && rows[i][pk_idx] == ValueView::I64(pk) && forall|j: int|
                i < j < n ==> (#[trigger] rows[j])[pk_idx] != ValueView::I64(pk),
            None => forall|j: int| 0 <= j < n ==> (#[trigger] rows[j])[pk_idx] != ValueView::I64(pk),
        },
    decreases n,
{
    if n > 0 {
        lemma_keyed(rows, pk_idx, pk, n - 1);
        assert(rows[n - 1][pk_idx] is I64);
    }
}

proof fn lemma_sealed(blocks: Seq<Seq<Row>>, pk_idx: int, pk: i64, n: int)
    requires
        0 <= n <= blocks.len(),
        forall|b: int, j: int|
            0 <= b < n && 0 <= j < blocks[b].len() ==> (#[trigger] blocks[b][j])[pk_idx] is I64,
    ensures
        match sealed_place(blocks, pk_idx, pk, n) {
            Some(p) => 0 <= p.0 < n && 0 <= p.1 < blocks[p.0].len() && blocks[p.0][p.1][pk_idx]
                == ValueView::I64(pk) && forall|b: int, j: int|
                p.0 < b < n && 0 <= j < blocks[b].len() ==> (#[trigger] blocks[b][j])[pk_idx]
                    != ValueView::I64(pk),
            None => forall|b: int, j: int|
                0 <= b < n && 0 <= j < blocks[b].len() ==> (#[trigger] blocks[b][j])[pk_idx]
                    != ValueView::I64(pk),
        },
    decreases n,
{
    if n > 0 {
        let b = blocks[n - 1];
        assert forall|j: int| 0 <= j < b.len() implies (#[trigger] b[j])[pk_idx] is I64 by {
            assert(blocks[n - 1][j][pk_idx] is I64);
        }
        lemma_keyed(b, pk_idx, pk, b.len() as int);
        lemma_sealed(blocks, pk_idx, pk, n - 1);
    }
}

/// Where all keys are signed numbers, a lookup gives a row with the key, the
/// last that was buffered if there is one, and none only where no row has it.
pub proof fn law_lookup_by_key(v: TableView, pk_idx: int, pk: i64)
    requires
        forall|b: int, j: int|
            0 <= b < v.blocks.len() && 0 <= j < v.blocks[b].len() ==> (
            #[trigger] v.blocks[b][j])[pk_idx] is I64,
    ensures
        match row_with(v, pk_idx, pk) {
            Some(row) => row[pk_idx] == ValueView::I64(pk),
            None => (forall|j: int|
                0 <= j < v.pending.len() ==> (#[trigger] v.pending[j])[pk_idx] != ValueView::I64(
                    pk,
                )) && (forall|b: int, j: int|
                0 <= b < v.blocks.len() && 0 <= j < v.blocks[b].len() ==> (
                #[trigger] v.blocks[b][j])[pk_idx] != ValueView::I64(pk)),
        },
        forall|i: int|
            0 <= i < v.pending.len() && (#[trigger] v.pending[i])[pk_idx] == ValueView::I64(pk) && (
            forall|j: int|
                i < j < v.pending.len() ==> (#[trigger] v.pending[j])[pk_idx] != ValueView::I64(
                    pk,
                )) ==> row_with(v, pk_idx, pk) == Some(v.pending[i]),
{
    lemma_pending(v.pending, pk_idx, pk, v.pending.len() as int);
    lemma_sealed(v.blocks, pk_idx, pk, v.blocks.len() as int);
}

/// A column of signed numbers is scanned row by row, from blocks and from the
/// buffer alike.
pub proof fn law_scanned_column(rows: Seq<Row>, col: int, n: int)
    requires
        0 <= n <= rows.len(),
        forall|i: int| 0 <= i < n ==> (#[trigger] rows[i])[col] is I64,
    ensures
        stored_column(rows, col, n).len() == n,
        buffered_column(rows, col, n) == stored_column(rows, col, n),
        forall|i: int|
            0 <= i < n ==> #[trigger] rows[i][col] == ValueView::I64(stored_column(rows, col, n)[i]),
    decreases n,
{
    if n > 0 {
        law_scanned_column(rows, col, n - 1);
        assert(rows[n - 1][col] is I64);
    }
}

} // verus!
