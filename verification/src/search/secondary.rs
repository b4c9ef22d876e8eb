//! Secondary indexes: from the values of a column to the rows that hold them,
//! with a version chain for each value.
//!
//! An entry is visible to a reader at a timestamp from its beginning up to, but
//! not including, its end. Superseding an entry gives it an end; collecting
//! garbage drops entries that ended early; compaction moves rows, and the
//! entries follow them.

use std::collections::HashMap;

use vstd::prelude::*;

use crate::ids::{BlockId, RowLocator, SegmentId, SlotId};
use crate::sequences::lemma_filter_push;

verus! {

broadcast use vstd::std_specs::hash::group_hash_axioms;

/// One version of an index entry.
#[derive(Clone, Copy, Debug)]
pub struct SecondaryIndexEntry {
    /// The indexed value.
    pub value: i64,
    /// The place of the row.
    pub row_locator: RowLocator,
    /// When the entry was created.
    pub begin_ts: u64,
    /// When the entry was superseded; `u64::MAX` while it is live.
    pub end_ts: u64,
    /// The transaction that created the entry.
    pub txn_id: u64,
}

/// Whether a reader at `read_ts` sees the entry.
pub open spec fn visible_at(read_ts: u64) -> spec_fn(SecondaryIndexEntry) -> bool {
    |e: SecondaryIndexEntry| e.begin_ts <= read_ts && e.end_ts > read_ts
}

/// The place of an entry's row.
pub open spec fn locator() -> spec_fn(SecondaryIndexEntry) -> RowLocator {
    |e: SecondaryIndexEntry| e.row_locator
}

/// The places that a reader sees in a chain.
pub open spec fn seen(chain: Seq<SecondaryIndexEntry>, read_ts: u64) -> Seq<RowLocator> {
    chain.filter(visible_at(read_ts)).map_values(locator())
}

/// Ends the entries that began at `old_begin_ts`.
pub open spec fn ended(old_begin_ts: u64, new_end_ts: u64) -> spec_fn(
    SecondaryIndexEntry,
) -> SecondaryIndexEntry {
    |e: SecondaryIndexEntry|
        if e.begin_ts == old_begin_ts {
            SecondaryIndexEntry { end_ts: new_end_ts, ..e }
        } else {
            e
        }
}

/// Whether an entry outlives a collection of garbage up to `min_ts`.
pub open spec fn kept_from(min_ts: u64) -> spec_fn(SecondaryIndexEntry) -> bool {
    |e: SecondaryIndexEntry| e.end_ts >= min_ts
}

/// Moves the entries of one row to its new place.
pub open spec fn moved(block: BlockId, slot: SlotId, to: RowLocator) -> spec_fn(
    SecondaryIndexEntry,
) -> SecondaryIndexEntry {
    |e: SecondaryIndexEntry|
        if e.row_locator.block == block && e.row_locator.slot == slot {
            SecondaryIndexEntry { row_locator: to, ..e }
        } else {
            e
        }
}

/// The entries of one value.
pub struct Chain {
    pub value: i64,
    pub entries: Vec<SecondaryIndexEntry>,
}

/// The mathematical value of a [`Chain`].
#[verifier::ext_equal]
pub struct ChainView {
    pub value: i64,
    pub entries: Seq<SecondaryIndexEntry>,
}

impl View for Chain {
    type V = ChainView;

    open spec fn view(&self) -> ChainView {
        ChainView { value: self.value, entries: self.entries@ }
    }
}

/// The place of a value's chain from `k` on; the end where there is none.
pub open spec fn chain_place(chains: Seq<ChainView>, value: i64, k: int) -> int
    decreases chains.len() - k,
{
    if 0 <= k < chains.len() && chains[k].value != value {
        chain_place(chains, value, k + 1)
    } else {
        k
    }
}

/// The chain of a value; empty where there is none.
pub open spec fn chain_of(chains: Seq<ChainView>, value: i64) -> Seq<SecondaryIndexEntry> {
    let place = chain_place(chains, value, 0);
    if place < chains.len() {
        chains[place].entries
    } else {
        seq![]
    }
}

/// The places that a reader sees in the first `n` chains with values from `lo`
/// to `hi`.
pub open spec fn range_seen(
    chains: Seq<ChainView>,
    lo: i64,
    hi: i64,
    read_ts: u64,
    n: int,
) -> Seq<RowLocator>
    decreases n,
{
    if n <= 0 {
        seq![]
    } else {
        let before = range_seen(chains, lo, hi, read_ts, n - 1);
        if lo <= chains[n - 1].value <= hi {
            before + seen(chains[n - 1].entries, read_ts)
        } else {
            before
        }
    }
}

/// The number of entries in the first `n` chains.
pub open spec fn entry_total(chains: Seq<ChainView>, n: int) -> nat
    decreases n,
{
    if n <= 0 {
        0
    } else {
        entry_total(chains, n - 1) + chains[n - 1].entries.len()
    }
}

/// The first `n` chains after a collection of garbage: without the entries
/// that ended before `min_ts`, and without chains that became empty.
pub open spec fn collected(chains: Seq<ChainView>, min_ts: u64, n: int) -> Seq<ChainView>
    decreases n,
{
    if n <= 0 {
        seq![]
    } else {
        let before = collected(chains, min_ts, n - 1);
        let rest = chains[n - 1].entries.filter(kept_from(min_ts));
        if rest.len() > 0 {
            before.push(ChainView { value: chains[n - 1].value, entries: rest })
        } else {
            before
        }
    }
}

/// The chains with every entry changed.
pub open spec fn changed(
    chains: Seq<ChainView>,
    f: spec_fn(SecondaryIndexEntry) -> SecondaryIndexEntry,
) -> Seq<ChainView> {
    chains.map_values(
        |c: ChainView| ChainView { value: c.value, entries: c.entries.map_values(f) },
    )
}

/// The values of a row of chains.
pub open spec fn chain_views(s: Seq<Chain>) -> Seq<ChainView> {
    s.map_values(|c: Chain| c@)
}

/// An index on one column. A hash map has the place of each value's chain.
pub struct SecondaryIndex {
    /// The column's name.
    pub column_name: String,
    places: HashMap<i64, usize>,
    chains: Vec<Chain>,
}

/// Whether a map has every chain of a row at its value, and nothing else.
spec fn places_match(places: Map<i64, usize>, chains: Seq<Chain>) -> bool {
    &&& forall|v: i64| #[trigger]
        places.contains_key(v) ==> places[v] < chains.len() && chains[places[v] as int].value == v
    &&& forall|i: int|
        0 <= i < chains.len() ==> places.contains_key((#[trigger] chains[i]).value)
            && places[chains[i].value] == i
}

impl SecondaryIndex {
    /// The name of the indexed column.
    pub closed spec fn column(&self) -> Seq<char> {
        self.column_name@
    }

    /// The version chains, one for each value, in the order in which the
    /// values came.
    pub closed spec fn chains(&self) -> Seq<ChainView> {
        chain_views(self.chains@)
    }

    /// The hash map has every chain at its place.
    pub closed spec fn placed(&self) -> bool {
        places_match(self.places@, self.chains@)
    }

    /// Each value has one chain, with its place, and its chain holds entries.
    pub open spec fn wf(&self) -> bool {
        &&& self.placed()
        &&& forall|i: int, j: int|
            0 <= i < j < self.chains().len() ==> (#[trigger] self.chains()[i]).value != (
            #[trigger] self.chains()[j]).value
        &&& forall|i: int|
            0 <= i < self.chains().len() ==> (#[trigger] self.chains()[i]).entries.len() > 0
    }

    /// An empty index on a column.
    pub fn new(column_name: &str) -> (res: Self)
        ensures
            res.wf(),
            res.column() == column_name@,
            res.chains() == Seq::<ChainView>::empty(),
    {
        let res = SecondaryIndex {
            column_name: column_name.to_owned(),
            places: HashMap::new(),
            chains: Vec::new(),
        };
        assert(res.chains() =~= Seq::<ChainView>::empty());
        res
    }

    fn find_chain(&self, value: i64) -> (r: usize)
        requires
            self.wf(),
        ensures
            r == chain_place(self.chains(), value, 0),
            r <= self.chains@.len(),
            r < self.chains@.len() ==> self.chains@[r as int].value == value,
            forall|k: int| 0 <= k < r ==> (#[trigger] self.chains()[k]).value != value,
    {
        let ghost all = self.chains();
        let ghost p = chain_place(all, value, 0);
        proof {
            lemma_chain_place(all, value, 0);
            if p < all.len() {
                assert(all[p] == self.chains@[p]@);
                assert(self.places@.contains_key(self.chains@[p].value));
            }
        }
        match self.places.get(&value) {
            Some(i) => {
                assert(all[*i as int] == self.chains@[*i as int]@);
                *i
            },
            None => self.chains.len(),
        }
    }

    /// Adds a live entry at the end of its value's chain.
    pub fn insert(&mut self, value: i64, row_locator: RowLocator, begin_ts: u64, txn_id: u64)
        requires
            old(self).wf(),
        ensures
            final(self).wf(),
            final(self).column() == old(self).column(),
            final(self).chains() == ({
                let entry = SecondaryIndexEntry {
                    value,
                    row_locator,
                    begin_ts,
                    end_ts: u64::MAX,
                    txn_id,
                };
                let place = chain_place(old(self).chains(), value, 0);
                if place < old(self).chains().len() {
                    old(self).chains().update(
                        place,
                        ChainView {
                            value,
                            entries: chain_of(old(self).chains(), value).push(entry),
                        },
                    )
                } else {
                    old(self).chains().push(ChainView { value, entries: seq![entry] })
                }
            }),
    {
        let entry: SecondaryIndexEntry = SecondaryIndexEntry {
            value,
            row_locator,
            begin_ts,
            end_ts: u64::MAX,
            txn_id,
        };
        let ghost before = self.chains();
        let place: usize = self.find_chain(value);
        let ghost here = self.chains@;
        if place < self.chains.len() {
            self.chains[place].entries.push(entry);
            proof {
                assert forall|i: int| 0 <= i < self.chains@.len() implies (
                #[trigger] self.chains@[i]).value == here[i].value by {}
                lemma_same_places(self.places@, here, self.chains@);
            }
            assert(self.chains() =~= before.update(
                place as int,
                ChainView { value, entries: before[place as int].entries.push(entry) },
            ));
        } else {
            let mut entries: Vec<SecondaryIndexEntry> = Vec::new();
            entries.push(entry);
            assert(entries@ =~= seq![entry]);
            let _place: Option<usize> = self.places.insert(value, self.chains.len());
            self.chains.push(Chain { value, entries });
            proof {
                assert forall|i: int| 0 <= i < here.len() implies (#[trigger] here[i]).value
                    != value by {
                    assert(before[i] == here[i]@);
                }
                assert forall|i: int| 0 <= i < here.len() implies #[trigger] self.chains@[i]
                    == here[i] by {}
                assert(places_match(self.places@, self.chains@)) by {
                    assert forall|i: int| 0 <= i < self.chains@.len() implies
                        self.places@.contains_key((#[trigger] self.chains@[i]).value)
                        && self.places@[self.chains@[i].value] == i by {
                        if i < here.len() {
                            assert(here[i].value != value);
                        }
                    }
                }
            }
            assert(self.chains() =~= before.push(ChainView { value, entries: seq![entry] }));
        }
    }

    /// The rows with a value that a reader sees.
    pub fn lookup(&self, value: i64, read_ts: u64) -> (r: Vec<RowLocator>)
        requires
            self.wf(),
        ensures
            r@ == seen(chain_of(self.chains(), value), read_ts),
    {
        let place: usize = self.find_chain(value);
        if place < self.chains.len() {
            assert(self.chains()[place as int] == self.chains@[place as int]@);
            let mut out: Vec<RowLocator> = Vec::new();
            push_seen(&mut out, &self.chains[place].entries, read_ts);
            assert(out@ =~= seen(self.chains@[place as int].entries@, read_ts));
            out
        } else {
            let out: Vec<RowLocator> = Vec::new();
            proof {
                reveal(Seq::filter);
                assert(out@ =~= seen(seq![], read_ts));
            }
            out
        }
    }

    /// The rows with values from `lo` to `hi` that a reader sees.
    pub fn lookup_range(&self, lo: i64, hi: i64, read_ts: u64) -> (r: Vec<RowLocator>)
        ensures
            r@ == range_seen(self.chains(), lo, hi, read_ts, self.chains().len() as int),
    {
        let ghost all = self.chains();
        let mut out: Vec<RowLocator> = Vec::new();
        let mut i: usize = 0;
        while i < self.chains.len()
            invariant
                i <= self.chains@.len(),
                all == self.chains(),
                out@ == range_seen(all, lo, hi, read_ts, i as int),
            decreases self.chains@.len() - i,
        {
            assert(all[i as int] == self.chains@[i as int]@);
            let value: i64 = self.chains[i].value;
            if lo <= value && value <= hi {
                push_seen(&mut out, &self.chains[i].entries, read_ts);
            }
            i = i + 1;
        }
        out
    }

    /// Ends the entries of a value that began at `old_begin_ts`.
    pub fn supersede(&mut self, value: i64, old_begin_ts: u64, new_end_ts: u64)
        requires
            old(self).wf(),
        ensures
            final(self).wf(),
            final(self).column() == old(self).column(),
            final(self).chains() == ({
                let place = chain_place(old(self).chains(), value, 0);
                if place < old(self).chains().len() {
                    old(self).chains().update(
                        place,
                        ChainView {
                            value,
                            entries: chain_of(old(self).chains(), value).map_values(
                                ended(old_begin_ts, new_end_ts),
                            ),
                        },
                    )
                } else {
                    old(self).chains()
                }
            }),
    {
        let ghost before = self.chains();
        let place: usize = self.find_chain(value);
        if place < self.chains.len() {
            let ghost f = ended(old_begin_ts, new_end_ts);
            let mut entries: Vec<SecondaryIndexEntry> = Vec::new();
            let chain: &Vec<SecondaryIndexEntry> = &self.chains[place].entries;
            let mut i: usize = 0;
            while i < chain.len()
                invariant
                    i <= chain@.len(),
                    f == ended(old_begin_ts, new_end_ts),
                    entries@ == chain@.take(i as int).map_values(f),
                decreases chain@.len() - i,
            {
                let mut e: SecondaryIndexEntry = chain[i];
                if e.begin_ts == old_begin_ts {
                    e.end_ts = new_end_ts;
                }
                entries.push(e);
                i = i + 1;
                assert(entries@ =~= chain@.take(i as int).map_values(f));
            }
            assert(chain@.take(i as int) =~= chain@);
            let ghost here = self.chains@;
            self.chains.set(place, Chain { value, entries });
            proof {
                assert forall|k: int| 0 <= k < self.chains@.len() implies (
                #[trigger] self.chains@[k]).value == here[k].value by {}
                lemma_same_places(self.places@, here, self.chains@);
            }
            assert(self.chains() =~= before.update(
                place as int,
                ChainView { value, entries: before[place as int].entries.map_values(f) },
            ));
        }
    }

    /// Drops the entries that ended before `min_ts`, and values without
    /// entries. Returns how many entries went.
    pub fn gc(&mut self, min_ts: u64) -> (r: usize)
        requires
            old(self).wf(),
            entry_total(old(self).chains(), old(self).chains().len() as int) <= usize::MAX,
        ensures
            final(self).wf(),
            final(self).column() == old(self).column(),
            final(self).chains() == collected(
                old(self).chains(),
                min_ts,
                old(self).chains().len() as int,
            ),
            r == entry_total(old(self).chains(), old(self).chains().len() as int) - entry_total(
                final(self).chains(),
                final(self).chains().len() as int,
            ),
    {
        let ghost all = self.chains();
        let ghost n = all.len() as int;
        let mut kept: Vec<Chain> = Vec::new();
        let mut removed: usize = 0;
        let mut i: usize = 0;
        assert(chain_views(kept@) =~= collected(all, min_ts, 0));
        while i < self.chains.len()
            invariant
                i <= self.chains@.len(),
                n == all.len() == self.chains@.len(),
                all == self.chains(),
                old(self).chains() == all,
                *self == *old(self),
                entry_total(all, n) <= usize::MAX,
                chain_views(kept@) == collected(all, min_ts, i as int),
                removed == entry_total(all, i as int) - entry_total(
                    chain_views(kept@),
                    kept@.len() as int,
                ),
            decreases self.chains@.len() - i,
        {
            assert(all[i as int] == self.chains@[i as int]@);
            let value: i64 = self.chains[i].value;
            let rest: Vec<SecondaryIndexEntry> = keep_from(&self.chains[i].entries, min_ts);
            let before: usize = self.chains[i].entries.len();
            proof {
                crate::sequences::lemma_filter_len(all[i as int].entries, kept_from(min_ts));
                lemma_total_grows(all, i + 1, n);
            }
            let gone: usize = before - rest.len();
            removed = removed + gone;
            if rest.len() > 0 {
                let ghost earlier = chain_views(kept@);
                let chain: Chain = Chain { value, entries: rest };
                kept.push(chain);
                proof {
                    assert(chain_views(kept@) =~= earlier.push(chain@));
                    lemma_total_prefix(earlier, chain_views(kept@), earlier.len() as int);
                }
            }
            i = i + 1;
        }
        proof {
            lemma_collected_wf(all, min_ts, n);
            let now = chain_views(kept@);
            assert forall|a: int, b: int| 0 <= a < b < kept@.len() implies (
            #[trigger] kept@[a]).value != (#[trigger] kept@[b]).value by {
                assert(now[a] == kept@[a]@ && now[b] == kept@[b]@);
            }
        }
        self.places = places_of(&kept);
        self.chains = kept;
        removed
    }

    /// Moves the entries of the row at a block and slot to its new place.
    pub fn relocate(
        &mut self,
        old_block: BlockId,
        old_slot: SlotId,
        new_segment: SegmentId,
        new_block: BlockId,
        new_slot: SlotId,
    )
        requires
            old(self).wf(),
        ensures
            final(self).wf(),
            final(self).column() == old(self).column(),
            final(self).chains() == changed(
                old(self).chains(),
                moved(
                    old_block,
                    old_slot,
                    (RowLocator { segment: new_segment, block: new_block, slot: new_slot }),
                ),
            ),
    {
        let ghost all = self.chains();
        let to: RowLocator = RowLocator::new(new_segment, new_block, new_slot);
        let ghost f = moved(old_block, old_slot, to);
        let mut out: Vec<Chain> = Vec::new();
        let mut i: usize = 0;
        assert(chain_views(out@) =~= changed(all, f).take(0));
        while i < self.chains.len()
            invariant
                i <= self.chains@.len(),
                all == self.chains(),
                *self == *old(self),
                f == moved(old_block, old_slot, to),
                chain_views(out@) == changed(all, f).take(i as int),
            decreases self.chains@.len() - i,
        {
            assert(all[i as int] == self.chains@[i as int]@);
            let chain: &Vec<SecondaryIndexEntry> = &self.chains[i].entries;
            let value: i64 = self.chains[i].value;
            let mut entries: Vec<SecondaryIndexEntry> = Vec::new();
            let mut k: usize = 0;
            while k < chain.len()
                invariant
                    k <= chain@.len(),
                    f == moved(old_block, old_slot, to),
                    entries@ == chain@.take(k as int).map_values(f),
                decreases chain@.len() - k,
            {
                let mut e: SecondaryIndexEntry = chain[k];
                if e.row_locator.block.0 == old_block.0 && e.row_locator.slot.0 == old_slot.0 {
                    e.row_locator = to;
                }
                entries.push(e);
                k = k + 1;
                assert(entries@ =~= chain@.take(k as int).map_values(f));
            }
            assert(chain@.take(k as int) =~= chain@);
            let ghost earlier = chain_views(out@);
            let c: Chain = Chain { value, entries };
            out.push(c);
            i = i + 1;
            assert(chain_views(out@) =~= earlier.push(c@));
            assert(changed(all, f).take(i as int) =~= earlier.push(changed(all, f)[i - 1]));
        }
        assert(changed(all, f).take(i as int) =~= changed(all, f));
        proof {
            assert forall|k: int| 0 <= k < out@.len() implies (#[trigger] out@[k]).value
                == self.chains@[k].value by {
                assert(chain_views(out@)[k] == out@[k]@);
                assert(all[k] == self.chains@[k]@);
            }
            lemma_same_places(self.places@, self.chains@, out@);
        }
        self.chains = out;
    }

    /// The number of different values.
    pub fn value_count(&self) -> (r: usize)
        ensures
            r == self.chains().len(),
    {
        self.chains.len()
    }

    /// The number of entries, old versions among them.
    pub fn entry_count(&self) -> (r: usize)
        requires
            entry_total(self.chains(), self.chains().len() as int) <= usize::MAX,
        ensures
            r == entry_total(self.chains(), self.chains().len() as int),
    {
        let ghost all = self.chains();
        let mut total: usize = 0;
        let mut i: usize = 0;
        while i < self.chains.len()
            invariant
                i <= self.chains@.len(),
                all == self.chains(),
                entry_total(all, all.len() as int) <= usize::MAX,
                total == entry_total(all, i as int),
            decreases self.chains@.len() - i,
        {
            assert(all[i as int] == self.chains@[i as int]@);
            proof {
                lemma_total_grows(all, i + 1, all.len() as int);
            }
            total = total + self.chains[i].entries.len();
            i = i + 1;
        }
        total
    }
}

/// The place of each value's chain.
fn places_of(chains: &Vec<Chain>) -> (r: HashMap<i64, usize>)
    requires
        forall|i: int, j: int|
            0 <= i < j < chains@.len() ==> (#[trigger] chains@[i]).value != (
            #[trigger] chains@[j]).value,
    ensures
        places_match(r@, chains@),
{
    let mut out: HashMap<i64, usize> = HashMap::new();
    let mut i: usize = 0;
    while i < chains.len()
        invariant
            i <= chains@.len(),
            forall|j: int, k: int|
                0 <= j < k < chains@.len() ==> (#[trigger] chains@[j]).value != (
                #[trigger] chains@[k]).value,
            forall|v: i64| #[trigger]
                out@.contains_key(v) ==> out@[v] < i && chains@[out@[v] as int].value == v,
            forall|j: int|
                0 <= j < i ==> out@.contains_key((#[trigger] chains@[j]).value)
                    && out@[chains@[j].value] == j,
        decreases chains@.len() - i,
    {
        let _earlier: Option<usize> = out.insert(chains[i].value, i);
        i = i + 1;
    }
    out
}

proof fn lemma_same_places(places: Map<i64, usize>, before: Seq<Chain>, now: Seq<Chain>)
    requires
        places_match(places, before),
        before.len() == now.len(),
        forall|i: int| 0 <= i < now.len() ==> (#[trigger] now[i]).value == before[i].value,
    ensures
        places_match(places, now),
{
    assert forall|v: i64| #[trigger] places.contains_key(v) implies places[v] < now.len()
        && now[places[v] as int].value == v by {
        assert(before[places[v] as int].value == v);
    }
    assert forall|i: int| 0 <= i < now.len() implies places.contains_key(
        (#[trigger] now[i]).value,
    ) && places[now[i].value] == i by {
        assert(places[before[i].value] == i);
    }
}

/// Adds the places that a reader sees in a chain.
fn push_seen(out: &mut Vec<RowLocator>, chain: &Vec<SecondaryIndexEntry>, read_ts: u64)
    ensures
        final(out)@ == old(out)@ + seen(chain@, read_ts),
{
    let ghost p = visible_at(read_ts);
    let mut i: usize = 0;
    proof {
        reveal(Seq::filter);
        assert(out@ =~= old(out)@ + seen(chain@.take(0), read_ts));
    }
    while i < chain.len()
        invariant
            i <= chain@.len(),
            p == visible_at(read_ts),
            out@ == old(out)@ + seen(chain@.take(i as int), read_ts),
        decreases chain@.len() - i,
    {
        let e: SecondaryIndexEntry = chain[i];
        proof {
            assert(chain@.take(i + 1) =~= chain@.take(i as int).push(e));
            lemma_filter_push(chain@.take(i as int), e, p);
        }
        let ghost kept = chain@.take(i as int).filter(p);
        if e.begin_ts <= read_ts && e.end_ts > read_ts {
            out.push(e.row_locator);
            assert(kept.push(e).map_values(locator()) =~= kept.map_values(locator()).push(
                e.row_locator,
            ));
            assert(out@ =~= old(out)@ + seen(chain@.take(i + 1), read_ts));
        }
        i = i + 1;
    }
    assert(chain@.take(i as int) =~= chain@);
}

/// The entries of a chain that outlive a collection of garbage.
fn keep_from(chain: &Vec<SecondaryIndexEntry>, min_ts: u64) -> (r: Vec<SecondaryIndexEntry>)
    ensures
        r@ == chain@.filter(kept_from(min_ts)),
{
    let ghost p = kept_from(min_ts);
    let mut out: Vec<SecondaryIndexEntry> = Vec::new();
    let mut i: usize = 0;
    proof {
        reveal(Seq::filter);
        assert(out@ =~= chain@.take(0).filter(p));
    }
    while i < chain.len()
        invariant
            i <= chain@.len(),
            p == kept_from(min_ts),
            out@ == chain@.take(i as int).filter(p),
        decreases chain@.len() - i,
    {
        let e: SecondaryIndexEntry = chain[i];
        proof {
            assert(chain@.take(i + 1) =~= chain@.take(i as int).push(e));
            lemma_filter_push(chain@.take(i as int), e, p);
        }
        if e.end_ts >= min_ts {
            out.push(e);
        }
        i = i + 1;
    }
    assert(chain@.take(i as int) =~= chain@);
    out
}

proof fn lemma_total_grows(chains: Seq<ChainView>, m: int, n: int)
    requires
        0 <= m <= n,
    ensures
        entry_total(chains, m) <= entry_total(chains, n),
    decreases n,
{
    if m < n {
        lemma_total_grows(chains, m, n - 1);
    }
}

proof fn lemma_total_prefix(a: Seq<ChainView>, b: Seq<ChainView>, n: int)
    requires
        0 <= n <= a.len(),
        n <= b.len(),
        forall|i: int| 0 <= i < n ==> #[trigger] a[i] == b[i],
    ensures
        entry_total(a, n) == entry_total(b, n),
    decreases n,
{
    if n > 0 {
        lemma_total_prefix(a, b, n - 1);
        assert(a[n - 1] == b[n - 1]);
    }
}

/// Whether each value has one chain.
pub open spec fn distinct_values(chains: Seq<ChainView>) -> bool {
    forall|i: int, j: int|
        0 <= i < j < chains.len() ==> (#[trigger] chains[i]).value != (#[trigger] chains[j]).value
}

proof fn lemma_collected_wf(chains: Seq<ChainView>, min_ts: u64, n: int)
    requires
        distinct_values(chains),
        0 <= n <= chains.len(),
    ensures
        distinct_values(collected(chains, min_ts, n)),
        forall|i: int|
            0 <= i < collected(chains, min_ts, n).len() ==> (#[trigger] collected(
                chains,
                min_ts,
                n,
            )[i]).entries.len() > 0,
        forall|i: int|
            0 <= i < collected(chains, min_ts, n).len() ==> exists|j: int|
                0 <= j < n && (#[trigger] chains[j]).value == (#[trigger] collected(
                    chains,
                    min_ts,
                    n,
                )[i]).value,
    decreases n,
{
    if n > 0 {
        lemma_collected_wf(chains, min_ts, n - 1);
        let before = collected(chains, min_ts, n - 1);
        let now = collected(chains, min_ts, n);
        assert forall|i: int| 0 <= i < now.len() implies exists|j: int|
            0 <= j < n && (#[trigger] chains[j]).value == (#[trigger] now[i]).value by {
            if i < before.len() {
                assert(now[i] == before[i]);
            } else {
                assert(chains[n - 1].value == now[i].value);
            }
        }
        assert forall|i: int, j: int| 0 <= i < j < now.len() implies (#[trigger] now[i]).value != (
        #[trigger] now[j]).value by {
            assert(now[i] == before[i]);
            if j < before.len() {
                assert(now[j] == before[j]);
            } else {
                let k = choose|k: int|
                    0 <= k < n - 1 && (#[trigger] chains[k]).value == before[i].value;
                assert(chains[k].value != chains[n - 1].value);
            }
        }
    }
}

proof fn lemma_chain_place(chains: Seq<ChainView>, value: i64, k: int)
    requires
        0 <= k <= chains.len(),
    ensures
        k <= chain_place(chains, value, k) <= chains.len(),
        chain_place(chains, value, k) < chains.len() ==> chains[chain_place(
            chains,
            value,
            k,
        )].value == value,
        forall|i: int| k <= i < chain_place(chains, value, k) ==> (#[trigger] chains[i]).value
            != value,
    decreases chains.len() - k,
{
    if k < chains.len() && chains[k].value != value {
        lemma_chain_place(chains, value, k + 1);
    }
}

proof fn lemma_chain_at(chains: Seq<ChainView>, value: i64, i: int)
    requires
        distinct_values(chains),
        0 <= i < chains.len(),
        chains[i].value == value,
    ensures
        chain_of(chains, value) == chains[i].entries,
{
    lemma_chain_place(chains, value, 0);
    let p = chain_place(chains, value, 0);
    if p < i {
        assert(chains[p].value != chains[i].value);
    }
}

proof fn lemma_chain_absent(chains: Seq<ChainView>, value: i64)
    requires
        forall|i: int| 0 <= i < chains.len() ==> (#[trigger] chains[i]).value != value,
    ensures
        chain_of(chains, value) == Seq::<SecondaryIndexEntry>::empty(),
{
    lemma_chain_place(chains, value, 0);
}

proof fn lemma_collected_chain(chains: Seq<ChainView>, min_ts: u64, value: i64, n: int)
    requires
        distinct_values(chains),
        0 <= n <= chains.len(),
    ensures
        chain_of(collected(chains, min_ts, n), value) == chain_of(chains.take(n), value).filter(
            kept_from(min_ts),
        ),
    decreases n,
{
    let p = kept_from(min_ts);
    reveal(Seq::filter);
    let now = collected(chains, min_ts, n);
    if n > 0 {
        lemma_collected_chain(chains, min_ts, value, n - 1);
        lemma_collected_wf(chains, min_ts, n);
        lemma_collected_wf(chains, min_ts, n - 1);
        let before = collected(chains, min_ts, n - 1);
        let last = chains[n - 1];
        let front = chains.take(n - 1);
        let head = chains.take(n);
        assert(head =~= front.push(last));
        lemma_chain_place(front, value, 0);
        lemma_chain_place(before, value, 0);
        if last.value == value {
            assert(head[n - 1].value == value);
            lemma_chain_at(head, value, n - 1);
            if last.entries.filter(p).len() > 0 {
                lemma_chain_at(now, value, now.len() - 1);
            } else {
                assert forall|i: int| 0 <= i < now.len() implies (#[trigger] now[i]).value
                    != value by {
                    let k = choose|k: int|
                        0 <= k < n - 1 && (#[trigger] chains[k]).value == before[i].value;
                    assert(chains[k].value != chains[n - 1].value);
                }
                lemma_chain_absent(now, value);
                assert(last.entries.filter(p) =~= Seq::<SecondaryIndexEntry>::empty());
            }
        } else {
            let pf = chain_place(front, value, 0);
            if pf < front.len() {
                assert(head[pf] == front[pf]);
                lemma_chain_at(head, value, pf);
            } else {
                assert forall|i: int| 0 <= i < head.len() implies (#[trigger] head[i]).value
                    != value by {
                    if i < n - 1 {
                        assert(head[i] == front[i]);
                    }
                }
                lemma_chain_absent(head, value);
            }
            let pb = chain_place(before, value, 0);
            if pb < before.len() {
                assert(now[pb] == before[pb]);
                lemma_chain_at(now, value, pb);
            } else {
                assert forall|i: int| 0 <= i < now.len() implies (#[trigger] now[i]).value
                    != value by {
                    if i < before.len() {
                        assert(now[i] == before[i]);
                    }
                }
                lemma_chain_absent(now, value);
            }
        }
    } else {
        assert(chains.take(0).len() == 0);
        lemma_chain_absent(now, value);
        lemma_chain_absent(chains.take(0), value);
    }
}

/// Collecting garbage up to `min_ts` changes nothing for readers from just
/// before `min_ts` on.
pub proof fn law_gc_keeps_visible(
    chains: Seq<ChainView>,
    min_ts: u64,
    value: i64,
    read_ts: u64,
)
    requires
        distinct_values(chains),
        read_ts + 1 >= min_ts,
    ensures
        seen(chain_of(collected(chains, min_ts, chains.len() as int), value), read_ts) == seen(
            chain_of(chains, value),
            read_ts,
        ),
{
    let n = chains.len() as int;
    assert(chains.take(n) =~= chains);
    lemma_collected_chain(chains, min_ts, value, n);
    let chain = chain_of(chains, value);
    crate::sequences::lemma_filter_twice(
        chain,
        kept_from(min_ts),
        visible_at(read_ts),
        visible_at(read_ts),
    );
}

proof fn lemma_ended_filter(chain: Seq<SecondaryIndexEntry>, b: u64, e: u64, read_ts: u64)
    requires
        forall|i: int|
            0 <= i < chain.len() && (#[trigger] chain[i]).begin_ts == b ==> chain[i].end_ts
                > read_ts,
        read_ts < e,
    ensures
        seen(chain.map_values(ended(b, e)), read_ts) == seen(chain, read_ts),
    decreases chain.len(),
{
    reveal(Seq::filter);
    let p = visible_at(read_ts);
    let f = ended(b, e);
    if chain.len() > 0 {
        let front = chain.drop_last();
        let last = chain.last();
        assert forall|i: int|
            0 <= i < front.len() && (#[trigger] front[i]).begin_ts == b implies front[i].end_ts
            > read_ts by {
            assert(front[i] == chain[i]);
        }
        lemma_ended_filter(front, b, e, read_ts);
        assert(chain =~= front.push(last));
        assert(chain.map_values(f) =~= front.map_values(f).push(f(last)));
        lemma_filter_push(front, last, p);
        lemma_filter_push(front.map_values(f), f(last), p);
        assert(chain[chain.len() - 1] == last);
        let a1 = front.filter(p);
        let a2 = front.map_values(f).filter(p);
        assert(a1.push(last).map_values(locator()) =~= a1.map_values(locator()).push(
            last.row_locator,
        ));
        assert(a2.push(f(last)).map_values(locator()) =~= a2.map_values(locator()).push(
            last.row_locator,
        ));
    } else {
        assert(chain.map_values(f) =~= chain);
    }
}

/// Superseding live entries at `new_end_ts` changes nothing for readers before
/// that time, and hides the entries from readers from it on.
pub proof fn law_supersede_by_time(
    chain: Seq<SecondaryIndexEntry>,
    old_begin_ts: u64,
    new_end_ts: u64,
    read_ts: u64,
)
    requires
        forall|i: int|
            0 <= i < chain.len() && (#[trigger] chain[i]).begin_ts == old_begin_ts
                ==> chain[i].end_ts == u64::MAX,
        read_ts < u64::MAX,
    ensures
        read_ts < new_end_ts ==> seen(
            chain.map_values(ended(old_begin_ts, new_end_ts)),
            read_ts,
        ) == seen(chain, read_ts),
        read_ts >= new_end_ts ==> forall|i: int|
            0 <= i < chain.len() && (#[trigger] chain[i]).begin_ts == old_begin_ts
                ==> !visible_at(read_ts)(chain.map_values(ended(old_begin_ts, new_end_ts))[i]),
{
    if read_ts < new_end_ts {
        lemma_ended_filter(chain, old_begin_ts, new_end_ts, read_ts);
    }
}

/// After a compaction every reader sees the same rows, the moved one at its
/// new place.
pub proof fn law_relocate_moves_rows(
    chain: Seq<SecondaryIndexEntry>,
    block: BlockId,
    slot: SlotId,
    to: RowLocator,
    read_ts: u64,
)
    ensures
        seen(chain.map_values(moved(block, slot, to)), read_ts) == seen(
            chain,
            read_ts,
        ).map_values(
            |l: RowLocator|
                if l.block == block && l.slot == slot {
                    to
                } else {
                    l
                },
        ),
    decreases chain.len(),
{
    reveal(Seq::filter);
    let p = visible_at(read_ts);
    let f = moved(block, slot, to);
    let g = |l: RowLocator|
        if l.block == block && l.slot == slot {
            to
        } else {
            l
        };
    if chain.len() > 0 {
        let front = chain.drop_last();
        let last = chain.last();
        law_relocate_moves_rows(front, block, slot, to, read_ts);
        assert(chain =~= front.push(last));
        assert(chain.map_values(f) =~= front.map_values(f).push(f(last)));
        lemma_filter_push(front, last, p);
        lemma_filter_push(front.map_values(f), f(last), p);
        let a1 = front.filter(p);
        let a2 = front.map_values(f).filter(p);
        assert(a1.push(last).map_values(locator()).map_values(g) =~= a1.map_values(
            locator(),
        ).map_values(g).push(g(last.row_locator)));
        assert(a2.push(f(last)).map_values(locator()) =~= a2.map_values(locator()).push(
            f(last).row_locator,
        ));
    } else {
        assert(chain.map_values(f) =~= chain);
        assert(seen(chain, read_ts).map_values(g) =~= seen(chain, read_ts));
    }
}

} // verus!
