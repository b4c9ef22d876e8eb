//! What a secondary index finds.

use vstd::prelude::*;

use crate::ids::RowLocator;
use crate::search::secondary::{
    chain_of, chain_place, collected, distinct_values, kept_from, range_seen, seen, visible_at,
    ChainView, SecondaryIndexEntry,
};
use crate::sequences::lemma_filter_contains;

verus! {

/// Whether an entry is live at a time: begun, and not yet ended.
pub open spec fn is_live(e: SecondaryIndexEntry, t: u64) -> bool {
    e.begin_ts <= t && t < e.end_ts
}

/// A reader sees the rows of the entries that are live at the reader's time.
pub proof fn law_seen_rows(chain: Seq<SecondaryIndexEntry>, t: u64, l: RowLocator)
    ensures
        seen(chain, t).contains(l) <==> exists|i: int|
            0 <= i < chain.len() && is_live(#[trigger] chain[i], t) && chain[i].row_locator == l,
{
    let p = visible_at(t);
    let s = chain.filter(p);
    let r = seen(chain, t);
    if r.contains(l) {
        let k = r.index_of(l);
        assert(s.contains(s[k]));
        lemma_filter_contains(chain, p, s[k]);
        let i = chain.index_of(s[k]);
        assert(is_live(chain[i], t) && chain[i].row_locator == l);
    }
    if exists|i: int|
        0 <= i < chain.len() && is_live(#[trigger] chain[i], t) && chain[i].row_locator == l {
        let i = choose|i: int|
            0 <= i < chain.len() && is_live(#[trigger] chain[i], t) && chain[i].row_locator == l;
        lemma_filter_contains(chain, p, chain[i]);
        assert(chain.contains(chain[i]));
        let k = s.index_of(chain[i]);
        assert(r[k] == l);
    }
}

/// A range lookup sees what lookups of the values from `lo` to `hi`, both of
/// them included, see.
pub proof fn law_range_rows(chains: Seq<ChainView>, lo: i64, hi: i64, t: u64, n: int, l: RowLocator)
    requires
        0 <= n <= chains.len(),
    ensures
        range_seen(chains, lo, hi, t, n).contains(l) <==> exists|k: int|
            0 <= k < n && lo <= (#[trigger] chains[k]).value && chains[k].value <= hi && seen(
                chains[k].entries,
                t,
            ).contains(l),
    decreases n,
{
    if n > 0 {
        law_range_rows(chains, lo, hi, t, n - 1, l);
        let before = range_seen(chains, lo, hi, t, n - 1);
        let here = seen(chains[n - 1].entries, t);
        let all = range_seen(chains, lo, hi, t, n);
        let inside = lo <= chains[n - 1].value && chains[n - 1].value <= hi;
        if before.contains(l) {
            let i = before.index_of(l);
            assert(all[i] == l);
            let k = choose|k: int|
                0 <= k < n - 1 && lo <= (#[trigger] chains[k]).value && chains[k].value <= hi
                    && seen(chains[k].entries, t).contains(l);
            assert(seen(chains[k].entries, t).contains(l));
        }
        if inside && here.contains(l) {
            let i = here.index_of(l);
            assert(all[before.len() + i] == l);
        }
        if all.contains(l) {
            let i = all.index_of(l);
            if i < before.len() {
                assert(before[i] == l);
            } else {
                assert(here[i - before.len()] == l);
            }
        }
    }
}

proof fn lemma_place(chains: Seq<ChainView>, value: i64, k: int)
    requires
        0 <= k <= chains.len(),
    ensures
        k <= chain_place(chains, value, k) <= chains.len(),
        forall|j: int|
            k <= j < chain_place(chains, value, k) ==> (#[trigger] chains[j]).value != value,
        chain_place(chains, value, k) < chains.len() ==> chains[chain_place(
            chains,
            value,
            k,
        )].value == value,
    decreases chains.len() - k,
{
    if k < chains.len() && chains[k].value != value {
        lemma_place(chains, value, k + 1);
    }
}

/// A lookup reads the chain of its value.
pub proof fn law_chain_of_value(chains: Seq<ChainView>, value: i64)
    requires
        distinct_values(chains),
    ensures
        forall|k: int|
            0 <= k < chains.len() && (#[trigger] chains[k]).value == value ==> chain_of(
                chains,
                value,
            ) == chains[k].entries,
        (forall|k: int| 0 <= k < chains.len() ==> (#[trigger] chains[k]).value != value)
            ==> chain_of(chains, value) == Seq::<SecondaryIndexEntry>::empty(),
{
    lemma_place(chains, value, 0);
    let p = chain_place(chains, value, 0);
    assert forall|k: int| 0 <= k < chains.len() && (#[trigger] chains[k]).value == value implies chain_of(
        chains,
        value,
    ) == chains[k].entries by {
        if k != p {
            if k < p {
                assert(chains[k].value != value);
            } else {
                assert(chains[p].value != chains[k].value);
            }
        }
    }
}

/// A range of one value sees what its lookup sees.
pub proof fn law_range_of_one(chains: Seq<ChainView>, value: i64, t: u64, l: RowLocator)
    requires
        distinct_values(chains),
    ensures
        range_seen(chains, value, value, t, chains.len() as int).contains(l) <==> seen(
            chain_of(chains, value),
            t,
        ).contains(l),
{
    let n = chains.len() as int;
    law_range_rows(chains, value, value, t, n, l);
    law_chain_of_value(chains, value);
    lemma_place(chains, value, 0);
    let p = chain_place(chains, value, 0);
    if p < n {
        assert(chains[p].value == value);
    } else {
        assert(seen(chain_of(chains, value), t) =~= seq![]) by {
            reveal(Seq::filter);
        }
    }
}

/// A collection of garbage drops what ended before its time and keeps the rest.
pub proof fn law_collected_entries(
    chains: Seq<ChainView>,
    min_ts: u64,
    n: int,
    value: i64,
    e: SecondaryIndexEntry,
)
    requires
        0 <= n <= chains.len(),
    ensures
        (exists|k: int|
            0 <= k < collected(chains, min_ts, n).len() && (#[trigger] collected(
                chains,
                min_ts,
                n,
            )[k]).value == value && collected(chains, min_ts, n)[k].entries.contains(e)) <==> (
        e.end_ts >= min_ts && exists|k: int|
            0 <= k < n && (#[trigger] chains[k]).value == value && chains[k].entries.contains(e)),
    decreases n,
{
    if n > 0 {
        law_collected_entries(chains, min_ts, n - 1, value, e);
        let before = collected(chains, min_ts, n - 1);
        let all = collected(chains, min_ts, n);
        let p = kept_from(min_ts);
        let rest = chains[n - 1].entries.filter(p);
        lemma_filter_contains(chains[n - 1].entries, p, e);
        if exists|k: int|
            0 <= k < before.len() && (#[trigger] before[k]).value == value
                && before[k].entries.contains(e) {
            let k = choose|k: int|
                0 <= k < before.len() && (#[trigger] before[k]).value == value
                    && before[k].entries.contains(e);
            assert(all[k] == before[k]);
            let j = choose|j: int|
                0 <= j < n - 1 && (#[trigger] chains[j]).value == value
                    && chains[j].entries.contains(e);
            assert(chains[j].entries.contains(e));
        }
        if chains[n - 1].value == value && rest.contains(e) {
            assert(rest.len() > 0);
            assert(all[before.len() as int].entries == rest);
        }
        if exists|k: int|
            0 <= k < all.len() && (#[trigger] all[k]).value == value && all[k].entries.contains(e) {
            let k = choose|k: int|
                0 <= k < all.len() && (#[trigger] all[k]).value == value && all[k].entries.contains(
                    e,
                );
            if k < before.len() {
                assert(before[k] == all[k]);
            } else {
                assert(all[k].entries == rest);
                assert(chains[n - 1].value == value);
            }
        }
    }
}

} // verus!
