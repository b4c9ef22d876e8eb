//! The order in which near terms are found.

use vstd::prelude::*;

use crate::search::fuzzy::{
    capped, distance, law_fuzzy_results, ranked_matches, text_before, Found,
};
use crate::sequences::lemma_filter_contains;

verus! {

/// Whether a text comes first: the two agree up to a place at which it ends or
/// has the smaller character.
pub open spec fn comes_first(a: Seq<char>, b: Seq<char>) -> bool {
    exists|k: int| #[trigger] parts_at(a, b, k)
}

/// Whether two texts agree up to a place and the first is ahead there.
pub open spec fn parts_at(a: Seq<char>, b: Seq<char>, k: int) -> bool {
    &&& 0 <= k <= a.len()
    &&& k < b.len()
    &&& a.take(k) == b.take(k)
    &&& k == a.len() || a[k] < b[k]
}

proof fn lemma_comes_first(a: Seq<char>, b: Seq<char>)
    ensures
        text_before(a, b) <==> comes_first(a, b),
    decreases a.len(),
{
    if b.len() == 0 {
        assert(!comes_first(a, b));
    } else if a.len() == 0 {
        assert(a.take(0) =~= b.take(0));
        assert(parts_at(a, b, 0));
    } else if a[0] == b[0] {
        let x = a.skip(1);
        let y = b.skip(1);
        lemma_comes_first(x, y);
        if comes_first(x, y) {
            let k = choose|k: int| #[trigger] parts_at(x, y, k);
            assert(a.take(k + 1) =~= seq![a[0]] + x.take(k));
            assert(b.take(k + 1) =~= seq![b[0]] + y.take(k));
            assert(parts_at(a, b, k + 1));
        }
        if comes_first(a, b) {
            let k = choose|k: int| #[trigger] parts_at(a, b, k);
            if k == 0 {
                assert(a[0] < b[0]);
            }
            assert(x.take(k - 1) =~= a.take(k).skip(1));
            assert(y.take(k - 1) =~= b.take(k).skip(1));
            assert(parts_at(x, y, k - 1));
        }
    } else {
        if a[0] < b[0] {
            assert(a.take(0) =~= b.take(0));
            assert(parts_at(a, b, 0));
        }
        if comes_first(a, b) {
            let k = choose|k: int| #[trigger] parts_at(a, b, k);
            if k > 0 {
                assert(a.take(k)[0] == b.take(k)[0]);
            }
        }
    }
}

/// The order of texts is that of their first difference.
pub proof fn law_text_order(a: Seq<char>, b: Seq<char>)
    ensures
        text_before(a, b) <==> comes_first(a, b),
{
    lemma_comes_first(a, b);
}

/// Terms are found the nearest first, and equally near ones in the order of
/// their texts.
pub proof fn law_nearest_first(
    term: Seq<char>,
    vocabulary: Seq<Seq<char>>,
    max_distance: nat,
    i: int,
    j: int,
)
    requires
        0 <= i < j < ranked_matches(term, vocabulary, max_distance, vocabulary.len() as int).len(),
    ensures
        ({
            let r = ranked_matches(term, vocabulary, max_distance, vocabulary.len() as int);
            &&& r[i].1 <= r[j].1
            &&& r[i].1 == r[j].1 ==> !comes_first(r[j].0, r[i].0)
        }),
{
    let r = ranked_matches(term, vocabulary, max_distance, vocabulary.len() as int);
    law_fuzzy_results(term, vocabulary, max_distance, vocabulary.len() as int);
    law_text_order(r[j].0, r[i].0);
}

proof fn lemma_matches(
    term: Seq<char>,
    vocabulary: Seq<Seq<char>>,
    max_distance: nat,
    n: int,
    x: Found,
)
    requires
        0 <= n <= vocabulary.len(),
    ensures
        ranked_matches(term, vocabulary, max_distance, n).contains(x) <==> x.1 == distance(
            term,
            x.0,
        ) && x.1 <= max_distance && exists|k: int|
            0 <= k < n && #[trigger] vocabulary[k] == x.0,
{
    broadcast use vstd::seq_lib::group_to_multiset_ensures;

    law_fuzzy_results(term, vocabulary, max_distance, n);
    let near = |w: Seq<char>| distance(term, w) <= max_distance;
    let pair = |w: Seq<char>| (w, distance(term, w));
    let r = ranked_matches(term, vocabulary, max_distance, n);
    let front = vocabulary.take(n);
    let kept = front.filter(near);
    let s = kept.map_values(pair);
    assert(r.to_multiset() == s.to_multiset());
    assert(r.contains(x) <==> r.to_multiset().count(x) > 0);
    assert(s.contains(x) <==> s.to_multiset().count(x) > 0);
    lemma_filter_contains(front, near, x.0);
    if s.contains(x) {
        let k = s.index_of(x);
        assert(kept[k] == x.0);
        assert(kept.contains(x.0));
        let m = front.index_of(x.0);
        assert(vocabulary[m] == x.0);
    }
    if x.1 == distance(term, x.0) && x.1 <= max_distance && exists|k: int|
        0 <= k < n && #[trigger] vocabulary[k] == x.0 {
        let k = choose|k: int| 0 <= k < n && #[trigger] vocabulary[k] == x.0;
        assert(front[k] == x.0);
        assert(front.contains(x.0));
        let m = kept.index_of(x.0);
        assert(s[m] == x);
    }
}

/// A term is found where it is within the distance, with its distance.
pub proof fn law_near_terms(
    term: Seq<char>,
    vocabulary: Seq<Seq<char>>,
    max_distance: nat,
    x: Found,
)
    ensures
        ranked_matches(term, vocabulary, max_distance, vocabulary.len() as int).contains(x) <==> x.1
            == distance(term, x.0) && x.1 <= max_distance && vocabulary.contains(x.0),
{
    lemma_matches(term, vocabulary, max_distance, vocabulary.len() as int, x);
    if vocabulary.contains(x.0) {
        let k = vocabulary.index_of(x.0);
        assert(vocabulary[k] == x.0);
    }
}

/// A limit keeps the first results.
pub proof fn law_limit(s: Seq<Found>, limit: int, i: int)
    requires
        0 <= limit,
    ensures
        capped(s, limit).len() <= limit,
        capped(s, limit).len() == limit || capped(s, limit).len() == s.len(),
        0 <= i < capped(s, limit).len() ==> capped(s, limit)[i] == s[i],
{
}

} // verus!
