//! What a snippet marks.

use vstd::prelude::*;

use crate::search::snippet::{
    at_most, in_order, marked, match_end, matches_from, matches_of, needles, Place,
};
use crate::search::stemmer::{lemma_word_end, word_end};
use crate::sequences::lemma_filter_contains;
use crate::text::{is_letter_or_number, lowercase};

verus! {

/// Whether a word stands between two places: letters and numbers, and none
/// before and behind them.
pub open spec fn is_word(s: Seq<char>, a: int, e: int) -> bool {
    &&& 0 <= a < e <= s.len()
    &&& forall|k: int| a <= k < e ==> is_letter_or_number(#[trigger] s[k])
    &&& a == 0 || !is_letter_or_number(s[a - 1])
    &&& e == s.len() || !is_letter_or_number(s[e])
}

/// Whether no word goes on at a place.
spec fn is_between(s: Seq<char>, i: int) -> bool {
    i == 0 || i >= s.len() || !is_letter_or_number(s[i]) || !is_letter_or_number(s[i - 1])
}

proof fn lemma_one_end(s: Seq<char>, a: int, e: int)
    requires
        is_word(s, a, e),
    ensures
        word_end(s, a) == e,
{
    lemma_word_end(s, a);
    let x = word_end(s, a);
    if x < e {
        assert(is_letter_or_number(s[x]));
    }
    if e < x {
        assert(is_letter_or_number(s[e]));
    }
}

proof fn lemma_found(s: Seq<char>, wanted: Seq<Seq<char>>, i: int, p: Place)
    requires
        0 <= i,
        is_between(s, i),
    ensures
        matches_from(s, wanted, i).contains(p) <==> p.0 >= i && is_word(s, p.0, p.1)
            && wanted.contains(lowercase(s.subrange(p.0, p.1))),
    decreases s.len() - i,
{
    let r = matches_from(s, wanted, i);
    if i < s.len() {
        if is_letter_or_number(s[i]) {
            lemma_word_end(s, i);
            let e = word_end(s, i);
            assert(is_word(s, i, e));
            lemma_found(s, wanted, e, p);
            let rest = matches_from(s, wanted, e);
            if is_word(s, p.0, p.1) && p.0 >= i {
                if p.0 == i {
                    lemma_one_end(s, i, p.1);
                } else if p.0 < e {
                    assert(is_letter_or_number(s[p.0 - 1]));
                }
            }
            if wanted.contains(lowercase(s.subrange(i, e))) {
                assert(r =~= seq![(i, e)] + rest);
                if rest.contains(p) {
                    assert(r[1 + rest.index_of(p)] == p);
                }
                if p == (i, e) {
                    assert(r[0] == p);
                }
                if r.contains(p) && p != (i, e) {
                    let k = r.index_of(p);
                    assert(rest[k - 1] == p);
                }
            }
        } else {
            lemma_found(s, wanted, i + 1, p);
            if is_word(s, p.0, p.1) && p.0 == i {
                assert(is_letter_or_number(s[i]));
            }
        }
    }
}

/// The matches of a text are its words that are, but for the case of letters,
/// one of the terms.
pub proof fn law_matches(s: Seq<char>, terms: Seq<Seq<char>>, p: Place)
    ensures
        matches_of(s, terms).contains(p) <==> is_word(s, p.0, p.1) && lowercase(
            s.subrange(p.0, p.1),
        ).len() > 0 && exists|j: int|
            0 <= j < terms.len() && lowercase(#[trigger] terms[j]) == lowercase(
                s.subrange(p.0, p.1),
            ),
{
    lemma_found(s, needles(terms), 0, p);
    let x = lowercase(s.subrange(p.0, p.1));
    let lower = terms.map_values(|t: Seq<char>| lowercase(t));
    lemma_filter_contains(lower, |t: Seq<char>| t.len() > 0, x);
    if lower.contains(x) {
        let j = lower.index_of(x);
        assert(lowercase(terms[j]) == x);
    }
    if exists|j: int| 0 <= j < terms.len() && lowercase(#[trigger] terms[j]) == x {
        let j = choose|j: int| 0 <= j < terms.len() && lowercase(#[trigger] terms[j]) == x;
        assert(lower[j] == x);
    }
}

proof fn lemma_no_match(ms: Seq<Place>, i: int, k: int)
    requires
        0 <= k,
        forall|j: int| k <= j < ms.len() ==> (#[trigger] ms[j]).0 != i,
    ensures
        match_end(ms, i, k) is None,
    decreases ms.len() - k,
{
    if k < ms.len() {
        lemma_no_match(ms, i, k + 1);
    }
}

proof fn lemma_the_match(s: Seq<char>, ms: Seq<Place>, n: int, k: int)
    requires
        in_order(s, ms, 0),
        0 <= k <= n < ms.len(),
    ensures
        match_end(ms, ms[n].0, k) == Some(ms[n].1),
    decreases n - k,
{
    if k < n {
        assert(ms[k].1 <= ms[n].0);
        lemma_the_match(s, ms, n, k + 1);
    }
}

/// A match is put between tags, cut at the end of the piece; what stands before
/// it is kept as it is, and behind it the marking goes on.
pub proof fn law_marked_match(s: Seq<char>, i: int, end: int, ms: Seq<Place>, n: int)
    requires
        in_order(s, ms, 0),
        0 <= i <= end <= s.len(),
        0 <= n < ms.len(),
        i <= ms[n].0 < end,
        n > 0 ==> ms[n - 1].0 < i,
    ensures
        marked(s, i, end, ms) == s.subrange(i, ms[n].0) + "<mark>"@ + s.subrange(
            ms[n].0,
            at_most(ms[n].1, end),
        ) + "</mark>"@ + marked(s, at_most(ms[n].1, end), end, ms),
    decreases ms[n].0 - i,
{
    let a = ms[n].0;
    if i == a {
        lemma_the_match(s, ms, n, 0);
        let stop = at_most(ms[n].1, end);
        let rest = marked(s, stop, end, ms);
        assert(s.subrange(i, a) =~= seq![]);
        assert("<mark>"@ + s.subrange(i, stop) + "</mark>"@ + rest =~= s.subrange(i, a) + "<mark>"@
            + s.subrange(a, stop) + "</mark>"@ + rest);
    } else {
        assert forall|j: int| 0 <= j < ms.len() implies (#[trigger] ms[j]).0 != i by {
            if j < n - 1 {
                assert(ms[j].1 <= ms[n - 1].0);
            } else if j > n {
                assert(ms[n].1 <= ms[j].0);
            }
        }
        lemma_no_match(ms, i, 0);
        law_marked_match(s, i + 1, end, ms, n);
        let stop = at_most(ms[n].1, end);
        let rest = marked(s, stop, end, ms);
        assert(s.subrange(i, a) =~= seq![s[i]] + s.subrange(i + 1, a));
        assert(marked(s, i, end, ms) =~= s.subrange(i, a) + "<mark>"@ + s.subrange(a, stop)
            + "</mark>"@ + rest);
    }
}

} // verus!
