//! Snippets: short pieces of a text around the densest cluster of matches,
//! with the matches marked.

use vstd::prelude::*;

use crate::search::fuzzy::slices;
use crate::search::stemmer::{find_word_end, lemma_word_end, word_end};
use crate::text::{
    chars_of, is_alphanumeric, is_letter_or_number, lowercase, same_text, string_of, texts,
    to_lowercase,
};

verus! {

/// Where a matched word begins and where it ends, in characters.
struct Match {
    start: usize,
    end: usize,
}

/// The places of the matches.
pub type Place = (int, int);

spec fn place_of(m: Match) -> Place {
    (m.start as int, m.end as int)
}

spec fn places(ms: Seq<Match>) -> Seq<Place> {
    ms.map_values(|m: Match| place_of(m))
}

/// The terms in lower case, without empty ones.
pub open spec fn needles(terms: Seq<Seq<char>>) -> Seq<Seq<char>> {
    terms.map_values(|t: Seq<char>| lowercase(t)).filter(|t: Seq<char>| t.len() > 0)
}

/// The words of the text from `i` on whose lower-case form is one of the
/// wanted ones.
pub open spec fn matches_from(s: Seq<char>, wanted: Seq<Seq<char>>, i: int) -> Seq<Place>
    decreases s.len() - i,
{
    if i < 0 || i >= s.len() {
        seq![]
    } else if is_letter_or_number(s[i]) && i < word_end(s, i) <= s.len() {
        let e = word_end(s, i);
        let rest = matches_from(s, wanted, e);
        if wanted.contains(lowercase(s.subrange(i, e))) {
            seq![(i, e)] + rest
        } else {
            rest
        }
    } else {
        matches_from(s, wanted, i + 1)
    }
}

/// The matches of the terms in a text.
pub open spec fn matches_of(s: Seq<char>, terms: Seq<Seq<char>>) -> Seq<Place> {
    matches_from(s, needles(terms), 0)
}

/// How many of the first `n` matches begin within `len` characters from `from`
/// on.
pub open spec fn hits(ms: Seq<Place>, from: int, len: int, n: int) -> nat
    decreases n,
{
    if n <= 0 {
        0
    } else {
        hits(ms, from, len, n - 1) + if from <= ms[n - 1].0 < from + len {
            1nat
        } else {
            0nat
        }
    }
}

/// How many matches begin within `len` characters from `from` on.
pub open spec fn all_hits(ms: Seq<Place>, from: int, len: int) -> nat {
    hits(ms, from, len, ms.len() as int)
}

/// Of the first `n` matches, the number of the first one at which most matches
/// begin within `len` characters.
pub open spec fn densest(ms: Seq<Place>, len: int, n: int) -> int
    decreases n,
{
    if n <= 1 {
        0
    } else {
        let best = densest(ms, len, n - 1);
        if all_hits(ms, ms[n - 1].0, len) > all_hits(ms, ms[best].0, len) {
            n - 1
        } else {
            best
        }
    }
}

/// Where the match that begins at `i` ends, if one does; of several the first.
pub open spec fn match_end(ms: Seq<Place>, i: int, k: int) -> Option<int>
    decreases ms.len() - k,
{
    if k < 0 || k >= ms.len() {
        None
    } else if ms[k].0 == i {
        Some(ms[k].1)
    } else {
        match_end(ms, i, k + 1)
    }
}

/// The smaller of two numbers.
pub open spec fn at_most(a: int, b: int) -> int {
    if a <= b {
        a
    } else {
        b
    }
}

/// The text from `i` to `end` with the matches between tags; a match that goes
/// on beyond `end` is cut there.
pub open spec fn marked(s: Seq<char>, i: int, end: int, ms: Seq<Place>) -> Seq<char>
    decreases end - i,
{
    if i >= end {
        seq![]
    } else {
        match match_end(ms, i, 0) {
            Some(e) => {
                let stop = at_most(e, end);
                if stop > i {
                    "<mark>"@ + s.subrange(i, stop) + "</mark>"@ + marked(s, stop, end, ms)
                } else {
                    seq![]
                }
            },
            None => seq![s[i]] + marked(s, i + 1, end, ms),
        }
    }
}

/// Where the piece begins: at the match at which most matches begin within the
/// length of the piece, of several the first.
pub open spec fn snippet_start(s: Seq<char>, ms: Seq<Place>, max_length: int) -> int {
    ms[densest(ms, at_most(max_length, s.len() as int), ms.len() as int)].0
}

/// Where the piece ends.
pub open spec fn snippet_end(s: Seq<char>, ms: Seq<Place>, max_length: int) -> int {
    at_most(
        snippet_start(s, ms, max_length) + at_most(max_length, s.len() as int),
        s.len() as int,
    )
}

/// The piece, with an ellipsis on each side where the text goes on.
pub open spec fn snippet_of(s: Seq<char>, ms: Seq<Place>, max_length: int) -> Seq<char> {
    let start = snippet_start(s, ms, max_length);
    let end = snippet_end(s, ms, max_length);
    let front: Seq<char> = if start > 0 {
        "..."@
    } else {
        ""@
    };
    let back: Seq<char> = if end < s.len() {
        "..."@
    } else {
        ""@
    };
    front + marked(s, start, end, ms) + back
}

/// Matches are runs of at least one character within the text, in order and
/// apart.
pub open spec fn in_order(s: Seq<char>, ms: Seq<Place>, from: int) -> bool {
    &&& forall|k: int|
        0 <= k < ms.len() ==> from <= (#[trigger] ms[k]).0 < ms[k].1 <= s.len()
    &&& forall|k: int, j: int|
        0 <= k < j < ms.len() ==> (#[trigger] ms[k]).1 <= (#[trigger] ms[j]).0
}

/// The matches of a text are words of it, in order.
pub proof fn lemma_matches_in_order(s: Seq<char>, wanted: Seq<Seq<char>>, i: int)
    requires
        0 <= i,
    ensures
        in_order(s, matches_from(s, wanted, i), i),
    decreases s.len() - i,
{
    if i < s.len() {
        if is_letter_or_number(s[i]) {
            lemma_word_end(s, i);
            lemma_matches_in_order(s, wanted, word_end(s, i));
        } else {
            lemma_matches_in_order(s, wanted, i + 1);
        }
    }
}

proof fn lemma_densest(ms: Seq<Place>, len: int, n: int)
    requires
        0 < n <= ms.len(),
    ensures
        0 <= densest(ms, len, n) < n,
        forall|k: int|
            0 <= k < n ==> all_hits(ms, (#[trigger] ms[k]).0, len) <= all_hits(
                ms,
                ms[densest(ms, len, n)].0,
                len,
            ),
    decreases n,
{
    if n > 1 {
        lemma_densest(ms, len, n - 1);
    }
}

/// Every window holds no more matches than the one from its first match on.
proof fn lemma_window_moves(ms: Seq<Place>, from: int, len: int, k: int, n: int)
    requires
        0 <= k < ms.len(),
        0 <= n <= ms.len(),
        from <= ms[k].0,
        forall|j: int| 0 <= j < ms.len() && (#[trigger] ms[j]).0 >= from ==> ms[j].0 >= ms[k].0,
    ensures
        hits(ms, from, len, n) <= hits(ms, ms[k].0, len, n),
    decreases n,
{
    if n > 0 {
        lemma_window_moves(ms, from, len, k, n - 1);
    }
}

proof fn lemma_no_hits(ms: Seq<Place>, from: int, len: int, n: int)
    requires
        0 <= n <= ms.len(),
        forall|j: int| 0 <= j < ms.len() ==> (#[trigger] ms[j]).0 < from,
    ensures
        hits(ms, from, len, n) == 0,
    decreases n,
{
    if n > 0 {
        lemma_no_hits(ms, from, len, n - 1);
    }
}

proof fn lemma_first_from(ms: Seq<Place>, from: int, n: int) -> (k: int)
    requires
        0 < n <= ms.len(),
        exists|j: int| 0 <= j < n && (#[trigger] ms[j]).0 >= from,
    ensures
        0 <= k < n,
        ms[k].0 >= from,
        forall|j: int| 0 <= j < n && (#[trigger] ms[j]).0 >= from ==> ms[j].0 >= ms[k].0,
    decreases n,
{
    if exists|j: int| 0 <= j < n - 1 && (#[trigger] ms[j]).0 >= from {
        let k = lemma_first_from(ms, from, n - 1);
        if ms[n - 1].0 >= from && ms[n - 1].0 < ms[k].0 {
            n - 1
        } else {
            k
        }
    } else {
        n - 1
    }
}

/// The piece is centred on the densest cluster: no window of the same length
/// holds more match starts. It is no longer than asked for, lies in the text,
/// and holds at least one match start.
pub proof fn law_snippet_is_densest(s: Seq<char>, terms: Seq<Seq<char>>, max_length: int, from: int)
    requires
        matches_of(s, terms).len() > 0,
        max_length > 0,
    ensures
        ({
            let ms = matches_of(s, terms);
            let len = at_most(max_length, s.len() as int);
            let start = snippet_start(s, ms, max_length);
            let end = snippet_end(s, ms, max_length);
            &&& all_hits(ms, from, len) <= all_hits(ms, start, len)
            &&& all_hits(ms, start, len) > 0
            &&& 0 <= start < end <= s.len()
            &&& end - start <= max_length
        }),
{
    let ms = matches_of(s, terms);
    let len = at_most(max_length, s.len() as int);
    lemma_matches_in_order(s, needles(terms), 0);
    let n = ms.len() as int;
    lemma_densest(ms, len, n);
    let best = densest(ms, len, n);
    assert(ms[best].0 < ms[best].1 <= s.len());
    lemma_own_hit(ms, best, len, n);
    if exists|j: int| 0 <= j < n && (#[trigger] ms[j]).0 >= from {
        let k = lemma_first_from(ms, from, n);
        lemma_window_moves(ms, from, len, k, n);
    } else {
        lemma_no_hits(ms, from, len, n);
    }
}

proof fn lemma_own_hit(ms: Seq<Place>, k: int, len: int, n: int)
    requires
        0 <= k < n <= ms.len(),
        len > 0,
    ensures
        hits(ms, ms[k].0, len, n) > 0,
    decreases n,
{
    if k < n - 1 {
        lemma_own_hit(ms, k, len, n - 1);
    }
}

/// Without matches in it, a piece is the text itself.
pub proof fn law_unmarked_is_text(s: Seq<char>, i: int, end: int, ms: Seq<Place>)
    requires
        0 <= i <= end <= s.len(),
        forall|k: int| 0 <= k < ms.len() ==> !(i <= (#[trigger] ms[k]).0 < end),
    ensures
        marked(s, i, end, ms) == s.subrange(i, end),
    decreases end - i,
{
    if i < end {
        lemma_no_match_end(ms, i, 0);
        law_unmarked_is_text(s, i + 1, end, ms);
        assert(seq![s[i]] + s.subrange(i + 1, end) =~= s.subrange(i, end));
    }
}

proof fn lemma_no_match_end(ms: Seq<Place>, i: int, k: int)
    requires
        0 <= k,
        forall|j: int| 0 <= j < ms.len() ==> (#[trigger] ms[j]).0 != i,
    ensures
        match_end(ms, i, k) is None,
    decreases ms.len() - k,
{
    if k < ms.len() {
        lemma_no_match_end(ms, i, k + 1);
    }
}

/// Whether a row of strings holds a text.
fn holds(v: &Vec<String>, t: &str) -> (r: bool)
    ensures
        r == texts(v@).contains(t@),
{
    let mut i: usize = 0;
    while i < v.len()
        invariant
            i <= v@.len(),
            forall|k: int| 0 <= k < i ==> #[trigger] texts(v@)[k] != t@,
        decreases v@.len() - i,
    {
        if same_text(v[i].as_str(), t) {
            assert(texts(v@)[i as int] == t@);
            return true;
        }
        i = i + 1;
    }
    false
}

/// The terms in lower case, without empty ones.
fn lower_terms(terms: &[&str]) -> (r: Vec<String>)
    ensures
        texts(r@) == needles(slices(terms@)),
{
    let ghost all = slices(terms@).map_values(|t: Seq<char>| lowercase(t));
    let ghost full = |t: Seq<char>| t.len() > 0;
    let mut out: Vec<String> = Vec::new();
    let mut i: usize = 0;
    proof {
        reveal(Seq::filter);
        assert(texts(out@) =~= all.take(0).filter(full));
    }
    while i < terms.len()
        invariant
            i <= terms@.len(),
            all == slices(terms@).map_values(|t: Seq<char>| lowercase(t)),
            full == (|t: Seq<char>| t.len() > 0),
            texts(out@) == all.take(i as int).filter(full),
        decreases terms@.len() - i,
    {
        let lower: String = to_lowercase(terms[i]);
        proof {
            assert(lower@ == all[i as int]);
            assert(all.take(i + 1) =~= all.take(i as int).push(lower@));
            crate::sequences::lemma_filter_push(all.take(i as int), lower@, full);
        }
        if chars_of(lower.as_str()).len() > 0 {
            let ghost before = out@;
            out.push(lower);
            assert(texts(out@) =~= texts(before).push(lower@));
        }
        i = i + 1;
    }
    assert(all.take(i as int) =~= all);
    out
}

/// Finds the whole words of the text that equal one of the terms in any case.
fn find_matches(chars: &Vec<char>, query_terms: &[&str]) -> (r: Vec<Match>)
    ensures
        places(r@) == matches_of(chars@, slices(query_terms@)),
{
    let wanted: Vec<String> = lower_terms(query_terms);
    let ghost w = needles(slices(query_terms@));
    let mut out: Vec<Match> = Vec::new();
    let mut i: usize = 0;
    assert(places(out@) + matches_from(chars@, w, 0) =~= matches_of(
        chars@,
        slices(query_terms@),
    ));
    while i < chars.len()
        invariant
            i <= chars@.len(),
            texts(wanted@) == w,
            places(out@) + matches_from(chars@, w, i as int) == matches_of(
                chars@,
                slices(query_terms@),
            ),
        decreases chars@.len() - i,
    {
        if is_alphanumeric(chars[i]) {
            proof {
                lemma_word_end(chars@, i as int);
            }
            let e: usize = find_word_end(chars.as_slice(), i);
            let word: String = string_of(chars.as_slice(), i, e);
            let lower: String = to_lowercase(word.as_str());
            if holds(&wanted, lower.as_str()) {
                let ghost before = out@;
                out.push(Match { start: i, end: e });
                assert(places(out@) =~= places(before).push((i as int, e as int)));
                assert(places(out@) + matches_from(chars@, w, e as int) =~= places(before)
                    + matches_from(chars@, w, i as int));
            }
            i = e;
        } else {
            i = i + 1;
        }
    }
    assert(places(out@) + matches_from(chars@, w, i as int) =~= places(out@));
    out
}

/// How many matches begin within `len` characters from `from` on.
fn count_hits(ms: &Vec<Match>, from: usize, len: usize) -> (r: usize)
    ensures
        r == all_hits(places(ms@), from as int, len as int),
        r <= ms@.len(),
{
    let mut n: usize = 0;
    let mut i: usize = 0;
    while i < ms.len()
        invariant
            i <= ms@.len(),
            n <= i,
            n == hits(places(ms@), from as int, len as int, i as int),
        decreases ms@.len() - i,
    {
        assert(places(ms@)[i as int].0 == ms@[i as int].start);
        if ms[i].start >= from && ms[i].start - from < len {
            n = n + 1;
        }
        i = i + 1;
    }
    n
}

/// Where the match that begins at `i` ends, if one does.
fn find_match_end(ms: &Vec<Match>, i: usize) -> (r: Option<usize>)
    ensures
        match r {
            Some(e) => match_end(places(ms@), i as int, 0) == Some(e as int) && exists|k: int|
                0 <= k < ms@.len() && (#[trigger] ms@[k]).start == i && ms@[k].end == e,
            None => match_end(places(ms@), i as int, 0) is None,
        },
{
    let mut k: usize = 0;
    while k < ms.len()
        invariant
            k <= ms@.len(),
            match_end(places(ms@), i as int, k as int) == match_end(places(ms@), i as int, 0),
        decreases ms@.len() - k,
    {
        assert(places(ms@)[k as int] == place_of(ms@[k as int]));
        if ms[k].start == i {
            return Some(ms[k].end);
        }
        k = k + 1;
    }
    None
}

/// Writes the window with tags round the matches.
fn build_snippet(
    chars: &Vec<char>,
    win_start: usize,
    win_end: usize,
    matches: &Vec<Match>,
) -> (r: String)
    requires
        win_start <= win_end <= chars@.len(),
        forall|k: int|
            0 <= k < matches@.len() ==> (#[trigger] matches@[k]).start < matches@[k].end,
    ensures
        r@ == marked(chars@, win_start as int, win_end as int, places(matches@)),
{
    let mut out: String = String::new();
    let mut i: usize = win_start;
    let ghost ms = places(matches@);
    while i < win_end
        invariant
            win_start <= i <= win_end <= chars@.len(),
            ms == places(matches@),
            forall|k: int|
                0 <= k < matches@.len() ==> (#[trigger] matches@[k]).start < matches@[k].end,
            out@ + marked(chars@, i as int, win_end as int, ms) == marked(
                chars@,
                win_start as int,
                win_end as int,
                ms,
            ),
        decreases win_end - i,
    {
        let ghost before = out@;
        match find_match_end(matches, i) {
            Some(e) => {
                let stop: usize = if e < win_end {
                    e
                } else {
                    win_end
                };
                let piece: String = string_of(chars.as_slice(), i, stop);
                out.append("<mark>");
                out.append(piece.as_str());
                out.append("</mark>");
                assert(out@ + marked(chars@, stop as int, win_end as int, ms) =~= before + marked(
                    chars@,
                    i as int,
                    win_end as int,
                    ms,
                ));
                i = stop;
            },
            None => {
                out.push(chars[i]);
                assert(out@ + marked(chars@, i + 1, win_end as int, ms) =~= before + marked(
                    chars@,
                    i as int,
                    win_end as int,
                    ms,
                ));
                i = i + 1;
            },
        }
    }
    assert(out@ + marked(chars@, i as int, win_end as int, ms) =~= out@);
    out
}

/// A piece of at most `max_length` characters of the text around the densest
/// cluster of matches of the terms, each match between `<mark>` tags, with
/// `...` on each side where the text goes on. `None` where the text is empty,
/// the length is zero or no term matches.
pub fn generate_snippet(text: &str, query_terms: &[&str], max_length: usize) -> (r: Option<String>)
    ensures
        match r {
            Some(out) => max_length > 0 && matches_of(text@, slices(query_terms@)).len() > 0
                && out@ == snippet_of(
                text@,
                matches_of(text@, slices(query_terms@)),
                max_length as int,
            ),
            None => max_length == 0 || matches_of(text@, slices(query_terms@)).len() == 0,
        },
{
    let chars: Vec<char> = chars_of(text);
    let text_len: usize = chars.len();
    let ms: Vec<Match> = find_matches(&chars, query_terms);
    let ghost all = places(ms@);
    if max_length == 0 || ms.len() == 0 {
        return None;
    }
    proof {
        lemma_matches_in_order(text@, needles(slices(query_terms@)), 0);
        assert forall|k: int| 0 <= k < ms@.len() implies (#[trigger] ms@[k]).start < ms@[k].end
            && ms@[k].end <= text_len by {
            assert(all[k] == place_of(ms@[k]));
        }
    }
    let len: usize = if max_length < text_len {
        max_length
    } else {
        text_len
    };
    let mut best: usize = 0;
    let mut best_count: usize = count_hits(&ms, ms[0].start, len);
    let mut k: usize = 1;
    assert(all[0] == place_of(ms@[0]));
    while k < ms.len()
        invariant
            1 <= k <= ms@.len(),
            all == places(ms@),
            best < ms@.len(),
            best == densest(all, len as int, k as int),
            best_count == all_hits(all, all[best as int].0, len as int),
        decreases ms@.len() - k,
    {
        assert(all[k as int] == place_of(ms@[k as int]));
        let count: usize = count_hits(&ms, ms[k].start, len);
        if count > best_count {
            best_count = count;
            best = k;
        }
        k = k + 1;
    }
    assert(all[best as int] == place_of(ms@[best as int]));
    let start: usize = ms[best].start;
    let end: usize = if text_len - start < len {
        text_len
    } else {
        start + len
    };
    let body: String = build_snippet(&chars, start, end, &ms);
    let mut out: String = if start > 0 {
        "...".to_owned()
    } else {
        "".to_owned()
    };
    out.append(body.as_str());
    if end < text_len {
        out.append("...");
    } else {
        out.append("");
    }
    Some(out)
}

} // verus!
