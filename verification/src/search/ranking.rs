//! Scoring documents and putting them in order. A score is given by the bits
//! of a floating-point number; the formula for it is handed in.

use vstd::prelude::*;

use crate::floats::{bits_less, is_nan, less};
use crate::search::bm25::{
    as_slices, doc_place, score_views, scored_terms, terms_of_text, tokenize_query, total_of,
    Bm25Scorer, CorpusView, TermScore,
};
use crate::search::fts::{match_views, InvertedIndex, MatchView, SearchMatch};
use crate::search::fts_laws::{found_ids, law_search_by_text, text_holds_all};
use crate::search::fuzzy::slices;
use crate::search::tokenizer::{tokens_of, words_of};

verus! {

/// The number of a document and its score.
pub type Scored = (u64, u64);

/// Whether a document goes ahead of another: the higher score does, and of
/// equal ones, where `by_number` says so, the smaller number.
pub open spec fn goes_ahead(a: Scored, b: Scored, by_number: bool) -> bool {
    less(b.1, a.1) || (by_number && !less(a.1, b.1) && a.0 < b.0)
}

/// Where a document goes among the first `n` ranked ones: behind all that it
/// does not go ahead of.
pub open spec fn rank_place(ranked: Seq<Scored>, x: Scored, by_number: bool, n: int) -> int
    decreases n,
{
    if n > 0 && goes_ahead(x, ranked[n - 1], by_number) {
        rank_place(ranked, x, by_number, n - 1)
    } else {
        n
    }
}

/// The first `n` documents, the highest score first; equal ones keep their
/// order.
pub open spec fn ranked(s: Seq<Scored>, by_number: bool, n: int) -> Seq<Scored>
    decreases n,
{
    if n <= 0 {
        seq![]
    } else {
        let before = ranked(s, by_number, n - 1);
        before.insert(rank_place(before, s[n - 1], by_number, before.len() as int), s[n - 1])
    }
}

/// Scores above zero.
pub open spec fn above_zero() -> spec_fn(Scored) -> bool {
    |x: Scored| less(0, x.1)
}

fn put_in_order(scored: &Vec<Scored>, by_number: bool) -> (r: Vec<Scored>)
    ensures
        r@ == ranked(scored@, by_number, scored@.len() as int),
{
    let mut out: Vec<Scored> = Vec::new();
    let mut n: usize = 0;
    while n < scored.len()
        invariant
            n <= scored@.len(),
            out@ == ranked(scored@, by_number, n as int),
        decreases scored@.len() - n,
    {
        let x: Scored = scored[n];
        let mut p: usize = out.len();
        while p > 0 && (bits_less(out[p - 1].1, x.1) || (by_number && !bits_less(x.1, out[p - 1].1)
            && x.0 < out[p - 1].0))
            invariant
                p <= out@.len(),
                rank_place(out@, x, by_number, p as int) == rank_place(
                    out@,
                    x,
                    by_number,
                    out@.len() as int,
                ),
            decreases p,
        {
            p = p - 1;
        }
        out.insert(p, x);
        n = n + 1;
    }
    out
}

fn rank_scored(scored: &Vec<Scored>) -> (r: Vec<Scored>)
    ensures
        ({
            let kept = scored@.filter(above_zero());
            r@ == ranked(kept, true, kept.len() as int)
        }),
{
    let mut kept: Vec<Scored> = Vec::new();
    let mut i: usize = 0;
    proof {
        reveal(Seq::filter);
        assert(kept@ =~= scored@.take(0).filter(above_zero()));
    }
    while i < scored.len()
        invariant
            i <= scored@.len(),
            kept@ == scored@.take(i as int).filter(above_zero()),
        decreases scored@.len() - i,
    {
        proof {
            assert(scored@.take(i + 1) =~= scored@.take(i as int).push(scored@[i as int]));
            crate::sequences::lemma_filter_push(
                scored@.take(i as int),
                scored@[i as int],
                above_zero(),
            );
        }
        if bits_less(0, scored[i].1) {
            kept.push(scored[i]);
        }
        i = i + 1;
    }
    assert(scored@.take(i as int) =~= scored@);
    put_in_order(&kept, true)
}

/// The counts behind a score: how often the document holds a term, and how
/// many documents hold it.
pub type Counts = (u32, u64);

/// The formula for scores, as it is handed in: from the length of the document
/// and the counts of the terms that it holds.
pub struct Formula<S> {
    pub score: S,
}

/// The formula for scores.
pub type FormulaView = spec_fn(nat, Seq<Counts>) -> u64;

impl<S: Fn(usize, Vec<Counts>) -> u64> Formula<S> {
    /// Every score is given, and always the same.
    pub open spec fn steady(&self) -> bool {
        &&& forall|n: usize, v: Vec<Counts>| #[trigger] self.score.requires((n, v))
        &&& forall|n: usize, v: Vec<Counts>, w: Vec<Counts>, r: u64, s: u64|
            v@ == w@ && #[trigger] self.score.ensures((n, v), r) && #[trigger] self.score.ensures(
                (n, w),
                s,
            ) ==> r == s
    }

    /// Whether a score is given for such counts.
    pub open spec fn gives(&self, n: nat, counts: Seq<Counts>, r: u64) -> bool {
        exists|k: usize, v: Vec<Counts>|
            k == n && v@ == counts && #[trigger] self.score.ensures((k, v), r)
    }

    fn scored(&self, n: usize, counts: Vec<Counts>) -> (r: u64)
        requires
            self.steady(),
        ensures
            r == self@(n as nat, counts@),
    {
        let ghost held = counts;
        let r: u64 = (self.score)(n, counts);
        proof {
            assert(self.score.ensures((n, held), r));
            assert(self.gives(n as nat, held@, r));
            let s = self@(n as nat, held@);
            assert(self.gives(n as nat, held@, s));
        }
        r
    }
}

impl<S: Fn(usize, Vec<Counts>) -> u64> View for Formula<S> {
    type V = FormulaView;

    open spec fn view(&self) -> FormulaView {
        |n: nat, counts: Seq<Counts>| choose|r: u64| self.gives(n, counts, r)
    }
}

/// The counts of scored terms.
pub open spec fn counts_of(s: Seq<TermScore>) -> Seq<Counts> {
    s.map_values(|t: TermScore| (t.tf as u32, t.df as u64))
}

/// The score of a document for some terms: zero for one that is not there.
pub open spec fn score_of(f: FormulaView, c: CorpusView, terms: Seq<Seq<char>>, doc_id: u64) -> u64 {
    let place = doc_place(c.docs, doc_id, 0);
    if place < c.docs.len() && total_of(c.docs, c.docs.len() as int) > 0 {
        f(
            c.docs[place].len,
            counts_of(scored_terms(c, c.docs[place], terms, terms.len() as int)),
        )
    } else {
        0
    }
}

/// The scores of documents.
pub open spec fn scores_of(
    f: FormulaView,
    c: CorpusView,
    terms: Seq<Seq<char>>,
    ids: Seq<u64>,
) -> Seq<Scored> {
    Seq::new(ids.len(), |k: int| (ids[k], score_of(f, c, terms, ids[k])))
}

fn counts_in(terms: &Vec<(String, u32, u64)>) -> (r: Vec<Counts>)
    ensures
        r@ == counts_of(score_views(terms@)),
{
    let ghost all = counts_of(score_views(terms@));
    let mut out: Vec<Counts> = Vec::new();
    let mut i: usize = 0;
    assert(out@ =~= all.take(0));
    while i < terms.len()
        invariant
            i <= terms@.len(),
            all == counts_of(score_views(terms@)),
            out@ == all.take(i as int),
        decreases terms@.len() - i,
    {
        out.push((terms[i].1, terms[i].2));
        assert(all[i as int] == (terms@[i as int].1, terms@[i as int].2));
        i = i + 1;
        assert(out@ =~= all.take(i as int));
    }
    assert(all.take(i as int) =~= all);
    out
}

/// The score of a document for the query terms.
pub fn score<S: Fn(usize, Vec<Counts>) -> u64>(
    scorer: &Bm25Scorer,
    formula: &Formula<S>,
    query_terms: &[&str],
    doc_id: u64,
) -> (r: u64)
    requires
        scorer.wf(),
        formula.steady(),
    ensures
        r == score_of(formula@, scorer@, slices(query_terms@), doc_id),
{
    match scorer.score_input(query_terms, doc_id) {
        None => 0,
        Some(input) => {
            let counts: Vec<Counts> = counts_in(&input.terms);
            formula.scored(input.doc_len, counts)
        },
    }
}

/// Ranks documents by their score for a query: those with a score above zero,
/// the highest first and of equal ones the smaller number.
pub fn rank<S: Fn(usize, Vec<Counts>) -> u64>(
    scorer: &Bm25Scorer,
    formula: &Formula<S>,
    query: &str,
    doc_ids: &[u64],
) -> (r: Vec<Scored>)
    requires
        scorer.wf(),
        formula.steady(),
    ensures
        ({
            let terms = terms_of_text(query@);
            let kept = scores_of(formula@, scorer@, terms, doc_ids@).filter(above_zero());
            r@ == (if terms.len() == 0 {
                seq![]
            } else {
                ranked(kept, true, kept.len() as int)
            })
        }),
{
    let terms: Vec<String> = tokenize_query(query);
    if terms.len() == 0 {
        return Vec::new();
    }
    let refs: Vec<&str> = as_slices(&terms);
    let ghost all = scores_of(formula@, scorer@, terms_of_text(query@), doc_ids@);
    let mut scored: Vec<Scored> = Vec::new();
    let mut i: usize = 0;
    assert(scored@ =~= all.take(0));
    while i < doc_ids.len()
        invariant
            i <= doc_ids@.len(),
            scorer.wf(),
            formula.steady(),
            slices(refs@) == terms_of_text(query@),
            all == scores_of(formula@, scorer@, terms_of_text(query@), doc_ids@),
            scored@ == all.take(i as int),
        decreases doc_ids@.len() - i,
    {
        let s: u64 = score(scorer, formula, refs.as_slice(), doc_ids[i]);
        scored.push((doc_ids[i], s));
        i = i + 1;
        assert(scored@ =~= all.take(i as int));
    }
    assert(scored@ =~= all);
    rank_scored(&scored)
}

/// The counts of what a search found of a document.
pub open spec fn found_counts(index: &InvertedIndex, m: MatchView) -> Seq<Counts> {
    m.terms.map_values(
        |p: (Seq<char>, nat)| (p.1 as u32, index.frequency(p.0) as u64),
    )
}

/// What a search found, with scores. The formula is asked for each document
/// with the counts of its terms alone.
pub open spec fn found_scores(
    f: FormulaView,
    index: &InvertedIndex,
    found: Seq<MatchView>,
) -> Seq<Scored> {
    Seq::new(found.len(), |k: int| (found[k].doc_id, f(0, found_counts(index, found[k]))))
}

fn found_counts_in(index: &InvertedIndex, m: &SearchMatch) -> (r: Vec<Counts>)
    requires
        index.wf(),
    ensures
        r@ == found_counts(index, m@),
{
    let ghost all = found_counts(index, m@);
    let mut out: Vec<Counts> = Vec::new();
    let mut i: usize = 0;
    assert(out@ =~= all.take(0));
    while i < m.terms.len()
        invariant
            i <= m.terms@.len(),
            index.wf(),
            all == found_counts(index, m@),
            out@ == all.take(i as int),
        decreases m.terms@.len() - i,
    {
        let df: u64 = index.doc_frequency(m.terms[i].0.as_str());
        out.push((m.terms[i].1, df));
        assert(m@.terms[i as int] == (m.terms@[i as int].0@, m.terms@[i as int].1 as nat));
        i = i + 1;
        assert(out@ =~= all.take(i as int));
    }
    assert(all.take(i as int) =~= all);
    out
}

fn order_found<S: Fn(usize, Vec<Counts>) -> u64>(
    index: &InvertedIndex,
    formula: &Formula<S>,
    found: &Vec<SearchMatch>,
) -> (r: Vec<Scored>)
    requires
        index.wf(),
        formula.steady(),
    ensures
        ({
            let scored = found_scores(formula@, index, match_views(found@));
            r@ == ranked(scored, false, scored.len() as int)
        }),
{
    let ghost views = match_views(found@);
    let ghost all = found_scores(formula@, index, views);
    let mut scored: Vec<Scored> = Vec::new();
    let mut i: usize = 0;
    assert(scored@ =~= all.take(0));
    while i < found.len()
        invariant
            i <= found@.len(),
            index.wf(),
            formula.steady(),
            views == match_views(found@),
            all == found_scores(formula@, index, views),
            scored@ == all.take(i as int),
        decreases found@.len() - i,
    {
        assert(views[i as int] == found@[i as int]@);
        let counts: Vec<Counts> = found_counts_in(index, &found[i]);
        let s: u64 = formula.scored(0, counts);
        scored.push((found[i].doc_id, s));
        i = i + 1;
        assert(scored@ =~= all.take(i as int));
    }
    assert(scored@ =~= all);
    put_in_order(&scored, false)
}

/// The documents that hold all terms of a query, the highest score first.
pub fn search_ranked<S: Fn(usize, Vec<Counts>) -> u64>(
    index: &InvertedIndex,
    formula: &Formula<S>,
    query: &str,
) -> (r: Vec<Scored>)
    requires
        index.wf(),
        formula.steady(),
        words_of(query@).len() <= u32::MAX,
    ensures
        ({
            let scored = found_scores(formula@, index, index.all_matches(query@));
            r@ == ranked(scored, false, scored.len() as int)
        }),
{
    order_found(index, formula, &index.search(query))
}

/// The documents that hold any term of a query, the highest score first.
pub fn search_or_ranked<S: Fn(usize, Vec<Counts>) -> u64>(
    index: &InvertedIndex,
    formula: &Formula<S>,
    query: &str,
) -> (r: Vec<Scored>)
    requires
        index.wf(),
        formula.steady(),
        words_of(query@).len() <= u32::MAX,
    ensures
        ({
            let scored = found_scores(formula@, index, index.any_matches(query@));
            r@ == ranked(scored, false, scored.len() as int)
        }),
{
    order_found(index, formula, &index.search_or(query))
}

proof fn lemma_rank_place(s: Seq<Scored>, x: Scored, by_number: bool, n: int)
    requires
        0 <= n <= s.len(),
    ensures
        0 <= rank_place(s, x, by_number, n) <= n,
        forall|k: int|
            rank_place(s, x, by_number, n) <= k < n ==> goes_ahead(x, #[trigger] s[k], by_number),
        rank_place(s, x, by_number, n) > 0 ==> !goes_ahead(
            x,
            s[rank_place(s, x, by_number, n) - 1],
            by_number,
        ),
    decreases n,
{
    if n > 0 && goes_ahead(x, s[n - 1], by_number) {
        lemma_rank_place(s, x, by_number, n - 1);
    }
}

/// Every score is a number.
pub open spec fn all_numbers(s: Seq<Scored>) -> bool {
    forall|i: int| 0 <= i < s.len() ==> !is_nan((#[trigger] s[i]).1)
}

/// No document goes ahead of an earlier one.
pub open spec fn in_order(s: Seq<Scored>, by_number: bool) -> bool {
    forall|i: int, j: int|
        0 <= i < j < s.len() ==> !goes_ahead(#[trigger] s[j], #[trigger] s[i], by_number)
}

/// Ranking puts no document behind one that it goes ahead of, and neither
/// loses nor adds any.
pub proof fn law_ranking(s: Seq<Scored>, by_number: bool, n: int)
    requires
        0 <= n <= s.len(),
        all_numbers(s),
    ensures
        in_order(ranked(s, by_number, n), by_number),
        all_numbers(ranked(s, by_number, n)),
        ranked(s, by_number, n).to_multiset() == s.take(n).to_multiset(),
    decreases n,
{
    broadcast use vstd::seq_lib::group_to_multiset_ensures;
    if n == 0 {
        assert(s.take(0) =~= seq![]);
    } else {
        law_ranking(s, by_number, n - 1);
        let before = ranked(s, by_number, n - 1);
        let x = s[n - 1];
        let p = rank_place(before, x, by_number, before.len() as int);
        lemma_rank_place(before, x, by_number, before.len() as int);
        let now = before.insert(p, x);
        vstd::seq_lib::to_multiset_insert(before, p, x);
        assert(s.take(n) =~= s.take(n - 1).push(x));
        assert forall|i: int| 0 <= i < now.len() implies !is_nan((#[trigger] now[i]).1) by {
            if i != p {
                let i0 = if i < p { i } else { i - 1 };
                assert(now[i] == before[i0]);
            }
        }
        assert forall|i: int, j: int| 0 <= i < j < now.len() implies !goes_ahead(
            #[trigger] now[j],
            #[trigger] now[i],
            by_number,
        ) by {
            if j == p {
                assert(now[i] == before[i]);
                if i < p - 1 {
                    assert(!goes_ahead(before[p - 1], before[i], by_number));
                }
            } else if i == p {
                assert(now[j] == before[j - 1]);
            } else {
                let i0 = if i < p { i } else { i - 1 };
                let j0 = if j < p { j } else { j - 1 };
                assert(now[i] == before[i0]);
                assert(now[j] == before[j0]);
            }
        }
    }
}

/// In an index of documents with different numbers, the ranked search for all
/// terms gives exactly the documents whose terms hold those of the query, each
/// once, and no score is greater than an earlier one.
pub proof fn law_ranked_search(
    f: FormulaView,
    index: &InvertedIndex,
    docs: Seq<(u64, Seq<char>)>,
    query: Seq<char>,
    d: u64,
)
    requires
        index.indexes(docs),
        forall|i: int, j: int|
            0 <= i < j < docs.len() ==> (#[trigger] docs[i]).0 != (#[trigger] docs[j]).0,
        all_numbers(found_scores(f, index, index.all_matches(query))),
    ensures
        ({
            let scored = found_scores(f, index, index.all_matches(query));
            let r = ranked(scored, false, scored.len() as int);
            &&& in_order(r, false)
            &&& forall|i: int, j: int|
                0 <= i < j < r.len() ==> (#[trigger] r[i]).0 != (#[trigger] r[j]).0
            &&& (exists|i: int| 0 <= i < r.len() && (#[trigger] r[i]).0 == d) <==> tokens_of(
                query,
            ).len() > 0 && exists|k: int|
                0 <= k < docs.len() && (#[trigger] docs[k]).0 == d && text_holds_all(
                    docs[k].1,
                    query,
                )
        }),
{
    let found = index.all_matches(query);
    let ids = found_ids(found);
    let scored = found_scores(f, index, found);
    let r = ranked(scored, false, scored.len() as int);
    law_search_by_text(index, docs, query, d);
    law_ranking(scored, false, scored.len() as int);
    assert(scored.take(scored.len() as int) =~= scored);
    assert forall|i: int, j: int| 0 <= i < scored.len() && 0 <= j < scored.len() && i != j implies (
    #[trigger] scored[i]).0 != (#[trigger] scored[j]).0 by {
        assert(ids[i] == scored[i].0 && ids[j] == scored[j].0);
    }
    assert(scored.no_duplicates());
    scored.lemma_multiset_has_no_duplicates();
    r.lemma_multiset_has_no_duplicates_conv();
    scored.to_multiset_ensures();
    r.to_multiset_ensures();
    assert forall|x: Scored| #[trigger] r.contains(x) <==> scored.contains(x) by {
        assert(r.to_multiset().count(x) == scored.to_multiset().count(x));
    }
    assert forall|i: int, j: int| 0 <= i < j < r.len() implies (#[trigger] r[i]).0 != (
    #[trigger] r[j]).0 by {
        assert(r.contains(r[i]) && r.contains(r[j]));
        let a = scored.index_of(r[i]);
        let b = scored.index_of(r[j]);
        assert(scored[a] == r[i] && scored[b] == r[j]);
    }
    if ids.contains(d) {
        let k = ids.index_of(d);
        assert(scored[k].0 == d);
        assert(scored.contains(scored[k]));
        assert(r.contains(scored[k]));
        let i = r.index_of(scored[k]);
        assert(r[i].0 == d);
    }
    if exists|i: int| 0 <= i < r.len() && (#[trigger] r[i]).0 == d {
        let i = choose|i: int| 0 <= i < r.len() && (#[trigger] r[i]).0 == d;
        assert(r.contains(r[i]));
        let k = scored.index_of(r[i]);
        assert(scored[k] == r[i]);
        assert(ids[k] == d);
    }
}

} // verus!
