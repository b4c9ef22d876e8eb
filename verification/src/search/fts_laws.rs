//! What the two kinds of search find.

use vstd::prelude::*;

use crate::search::fts::{
    has_posting, holding, postings_of, terms_in, terms_of, with_docs, InvertedIndex, MatchView,
    PostingView, TfIdfScorer,
};
use crate::search::tokenizer::{tokens_of, TokenView};
use crate::sequences::{lemma_filter_contains, lemma_push_contains};

verus! {

/// Whether a row of results holds the document.
pub open spec fn finds(ms: Seq<MatchView>, d: u64) -> bool {
    exists|i: int| 0 <= i < ms.len() && (#[trigger] ms[i]).doc_id == d
}

proof fn lemma_with_docs(docs: Seq<u64>, ps: Seq<PostingView>, d: u64, n: int)
    requires
        0 <= n <= ps.len(),
    ensures
        with_docs(docs, ps, n).contains(d) <==> docs.contains(d) || exists|k: int|
            0 <= k < n && (#[trigger] ps[k]).doc_id == d,
    decreases n,
{
    if n > 0 {
        lemma_with_docs(docs, ps, d, n - 1);
        let before = with_docs(docs, ps, n - 1);
        lemma_push_contains(before, ps[n - 1].doc_id, d);
    }
}

proof fn lemma_docs(idx: &InvertedIndex, tokens: Seq<TokenView>, d: u64, n: int)
    requires
        0 <= n <= tokens.len(),
    ensures
        idx.docs(tokens, n).contains(d) <==> exists|i: int|
            0 <= i < n && has_posting(idx.postings((#[trigger] tokens[i]).term), d),
    decreases n,
{
    if n > 0 {
        lemma_docs(idx, tokens, d, n - 1);
        let ps = idx.postings(tokens[n - 1].term);
        lemma_with_docs(idx.docs(tokens, n - 1), ps, d, ps.len() as int);
        if has_posting(ps, d) {
            assert(has_posting(idx.postings(tokens[n - 1].term), d));
        }
    }
}

proof fn lemma_any_finds(idx: &InvertedIndex, query: Seq<char>, d: u64)
    ensures
        finds(idx.any_matches(query), d) <==> idx.docs(
            tokens_of(query),
            tokens_of(query).len() as int,
        ).contains(d),
{
    let tokens = tokens_of(query);
    let docs = idx.docs(tokens, tokens.len() as int);
    let ms = idx.any_matches(query);
    if docs.contains(d) {
        let i = choose|i: int| 0 <= i < docs.len() && docs[i] == d;
        assert(ms[i].doc_id == d);
    }
    if finds(ms, d) {
        let i = choose|i: int| 0 <= i < ms.len() && (#[trigger] ms[i]).doc_id == d;
        assert(docs[i] == d);
    }
}

/// The search for any term finds a document exactly where one of the query's
/// terms has a posting of it.
pub proof fn law_search_or_finds(idx: &InvertedIndex, query: Seq<char>, d: u64)
    ensures
        finds(idx.any_matches(query), d) <==> exists|i: int|
            0 <= i < tokens_of(query).len() && has_posting(
                idx.postings((#[trigger] tokens_of(query)[i]).term),
                d,
            ),
{
    lemma_any_finds(idx, query, d);
    lemma_docs(idx, tokens_of(query), d, tokens_of(query).len() as int);
}

/// The search for all terms finds a document exactly where the query has terms
/// and each of them has a posting of it.
pub proof fn law_search_finds(idx: &InvertedIndex, query: Seq<char>, d: u64)
    ensures
        finds(idx.all_matches(query), d) <==> tokens_of(query).len() > 0 && idx.holds_all(
            tokens_of(query),
            d,
        ),
{
    let tokens = tokens_of(query);
    let n = tokens.len() as int;
    let any = idx.any_matches(query);
    let full = |m: MatchView| idx.holds_all(tokens, m.doc_id);
    let all = any.filter(full);
    lemma_any_finds(idx, query, d);
    lemma_docs(idx, tokens, d, n);
    if finds(all, d) {
        let i = choose|i: int| 0 <= i < all.len() && (#[trigger] all[i]).doc_id == d;
        assert(all.contains(all[i]));
        lemma_filter_contains(any, full, all[i]);
        let j = choose|j: int| 0 <= j < any.len() && any[j] == all[i];
        assert(finds(any, d)) by {
            assert(any[j].doc_id == d);
        }
    }
    if n > 0 && idx.holds_all(tokens, d) {
        assert(has_posting(idx.postings(tokens[0].term), d));
        let j = choose|j: int| 0 <= j < any.len() && (#[trigger] any[j]).doc_id == d;
        assert(any.contains(any[j]));
        lemma_filter_contains(any, full, any[j]);
        let i = choose|i: int| 0 <= i < all.len() && all[i] == any[j];
        assert(all[i].doc_id == d);
    }
}

/// The numbers of the documents that were found.
pub open spec fn found_ids(ms: Seq<MatchView>) -> Seq<u64> {
    ms.map_values(|m: MatchView| m.doc_id)
}

/// The terms of a document hold all terms of a query.
pub open spec fn text_holds_all(text: Seq<char>, query: Seq<char>) -> bool {
    forall|i: int|
        0 <= i < tokens_of(query).len() ==> terms_of(tokens_of(text)).contains(
            (#[trigger] tokens_of(query)[i]).term,
        )
}

proof fn lemma_with_docs_distinct(docs: Seq<u64>, ps: Seq<PostingView>, n: int)
    requires
        0 <= n <= ps.len(),
        docs.no_duplicates(),
    ensures
        with_docs(docs, ps, n).no_duplicates(),
    decreases n,
{
    if n > 0 {
        lemma_with_docs_distinct(docs, ps, n - 1);
        let before = with_docs(docs, ps, n - 1);
        let d = ps[n - 1].doc_id;
        if !before.contains(d) {
            let now = before.push(d);
            assert forall|i: int, j: int|
                0 <= i < now.len() && 0 <= j < now.len() && i != j implies now[i] != now[j] by {
                if i < before.len() {
                    assert(before.contains(before[i]));
                }
                if j < before.len() {
                    assert(before.contains(before[j]));
                }
            }
        }
    }
}

proof fn lemma_docs_distinct(idx: &InvertedIndex, tokens: Seq<TokenView>, n: int)
    requires
        0 <= n <= tokens.len(),
    ensures
        idx.docs(tokens, n).no_duplicates(),
    decreases n,
{
    if n > 0 {
        lemma_docs_distinct(idx, tokens, n - 1);
        let ps = idx.postings(tokens[n - 1].term);
        lemma_with_docs_distinct(idx.docs(tokens, n - 1), ps, ps.len() as int);
    }
}

/// No search finds a document twice.
pub proof fn law_found_once(idx: &InvertedIndex, query: Seq<char>)
    ensures
        found_ids(idx.any_matches(query)).no_duplicates(),
        found_ids(idx.all_matches(query)).no_duplicates(),
{
    let tokens = tokens_of(query);
    let any = idx.any_matches(query);
    let full = |m: MatchView| idx.holds_all(tokens, m.doc_id);
    lemma_docs_distinct(idx, tokens, tokens.len() as int);
    assert(found_ids(any) =~= idx.docs(tokens, tokens.len() as int));
    lemma_filter_ids(any, full);
}

proof fn lemma_filter_ids(ms: Seq<MatchView>, p: spec_fn(MatchView) -> bool)
    requires
        found_ids(ms).no_duplicates(),
    ensures
        found_ids(ms.filter(p)).no_duplicates(),
    decreases ms.len(),
{
    reveal(Seq::filter);
    if ms.len() > 0 {
        let front = ms.drop_last();
        let last = ms.last();
        assert(found_ids(front) =~= found_ids(ms).drop_last());
        lemma_filter_ids(front, p);
        if p(last) {
            let before = front.filter(p);
            let now = found_ids(before.push(last));
            assert(ms.filter(p) =~= before.push(last));
            assert forall|i: int, j: int|
                0 <= i < now.len() && 0 <= j < now.len() && i < j implies now[i] != now[j] by {
                if j == before.len() {
                    assert(before.contains(before[i]));
                    lemma_filter_contains(front, p, before[i]);
                    let k = choose|k: int| 0 <= k < front.len() && front[k] == before[i];
                    assert(found_ids(ms)[k] == before[i].doc_id);
                    assert(found_ids(ms)[ms.len() - 1] == last.doc_id);
                } else {
                    assert(found_ids(before)[i] == now[i]);
                    assert(found_ids(before)[j] == now[j]);
                }
            }
        }
    }
}

proof fn lemma_posted(docs: Seq<(u64, Seq<char>)>, term: Seq<char>, d: u64)
    ensures
        has_posting(postings_of(docs, term), d) <==> exists|k: int|
            0 <= k < docs.len() && (#[trigger] docs[k]).0 == d && terms_of(
                tokens_of(docs[k].1),
            ).contains(term),
    decreases docs.len(),
{
    if docs.len() > 0 {
        let front = docs.drop_last();
        let last = docs.last();
        let before = postings_of(front, term);
        let ps = postings_of(docs, term);
        lemma_posted(front, term, d);
        let adds = terms_of(tokens_of(last.1)).contains(term);
        if has_posting(before, d) {
            let k = choose|k: int| 0 <= k < before.len() && (#[trigger] before[k]).doc_id == d;
            assert(ps[k].doc_id == d);
            let j = choose|j: int|
                0 <= j < front.len() && (#[trigger] front[j]).0 == d && terms_of(
                    tokens_of(front[j].1),
                ).contains(term);
            assert(docs[j] == front[j]);
        }
        if adds && last.0 == d {
            assert(ps[ps.len() - 1].doc_id == d);
            assert(docs[docs.len() - 1] == last);
        }
        if has_posting(ps, d) && !(adds && last.0 == d) {
            let k = choose|k: int| 0 <= k < ps.len() && (#[trigger] ps[k]).doc_id == d;
            assert(before[k].doc_id == d);
        }
        if exists|k: int|
            0 <= k < docs.len() && (#[trigger] docs[k]).0 == d && terms_of(
                tokens_of(docs[k].1),
            ).contains(term) {
            let j = choose|j: int|
                0 <= j < docs.len() && (#[trigger] docs[j]).0 == d && terms_of(
                    tokens_of(docs[j].1),
                ).contains(term);
            if j < front.len() {
                assert(front[j] == docs[j]);
            }
        }
    }
}

/// In an index of documents with different numbers, the search for all terms
/// finds exactly the documents whose terms hold those of the query, where the
/// query has any; each is found once.
pub proof fn law_search_by_text(
    idx: &InvertedIndex,
    docs: Seq<(u64, Seq<char>)>,
    query: Seq<char>,
    d: u64,
)
    requires
        idx.indexes(docs),
        forall|i: int, j: int|
            0 <= i < j < docs.len() ==> (#[trigger] docs[i]).0 != (#[trigger] docs[j]).0,
    ensures
        found_ids(idx.all_matches(query)).contains(d) <==> tokens_of(query).len() > 0 && exists|
            k: int,
        |
            0 <= k < docs.len() && (#[trigger] docs[k]).0 == d && text_holds_all(docs[k].1, query),
        found_ids(idx.all_matches(query)).no_duplicates(),
{
    let tokens = tokens_of(query);
    law_found_once(idx, query);
    law_search_finds(idx, query, d);
    lemma_ids(idx.all_matches(query), d);
    assert forall|t: Seq<char>| #[trigger] has_posting(idx.postings(t), d) <==> exists|k: int|
        0 <= k < docs.len() && (#[trigger] docs[k]).0 == d && terms_of(
            tokens_of(docs[k].1),
        ).contains(t) by {
        lemma_posted(docs, t, d);
        assert(idx.postings(t) == postings_of(docs, t));
    }
    if exists|k: int| 0 <= k < docs.len() && (#[trigger] docs[k]).0 == d {
        let k = choose|k: int| 0 <= k < docs.len() && (#[trigger] docs[k]).0 == d;
        assert forall|i: int| 0 <= i < tokens.len() implies has_posting(
            idx.postings((#[trigger] tokens[i]).term),
            d,
        ) == terms_of(tokens_of(docs[k].1)).contains(tokens[i].term) by {
            let t = tokens[i].term;
            if has_posting(idx.postings(t), d) {
                let j = choose|j: int|
                    0 <= j < docs.len() && (#[trigger] docs[j]).0 == d && terms_of(
                        tokens_of(docs[j].1),
                    ).contains(t);
                assert(j == k);
            }
        }
        if idx.holds_all(tokens, d) {
            assert forall|i: int| 0 <= i < tokens_of(query).len() implies terms_of(
                tokens_of(docs[k].1),
            ).contains((#[trigger] tokens_of(query)[i]).term) by {
                assert(has_posting(idx.postings(tokens[i].term), d));
            }
            assert(text_holds_all(docs[k].1, query));
        }
        if exists|j: int|
            0 <= j < docs.len() && (#[trigger] docs[j]).0 == d && text_holds_all(
                docs[j].1,
                query,
            ) {
            let j = choose|j: int|
                0 <= j < docs.len() && (#[trigger] docs[j]).0 == d && text_holds_all(
                    docs[j].1,
                    query,
                );
            assert(j == k);
            assert forall|i: int| 0 <= i < tokens.len() implies has_posting(
                idx.postings((#[trigger] tokens[i]).term),
                d,
            ) by {
                assert(terms_of(tokens_of(docs[k].1)).contains(tokens_of(query)[i].term));
            }
        }
    } else if tokens.len() > 0 && idx.holds_all(tokens, d) {
        assert(has_posting(idx.postings(tokens[0].term), d));
    }
}

proof fn lemma_ids(ms: Seq<MatchView>, d: u64)
    ensures
        found_ids(ms).contains(d) <==> finds(ms, d),
{
    if found_ids(ms).contains(d) {
        let i = found_ids(ms).index_of(d);
        assert(ms[i].doc_id == d);
    }
    if finds(ms, d) {
        let i = choose|i: int| 0 <= i < ms.len() && (#[trigger] ms[i]).doc_id == d;
        assert(found_ids(ms)[i] == d);
    }
}

proof fn lemma_terms_in(docs: Seq<(u64, Seq<char>)>, t: Seq<char>)
    ensures
        terms_in(docs).contains(t) <==> postings_of(docs, t).len() > 0,
    decreases docs.len(),
{
    if docs.len() > 0 {
        lemma_terms_in(docs.drop_last(), t);
        let new = terms_of(tokens_of(docs.last().1));
        assert(new.to_set().contains(t) <==> new.contains(t));
    }
}

/// An index counts each of its documents, and each term of their texts once.
pub proof fn law_counts(idx: &InvertedIndex, docs: Seq<(u64, Seq<char>)>)
    requires
        idx.wf(),
        idx.indexes(docs),
    ensures
        idx.documents() == docs.len(),
        idx.terms().len() == terms_in(docs).len(),
        idx.terms().to_set() == terms_in(docs),
{
    assert forall|t: Seq<char>| idx.terms().to_set().contains(t) <==> terms_in(docs).contains(
        t,
    ) by {
        lemma_terms_in(docs, t);
        idx.law_frequency_counts_postings(t);
        assert(idx.postings(t) == postings_of(docs, t));
    }
    assert(idx.terms().to_set() =~= terms_in(docs));
    idx.law_frequency_counts_postings(seq![]);
    idx.terms().unique_seq_to_set();
}

proof fn lemma_holding(a: Seq<Seq<Seq<char>>>, b: Seq<Seq<Seq<char>>>, t: Seq<char>)
    requires
        a.len() == b.len(),
        forall|k: int| 0 <= k < a.len() ==> (#[trigger] a[k]).to_set() == b[k].to_set(),
    ensures
        holding(a, t) == holding(b, t),
    decreases a.len(),
{
    if a.len() > 0 {
        let n = a.len() - 1;
        assert forall|k: int| 0 <= k < a.drop_last().len() implies (#[trigger] a.drop_last()[k]).to_set()
            == b.drop_last()[k].to_set() by {
            assert(a[k].to_set() == b[k].to_set());
        }
        lemma_holding(a.drop_last(), b.drop_last(), t);
        assert(a[n].to_set() == b[n].to_set());
        assert(a[n].to_set().contains(t) <==> a[n].contains(t));
        assert(b[n].to_set().contains(t) <==> b[n].contains(t));
    }
}

/// What a scorer counts depends on the sets of the documents' terms alone:
/// neither on their order nor on how often a term is given.
pub proof fn law_terms_count_once(
    x: &TfIdfScorer,
    y: &TfIdfScorer,
    a: Seq<Seq<Seq<char>>>,
    b: Seq<Seq<Seq<char>>>,
)
    requires
        x.counts(a),
        y.counts(b),
        a.len() == b.len(),
        forall|k: int| 0 <= k < a.len() ==> (#[trigger] a[k]).to_set() == b[k].to_set(),
    ensures
        x.documents() == y.documents(),
        forall|t: Seq<char>| #[trigger] x.frequency(t) == y.frequency(t),
{
    assert forall|t: Seq<char>| #[trigger] x.frequency(t) == y.frequency(t) by {
        lemma_holding(a, b, t);
        assert(y.frequency(t) == holding(b, t));
    }
}

} // verus!
