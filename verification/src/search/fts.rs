//! The inverted index of full-text search: which documents hold which terms,
//! how often and where.
//!
//! Relevance scores are computed by the caller from the frequencies that the
//! index gives; what is found does not depend on them.

use vstd::prelude::*;

use crate::search::fuzzy::slices;
use crate::search::tokenizer::{
    token_views, tokenize, tokens_of, tokens_of_words, words_of, Token, TokenView,
};
use crate::strmap::StrMap;
use crate::text::same_text;

verus! {

/// That a document holds a term: how often, and as which words.
#[derive(Clone, Debug)]
pub struct Posting {
    pub doc_id: u64,
    pub term_frequency: u32,
    pub positions: Vec<u32>,
}

/// The mathematical value of a [`Posting`].
#[verifier::ext_equal]
pub struct PostingView {
    pub doc_id: u64,
    pub term_frequency: nat,
    pub positions: Seq<nat>,
}

impl View for Posting {
    type V = PostingView;

    open spec fn view(&self) -> PostingView {
        PostingView {
            doc_id: self.doc_id,
            term_frequency: self.term_frequency as nat,
            positions: numbers_of(self.positions@),
        }
    }
}

/// Machine numbers as numbers.
pub open spec fn numbers_of(s: Seq<u32>) -> Seq<nat> {
    s.map_values(|x: u32| x as nat)
}

/// The document frequencies behind TF-IDF scores: how many documents there
/// are, and how many of them hold each term.
pub struct TfIdfScorer {
    doc_count: u64,
    df: StrMap<u64>,
}

/// How many of the documents, each given by its terms, hold a term.
pub open spec fn holding(docs: Seq<Seq<Seq<char>>>, term: Seq<char>) -> nat
    decreases docs.len(),
{
    if docs.len() == 0 {
        0
    } else if docs.last().contains(term) {
        holding(docs.drop_last(), term) + 1
    } else {
        holding(docs.drop_last(), term)
    }
}

impl TfIdfScorer {
    /// Whether the scorer counts exactly the given documents, each given by
    /// its terms.
    pub open spec fn counts(&self, docs: Seq<Seq<Seq<char>>>) -> bool {
        self.documents() == docs.len() && forall|t: Seq<char>| #[trigger]
            self.frequency(t) == holding(docs, t)
    }

    /// The number of documents.
    pub closed spec fn documents(&self) -> nat {
        self.doc_count as nat
    }

    /// The number of documents that hold a term.
    pub closed spec fn frequency(&self, term: Seq<char>) -> nat {
        if self.df@.dom().contains(term) {
            self.df@[term] as nat
        } else {
            0
        }
    }

    /// No term is in more documents than there are.
    pub closed spec fn wf(&self) -> bool {
        self.df.wf() && forall|t: Seq<char>|
            self.df@.dom().contains(t) ==> #[trigger] self.df@[t] <= self.doc_count
    }

    /// A scorer without documents.
    pub fn new() -> (res: Self)
        ensures
            res.wf(),
            res.documents() == 0,
            forall|t: Seq<char>| #[trigger] res.frequency(t) == 0,
            res.counts(seq![]),
    {
        TfIdfScorer { doc_count: 0, df: StrMap::new() }
    }

    /// Counts a document with the given terms; a term that occurs more than
    /// once counts once.
    pub fn add_document(&mut self, terms: &[&str])
        requires
            old(self).wf(),
            old(self).documents() < u64::MAX,
        ensures
            final(self).wf(),
            final(self).documents() == old(self).documents() + 1,
            forall|t: Seq<char>|
                #[trigger] final(self).frequency(t) == old(self).frequency(t) + if slices(
                    terms@,
                ).contains(t) {
                    1nat
                } else {
                    0nat
                },
            forall|docs: Seq<Seq<Seq<char>>>| #[trigger]
                old(self).counts(docs) ==> final(self).counts(docs.push(slices(terms@))),
    {
        let ghost before = *self;
        let ghost all = slices(terms@);
        self.doc_count = self.doc_count + 1;
        let mut i: usize = 0;
        while i < terms.len()
            invariant
                i <= terms@.len(),
                all == slices(terms@),
                before.wf(),
                before.doc_count < u64::MAX,
                self.doc_count == before.doc_count + 1,
                self.df.wf(),
                forall|t: Seq<char>|
                    #[trigger] self.frequency(t) == before.frequency(t) + if all.take(
                        i as int,
                    ).contains(t) {
                        1nat
                    } else {
                        0nat
                    },
            decreases terms@.len() - i,
        {
            let term: &str = terms[i];
            assert(all[i as int] == term@);
            let ghost head = all.take(i as int);
            assert(all.take(i + 1) =~= head.push(term@));
            proof {
                assert forall|t: Seq<char>| #[trigger] head.push(term@).contains(t) <==> (
                head.contains(t) || t == term@) by {
                    crate::sequences::lemma_push_contains(head, term@, t);
                }
            }
            let ghost here = *self;
            if !occurs(terms, i, term) {
                assert(self.frequency(term@) == before.frequency(term@));
                match self.df.find(term) {
                    Some(k) => {
                        let n: u64 = *self.df.value_at(k);
                        assert(n == self.frequency(term@));
                        assert(before.df@.dom().contains(term@) ==> before.df@[term@]
                            <= before.doc_count);
                        self.df.set_at(k, n + 1);
                    },
                    None => {
                        self.df.insert(term.to_owned(), 1);
                    },
                }
                assert(forall|t: Seq<char>| t != term@ ==> #[trigger] self.frequency(t)
                    == here.frequency(t));
            }
            i = i + 1;
        }
        assert(all.take(i as int) =~= all);
        proof {
            assert forall|docs: Seq<Seq<Seq<char>>>| #[trigger]
                old(self).counts(docs) implies self.counts(docs.push(all)) by {
                let more = docs.push(all);
                assert(more.drop_last() =~= docs);
                assert(all.take(i as int) =~= all);
                assert forall|t: Seq<char>| #[trigger] self.frequency(t) == holding(more, t) by {
                    assert(old(self).frequency(t) == holding(docs, t));
                    assert(before.frequency(t) == old(self).frequency(t));
                }
            }
            assert forall|t: Seq<char>| self.df@.dom().contains(t) implies #[trigger] self.df@[t]
                <= self.doc_count by {
                assert(self.frequency(t) <= before.frequency(t) + 1);
                assert(before.df@.dom().contains(t) ==> before.df@[t] <= before.doc_count);
            }
        }
    }

    /// The number of documents.
    pub fn doc_count(&self) -> (r: u64)
        ensures
            r == self.documents(),
    {
        self.doc_count
    }

    /// The number of documents that hold a term.
    pub fn doc_frequency(&self, term: &str) -> (r: u64)
        requires
            self.wf(),
        ensures
            r == self.frequency(term@),
    {
        match self.df.get(term) {
            Some(n) => *n,
            None => 0,
        }
    }
}

impl Default for TfIdfScorer {
    fn default() -> (res: Self)
        ensures
            res.wf(),
            res.documents() == 0,
            forall|t: Seq<char>| #[trigger] res.frequency(t) == 0,
            res.counts(seq![]),
    {
        TfIdfScorer::new()
    }
}

/// Whether one of the first `n` texts is `t`.
fn occurs(v: &[&str], n: usize, t: &str) -> (r: bool)
    requires
        n <= v@.len(),
    ensures
        r == slices(v@).take(n as int).contains(t@),
{
    let ghost head = slices(v@).take(n as int);
    let mut i: usize = 0;
    while i < n
        invariant
            i <= n <= v@.len(),
            head == slices(v@).take(n as int),
            forall|k: int| 0 <= k < i ==> #[trigger] head[k] != t@,
        decreases n - i,
    {
        if same_text(v[i], t) {
            assert(head[i as int] == t@);
            return true;
        }
        i = i + 1;
    }
    false
}

/// The numbers of the words among the first `n` tokens that gave a term.
pub open spec fn positions_of(tokens: Seq<TokenView>, term: Seq<char>, n: int) -> Seq<nat>
    decreases n,
{
    if n <= 0 {
        seq![]
    } else if tokens[n - 1].term == term {
        positions_of(tokens, term, n - 1).push(tokens[n - 1].position)
    } else {
        positions_of(tokens, term, n - 1)
    }
}

/// The numbers of the words that gave a term.
pub open spec fn all_positions(tokens: Seq<TokenView>, term: Seq<char>) -> Seq<nat> {
    positions_of(tokens, term, tokens.len() as int)
}

/// A row of terms with those of the first `n` new ones that it does not hold
/// yet.
pub open spec fn with_terms(known: Seq<Seq<char>>, new: Seq<Seq<char>>, n: int) -> Seq<Seq<char>>
    decreases n,
{
    if n <= 0 {
        known
    } else {
        let before = with_terms(known, new, n - 1);
        if before.contains(new[n - 1]) {
            before
        } else {
            before.push(new[n - 1])
        }
    }
}

/// The terms of a row of tokens.
pub open spec fn terms_of(tokens: Seq<TokenView>) -> Seq<Seq<char>> {
    tokens.map_values(|t: TokenView| t.term)
}

/// The terms of a row of tokens, each once, in the order of their first
/// occurrence.
pub open spec fn distinct_terms(tokens: Seq<TokenView>) -> Seq<Seq<char>> {
    with_terms(seq![], terms_of(tokens), tokens.len() as int)
}

/// What a document's tokens say of a term.
pub open spec fn posting_of(doc_id: u64, tokens: Seq<TokenView>, term: Seq<char>) -> PostingView {
    PostingView {
        doc_id,
        term_frequency: all_positions(tokens, term).len(),
        positions: all_positions(tokens, term),
    }
}

proof fn lemma_with_terms(known: Seq<Seq<char>>, new: Seq<Seq<char>>, n: int, t: Seq<char>)
    requires
        0 <= n <= new.len(),
    ensures
        with_terms(known, new, n).contains(t) <==> known.contains(t) || new.take(n).contains(t),
    decreases n,
{
    if n > 0 {
        lemma_with_terms(known, new, n - 1, t);
        let before = with_terms(known, new, n - 1);
        assert(new.take(n) =~= new.take(n - 1).push(new[n - 1]));
        crate::sequences::lemma_push_contains(new.take(n - 1), new[n - 1], t);
        crate::sequences::lemma_push_contains(before, new[n - 1], t);
    } else {
        assert(new.take(0).len() == 0);
    }
}

proof fn lemma_positions(tokens: Seq<TokenView>, t: Seq<char>, n: int)
    requires
        0 <= n <= tokens.len(),
    ensures
        positions_of(tokens, t, n).len() <= n,
        positions_of(tokens, t, n).len() > 0 <==> terms_of(tokens).take(n).contains(t),
    decreases n,
{
    if n > 0 {
        lemma_positions(tokens, t, n - 1);
        let terms = terms_of(tokens);
        assert(terms.take(n) =~= terms.take(n - 1).push(tokens[n - 1].term));
        crate::sequences::lemma_push_contains(terms.take(n - 1), tokens[n - 1].term, t);
    } else {
        assert(terms_of(tokens).take(0).len() == 0);
    }
}

proof fn lemma_token_count(words: Seq<Seq<char>>, n: int)
    requires
        0 <= n,
    ensures
        tokens_of_words(words, n).len() <= n,
    decreases n,
{
    if n > 0 {
        lemma_token_count(words, n - 1);
    }
}

/// A document that a search found: its number, and for each term of the query
/// how often the document holds it.
pub struct SearchMatch {
    pub doc_id: u64,
    pub terms: Vec<(String, u32)>,
}

/// The mathematical value of a [`SearchMatch`].
#[verifier::ext_equal]
pub struct MatchView {
    pub doc_id: u64,
    pub terms: Seq<(Seq<char>, nat)>,
}

impl View for SearchMatch {
    type V = MatchView;

    open spec fn view(&self) -> MatchView {
        MatchView { doc_id: self.doc_id, terms: counted(self.terms@) }
    }
}

/// The values of a row of terms with their frequencies.
pub open spec fn counted(s: Seq<(String, u32)>) -> Seq<(Seq<char>, nat)> {
    s.map_values(|p: (String, u32)| (p.0@, p.1 as nat))
}

/// The values of a row of search results.
pub open spec fn match_views(s: Seq<SearchMatch>) -> Seq<MatchView> {
    s.map_values(|m: SearchMatch| m@)
}

/// From terms to the documents that hold them.
pub struct InvertedIndex {
    index: StrMap<Vec<Posting>>,
    scorer: TfIdfScorer,
    doc_count: u64,
}

/// The values of a row of postings.
pub open spec fn posting_views(s: Seq<Posting>) -> Seq<PostingView> {
    s.map_values(|p: Posting| p@)
}

/// Of the first `n` postings, those of one document, each as the term with its
/// frequency.
pub open spec fn doc_hits(term: Seq<char>, ps: Seq<PostingView>, d: u64, n: int) -> Seq<
    (Seq<char>, nat),
>
    decreases n,
{
    if n <= 0 {
        seq![]
    } else if ps[n - 1].doc_id == d {
        doc_hits(term, ps, d, n - 1).push((term, ps[n - 1].term_frequency))
    } else {
        doc_hits(term, ps, d, n - 1)
    }
}

/// A row of document numbers with those of the first `n` postings that it does
/// not hold yet.
pub open spec fn with_docs(docs: Seq<u64>, ps: Seq<PostingView>, n: int) -> Seq<u64>
    decreases n,
{
    if n <= 0 {
        docs
    } else {
        let before = with_docs(docs, ps, n - 1);
        if before.contains(ps[n - 1].doc_id) {
            before
        } else {
            before.push(ps[n - 1].doc_id)
        }
    }
}

/// The postings of a term after the given documents, each a number and a
/// text, were indexed one after the other.
pub open spec fn postings_of(docs: Seq<(u64, Seq<char>)>, term: Seq<char>) -> Seq<PostingView>
    decreases docs.len(),
{
    if docs.len() == 0 {
        seq![]
    } else {
        let before = postings_of(docs.drop_last(), term);
        let tokens = tokens_of(docs.last().1);
        if terms_of(tokens).contains(term) {
            before.push(posting_of(docs.last().0, tokens, term))
        } else {
            before
        }
    }
}

/// The terms of the given documents.
pub open spec fn terms_in(docs: Seq<(u64, Seq<char>)>) -> Set<Seq<char>>
    decreases docs.len(),
{
    if docs.len() == 0 {
        Set::empty()
    } else {
        terms_in(docs.drop_last()).union(terms_of(tokens_of(docs.last().1)).to_set())
    }
}

/// Whether one of the postings is of the document.
pub open spec fn has_posting(ps: Seq<PostingView>, d: u64) -> bool {
    exists|k: int| 0 <= k < ps.len() && (#[trigger] ps[k]).doc_id == d
}

impl InvertedIndex {
    /// Whether the index holds exactly the given documents, each a number and
    /// a text, in the order in which they were indexed.
    pub open spec fn indexes(&self, docs: Seq<(u64, Seq<char>)>) -> bool {
        self.documents() == docs.len() && forall|t: Seq<char>| #[trigger]
            self.postings(t) == postings_of(docs, t)
    }

    /// The indexed terms, in the order in which they came.
    pub closed spec fn terms(&self) -> Seq<Seq<char>> {
        self.index.key_seq()
    }

    /// The postings of a term, in the order in which its documents came.
    pub closed spec fn postings(&self, term: Seq<char>) -> Seq<PostingView> {
        posting_views(self.index.row(term))
    }

    /// The number of indexed documents.
    pub closed spec fn documents(&self) -> nat {
        self.doc_count as nat
    }

    /// The number of documents that hold a term.
    pub closed spec fn frequency(&self, term: Seq<char>) -> nat {
        self.scorer.frequency(term)
    }

    /// Every document counts once, for each of its terms too; each indexed
    /// term has a posting, and no term is indexed twice.
    pub closed spec fn wf(&self) -> bool {
        &&& self.index.wf()
        &&& self.scorer.wf()
        &&& self.scorer.documents() == self.doc_count
        &&& forall|t: Seq<char>|
            #[trigger] self.postings(t).len() == self.scorer.frequency(t)
        &&& forall|t: Seq<char>|
            self.index.key_seq().contains(t) <==> #[trigger] self.postings(t).len() > 0
    }

    /// A term is indexed exactly where it has a posting, and its document
    /// frequency is the number of its postings.
    pub proof fn law_frequency_counts_postings(&self, term: Seq<char>)
        requires
            self.wf(),
        ensures
            self.frequency(term) == self.postings(term).len(),
            self.terms().contains(term) <==> self.postings(term).len() > 0,
            self.terms().no_duplicates(),
    {
        assert(self.postings(term).len() == self.scorer.frequency(term));
    }

    /// An index without documents.
    pub fn new() -> (res: Self)
        ensures
            res.wf(),
            res.documents() == 0,
            res.terms() == Seq::<Seq<char>>::empty(),
            forall|t: Seq<char>| #[trigger] res.postings(t) == Seq::<PostingView>::empty(),
            res.indexes(seq![]),
    {
        let res = InvertedIndex {
            index: StrMap::new(),
            scorer: TfIdfScorer::new(),
            doc_count: 0,
        };
        assert forall|t: Seq<char>| #[trigger] res.postings(t) == Seq::<PostingView>::empty() by {
            assert(res.postings(t) =~= Seq::<PostingView>::empty());
        }
        res
    }

    /// Indexes a document: its tokens are grouped by term, and each of its
    /// terms gets one posting.
    pub fn add_document(&mut self, doc_id: u64, text: &str)
        requires
            old(self).wf(),
            old(self).documents() < u64::MAX,
            words_of(text@).len() <= u32::MAX,
        ensures
            final(self).wf(),
            final(self).documents() == old(self).documents() + 1,
            final(self).terms() == with_terms(
                old(self).terms(),
                distinct_terms(tokens_of(text@)),
                distinct_terms(tokens_of(text@)).len() as int,
            ),
            forall|t: Seq<char>|
                #[trigger] final(self).postings(t) == (if terms_of(tokens_of(text@)).contains(t) {
                    old(self).postings(t).push(posting_of(doc_id, tokens_of(text@), t))
                } else {
                    old(self).postings(t)
                }),
            forall|docs: Seq<(u64, Seq<char>)>| #[trigger]
                old(self).indexes(docs) ==> final(self).indexes(docs.push((doc_id, text@))),
    {
        let tokens: Vec<Token> = tokenize(text);
        let ghost tv = tokens_of(text@);
        let grouped: StrMap<Vec<u32>> = group_positions(&tokens);
        let ghost keys = grouped.key_seq();
        proof {
            lemma_token_count(words_of(text@), words_of(text@).len() as int);
            assert forall|t: Seq<char>| #[trigger] keys.contains(t) <==> terms_of(tv).contains(
                t,
            ) by {
                lemma_with_terms(seq![], terms_of(tv), tv.len() as int, t);
                assert(terms_of(tv).take(tv.len() as int) =~= terms_of(tv));
            }
        }
        self.doc_count = self.doc_count + 1;
        let mut names: Vec<&str> = Vec::new();
        let mut i: usize = 0;
        while i < grouped.len()
            invariant
                i <= grouped.key_seq().len(),
                slices(names@) == grouped.key_seq().take(i as int),
            decreases grouped.key_seq().len() - i,
        {
            let ghost before = names@;
            let name: &str = grouped.key_at(i).as_str();
            names.push(name);
            assert(slices(names@) =~= slices(before).push(name@));
            i = i + 1;
            assert(grouped.key_seq().take(i as int) =~= grouped.key_seq().take(i - 1).push(name@));
        }
        assert(keys.take(i as int) =~= keys);
        self.scorer.add_document(names.as_slice());
        let mut i: usize = 0;
        assert(keys.take(0) =~= seq![]);
        while i < grouped.len()
            invariant
                i <= keys.len(),
                grouped.wf(),
                keys == grouped.key_seq(),
                tv == tokens_of(text@),
                tv.len() <= u32::MAX,
                self.index.wf(),
                self.doc_count == old(self).doc_count + 1,
                self.scorer.wf(),
                self.scorer.documents() == self.doc_count,
                forall|t: Seq<char>|
                    #[trigger] self.scorer.frequency(t) == old(self).scorer.frequency(t)
                        + if keys.contains(t) {
                        1nat
                    } else {
                        0nat
                    },
                forall|t: Seq<char>| numbers_of(#[trigger] grouped.row(t)) == all_positions(tv, t),
                old(self).wf(),
                self.index.key_seq() == with_terms(old(self).index.key_seq(), keys, i as int),
                forall|t: Seq<char>|
                    #[trigger] self.postings(t) == (if keys.take(i as int).contains(t) {
                        old(self).postings(t).push(posting_of(doc_id, tv, t))
                    } else {
                        old(self).postings(t)
                    }),
            decreases keys.len() - i,
        {
            let ghost here = *self;
            let term: &str = grouped.key_at(i).as_str();
            proof {
                grouped.lemma_at(i as int);
                lemma_positions(tv, term@, tv.len() as int);
                assert(grouped.row(term@) == grouped.value_seq()[i as int]@);
                assert(numbers_of(grouped.row(term@)) == all_positions(tv, term@));
                assert(!keys.take(i as int).contains(term@));
                assert(keys.take(i + 1) =~= keys.take(i as int).push(term@));
                assert forall|t: Seq<char>| #[trigger] keys.take(i + 1).contains(t) <==> (
                keys.take(i as int).contains(t) || t == term@) by {
                    crate::sequences::lemma_push_contains(keys.take(i as int), term@, t);
                }
                lemma_with_terms(old(self).index.key_seq(), keys, i as int, term@);
            }
            let found: &Vec<u32> = grouped.value_at(i);
            let positions: Vec<u32> = copy_numbers(found);
            let tf: u32 = positions.len() as u32;
            let posting: Posting = Posting { doc_id, term_frequency: tf, positions };
            assert(posting@ =~= posting_of(doc_id, tv, term@));
            assert(self.index@.dom().contains(term@) <==> self.index.key_seq().contains(term@));
            self.index.push_to(term, posting);
            proof {
                assert forall|t: Seq<char>| #[trigger] self.postings(t) == (if keys.take(
                    i + 1,
                ).contains(t) {
                    old(self).postings(t).push(posting_of(doc_id, tv, t))
                } else {
                    old(self).postings(t)
                }) by {
                    if t == term@ {
                        assert(here.postings(t) == old(self).postings(t));
                        assert(self.postings(t) =~= here.postings(t).push(posting@));
                    } else {
                        assert(self.index.row(t) == here.index.row(t));
                        assert(self.postings(t) == here.postings(t));
                    }
                }
            }
            i = i + 1;
        }
        proof {
            assert(keys.take(i as int) =~= keys);
            assert forall|t: Seq<char>|
                self.index.key_seq().contains(t) <==> #[trigger] self.postings(t).len() > 0 by {
                lemma_with_terms(old(self).index.key_seq(), keys, keys.len() as int, t);
                assert(old(self).index.key_seq().contains(t) <==> old(self).postings(t).len() > 0);
            }
            assert forall|t: Seq<char>| #[trigger] self.postings(t).len() == self.scorer.frequency(
                t,
            ) by {
                assert(old(self).postings(t).len() == old(self).scorer.frequency(t));
                assert(self.scorer.frequency(t) == old(self).scorer.frequency(t) + if keys.contains(
                    t,
                ) {
                    1nat
                } else {
                    0nat
                });
            }
            assert forall|docs: Seq<(u64, Seq<char>)>| #[trigger]
                old(self).indexes(docs) implies self.indexes(docs.push((doc_id, text@))) by {
                let more = docs.push((doc_id, text@));
                assert(more.drop_last() =~= docs);
                assert forall|t: Seq<char>| #[trigger] self.postings(t) == postings_of(more, t) by {
                    assert(old(self).postings(t) == postings_of(docs, t));
                }
            }
        }
    }

    /// What the first `n` tokens' postings say of a document.
    pub open spec fn hits(&self, tokens: Seq<TokenView>, d: u64, n: int) -> Seq<(Seq<char>, nat)>
        decreases n,
    {
        if n <= 0 {
            seq![]
        } else {
            let term = tokens[n - 1].term;
            self.hits(tokens, d, n - 1) + doc_hits(
                term,
                self.postings(term),
                d,
                self.postings(term).len() as int,
            )
        }
    }

    /// The documents of the first `n` tokens' postings, each once, in the order
    /// of their first occurrence.
    pub open spec fn docs(&self, tokens: Seq<TokenView>, n: int) -> Seq<u64>
        decreases n,
    {
        if n <= 0 {
            seq![]
        } else {
            let ps = self.postings(tokens[n - 1].term);
            with_docs(self.docs(tokens, n - 1), ps, ps.len() as int)
        }
    }

    /// The documents with any of the query's terms, each with what its
    /// postings say.
    pub open spec fn any_matches(&self, query: Seq<char>) -> Seq<MatchView> {
        let tokens = tokens_of(query);
        let n = tokens.len() as int;
        self.docs(tokens, n).map_values(
            |d: u64| MatchView { doc_id: d, terms: self.hits(tokens, d, n) },
        )
    }

    /// Whether each of the tokens' terms has a posting of the document.
    pub open spec fn holds_all(&self, tokens: Seq<TokenView>, d: u64) -> bool {
        forall|i: int|
            0 <= i < tokens.len() ==> has_posting(self.postings((#[trigger] tokens[i]).term), d)
    }

    /// The documents with all of the query's terms, each with what its
    /// postings say.
    pub open spec fn all_matches(&self, query: Seq<char>) -> Seq<MatchView> {
        self.any_matches(query).filter(
            |m: MatchView| self.holds_all(tokens_of(query), m.doc_id),
        )
    }

    /// Whether each of the query's terms has a posting of a document.
    fn has_all(&self, tokens: &Vec<Token>, d: u64) -> (r: bool)
        requires
            self.wf(),
        ensures
            r == self.holds_all(token_views(tokens@), d),
    {
        let ghost tv = token_views(tokens@);
        let mut i: usize = 0;
        while i < tokens.len()
            invariant
                i <= tokens@.len(),
                self.wf(),
                tv == token_views(tokens@),
                forall|k: int|
                    0 <= k < i ==> has_posting(self.postings((#[trigger] tv[k]).term), d),
            decreases tokens@.len() - i,
        {
            let term: &str = tokens[i].term.as_str();
            assert(tv[i as int].term == term@);
            let held: bool = match self.index.get(term) {
                Some(postings) => {
                    assert(self.postings(term@) == posting_views(postings@));
                    is_posted(postings, d)
                },
                None => {
                    assert(self.postings(term@).len() == 0);
                    false
                },
            };
            if !held {
                assert(!has_posting(self.postings(tv[i as int].term), d));
                return false;
            }
            i = i + 1;
        }
        true
    }

    /// The documents of the query's postings.
    fn collect_docs(&self, tokens: &Vec<Token>) -> (r: Vec<u64>)
        requires
            self.wf(),
        ensures
            r@ == self.docs(token_views(tokens@), tokens@.len() as int),
    {
        let ghost tv = token_views(tokens@);
        let mut docs: Vec<u64> = Vec::new();
        let mut i: usize = 0;
        while i < tokens.len()
            invariant
                i <= tokens@.len(),
                self.wf(),
                tv == token_views(tokens@),
                docs@ == self.docs(tv, i as int),
            decreases tokens@.len() - i,
        {
            let term: &str = tokens[i].term.as_str();
            assert(tv[i as int].term == term@);
            let ghost before = docs@;
            let ghost ps = self.postings(term@);
            match self.index.get(term) {
                Some(postings) => {
                    let mut k: usize = 0;
                    assert(ps == posting_views(postings@));
                    while k < postings.len()
                        invariant
                            k <= postings@.len(),
                            ps == posting_views(postings@),
                            docs@ == with_docs(before, ps, k as int),
                        decreases postings@.len() - k,
                    {
                        assert(ps[k as int] == postings@[k as int]@);
                        let d: u64 = postings[k].doc_id;
                        if !has_doc(&docs, d) {
                            docs.push(d);
                        }
                        k = k + 1;
                    }
                },
                None => {
                    assert(ps.len() == 0);
                },
            }
            i = i + 1;
        }
        docs
    }

    /// What the query's postings say of a document.
    fn collect_hits(&self, tokens: &Vec<Token>, d: u64) -> (r: Vec<(String, u32)>)
        requires
            self.wf(),
        ensures
            counted(r@) == self.hits(token_views(tokens@), d, tokens@.len() as int),
    {
        let ghost tv = token_views(tokens@);
        let mut out: Vec<(String, u32)> = Vec::new();
        let mut i: usize = 0;
        assert(counted(out@) =~= seq![]);
        while i < tokens.len()
            invariant
                i <= tokens@.len(),
                self.wf(),
                tv == token_views(tokens@),
                counted(out@) == self.hits(tv, d, i as int),
            decreases tokens@.len() - i,
        {
            let term: &str = tokens[i].term.as_str();
            assert(tv[i as int].term == term@);
            let ghost before = counted(out@);
            let ghost ps = self.postings(term@);
            assert(before + doc_hits(term@, ps, d, 0) =~= before);
            match self.index.get(term) {
                Some(postings) => {
                    let mut k: usize = 0;
                    assert(ps == posting_views(postings@));
                    while k < postings.len()
                        invariant
                            k <= postings@.len(),
                            ps == posting_views(postings@),
                            counted(out@) == before + doc_hits(term@, ps, d, k as int),
                        decreases postings@.len() - k,
                    {
                        assert(ps[k as int] == postings@[k as int]@);
                        if postings[k].doc_id == d {
                            let ghost here = out@;
                            let tf: u32 = postings[k].term_frequency;
                            out.push((term.to_owned(), tf));
                            assert(counted(out@) =~= counted(here).push((term@, tf as nat)));
                            assert(counted(out@) =~= before + doc_hits(term@, ps, d, k + 1));
                        }
                        k = k + 1;
                    }
                },
                None => {
                    assert(ps.len() == 0);
                },
            }
            i = i + 1;
        }
        out
    }

    /// Finds the documents that hold all terms of the query, each with its
    /// term frequencies. None where the query has no terms.
    pub fn search(&self, query: &str) -> (r: Vec<SearchMatch>)
        requires
            self.wf(),
            words_of(query@).len() <= u32::MAX,
        ensures
            match_views(r@) == self.all_matches(query@),
    {
        let tokens: Vec<Token> = tokenize(query);
        let ghost tv = tokens_of(query@);
        let docs: Vec<u64> = self.collect_docs(&tokens);
        let ghost all = self.any_matches(query@);
        let ghost full = |m: MatchView| self.holds_all(tv, m.doc_id);
        let mut out: Vec<SearchMatch> = Vec::new();
        let mut k: usize = 0;
        proof {
            reveal(Seq::filter);
            assert(match_views(out@) =~= all.take(0).filter(full));
        }
        while k < docs.len()
            invariant
                k <= docs@.len(),
                self.wf(),
                tv == tokens_of(query@),
                tv == token_views(tokens@),
                docs@ == self.docs(tv, tokens@.len() as int),
                all == self.any_matches(query@),
                full == (|m: MatchView| self.holds_all(tv, m.doc_id)),
                match_views(out@) == all.take(k as int).filter(full),
            decreases docs@.len() - k,
        {
            let d: u64 = docs[k];
            let terms: Vec<(String, u32)> = self.collect_hits(&tokens, d);
            let found: SearchMatch = SearchMatch { doc_id: d, terms };
            proof {
                assert(found@ =~= all[k as int]);
                assert(all.take(k + 1) =~= all.take(k as int).push(found@));
                crate::sequences::lemma_filter_push(all.take(k as int), found@, full);
            }
            if self.has_all(&tokens, d) {
                let ghost before = out@;
                out.push(found);
                assert(match_views(out@) =~= match_views(before).push(found@));
            }
            k = k + 1;
        }
        assert(all.take(k as int) =~= all);
        out
    }

    /// Finds the documents that hold any term of the query, each with its term
    /// frequencies.
    pub fn search_or(&self, query: &str) -> (r: Vec<SearchMatch>)
        requires
            self.wf(),
            words_of(query@).len() <= u32::MAX,
        ensures
            match_views(r@) == self.any_matches(query@),
    {
        let tokens: Vec<Token> = tokenize(query);
        let ghost tv = tokens_of(query@);
        let docs: Vec<u64> = self.collect_docs(&tokens);
        let ghost all = self.any_matches(query@);
        let mut out: Vec<SearchMatch> = Vec::new();
        let mut k: usize = 0;
        assert(match_views(out@) =~= all.take(0));
        while k < docs.len()
            invariant
                k <= docs@.len(),
                self.wf(),
                tv == tokens_of(query@),
                tv == token_views(tokens@),
                docs@ == self.docs(tv, tokens@.len() as int),
                all == self.any_matches(query@),
                match_views(out@) == all.take(k as int),
            decreases docs@.len() - k,
        {
            let d: u64 = docs[k];
            let terms: Vec<(String, u32)> = self.collect_hits(&tokens, d);
            let found: SearchMatch = SearchMatch { doc_id: d, terms };
            let ghost before = out@;
            out.push(found);
            proof {
                assert(found@ =~= all[k as int]);
                assert(match_views(out@) =~= match_views(before).push(found@));
                assert(all.take(k + 1) =~= all.take(k as int).push(found@));
            }
            k = k + 1;
        }
        assert(all.take(k as int) =~= all);
        out
    }

    /// The number of different terms.
    pub fn term_count(&self) -> (r: usize)
        ensures
            r == self.terms().len(),
    {
        self.index.len()
    }

    /// The number of documents.
    pub fn doc_count(&self) -> (r: u64)
        ensures
            r == self.documents(),
    {
        self.doc_count
    }

    /// The number of documents that hold a term.
    pub fn doc_frequency(&self, term: &str) -> (r: u64)
        requires
            self.wf(),
        ensures
            r == self.frequency(term@),
    {
        self.scorer.doc_frequency(term)
    }
}

impl Default for InvertedIndex {
    fn default() -> (res: Self)
        ensures
            res.wf(),
            res.documents() == 0,
            res.terms() == Seq::<Seq<char>>::empty(),
            forall|t: Seq<char>| #[trigger] res.postings(t) == Seq::<PostingView>::empty(),
    {
        InvertedIndex::new()
    }
}

/// Whether a row of document numbers holds `d`.
fn has_doc(docs: &Vec<u64>, d: u64) -> (r: bool)
    ensures
        r == docs@.contains(d),
{
    let mut i: usize = 0;
    while i < docs.len()
        invariant
            i <= docs@.len(),
            forall|k: int| 0 <= k < i ==> #[trigger] docs@[k] != d,
        decreases docs@.len() - i,
    {
        if docs[i] == d {
            return true;
        }
        i = i + 1;
    }
    false
}

/// A copy of a row of numbers.
fn is_posted(postings: &Vec<Posting>, d: u64) -> (r: bool)
    ensures
        r == has_posting(posting_views(postings@), d),
{
    let ghost ps = posting_views(postings@);
    let mut k: usize = 0;
    while k < postings.len()
        invariant
            k <= postings@.len(),
            ps == posting_views(postings@),
            forall|j: int| 0 <= j < k ==> (#[trigger] ps[j]).doc_id != d,
        decreases postings@.len() - k,
    {
        assert(ps[k as int] == postings@[k as int]@);
        if postings[k].doc_id == d {
            return true;
        }
        k = k + 1;
    }
    false
}

fn copy_numbers(v: &Vec<u32>) -> (r: Vec<u32>)
    ensures
        r@ == v@,
{
    let mut out: Vec<u32> = Vec::new();
    let mut i: usize = 0;
    while i < v.len()
        invariant
            i <= v@.len(),
            out@ == v@.take(i as int),
        decreases v@.len() - i,
    {
        out.push(v[i]);
        i = i + 1;
        assert(out@ =~= v@.take(i as int));
    }
    assert(v@.take(i as int) =~= v@);
    out
}

/// The word numbers of each term.
fn group_positions(tokens: &Vec<Token>) -> (r: StrMap<Vec<u32>>)
    ensures
        r.wf(),
        r.key_seq() == distinct_terms(token_views(tokens@)),
        forall|t: Seq<char>|
            numbers_of(#[trigger] r.row(t)) == all_positions(token_views(tokens@), t),
{
    let ghost tv = token_views(tokens@);
    let ghost terms = terms_of(tv);
    let mut out: StrMap<Vec<u32>> = StrMap::new();
    let mut i: usize = 0;
    assert forall|t: Seq<char>| numbers_of(#[trigger] out.row(t)) == positions_of(tv, t, 0) by {
        assert(numbers_of(out.row(t)) =~= seq![]);
    }
    while i < tokens.len()
        invariant
            i <= tokens@.len(),
            tv == token_views(tokens@),
            terms == terms_of(tv),
            out.wf(),
            out.key_seq() == with_terms(seq![], terms, i as int),
            forall|t: Seq<char>|
                numbers_of(#[trigger] out.row(t)) == positions_of(tv, t, i as int),
        decreases tokens@.len() - i,
    {
        let ghost before = out;
        let term: &str = tokens[i].term.as_str();
        let position: u32 = tokens[i].position;
        assert(tv[i as int] == tokens@[i as int]@);
        assert(terms[i as int] == term@);
        out.push_to(term, position);
        proof {
            assert forall|t: Seq<char>| numbers_of(#[trigger] out.row(t)) == positions_of(
                tv,
                t,
                i + 1,
            ) by {
                assert(numbers_of(before.row(t)) == positions_of(tv, t, i as int));
                if t == term@ {
                    assert(numbers_of(out.row(t)) =~= numbers_of(before.row(t)).push(
                        position as nat,
                    ));
                }
            }
            assert(before@.dom().contains(term@) <==> before.key_seq().contains(term@));
        }
        i = i + 1;
    }
    out
}

} // verus!
