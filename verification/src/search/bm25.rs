//! The corpus statistics behind BM25 relevance ranking.
//!
//! The score of a document `D` for a query `Q` is the sum over the terms `t` of
//! the query of
//!
//! ```text
//! ln((N - n(t) + 0.5) / (n(t) + 0.5) + 1)
//!     * (f(t,D) * (k1 + 1)) / (f(t,D) + k1 * (1 - b + b * |D| / avgdl))
//! ```
//!
//! Everything in it that is counted comes from here: `N`, the number of
//! documents; `n(t)`, the number of documents with the term; `f(t,D)`, how
//! often the document holds it; `|D|`, the document's length; and `avgdl`, as
//! the total length and `N`. The two parameters `k1` and `b` are carried as
//! the bits of double-precision numbers.

use vstd::prelude::*;

use crate::search::fts::with_terms;
use crate::search::fuzzy::slices;
use crate::search::stemmer::{stem, stem_of};
use crate::search::tokenizer::{is_stopword, split_words, stopwords, words_of};
use crate::strmap::StrMap;
use crate::text::{lowercase, same_text, texts, to_lowercase};

verus! {

/// The bits of 1.2, the usual `k1`.
pub const DEFAULT_K1: u64 = 0x3ff3_3333_3333_3333;

/// The bits of 0.75, the usual `b`.
pub const DEFAULT_B: u64 = 0x3fe8_0000_0000_0000;

/// A document's length and how often it holds each of its terms.
#[verifier::ext_equal]
pub struct DocView {
    pub doc_id: u64,
    pub len: nat,
    pub tf: Map<Seq<char>, nat>,
}

/// The statistics of a corpus.
#[verifier::ext_equal]
pub struct CorpusView {
    /// How many documents were added.
    pub doc_count: nat,
    /// For each term, how many added documents held it.
    pub doc_freq: Map<Seq<char>, nat>,
    /// The documents, each number once, in the order in which they came.
    pub docs: Seq<DocView>,
}

/// A corpus without documents.
pub open spec fn empty_corpus() -> CorpusView {
    CorpusView { doc_count: 0, doc_freq: Map::empty(), docs: seq![] }
}

/// How many of the first `n` terms are `t`.
pub open spec fn occurrences(terms: Seq<Seq<char>>, t: Seq<char>, n: int) -> nat
    decreases n,
{
    if n <= 0 {
        0
    } else {
        occurrences(terms, t, n - 1) + if terms[n - 1] == t {
            1nat
        } else {
            0nat
        }
    }
}

/// How often each of the first `n` terms occurs among them.
pub open spec fn frequencies(terms: Seq<Seq<char>>, n: int) -> Map<Seq<char>, nat> {
    Map::new(|t: Seq<char>| terms.take(n).contains(t), |t: Seq<char>| occurrences(terms, t, n))
}

/// The value of a term in a table of counts; zero where it is not there.
pub open spec fn count_of(m: Map<Seq<char>, nat>, t: Seq<char>) -> nat {
    if m.dom().contains(t) {
        m[t]
    } else {
        0
    }
}

/// A table of counts after one more document with the given terms.
pub open spec fn counted_once(m: Map<Seq<char>, nat>, terms: Set<Seq<char>>) -> Map<
    Seq<char>,
    nat,
> {
    Map::new(
        |t: Seq<char>| m.dom().contains(t) || terms.contains(t),
        |t: Seq<char>|
            count_of(m, t) + if terms.contains(t) {
                1nat
            } else {
                0nat
            },
    )
}

/// The place of a document from `k` on; the end where it is not there.
pub open spec fn doc_place(docs: Seq<DocView>, doc_id: u64, k: int) -> int
    decreases docs.len() - k,
{
    if 0 <= k < docs.len() && docs[k].doc_id != doc_id {
        doc_place(docs, doc_id, k + 1)
    } else {
        k
    }
}

/// The corpus after a document with the given terms has been added. A document
/// whose number is there already takes the earlier one's place.
pub open spec fn with_document(c: CorpusView, doc_id: u64, terms: Seq<Seq<char>>) -> CorpusView {
    let tf = frequencies(terms, terms.len() as int);
    let doc = DocView { doc_id, len: terms.len(), tf };
    let place = doc_place(c.docs, doc_id, 0);
    CorpusView {
        doc_count: c.doc_count + 1,
        doc_freq: counted_once(c.doc_freq, tf.dom()),
        docs: if place < c.docs.len() {
            c.docs.update(place, doc)
        } else {
            c.docs.push(doc)
        },
    }
}

/// The total length of the first `n` documents.
pub open spec fn total_of(docs: Seq<DocView>, n: int) -> nat
    decreases n,
{
    if n <= 0 {
        0
    } else {
        total_of(docs, n - 1) + docs[n - 1].len
    }
}

/// The terms of a query: its words in lower case, without stop-words,
/// stemmed.
pub open spec fn query_terms(words: Seq<Seq<char>>, n: int) -> Seq<Seq<char>>
    decreases n,
{
    if n <= 0 {
        seq![]
    } else {
        let before = query_terms(words, n - 1);
        let lower = lowercase(words[n - 1]);
        if stopwords().contains(lower) {
            before
        } else {
            before.push(stem_of(lower))
        }
    }
}

/// The terms of a text.
pub open spec fn terms_of_text(s: Seq<char>) -> Seq<Seq<char>> {
    query_terms(words_of(s), words_of(s).len() as int)
}

/// The corpus of the first `n` of some documents.
pub open spec fn corpus_of(docs: Seq<(u64, &str)>, n: int) -> CorpusView
    decreases n,
{
    if n <= 0 {
        empty_corpus()
    } else {
        with_document(corpus_of(docs, n - 1), docs[n - 1].0, terms_of_text(docs[n - 1].1@))
    }
}

/// What the score of a document needs of one query term.
#[verifier::ext_equal]
pub struct TermScore {
    pub term: Seq<char>,
    pub tf: nat,
    pub df: nat,
}

/// The first `n` query terms that the document holds, each once, with their
/// counts.
pub open spec fn scored_terms(c: CorpusView, doc: DocView, terms: Seq<Seq<char>>, n: int) -> Seq<
    TermScore,
> {
    with_terms(seq![], terms, n).filter(|t: Seq<char>| count_of(doc.tf, t) > 0).map_values(
        |t: Seq<char>|
            TermScore { term: t, tf: count_of(doc.tf, t), df: count_of(c.doc_freq, t) },
    )
}

/// A document of the corpus.
struct Doc {
    doc_id: u64,
    len: usize,
    tf: StrMap<u32>,
}

spec fn counts32(m: Map<Seq<char>, u32>) -> Map<Seq<char>, nat> {
    Map::new(|t: Seq<char>| m.dom().contains(t), |t: Seq<char>| m[t] as nat)
}

spec fn counts64(m: Map<Seq<char>, u64>) -> Map<Seq<char>, nat> {
    Map::new(|t: Seq<char>| m.dom().contains(t), |t: Seq<char>| m[t] as nat)
}

spec fn doc_view(d: Doc) -> DocView {
    DocView { doc_id: d.doc_id, len: d.len as nat, tf: counts32(d.tf@) }
}

/// The integer part of a BM25 score: the document's length and, for each query
/// term that it holds, the term, its frequency in the document, and the number
/// of documents that hold it.
pub struct ScoreInput {
    pub doc_len: usize,
    pub terms: Vec<(String, u32, u64)>,
}

/// The values of a row of scored terms.
pub open spec fn score_views(s: Seq<(String, u32, u64)>) -> Seq<TermScore> {
    s.map_values(
        |p: (String, u32, u64)| TermScore { term: p.0@, tf: p.1 as nat, df: p.2 as nat },
    )
}

/// The corpus and the two parameters of the formula.
pub struct Bm25Scorer {
    k1: u64,
    b: u64,
    doc_count: u64,
    doc_freq: StrMap<u64>,
    docs: Vec<Doc>,
}

impl View for Bm25Scorer {
    type V = CorpusView;

    closed spec fn view(&self) -> CorpusView {
        CorpusView {
            doc_count: self.doc_count as nat,
            doc_freq: counts64(self.doc_freq@),
            docs: self.docs@.map_values(|d: Doc| doc_view(d)),
        }
    }
}

impl Bm25Scorer {
    /// The bits of the two parameters, `k1` first.
    pub closed spec fn params(&self) -> (u64, u64) {
        (self.k1, self.b)
    }

    /// No term is in more documents than there are.
    pub closed spec fn wf(&self) -> bool {
        &&& self.doc_freq.wf()
        &&& forall|t: Seq<char>|
            self.doc_freq@.dom().contains(t) ==> #[trigger] self.doc_freq@[t] <= self.doc_count
        &&& forall|i: int| 0 <= i < self.docs@.len() ==> (#[trigger] self.docs@[i]).tf.wf()
    }

    /// A scorer with the given parameters, as bits, and no documents.
    pub fn with_params(k1: u64, b: u64) -> (res: Self)
        ensures
            res.wf(),
            res.params() == (k1, b),
            res@ == empty_corpus(),
    {
        let res = Bm25Scorer {
            k1,
            b,
            doc_count: 0,
            doc_freq: StrMap::new(),
            docs: Vec::new(),
        };
        assert(res@ =~~= empty_corpus());
        res
    }

    /// A scorer with the usual parameters and no documents.
    pub fn new() -> (res: Self)
        ensures
            res.wf(),
            res.params() == (DEFAULT_K1, DEFAULT_B),
            res@ == empty_corpus(),
    {
        Bm25Scorer::with_params(DEFAULT_K1, DEFAULT_B)
    }

    /// The bits of the parameter `k1`.
    pub fn k1(&self) -> (r: u64)
        ensures
            r == self.params().0,
    {
        self.k1
    }

    /// The bits of the parameter `b`.
    pub fn b(&self) -> (r: u64)
        ensures
            r == self.params().1,
    {
        self.b
    }

    /// The number of documents that were added.
    pub fn doc_count(&self) -> (r: u64)
        ensures
            r == self@.doc_count,
    {
        self.doc_count
    }

    /// The total length of the documents; the average length is this over the
    /// number of documents.
    pub fn total_doc_len(&self) -> (r: u128)
        ensures
            r == total_of(self@.docs, self@.docs.len() as int),
    {
        let ghost docs = self@.docs;
        let mut total: u128 = 0;
        let mut i: usize = 0;
        while i < self.docs.len()
            invariant
                i <= self.docs@.len(),
                docs == self@.docs,
                total == total_of(docs, i as int),
                total <= i as u128 * 0xffff_ffff_ffff_ffff,
            decreases self.docs@.len() - i,
        {
            assert(docs[i as int].len == self.docs@[i as int].len);
            let len: u128 = self.docs[i].len as u128;
            assert(i as u128 * 0xffff_ffff_ffff_ffff + 0xffff_ffff_ffff_ffff == (i + 1) as u128
                * 0xffff_ffff_ffff_ffff);
            total = total + len;
            i = i + 1;
        }
        total
    }

    /// How many documents hold a term.
    pub fn doc_freq(&self, term: &str) -> (r: u64)
        requires
            self.wf(),
        ensures
            r == count_of(self@.doc_freq, term@),
    {
        match self.doc_freq.get(term) {
            Some(n) => *n,
            None => 0,
        }
    }

    fn find_doc(&self, doc_id: u64) -> (r: usize)
        ensures
            r == doc_place(self@.docs, doc_id, 0),
            r <= self.docs@.len(),
            r < self.docs@.len() ==> self.docs@[r as int].doc_id == doc_id,
    {
        let ghost docs = self@.docs;
        let mut i: usize = 0;
        while i < self.docs.len() && self.docs[i].doc_id != doc_id
            invariant
                i <= self.docs@.len(),
                docs == self@.docs,
                doc_place(docs, doc_id, i as int) == doc_place(docs, doc_id, 0),
            decreases self.docs@.len() - i,
        {
            assert(docs[i as int].doc_id == self.docs@[i as int].doc_id);
            i = i + 1;
        }
        proof {
            if i < self.docs@.len() {
                assert(docs[i as int].doc_id == self.docs@[i as int].doc_id);
            }
        }
        i
    }

    /// The length of a document; zero where it is not there.
    pub fn doc_len(&self, doc_id: u64) -> (r: usize)
        ensures
            r == ({
                let place = doc_place(self@.docs, doc_id, 0);
                if place < self@.docs.len() {
                    self@.docs[place].len
                } else {
                    0
                }
            }),
    {
        let i: usize = self.find_doc(doc_id);
        if i < self.docs.len() {
            self.docs[i].len
        } else {
            0
        }
    }

    /// How often a document holds a term.
    pub fn term_frequency(&self, term: &str, doc_id: u64) -> (r: u32)
        requires
            self.wf(),
        ensures
            r == ({
                let place = doc_place(self@.docs, doc_id, 0);
                if place < self@.docs.len() {
                    count_of(self@.docs[place].tf, term@)
                } else {
                    0
                }
            }),
    {
        let i: usize = self.find_doc(doc_id);
        if i < self.docs.len() {
            assert(self.docs@[i as int].tf.wf());
            match self.docs[i].tf.get(term) {
                Some(n) => *n,
                None => 0,
            }
        } else {
            0
        }
    }

    /// Adds a document with the given terms, which are in lower case and
    /// stemmed. Its length is their number, repeats included.
    pub fn add_document(&mut self, doc_id: u64, terms: &[&str])
        requires
            old(self).wf(),
            old(self)@.doc_count < u64::MAX,
            forall|t: Seq<char>|
                #[trigger] occurrences(slices(terms@), t, terms@.len() as int) <= u32::MAX,
        ensures
            final(self).wf(),
            final(self).params() == old(self).params(),
            final(self)@ == with_document(old(self)@, doc_id, slices(terms@)),
    {
        let tf: StrMap<u32> = count_terms(terms);
        let ghost want = frequencies(slices(terms@), terms@.len() as int);
        let ghost keys = tf.key_seq();
        let mut i: usize = 0;
        assert(keys.take(0).len() == 0);
        assert(counts64(self.doc_freq@) =~= counted_once(
            counts64(old(self).doc_freq@),
            keys.take(0).to_set(),
        ));
        while i < tf.len()
            invariant
                i <= keys.len(),
                keys == tf.key_seq(),
                tf.wf(),
                old(self).wf(),
                old(self).doc_count < u64::MAX,
                self.doc_freq.wf(),
                self.doc_count == old(self).doc_count,
                self.docs@ == old(self).docs@,
                self.k1 == old(self).k1,
                self.b == old(self).b,
                counts64(self.doc_freq@) == counted_once(
                    counts64(old(self).doc_freq@),
                    keys.take(i as int).to_set(),
                ),
            decreases keys.len() - i,
        {
            let term: &str = tf.key_at(i).as_str();
            let ghost done = keys.take(i as int);
            let ghost first = counts64(old(self).doc_freq@);
            let ghost here = counts64(self.doc_freq@);
            proof {
                assert(keys.take(i + 1) =~= done.push(term@));
                assert forall|t: Seq<char>| #[trigger] done.push(term@).contains(t) <==> (
                done.contains(t) || t == term@) by {
                    crate::sequences::lemma_push_contains(done, term@, t);
                }
                assert(!done.contains(term@));
                assert(count_of(here, term@) == count_of(first, term@));
                assert(old(self).doc_freq@.dom().contains(term@) ==> old(self).doc_freq@[term@]
                    <= old(self).doc_count);
            }
            match self.doc_freq.find(term) {
                Some(k) => {
                    let n: u64 = *self.doc_freq.value_at(k);
                    assert(n == count_of(here, term@));
                    self.doc_freq.set_at(k, n + 1);
                },
                None => {
                    self.doc_freq.insert(term.to_owned(), 1);
                },
            }
            assert(counts64(self.doc_freq@) =~= here.insert(term@, count_of(first, term@) + 1));
            assert(counts64(self.doc_freq@) =~= counted_once(
                first,
                keys.take(i + 1).to_set(),
            ));
            i = i + 1;
        }
        proof {
            assert(keys.take(i as int) =~= keys);
            assert(keys.to_set() =~= tf@.dom());
            assert(tf@.dom() =~= want.dom()) by {
                assert(counts32(tf@).dom() =~= tf@.dom());
            }
        }
        self.doc_count = self.doc_count + 1;
        let place: usize = self.find_doc(doc_id);
        let doc: Doc = Doc { doc_id, len: terms.len(), tf };
        let ghost docs = self.docs@.map_values(|d: Doc| doc_view(d));
        let ghost first = counts64(old(self).doc_freq@);
        assert(docs == old(self)@.docs);
        if place < self.docs.len() {
            self.docs.set(place, doc);
            assert(self@.docs =~= docs.update(place as int, doc_view(doc)));
        } else {
            self.docs.push(doc);
            assert(self@.docs =~= docs.push(doc_view(doc)));
        }
        proof {
            assert forall|t: Seq<char>|
                self.doc_freq@.dom().contains(t) implies #[trigger] self.doc_freq@[t]
                <= self.doc_count by {
                assert(counts64(self.doc_freq@)[t] == self.doc_freq@[t]);
                assert(counts64(self.doc_freq@)[t] <= count_of(first, t) + 1);
                assert(old(self).doc_freq@.dom().contains(t) ==> old(self).doc_freq@[t] <= old(
                    self,
                ).doc_count);
            }
        }
    }

    /// What the score of a document for the query terms is computed from;
    /// `None` where the score is zero because the document is not there or all
    /// documents are empty.
    pub fn score_input(&self, query_terms: &[&str], doc_id: u64) -> (r: Option<ScoreInput>)
        requires
            self.wf(),
        ensures
            ({
                let place = doc_place(self@.docs, doc_id, 0);
                let scored = place < self@.docs.len() && total_of(
                    self@.docs,
                    self@.docs.len() as int,
                ) > 0;
                match r {
                    Some(input) => scored && input.doc_len == self@.docs[place].len && score_views(
                        input.terms@,
                    ) == scored_terms(
                        self@,
                        self@.docs[place],
                        slices(query_terms@),
                        query_terms@.len() as int,
                    ),
                    None => !scored,
                }
            }),
    {
        let place: usize = self.find_doc(doc_id);
        if place >= self.docs.len() || self.total_doc_len() == 0 {
            return None;
        }
        let doc: &Doc = &self.docs[place];
        assert(doc.tf.wf());
        let ghost c = self@;
        let ghost dv = doc_view(*doc);
        assert(dv == c.docs[place as int]);
        let ghost all = slices(query_terms@);
        let ghost held = |t: Seq<char>| count_of(dv.tf, t) > 0;
        let ghost score = |t: Seq<char>|
            TermScore { term: t, tf: count_of(dv.tf, t), df: count_of(c.doc_freq, t) };
        let mut out: Vec<(String, u32, u64)> = Vec::new();
        let mut i: usize = 0;
        proof {
            reveal(Seq::filter);
            assert(score_views(out@) =~= with_terms(seq![], all, 0).filter(held).map_values(score));
        }
        while i < query_terms.len()
            invariant
                i <= query_terms@.len(),
                self.wf(),
                doc.tf.wf(),
                c == self@,
                dv == doc_view(*doc),
                all == slices(query_terms@),
                held == (|t: Seq<char>| count_of(dv.tf, t) > 0),
                score == (|t: Seq<char>|
                    TermScore { term: t, tf: count_of(dv.tf, t), df: count_of(c.doc_freq, t) }),
                score_views(out@) == with_terms(seq![], all, i as int).filter(held).map_values(
                    score,
                ),
            decreases query_terms@.len() - i,
        {
            let term: &str = query_terms[i];
            let ghost kept = with_terms(seq![], all, i as int);
            assert(all[i as int] == term@);
            if !is_earlier(query_terms, i) {
                let tf: u32 = match doc.tf.get(term) {
                    Some(n) => *n,
                    None => 0,
                };
                assert(tf == count_of(dv.tf, term@));
                proof {
                    crate::sequences::lemma_filter_push(kept, term@, held);
                }
                if tf > 0 {
                    let df: u64 = self.doc_freq(term);
                    let ghost before = out@;
                    out.push((term.to_owned(), tf, df));
                    assert(score_views(out@) =~= score_views(before).push(score(term@)));
                    assert(kept.filter(held).push(term@).map_values(score) =~= kept.filter(
                        held,
                    ).map_values(score).push(score(term@)));
                }
            }
            i = i + 1;
        }
        Some(ScoreInput { doc_len: doc.len, terms: out })
    }

    /// A scorer with the usual parameters and the given documents, each split
    /// into terms.
    pub fn from_docs(docs: &[(u64, &str)]) -> (res: Self)
        requires
            forall|i: int|
                0 <= i < docs@.len() ==> words_of((#[trigger] docs@[i]).1@).len() <= u32::MAX,
        ensures
            res.wf(),
            res.params() == (DEFAULT_K1, DEFAULT_B),
            res@ == corpus_of(docs@, docs@.len() as int),
    {
        let mut s: Bm25Scorer = Bm25Scorer::new();
        let mut i: usize = 0;
        while i < docs.len()
            invariant
                i <= docs@.len(),
                forall|i: int|
                    0 <= i < docs@.len() ==> words_of((#[trigger] docs@[i]).1@).len() <= u32::MAX,
                s.wf(),
                s.params() == (DEFAULT_K1, DEFAULT_B),
                s@ == corpus_of(docs@, i as int),
                s@.doc_count == i,
            decreases docs@.len() - i,
        {
            let (doc_id, text): (u64, &str) = docs[i];
            let terms: Vec<String> = tokenize_query(text);
            let refs: Vec<&str> = as_slices(&terms);
            proof {
                assert(words_of(docs@[i as int].1@).len() <= u32::MAX);
                lemma_query_terms_len(words_of(text@), words_of(text@).len() as int);
                assert forall|t: Seq<char>| #[trigger] occurrences(
                    slices(refs@),
                    t,
                    refs@.len() as int,
                ) <= u32::MAX by {
                    lemma_occurrences(slices(refs@), t, refs@.len() as int);
                }
            }
            s.add_document(doc_id, refs.as_slice());
            i = i + 1;
        }
        s
    }
}

impl Default for Bm25Scorer {
    fn default() -> (res: Self)
        ensures
            res.wf(),
            res.params() == (DEFAULT_K1, DEFAULT_B),
            res@ == empty_corpus(),
    {
        Bm25Scorer::new()
    }
}

proof fn lemma_occurrences(terms: Seq<Seq<char>>, t: Seq<char>, n: int)
    requires
        0 <= n <= terms.len(),
    ensures
        occurrences(terms, t, n) <= n,
        occurrences(terms, t, n) > 0 <==> terms.take(n).contains(t),
    decreases n,
{
    if n > 0 {
        lemma_occurrences(terms, t, n - 1);
        assert(terms.take(n) =~= terms.take(n - 1).push(terms[n - 1]));
        crate::sequences::lemma_push_contains(terms.take(n - 1), terms[n - 1], t);
    } else {
        assert(terms.take(0).len() == 0);
    }
}

proof fn lemma_occurrences_grow(terms: Seq<Seq<char>>, t: Seq<char>, m: int, n: int)
    requires
        0 <= m <= n,
    ensures
        occurrences(terms, t, m) <= occurrences(terms, t, n),
    decreases n,
{
    if m < n {
        lemma_occurrences_grow(terms, t, m, n - 1);
    }
}

proof fn lemma_query_terms_len(words: Seq<Seq<char>>, n: int)
    requires
        0 <= n,
    ensures
        query_terms(words, n).len() <= n,
    decreases n,
{
    if n > 0 {
        lemma_query_terms_len(words, n - 1);
    }
}

/// Whether the term at `i` occurs before `i` too.
fn is_earlier(terms: &[&str], i: usize) -> (r: bool)
    requires
        i < terms@.len(),
    ensures
        r == with_terms(seq![], slices(terms@), i as int).contains(terms@[i as int]@),
{
    let ghost all = slices(terms@);
    proof {
        lemma_with_terms_holds(all, i as int, all[i as int]);
    }
    let mut k: usize = 0;
    while k < i
        invariant
            k <= i < terms@.len(),
            all == slices(terms@),
            with_terms(seq![], all, i as int).contains(all[i as int]) <==> all.take(
                i as int,
            ).contains(all[i as int]),
            forall|j: int| 0 <= j < k ==> #[trigger] all[j] != all[i as int],
        decreases i - k,
    {
        if same_text(terms[k], terms[i]) {
            assert(all[k as int] == all[i as int]);
            assert(all.take(i as int)[k as int] == all[i as int]);
            return true;
        }
        assert(all[k as int] != all[i as int]);
        k = k + 1;
    }
    false
}

proof fn lemma_with_terms_holds(terms: Seq<Seq<char>>, n: int, t: Seq<char>)
    requires
        0 <= n <= terms.len(),
    ensures
        with_terms(seq![], terms, n).contains(t) <==> terms.take(n).contains(t),
    decreases n,
{
    if n > 0 {
        lemma_with_terms_holds(terms, n - 1, t);
        let before = with_terms(seq![], terms, n - 1);
        assert(terms.take(n) =~= terms.take(n - 1).push(terms[n - 1]));
        crate::sequences::lemma_push_contains(terms.take(n - 1), terms[n - 1], t);
        crate::sequences::lemma_push_contains(before, terms[n - 1], t);
    } else {
        assert(terms.take(0).len() == 0);
    }
}

/// How often each term occurs.
fn count_terms(terms: &[&str]) -> (r: StrMap<u32>)
    requires
        forall|t: Seq<char>|
            #[trigger] occurrences(slices(terms@), t, terms@.len() as int) <= u32::MAX,
    ensures
        r.wf(),
        counts32(r@) == frequencies(slices(terms@), terms@.len() as int),
{
    let ghost all = slices(terms@);
    let mut out: StrMap<u32> = StrMap::new();
    let mut i: usize = 0;
    assert(all.take(0).len() == 0);
    assert(counts32(out@) =~= frequencies(all, 0));
    while i < terms.len()
        invariant
            i <= terms@.len(),
            all == slices(terms@),
            forall|t: Seq<char>| #[trigger] occurrences(all, t, terms@.len() as int) <= u32::MAX,
            out.wf(),
            counts32(out@) == frequencies(all, i as int),
        decreases terms@.len() - i,
    {
        let term: &str = terms[i];
        let ghost here = counts32(out@);
        proof {
            assert(all[i as int] == term@);
            assert(all.take(i + 1) =~= all.take(i as int).push(term@));
            assert forall|t: Seq<char>| #[trigger] all.take(i + 1).contains(t) <==> (all.take(
                i as int,
            ).contains(t) || t == term@) by {
                crate::sequences::lemma_push_contains(all.take(i as int), term@, t);
            }
            lemma_occurrences(all, term@, i as int);
            lemma_occurrences_grow(all, term@, i + 1, terms@.len() as int);
            assert(occurrences(all, term@, terms@.len() as int) <= u32::MAX);
        }
        match out.find(term) {
            Some(k) => {
                let n: u32 = *out.value_at(k);
                assert(n == here[term@]);
                out.set_at(k, n + 1);
            },
            None => {
                assert(!here.dom().contains(term@));
                out.insert(term.to_owned(), 1);
            },
        }
        assert(counts32(out@) =~= here.insert(term@, occurrences(all, term@, i + 1)));
        assert(counts32(out@) =~= frequencies(all, i + 1));
        i = i + 1;
    }
    out
}

/// The terms as string slices.
pub fn as_slices(terms: &Vec<String>) -> (r: Vec<&str>)
    ensures
        slices(r@) == texts(terms@),
{
    let mut refs: Vec<&str> = Vec::new();
    let mut k: usize = 0;
    assert(slices(refs@) =~= texts(terms@).take(0));
    while k < terms.len()
        invariant
            k <= terms@.len(),
            slices(refs@) == texts(terms@).take(k as int),
        decreases terms@.len() - k,
    {
        let ghost before = refs@;
        let t: &str = terms[k].as_str();
        refs.push(t);
        k = k + 1;
        assert(slices(refs@) =~= slices(before).push(t@));
        assert(texts(terms@).take(k as int) =~= texts(terms@).take(k - 1).push(t@));
    }
    assert(texts(terms@).take(k as int) =~= texts(terms@));
    refs
}

/// Splits a query into terms: words in lower case, without stop-words, stemmed
/// by the Porter algorithm.
pub fn tokenize_query(text: &str) -> (r: Vec<String>)
    ensures
        texts(r@) == terms_of_text(text@),
{
    let words: Vec<String> = split_words(text);
    let mut out: Vec<String> = Vec::new();
    let mut k: usize = 0;
    assert(texts(out@) =~= query_terms(words_of(text@), 0));
    while k < words.len()
        invariant
            k <= words@.len(),
            texts(words@) == words_of(text@),
            texts(out@) == query_terms(words_of(text@), k as int),
        decreases words@.len() - k,
    {
        assert(words_of(text@)[k as int] == words@[k as int]@);
        let lower: String = to_lowercase(words[k].as_str());
        if !is_stopword(lower.as_str()) {
            let term: String = stem(lower.as_str());
            let ghost before = out@;
            out.push(term);
            assert(texts(out@) =~= texts(before).push(term@));
        }
        k = k + 1;
    }
    out
}

} // verus!
