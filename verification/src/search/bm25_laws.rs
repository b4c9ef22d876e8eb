//! What a corpus counts of the documents that were added to it.

use vstd::prelude::*;

use crate::search::bm25::{
    corpus_of, count_of, doc_place, frequencies, occurrences, scored_terms, terms_of_text,
    total_of, with_document, CorpusView, DocView, TermScore,
};
use crate::search::fts::with_terms;
use crate::sequences::{lemma_filter_contains, lemma_filter_no_duplicates, lemma_push_contains};

verus! {

proof fn lemma_occurrences(terms: Seq<Seq<char>>, t: Seq<char>, n: int)
    requires
        0 <= n <= terms.len(),
    ensures
        occurrences(terms, t, n) == terms.take(n).to_multiset().count(t),
        occurrences(terms, t, n) > 0 <==> terms.take(n).contains(t),
    decreases n,
{
    broadcast use vstd::seq_lib::group_to_multiset_ensures;

    if n > 0 {
        lemma_occurrences(terms, t, n - 1);
        assert(terms.take(n) =~= terms.take(n - 1).push(terms[n - 1]));
        lemma_push_contains(terms.take(n - 1), terms[n - 1], t);
    } else {
        assert(terms.take(0) =~= Seq::<Seq<char>>::empty());
    }
}

/// The frequency of a term is the number of its places.
pub proof fn law_term_frequency(terms: Seq<Seq<char>>, t: Seq<char>)
    ensures
        count_of(frequencies(terms, terms.len() as int), t) == terms.to_multiset().count(t),
        frequencies(terms, terms.len() as int).dom().contains(t) <==> terms.contains(t),
{
    lemma_occurrences(terms, t, terms.len() as int);
    assert(terms.take(terms.len() as int) =~= terms);
}

proof fn lemma_place(docs: Seq<DocView>, id: u64, k: int)
    requires
        0 <= k <= docs.len(),
    ensures
        k <= doc_place(docs, id, k) <= docs.len(),
        doc_place(docs, id, k) < docs.len() ==> docs[doc_place(docs, id, k)].doc_id == id,
        forall|j: int| k <= j < doc_place(docs, id, k) ==> (#[trigger] docs[j]).doc_id != id,
    decreases docs.len() - k,
{
    if k < docs.len() && docs[k].doc_id != id {
        lemma_place(docs, id, k + 1);
    }
}

/// The document with a number, if it is there.
pub open spec fn document(c: CorpusView, id: u64) -> Option<DocView> {
    let place = doc_place(c.docs, id, 0);
    if place < c.docs.len() {
        Some(c.docs[place])
    } else {
        None
    }
}

/// The place of the first document with the number does not depend on the way
/// it is looked for.
proof fn lemma_first(docs: Seq<DocView>, id: u64, p: int)
    requires
        0 <= p <= docs.len(),
        p < docs.len() ==> docs[p].doc_id == id,
        forall|j: int| 0 <= j < p ==> (#[trigger] docs[j]).doc_id != id,
    ensures
        doc_place(docs, id, 0) == p,
{
    lemma_place(docs, id, 0);
    let q = doc_place(docs, id, 0);
    if q < p {
        assert(docs[q].doc_id != id);
    }
    if p < q {
        assert(docs[p].doc_id != id);
    }
}

/// An added document is there with its length and its terms, the others are as
/// they were, and each of its terms is in one more document.
pub proof fn law_added_document(
    c: CorpusView,
    id: u64,
    terms: Seq<Seq<char>>,
    t: Seq<char>,
    other: u64,
)
    ensures
        ({
            let d = with_document(c, id, terms);
            &&& d.doc_count == c.doc_count + 1
            &&& document(d, id) is Some
            &&& document(d, id)->0.len == terms.len()
            &&& count_of(document(d, id)->0.tf, t) == terms.to_multiset().count(t)
            &&& other != id ==> document(d, other) == document(c, other)
            &&& count_of(d.doc_freq, t) == count_of(c.doc_freq, t) + if terms.contains(t) {
                1nat
            } else {
                0nat
            }
        }),
{
    let d = with_document(c, id, terms);
    let p = doc_place(c.docs, id, 0);
    law_term_frequency(terms, t);
    lemma_place(c.docs, id, 0);
    assert(d.docs[p].doc_id == id);
    assert forall|j: int| 0 <= j < p implies (#[trigger] d.docs[j]).doc_id != id by {
        assert(d.docs[j] == c.docs[j]);
    }
    lemma_first(d.docs, id, p);
    if other != id {
        let q = doc_place(c.docs, other, 0);
        lemma_place(c.docs, other, 0);
        let r = if q < c.docs.len() {
            q
        } else {
            d.docs.len() as int
        };
        assert forall|j: int| 0 <= j < r implies (#[trigger] d.docs[j]).doc_id != other by {
            if j != p {
                assert(d.docs[j] == c.docs[j]);
            }
        }
        if q < c.docs.len() {
            assert(q != p);
            assert(d.docs[q] == c.docs[q]);
        }
        lemma_first(d.docs, other, r);
    }
}

proof fn lemma_total_prefix(a: Seq<DocView>, b: Seq<DocView>, n: int)
    requires
        0 <= n <= a.len(),
        n <= b.len(),
        forall|i: int| 0 <= i < n ==> (#[trigger] a[i]).len == b[i].len,
    ensures
        total_of(a, n) == total_of(b, n),
    decreases n,
{
    if n > 0 {
        lemma_total_prefix(a, b, n - 1);
        assert(a[n - 1].len == b[n - 1].len);
    }
}

proof fn lemma_total_update(docs: Seq<DocView>, p: int, d: DocView, n: int)
    requires
        0 <= p < n <= docs.len(),
    ensures
        total_of(docs.update(p, d), n) + docs[p].len == total_of(docs, n) + d.len,
    decreases n,
{
    if p < n - 1 {
        lemma_total_update(docs, p, d, n - 1);
    } else {
        lemma_total_prefix(docs.update(p, d), docs, n - 1);
    }
}

/// An added document adds its length to the total, less that of the one whose
/// place it takes.
pub proof fn law_total_length(c: CorpusView, id: u64, terms: Seq<Seq<char>>)
    ensures
        ({
            let d = with_document(c, id, terms);
            total_of(d.docs, d.docs.len() as int) + (if document(c, id) is Some {
                document(c, id)->0.len
            } else {
                0
            }) == total_of(c.docs, c.docs.len() as int) + terms.len()
        }),
{
    let d = with_document(c, id, terms);
    let p = doc_place(c.docs, id, 0);
    let n = c.docs.len() as int;
    lemma_place(c.docs, id, 0);
    if p < n {
        lemma_total_update(c.docs, p, d.docs[p], n);
    } else {
        lemma_total_prefix(d.docs, c.docs, n);
    }
}

/// How many of the first `n` texts have the term.
pub open spec fn texts_with(docs: Seq<(u64, &str)>, t: Seq<char>, n: int) -> nat
    decreases n,
{
    if n <= 0 {
        0
    } else {
        texts_with(docs, t, n - 1) + if terms_of_text(docs[n - 1].1@).contains(t) {
            1nat
        } else {
            0nat
        }
    }
}

/// A corpus of texts counts them, and for each term those that have it.
pub proof fn law_corpus_counts(docs: Seq<(u64, &str)>, t: Seq<char>, n: int)
    requires
        0 <= n <= docs.len(),
    ensures
        corpus_of(docs, n).doc_count == n,
        count_of(corpus_of(docs, n).doc_freq, t) == texts_with(docs, t, n),
    decreases n,
{
    if n > 0 {
        law_corpus_counts(docs, t, n - 1);
        let (id, text) = docs[n - 1];
        law_added_document(corpus_of(docs, n - 1), id, terms_of_text(text@), t, id);
    }
}

proof fn lemma_with_terms(new: Seq<Seq<char>>, n: int, t: Seq<char>)
    requires
        0 <= n <= new.len(),
    ensures
        with_terms(seq![], new, n).contains(t) <==> new.take(n).contains(t),
        with_terms(seq![], new, n).no_duplicates(),
    decreases n,
{
    if n > 0 {
        lemma_with_terms(new, n - 1, t);
        lemma_with_terms(new, n - 1, new[n - 1]);
        let before = with_terms(seq![], new, n - 1);
        assert(new.take(n) =~= new.take(n - 1).push(new[n - 1]));
        lemma_push_contains(new.take(n - 1), new[n - 1], t);
        lemma_push_contains(before, new[n - 1], t);
    }
}

/// A document is scored by the terms of the query that it holds, each once,
/// with how often it holds the term and how many documents do.
pub proof fn law_scored_terms(c: CorpusView, doc: DocView, terms: Seq<Seq<char>>, x: TermScore)
    ensures
        scored_terms(c, doc, terms, terms.len() as int).contains(x) <==> terms.contains(x.term)
            && x.tf > 0 && x.tf == count_of(doc.tf, x.term) && x.df == count_of(c.doc_freq, x.term),
        forall|i: int, j: int|
            #![auto]
            0 <= i < j < scored_terms(c, doc, terms, terms.len() as int).len() ==> scored_terms(
                c,
                doc,
                terms,
                terms.len() as int,
            )[i].term != scored_terms(c, doc, terms, terms.len() as int)[j].term,
{
    let n = terms.len() as int;
    let once = with_terms(seq![], terms, n);
    let p = |t: Seq<char>| count_of(doc.tf, t) > 0;
    let held = once.filter(p);
    let r = scored_terms(c, doc, terms, n);
    assert(terms.take(n) =~= terms);
    lemma_with_terms(terms, n, x.term);
    lemma_filter_contains(once, p, x.term);
    lemma_filter_no_duplicates(once, p);
    if r.contains(x) {
        let k = r.index_of(x);
        assert(held[k] == x.term);
        assert(held.contains(x.term));
    }
    if held.contains(x.term) && x.tf == count_of(doc.tf, x.term) && x.df == count_of(
        c.doc_freq,
        x.term,
    ) {
        let k = held.index_of(x.term);
        assert(r[k] =~= x);
    }
}

} // verus!
