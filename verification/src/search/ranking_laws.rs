//! The order in which documents are ranked.

use vstd::prelude::*;

use crate::floats::{at_most, equal, is_nan, less};
use crate::search::bm25::{doc_place, total_of, CorpusView};
use crate::search::ranking::{
    above_zero, all_numbers, law_ranking, ranked, score_of, FormulaView, Scored,
};
use crate::sequences::lemma_filter_contains;

verus! {

/// Ranked documents stand in the order of their scores, the highest first;
/// where numbers decide, equal scores stand in the order of their documents.
pub proof fn law_highest_first(s: Seq<Scored>, by_number: bool, i: int, j: int)
    requires
        all_numbers(s),
        0 <= i < j < s.len(),
    ensures
        ({
            let r = ranked(s, by_number, s.len() as int);
            &&& r.len() == s.len()
            &&& at_most(r[j].1, r[i].1)
            &&& by_number && equal(r[i].1, r[j].1) ==> r[i].0 <= r[j].0
        }),
{
    broadcast use vstd::seq_lib::group_to_multiset_ensures;

    let n = s.len() as int;
    law_ranking(s, by_number, n);
    let r = ranked(s, by_number, n);
    assert(s.take(n) =~= s);
    assert(r.to_multiset().len() == r.len());
    assert(s.to_multiset().len() == s.len());
    assert(!is_nan(r[i].1) && !is_nan(r[j].1));
}

/// Documents without a score above zero are left out, and no others.
pub proof fn law_zero_is_left_out(s: Seq<Scored>, x: Scored)
    ensures
        s.filter(above_zero()).contains(x) <==> s.contains(x) && less(0, x.1),
{
    lemma_filter_contains(s, above_zero(), x);
}

/// A document that is not there has no score, nor has any where all are empty.
pub proof fn law_no_score(f: FormulaView, c: CorpusView, terms: Seq<Seq<char>>, doc_id: u64)
    requires
        doc_place(c.docs, doc_id, 0) >= c.docs.len() || total_of(c.docs, c.docs.len() as int) == 0,
    ensures
        score_of(f, c, terms, doc_id) == 0,
{
}

} // verus!
