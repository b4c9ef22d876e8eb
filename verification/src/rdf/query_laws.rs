//! What the rows of a query are: the solutions of its patterns that meet its
//! filters, shown as the query selects.

use vstd::prelude::*;
use vstd::utf8::encode_utf8;

use crate::numbers::{is_float_text, signed_value};
use crate::rdf::evaluate::{
    bytes_before, filter_holds, joined, passing, pattern_variables, projected,
    projected_variables, query_rows, resolved, NumView, QuestionView,
};
use crate::rdf::laws::{
    law_join_finds_solutions, lemma_mentioned, lemma_pattern_variables, mentions, satisfied,
};
use crate::rdf::sparql::{
    ComparisonOp, FilterValueView, FilterView, PatternTermView, QueryView, TriplePatternView,
};
use crate::rdf::{TermView, TripleView};
use crate::sequences::lemma_filter_contains;

verus! {

/// A row: variables with the terms that they are bound to.
pub type Row = Map<Seq<char>, TermView>;

/// Whether a pattern term is the given term under a row.
pub open spec fn stands_for(p: PatternTermView, row: Row, x: TermView) -> bool {
    (p matches PatternTermView::Term(t) ==> t == x) && (p matches PatternTermView::Var(n)
        ==> row.contains_key(n) && row[n] == x)
}

/// Whether a triple is an instance of a pattern under a row.
pub open spec fn is_instance(pat: TriplePatternView, row: Row, t: TripleView) -> bool {
    stands_for(pat.subject, row, t.subject) && stands_for(pat.predicate, row, t.predicate)
        && stands_for(pat.object, row, t.object)
}

/// Whether some stored triple is an instance of a pattern under a row.
pub open spec fn has_instance(pat: TriplePatternView, row: Row, all: Seq<TripleView>) -> bool {
    exists|i: int| 0 <= i < all.len() && is_instance(pat, row, #[trigger] all[i])
}

/// Whether a row binds the variables of the patterns and no others, and some
/// stored triple is an instance of each pattern.
pub open spec fn is_solution(
    pats: Seq<TriplePatternView>,
    row: Row,
    all: Seq<TripleView>,
) -> bool {
    &&& forall|n: Seq<char>| #[trigger]
        row.contains_key(n) <==> exists|k: int|
            0 <= k < pats.len() && ((#[trigger] pats[k]).subject == PatternTermView::Var(n)
                || pats[k].predicate == PatternTermView::Var(n) || pats[k].object
                == PatternTermView::Var(n))
    &&& forall|k: int| 0 <= k < pats.len() ==> has_instance(#[trigger] pats[k], row, all)
}

/// Whether a byte sequence comes before another: where they first differ it
/// has the smaller byte, or it ends there.
pub open spec fn sorts_before(a: Seq<u8>, b: Seq<u8>) -> bool {
    exists|k: int|
        0 <= k <= a.len() && k < b.len() && #[trigger] a.take(k) == b.take(k) && (k == a.len()
            || a[k] < b[k])
}

/// The text that a term shows.
pub open spec fn text_of(t: TermView) -> Seq<char> {
    match t {
        TermView::Uri(s) => s,
        TermView::BlankNode(s) => s,
        TermView::Literal(s, _) => s,
    }
}

/// Whether an integer compares with another as the operator says.
pub open spec fn compares(x: int, op: ComparisonOp, n: int) -> bool {
    &&& op == ComparisonOp::Eq ==> x == n
    &&& op == ComparisonOp::Ne ==> x != n
    &&& op == ComparisonOp::Lt ==> x < n
    &&& op == ComparisonOp::Gt ==> x > n
    &&& op == ComparisonOp::Le ==> x <= n
    &&& op == ComparisonOp::Ge ==> x >= n
}

/// Whether a text compares with another as the operator says, by the order of
/// their bytes.
pub open spec fn text_compares(a: Seq<char>, op: ComparisonOp, b: Seq<char>) -> bool {
    let x = encode_utf8(a);
    let y = encode_utf8(b);
    &&& op == ComparisonOp::Eq ==> a == b
    &&& op == ComparisonOp::Ne ==> a != b
    &&& op == ComparisonOp::Lt ==> sorts_before(x, y)
    &&& op == ComparisonOp::Gt ==> sorts_before(y, x)
    &&& op == ComparisonOp::Le ==> !sorts_before(y, x)
    &&& op == ComparisonOp::Ge ==> !sorts_before(x, y)
}

/// The integer of 64 bits that a term is a literal of.
pub open spec fn integer_of(t: TermView) -> Option<int> {
    match t {
        TermView::Literal(s, _) => match signed_value(s) {
            Some(x) => if -0x8000_0000_0000_0000 <= x < 0x8000_0000_0000_0000 {
                Some(x)
            } else {
                None
            },
            None => None,
        },
        _ => None,
    }
}

/// Whether a term is a literal of a floating-point number that is no integer
/// of 64 bits.
pub open spec fn is_float_literal(t: TermView) -> bool {
    integer_of(t) is None && (t matches TermView::Literal(s, _) && is_float_text(s))
}

/// Whether the variable of a filter is bound to a term that compares with the
/// filter's value as the filter asks.
pub open spec fn meets(f: FilterView, row: Row, answers: Map<QuestionView, bool>) -> bool {
    let t = row[f.var];
    row.contains_key(f.var) && match f.value {
        FilterValueView::Integer(n) => if integer_of(t) is Some {
            compares(integer_of(t)->0, f.op, n as int)
        } else {
            is_float_literal(t) && answers[
                (QuestionView {
                    left: NumView::Float(text_of(t)),
                    op: f.op,
                    right: NumView::Int(n),
                })
            ]
        },
        FilterValueView::Float(s) => if integer_of(t) is Some {
            answers[
                (QuestionView {
                    left: NumView::Int(integer_of(t)->0 as i64),
                    op: f.op,
                    right: NumView::Float(s),
                })
            ]
        } else {
            is_float_literal(t) && answers[
                (QuestionView {
                    left: NumView::Float(text_of(t)),
                    op: f.op,
                    right: NumView::Float(s),
                })
            ]
        },
        FilterValueView::String(s) => text_compares(text_of(t), f.op, s),
        FilterValueView::Iri(s) => t is Uri && (f.op == ComparisonOp::Eq && text_of(t) == s || f.op
            == ComparisonOp::Ne && text_of(t) != s),
    }
}

/// Whether a row meets all of the filters.
pub open spec fn meets_all(
    filters: Seq<FilterView>,
    row: Row,
    answers: Map<QuestionView, bool>,
) -> bool {
    forall|k: int| 0 <= k < filters.len() ==> meets(#[trigger] filters[k], row, answers)
}

/// Whether a row shows the selected variables of another; where none are
/// named, all of them.
pub open spec fn shows(q: QueryView, out: Row, row: Row) -> bool {
    &&& forall|n: Seq<char>| #[trigger]
        out.contains_key(n) <==> row.contains_key(n) && (q.select_all || q.select.len() == 0
            || q.select.contains(n))
    &&& forall|n: Seq<char>| #[trigger] out.contains_key(n) ==> out[n] == row[n]
}

/// Whether a row that is shown comes from a solution that meets the filters.
pub open spec fn answers_query(
    q: QueryView,
    all: Seq<TripleView>,
    answers: Map<QuestionView, bool>,
    out: Row,
    row: Row,
) -> bool {
    is_solution(q.patterns, row, all) && meets_all(q.filters, row, answers) && shows(q, out, row)
}

proof fn lemma_sorts(a: Seq<u8>, b: Seq<u8>)
    ensures
        bytes_before(a, b) == sorts_before(a, b),
    decreases a.len(),
{
    if a.len() > 0 && b.len() > 0 && a[0] == b[0] {
        let c = a.skip(1);
        let d = b.skip(1);
        lemma_sorts(c, d);
        if sorts_before(c, d) {
            let k = choose|k: int|
                0 <= k <= c.len() && k < d.len() && #[trigger] c.take(k) == d.take(k) && (k
                    == c.len() || c[k] < d[k]);
            assert(a.take(k + 1) =~= seq![a[0]] + c.take(k));
            assert(b.take(k + 1) =~= seq![b[0]] + d.take(k));
            assert(a.take(k + 1) == b.take(k + 1));
        }
        if sorts_before(a, b) {
            let k = choose|k: int|
                0 <= k <= a.len() && k < b.len() && #[trigger] a.take(k) == b.take(k) && (k
                    == a.len() || a[k] < b[k]);
            assert(k > 0);
            assert(c.take(k - 1) =~= a.take(k).skip(1));
            assert(d.take(k - 1) =~= b.take(k).skip(1));
            assert(c.take(k - 1) == d.take(k - 1));
        }
    } else if b.len() > 0 {
        assert(a.take(0) =~= b.take(0));
        if sorts_before(a, b) && a.len() > 0 {
            let k = choose|k: int|
                0 <= k <= a.len() && k < b.len() && #[trigger] a.take(k) == b.take(k) && (k
                    == a.len() || a[k] < b[k]);
            if k > 0 {
                assert(a.take(k)[0] == a[0] && b.take(k)[0] == b[0]);
            }
        }
    }
}

proof fn lemma_meets(f: FilterView, row: Row, answers: Map<QuestionView, bool>)
    ensures
        filter_holds(f, row, answers) == meets(f, row, answers),
{
    if row.contains_key(f.var) {
        if let FilterValueView::String(s) = f.value {
            let t = row[f.var];
            lemma_sorts(encode_utf8(text_of(t)), encode_utf8(s));
            lemma_sorts(encode_utf8(s), encode_utf8(text_of(t)));
        }
    }
}

proof fn lemma_variables(pats: Seq<TriplePatternView>, n: Seq<char>)
    ensures
        pattern_variables(pats).contains(n) <==> exists|k: int|
            0 <= k < pats.len() && mentions(#[trigger] pats[k], n),
    decreases pats.len(),
{
    if pats.len() > 0 {
        lemma_pattern_variables(pats, n);
        lemma_variables(pats.drop_last(), n);
        if pattern_variables(pats).contains(n) {
            if mentions(pats.last(), n) {
                assert(mentions(pats[pats.len() - 1], n));
            } else {
                let k = choose|k: int|
                    0 <= k < pats.len() - 1 && mentions(#[trigger] pats.drop_last()[k], n);
                assert(mentions(pats[k], n));
            }
        }
        if exists|k: int| 0 <= k < pats.len() && mentions(#[trigger] pats[k], n) {
            let k = choose|k: int| 0 <= k < pats.len() && mentions(#[trigger] pats[k], n);
            lemma_mentioned(pats, k, n);
        }
    }
}

/// The join of patterns finds exactly their solutions.
pub proof fn law_join_solves(pats: Seq<TriplePatternView>, all: Seq<TripleView>, row: Row)
    ensures
        joined(pats, all).contains(row) <==> is_solution(pats, row, all),
{
    law_join_finds_solutions(pats, all, row);
    assert forall|n: Seq<char>|
        pattern_variables(pats).contains(n) <==> exists|k: int|
            0 <= k < pats.len() && ((#[trigger] pats[k]).subject == PatternTermView::Var(n)
                || pats[k].predicate == PatternTermView::Var(n) || pats[k].object
                == PatternTermView::Var(n)) by {
        lemma_variables(pats, n);
        if pattern_variables(pats).contains(n) {
            let k = choose|k: int| 0 <= k < pats.len() && mentions(#[trigger] pats[k], n);
            assert(pats[k].subject == PatternTermView::Var(n) || pats[k].predicate
                == PatternTermView::Var(n) || pats[k].object == PatternTermView::Var(n));
        }
        if exists|k: int|
            0 <= k < pats.len() && ((#[trigger] pats[k]).subject == PatternTermView::Var(n)
                || pats[k].predicate == PatternTermView::Var(n) || pats[k].object
                == PatternTermView::Var(n)) {
            let k = choose|k: int|
                0 <= k < pats.len() && ((#[trigger] pats[k]).subject == PatternTermView::Var(n)
                    || pats[k].predicate == PatternTermView::Var(n) || pats[k].object
                    == PatternTermView::Var(n));
            assert(mentions(pats[k], n));
        }
    }
    assert forall|k: int| 0 <= k < pats.len() implies satisfied(
        #[trigger] pats[k],
        row,
        all,
    ) == has_instance(pats[k], row, all) by {
        let pat = pats[k];
        if satisfied(pat, row, all) {
            let t = TripleView {
                subject: resolved(pat.subject, row)->0,
                predicate: resolved(pat.predicate, row)->0,
                object: resolved(pat.object, row)->0,
            };
            let i = all.index_of(t);
            assert(is_instance(pat, row, all[i]));
        }
        if has_instance(pat, row, all) {
            let i = choose|i: int| 0 <= i < all.len() && is_instance(pat, row, #[trigger] all[i]);
            assert(all.contains(all[i]));
            let t = all[i];
            assert(t == TripleView { subject: t.subject, predicate: t.predicate, object: t.object });
        }
    }
}

proof fn lemma_shows(q: QueryView, row: Row, all: Seq<TripleView>, out: Row)
    requires
        is_solution(q.patterns, row, all),
    ensures
        shows(q, out, row) <==> out == projected(row, projected_variables(q)),
{
    let names = projected_variables(q);
    let p = projected(row, names);
    assert forall|n: Seq<char>| #[trigger]
        p.contains_key(n) <==> row.contains_key(n) && (q.select_all || q.select.len() == 0
            || q.select.contains(n)) by {
        if q.select_all {
            lemma_variables(q.patterns, n);
            if row.contains_key(n) {
                let k = choose|k: int|
                    0 <= k < q.patterns.len() && ((#[trigger] q.patterns[k]).subject
                        == PatternTermView::Var(n) || q.patterns[k].predicate
                        == PatternTermView::Var(n) || q.patterns[k].object
                        == PatternTermView::Var(n));
                assert(mentions(q.patterns[k], n));
            }
        }
    }
    assert(shows(q, p, row));
    if shows(q, out, row) {
        assert forall|n: Seq<char>| out.dom().contains(n) <==> p.dom().contains(n) by {
            assert(out.contains_key(n) <==> p.contains_key(n));
        }
        assert forall|n: Seq<char>| out.dom().contains(n) implies out[n] == p[n] by {
            assert(out.contains_key(n));
            assert(p.contains_key(n));
        }
        assert(out =~= p);
    }
}

/// Without a limit, a row is among those of a query exactly where it shows a
/// solution of the patterns that meets every filter.
pub proof fn law_rows_answer_query(
    q: QueryView,
    all: Seq<TripleView>,
    answers: Map<QuestionView, bool>,
    out: Row,
)
    requires
        q.patterns.len() > 0,
        q.limit is None,
    ensures
        query_rows(q, all, answers).contains(out) <==> exists|row: Row| #[trigger]
            answers_query(q, all, answers, out, row),
{
    let rows = joined(q.patterns, all);
    let keep = passing(q, answers);
    let kept = rows.filter(keep);
    let shape = |row: Row| projected(row, projected_variables(q));
    assert(query_rows(q, all, answers) == kept.map_values(shape));
    assert forall|row: Row| #[trigger] keep(row) <==> meets_all(q.filters, row, answers) by {
        assert forall|k: int| 0 <= k < q.filters.len() implies filter_holds(
            #[trigger] q.filters[k],
            row,
            answers,
        ) == meets(q.filters[k], row, answers) by {
            lemma_meets(q.filters[k], row, answers);
        }
        if meets_all(q.filters, row, answers) {
            assert forall|k: int| 0 <= k < q.filters.len() implies filter_holds(
                #[trigger] q.filters[k],
                row,
                answers,
            ) by {
                assert(meets(q.filters[k], row, answers));
            }
        }
    }
    if kept.map_values(shape).contains(out) {
        let i = kept.map_values(shape).index_of(out);
        let row = kept[i];
        assert(kept.contains(row));
        lemma_filter_contains(rows, keep, row);
        law_join_solves(q.patterns, all, row);
        lemma_shows(q, row, all, out);
        assert(answers_query(q, all, answers, out, row));
    }
    if exists|row: Row| #[trigger] answers_query(q, all, answers, out, row) {
        let row = choose|row: Row| #[trigger] answers_query(q, all, answers, out, row);
        law_join_solves(q.patterns, all, row);
        lemma_filter_contains(rows, keep, row);
        let i = kept.index_of(row);
        lemma_shows(q, row, all, out);
        assert(kept.map_values(shape)[i] == out);
    }
}

/// A limit keeps the first rows, as many as it says, and no row where it says
/// none.
pub proof fn law_limit_keeps_the_first(
    q: QueryView,
    all: Seq<TripleView>,
    answers: Map<QuestionView, bool>,
    n: usize,
)
    ensures
        ({
            let every = query_rows(QueryView { limit: None, ..q }, all, answers);
            let some = query_rows(QueryView { limit: Some(n), ..q }, all, answers);
            &&& some.len() == if n as nat <= every.len() {
                n as nat
            } else {
                every.len()
            }
            &&& forall|i: int| 0 <= i < some.len() ==> #[trigger] some[i] == every[i]
        }),
{
    let q0 = QueryView { limit: None, ..q };
    let q1 = QueryView { limit: Some(n), ..q };
    assert(passing(q0, answers) =~= passing(q1, answers));
    let shape0 = |row: Row| projected(row, projected_variables(q0));
    let shape1 = |row: Row| projected(row, projected_variables(q1));
    let kept = joined(q.patterns, all).filter(passing(q0, answers));
    assert(kept.map_values(shape0) =~= kept.map_values(shape1));
}

/// A filter on an integer lets a row with an integer literal through exactly
/// where the two integers compare as the operator says.
pub proof fn law_integer_filter(
    q: QueryView,
    all: Seq<TripleView>,
    n: i64,
    x: int,
    row: Row,
)
    requires
        q.patterns.len() > 0,
        q.limit is None,
        q.select_all,
        q.filters.len() == 1,
        q.filters[0].value == FilterValueView::Integer(n),
        is_solution(q.patterns, row, all),
        row.contains_key(q.filters[0].var),
        row[q.filters[0].var] matches TermView::Literal(s, _) && signed_value(s) == Some(x),
        -0x8000_0000_0000_0000 <= x < 0x8000_0000_0000_0000,
    ensures
        ({
            let found = query_rows(q, all, Map::empty()).contains(row);
            &&& q.filters[0].op == ComparisonOp::Lt ==> (found <==> x < n)
            &&& q.filters[0].op == ComparisonOp::Le ==> (found <==> x <= n)
            &&& q.filters[0].op == ComparisonOp::Gt ==> (found <==> x > n)
            &&& q.filters[0].op == ComparisonOp::Ge ==> (found <==> x >= n)
            &&& q.filters[0].op == ComparisonOp::Eq ==> (found <==> x == n)
            &&& q.filters[0].op == ComparisonOp::Ne ==> (found <==> x != n)
        }),
{
    law_rows_answer_query(q, all, Map::empty(), row);
    let f = q.filters[0];
    assert(shows(q, row, row));
    if compares(x, f.op, n as int) {
        assert(meets(f, row, Map::empty()));
        assert(answers_query(q, all, Map::empty(), row, row));
    }
    if query_rows(q, all, Map::empty()).contains(row) {
        let other = choose|other: Row| #[trigger] answers_query(q, all, Map::empty(), row, other);
        assert(other =~= row);
        assert(meets(f, other, Map::empty()));
    }
}

} // verus!
