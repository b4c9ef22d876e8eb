//! Evaluation of parsed queries over a triple store.

use vstd::prelude::*;
use vstd::utf8::encode_utf8;

use crate::error::CenResult;
use crate::numbers::{denotes_float, is_float_text, parse_i64, signed_value};
use crate::rdf::sparql::{
    filter_views, pattern_views, string_views, ComparisonOp, Filter, FilterValue, FilterValueView,
    FilterView, PatternTerm, PatternTermView, QueryView, SparqlQuery, TriplePattern,
    TriplePatternView,
};
use crate::rdf::store::{matching, term_option, TripleStore};
use crate::rdf::{lexical, triple_ref_views, RdfTerm, TermView, Triple, TripleView};
use crate::sequences::{lemma_filter_push, lemma_push_contains};
use crate::strmap::StrMap;
use crate::text::same_text;

verus! {

/// A binding row: variables with the terms that they are bound to.
pub type Binding = StrMap<RdfTerm>;

/// The value of a binding row.
pub open spec fn row_of(m: Map<Seq<char>, RdfTerm>) -> Map<Seq<char>, TermView> {
    m.map_values(|t: RdfTerm| t@)
}

/// The values of binding rows.
pub open spec fn rows_of(v: Seq<Binding>) -> Seq<Map<Seq<char>, TermView>> {
    v.map_values(|b: Binding| row_of(b@))
}

/// Each row is well formed.
pub open spec fn rows_wf(v: Seq<Binding>) -> bool {
    forall|i: int| 0 <= i < v.len() ==> (#[trigger] v[i]).wf()
}

// ---------------------------------------------------------------------------
// Joins
// ---------------------------------------------------------------------------
/// The term that a pattern term stands for under a row, if it is bound.
pub open spec fn resolved(p: PatternTermView, row: Map<Seq<char>, TermView>) -> Option<TermView> {
    match p {
        PatternTermView::Var(n) => if row.dom().contains(n) {
            Some(row[n])
        } else {
            None
        },
        PatternTermView::Term(t) => Some(t),
    }
}

/// The new bindings so far, with what one position of a triple adds: nothing
/// for a concrete term or a variable that is bound to the same term; `None`
/// for a variable that is bound to another.
pub open spec fn bind_part(
    p: PatternTermView,
    term: TermView,
    row: Map<Seq<char>, TermView>,
    new: Option<Map<Seq<char>, TermView>>,
) -> Option<Map<Seq<char>, TermView>> {
    match new {
        None => None,
        Some(m) => match p {
            PatternTermView::Term(_) => Some(m),
            PatternTermView::Var(n) => if row.dom().contains(n) {
                if row[n] == term {
                    Some(m)
                } else {
                    None
                }
            } else if m.dom().contains(n) {
                if m[n] == term {
                    Some(m)
                } else {
                    None
                }
            } else {
                Some(m.insert(n, term))
            },
        },
    }
}

/// The bindings that a triple adds to a row under a pattern.
pub open spec fn bind(pat: TriplePatternView, t: TripleView, row: Map<Seq<char>, TermView>) -> Option<
    Map<Seq<char>, TermView>,
> {
    bind_part(
        pat.object,
        t.object,
        row,
        bind_part(
            pat.predicate,
            t.predicate,
            row,
            bind_part(pat.subject, t.subject, row, Some(Map::empty())),
        ),
    )
}

/// A row extended by each of the given triples that fits the pattern.
pub open spec fn extend_row(
    pat: TriplePatternView,
    ts: Seq<TripleView>,
    row: Map<Seq<char>, TermView>,
) -> Seq<Map<Seq<char>, TermView>>
    decreases ts.len(),
{
    if ts.len() == 0 {
        seq![]
    } else {
        let before = extend_row(pat, ts.drop_last(), row);
        match bind(pat, ts.last(), row) {
            Some(m) => before.push(row.union_prefer_right(m)),
            None => before,
        }
    }
}

/// The stored triples that agree with the bound terms of a pattern.
pub open spec fn candidates(
    pat: TriplePatternView,
    all: Seq<TripleView>,
    row: Map<Seq<char>, TermView>,
) -> Seq<TripleView> {
    matching(
        all,
        resolved(pat.subject, row),
        resolved(pat.predicate, row),
        resolved(pat.object, row),
    )
}

/// Every row extended by the stored triples that fit the pattern.
pub open spec fn extend_rows(
    pat: TriplePatternView,
    all: Seq<TripleView>,
    rows: Seq<Map<Seq<char>, TermView>>,
) -> Seq<Map<Seq<char>, TermView>>
    decreases rows.len(),
{
    if rows.len() == 0 {
        seq![]
    } else {
        extend_rows(pat, all, rows.drop_last()) + extend_row(
            pat,
            candidates(pat, all, rows.last()),
            rows.last(),
        )
    }
}

/// The rows of the inner join of the patterns, in order.
pub open spec fn joined(pats: Seq<TriplePatternView>, all: Seq<TripleView>) -> Seq<
    Map<Seq<char>, TermView>,
>
    decreases pats.len(),
{
    if pats.len() == 0 {
        seq![Map::empty()]
    } else {
        extend_rows(pats.last(), all, joined(pats.drop_last(), all))
    }
}

fn empty_binding() -> (r: Binding)
    ensures
        r.wf(),
        row_of(r@) == Map::<Seq<char>, TermView>::empty(),
{
    let r: Binding = StrMap::new();
    assert(row_of(r@) =~= Map::<Seq<char>, TermView>::empty());
    r
}

fn lookup_term<'a>(term: &'a PatternTerm, binding: &'a Binding) -> (r: Option<&'a RdfTerm>)
    requires
        binding.wf(),
    ensures
        term_option(r) == resolved(term@, row_of(binding@)),
{
    match term {
        PatternTerm::Var(name) => binding.get(name.as_str()),
        PatternTerm::Term(t) => Some(t),
    }
}

/// Adds what one position of a triple binds. Returns false on a conflict.
fn bind_position(p: &PatternTerm, term: &RdfTerm, row: &Binding, new: &mut Binding) -> (r: bool)
    requires
        row.wf(),
        old(new).wf(),
    ensures
        final(new).wf(),
        match bind_part(p@, term@, row_of(row@), Some(row_of(old(new)@))) {
            Some(m) => r && row_of(final(new)@) == m,
            None => !r,
        },
{
    match p {
        PatternTerm::Term(_) => true,
        PatternTerm::Var(name) => {
            if let Some(existing) = row.get(name.as_str()) {
                return *existing == *term;
            }
            if let Some(existing) = new.get(name.as_str()) {
                return *existing == *term;
            }
            let ghost before = new@;
            new.insert(name.clone(), term.clone());
            proof {
                assert(row_of(new@) =~= row_of(before).insert(name@, term@));
            }
            true
        },
    }
}

fn copy_binding(b: &Binding) -> (r: Binding)
    requires
        b.wf(),
    ensures
        r.wf(),
        row_of(r@) == row_of(b@),
{
    let mut out: Binding = empty_binding();
    merge_into(&mut out, b);
    assert(row_of(out@) =~= row_of(b@));
    out
}

/// Adds every entry of `b`; entries that are there are replaced.
fn merge_into(out: &mut Binding, b: &Binding)
    requires
        old(out).wf(),
        b.wf(),
    ensures
        final(out).wf(),
        row_of(final(out)@) == row_of(old(out)@).union_prefer_right(row_of(b@)),
{
    let ghost base = row_of(out@);
    let ghost whole = row_of(b@);
    let ghost keys = b.key_seq();
    let mut i: usize = 0;
    proof {
        assert(row_of(out@) =~= base.union_prefer_right(part_row(whole, keys.take(0))));
    }
    while i < b.len()
        invariant
            b.wf(),
            out.wf(),
            i <= keys.len(),
            keys == b.key_seq(),
            whole == row_of(b@),
            row_of(out@) == base.union_prefer_right(part_row(whole, keys.take(i as int))),
        decreases keys.len() - i,
    {
        let ghost before = out@;
        proof {
            b.lemma_at(i as int);
        }
        out.insert(b.key_at(i).clone(), b.value_at(i).clone());
        proof {
            let k = keys[i as int];
            assert(keys.take(i + 1) =~= keys.take(i as int).push(k));
            assert forall|x: Seq<char>| #[trigger] keys.take(i + 1).contains(x) <==> keys.take(
                i as int,
            ).contains(x) || x == k by {
                lemma_push_contains(keys.take(i as int), k, x);
            }
            assert(row_of(out@) =~= row_of(before).insert(k, whole[k]));
            assert(row_of(out@) =~= base.union_prefer_right(part_row(whole, keys.take(i + 1))));
        }
        i = i + 1;
    }
    proof {
        assert(keys.take(i as int) =~= keys);
        assert(part_row(whole, keys) =~= whole);
    }
}

/// The entries of a row whose names are among the given ones.
pub open spec fn part_row(row: Map<Seq<char>, TermView>, names: Seq<Seq<char>>) -> Map<
    Seq<char>,
    TermView,
> {
    Map::new(|k: Seq<char>| row.dom().contains(k) && names.contains(k), |k: Seq<char>| row[k])
}

/// Adds to `out` the row extended by every stored triple that fits.
fn evaluate_pattern_with_binding(
    pat: &TriplePattern,
    store: &TripleStore,
    binding: &Binding,
    out: &mut Vec<Binding>,
)
    requires
        store.wf(),
        binding.wf(),
        rows_wf(old(out)@),
    ensures
        rows_wf(final(out)@),
        rows_of(final(out)@) == rows_of(old(out)@) + extend_row(
            pat@,
            candidates(pat@, store@, row_of(binding@)),
            row_of(binding@),
        ),
{
    let ghost row = row_of(binding@);
    let s: Option<&RdfTerm> = lookup_term(&pat.subject, binding);
    let p: Option<&RdfTerm> = lookup_term(&pat.predicate, binding);
    let o: Option<&RdfTerm> = lookup_term(&pat.object, binding);
    let found: Vec<&Triple> = store.match_pattern(s, p, o);
    let ghost ts = triple_ref_views(found@);
    let mut i: usize = 0;
    assert(ts.take(0) =~= seq![]);
    assert(rows_of(out@) =~= rows_of(old(out)@) + extend_row(pat@, ts.take(0), row));
    while i < found.len()
        invariant
            binding.wf(),
            rows_wf(out@),
            row == row_of(binding@),
            ts == triple_ref_views(found@),
            i <= found@.len(),
            rows_of(out@) == rows_of(old(out)@) + extend_row(pat@, ts.take(i as int), row),
        decreases found@.len() - i,
    {
        let t: &Triple = found[i];
        proof {
            assert(ts.take(i + 1).drop_last() =~= ts.take(i as int));
            assert(ts.take(i + 1).last() == t@);
        }
        let mut new: Binding = empty_binding();
        let fits: bool = bind_position(&pat.subject, &t.subject, binding, &mut new)
            && bind_position(&pat.predicate, &t.predicate, binding, &mut new) && bind_position(
            &pat.object,
            &t.object,
            binding,
            &mut new,
        );
        if fits {
            let ghost before = out@;
            let mut merged: Binding = copy_binding(binding);
            merge_into(&mut merged, &new);
            let ghost mv = row_of(merged@);
            out.push(merged);
            proof {
                assert(bind(pat@, t@, row) == Some(row_of(new@)));
                assert(rows_of(out@) =~= rows_of(before).push(mv));
                assert(rows_of(out@) =~= rows_of(old(out)@) + extend_row(
                    pat@,
                    ts.take(i + 1),
                    row,
                ));
            }
        } else {
            proof {
                assert(bind(pat@, t@, row) is None);
            }
        }
        i = i + 1;
    }
    assert(ts.take(i as int) =~= ts);
}

/// The rows of the inner join of the patterns.
fn join_patterns(patterns: &Vec<TriplePattern>, store: &TripleStore) -> (r: Vec<Binding>)
    requires
        store.wf(),
    ensures
        rows_wf(r@),
        rows_of(r@) == joined(pattern_views(patterns@), store@),
{
    let ghost pats = pattern_views(patterns@);
    let mut rows: Vec<Binding> = Vec::new();
    rows.push(empty_binding());
    let mut k: usize = 0;
    assert(pats.take(0) =~= seq![]);
    assert(rows_of(rows@) =~= joined(pats.take(0), store@));
    while k < patterns.len()
        invariant
            store.wf(),
            rows_wf(rows@),
            pats == pattern_views(patterns@),
            k <= patterns@.len(),
            rows_of(rows@) == joined(pats.take(k as int), store@),
        decreases patterns@.len() - k,
    {
        let pat: &TriplePattern = &patterns[k];
        let mut next: Vec<Binding> = Vec::new();
        let ghost have = rows_of(rows@);
        let mut i: usize = 0;
        assert(have.take(0) =~= seq![]);
        assert(rows_of(next@) =~= extend_rows(pat@, store@, have.take(0)));
        while i < rows.len()
            invariant
                store.wf(),
                rows_wf(rows@),
                rows_wf(next@),
                have == rows_of(rows@),
                i <= rows@.len(),
                rows_of(next@) == extend_rows(pat@, store@, have.take(i as int)),
            decreases rows@.len() - i,
        {
            evaluate_pattern_with_binding(pat, store, &rows[i], &mut next);
            proof {
                assert(have.take(i + 1).drop_last() =~= have.take(i as int));
                assert(have.take(i + 1).last() == row_of(rows@[i as int]@));
            }
            i = i + 1;
        }
        proof {
            assert(have.take(i as int) =~= have);
            assert(pats.take(k + 1).drop_last() =~= pats.take(k as int));
            assert(pats.take(k + 1).last() == pat@);
        }
        rows = next;
        k = k + 1;
    }
    assert(pats.take(k as int) =~= pats);
    rows
}

// ---------------------------------------------------------------------------
// Filters
// ---------------------------------------------------------------------------
/// A number in a comparison: an integer, or the text of a floating-point
/// number.
#[derive(Debug)]
pub enum NumText {
    Int(i64),
    Float(String),
}

/// The mathematical value of a [`NumText`].
pub enum NumView {
    Int(i64),
    Float(Seq<char>),
}

impl View for NumText {
    type V = NumView;

    open spec fn view(&self) -> NumView {
        match *self {
            NumText::Int(n) => NumView::Int(n),
            NumText::Float(s) => NumView::Float(s@),
        }
    }
}

/// A comparison of two numbers as floating-point numbers.
#[derive(Debug)]
pub struct FloatQuestion {
    pub left: NumText,
    pub op: ComparisonOp,
    pub right: NumText,
}

/// The mathematical value of a [`FloatQuestion`].
pub struct QuestionView {
    pub left: NumView,
    pub op: ComparisonOp,
    pub right: NumView,
}

impl View for FloatQuestion {
    type V = QuestionView;

    open spec fn view(&self) -> QuestionView {
        QuestionView { left: self.left@, op: self.op, right: self.right@ }
    }
}

/// The number that a term denotes: a literal that is an integer of 64 bits, or
/// one that is the text of a floating-point number.
pub open spec fn literal_number(t: TermView) -> Option<NumView> {
    match t {
        TermView::Literal(s, _) => match signed_value(s) {
            Some(v) => if i64::MIN <= v <= i64::MAX {
                Some(NumView::Int(v as i64))
            } else if is_float_text(s) {
                Some(NumView::Float(s))
            } else {
                None
            },
            None => if is_float_text(s) {
                Some(NumView::Float(s))
            } else {
                None
            },
        },
        _ => None,
    }
}

/// Whether a comparison of integers holds.
pub open spec fn int_holds(a: i64, op: ComparisonOp, b: i64) -> bool {
    match op {
        ComparisonOp::Eq => a == b,
        ComparisonOp::Ne => a != b,
        ComparisonOp::Lt => a < b,
        ComparisonOp::Gt => a > b,
        ComparisonOp::Le => a <= b,
        ComparisonOp::Ge => a >= b,
    }
}

/// Whether one byte sequence comes before another in lexicographic order.
pub open spec fn bytes_before(a: Seq<u8>, b: Seq<u8>) -> bool
    decreases a.len(),
{
    if b.len() == 0 {
        false
    } else if a.len() == 0 {
        true
    } else if a[0] == b[0] {
        bytes_before(a.skip(1), b.skip(1))
    } else {
        a[0] < b[0]
    }
}

/// Whether one text comes before another: by the order of their UTF-8 bytes.
pub open spec fn text_before(a: Seq<char>, b: Seq<char>) -> bool {
    bytes_before(encode_utf8(a), encode_utf8(b))
}

/// Whether a comparison of texts holds.
pub open spec fn text_holds(a: Seq<char>, op: ComparisonOp, b: Seq<char>) -> bool {
    match op {
        ComparisonOp::Eq => a == b,
        ComparisonOp::Ne => a != b,
        ComparisonOp::Lt => text_before(a, b),
        ComparisonOp::Gt => text_before(b, a),
        ComparisonOp::Le => !text_before(b, a),
        ComparisonOp::Ge => !text_before(a, b),
    }
}

/// The comparison of floating-point numbers that a filter asks for on a row.
pub open spec fn filter_question(f: FilterView, row: Map<Seq<char>, TermView>) -> Option<
    QuestionView,
> {
    if !row.dom().contains(f.var) {
        None
    } else {
        match (f.value, literal_number(row[f.var])) {
            (FilterValueView::Integer(n), Some(NumView::Float(s))) => Some(
                QuestionView { left: NumView::Float(s), op: f.op, right: NumView::Int(n) },
            ),
            (FilterValueView::Float(n), Some(x)) => Some(
                QuestionView { left: x, op: f.op, right: NumView::Float(n) },
            ),
            _ => None,
        }
    }
}

/// Whether a filter that asks no question holds on a row. A variable without a
/// binding and a value of another kind fail every comparison.
pub open spec fn filter_plain(f: FilterView, row: Map<Seq<char>, TermView>) -> bool {
    row.dom().contains(f.var) && {
        let term = row[f.var];
        match f.value {
            FilterValueView::Integer(n) => match literal_number(term) {
                Some(NumView::Int(x)) => int_holds(x, f.op, n),
                _ => false,
            },
            FilterValueView::Float(_) => false,
            FilterValueView::String(s) => text_holds(lexical(term), f.op, s),
            FilterValueView::Iri(iri) => match term {
                TermView::Uri(u) => match f.op {
                    ComparisonOp::Eq => u == iri,
                    ComparisonOp::Ne => u != iri,
                    _ => false,
                },
                _ => false,
            },
        }
    }
}

/// Whether a filter holds on a row, given the answers to questions.
pub open spec fn filter_holds(
    f: FilterView,
    row: Map<Seq<char>, TermView>,
    answers: Map<QuestionView, bool>,
) -> bool {
    match filter_question(f, row) {
        Some(q) => answers[q],
        None => filter_plain(f, row),
    }
}

/// Whether every filter holds on a row.
pub open spec fn passes(
    filters: Seq<FilterView>,
    row: Map<Seq<char>, TermView>,
    answers: Map<QuestionView, bool>,
) -> bool {
    forall|i: int| 0 <= i < filters.len() ==> filter_holds(#[trigger] filters[i], row, answers)
}

/// The questions of filters on one row, in order.
pub open spec fn row_questions(filters: Seq<FilterView>, row: Map<Seq<char>, TermView>) -> Seq<
    QuestionView,
>
    decreases filters.len(),
{
    if filters.len() == 0 {
        seq![]
    } else {
        let before = row_questions(filters.drop_last(), row);
        match filter_question(filters.last(), row) {
            Some(x) => before.push(x),
            None => before,
        }
    }
}

/// The questions of filters on rows, row by row.
pub open spec fn all_questions(
    filters: Seq<FilterView>,
    rows: Seq<Map<Seq<char>, TermView>>,
) -> Seq<QuestionView>
    decreases rows.len(),
{
    if rows.len() == 0 {
        seq![]
    } else {
        all_questions(filters, rows.drop_last()) + row_questions(filters, rows.last())
    }
}

/// The questions that the evaluation of a query asks.
pub open spec fn questions(q: QueryView, all: Seq<TripleView>) -> Seq<QuestionView> {
    all_questions(q.filters, joined(q.patterns, all))
}

proof fn lemma_row_asks(filters: Seq<FilterView>, row: Map<Seq<char>, TermView>, j: int)
    requires
        0 <= j < filters.len(),
    ensures
        filter_question(filters[j], row) matches Some(x) ==> row_questions(filters, row).contains(
            x,
        ),
    decreases filters.len(),
{
    let before = row_questions(filters.drop_last(), row);
    if j == filters.len() - 1 {
        if let Some(x) = filter_question(filters[j], row) {
            assert(row_questions(filters, row).last() == x);
        }
    } else {
        lemma_row_asks(filters.drop_last(), row, j);
        assert(filters.drop_last()[j] == filters[j]);
        if let Some(x) = filter_question(filters[j], row) {
            if let Some(y) = filter_question(filters.last(), row) {
                lemma_push_contains(before, y, x);
            }
        }
    }
}

proof fn lemma_asks(
    filters: Seq<FilterView>,
    rows: Seq<Map<Seq<char>, TermView>>,
    i: int,
    j: int,
)
    requires
        0 <= i < rows.len(),
        0 <= j < filters.len(),
    ensures
        filter_question(filters[j], rows[i]) matches Some(x) ==> all_questions(
            filters,
            rows,
        ).contains(x),
    decreases rows.len(),
{
    if let Some(x) = filter_question(filters[j], rows[i]) {
        let before = all_questions(filters, rows.drop_last());
        let here = row_questions(filters, rows.last());
        if i == rows.len() - 1 {
            lemma_row_asks(filters, rows[i], j);
            let k = here.index_of(x);
            assert((before + here)[before.len() + k] == x);
        } else {
            lemma_asks(filters, rows.drop_last(), i, j);
            let k = before.index_of(x);
            assert((before + here)[k] == x);
        }
    }
}

fn number_of_literal(t: &RdfTerm) -> (r: Option<NumText>)
    ensures
        match r {
            Some(n) => literal_number(t@) == Some(n@),
            None => literal_number(t@) is None,
        },
{
    match t {
        RdfTerm::Literal(s, _) => {
            match parse_i64(s.as_str()) {
                Some(v) => Some(NumText::Int(v)),
                None => {
                    if denotes_float(s.as_str()) {
                        Some(NumText::Float(s.clone()))
                    } else {
                        None
                    }
                },
            }
        },
        _ => None,
    }
}

fn compare_ints(a: i64, op: ComparisonOp, b: i64) -> (r: bool)
    ensures
        r == int_holds(a, op, b),
{
    match op {
        ComparisonOp::Eq => a == b,
        ComparisonOp::Ne => a != b,
        ComparisonOp::Lt => a < b,
        ComparisonOp::Gt => a > b,
        ComparisonOp::Le => a <= b,
        ComparisonOp::Ge => a >= b,
    }
}

fn is_bytes_before(a: &[u8], b: &[u8]) -> (r: bool)
    ensures
        r == bytes_before(a@, b@),
{
    let mut i: usize = 0;
    assert(a@.skip(0) =~= a@);
    assert(b@.skip(0) =~= b@);
    loop
        invariant
            i <= a@.len(),
            i <= b@.len(),
            bytes_before(a@.skip(i as int), b@.skip(i as int)) == bytes_before(a@, b@),
        decreases a@.len() - i,
    {
        if i >= b.len() {
            return false;
        }
        if i >= a.len() {
            return true;
        }
        assert(a@.skip(i as int).skip(1) =~= a@.skip(i + 1));
        assert(b@.skip(i as int).skip(1) =~= b@.skip(i + 1));
        if a[i] != b[i] {
            return a[i] < b[i];
        }
        i = i + 1;
    }
}

fn compare_texts(a: &str, op: ComparisonOp, b: &str) -> (r: bool)
    ensures
        r == text_holds(a@, op, b@),
{
    match op {
        ComparisonOp::Eq => same_text(a, b),
        ComparisonOp::Ne => !same_text(a, b),
        ComparisonOp::Lt => is_bytes_before(a.as_bytes(), b.as_bytes()),
        ComparisonOp::Gt => is_bytes_before(b.as_bytes(), a.as_bytes()),
        ComparisonOp::Le => !is_bytes_before(b.as_bytes(), a.as_bytes()),
        ComparisonOp::Ge => !is_bytes_before(a.as_bytes(), b.as_bytes()),
    }
}

/// What a filter says of a row: a verdict, or the question that decides it.
enum Verdict {
    Holds(bool),
    Ask(FloatQuestion),
}

fn judge(f: &Filter, b: &Binding) -> (r: Verdict)
    requires
        b.wf(),
    ensures
        match r {
            Verdict::Holds(v) => filter_question(f@, row_of(b@)) is None && v == filter_plain(
                f@,
                row_of(b@),
            ),
            Verdict::Ask(q) => filter_question(f@, row_of(b@)) == Some(q@),
        },
{
    let term: &RdfTerm = match b.get(f.var.as_str()) {
        Some(t) => t,
        None => {
            return Verdict::Holds(false);
        },
    };
    match &f.value {
        FilterValue::Integer(n) => match number_of_literal(term) {
            Some(NumText::Int(x)) => Verdict::Holds(compare_ints(x, f.op, *n)),
            Some(NumText::Float(s)) => Verdict::Ask(
                FloatQuestion { left: NumText::Float(s), op: f.op, right: NumText::Int(*n) },
            ),
            None => Verdict::Holds(false),
        },
        FilterValue::Float(n) => match number_of_literal(term) {
            Some(x) => Verdict::Ask(
                FloatQuestion { left: x, op: f.op, right: NumText::Float(n.clone()) },
            ),
            None => Verdict::Holds(false),
        },
        FilterValue::String(s) => Verdict::Holds(
            compare_texts(term.lexical_form(), f.op, s.as_str()),
        ),
        FilterValue::Iri(iri) => match term {
            RdfTerm::Uri(u) => match f.op {
                ComparisonOp::Eq => Verdict::Holds(same_text(u.as_str(), iri.as_str())),
                ComparisonOp::Ne => Verdict::Holds(!same_text(u.as_str(), iri.as_str())),
                _ => Verdict::Holds(false),
            },
            _ => Verdict::Holds(false),
        },
    }
}

/// The first answer to a question in a list, if there is one.
pub open spec fn answer_of(v: Seq<(FloatQuestion, bool)>, x: QuestionView) -> Option<bool>
    decreases v.len(),
{
    if v.len() == 0 {
        None
    } else if v[0].0@ == x {
        Some(v[0].1)
    } else {
        answer_of(v.skip(1), x)
    }
}

/// The answers of a list, by question.
pub open spec fn answer_map(v: Seq<(FloatQuestion, bool)>) -> Map<QuestionView, bool> {
    Map::new(|x: QuestionView| answer_of(v, x) is Some, |x: QuestionView| answer_of(v, x)->0)
}

fn same_number(a: &NumText, b: &NumText) -> (r: bool)
    ensures
        r == (a@ == b@),
{
    match (a, b) {
        (NumText::Int(x), NumText::Int(y)) => *x == *y,
        (NumText::Float(x), NumText::Float(y)) => same_text(x.as_str(), y.as_str()),
        _ => false,
    }
}

fn find_answer(answers: &Vec<(FloatQuestion, bool)>, q: &FloatQuestion) -> (r: bool)
    requires
        answer_map(answers@).dom().contains(q@),
    ensures
        r == answer_map(answers@)[q@],
{
    let mut i: usize = 0;
    assert(answers@.skip(0) =~= answers@);
    while i < answers.len()
        invariant
            i <= answers@.len(),
            answer_of(answers@, q@) is Some,
            answer_of(answers@.skip(i as int), q@) == answer_of(answers@, q@),
        decreases answers@.len() - i,
    {
        assert(answers@.skip(i as int).skip(1) =~= answers@.skip(i + 1));
        let entry: &(FloatQuestion, bool) = &answers[i];
        if same_number(&entry.0.left, &q.left) && entry.0.op == q.op && same_number(
            &entry.0.right,
            &q.right,
        ) {
            return entry.1;
        }
        i = i + 1;
    }
    false
}

fn eval_filters(filters: &Vec<Filter>, b: &Binding, answers: &Vec<(FloatQuestion, bool)>) -> (r:
    bool)
    requires
        b.wf(),
        forall|j: int|
            0 <= j < filters@.len() ==> (match filter_question(
                #[trigger] filter_views(filters@)[j],
                row_of(b@),
            ) {
                Some(x) => answer_map(answers@).dom().contains(x),
                None => true,
            }),
    ensures
        r == passes(filter_views(filters@), row_of(b@), answer_map(answers@)),
{
    let ghost fs = filter_views(filters@);
    let ghost row = row_of(b@);
    let mut i: usize = 0;
    while i < filters.len()
        invariant
            b.wf(),
            i <= filters@.len(),
            fs == filter_views(filters@),
            row == row_of(b@),
            forall|j: int|
                0 <= j < filters@.len() ==> (match filter_question(#[trigger] fs[j], row) {
                    Some(x) => answer_map(answers@).dom().contains(x),
                    None => true,
                }),
            forall|j: int|
                0 <= j < i ==> filter_holds(#[trigger] fs[j], row, answer_map(answers@)),
        decreases filters@.len() - i,
    {
        assert(fs[i as int] == filters@[i as int]@);
        let holds: bool = match judge(&filters[i], b) {
            Verdict::Holds(v) => v,
            Verdict::Ask(q) => find_answer(answers, &q),
        };
        if !holds {
            assert(!filter_holds(fs[i as int], row, answer_map(answers@)));
            return false;
        }
        i = i + 1;
    }
    true
}

/// The values of a sequence of questions.
pub open spec fn question_views(s: Seq<FloatQuestion>) -> Seq<QuestionView> {
    s.map_values(|q: FloatQuestion| q@)
}

/// Adds the questions of filters on one row.
fn add_questions(filters: &Vec<Filter>, b: &Binding, out: &mut Vec<FloatQuestion>)
    requires
        b.wf(),
    ensures
        question_views(final(out)@) == question_views(old(out)@) + row_questions(
            filter_views(filters@),
            row_of(b@),
        ),
{
    let ghost fs = filter_views(filters@);
    let ghost row = row_of(b@);
    let mut j: usize = 0;
    assert(fs.take(0) =~= seq![]);
    assert(question_views(out@) =~= question_views(old(out)@) + row_questions(fs.take(0), row));
    while j < filters.len()
        invariant
            b.wf(),
            j <= filters@.len(),
            fs == filter_views(filters@),
            row == row_of(b@),
            question_views(out@) == question_views(old(out)@) + row_questions(
                fs.take(j as int),
                row,
            ),
        decreases filters@.len() - j,
    {
        proof {
            assert(fs.take(j + 1).drop_last() =~= fs.take(j as int));
            assert(fs.take(j + 1).last() == filters@[j as int]@);
        }
        if let Verdict::Ask(q) = judge(&filters[j], b) {
            let ghost before = out@;
            let ghost qv = q@;
            out.push(q);
            assert(question_views(out@) =~= question_views(before).push(qv));
            assert(question_views(out@) =~= question_views(old(out)@) + row_questions(
                fs.take(j + 1),
                row,
            ));
        }
        j = j + 1;
    }
    assert(fs.take(j as int) =~= fs);
}

/// The comparisons of floating-point numbers that the evaluation of a query
/// asks for, row by row.
pub fn float_questions(query: &SparqlQuery, store: &TripleStore) -> (r: Vec<FloatQuestion>)
    requires
        store.wf(),
    ensures
        question_views(r@) == questions(query@, store@),
{
    let rows: Vec<Binding> = join_patterns(&query.patterns, store);
    let ghost jr = joined(query@.patterns, store@);
    let ghost fs = query@.filters;
    let mut out: Vec<FloatQuestion> = Vec::new();
    let mut i: usize = 0;
    assert(jr.take(0) =~= seq![]);
    assert(question_views(out@) =~= all_questions(fs, jr.take(0)));
    while i < rows.len()
        invariant
            rows_wf(rows@),
            i <= rows@.len(),
            jr == rows_of(rows@),
            fs == filter_views(query.filters@),
            question_views(out@) == all_questions(fs, jr.take(i as int)),
        decreases rows@.len() - i,
    {
        proof {
            assert(jr.take(i + 1).drop_last() =~= jr.take(i as int));
            assert(jr.take(i + 1).last() == row_of(rows@[i as int]@));
        }
        add_questions(&query.filters, &rows[i], &mut out);
        i = i + 1;
    }
    assert(jr.take(i as int) =~= jr);
    out
}

// ---------------------------------------------------------------------------
// Projection, limit, evaluation
// ---------------------------------------------------------------------------
/// The variable names so far and the one of a pattern term, each once.
pub open spec fn note_var(names: Seq<Seq<char>>, p: PatternTermView) -> Seq<Seq<char>> {
    match p {
        PatternTermView::Var(n) => if names.contains(n) {
            names
        } else {
            names.push(n)
        },
        PatternTermView::Term(_) => names,
    }
}

/// The variables of patterns, each once, in the order of first occurrence.
pub open spec fn pattern_variables(pats: Seq<TriplePatternView>) -> Seq<Seq<char>>
    decreases pats.len(),
{
    if pats.len() == 0 {
        seq![]
    } else {
        let p = pats.last();
        note_var(
            note_var(note_var(pattern_variables(pats.drop_last()), p.subject), p.predicate),
            p.object,
        )
    }
}

/// The variables that a query projects to.
pub open spec fn projected_variables(q: QueryView) -> Seq<Seq<char>> {
    if q.select_all {
        pattern_variables(q.patterns)
    } else {
        q.select
    }
}

/// A row with only the given variables; without any given, the whole row.
pub open spec fn projected(row: Map<Seq<char>, TermView>, names: Seq<Seq<char>>) -> Map<
    Seq<char>,
    TermView,
> {
    if names.len() == 0 {
        row
    } else {
        part_row(row, names)
    }
}

/// The condition of passing every filter of a query.
pub open spec fn passing(q: QueryView, answers: Map<QuestionView, bool>) -> spec_fn(
    Map<Seq<char>, TermView>,
) -> bool {
    |row: Map<Seq<char>, TermView>| passes(q.filters, row, answers)
}

/// The first rows up to a limit.
pub open spec fn limited(rows: Seq<Map<Seq<char>, TermView>>, limit: Option<usize>) -> Seq<
    Map<Seq<char>, TermView>,
> {
    match limit {
        Some(n) => if n < rows.len() {
            rows.take(n as int)
        } else {
            rows
        },
        None => rows,
    }
}

/// The rows that a query finds: the join of its patterns, filtered, projected
/// and limited.
pub open spec fn query_rows(
    q: QueryView,
    all: Seq<TripleView>,
    answers: Map<QuestionView, bool>,
) -> Seq<Map<Seq<char>, TermView>> {
    if q.patterns.len() == 0 {
        seq![]
    } else {
        limited(
            joined(q.patterns, all).filter(passing(q, answers)).map_values(
                |row: Map<Seq<char>, TermView>| projected(row, projected_variables(q)),
            ),
            q.limit,
        )
    }
}

fn contains_name(names: &Vec<String>, name: &str) -> (r: bool)
    ensures
        r == string_views(names@).contains(name@),
{
    let mut i: usize = 0;
    let ghost all = string_views(names@);
    while i < names.len()
        invariant
            all == string_views(names@),
            i <= names@.len(),
            forall|j: int| 0 <= j < i ==> all[j] != name@,
        decreases names@.len() - i,
    {
        if same_text(names[i].as_str(), name) {
            assert(all[i as int] == name@);
            return true;
        }
        i = i + 1;
    }
    false
}

fn add_variable(names: &mut Vec<String>, p: &PatternTerm)
    ensures
        string_views(final(names)@) == note_var(string_views(old(names)@), p@),
{
    if let PatternTerm::Var(n) = p {
        if !contains_name(names, n.as_str()) {
            let ghost before = names@;
            names.push(n.clone());
            assert(string_views(names@) =~= string_views(before).push(n@));
        }
    }
}

fn variables_of(patterns: &Vec<TriplePattern>) -> (r: Vec<String>)
    ensures
        string_views(r@) == pattern_variables(pattern_views(patterns@)),
{
    let ghost pats = pattern_views(patterns@);
    let mut names: Vec<String> = Vec::new();
    let mut i: usize = 0;
    assert(pats.take(0) =~= seq![]);
    assert(string_views(names@) =~= seq![]);
    while i < patterns.len()
        invariant
            pats == pattern_views(patterns@),
            i <= patterns@.len(),
            string_views(names@) == pattern_variables(pats.take(i as int)),
        decreases patterns@.len() - i,
    {
        proof {
            assert(pats.take(i + 1).drop_last() =~= pats.take(i as int));
            assert(pats.take(i + 1).last() == patterns@[i as int]@);
        }
        add_variable(&mut names, &patterns[i].subject);
        add_variable(&mut names, &patterns[i].predicate);
        add_variable(&mut names, &patterns[i].object);
        i = i + 1;
    }
    assert(pats.take(i as int) =~= pats);
    names
}

fn project_row(b: &Binding, names: &Vec<String>) -> (r: Binding)
    requires
        b.wf(),
    ensures
        r.wf(),
        row_of(r@) == projected(row_of(b@), string_views(names@)),
{
    if names.len() == 0 {
        return copy_binding(b);
    }
    let ghost row = row_of(b@);
    let ghost wanted = string_views(names@);
    let ghost keys = b.key_seq();
    let mut out: Binding = empty_binding();
    let mut i: usize = 0;
    assert(row_of(out@) =~= part_row(part_row(row, wanted), keys.take(0)));
    while i < b.len()
        invariant
            b.wf(),
            out.wf(),
            i <= keys.len(),
            keys == b.key_seq(),
            row == row_of(b@),
            wanted == string_views(names@),
            row_of(out@) == part_row(part_row(row, wanted), keys.take(i as int)),
        decreases keys.len() - i,
    {
        let ghost before = out@;
        let ghost k = keys[i as int];
        proof {
            b.lemma_at(i as int);
            assert(keys.take(i + 1) =~= keys.take(i as int).push(k));
            assert forall|x: Seq<char>| #[trigger] keys.take(i + 1).contains(x) <==> keys.take(
                i as int,
            ).contains(x) || x == k by {
                lemma_push_contains(keys.take(i as int), k, x);
            }
        }
        if contains_name(names, b.key_at(i).as_str()) {
            out.insert(b.key_at(i).clone(), b.value_at(i).clone());
            assert(row_of(out@) =~= row_of(before).insert(k, row[k]));
        }
        assert(row_of(out@) =~= part_row(part_row(row, wanted), keys.take(i + 1)));
        i = i + 1;
    }
    proof {
        assert(keys.take(i as int) =~= keys);
        assert(part_row(part_row(row, wanted), keys) =~= part_row(row, wanted));
    }
    out
}

fn copy_names(names: &Vec<String>) -> (r: Vec<String>)
    ensures
        string_views(r@) == string_views(names@),
{
    let mut out: Vec<String> = Vec::new();
    let mut i: usize = 0;
    while i < names.len()
        invariant
            i <= names@.len(),
            out@.len() == i,
            forall|j: int| 0 <= j < i ==> (#[trigger] out@[j])@ == names@[j]@,
        decreases names@.len() - i,
    {
        out.push(names[i].clone());
        i = i + 1;
    }
    assert(string_views(out@) =~= string_views(names@));
    out
}

/// Evaluates a query, given the answers to the questions that it asks. Returns
/// the rows in the order of the join.
pub fn evaluate_answered(
    query: &SparqlQuery,
    store: &TripleStore,
    answers: &Vec<(FloatQuestion, bool)>,
) -> (r: CenResult<Vec<Binding>>)
    requires
        store.wf(),
        forall|x: QuestionView| #[trigger]
            questions(query@, store@).contains(x) ==> answer_map(answers@).dom().contains(x),
    ensures
        r matches Ok(rows) && rows_wf(rows@) && rows_of(rows@) == query_rows(
            query@,
            store@,
            answer_map(answers@),
        ),
{
    if query.patterns.len() == 0 {
        let none: Vec<Binding> = Vec::new();
        assert(rows_of(none@) =~= seq![]);
        return Ok(none);
    }
    let ghost am = answer_map(answers@);
    let ghost keep = passing(query@, am);
    let rows: Vec<Binding> = join_patterns(&query.patterns, store);
    let ghost jr = joined(query@.patterns, store@);
    let names: Vec<String> = if query.select_all {
        variables_of(&query.patterns)
    } else {
        copy_names(&query.select)
    };
    let ghost shape = |row: Map<Seq<char>, TermView>| projected(row, projected_variables(query@));
    let mut out: Vec<Binding> = Vec::new();
    let mut i: usize = 0;
    proof {
        reveal(Seq::filter);
        assert(jr.take(0) =~= seq![]);
        assert(rows_of(out@) =~= jr.take(0).filter(keep).map_values(shape));
    }
    while i < rows.len()
        invariant
            rows_wf(rows@),
            rows_wf(out@),
            i <= rows@.len(),
            jr == rows_of(rows@),
            jr == joined(query@.patterns, store@),
            am == answer_map(answers@),
            keep == passing(query@, am),
            string_views(names@) == projected_variables(query@),
            shape == (|row: Map<Seq<char>, TermView>| projected(row, projected_variables(query@))),
            forall|x: QuestionView| #[trigger]
                questions(query@, store@).contains(x) ==> answer_map(answers@).dom().contains(x),
            rows_of(out@) == jr.take(i as int).filter(keep).map_values(shape),
        decreases rows@.len() - i,
    {
        let ghost row = row_of(rows@[i as int]@);
        proof {
            assert(jr[i as int] == row);
            assert(jr.take(i + 1) =~= jr.take(i as int).push(row));
            lemma_filter_push(jr.take(i as int), row, keep);
            assert forall|j: int| 0 <= j < query.filters@.len() implies (match filter_question(
                #[trigger] filter_views(query.filters@)[j],
                row,
            ) {
                Some(x) => am.dom().contains(x),
                None => true,
            }) by {
                lemma_asks(query@.filters, jr, i as int, j);
                if let Some(x) = filter_question(query@.filters[j], row) {
                    assert(questions(query@, store@).contains(x));
                }
            }
        }
        if eval_filters(&query.filters, &rows[i], answers) {
            let ghost before = out@;
            let kept: Binding = project_row(&rows[i], &names);
            let ghost kv = row_of(kept@);
            out.push(kept);
            proof {
                assert(rows_of(out@) =~= rows_of(before).push(kv));
                assert(kv == shape(row));
                assert(jr.take(i + 1).filter(keep).map_values(shape) =~= jr.take(i as int).filter(
                    keep,
                ).map_values(shape).push(shape(row)));
            }
        }
        i = i + 1;
    }
    assert(jr.take(i as int) =~= jr);
    if let Some(n) = query.limit {
        if n < out.len() {
            let ghost before = out@;
            out.truncate(n);
            assert(rows_of(out@) =~= rows_of(before).take(n as int));
        }
    }
    Ok(out)
}

/// Evaluates a query that asks no comparison of floating-point numbers.
pub fn evaluate(query: &SparqlQuery, store: &TripleStore) -> (r: CenResult<Vec<Binding>>)
    requires
        store.wf(),
        questions(query@, store@).len() == 0,
    ensures
        r matches Ok(rows) && rows_wf(rows@) && rows_of(rows@) == query_rows(
            query@,
            store@,
            Map::empty(),
        ),
{
    let none: Vec<(FloatQuestion, bool)> = Vec::new();
    assert(answer_map(none@) =~= Map::empty());
    evaluate_answered(query, store, &none)
}

} // verus!
