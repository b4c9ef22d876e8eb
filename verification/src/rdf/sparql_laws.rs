//! What a query says is what its tokens say.

use vstd::prelude::*;

use crate::error::ErrorView;
use crate::numbers::{is_float_text, law_decimal_round_trip, signed_value, unsigned_value};
use crate::rdf::sparql::{
    filter_at, filter_value_at, group_at, limit_at, operator, pattern_term_at, query_of,
    selected_query, variables_at, ComparisonOp, FilterValueView, FilterView, PatternTermView,
    QueryView, TriplePatternView,
};
use crate::rdf::tokens::{token_at, word_token, TokenView};
use crate::rdf::serialize::rdf_type;
use crate::rdf::TermView;
use crate::text::{decimal, is_digit};
use crate::text_laws::{is_in_any_case, lemma_any_case};

verus! {

/// The sign of a comparison.
pub open spec fn sign_of(op: ComparisonOp) -> TokenView {
    match op {
        ComparisonOp::Eq => TokenView::Eq,
        ComparisonOp::Ne => TokenView::Ne,
        ComparisonOp::Lt => TokenView::Lt,
        ComparisonOp::Le => TokenView::Le,
        ComparisonOp::Gt => TokenView::Gt,
        ComparisonOp::Ge => TokenView::Ge,
    }
}

/// How a variable or a term is written.
pub open spec fn written_term(t: PatternTermView) -> TokenView {
    match t {
        PatternTermView::Var(s) => TokenView::Var(s),
        PatternTermView::Term(TermView::Uri(s)) => TokenView::Iri(s),
        PatternTermView::Term(TermView::Literal(s, tag)) => TokenView::Literal(s, tag),
        PatternTermView::Term(TermView::BlankNode(s)) => TokenView::BlankNode(s),
    }
}

/// How an integer is written.
pub open spec fn written_integer(n: int) -> Seq<char> {
    if n < 0 {
        seq!['-'] + decimal((-n) as nat)
    } else {
        decimal(n as nat)
    }
}

/// How a value is written.
pub open spec fn written_value(v: FilterValueView) -> TokenView {
    match v {
        FilterValueView::Integer(n) => TokenView::Number(written_integer(n as int)),
        FilterValueView::Float(s) => TokenView::Number(s),
        FilterValueView::String(s) => TokenView::Literal(s, None),
        FilterValueView::Iri(s) => TokenView::Iri(s),
    }
}

/// Whether a value is one that can be written: a floating-point number in a
/// notation of its own.
pub open spec fn is_writable(v: FilterValueView) -> bool {
    v matches FilterValueView::Float(s) ==> is_float_text(s) && (s.contains('.') || s.contains('e')
        || s.contains('E'))
}

/// How triple patterns are written.
pub open spec fn written_patterns(ps: Seq<TriplePatternView>) -> Seq<TokenView>
    decreases ps.len(),
{
    if ps.len() == 0 {
        seq![]
    } else {
        written_patterns(ps.drop_last()) + seq![
            written_term(ps.last().subject),
            written_term(ps.last().predicate),
            written_term(ps.last().object),
            TokenView::Dot,
        ]
    }
}

/// How filters are written.
pub open spec fn written_filters(fs: Seq<FilterView>) -> Seq<TokenView>
    decreases fs.len(),
{
    if fs.len() == 0 {
        seq![]
    } else {
        written_filters(fs.drop_last()) + seq![
            TokenView::Filter,
            TokenView::LParen,
            TokenView::Var(fs.last().var),
            sign_of(fs.last().op),
            written_value(fs.last().value),
            TokenView::RParen,
        ]
    }
}

/// How the selected variables are written.
pub open spec fn written_variables(q: QueryView) -> Seq<TokenView> {
    if q.select_all {
        seq![TokenView::Star]
    } else {
        q.select.map_values(|s: Seq<char>| TokenView::Var(s))
    }
}

/// How a limit is written.
pub open spec fn written_limit(limit: Option<usize>) -> Seq<TokenView> {
    match limit {
        Some(n) => seq![TokenView::Limit, TokenView::Number(decimal(n as nat))],
        None => seq![],
    }
}

/// How a query is written.
pub open spec fn written_query(q: QueryView) -> Seq<TokenView> {
    seq![TokenView::Select] + written_variables(q) + seq![TokenView::Where, TokenView::LBrace]
        + written_patterns(q.patterns) + written_filters(q.filters) + seq![TokenView::RBrace]
        + written_limit(q.limit)
}

/// Whether a query selects something and asks for something.
pub open spec fn is_query(q: QueryView) -> bool {
    &&& q.select_all <==> q.select.len() == 0
    &&& q.patterns.len() > 0
    &&& forall|i: int| 0 <= i < q.filters.len() ==> is_writable((#[trigger] q.filters[i]).value)
}

/// The value of a written integer is that integer.
pub proof fn law_integer_round_trip(n: int)
    ensures
        signed_value(written_integer(n)) == Some(n),
        n >= 0 ==> unsigned_value(written_integer(n)) == Some(n as nat),
        !written_integer(n).contains('.'),
        !written_integer(n).contains('e'),
        !written_integer(n).contains('E'),
{
    let s = written_integer(n);
    let d = if n < 0 {
        decimal((-n) as nat)
    } else {
        decimal(n as nat)
    };
    if n < 0 {
        law_decimal_round_trip((-n) as nat);
        assert(s.skip(1) =~= d);
        assert(s[0] == '-');
    } else {
        law_decimal_round_trip(n as nat);
        assert(is_digit(d[0]));
    }
    assert forall|i: int| 0 <= i < s.len() implies s[i] != '.' && s[i] != 'e' && s[i] != 'E' by {
        if n < 0 && i > 0 {
            assert(s[i] == d[i - 1]);
            assert(is_digit(d[i - 1]));
        } else if n >= 0 {
            assert(is_digit(d[i]));
        }
    }
}

proof fn lemma_patterns(ps: Seq<TriplePatternView>, k: int)
    ensures
        written_patterns(ps).len() == 4 * ps.len(),
        0 <= k < ps.len() ==> written_patterns(ps)[4 * k] == written_term(ps[k].subject)
            && written_patterns(ps)[4 * k + 1] == written_term(ps[k].predicate)
            && written_patterns(ps)[4 * k + 2] == written_term(ps[k].object)
            && written_patterns(ps)[4 * k + 3] == TokenView::Dot,
    decreases ps.len(),
{
    if ps.len() > 0 {
        lemma_patterns(ps.drop_last(), k);
    }
}

proof fn lemma_filters(fs: Seq<FilterView>, k: int)
    ensures
        written_filters(fs).len() == 6 * fs.len(),
        0 <= k < fs.len() ==> written_filters(fs)[6 * k] == TokenView::Filter
            && written_filters(fs)[6 * k + 1] == TokenView::LParen && written_filters(fs)[6 * k + 2]
            == TokenView::Var(fs[k].var) && written_filters(fs)[6 * k + 3] == sign_of(fs[k].op)
            && written_filters(fs)[6 * k + 4] == written_value(fs[k].value)
            && written_filters(fs)[6 * k + 5] == TokenView::RParen,
    decreases fs.len(),
{
    if fs.len() > 0 {
        lemma_filters(fs.drop_last(), k);
    }
}

/// The tokens from a place on are the given ones.
spec fn stands(ts: Seq<TokenView>, i: int, x: Seq<TokenView>) -> bool {
    0 <= i && i + x.len() <= ts.len() && forall|k: int|
        0 <= k < x.len() ==> #[trigger] ts[i + k] == x[k]
}

proof fn lemma_read_patterns(
    ts: Seq<TokenView>,
    i: int,
    ps: Seq<TriplePatternView>,
    k: int,
)
    requires
        stands(ts, i, written_patterns(ps)),
        0 <= k <= ps.len(),
    ensures
        group_at(ts, i, seq![], seq![]) == group_at(ts, i + 4 * k, ps.take(k), seq![]),
    decreases k,
{
    if k == 0 {
        assert(ps.take(0) =~= seq![]);
    } else {
        lemma_read_patterns(ts, i, ps, k - 1);
        lemma_patterns(ps, k - 1);
        let j = i + 4 * (k - 1);
        let x = written_patterns(ps);
        let m = 4 * (k - 1);
        assert(ts[i + m] == x[m]);
        assert(ts[i + (m + 1)] == x[m + 1]);
        assert(ts[i + (m + 2)] == x[m + 2]);
        assert(ts[i + (m + 3)] == x[m + 3]);
        let p = ps[k - 1];
        assert(pattern_term_at(ts, j) == Ok::<_, ErrorView>((p.subject, j + 1)));
        assert(pattern_term_at(ts, j + 1) == Ok::<_, ErrorView>(
            (p.predicate, j + 2),
        ));
        assert(pattern_term_at(ts, j + 2) == Ok::<_, ErrorView>((p.object, j + 3)));
        assert(ps.take(k) =~= ps.take(k - 1).push(p));
        assert(ts[j + 3] == TokenView::Dot);
    }
}

proof fn lemma_read_value(v: FilterValueView, ts: Seq<TokenView>, i: int)
    requires
        is_writable(v),
        0 <= i < ts.len(),
        ts[i] == written_value(v),
    ensures
        filter_value_at(ts, i) == Ok::<_, ErrorView>((v, i + 1)),
{
    if let FilterValueView::Integer(n) = v {
        law_integer_round_trip(n as int);
    }
}

proof fn lemma_read_filters(
    ts: Seq<TokenView>,
    i: int,
    ps: Seq<TriplePatternView>,
    fs: Seq<FilterView>,
    k: int,
)
    requires
        stands(ts, i, written_filters(fs)),
        i + 6 * fs.len() < ts.len(),
        ts[i + 6 * fs.len()] == TokenView::RBrace,
        0 <= k <= fs.len(),
        forall|j: int| 0 <= j < fs.len() ==> is_writable((#[trigger] fs[j]).value),
    ensures
        group_at(ts, i, ps, seq![]) == group_at(ts, i + 6 * k, ps, fs.take(k)),
    decreases k,
{
    lemma_filters(fs, k);
    if k == 0 {
        assert(fs.take(0) =~= seq![]);
    } else {
        lemma_read_filters(ts, i, ps, fs, k - 1);
        lemma_filters(fs, k - 1);
        let m = 6 * (k - 1);
        let j = i + m;
        let x = written_filters(fs);
        assert(ts[i + m] == x[m]);
        assert(ts[i + (m + 1)] == x[m + 1]);
        assert(ts[i + (m + 2)] == x[m + 2]);
        assert(ts[i + (m + 3)] == x[m + 3]);
        assert(ts[i + (m + 4)] == x[m + 4]);
        assert(ts[i + (m + 5)] == x[m + 5]);
        let f = fs[k - 1];
        assert(is_writable(f.value));
        lemma_read_value(f.value, ts, j + 4);
        assert(operator(sign_of(f.op)) == Some(f.op));
        assert(filter_at(ts, j + 1) == Ok::<_, ErrorView>((f, j + 6)));
        assert(fs.take(k) =~= fs.take(k - 1).push(f));
        if k < fs.len() {
            assert(ts[i + (m + 6)] == x[m + 6]);
            assert(ts[j + 6] == TokenView::Filter);
        } else {
            assert(ts[j + 6] == TokenView::RBrace);
        }
    }
}

proof fn lemma_read_variables(ts: Seq<TokenView>, select: Seq<Seq<char>>, k: int)
    requires
        ts.len() > 1 + select.len(),
        forall|i: int| 0 <= i < select.len() ==> #[trigger] ts[1 + i] == TokenView::Var(select[i]),
        !(ts[(1 + select.len()) as int] is Var),
        0 <= k <= select.len(),
    ensures
        variables_at(ts, 1 + k, select.take(k)) == (select, 1 + select.len() as int),
    decreases select.len() - k,
{
    if k == select.len() {
        assert(select.take(k) =~= select);
    } else {
        assert(ts[1 + k] == TokenView::Var(select[k]));
        lemma_read_variables(ts, select, k + 1);
        assert(select.take(k + 1) =~= select.take(k).push(select[k]));
    }
}

/// A written query is read as that query: the selected variables, the patterns
/// and the filters in their order, and the limit.
pub proof fn law_query_round_trip(q: QueryView)
    requires
        is_query(q),
    ensures
        query_of(written_query(q)) == Ok::<_, ErrorView>(q),
{
    let ts = written_query(q);
    let vars = written_variables(q);
    let ps = written_patterns(q.patterns);
    let fs = written_filters(q.filters);
    let ls = written_limit(q.limit);
    lemma_patterns(q.patterns, 0);
    lemma_filters(q.filters, 0);
    let w = 1 + vars.len() as int;
    let i = w + 2;
    let f = i + ps.len();
    let e = f + fs.len();
    assert(ts[0] == TokenView::Select);
    assert(ts[w] == TokenView::Where);
    assert(ts[w + 1] == TokenView::LBrace);
    assert(ts[e] == TokenView::RBrace);
    assert forall|k: int| 0 <= k < ps.len() implies #[trigger] ts[i + k] == ps[k] by {}
    assert forall|k: int| 0 <= k < fs.len() implies #[trigger] ts[f + k] == fs[k] by {}
    assert(stands(ts, i, ps));
    assert(stands(ts, f, fs));
    let n = q.patterns.len() as int;
    lemma_read_patterns(ts, i, q.patterns, n);
    assert(q.patterns.take(n) =~= q.patterns);
    let m = q.filters.len() as int;
    lemma_read_filters(ts, f, q.patterns, q.filters, m);
    assert(q.filters.take(m) =~= q.filters);
    assert(group_at(ts, i, seq![], seq![]) == Ok::<_, ErrorView>(
        ((q.patterns, q.filters), e + 1),
    ));
    lemma_read_limit(ts, e + 1, q.limit);
    assert(selected_query(ts, q.select, q.select_all, w) == Ok::<_, ErrorView>(
        q,
    ));
    if q.select_all {
        assert(ts[1] == TokenView::Star);
        assert(q.select =~= seq![]);
    } else {
        assert forall|k: int| 0 <= k < q.select.len() implies #[trigger] ts[1 + k]
            == TokenView::Var(q.select[k]) by {}
        lemma_read_variables(ts, q.select, 0);
        assert(q.select.take(0) =~= seq![]);
    }
}

proof fn lemma_read_limit(ts: Seq<TokenView>, i: int, limit: Option<usize>)
    requires
        0 <= i <= ts.len(),
        ts.len() == i + written_limit(limit).len(),
        forall|k: int|
            0 <= k < written_limit(limit).len() ==> #[trigger] ts[i + k] == written_limit(limit)[k],
    ensures
        limit_at(ts, i, None) == Ok::<_, ErrorView>(limit),
{
    reveal_with_fuel(limit_at, 2);
    if let Some(n) = limit {
        law_integer_round_trip(n as int);
        assert(ts[i + 0] == TokenView::Limit);
        assert(ts[i + 1] == TokenView::Number(decimal(n as nat)));
    }
}

/// The signs of comparisons are read as such, the longer ones first.
pub proof fn law_signs(b: Seq<u8>, i: int)
    requires
        0 <= i < b.len(),
    ensures
        b[i] == '=' as u8 ==> token_at(b, i) == Ok::<_, ErrorView>(
            (TokenView::Eq, i + 1),
        ),
        b[i] == '<' as u8 && i + 1 < b.len() && b[i + 1] == '=' as u8 ==> token_at(b, i) == Ok::<_, ErrorView>((TokenView::Le, i + 2)),
        b[i] == '>' as u8 && i + 1 < b.len() && b[i + 1] == '=' as u8 ==> token_at(b, i) == Ok::<_, ErrorView>((TokenView::Ge, i + 2)),
        b[i] == '!' as u8 && i + 1 < b.len() && b[i + 1] == '=' as u8 ==> token_at(b, i) == Ok::<_, ErrorView>((TokenView::Ne, i + 2)),
        b[i] == '>' as u8 && (i + 1 == b.len() || b[i + 1] != '=' as u8) ==> token_at(b, i) == Ok::<_, ErrorView>((TokenView::Gt, i + 1)),
        b[i] == '<' as u8 && (i + 1 == b.len() || b[i + 1] == ' ' as u8 || b[i + 1] == '?' as u8
            || b[i + 1] == '"' as u8) ==> token_at(b, i) == Ok::<_, ErrorView>(
            (TokenView::Lt, i + 1),
        ),
{
}

/// Keywords count in any case, and `a` is the type predicate.
pub proof fn law_keywords(w: Seq<char>)
    ensures
        is_in_any_case(w, "SELECT"@) ==> word_token(w) == TokenView::Select,
        is_in_any_case(w, "WHERE"@) ==> word_token(w) == TokenView::Where,
        is_in_any_case(w, "FILTER"@) ==> word_token(w) == TokenView::Filter,
        is_in_any_case(w, "LIMIT"@) ==> word_token(w) == TokenView::Limit,
        w == "a"@ ==> word_token(w) == TokenView::Iri(rdf_type()),
{
    reveal_strlit("SELECT");
    reveal_strlit("WHERE");
    reveal_strlit("FILTER");
    reveal_strlit("LIMIT");
    reveal_strlit("A");
    reveal_strlit("a");
    if is_in_any_case(w, "SELECT"@) {
        lemma_any_case(w, "SELECT"@);
    }
    if is_in_any_case(w, "WHERE"@) {
        lemma_any_case(w, "WHERE"@);
    }
    if is_in_any_case(w, "FILTER"@) {
        lemma_any_case(w, "FILTER"@);
        assert("FILTER"@[0] != "SELECT"@[0]);
    }
    if is_in_any_case(w, "LIMIT"@) {
        lemma_any_case(w, "LIMIT"@);
        assert("LIMIT"@[0] != "WHERE"@[0]);
    }
    if w == "a"@ {
        lemma_any_case(w, "A"@);
    }
}

} // verus!
