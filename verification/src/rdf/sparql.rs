//! A subset of SPARQL: `SELECT` queries with basic graph patterns, comparison
//! filters and a limit, and their evaluation over a triple store.
//!
//! Comparisons of floating-point numbers are left to the caller: a query asks
//! [`FloatQuestion`]s, and the evaluation takes their answers.

use vstd::prelude::*;
use vstd::utf8::encode_utf8;

use crate::error::{syntax_error, CenError, CenResult, CenStatus, ErrorView};
use crate::numbers::{
    denotes_float, is_float_text, parse_i64, parse_usize, signed_value, unsigned_value,
};
use crate::rdf::tokens::{show, shown, token_views, tokenize, tokens_rest, Token, TokenView};
use crate::rdf::{RdfTerm, TermView};
use crate::text::chars_of;

pub use crate::rdf::evaluate::{evaluate, evaluate_answered, float_questions, Binding};

verus! {

/// A term of a triple pattern: a variable or a concrete term.
#[derive(Debug)]
pub enum PatternTerm {
    Var(String),
    Term(RdfTerm),
}

/// The mathematical value of a [`PatternTerm`].
pub enum PatternTermView {
    Var(Seq<char>),
    Term(TermView),
}

impl View for PatternTerm {
    type V = PatternTermView;

    open spec fn view(&self) -> PatternTermView {
        match *self {
            PatternTerm::Var(s) => PatternTermView::Var(s@),
            PatternTerm::Term(t) => PatternTermView::Term(t@),
        }
    }
}

/// A triple pattern.
#[derive(Debug)]
pub struct TriplePattern {
    pub subject: PatternTerm,
    pub predicate: PatternTerm,
    pub object: PatternTerm,
}

/// The mathematical value of a [`TriplePattern`].
pub struct TriplePatternView {
    pub subject: PatternTermView,
    pub predicate: PatternTermView,
    pub object: PatternTermView,
}

impl View for TriplePattern {
    type V = TriplePatternView;

    open spec fn view(&self) -> TriplePatternView {
        TriplePatternView {
            subject: self.subject@,
            predicate: self.predicate@,
            object: self.object@,
        }
    }
}

/// How a filter compares.
#[derive(Clone, Copy, Debug, PartialEq, Eq, Structural)]
pub enum ComparisonOp {
    Eq,
    Ne,
    Lt,
    Gt,
    Le,
    Ge,
}

/// What a filter compares with. A floating-point number is kept as its text.
#[derive(Debug)]
pub enum FilterValue {
    Integer(i64),
    Float(String),
    String(String),
    Iri(String),
}

/// The mathematical value of a [`FilterValue`].
pub enum FilterValueView {
    Integer(i64),
    Float(Seq<char>),
    String(Seq<char>),
    Iri(Seq<char>),
}

impl View for FilterValue {
    type V = FilterValueView;

    open spec fn view(&self) -> FilterValueView {
        match *self {
            FilterValue::Integer(n) => FilterValueView::Integer(n),
            FilterValue::Float(s) => FilterValueView::Float(s@),
            FilterValue::String(s) => FilterValueView::String(s@),
            FilterValue::Iri(s) => FilterValueView::Iri(s@),
        }
    }
}

/// A comparison of a variable with a value.
#[derive(Debug)]
pub struct Filter {
    pub var: String,
    pub op: ComparisonOp,
    pub value: FilterValue,
}

/// The mathematical value of a [`Filter`].
pub struct FilterView {
    pub var: Seq<char>,
    pub op: ComparisonOp,
    pub value: FilterValueView,
}

impl View for Filter {
    type V = FilterView;

    open spec fn view(&self) -> FilterView {
        FilterView { var: self.var@, op: self.op, value: self.value@ }
    }
}

/// A parsed `SELECT` query.
#[derive(Debug)]
pub struct SparqlQuery {
    /// The selected variables; empty where all are selected.
    pub select: Vec<String>,
    /// Whether all variables are selected.
    pub select_all: bool,
    pub patterns: Vec<TriplePattern>,
    pub filters: Vec<Filter>,
    pub limit: Option<usize>,
}

/// The mathematical value of a [`SparqlQuery`].
pub struct QueryView {
    pub select: Seq<Seq<char>>,
    pub select_all: bool,
    pub patterns: Seq<TriplePatternView>,
    pub filters: Seq<FilterView>,
    pub limit: Option<usize>,
}

/// The texts of a sequence of strings.
pub open spec fn string_views(s: Seq<String>) -> Seq<Seq<char>> {
    s.map_values(|x: String| x@)
}

/// The values of a sequence of patterns.
pub open spec fn pattern_views(s: Seq<TriplePattern>) -> Seq<TriplePatternView> {
    s.map_values(|x: TriplePattern| x@)
}

/// The values of a sequence of filters.
pub open spec fn filter_views(s: Seq<Filter>) -> Seq<FilterView> {
    s.map_values(|x: Filter| x@)
}

impl View for SparqlQuery {
    type V = QueryView;

    open spec fn view(&self) -> QueryView {
        QueryView {
            select: string_views(self.select@),
            select_all: self.select_all,
            patterns: pattern_views(self.patterns@),
            filters: filter_views(self.filters@),
            limit: self.limit,
        }
    }
}

// ---------------------------------------------------------------------------
// Grammar
// ---------------------------------------------------------------------------
/// The token at a place.
pub open spec fn tok(ts: Seq<TokenView>, i: int) -> Option<TokenView> {
    if 0 <= i < ts.len() {
        Some(ts[i])
    } else {
        None
    }
}

/// The error of finding another token than the expected one.
pub open spec fn expected_token(want: TokenView, got: Option<TokenView>) -> ErrorView {
    match got {
        Some(t) => syntax_error("expected "@ + shown(want) + ", got "@ + shown(t)),
        None => syntax_error("expected "@ + shown(want) + ", got EOF"@),
    }
}

/// An error message that ends in a token.
pub open spec fn got_token(message: Seq<char>, t: TokenView) -> ErrorView {
    syntax_error(message + shown(t))
}

/// The pattern term at a place.
pub open spec fn pattern_term_at(ts: Seq<TokenView>, i: int) -> Result<
    (PatternTermView, int),
    ErrorView,
> {
    match tok(ts, i) {
        Some(TokenView::Var(s)) => Ok((PatternTermView::Var(s), i + 1)),
        Some(TokenView::Iri(s)) => Ok((PatternTermView::Term(TermView::Uri(s)), i + 1)),
        Some(TokenView::Literal(v, tag)) => Ok(
            (PatternTermView::Term(TermView::Literal(v, tag)), i + 1),
        ),
        Some(TokenView::BlankNode(s)) => Ok((PatternTermView::Term(TermView::BlankNode(s)), i + 1)),
        Some(TokenView::Bareword(s)) => Ok((PatternTermView::Term(TermView::Uri(s)), i + 1)),
        Some(t) => Err(got_token("expected pattern term, got "@, t)),
        None => Err(syntax_error("expected pattern term, got EOF"@)),
    }
}

/// The triple pattern at a place.
pub open spec fn triple_pattern_at(ts: Seq<TokenView>, i: int) -> Result<
    (TriplePatternView, int),
    ErrorView,
> {
    match pattern_term_at(ts, i) {
        Err(x) => Err(x),
        Ok((subject, j)) => match pattern_term_at(ts, j) {
            Err(x) => Err(x),
            Ok((predicate, k)) => match pattern_term_at(ts, k) {
                Err(x) => Err(x),
                Ok((object, m)) => Ok((TriplePatternView { subject, predicate, object }, m)),
            },
        },
    }
}

/// The comparison operator that a token stands for.
pub open spec fn operator(t: TokenView) -> Option<ComparisonOp> {
    match t {
        TokenView::Eq => Some(ComparisonOp::Eq),
        TokenView::Ne => Some(ComparisonOp::Ne),
        TokenView::Lt => Some(ComparisonOp::Lt),
        TokenView::Gt => Some(ComparisonOp::Gt),
        TokenView::Le => Some(ComparisonOp::Le),
        TokenView::Ge => Some(ComparisonOp::Ge),
        _ => None,
    }
}

/// The value of a number in a filter: with a point or an exponent mark it is a
/// floating-point number, else an integer of 64 bits.
pub open spec fn number_value(n: Seq<char>) -> Result<FilterValueView, ErrorView> {
    if n.contains('.') || n.contains('e') || n.contains('E') {
        if is_float_text(n) {
            Ok(FilterValueView::Float(n))
        } else {
            Err(syntax_error("bad number: "@ + n))
        }
    } else {
        match signed_value(n) {
            Some(v) => if i64::MIN <= v <= i64::MAX {
                Ok(FilterValueView::Integer(v as i64))
            } else {
                Err(syntax_error("bad integer: "@ + n))
            },
            None => Err(syntax_error("bad integer: "@ + n)),
        }
    }
}

/// The value that a filter compares with, at a place.
pub open spec fn filter_value_at(ts: Seq<TokenView>, i: int) -> Result<
    (FilterValueView, int),
    ErrorView,
> {
    match tok(ts, i) {
        Some(TokenView::Number(n)) => match number_value(n) {
            Err(x) => Err(x),
            Ok(v) => Ok((v, i + 1)),
        },
        Some(TokenView::Literal(s, _)) => Ok((FilterValueView::String(s), i + 1)),
        Some(TokenView::Iri(s)) => Ok((FilterValueView::Iri(s), i + 1)),
        Some(t) => Err(got_token("expected filter value, got "@, t)),
        None => Err(syntax_error("expected filter value"@)),
    }
}

/// The filter whose opening parenthesis should stand at a place.
pub open spec fn filter_at(ts: Seq<TokenView>, i: int) -> Result<(FilterView, int), ErrorView> {
    if tok(ts, i) != Some(TokenView::LParen) {
        Err(expected_token(TokenView::LParen, tok(ts, i)))
    } else {
        match tok(ts, i + 1) {
            Some(TokenView::Var(var)) => match tok(ts, i + 2) {
                Some(t) => match operator(t) {
                    Some(op) => match filter_value_at(ts, i + 3) {
                        Err(x) => Err(x),
                        Ok((value, j)) => if tok(ts, j) != Some(TokenView::RParen) {
                            Err(expected_token(TokenView::RParen, tok(ts, j)))
                        } else {
                            Ok((FilterView { var, op, value }, j + 1))
                        },
                    },
                    None => Err(got_token("expected comparison operator, got "@, t)),
                },
                None => Err(syntax_error("expected comparison operator"@)),
            },
            Some(t) => Err(got_token("expected variable in FILTER, got "@, t)),
            None => Err(syntax_error("expected variable in FILTER"@)),
        }
    }
}

/// The place after an optional full stop.
pub open spec fn after_dot(ts: Seq<TokenView>, i: int) -> int {
    if tok(ts, i) == Some(TokenView::Dot) {
        i + 1
    } else {
        i
    }
}

/// The patterns and filters so far and those up to the closing brace, and the
/// place after it.
pub open spec fn group_at(
    ts: Seq<TokenView>,
    i: int,
    patterns: Seq<TriplePatternView>,
    filters: Seq<FilterView>,
) -> Result<((Seq<TriplePatternView>, Seq<FilterView>), int), ErrorView>
    decreases ts.len() - i,
{
    match tok(ts, i) {
        None => Err(syntax_error("unterminated WHERE clause"@)),
        Some(TokenView::RBrace) => Ok(((patterns, filters), i + 1)),
        Some(TokenView::Filter) => match filter_at(ts, i + 1) {
            Err(x) => Err(x),
            Ok((f, j)) => group_at(ts, after_dot(ts, j), patterns, filters.push(f)),
        },
        Some(TokenView::Dot) => group_at(ts, i + 1, patterns, filters),
        Some(_) => match triple_pattern_at(ts, i) {
            Err(x) => Err(x),
            Ok((p, j)) => group_at(ts, after_dot(ts, j), patterns.push(p), filters),
        },
    }
}

/// The limit so far, and the last one that the rest of the query sets.
pub open spec fn limit_at(ts: Seq<TokenView>, i: int, limit: Option<usize>) -> Result<
    Option<usize>,
    ErrorView,
>
    decreases ts.len() - i,
{
    match tok(ts, i) {
        None => Ok(limit),
        Some(TokenView::Limit) => match tok(ts, i + 1) {
            Some(TokenView::Number(n)) => match unsigned_value(n) {
                Some(v) => if v <= usize::MAX {
                    limit_at(ts, i + 2, Some(v as usize))
                } else {
                    Err(syntax_error("bad LIMIT: "@ + n))
                },
                None => Err(syntax_error("bad LIMIT: "@ + n)),
            },
            Some(t) => Err(got_token("expected number after LIMIT, got "@, t)),
            None => Err(syntax_error("expected number after LIMIT"@)),
        },
        Some(t) => Err(got_token("unexpected token after WHERE clause: "@, t)),
    }
}

/// The variables from a place on, and the place after them.
pub open spec fn variables_at(ts: Seq<TokenView>, i: int, acc: Seq<Seq<char>>) -> (
    Seq<Seq<char>>,
    int,
)
    decreases ts.len() - i,
{
    match tok(ts, i) {
        Some(TokenView::Var(s)) => variables_at(ts, i + 1, acc.push(s)),
        _ => (acc, i),
    }
}

/// The query that starts with its variables at place 1.
pub open spec fn selected_query(
    ts: Seq<TokenView>,
    select: Seq<Seq<char>>,
    select_all: bool,
    i: int,
) -> Result<QueryView, ErrorView> {
    let j = if tok(ts, i) == Some(TokenView::Where) {
        i + 1
    } else {
        i
    };
    if tok(ts, j) != Some(TokenView::LBrace) {
        Err(expected_token(TokenView::LBrace, tok(ts, j)))
    } else {
        match group_at(ts, j + 1, seq![], seq![]) {
            Err(x) => Err(x),
            Ok(((patterns, filters), k)) => if patterns.len() == 0 {
                Err(syntax_error("WHERE clause must contain at least one triple pattern"@))
            } else {
                match limit_at(ts, k, None) {
                    Err(x) => Err(x),
                    Ok(limit) => Ok(QueryView { select, select_all, patterns, filters, limit }),
                }
            },
        }
    }
}

/// The query that a sequence of tokens makes.
pub open spec fn query_of(ts: Seq<TokenView>) -> Result<QueryView, ErrorView> {
    match tok(ts, 0) {
        None => Err(syntax_error("empty query"@)),
        Some(TokenView::Select) => if tok(ts, 1) == Some(TokenView::Star) {
            selected_query(ts, seq![], true, 2)
        } else {
            let (select, i) = variables_at(ts, 1, seq![]);
            if select.len() == 0 {
                Err(syntax_error("SELECT must be followed by variables or '*'"@))
            } else {
                selected_query(ts, select, false, i)
            }
        },
        Some(t) => Err(got_token("expected SELECT, got "@, t)),
    }
}

/// The query that a text makes.
pub open spec fn parsed_query(input: Seq<char>) -> Result<QueryView, ErrorView> {
    match tokens_rest(encode_utf8(input), 0, seq![]) {
        Err(x) => Err(x),
        Ok(ts) => query_of(ts),
    }
}

// ---------------------------------------------------------------------------
// Parser
// ---------------------------------------------------------------------------
struct TokenStream {
    tokens: Vec<Token>,
    pos: usize,
}

impl TokenStream {
    spec fn ts(&self) -> Seq<TokenView> {
        token_views(self.tokens@)
    }

    spec fn wf(&self) -> bool {
        self.pos <= self.tokens@.len() <= usize::MAX
    }

    fn peek(&self) -> (r: Option<&Token>)
        requires
            self.wf(),
        ensures
            match r {
                Some(t) => tok(self.ts(), self.pos as int) == Some(t@),
                None => tok(self.ts(), self.pos as int) is None && self.pos == self.tokens@.len(),
            },
            r is Some ==> self.pos < self.tokens@.len(),
    {
        if self.pos < self.tokens.len() {
            Some(&self.tokens[self.pos])
        } else {
            None
        }
    }

    fn bump(&mut self)
        requires
            old(self).wf(),
            old(self).pos < old(self).tokens@.len(),
        ensures
            final(self).wf(),
            final(self).tokens == old(self).tokens,
            final(self).pos == old(self).pos + 1,
    {
        self.pos = self.pos + 1;
    }

    fn expect_lbrace(&mut self) -> (r: CenResult<()>)
        requires
            old(self).wf(),
        ensures
            final(self).wf(),
            final(self).tokens == old(self).tokens,
            r is Ok <==> tok(old(self).ts(), old(self).pos as int) == Some(TokenView::LBrace),
            match r {
                Ok(_) => final(self).pos == old(self).pos + 1,
                Err(e) => e@ == expected_token(
                    TokenView::LBrace,
                    tok(old(self).ts(), old(self).pos as int),
                ),
            },
    {
        match self.peek() {
            Some(Token::LBrace) => {},
            Some(t) => {
                return Err(expected_got(&Token::LBrace, Some(t)));
            },
            None => {
                return Err(expected_got(&Token::LBrace, None));
            },
        }
        self.bump();
        Ok(())
    }

    fn expect_lparen(&mut self) -> (r: CenResult<()>)
        requires
            old(self).wf(),
        ensures
            final(self).wf(),
            final(self).tokens == old(self).tokens,
            r is Ok <==> tok(old(self).ts(), old(self).pos as int) == Some(TokenView::LParen),
            match r {
                Ok(_) => final(self).pos == old(self).pos + 1,
                Err(e) => e@ == expected_token(
                    TokenView::LParen,
                    tok(old(self).ts(), old(self).pos as int),
                ),
            },
    {
        match self.peek() {
            Some(Token::LParen) => {},
            Some(t) => {
                return Err(expected_got(&Token::LParen, Some(t)));
            },
            None => {
                return Err(expected_got(&Token::LParen, None));
            },
        }
        self.bump();
        Ok(())
    }

    fn expect_rparen(&mut self) -> (r: CenResult<()>)
        requires
            old(self).wf(),
        ensures
            final(self).wf(),
            final(self).tokens == old(self).tokens,
            r is Ok <==> tok(old(self).ts(), old(self).pos as int) == Some(TokenView::RParen),
            match r {
                Ok(_) => final(self).pos == old(self).pos + 1,
                Err(e) => e@ == expected_token(
                    TokenView::RParen,
                    tok(old(self).ts(), old(self).pos as int),
                ),
            },
    {
        match self.peek() {
            Some(Token::RParen) => {},
            Some(t) => {
                return Err(expected_got(&Token::RParen, Some(t)));
            },
            None => {
                return Err(expected_got(&Token::RParen, None));
            },
        }
        self.bump();
        Ok(())
    }

    /// Skips a full stop, if one follows.
    fn skip_dot(&mut self)
        requires
            old(self).wf(),
        ensures
            final(self).wf(),
            final(self).tokens == old(self).tokens,
            final(self).pos == after_dot(old(self).ts(), old(self).pos as int),
    {
        let is_dot: bool = match self.peek() {
            Some(Token::Dot) => true,
            _ => false,
        };
        if is_dot {
            self.bump();
        }
    }
}

fn expected_got(want: &Token, got: Option<&Token>) -> (r: CenError)
    ensures
        r@ == expected_token(
            want@,
            match got {
                Some(t) => Some(t@),
                None => None,
            },
        ),
{
    let mut message: String = "expected ".to_owned();
    let w: String = show(want);
    message.append(w.as_str());
    match got {
        Some(t) => {
            message.append(", got ");
            let g: String = show(t);
            message.append(g.as_str());
        },
        None => {
            message.append(", got EOF");
        },
    }
    CenError { status: CenStatus::ErrSyntax, message }
}

fn err_token(text: &str, t: &Token) -> (r: CenError)
    ensures
        r@ == got_token(text@, t@),
{
    let mut message: String = text.to_owned();
    let g: String = show(t);
    message.append(g.as_str());
    CenError { status: CenStatus::ErrSyntax, message }
}

fn err_text(text: &str, tail: &str) -> (r: CenError)
    ensures
        r@ == syntax_error(text@ + tail@),
{
    let mut message: String = text.to_owned();
    message.append(tail);
    CenError { status: CenStatus::ErrSyntax, message }
}

fn parse_pattern_term(ts: &mut TokenStream) -> (r: CenResult<PatternTerm>)
    requires
        old(ts).wf(),
    ensures
        final(ts).wf(),
        final(ts).tokens == old(ts).tokens,
        match (r, pattern_term_at(old(ts).ts(), old(ts).pos as int)) {
            (Ok(t), Ok((v, j))) => t@ == v && final(ts).pos == j,
            (Err(e), Err(x)) => e@ == x,
            _ => false,
        },
        r is Ok ==> final(ts).pos > old(ts).pos,
{
    let term: PatternTerm = match ts.peek() {
        Some(Token::Var(name)) => PatternTerm::Var(name.clone()),
        Some(Token::Iri(s)) => PatternTerm::Term(RdfTerm::Uri(s.clone())),
        Some(Token::Literal(v, None)) => PatternTerm::Term(RdfTerm::Literal(v.clone(), None)),
        Some(Token::Literal(v, Some(t))) => PatternTerm::Term(
            RdfTerm::Literal(v.clone(), Some(t.clone())),
        ),
        Some(Token::BlankNode(label)) => PatternTerm::Term(RdfTerm::BlankNode(label.clone())),
        Some(Token::Bareword(w)) => PatternTerm::Term(RdfTerm::Uri(w.clone())),
        Some(t) => {
            return Err(err_token("expected pattern term, got ", t));
        },
        None => {
            return Err(CenError::syntax("expected pattern term, got EOF"));
        },
    };
    ts.bump();
    Ok(term)
}

fn parse_triple_pattern(ts: &mut TokenStream) -> (r: CenResult<TriplePattern>)
    requires
        old(ts).wf(),
    ensures
        final(ts).wf(),
        final(ts).tokens == old(ts).tokens,
        match (r, triple_pattern_at(old(ts).ts(), old(ts).pos as int)) {
            (Ok(t), Ok((v, j))) => t@ == v && final(ts).pos == j,
            (Err(e), Err(x)) => e@ == x,
            _ => false,
        },
        r is Ok ==> final(ts).pos > old(ts).pos,
{
    let subject: PatternTerm = parse_pattern_term(ts)?;
    let predicate: PatternTerm = parse_pattern_term(ts)?;
    let object: PatternTerm = parse_pattern_term(ts)?;
    Ok(TriplePattern { subject, predicate, object })
}

fn has_char(s: &str, c: char) -> (r: bool)
    ensures
        r == s@.contains(c),
{
    let chars: Vec<char> = chars_of(s);
    let mut i: usize = 0;
    while i < chars.len()
        invariant
            chars@ == s@,
            i <= chars@.len(),
            forall|j: int| 0 <= j < i ==> s@[j] != c,
        decreases chars@.len() - i,
    {
        if chars[i] == c {
            assert(s@[i as int] == c);
            return true;
        }
        i = i + 1;
    }
    false
}

fn parse_number_value(n: &str) -> (r: CenResult<FilterValue>)
    ensures
        match (r, number_value(n@)) {
            (Ok(v), Ok(w)) => v@ == w,
            (Err(e), Err(x)) => e@ == x,
            _ => false,
        },
{
    if has_char(n, '.') || has_char(n, 'e') || has_char(n, 'E') {
        if denotes_float(n) {
            Ok(FilterValue::Float(n.to_owned()))
        } else {
            Err(err_text("bad number: ", n))
        }
    } else {
        match parse_i64(n) {
            Some(v) => Ok(FilterValue::Integer(v)),
            None => Err(err_text("bad integer: ", n)),
        }
    }
}

fn parse_filter_value(ts: &mut TokenStream) -> (r: CenResult<FilterValue>)
    requires
        old(ts).wf(),
    ensures
        final(ts).wf(),
        final(ts).tokens == old(ts).tokens,
        match (r, filter_value_at(old(ts).ts(), old(ts).pos as int)) {
            (Ok(t), Ok((v, j))) => t@ == v && final(ts).pos == j,
            (Err(e), Err(x)) => e@ == x,
            _ => false,
        },
        r is Ok ==> final(ts).pos > old(ts).pos,
{
    let value: FilterValue = match ts.peek() {
        Some(Token::Number(n)) => match parse_number_value(n.as_str()) {
            Ok(v) => v,
            Err(e) => {
                return Err(e);
            },
        },
        Some(Token::Literal(s, _)) => FilterValue::String(s.clone()),
        Some(Token::Iri(s)) => FilterValue::Iri(s.clone()),
        Some(t) => {
            return Err(err_token("expected filter value, got ", t));
        },
        None => {
            return Err(CenError::syntax("expected filter value"));
        },
    };
    ts.bump();
    Ok(value)
}

fn parse_filter(ts: &mut TokenStream) -> (r: CenResult<Filter>)
    requires
        old(ts).wf(),
    ensures
        final(ts).wf(),
        final(ts).tokens == old(ts).tokens,
        match (r, filter_at(old(ts).ts(), old(ts).pos as int)) {
            (Ok(t), Ok((v, j))) => t@ == v && final(ts).pos == j,
            (Err(e), Err(x)) => e@ == x,
            _ => false,
        },
        r is Ok ==> final(ts).pos > old(ts).pos,
{
    ts.expect_lparen()?;
    let var: String = match ts.peek() {
        Some(Token::Var(name)) => name.clone(),
        Some(t) => {
            return Err(err_token("expected variable in FILTER, got ", t));
        },
        None => {
            return Err(CenError::syntax("expected variable in FILTER"));
        },
    };
    ts.bump();
    let op: ComparisonOp = match ts.peek() {
        Some(Token::Eq) => ComparisonOp::Eq,
        Some(Token::Ne) => ComparisonOp::Ne,
        Some(Token::Lt) => ComparisonOp::Lt,
        Some(Token::Gt) => ComparisonOp::Gt,
        Some(Token::Le) => ComparisonOp::Le,
        Some(Token::Ge) => ComparisonOp::Ge,
        Some(t) => {
            return Err(err_token("expected comparison operator, got ", t));
        },
        None => {
            return Err(CenError::syntax("expected comparison operator"));
        },
    };
    ts.bump();
    let value: FilterValue = parse_filter_value(ts)?;
    ts.expect_rparen()?;
    Ok(Filter { var, op, value })
}

/// Reads patterns and filters up to the closing brace.
fn parse_group(ts: &mut TokenStream) -> (r: CenResult<(Vec<TriplePattern>, Vec<Filter>)>)
    requires
        old(ts).wf(),
    ensures
        final(ts).wf(),
        final(ts).tokens == old(ts).tokens,
        match (r, group_at(old(ts).ts(), old(ts).pos as int, seq![], seq![])) {
            (Ok((p, f)), Ok(((pv, fv), j))) => pattern_views(p@) == pv && filter_views(f@) == fv
                && final(ts).pos == j,
            (Err(e), Err(x)) => e@ == x,
            _ => false,
        },
{
    let mut patterns: Vec<TriplePattern> = Vec::new();
    let mut filters: Vec<Filter> = Vec::new();
    let ghost owed = group_at(ts.ts(), ts.pos as int, seq![], seq![]);
    assert(pattern_views(patterns@) =~= seq![]);
    assert(filter_views(filters@) =~= seq![]);
    loop
        invariant_except_break
            group_at(
                ts.ts(),
                ts.pos as int,
                pattern_views(patterns@),
                filter_views(filters@),
            ) == owed,
        invariant
            ts.wf(),
            ts.tokens == old(ts).tokens,
            owed == group_at(old(ts).ts(), old(ts).pos as int, seq![], seq![]),
        ensures
            owed == Ok::<((Seq<TriplePatternView>, Seq<FilterView>), int), ErrorView>(
                ((pattern_views(patterns@), filter_views(filters@)), ts.pos as int),
            ),
        decreases ts.tokens@.len() - ts.pos,
    {
        let kind: u8 = match ts.peek() {
            None => 0,
            Some(Token::RBrace) => 1,
            Some(Token::Filter) => 2,
            Some(Token::Dot) => 3,
            Some(_) => 4,
        };
        if kind == 0 {
            return Err(CenError::syntax("unterminated WHERE clause"));
        } else if kind == 1 {
            ts.bump();
            break;
        } else if kind == 2 {
            ts.bump();
            let f: Filter = parse_filter(ts)?;
            let ghost before = filters@;
            let ghost fv = f@;
            filters.push(f);
            assert(filter_views(filters@) =~= filter_views(before).push(fv));
            ts.skip_dot();
        } else if kind == 3 {
            ts.bump();
        } else {
            let p: TriplePattern = parse_triple_pattern(ts)?;
            let ghost before = patterns@;
            let ghost pv = p@;
            patterns.push(p);
            assert(pattern_views(patterns@) =~= pattern_views(before).push(pv));
            ts.skip_dot();
        }
    }
    Ok((patterns, filters))
}

fn parse_limit(ts: &mut TokenStream) -> (r: CenResult<Option<usize>>)
    requires
        old(ts).wf(),
    ensures
        final(ts).wf(),
        final(ts).tokens == old(ts).tokens,
        match (r, limit_at(old(ts).ts(), old(ts).pos as int, None)) {
            (Ok(l), Ok(v)) => l == v,
            (Err(e), Err(x)) => e@ == x,
            _ => false,
        },
{
    let mut limit: Option<usize> = None;
    let ghost owed = limit_at(ts.ts(), ts.pos as int, None);
    loop
        invariant_except_break
            limit_at(ts.ts(), ts.pos as int, limit) == owed,
        invariant
            ts.wf(),
            ts.tokens == old(ts).tokens,
            owed == limit_at(old(ts).ts(), old(ts).pos as int, None),
        ensures
            owed == Ok::<Option<usize>, ErrorView>(limit),
        decreases ts.tokens@.len() - ts.pos,
    {
        match ts.peek() {
            None => {
                break;
            },
            Some(Token::Limit) => {},
            Some(t) => {
                return Err(err_token("unexpected token after WHERE clause: ", t));
            },
        }
        ts.bump();
        match ts.peek() {
            Some(Token::Number(n)) => match parse_usize(n.as_str()) {
                Some(v) => {
                    limit = Some(v);
                },
                None => {
                    return Err(err_text("bad LIMIT: ", n.as_str()));
                },
            },
            Some(t) => {
                return Err(err_token("expected number after LIMIT, got ", t));
            },
            None => {
                return Err(CenError::syntax("expected number after LIMIT"));
            },
        }
        ts.bump();
    }
    Ok(limit)
}

/// Reads the selected variables.
fn parse_variables(ts: &mut TokenStream) -> (r: Vec<String>)
    requires
        old(ts).wf(),
    ensures
        final(ts).wf(),
        final(ts).tokens == old(ts).tokens,
        (string_views(r@), final(ts).pos as int) == variables_at(
            old(ts).ts(),
            old(ts).pos as int,
            seq![],
        ),
{
    let mut out: Vec<String> = Vec::new();
    assert(string_views(out@) =~= seq![]);
    loop
        invariant_except_break
            variables_at(ts.ts(), ts.pos as int, string_views(out@)) == variables_at(
                old(ts).ts(),
                old(ts).pos as int,
                seq![],
            ),
        invariant
            ts.wf(),
            ts.tokens == old(ts).tokens,
        ensures
            (string_views(out@), ts.pos as int) == variables_at(
                old(ts).ts(),
                old(ts).pos as int,
                seq![],
            ),
        decreases ts.tokens@.len() - ts.pos,
    {
        let name: String = match ts.peek() {
            Some(Token::Var(name)) => name.clone(),
            _ => {
                break;
            },
        };
        let ghost before = out@;
        let ghost nv = name@;
        out.push(name);
        assert(string_views(out@) =~= string_views(before).push(nv));
        ts.bump();
    }
    out
}

/// Parses a `SELECT` query.
pub fn parse_sparql(input: &str) -> (r: CenResult<SparqlQuery>)
    ensures
        match (r, parsed_query(input@)) {
            (Ok(q), Ok(v)) => q@ == v,
            (Err(e), Err(x)) => e@ == x,
            _ => false,
        },
{
    let tokens: Vec<Token> = tokenize(input)?;
    let _len: usize = tokens.len();
    let mut ts: TokenStream = TokenStream { tokens, pos: 0 };
    match ts.peek() {
        Some(Token::Select) => {},
        Some(t) => {
            return Err(err_token("expected SELECT, got ", t));
        },
        None => {
            return Err(CenError::syntax("empty query"));
        },
    }
    ts.bump();
    let select_all: bool = match ts.peek() {
        Some(Token::Star) => true,
        _ => false,
    };
    let select: Vec<String> = if select_all {
        ts.bump();
        Vec::new()
    } else {
        let names: Vec<String> = parse_variables(&mut ts);
        if names.len() == 0 {
            return Err(CenError::syntax("SELECT must be followed by variables or '*'"));
        }
        names
    };
    assert(select_all ==> string_views(select@) =~= seq![]);
    let is_where: bool = match ts.peek() {
        Some(Token::Where) => true,
        _ => false,
    };
    if is_where {
        ts.bump();
    }
    ts.expect_lbrace()?;
    let (patterns, filters) = parse_group(&mut ts)?;
    if patterns.len() == 0 {
        return Err(CenError::syntax("WHERE clause must contain at least one triple pattern"));
    }
    let limit: Option<usize> = parse_limit(&mut ts)?;
    Ok(SparqlQuery { select, select_all, patterns, filters, limit })
}

} // verus!
