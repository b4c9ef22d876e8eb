//! The tokens of the SPARQL subset and how they are read from text.
//!
//! The reader works on the UTF-8 bytes of its input. Names, IRIs and what
//! stands in literals are decoded; in language tags every byte counts as one
//! character. A name whose bytes end inside a character is refused.

use vstd::prelude::*;
use vstd::utf8::{encode_utf8, encode_utf8_valid_utf8, is_char_boundary, valid_utf8};

use crate::error::{syntax_error, CenError, CenResult, CenStatus, ErrorView};
use crate::rdf::serialize::{
    after_line, escape_end, lang_end, lemma_after_line, lemma_skip_space_and_comments, peek,
    rdf_type, skip_space, skip_space_and_comments, unexpected_char,
};
use crate::rdf::tag_view;
use crate::text::{
    ascii_uppercase, debug_of_text, debug_text, hex_number, is_alphabetic, is_alphanumeric,
    is_digit, is_letter, is_letter_or_number, is_space, is_whitespace, latin_text, lemma_hex_last,
    lemma_boundary_after_ascii, parse_hex, push_scalar, same_text, slice_text, text_between,
    upper_case,
};
use crate::utf8::{find_start, lemma_next_start, next_start};

verus! {

/// A token of a query.
#[derive(Debug)]
pub enum Token {
    LBrace,
    RBrace,
    LParen,
    RParen,
    Dot,
    Semi,
    Comma,
    Select,
    Where,
    Filter,
    Limit,
    Eq,
    Ne,
    Lt,
    Gt,
    Le,
    Ge,
    Var(String),
    Iri(String),
    Literal(String, Option<String>),
    BlankNode(String),
    Number(String),
    Bareword(String),
    Star,
}

/// The mathematical value of a [`Token`].
pub enum TokenView {
    LBrace,
    RBrace,
    LParen,
    RParen,
    Dot,
    Semi,
    Comma,
    Select,
    Where,
    Filter,
    Limit,
    Eq,
    Ne,
    Lt,
    Gt,
    Le,
    Ge,
    Var(Seq<char>),
    Iri(Seq<char>),
    Literal(Seq<char>, Option<Seq<char>>),
    BlankNode(Seq<char>),
    Number(Seq<char>),
    Bareword(Seq<char>),
    Star,
}

impl View for Token {
    type V = TokenView;

    open spec fn view(&self) -> TokenView {
        match *self {
            Token::LBrace => TokenView::LBrace,
            Token::RBrace => TokenView::RBrace,
            Token::LParen => TokenView::LParen,
            Token::RParen => TokenView::RParen,
            Token::Dot => TokenView::Dot,
            Token::Semi => TokenView::Semi,
            Token::Comma => TokenView::Comma,
            Token::Select => TokenView::Select,
            Token::Where => TokenView::Where,
            Token::Filter => TokenView::Filter,
            Token::Limit => TokenView::Limit,
            Token::Eq => TokenView::Eq,
            Token::Ne => TokenView::Ne,
            Token::Lt => TokenView::Lt,
            Token::Gt => TokenView::Gt,
            Token::Le => TokenView::Le,
            Token::Ge => TokenView::Ge,
            Token::Var(s) => TokenView::Var(s@),
            Token::Iri(s) => TokenView::Iri(s@),
            Token::Literal(s, tag) => TokenView::Literal(s@, tag_view(tag)),
            Token::BlankNode(s) => TokenView::BlankNode(s@),
            Token::Number(s) => TokenView::Number(s@),
            Token::Bareword(s) => TokenView::Bareword(s@),
            Token::Star => TokenView::Star,
        }
    }
}

/// The values of a sequence of tokens.
pub open spec fn token_views(s: Seq<Token>) -> Seq<TokenView> {
    s.map_values(|t: Token| t@)
}

/// The token that a single character makes.
pub open spec fn punctuation(c: char) -> Option<TokenView> {
    if c == '{' {
        Some(TokenView::LBrace)
    } else if c == '}' {
        Some(TokenView::RBrace)
    } else if c == '(' {
        Some(TokenView::LParen)
    } else if c == ')' {
        Some(TokenView::RParen)
    } else if c == '.' {
        Some(TokenView::Dot)
    } else if c == ';' {
        Some(TokenView::Semi)
    } else if c == ',' {
        Some(TokenView::Comma)
    } else if c == '*' {
        Some(TokenView::Star)
    } else if c == '=' {
        Some(TokenView::Eq)
    } else {
        None
    }
}

/// Whether a name goes on with the byte at `i`. A full stop before white
/// space, a closing brace or the end of the input ends a statement instead.
pub open spec fn name_goes_on(b: Seq<u8>, i: int) -> bool {
    0 <= i < b.len() && {
        let c = b[i] as char;
        if c == '.' {
            i + 1 < b.len() && !is_space(b[i + 1] as char) && b[i + 1] as char != '}'
        } else {
            is_letter_or_number(c) || c == '_' || c == '-' || c == ':'
        }
    }
}

/// Where the name that goes on at `i` ends.
pub open spec fn name_end(b: Seq<u8>, i: int) -> int
    decreases b.len() - i,
{
    if name_goes_on(b, i) {
        name_end(b, i + 1)
    } else {
        i
    }
}

proof fn lemma_name_end(b: Seq<u8>, i: int)
    requires
        0 <= i <= b.len(),
    ensures
        i <= name_end(b, i) <= b.len(),
    decreases b.len() - i,
{
    if name_goes_on(b, i) {
        lemma_name_end(b, i + 1);
    }
}

/// The error of a name whose bytes end inside a character.
pub open spec fn torn_name() -> ErrorView {
    syntax_error("name ends inside a character"@)
}

/// The name at a place, and the place after it.
pub open spec fn name_at(b: Seq<u8>, i: int) -> Result<(Seq<char>, int), ErrorView> {
    let e = name_end(b, i);
    if is_char_boundary(b, i) && is_char_boundary(b, e) {
        Ok((text_between(b, i, e), e))
    } else {
        Err(torn_name())
    }
}

/// The place of the next `>` from `i` on, or the end.
pub open spec fn closing_end(b: Seq<u8>, i: int) -> int
    decreases b.len() - i,
{
    if 0 <= i < b.len() && b[i] as char != '>' {
        closing_end(b, i + 1)
    } else {
        i
    }
}

proof fn lemma_closing_end(b: Seq<u8>, i: int)
    requires
        0 <= i <= b.len(),
    ensures
        i <= closing_end(b, i) <= b.len(),
    decreases b.len() - i,
{
    if i < b.len() && b[i] as char != '>' {
        lemma_closing_end(b, i + 1);
    }
}

/// The IRI whose opening byte stands at a place, and the place after it.
pub open spec fn bracketed_at(b: Seq<u8>, i: int) -> Result<(Seq<char>, int), ErrorView> {
    let start = if i < b.len() {
        i + 1
    } else {
        i
    };
    let e = closing_end(b, start);
    if !is_char_boundary(b, start) {
        Err(torn_name())
    } else if e >= b.len() {
        Err(syntax_error("unterminated IRI"@))
    } else {
        Ok((text_between(b, start, e), e + 1))
    }
}

/// The rest of a literal after what was read so far: its value and the place
/// after the closing quote. A numeric escape that names no character is left
/// out, with the rest of a character that it cuts. A backslash before any other
/// character stands for itself.
pub open spec fn quoted_rest(b: Seq<u8>, i: int, quote: u8, acc: Seq<char>) -> Result<
    (Seq<char>, int),
    ErrorView,
>
    decreases b.len() - i,
{
    if !(0 <= i < b.len()) {
        Err(syntax_error("unterminated literal"@))
    } else if b[i] == quote {
        Ok((acc, i + 1))
    } else if b[i] >= 128 {
        proof {
            lemma_next_start(b, i + 1);
        }
        let j = next_start(b, i + 1);
        quoted_rest(b, j, quote, acc + text_between(b, i, j))
    } else if b[i] as char != '\\' {
        quoted_rest(b, i + 1, quote, acc.push(b[i] as char))
    } else if i + 1 >= b.len() {
        Err(syntax_error("bad escape"@))
    } else {
        let c = b[i + 1] as char;
        if c == '"' || c == '\'' || c == '\\' {
            quoted_rest(b, i + 2, quote, acc.push(c))
        } else if c == 'n' {
            quoted_rest(b, i + 2, quote, acc.push('\n'))
        } else if c == 'r' {
            quoted_rest(b, i + 2, quote, acc.push('\r'))
        } else if c == 't' {
            quoted_rest(b, i + 2, quote, acc.push('\t'))
        } else if c == 'u' {
            let j = escape_end(b, i + 2, 4);
            proof {
                lemma_next_start(b, j);
            }
            match hex_number(latin_text(b.subrange(i + 2, j))) {
                None => quoted_rest(b, next_start(b, j), quote, acc),
                Some(n) => quoted_rest(b, j, quote, push_scalar(acc, n)),
            }
        } else {
            quoted_rest(b, i + 1, quote, acc.push('\\'))
        }
    }
}

proof fn lemma_quoted_rest(b: Seq<u8>, i: int, quote: u8, acc: Seq<char>)
    requires
        0 <= i <= b.len(),
    ensures
        quoted_rest(b, i, quote, acc) matches Ok((_, j)) ==> i < j <= b.len(),
    decreases b.len() - i,
{
    if i < b.len() && b[i] != quote {
        if b[i] >= 128 {
            let j = next_start(b, i + 1);
            lemma_next_start(b, i + 1);
            lemma_quoted_rest(b, j, quote, acc + text_between(b, i, j));
        } else if b[i] as char != '\\' {
            lemma_quoted_rest(b, i + 1, quote, acc.push(b[i] as char));
        } else if i + 1 < b.len() {
            let c = b[i + 1] as char;
            if c == '"' || c == '\'' || c == '\\' {
                lemma_quoted_rest(b, i + 2, quote, acc.push(c));
            } else if c == 'n' {
                lemma_quoted_rest(b, i + 2, quote, acc.push('\n'));
            } else if c == 'r' {
                lemma_quoted_rest(b, i + 2, quote, acc.push('\r'));
            } else if c == 't' {
                lemma_quoted_rest(b, i + 2, quote, acc.push('\t'));
            } else if c == 'u' {
                let j = escape_end(b, i + 2, 4);
                match hex_number(latin_text(b.subrange(i + 2, j))) {
                    None => {
                        lemma_next_start(b, j);
                        lemma_quoted_rest(b, next_start(b, j), quote, acc);
                    },
                    Some(n) => {
                        lemma_quoted_rest(b, j, quote, push_scalar(acc, n));
                    },
                }
            } else {
                lemma_quoted_rest(b, i + 1, quote, acc.push('\\'));
            }
        }
    }
}

/// The language tag or datatype at a place, and the place after it.
pub open spec fn quoted_tag_at(b: Seq<u8>, i: int) -> Result<(Option<Seq<char>>, int), ErrorView> {
    if peek(b, i) == Some('@') {
        let e = lang_end(b, i + 1);
        Ok((Some(seq!['@'] + latin_text(b.subrange(i + 1, e))), e))
    } else if peek(b, i) == Some('^') && peek(b, i + 1) == Some('^') {
        match bracketed_at(b, i + 2) {
            Err(x) => Err(x),
            Ok((s, j)) => Ok((Some(s), j)),
        }
    } else {
        Ok((None, i))
    }
}

/// The literal at a place, and the place after it.
pub open spec fn quoted_at(b: Seq<u8>, i: int) -> Result<
    ((Seq<char>, Option<Seq<char>>), int),
    ErrorView,
> {
    match quoted_rest(b, i + 1, b[i], seq![]) {
        Err(x) => Err(x),
        Ok((value, j)) => match quoted_tag_at(b, j) {
            Err(x) => Err(x),
            Ok((tag, k)) => Ok(((value, tag), k)),
        },
    }
}

/// Whether a digit stands at a place.
pub open spec fn digit_at(b: Seq<u8>, i: int) -> bool {
    0 <= i < b.len() && is_digit(b[i] as char)
}

/// Where the number that goes on at `i` ends. At most one decimal point, only
/// before a digit, and at most one exponent mark with an optional sign.
pub open spec fn number_rest(b: Seq<u8>, i: int, dot: bool, exp: bool) -> int
    decreases b.len() - i,
{
    if digit_at(b, i) {
        number_rest(b, i + 1, dot, exp)
    } else if peek(b, i) == Some('.') && !dot && !exp {
        if digit_at(b, i + 1) {
            number_rest(b, i + 1, true, exp)
        } else {
            i
        }
    } else if (peek(b, i) == Some('e') || peek(b, i) == Some('E')) && !exp {
        if peek(b, i + 1) == Some('+') || peek(b, i + 1) == Some('-') {
            number_rest(b, i + 2, dot, true)
        } else {
            number_rest(b, i + 1, dot, true)
        }
    } else {
        i
    }
}

proof fn lemma_number_rest(b: Seq<u8>, i: int, dot: bool, exp: bool)
    requires
        0 <= i <= b.len(),
    ensures
        i <= number_rest(b, i, dot, exp) <= b.len(),
        digit_at(b, i) ==> i < number_rest(b, i, dot, exp),
    decreases b.len() - i,
{
    if digit_at(b, i) {
        lemma_number_rest(b, i + 1, dot, exp);
    } else if peek(b, i) == Some('.') && !dot && !exp {
        if digit_at(b, i + 1) {
            lemma_number_rest(b, i + 1, true, exp);
        }
    } else if (peek(b, i) == Some('e') || peek(b, i) == Some('E')) && !exp {
        if peek(b, i + 1) == Some('+') || peek(b, i + 1) == Some('-') {
            lemma_number_rest(b, i + 2, dot, true);
        } else {
            lemma_number_rest(b, i + 1, dot, true);
        }
    }
}

/// Where the number that starts at `i` ends.
pub open spec fn number_end(b: Seq<u8>, i: int) -> int {
    if peek(b, i) == Some('-') {
        number_rest(b, i + 1, false, false)
    } else {
        number_rest(b, i, false, false)
    }
}

/// The token that a bare word makes: keywords count in any case, and `a`
/// stands for the type predicate.
pub open spec fn word_token(word: Seq<char>) -> TokenView {
    let upper = ascii_uppercase(word);
    if upper == "SELECT"@ {
        TokenView::Select
    } else if upper == "WHERE"@ {
        TokenView::Where
    } else if upper == "FILTER"@ {
        TokenView::Filter
    } else if upper == "LIMIT"@ {
        TokenView::Limit
    } else if upper == "A"@ {
        TokenView::Iri(rdf_type())
    } else {
        TokenView::Bareword(word)
    }
}

/// Whether the byte after `<` can start an IRI.
pub open spec fn starts_iri(c: char) -> bool {
    is_letter_or_number(c) || c == '/' || c == ':' || c == '#' || c == '_' || c == '-' || c == '~'
        || c == '%'
}

/// The token at a place that holds neither white space nor a comment, and the
/// place after it.
pub open spec fn token_at(b: Seq<u8>, i: int) -> Result<(TokenView, int), ErrorView> {
    let c = b[i] as char;
    if let Some(t) = punctuation(c) {
        Ok((t, i + 1))
    } else if c == '?' || c == '$' {
        match name_at(b, i + 1) {
            Err(x) => Err(x),
            Ok((name, j)) => if j == i + 1 {
                Err(syntax_error("expected variable name after '?'"@))
            } else {
                Ok((TokenView::Var(name), j))
            },
        }
    } else if c == '<' {
        match peek(b, i + 1) {
            Some(n) => if n == '=' {
                Ok((TokenView::Le, i + 2))
            } else if starts_iri(n) {
                match bracketed_at(b, i) {
                    Err(x) => Err(x),
                    Ok((iri, j)) => Ok((TokenView::Iri(iri), j)),
                }
            } else {
                Ok((TokenView::Lt, i + 1))
            },
            None => Ok((TokenView::Lt, i + 1)),
        }
    } else if c == '>' {
        if peek(b, i + 1) == Some('=') {
            Ok((TokenView::Ge, i + 2))
        } else {
            Ok((TokenView::Gt, i + 1))
        }
    } else if c == '!' {
        if peek(b, i + 1) == Some('=') {
            Ok((TokenView::Ne, i + 2))
        } else {
            Err(syntax_error("expected '!=' after '!'"@))
        }
    } else if c == '"' || c == '\'' {
        match quoted_at(b, i) {
            Err(x) => Err(x),
            Ok(((value, tag), j)) => Ok((TokenView::Literal(value, tag), j)),
        }
    } else if c == '_' && peek(b, i + 1) == Some(':') {
        match name_at(b, i + 2) {
            Err(x) => Err(x),
            Ok((label, j)) => Ok((TokenView::BlankNode(label), j)),
        }
    } else if is_digit(c) || (c == '-' && digit_at(b, i + 1)) {
        let j = number_end(b, i);
        Ok((TokenView::Number(latin_text(b.subrange(i, j))), j))
    } else if is_letter(c) || c == ':' {
        match name_at(b, i) {
            Err(x) => Err(x),
            Ok((word, j)) => Ok((word_token(word), j)),
        }
    } else {
        Err(unexpected_char(c))
    }
}

/// A token takes up at least one byte.
pub proof fn lemma_token_at(b: Seq<u8>, i: int)
    requires
        0 <= i < b.len(),
    ensures
        token_at(b, i) matches Ok((_, j)) ==> i < j <= b.len(),
{
    lemma_name_end(b, i);
    lemma_name_end(b, i + 1);
    if i + 2 <= b.len() {
        lemma_name_end(b, i + 2);
    }
    if i + 1 < b.len() {
        lemma_closing_end(b, i + 1);
    }
    lemma_quoted_rest(b, i + 1, b[i], seq![]);
    if let Ok((_, j)) = quoted_rest(b, i + 1, b[i], seq![]) {
        if j < b.len() {
            lemma_lang(b, j + 1);
        }
        if j + 2 < b.len() {
            lemma_closing_end(b, j + 3);
        }
    }
    lemma_number_rest(b, i, false, false);
    lemma_number_rest(b, i + 1, false, false);
    if is_letter(b[i] as char) || b[i] as char == ':' {
        if b[i] as char != '.' {
            assert(name_goes_on(b, i));
        }
    }
}

proof fn lemma_lang(b: Seq<u8>, i: int)
    requires
        0 <= i <= b.len(),
    ensures
        i <= lang_end(b, i) <= b.len(),
    decreases b.len() - i,
{
    if i < b.len() && (is_letter_or_number(b[i] as char) || b[i] as char == '-') {
        lemma_lang(b, i + 1);
    }
}


/// The tokens so far and those of the input from place `i` on.
pub open spec fn tokens_rest(b: Seq<u8>, i: int, acc: Seq<TokenView>) -> Result<
    Seq<TokenView>,
    ErrorView,
>
    decreases b.len() - i,
    when 0 <= i <= b.len()
{
    proof {
        lemma_skip_space_and_comments(b, i);
    }
    let j = skip_space_and_comments(b, i);
    if j >= b.len() {
        Ok(acc)
    } else {
        proof {
            lemma_token_at(b, j);
        }
        match token_at(b, j) {
            Err(x) => Err(x),
            Ok((t, k)) => tokens_rest(b, k, acc.push(t)),
        }
    }
}

/// How a token is shown in an error message.
pub open spec fn shown(t: TokenView) -> Seq<char> {
    match t {
        TokenView::LBrace => "LBrace"@,
        TokenView::RBrace => "RBrace"@,
        TokenView::LParen => "LParen"@,
        TokenView::RParen => "RParen"@,
        TokenView::Dot => "Dot"@,
        TokenView::Semi => "Semi"@,
        TokenView::Comma => "Comma"@,
        TokenView::Select => "Select"@,
        TokenView::Where => "Where"@,
        TokenView::Filter => "Filter"@,
        TokenView::Limit => "Limit"@,
        TokenView::Eq => "Eq"@,
        TokenView::Ne => "Ne"@,
        TokenView::Lt => "Lt"@,
        TokenView::Gt => "Gt"@,
        TokenView::Le => "Le"@,
        TokenView::Ge => "Ge"@,
        TokenView::Var(s) => "Var("@ + debug_text(s) + ")"@,
        TokenView::Iri(s) => "Iri("@ + debug_text(s) + ")"@,
        TokenView::Literal(s, None) => "Literal("@ + debug_text(s) + ", None)"@,
        TokenView::Literal(s, Some(t)) => "Literal("@ + debug_text(s) + ", Some("@ + debug_text(t)
            + "))"@,
        TokenView::BlankNode(s) => "BlankNode("@ + debug_text(s) + ")"@,
        TokenView::Number(s) => "Number("@ + debug_text(s) + ")"@,
        TokenView::Bareword(s) => "Bareword("@ + debug_text(s) + ")"@,
        TokenView::Star => "Star"@,
    }
}

fn around(name: &str, s: &str) -> (r: String)
    ensures
        r@ == name@ + debug_text(s@) + ")"@,
{
    let mut out: String = name.to_owned();
    let d: String = debug_of_text(s);
    out.append(d.as_str());
    out.append(")");
    out
}

/// Shows a token for an error message.
pub fn show(t: &Token) -> (r: String)
    ensures
        r@ == shown(t@),
{
    match t {
        Token::LBrace => "LBrace".to_owned(),
        Token::RBrace => "RBrace".to_owned(),
        Token::LParen => "LParen".to_owned(),
        Token::RParen => "RParen".to_owned(),
        Token::Dot => "Dot".to_owned(),
        Token::Semi => "Semi".to_owned(),
        Token::Comma => "Comma".to_owned(),
        Token::Select => "Select".to_owned(),
        Token::Where => "Where".to_owned(),
        Token::Filter => "Filter".to_owned(),
        Token::Limit => "Limit".to_owned(),
        Token::Eq => "Eq".to_owned(),
        Token::Ne => "Ne".to_owned(),
        Token::Lt => "Lt".to_owned(),
        Token::Gt => "Gt".to_owned(),
        Token::Le => "Le".to_owned(),
        Token::Ge => "Ge".to_owned(),
        Token::Var(s) => around("Var(", s.as_str()),
        Token::Iri(s) => around("Iri(", s.as_str()),
        Token::Literal(s, None) => {
            let mut out: String = "Literal(".to_owned();
            let d: String = debug_of_text(s.as_str());
            out.append(d.as_str());
            out.append(", None)");
            out
        },
        Token::Literal(s, Some(t)) => {
            let mut out: String = "Literal(".to_owned();
            let d: String = debug_of_text(s.as_str());
            out.append(d.as_str());
            out.append(", Some(");
            let e: String = debug_of_text(t.as_str());
            out.append(e.as_str());
            out.append("))");
            out
        },
        Token::BlankNode(s) => around("BlankNode(", s.as_str()),
        Token::Number(s) => around("Number(", s.as_str()),
        Token::Bareword(s) => around("Bareword(", s.as_str()),
        Token::Star => "Star".to_owned(),
    }
}

struct Tokenizer<'a> {
    input: &'a str,
    bytes: &'a [u8],
    pos: usize,
}

impl<'a> Tokenizer<'a> {
    spec fn wf(&self) -> bool {
        self.bytes@ == encode_utf8(self.input@) && self.pos <= self.bytes@.len() <= usize::MAX
    }

    spec fn same_input(&self, other: &Self) -> bool {
        self.input == other.input && self.bytes == other.bytes
    }

    fn new(input: &'a str) -> (res: Self)
        ensures
            res.wf(),
            res.pos == 0,
            res.bytes@ == encode_utf8(input@),
    {
        let bytes: &[u8] = input.as_bytes();
        let _len: usize = bytes.len();
        Tokenizer { input, bytes, pos: 0 }
    }

    /// The byte at a distance from the current place, as a character.
    fn ahead(&self, n: usize) -> (r: Option<char>)
        requires
            self.wf(),
        ensures
            r == peek(self.bytes@, self.pos + n),
    {
        if n < self.bytes.len() - self.pos {
            Some(self.bytes[self.pos + n] as char)
        } else {
            None
        }
    }

    fn ahead_is(&self, n: usize, c: char) -> (r: bool)
        requires
            self.wf(),
        ensures
            r == (peek(self.bytes@, self.pos + n) == Some(c)),
    {
        match self.ahead(n) {
            Some(x) => x == c,
            None => false,
        }
    }

    fn ahead_digit(&self, n: usize) -> (r: bool)
        requires
            self.wf(),
        ensures
            r == digit_at(self.bytes@, self.pos + n),
    {
        match self.ahead(n) {
            Some(x) => '0' <= x && x <= '9',
            None => false,
        }
    }

    fn skip_ws_and_comments(&mut self)
        requires
            old(self).wf(),
        ensures
            final(self).wf(),
            final(self).same_input(old(self)),
            final(self).pos == skip_space_and_comments(old(self).bytes@, old(self).pos as int),
            final(self).pos >= old(self).pos,
    {
        loop
            invariant_except_break
                skip_space_and_comments(self.bytes@, self.pos as int) == skip_space_and_comments(
                    old(self).bytes@,
                    old(self).pos as int,
                ),
            invariant
                self.wf(),
                self.same_input(old(self)),
                self.pos >= old(self).pos,
            ensures
                self.pos == skip_space_and_comments(old(self).bytes@, old(self).pos as int),
            decreases self.bytes@.len() - self.pos,
        {
            let ghost at = self.pos;
            while self.pos < self.bytes.len() && is_whitespace(self.bytes[self.pos] as char)
                invariant
                    self.wf(),
                    self.same_input(old(self)),
                    self.pos >= at,
                    skip_space(self.bytes@, self.pos as int) == skip_space(self.bytes@, at as int),
                decreases self.bytes@.len() - self.pos,
            {
                self.pos = self.pos + 1;
            }
            assert(self.pos == skip_space(self.bytes@, at as int));
            if self.ahead_is(0, '#') {
                let ghost from = self.pos;
                while self.pos < self.bytes.len() && self.bytes[self.pos] as char != '\n'
                    invariant
                        self.wf(),
                        self.same_input(old(self)),
                        self.pos >= from,
                        after_line(self.bytes@, self.pos as int) == after_line(
                            self.bytes@,
                            from as int,
                        ),
                    decreases self.bytes@.len() - self.pos,
                {
                    self.pos = self.pos + 1;
                }
                if self.pos < self.bytes.len() {
                    self.pos = self.pos + 1;
                }
                proof {
                    lemma_after_line(self.bytes@, from as int);
                    assert(self.pos == after_line(self.bytes@, from as int));
                }
            } else {
                break;
            }
        }
    }

    fn read_name(&mut self) -> (r: CenResult<String>)
        requires
            old(self).wf(),
        ensures
            final(self).wf(),
            final(self).same_input(old(self)),
            match (r, name_at(old(self).bytes@, old(self).pos as int)) {
                (Ok(s), Ok((v, j))) => s@ == v && final(self).pos == j,
                (Err(e), Err(x)) => e@ == x,
                _ => false,
            },
    {
        let start: usize = self.pos;
        while self.pos < self.bytes.len()
            invariant_except_break
                name_end(self.bytes@, self.pos as int) == name_end(self.bytes@, start as int),
            invariant
                self.wf(),
                self.same_input(old(self)),
                start <= self.pos,
            ensures
                self.pos == name_end(self.bytes@, start as int),
            decreases self.bytes@.len() - self.pos,
        {
            let c: char = self.bytes[self.pos] as char;
            if c == '.' {
                let ends: bool = match self.ahead(1) {
                    None => true,
                    Some(n) => is_whitespace(n) || n == '}',
                };
                if ends {
                    break;
                }
            } else if !(is_alphanumeric(c) || c == '_' || c == '-' || c == ':') {
                break;
            }
            self.pos = self.pos + 1;
        }
        if self.input.is_char_boundary(start) && self.input.is_char_boundary(self.pos) {
            Ok(slice_text(self.input, start, self.pos))
        } else {
            Err(CenError::syntax("name ends inside a character"))
        }
    }

    fn read_iri(&mut self) -> (r: CenResult<String>)
        requires
            old(self).wf(),
        ensures
            final(self).wf(),
            final(self).same_input(old(self)),
            match (r, bracketed_at(old(self).bytes@, old(self).pos as int)) {
                (Ok(s), Ok((v, j))) => s@ == v && final(self).pos == j,
                (Err(e), Err(x)) => e@ == x,
                _ => false,
            },
    {
        if self.pos < self.bytes.len() {
            self.pos = self.pos + 1;
        }
        let start: usize = self.pos;
        while self.pos < self.bytes.len() && self.bytes[self.pos] as char != '>'
            invariant
                self.wf(),
                self.same_input(old(self)),
                start <= self.pos,
                closing_end(self.bytes@, self.pos as int) == closing_end(
                    self.bytes@,
                    start as int,
                ),
            decreases self.bytes@.len() - self.pos,
        {
            self.pos = self.pos + 1;
        }
        if !self.input.is_char_boundary(start) {
            return Err(CenError::syntax("name ends inside a character"));
        }
        if self.pos >= self.bytes.len() {
            return Err(CenError::syntax("unterminated IRI"));
        }
        proof {
            encode_utf8_valid_utf8(self.input@);
            lemma_boundary_after_ascii(self.bytes@, self.pos as int);
        }
        let iri: String = slice_text(self.input, start, self.pos);
        self.pos = self.pos + 1;
        Ok(iri)
    }

    /// The bytes from `from` to the current place, one character each.
    fn latin_from(&self, from: usize) -> (r: String)
        requires
            self.wf(),
            from <= self.pos,
        ensures
            r@ == latin_text(self.bytes@.subrange(from as int, self.pos as int)),
    {
        let mut out: String = String::new();
        let mut i: usize = from;
        while i < self.pos
            invariant
                self.wf(),
                from <= i <= self.pos,
                out@ == latin_text(self.bytes@.subrange(from as int, i as int)),
            decreases self.pos - i,
        {
            out.push(self.bytes[i] as char);
            i = i + 1;
            assert(out@ =~= latin_text(self.bytes@.subrange(from as int, i as int)));
        }
        out
    }

    /// Reads up to four bytes as a hexadecimal number.
    fn read_hex(&mut self) -> (r: Option<u32>)
        requires
            old(self).wf(),
        ensures
            final(self).wf(),
            final(self).same_input(old(self)),
            final(self).pos == escape_end(old(self).bytes@, old(self).pos as int, 4),
            r is Some ==> is_char_boundary(final(self).bytes@, final(self).pos as int),
            ({
                let owed = hex_number(
                    latin_text(
                        old(self).bytes@.subrange(old(self).pos as int, final(self).pos as int),
                    ),
                );
                match r {
                    Some(v) => owed == Some(v as nat),
                    None => owed is None,
                }
            }),
    {
        let start: usize = self.pos;
        let end: usize = if self.bytes.len() - self.pos >= 4 {
            self.pos + 4
        } else {
            self.bytes.len()
        };
        let mut digits: Vec<char> = Vec::new();
        let mut i: usize = start;
        while i < end
            invariant
                self.wf(),
                start <= i <= end <= self.bytes@.len(),
                digits@ == latin_text(self.bytes@.subrange(start as int, i as int)),
            decreases end - i,
        {
            digits.push(self.bytes[i] as char);
            i = i + 1;
            assert(digits@ =~= latin_text(self.bytes@.subrange(start as int, i as int)));
        }
        self.pos = end;
        proof {
            encode_utf8_valid_utf8(self.input@);
            if hex_number(digits@) is Some {
                lemma_hex_last(digits@);
                assert(digits@.last() == self.bytes@[end - 1] as char);
                lemma_boundary_after_ascii(self.bytes@, end - 1);
            }
        }
        parse_hex(digits.as_slice())
    }

    fn read_literal(&mut self) -> (r: CenResult<(String, Option<String>)>)
        requires
            old(self).wf(),
            old(self).pos < old(self).bytes@.len(),
            old(self).bytes@[old(self).pos as int] < 128,
        ensures
            final(self).wf(),
            final(self).same_input(old(self)),
            match (r, quoted_at(old(self).bytes@, old(self).pos as int)) {
                (Ok((s, t)), Ok(((v, w), j))) => s@ == v && tag_view(t) == w && final(self).pos
                    == j,
                (Err(e), Err(x)) => e@ == x,
                _ => false,
            },
    {
        let quote: u8 = self.bytes[self.pos];
        self.pos = self.pos + 1;
        let ghost first = self.pos as int;
        proof {
            encode_utf8_valid_utf8(self.input@);
            lemma_boundary_after_ascii(self.bytes@, first - 1);
        }
        let mut value: String = String::new();
        loop
            invariant_except_break
                quoted_rest(self.bytes@, self.pos as int, quote, value@) == quoted_rest(
                    self.bytes@,
                    first,
                    quote,
                    seq![],
                ),
            invariant
                self.wf(),
                self.same_input(old(self)),
                old(self).pos < old(self).bytes@.len(),
                first == old(self).pos + 1,
                first <= self.pos,
                quote == old(self).bytes@[old(self).pos as int],
                quote < 128,
                valid_utf8(self.bytes@),
                is_char_boundary(self.bytes@, self.pos as int),
            ensures
                quoted_rest(self.bytes@, first, quote, seq![]) == Ok::<(Seq<char>, int), ErrorView>(
                    (value@, self.pos as int),
                ),
            decreases self.bytes@.len() - self.pos,
        {
            if self.pos >= self.bytes.len() {
                return Err(CenError::syntax("unterminated literal"));
            }
            let byte: u8 = self.bytes[self.pos];
            if byte >= 128 {
                let end: usize = find_start(self.bytes, self.pos + 1);
                proof {
                    lemma_next_start(self.bytes@, self.pos + 1);
                }
                let piece: String = slice_text(self.input, self.pos, end);
                value.append(piece.as_str());
                self.pos = end;
                continue;
            }
            proof {
                lemma_boundary_after_ascii(self.bytes@, self.pos as int);
            }
            self.pos = self.pos + 1;
            if byte == quote {
                break;
            }
            let c: char = byte as char;
            if c != '\\' {
                value.push(c);
                continue;
            }
            if self.pos >= self.bytes.len() {
                return Err(CenError::syntax("bad escape"));
            }
            let next: char = self.bytes[self.pos] as char;
            let at: usize = self.pos;
            self.pos = self.pos + 1;
            proof {
                if self.bytes@[at as int] < 128 {
                    lemma_boundary_after_ascii(self.bytes@, at as int);
                }
            }
            if next == '"' || next == '\'' || next == '\\' {
                value.push(next);
            } else if next == 'n' {
                value.push('\n');
            } else if next == 'r' {
                value.push('\r');
            } else if next == 't' {
                value.push('\t');
            } else if next == 'u' {
                match self.read_hex() {
                    Some(n) => {
                        if let Some(ch) = char::from_u32(n) {
                            value.push(ch);
                        }
                    },
                    None => {
                        proof {
                            lemma_next_start(self.bytes@, self.pos as int);
                        }
                        self.pos = find_start(self.bytes, self.pos);
                    },
                }
            } else {
                value.push('\\');
                self.pos = at;
            }
        }
        let tag: Option<String> = self.read_tag()?;
        Ok((value, tag))
    }

    fn read_tag(&mut self) -> (r: CenResult<Option<String>>)
        requires
            old(self).wf(),
        ensures
            final(self).wf(),
            final(self).same_input(old(self)),
            match (r, quoted_tag_at(old(self).bytes@, old(self).pos as int)) {
                (Ok(t), Ok((v, j))) => tag_view(t) == v && final(self).pos == j,
                (Err(e), Err(x)) => e@ == x,
                _ => false,
            },
    {
        if self.ahead_is(0, '@') {
            self.pos = self.pos + 1;
            let start: usize = self.pos;
            while self.pos < self.bytes.len()
                invariant_except_break
                    lang_end(self.bytes@, self.pos as int) == lang_end(self.bytes@, start as int),
                invariant
                    self.wf(),
                    self.same_input(old(self)),
                    start <= self.pos,
                ensures
                    self.pos == lang_end(self.bytes@, start as int),
                decreases self.bytes@.len() - self.pos,
            {
                let c: char = self.bytes[self.pos] as char;
                if !(is_alphanumeric(c) || c == '-') {
                    break;
                }
                self.pos = self.pos + 1;
            }
            let name: String = self.latin_from(start);
            let mut lang: String = String::new();
            lang.push('@');
            lang.append(name.as_str());
            assert(lang@ =~= seq!['@'] + name@);
            Ok(Some(lang))
        } else if self.ahead_is(0, '^') && self.ahead_is(1, '^') {
            self.pos = self.pos + 2;
            let iri: String = self.read_iri()?;
            Ok(Some(iri))
        } else {
            Ok(None)
        }
    }

    fn read_number(&mut self) -> (r: String)
        requires
            old(self).wf(),
        ensures
            final(self).wf(),
            final(self).same_input(old(self)),
            final(self).pos == number_end(old(self).bytes@, old(self).pos as int),
            r@ == latin_text(
                old(self).bytes@.subrange(old(self).pos as int, final(self).pos as int),
            ),
    {
        let start: usize = self.pos;
        let mut dot: bool = false;
        let mut exp: bool = false;
        if self.ahead_is(0, '-') {
            self.pos = self.pos + 1;
        }
        loop
            invariant_except_break
                number_rest(self.bytes@, self.pos as int, dot, exp) == number_end(
                    self.bytes@,
                    start as int,
                ),
            invariant
                self.wf(),
                self.same_input(old(self)),
                start <= self.pos,
            ensures
                self.pos == number_end(self.bytes@, start as int),
            decreases self.bytes@.len() - self.pos,
        {
            if self.ahead_digit(0) {
                self.pos = self.pos + 1;
            } else if self.ahead_is(0, '.') && !dot && !exp {
                if self.ahead_digit(1) {
                    dot = true;
                    self.pos = self.pos + 1;
                } else {
                    break;
                }
            } else if (self.ahead_is(0, 'e') || self.ahead_is(0, 'E')) && !exp {
                exp = true;
                self.pos = self.pos + 1;
                if self.ahead_is(0, '+') || self.ahead_is(0, '-') {
                    self.pos = self.pos + 1;
                }
            } else {
                break;
            }
        }
        self.latin_from(start)
    }

    /// Reads the token at the current place.
    fn read_token(&mut self) -> (r: CenResult<Token>)
        requires
            old(self).wf(),
            old(self).pos < old(self).bytes@.len(),
        ensures
            final(self).wf(),
            final(self).same_input(old(self)),
            match (r, token_at(old(self).bytes@, old(self).pos as int)) {
                (Ok(t), Ok((v, j))) => t@ == v && final(self).pos == j,
                (Err(e), Err(x)) => e@ == x,
                _ => false,
            },
    {
        let ghost b = self.bytes@;
        let ghost i = self.pos as int;
        let c: char = self.bytes[self.pos] as char;
        if let Some(t) = punctuation_token(c) {
            self.pos = self.pos + 1;
            return Ok(t);
        }
        if c == '?' || c == '$' {
            self.pos = self.pos + 1;
            let start: usize = self.pos;
            let name: String = self.read_name()?;
            if self.pos == start {
                return Err(CenError::syntax("expected variable name after '?'"));
            }
            return Ok(Token::Var(name));
        }
        if c == '<' {
            if self.ahead_is(1, '=') {
                self.pos = self.pos + 2;
                return Ok(Token::Le);
            }
            let iri_follows: bool = match self.ahead(1) {
                Some(n) => is_iri_start(n),
                None => false,
            };
            if iri_follows {
                let iri: String = self.read_iri()?;
                return Ok(Token::Iri(iri));
            }
            self.pos = self.pos + 1;
            return Ok(Token::Lt);
        }
        if c == '>' {
            if self.ahead_is(1, '=') {
                self.pos = self.pos + 2;
                return Ok(Token::Ge);
            }
            self.pos = self.pos + 1;
            return Ok(Token::Gt);
        }
        if c == '!' {
            if self.ahead_is(1, '=') {
                self.pos = self.pos + 2;
                return Ok(Token::Ne);
            }
            return Err(CenError::syntax("expected '!=' after '!'"));
        }
        if c == '"' || c == '\'' {
            let (value, tag) = self.read_literal()?;
            return Ok(Token::Literal(value, tag));
        }
        if c == '_' && self.ahead_is(1, ':') {
            self.pos = self.pos + 2;
            let label: String = self.read_name()?;
            return Ok(Token::BlankNode(label));
        }
        if ('0' <= c && c <= '9') || (c == '-' && self.ahead_digit(1)) {
            let n: String = self.read_number();
            return Ok(Token::Number(n));
        }
        if is_alphabetic(c) || c == ':' {
            let word: String = self.read_name()?;
            return Ok(keyword_token(word));
        }
        let mut message: String = "unexpected character '".to_owned();
        message.push(c);
        message.append("'");
        assert(message@ =~= unexpected_char(c).message);
        Err(CenError { status: CenStatus::ErrSyntax, message })
    }
}

fn punctuation_token(c: char) -> (r: Option<Token>)
    ensures
        match r {
            Some(t) => punctuation(c) == Some(t@),
            None => punctuation(c) is None,
        },
{
    if c == '{' {
        Some(Token::LBrace)
    } else if c == '}' {
        Some(Token::RBrace)
    } else if c == '(' {
        Some(Token::LParen)
    } else if c == ')' {
        Some(Token::RParen)
    } else if c == '.' {
        Some(Token::Dot)
    } else if c == ';' {
        Some(Token::Semi)
    } else if c == ',' {
        Some(Token::Comma)
    } else if c == '*' {
        Some(Token::Star)
    } else if c == '=' {
        Some(Token::Eq)
    } else {
        None
    }
}

fn is_iri_start(c: char) -> (r: bool)
    ensures
        r == starts_iri(c),
{
    is_alphanumeric(c) || c == '/' || c == ':' || c == '#' || c == '_' || c == '-' || c == '~' || c
        == '%'
}

fn keyword_token(word: String) -> (r: Token)
    ensures
        r@ == word_token(word@),
{
    let upper: String = upper_case(word.as_str());
    if same_text(upper.as_str(), "SELECT") {
        Token::Select
    } else if same_text(upper.as_str(), "WHERE") {
        Token::Where
    } else if same_text(upper.as_str(), "FILTER") {
        Token::Filter
    } else if same_text(upper.as_str(), "LIMIT") {
        Token::Limit
    } else if same_text(upper.as_str(), "A") {
        Token::Iri("http://www.w3.org/1999/02/22-rdf-syntax-ns#type".to_owned())
    } else {
        Token::Bareword(word)
    }
}

/// Splits a query into tokens.
pub fn tokenize(input: &str) -> (r: CenResult<Vec<Token>>)
    ensures
        match (r, tokens_rest(encode_utf8(input@), 0, seq![])) {
            (Ok(v), Ok(s)) => token_views(v@) == s,
            (Err(e), Err(x)) => e@ == x,
            _ => false,
        },
{
    let mut tk: Tokenizer = Tokenizer::new(input);
    let mut out: Vec<Token> = Vec::new();
    assert(token_views(out@) =~= seq![]);
    loop
        invariant_except_break
            tokens_rest(tk.bytes@, tk.pos as int, token_views(out@)) == tokens_rest(
                encode_utf8(input@),
                0,
                seq![],
            ),
        invariant
            tk.wf(),
            tk.bytes@ == encode_utf8(input@),
        ensures
            tokens_rest(encode_utf8(input@), 0, seq![]) == Ok::<Seq<TokenView>, ErrorView>(
                token_views(out@),
            ),
        decreases tk.bytes@.len() - tk.pos,
    {
        tk.skip_ws_and_comments();
        if tk.pos >= tk.bytes.len() {
            break;
        }
        proof {
            lemma_token_at(tk.bytes@, tk.pos as int);
        }
        let ghost before = out@;
        let t: Token = tk.read_token()?;
        let ghost tv = t@;
        out.push(t);
        assert(token_views(out@) =~= token_views(before).push(tv));
    }
    Ok(out)
}

} // verus!
