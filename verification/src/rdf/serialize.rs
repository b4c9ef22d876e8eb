//! RDF text formats: N-Triples and a basic subset of Turtle.
//!
//! The readers work on the UTF-8 bytes of their input. IRIs, labels and what
//! stands in literals are decoded; in prefixes, which only tell one another
//! apart, and in language tags every byte counts as one character.

use vstd::prelude::*;
use vstd::utf8::{encode_utf8, encode_utf8_valid_utf8, is_char_boundary, valid_utf8};

use crate::error::{syntax_error, CenError, CenResult, CenStatus, ErrorView};
use crate::rdf::store::{part, with_part, Position};
use crate::rdf::{tag_view, triple_views, RdfTerm, TermView, Triple, TripleView};
use crate::sequences::lemma_filter_push;
use crate::strmap::StrMap;
use crate::text::{
    char_at_byte, chars_of, debug_char, debug_of_char, decimal, decimal_string, first_char,
    hex_number, is_alphabetic, is_alphanumeric, is_letter, is_letter_or_number, is_space,
    is_whitespace, latin_text, lemma_boundary_after_ascii, lemma_boundary_at_end, lemma_hex_last,
    parse_hex, push_scalar, find_line_feed, lemma_line_feed, line_feed, slice_text, string_of,
    text_between, trim, trim_range,
};
use crate::utf8::{find_start, lemma_next_start, next_start};

verus! {

/// The IRI that the keyword `a` stands for.
pub open spec fn rdf_type() -> Seq<char> {
    "http://www.w3.org/1999/02/22-rdf-syntax-ns#type"@
}

// ---------------------------------------------------------------------------
// Writing terms
// ---------------------------------------------------------------------------
/// A character as it is written inside a literal.
pub open spec fn escaped_char(c: char) -> Seq<char> {
    if c == '"' {
        seq!['\\', '"']
    } else if c == '\\' {
        seq!['\\', '\\']
    } else if c == '\n' {
        seq!['\\', 'n']
    } else if c == '\r' {
        seq!['\\', 'r']
    } else if c == '\t' {
        seq!['\\', 't']
    } else {
        seq![c]
    }
}

/// A text as it is written inside a literal.
pub open spec fn escaped(s: Seq<char>) -> Seq<char>
    decreases s.len(),
{
    if s.len() == 0 {
        seq![]
    } else {
        escaped(s.drop_last()) + escaped_char(s.last())
    }
}

/// A term in N-Triples and Turtle syntax.
pub open spec fn formatted(t: TermView) -> Seq<char> {
    match t {
        TermView::Uri(s) => seq!['<'] + s + seq!['>'],
        TermView::BlankNode(s) => seq!['_', ':'] + s,
        TermView::Literal(v, None) => seq!['"'] + escaped(v) + seq!['"'],
        TermView::Literal(v, Some(tag)) => if tag.len() > 0 && tag[0] == '@' {
            seq!['"'] + escaped(v) + seq!['"'] + tag
        } else {
            seq!['"'] + escaped(v) + seq!['"', '^', '^', '<'] + tag + seq!['>']
        },
    }
}

fn push_escaped(out: &mut String, s: &str)
    ensures
        final(out)@ == old(out)@ + escaped(s@),
{
    let chars: Vec<char> = chars_of(s);
    let mut i: usize = 0;
    assert(escaped(chars@.take(0)) == Seq::<char>::empty());
    assert(out@ == old(out)@ + escaped(chars@.take(0)));
    while i < chars.len()
        invariant
            i <= chars@.len(),
            out@ == old(out)@ + escaped(chars@.take(i as int)),
        decreases chars@.len() - i,
    {
        let ghost before = out@;
        let c: char = chars[i];
        if c == '"' {
            out.push('\\');
            out.push('"');
        } else if c == '\\' {
            out.push('\\');
            out.push('\\');
        } else if c == '\n' {
            out.push('\\');
            out.push('n');
        } else if c == '\r' {
            out.push('\\');
            out.push('r');
        } else if c == '\t' {
            out.push('\\');
            out.push('t');
        } else {
            out.push(c);
        }
        proof {
            assert(out@ == before + escaped_char(c));
            assert(chars@.take(i + 1).drop_last() == chars@.take(i as int));
            assert(chars@.take(i + 1).last() == c);
            assert(out@ == old(out)@ + escaped(chars@.take(i + 1)));
        }
        i = i + 1;
    }
    assert(chars@.take(i as int) == s@);
}

/// Writes a term in N-Triples and Turtle syntax.
pub fn format_term(term: &RdfTerm) -> (r: String)
    ensures
        r@ == formatted(term@),
{
    let mut out: String = String::new();
    match term {
        RdfTerm::Uri(s) => {
            out.push('<');
            out.append(s.as_str());
            out.push('>');
        },
        RdfTerm::BlankNode(s) => {
            out.push('_');
            out.push(':');
            out.append(s.as_str());
        },
        RdfTerm::Literal(value, None) => {
            out.push('"');
            push_escaped(&mut out, value.as_str());
            out.push('"');
        },
        RdfTerm::Literal(value, Some(tag)) => {
            out.push('"');
            push_escaped(&mut out, value.as_str());
            out.push('"');
            let chars: Vec<char> = chars_of(tag.as_str());
            if chars.len() > 0 && chars[0] == '@' {
                out.append(tag.as_str());
            } else {
                out.push('^');
                out.push('^');
                out.push('<');
                out.append(tag.as_str());
                out.push('>');
            }
        },
    }
    assert(out@ =~= formatted(term@));
    out
}

// ---------------------------------------------------------------------------
// Reading: places in the input
// ---------------------------------------------------------------------------
/// The byte at a place as a character.
pub open spec fn peek(b: Seq<u8>, i: int) -> Option<char> {
    if 0 <= i < b.len() {
        Some(b[i] as char)
    } else {
        None
    }
}

/// The first place from `i` on without white space.
pub open spec fn skip_space(b: Seq<u8>, i: int) -> int
    decreases b.len() - i,
{
    if 0 <= i < b.len() && is_space(b[i] as char) {
        skip_space(b, i + 1)
    } else {
        i
    }
}

/// The place after the next line feed, or the end.
pub open spec fn after_line(b: Seq<u8>, i: int) -> int
    decreases b.len() - i,
{
    if 0 <= i < b.len() {
        if b[i] as char == '\n' {
            i + 1
        } else {
            after_line(b, i + 1)
        }
    } else {
        i
    }
}

/// Skipping white space stays within the input.
pub proof fn lemma_skip_space(b: Seq<u8>, i: int)
    requires
        0 <= i <= b.len(),
    ensures
        i <= skip_space(b, i) <= b.len(),
    decreases b.len() - i,
{
    if i < b.len() && is_space(b[i] as char) {
        lemma_skip_space(b, i + 1);
    }
}

/// A line ends within the input, after its start.
pub proof fn lemma_after_line(b: Seq<u8>, i: int)
    requires
        0 <= i <= b.len(),
    ensures
        i <= after_line(b, i) <= b.len(),
        i < b.len() ==> i < after_line(b, i),
    decreases b.len() - i,
{
    if i < b.len() && b[i] as char != '\n' {
        lemma_after_line(b, i + 1);
    }
}

/// The first place from `i` on that is neither white space nor inside a
/// comment.
pub open spec fn skip_space_and_comments(b: Seq<u8>, i: int) -> int
    decreases b.len() - i,
{
    if 0 <= i <= b.len() {
        proof {
            lemma_skip_space(b, i);
            lemma_after_line(b, skip_space(b, i));
        }
        let j = skip_space(b, i);
        if peek(b, j) == Some('#') {
            skip_space_and_comments(b, after_line(b, j))
        } else {
            j
        }
    } else {
        i
    }
}

/// Skipping white space and comments stays within the input.
pub proof fn lemma_skip_space_and_comments(b: Seq<u8>, i: int)
    requires
        0 <= i <= b.len(),
    ensures
        i <= skip_space_and_comments(b, i) <= b.len(),
    decreases b.len() - i,
{
    lemma_skip_space(b, i);
    let j = skip_space(b, i);
    lemma_after_line(b, j);
    if peek(b, j) == Some('#') {
        lemma_skip_space_and_comments(b, after_line(b, j));
    }
}

/// The error of finding another character than the expected one.
pub open spec fn expected(c: char, got: Option<char>) -> ErrorView {
    syntax_error("expected '"@ + seq![c] + "', got "@ + debug_char(got))
}

/// Whether a name can go on with the character.
pub open spec fn continues_keyword(c: char) -> bool {
    is_letter_or_number(c) || c == '_' || c == ':' || c == '-'
}

/// Whether a keyword stands at a place.
pub open spec fn keyword_at(b: Seq<u8>, i: int, kw: Seq<u8>) -> bool {
    let e = i + kw.len();
    &&& e <= b.len()
    &&& b.subrange(i, e) == kw
    &&& e < b.len() ==> !continues_keyword(b[e] as char)
}

/// Where the body of an IRI that goes on at `i` ends: before `>` or at the end
/// of the input. A backslash takes the next byte with it.
pub open spec fn iri_end(b: Seq<u8>, i: int) -> int
    decreases b.len() - i,
{
    if 0 <= i < b.len() {
        if b[i] as char == '>' {
            i
        } else if b[i] as char == '\\' {
            if i + 1 < b.len() {
                iri_end(b, i + 2)
            } else {
                b.len() as int
            }
        } else {
            iri_end(b, i + 1)
        }
    } else {
        i
    }
}

proof fn lemma_iri_end(b: Seq<u8>, i: int)
    requires
        0 <= i <= b.len(),
    ensures
        i <= iri_end(b, i) <= b.len(),
        iri_end(b, i) < b.len() ==> b[iri_end(b, i)] == 62u8,
    decreases b.len() - i,
{
    if i < b.len() {
        if b[i] as char == '>' {
        } else if b[i] as char == '\\' {
            if i + 1 < b.len() {
                lemma_iri_end(b, i + 2);
            }
        } else {
            lemma_iri_end(b, i + 1);
        }
    }
}

/// The IRI that stands at a place, and the place after it.
pub open spec fn iri_at(b: Seq<u8>, i: int) -> Result<(Seq<char>, int), ErrorView> {
    if peek(b, i) != Some('<') {
        Err(expected('<', peek(b, i)))
    } else {
        let e = iri_end(b, i + 1);
        if peek(b, e) != Some('>') {
            Err(expected('>', peek(b, e)))
        } else {
            Ok((text_between(b, i + 1, e), e + 1))
        }
    }
}

/// Whether a local name stops before the character.
pub open spec fn stops_name(c: char) -> bool {
    is_space(c) || c == '.' || c == ';' || c == ',' || c == ')' || c == '('
}

/// Where the local name that goes on at `i` ends.
pub open spec fn local_end(b: Seq<u8>, i: int) -> int
    decreases b.len() - i,
{
    if 0 <= i < b.len() && (b[i] >= 128 || !stops_name(b[i] as char)) {
        local_end(b, i + 1)
    } else {
        i
    }
}

proof fn lemma_local_end(b: Seq<u8>, i: int)
    requires
        0 <= i <= b.len(),
    ensures
        i <= local_end(b, i) <= b.len(),
        valid_utf8(b) ==> is_char_boundary(b, local_end(b, i)),
    decreases b.len() - i,
{
    if i < b.len() && (b[i] >= 128 || !stops_name(b[i] as char)) {
        lemma_local_end(b, i + 1);
    } else if valid_utf8(b) {
        if i < b.len() {
            lemma_boundary_after_ascii(b, i);
        } else {
            lemma_boundary_at_end(b);
        }
    }
}

/// The local name at a place, and the place after it.
pub open spec fn local_at(b: Seq<u8>, i: int) -> (Seq<char>, int) {
    (text_between(b, i, local_end(b, i)), local_end(b, i))
}

/// Where the prefix that goes on at `i` ends: before a colon, or at the end of
/// the input.
pub open spec fn prefix_end(b: Seq<u8>, i: int) -> Result<int, ErrorView>
    decreases b.len() - i,
{
    if 0 <= i < b.len() && b[i] as char != ':' {
        if stops_name(b[i] as char) {
            Err(syntax_error("expected ':' in prefixed name"@))
        } else {
            prefix_end(b, i + 1)
        }
    } else {
        Ok(i)
    }
}

proof fn lemma_prefix_end(b: Seq<u8>, i: int)
    requires
        0 <= i <= b.len(),
    ensures
        prefix_end(b, i) matches Ok(e) ==> i <= e <= b.len(),
    decreases b.len() - i,
{
    if i < b.len() && b[i] as char != ':' && !stops_name(b[i] as char) {
        lemma_prefix_end(b, i + 1);
    }
}

/// The prefix and local name at a place, and the place after them.
pub open spec fn prefixed_at(b: Seq<u8>, i: int) -> Result<
    ((Seq<char>, Seq<char>), int),
    ErrorView,
> {
    match prefix_end(b, i) {
        Err(x) => Err(x),
        Ok(e) => if peek(b, e) != Some(':') {
            Err(expected(':', peek(b, e)))
        } else {
            let (local, j) = local_at(b, e + 1);
            Ok(((latin_text(b.subrange(i, e)), local), j))
        },
    }
}

/// The blank node at a place, and the place after it.
pub open spec fn blank_at(b: Seq<u8>, i: int) -> Result<(TermView, int), ErrorView> {
    if peek(b, i) != Some('_') {
        Err(expected('_', peek(b, i)))
    } else if peek(b, i + 1) != Some(':') {
        Err(expected(':', peek(b, i + 1)))
    } else {
        let (label, j) = local_at(b, i + 2);
        Ok((TermView::BlankNode(label), j))
    }
}

/// The end of a numeric escape of at most `n` digits.
pub open spec fn escape_end(b: Seq<u8>, i: int, n: int) -> int {
    if i + n <= b.len() {
        i + n
    } else {
        b.len() as int
    }
}

/// The rest of a literal after what was read so far: its value and the place
/// after the closing quote. A backslash before any other character stands for
/// itself.
pub open spec fn literal_rest(b: Seq<u8>, i: int, quote: char, acc: Seq<char>) -> Result<
    (Seq<char>, int),
    ErrorView,
>
    decreases b.len() - i,
{
    if !(0 <= i < b.len()) {
        Err(syntax_error("unterminated literal"@))
    } else if b[i] as char == quote {
        Ok((acc, i + 1))
    } else if b[i] >= 128 {
        proof {
            lemma_next_start(b, i + 1);
        }
        let j = next_start(b, i + 1);
        literal_rest(b, j, quote, acc + text_between(b, i, j))
    } else if b[i] as char != '\\' {
        literal_rest(b, i + 1, quote, acc.push(b[i] as char))
    } else if i + 1 >= b.len() {
        Err(syntax_error("bad escape"@))
    } else {
        let c = b[i + 1] as char;
        if c == '"' || c == '\\' || c == '\'' {
            literal_rest(b, i + 2, quote, acc.push(c))
        } else if c == 'n' {
            literal_rest(b, i + 2, quote, acc.push('\n'))
        } else if c == 'r' {
            literal_rest(b, i + 2, quote, acc.push('\r'))
        } else if c == 't' {
            literal_rest(b, i + 2, quote, acc.push('\t'))
        } else if c == 'u' {
            let j = escape_end(b, i + 2, 4);
            match hex_number(latin_text(b.subrange(i + 2, j))) {
                None => Err(syntax_error("bad \\u escape"@)),
                Some(n) => literal_rest(b, j, quote, push_scalar(acc, n)),
            }
        } else if c == 'U' {
            let j = escape_end(b, i + 2, 8);
            match hex_number(latin_text(b.subrange(i + 2, j))) {
                None => Err(syntax_error("bad \\U escape"@)),
                Some(n) => literal_rest(b, j, quote, push_scalar(acc, n)),
            }
        } else {
            literal_rest(b, i + 1, quote, acc.push('\\'))
        }
    }
}

proof fn lemma_literal_rest(b: Seq<u8>, i: int, quote: char, acc: Seq<char>)
    requires
        0 <= i <= b.len(),
    ensures
        literal_rest(b, i, quote, acc) matches Ok((_, j)) ==> i < j <= b.len(),
    decreases b.len() - i,
{
    if i < b.len() && b[i] as char != quote {
        if b[i] >= 128 {
            let j = next_start(b, i + 1);
            lemma_next_start(b, i + 1);
            lemma_literal_rest(b, j, quote, acc + text_between(b, i, j));
        } else if b[i] as char != '\\' {
            lemma_literal_rest(b, i + 1, quote, acc.push(b[i] as char));
        } else if i + 1 < b.len() {
            let c = b[i + 1] as char;
            if c == '"' || c == '\\' || c == '\'' {
                lemma_literal_rest(b, i + 2, quote, acc.push(c));
            } else if c == 'n' {
                lemma_literal_rest(b, i + 2, quote, acc.push('\n'));
            } else if c == 'r' {
                lemma_literal_rest(b, i + 2, quote, acc.push('\r'));
            } else if c == 't' {
                lemma_literal_rest(b, i + 2, quote, acc.push('\t'));
            } else if c == 'u' || c == 'U' {
                let j = escape_end(b, i + 2, if c == 'u' { 4 } else { 8 });
                match hex_number(latin_text(b.subrange(i + 2, j))) {
                    None => {},
                    Some(n) => {
                        lemma_literal_rest(b, j, quote, push_scalar(acc, n));
                    },
                }
            } else {
                lemma_literal_rest(b, i + 1, quote, acc.push('\\'));
            }
        }
    }
}

/// Where a language tag that goes on at `i` ends.
pub open spec fn lang_end(b: Seq<u8>, i: int) -> int
    decreases b.len() - i,
{
    if 0 <= i < b.len() && (is_letter_or_number(b[i] as char) || b[i] as char == '-') {
        lang_end(b, i + 1)
    } else {
        i
    }
}

proof fn lemma_lang_end(b: Seq<u8>, i: int)
    requires
        0 <= i <= b.len(),
    ensures
        i <= lang_end(b, i) <= b.len(),
    decreases b.len() - i,
{
    if i < b.len() && (is_letter_or_number(b[i] as char) || b[i] as char == '-') {
        lemma_lang_end(b, i + 1);
    }
}

/// The language tag or datatype at a place, and the place after it.
pub open spec fn literal_tag_at(b: Seq<u8>, i: int) -> Result<(Option<Seq<char>>, int), ErrorView> {
    if peek(b, i) == Some('@') {
        let e = lang_end(b, i + 1);
        Ok((Some(seq!['@'] + latin_text(b.subrange(i + 1, e))), e))
    } else if peek(b, i) == Some('^') {
        if peek(b, i + 1) != Some('^') {
            Err(expected('^', peek(b, i + 1)))
        } else {
            match iri_at(b, i + 2) {
                Err(x) => Err(x),
                Ok((s, j)) => Ok((Some(s), j)),
            }
        }
    } else {
        Ok((None, i))
    }
}

/// The literal at a place, and the place after it.
pub open spec fn literal_at(b: Seq<u8>, i: int) -> Result<(TermView, int), ErrorView> {
    if !(0 <= i < b.len()) {
        Err(syntax_error("expected literal"@))
    } else {
        match literal_rest(b, i + 1, b[i] as char, seq![]) {
            Err(x) => Err(x),
            Ok((value, j)) => match literal_tag_at(b, j) {
                Err(x) => Err(x),
                Ok((tag, k)) => Ok((TermView::Literal(value, tag), k)),
            },
        }
    }
}

/// A found IRI as a term.
pub open spec fn uri_found(r: Result<(Seq<char>, int), ErrorView>) -> Result<
    (TermView, int),
    ErrorView,
> {
    match r {
        Err(x) => Err(x),
        Ok((s, j)) => Ok((TermView::Uri(s), j)),
    }
}

/// A found prefixed name, taken by its local part alone.
pub open spec fn local_found(
    r: Result<((Seq<char>, Seq<char>), int), ErrorView>,
) -> Result<(TermView, int), ErrorView> {
    match r {
        Err(x) => Err(x),
        Ok(((_, local), j)) => Ok((TermView::Uri(local), j)),
    }
}

/// Whether a name can start with the character.
pub open spec fn starts_name(c: Option<char>) -> bool {
    match c {
        Some(x) => is_letter(x) || x == ':',
        None => false,
    }
}

/// Whether the keyword `a` stands at a place: alone, or before white space.
pub open spec fn a_at(b: Seq<u8>, i: int) -> bool {
    peek(b, i) == Some('a') && (i + 1 == b.len() || match first_char(
        text_between(b, i + 1, b.len() as int),
    ) {
        Some(c) => is_space(c),
        None => false,
    })
}

/// The subject of an N-Triples line.
pub open spec fn subject_at(b: Seq<u8>, i: int) -> Result<(TermView, int), ErrorView> {
    let j = skip_space(b, i);
    if peek(b, j) == Some('<') {
        uri_found(iri_at(b, j))
    } else if peek(b, j) == Some('_') {
        blank_at(b, j)
    } else if starts_name(peek(b, j)) {
        local_found(prefixed_at(b, j))
    } else {
        Err(syntax_error("expected subject"@))
    }
}

/// The predicate of an N-Triples line.
pub open spec fn predicate_at(b: Seq<u8>, i: int) -> Result<(TermView, int), ErrorView> {
    let j = skip_space(b, i);
    if a_at(b, j) {
        Ok((TermView::Uri(rdf_type()), j + 1))
    } else if peek(b, j) == Some('<') {
        uri_found(iri_at(b, j))
    } else if starts_name(peek(b, j)) {
        local_found(prefixed_at(b, j))
    } else {
        Err(syntax_error("expected predicate"@))
    }
}

/// The object of an N-Triples line.
pub open spec fn object_at(b: Seq<u8>, i: int) -> Result<(TermView, int), ErrorView> {
    let j = skip_space(b, i);
    if peek(b, j) == Some('<') {
        uri_found(iri_at(b, j))
    } else if peek(b, j) == Some('_') {
        blank_at(b, j)
    } else if peek(b, j) == Some('"') || peek(b, j) == Some('\'') {
        literal_at(b, j)
    } else if starts_name(peek(b, j)) {
        local_found(prefixed_at(b, j))
    } else {
        Err(syntax_error("expected object"@))
    }
}

/// The triple of an N-Triples line.
pub open spec fn line_triple(b: Seq<u8>) -> Result<TripleView, ErrorView> {
    match subject_at(b, skip_space(b, 0)) {
        Err(x) => Err(x),
        Ok((subject, i)) => match predicate_at(b, skip_space(b, i)) {
            Err(x) => Err(x),
            Ok((predicate, j)) => match object_at(b, skip_space(b, j)) {
                Err(x) => Err(x),
                Ok((object, k)) => {
                    let m = skip_space(b, k);
                    if peek(b, m) != Some('.') {
                        Err(expected('.', peek(b, m)))
                    } else {
                        Ok(TripleView { subject, predicate, object })
                    }
                },
            },
        },
    }
}

// ---------------------------------------------------------------------------
// Reading: the parser
// ---------------------------------------------------------------------------
/// Whether a reader returned the text that was owed and stopped where it
/// should.
pub open spec fn text_agrees(
    r: CenResult<String>,
    at: int,
    owed: Result<(Seq<char>, int), ErrorView>,
) -> bool {
    match (r, owed) {
        (Ok(s), Ok((v, j))) => s@ == v && at == j,
        (Err(e), Err(x)) => e@ == x,
        _ => false,
    }
}

/// Whether a reader returned the term that was owed and stopped where it
/// should.
pub open spec fn term_agrees(
    r: CenResult<RdfTerm>,
    at: int,
    owed: Result<(TermView, int), ErrorView>,
) -> bool {
    match (r, owed) {
        (Ok(s), Ok((v, j))) => s@ == v && at == j,
        (Err(e), Err(x)) => e@ == x,
        _ => false,
    }
}

struct Parser<'a> {
    input: &'a str,
    bytes: &'a [u8],
    pos: usize,
}

impl<'a> Parser<'a> {
    spec fn wf(&self) -> bool {
        self.bytes@ == encode_utf8(self.input@) && self.pos <= self.bytes@.len() <= usize::MAX
    }

    fn new(input: &'a str) -> (res: Self)
        ensures
            res.wf(),
            res.pos == 0,
            res.bytes@ == encode_utf8(input@),
            res.input@ == input@,
    {
        let bytes: &[u8] = input.as_bytes();
        let _len: usize = bytes.len();
        Parser { input, bytes, pos: 0 }
    }

    fn is_eof(&self) -> (r: bool)
        ensures
            r == (self.pos >= self.bytes@.len()),
    {
        self.pos >= self.bytes.len()
    }

    fn peek_char(&self) -> (r: Option<char>)
        ensures
            r == peek(self.bytes@, self.pos as int),
    {
        if self.pos < self.bytes.len() {
            Some(self.bytes[self.pos] as char)
        } else {
            None
        }
    }

    fn expect_char(&mut self, c: char) -> (r: CenResult<()>)
        requires
            old(self).wf(),
        ensures
            final(self).wf(),
            final(self).input == old(self).input,
            final(self).bytes == old(self).bytes,
            r is Ok <==> peek(old(self).bytes@, old(self).pos as int) == Some(c),
            match r {
                Ok(_) => final(self).pos == old(self).pos + 1,
                Err(e) => e@ == expected(c, peek(old(self).bytes@, old(self).pos as int)),
            },
    {
        let got: Option<char> = self.peek_char();
        match got {
            Some(x) => {
                if x == c {
                    self.pos = self.pos + 1;
                    return Ok(());
                }
            },
            None => {},
        }
        let mut message: String = "expected '".to_owned();
        message.push(c);
        message.append("', got ");
        let shown: String = debug_of_char(got);
        message.append(shown.as_str());
        assert(message@ == "expected '"@ + seq![c] + "', got "@ + debug_char(got));
        Err(CenError { status: CenStatus::ErrSyntax, message })
    }

    fn skip_ws(&mut self)
        requires
            old(self).wf(),
        ensures
            final(self).wf(),
            final(self).input == old(self).input,
            final(self).bytes == old(self).bytes,
            final(self).pos == skip_space(old(self).bytes@, old(self).pos as int),
            final(self).pos >= old(self).pos,
    {
        while self.pos < self.bytes.len()
            invariant
                self.wf(),
                self.input == old(self).input,
                self.bytes == old(self).bytes,
                self.pos >= old(self).pos,
                skip_space(self.bytes@, self.pos as int) == skip_space(
                    old(self).bytes@,
                    old(self).pos as int,
                ),
            ensures
                self.wf(),
                self.input == old(self).input,
                self.bytes == old(self).bytes,
                self.pos >= old(self).pos,
                self.pos == skip_space(old(self).bytes@, old(self).pos as int),
            decreases self.bytes@.len() - self.pos,
        {
            if !is_whitespace(self.bytes[self.pos] as char) {
                break;
            }
            self.pos = self.pos + 1;
        }
    }

    fn skip_ws_and_comments(&mut self)
        requires
            old(self).wf(),
        ensures
            final(self).wf(),
            final(self).input == old(self).input,
            final(self).bytes == old(self).bytes,
            final(self).pos == skip_space_and_comments(old(self).bytes@, old(self).pos as int),
            final(self).pos >= old(self).pos,
    {
        loop
            invariant_except_break
                skip_space_and_comments(self.bytes@, self.pos as int) == skip_space_and_comments(
                    old(self).bytes@,
                    old(self).pos as int,
                ),
            invariant
                self.wf(),
                self.input == old(self).input,
                self.bytes == old(self).bytes,
                self.pos >= old(self).pos,
            ensures
                self.pos == skip_space_and_comments(old(self).bytes@, old(self).pos as int),
            decreases self.bytes@.len() - self.pos,
        {
            self.skip_ws();
            if self.pos < self.bytes.len() && self.bytes[self.pos] as char == '#' {
                let ghost from = self.pos;
                assert(self.bytes@[self.pos as int] as char == '#');
                while self.pos < self.bytes.len() && self.bytes[self.pos] as char != '\n'
                    invariant
                        self.wf(),
                        self.input == old(self).input,
                        self.bytes == old(self).bytes,
                        self.pos >= from,
                        after_line(self.bytes@, self.pos as int) == after_line(
                            self.bytes@,
                            from as int,
                        ),
                    decreases self.bytes@.len() - self.pos,
                {
                    self.pos = self.pos + 1;
                }
                if self.pos < self.bytes.len() {
                    self.pos = self.pos + 1;
                }
                proof {
                    lemma_after_line(self.bytes@, from as int);
                    assert(self.pos == after_line(self.bytes@, from as int));
                }
            } else {
                break;
            }
        }
    }

    fn peek_keyword(&self, kw: &str) -> (r: bool)
        requires
            self.wf(),
        ensures
            r == keyword_at(self.bytes@, self.pos as int, encode_utf8(kw@)),
    {
        let kb: &[u8] = kw.as_bytes();
        if kb.len() > self.bytes.len() - self.pos {
            return false;
        }
        let ghost here = self.bytes@.subrange(self.pos as int, self.pos + kb@.len());
        let mut k: usize = 0;
        while k < kb.len()
            invariant
                self.wf(),
                k <= kb@.len(),
                self.pos + kb@.len() <= self.bytes@.len(),
                here == self.bytes@.subrange(self.pos as int, self.pos + kb@.len()),
                kb@ == encode_utf8(kw@),
                forall|j: int| 0 <= j < k ==> here[j] == kb@[j],
            decreases kb@.len() - k,
        {
            if self.bytes[self.pos + k] != kb[k] {
                assert(here[k as int] != kb@[k as int]);
                return false;
            }
            k = k + 1;
        }
        assert(here =~= kb@);
        let e: usize = self.pos + kb.len();
        if e < self.bytes.len() {
            let n: char = self.bytes[e] as char;
            if is_alphanumeric(n) || n == '_' || n == ':' || n == '-' {
                return false;
            }
        }
        true
    }

    fn parse_iri(&mut self) -> (r: CenResult<String>)
        requires
            old(self).wf(),
        ensures
            final(self).wf(),
            final(self).input == old(self).input,
            final(self).bytes == old(self).bytes,
            text_agrees(r, final(self).pos as int, iri_at(old(self).bytes@, old(self).pos as int)),
            r is Ok ==> final(self).pos > old(self).pos,
    {
        let ghost b = self.bytes@;
        self.expect_char('<')?;
        let start: usize = self.pos;
        while self.pos < self.bytes.len() && self.bytes[self.pos] as char != '>'
            invariant
                self.wf(),
                self.input == old(self).input,
                self.bytes == old(self).bytes,
                start <= self.pos,
                iri_end(self.bytes@, self.pos as int) == iri_end(self.bytes@, start as int),
            decreases self.bytes@.len() - self.pos,
        {
            if self.bytes[self.pos] as char == '\\' {
                if self.bytes.len() - self.pos >= 2 {
                    self.pos = self.pos + 2;
                } else {
                    self.pos = self.pos + 1;
                }
            } else {
                self.pos = self.pos + 1;
            }
        }
        proof {
            encode_utf8_valid_utf8(self.input@);
            assert(b[start - 1] as char == '<');
            lemma_boundary_after_ascii(b, start - 1);
            if self.pos < b.len() {
                lemma_boundary_after_ascii(b, self.pos as int);
            } else {
                lemma_boundary_at_end(b);
            }
        }
        let iri: String = slice_text(self.input, start, self.pos);
        self.expect_char('>')?;
        Ok(iri)
    }

    /// The bytes from `from` to the current place, one character each.
    fn latin_from(&self, from: usize) -> (r: String)
        requires
            self.wf(),
            from <= self.pos,
        ensures
            r@ == latin_text(self.bytes@.subrange(from as int, self.pos as int)),
    {
        let mut out: String = String::new();
        let mut i: usize = from;
        while i < self.pos
            invariant
                self.wf(),
                from <= i <= self.pos,
                out@ == latin_text(self.bytes@.subrange(from as int, i as int)),
            decreases self.pos - i,
        {
            out.push(self.bytes[i] as char);
            i = i + 1;
            assert(out@ =~= latin_text(self.bytes@.subrange(from as int, i as int)));
        }
        out
    }

    fn parse_pname_local(&mut self) -> (r: String)
        requires
            old(self).wf(),
            is_char_boundary(old(self).bytes@, old(self).pos as int),
        ensures
            final(self).wf(),
            final(self).input == old(self).input,
            final(self).bytes == old(self).bytes,
            (r@, final(self).pos as int) == local_at(old(self).bytes@, old(self).pos as int),
            final(self).pos >= old(self).pos,
    {
        let start: usize = self.pos;
        while self.pos < self.bytes.len()
            invariant_except_break
                local_end(self.bytes@, self.pos as int) == local_end(self.bytes@, start as int),
            invariant
                self.wf(),
                self.input == old(self).input,
                self.bytes == old(self).bytes,
                start == old(self).pos,
                start <= self.pos,
            ensures
                self.pos == local_end(self.bytes@, start as int),
            decreases self.bytes@.len() - self.pos,
        {
            let c: char = self.bytes[self.pos] as char;
            if self.bytes[self.pos] < 128 && (is_whitespace(c) || c == '.' || c == ';' || c == ',' || c == ')' || c == '(') {
                break;
            }
            self.pos = self.pos + 1;
        }
        proof {
            encode_utf8_valid_utf8(self.input@);
            lemma_local_end(self.bytes@, start as int);
        }
        slice_text(self.input, start, self.pos)
    }

    fn parse_prefixed_name(&mut self) -> (r: CenResult<(String, String)>)
        requires
            old(self).wf(),
        ensures
            final(self).wf(),
            final(self).input == old(self).input,
            final(self).bytes == old(self).bytes,
            match (r, prefixed_at(old(self).bytes@, old(self).pos as int)) {
                (Ok((p, l)), Ok(((pv, lv), j))) => p@ == pv && l@ == lv && final(self).pos == j,
                (Err(e), Err(x)) => e@ == x,
                _ => false,
            },
            r is Ok ==> final(self).pos > old(self).pos,
    {
        let start: usize = self.pos;
        while self.pos < self.bytes.len() && self.bytes[self.pos] as char != ':'
            invariant
                self.wf(),
                self.input == old(self).input,
                self.bytes == old(self).bytes,
                start == old(self).pos,
                start <= self.pos,
                prefix_end(self.bytes@, self.pos as int) == prefix_end(self.bytes@, start as int),
            decreases self.bytes@.len() - self.pos,
        {
            let c: char = self.bytes[self.pos] as char;
            if is_whitespace(c) || c == '.' || c == ';' || c == ',' || c == '(' || c == ')' {
                return Err(CenError::syntax("expected ':' in prefixed name"));
            }
            self.pos = self.pos + 1;
        }
        let prefix: String = self.latin_from(start);
        self.expect_char(':')?;
        proof {
            encode_utf8_valid_utf8(self.input@);
            lemma_boundary_after_ascii(self.bytes@, self.pos - 1);
        }
        let local: String = self.parse_pname_local();
        Ok((prefix, local))
    }

    /// Reads the value of a numeric escape of at most `n` digits.
    fn hex_escape(&mut self, n: usize) -> (r: Option<u32>)
        requires
            old(self).wf(),
            n <= 8,
        ensures
            final(self).wf(),
            final(self).input == old(self).input,
            final(self).bytes == old(self).bytes,
            final(self).pos == escape_end(old(self).bytes@, old(self).pos as int, n as int),
            r is Some ==> is_char_boundary(final(self).bytes@, final(self).pos as int),
            match r {
                Some(v) => hex_number(
                    latin_text(
                        old(self).bytes@.subrange(old(self).pos as int, final(self).pos as int),
                    ),
                ) == Some(v as nat),
                None => hex_number(
                    latin_text(
                        old(self).bytes@.subrange(old(self).pos as int, final(self).pos as int),
                    ),
                ) is None,
            },
    {
        let start: usize = self.pos;
        let end: usize = if self.bytes.len() - self.pos >= n {
            self.pos + n
        } else {
            self.bytes.len()
        };
        let mut digits: Vec<char> = Vec::new();
        let mut i: usize = start;
        while i < end
            invariant
                self.wf(),
                start <= i <= end <= self.bytes@.len(),
                digits@ == latin_text(self.bytes@.subrange(start as int, i as int)),
            decreases end - i,
        {
            digits.push(self.bytes[i] as char);
            i = i + 1;
            assert(digits@ =~= latin_text(self.bytes@.subrange(start as int, i as int)));
        }
        self.pos = end;
        proof {
            encode_utf8_valid_utf8(self.input@);
            if hex_number(digits@) is Some {
                lemma_hex_last(digits@);
                assert(digits@.last() == self.bytes@[end - 1] as char);
                lemma_boundary_after_ascii(self.bytes@, end - 1);
            }
        }
        parse_hex(digits.as_slice())
    }

    fn parse_literal(&mut self) -> (r: CenResult<RdfTerm>)
        requires
            old(self).wf(),
            old(self).pos < old(self).bytes@.len() ==> old(self).bytes@[old(self).pos as int]
                < 128,
        ensures
            final(self).wf(),
            final(self).input == old(self).input,
            final(self).bytes == old(self).bytes,
            term_agrees(
                r,
                final(self).pos as int,
                literal_at(old(self).bytes@, old(self).pos as int),
            ),
            r is Ok ==> final(self).pos > old(self).pos,
    {
        if self.pos >= self.bytes.len() {
            return Err(CenError::syntax("expected literal"));
        }
        let quote: char = self.bytes[self.pos] as char;
        self.pos = self.pos + 1;
        let ghost first = self.pos as int;
        proof {
            encode_utf8_valid_utf8(self.input@);
            lemma_boundary_after_ascii(self.bytes@, first - 1);
        }
        let mut value: String = String::new();
        loop
            invariant_except_break
                literal_rest(self.bytes@, self.pos as int, quote, value@) == literal_rest(
                    self.bytes@,
                    first,
                    quote,
                    seq![],
                ),
            invariant
                self.wf(),
                self.input == old(self).input,
                self.bytes == old(self).bytes,
                old(self).pos < old(self).bytes@.len(),
                first == old(self).pos + 1,
                first <= self.pos,
                quote == old(self).bytes@[old(self).pos as int] as char,
                old(self).bytes@[old(self).pos as int] < 128,
                valid_utf8(self.bytes@),
                is_char_boundary(self.bytes@, self.pos as int),
            ensures
                literal_rest(self.bytes@, first, quote, seq![]) == Ok::<(Seq<char>, int), ErrorView>(
                    (value@, self.pos as int),
                ),
            decreases self.bytes@.len() - self.pos,
        {
            if self.pos >= self.bytes.len() {
                return Err(CenError::syntax("unterminated literal"));
            }
            let c: char = self.bytes[self.pos] as char;
            if c != quote && self.bytes[self.pos] >= 128 {
                let end: usize = find_start(self.bytes, self.pos + 1);
                proof {
                    lemma_next_start(self.bytes@, self.pos + 1);
                }
                let piece: String = slice_text(self.input, self.pos, end);
                value.append(piece.as_str());
                self.pos = end;
                continue;
            }
            proof {
                lemma_boundary_after_ascii(self.bytes@, self.pos as int);
            }
            self.pos = self.pos + 1;
            if c == quote {
                break;
            }
            if c != '\\' {
                value.push(c);
                continue;
            }
            if self.pos >= self.bytes.len() {
                return Err(CenError::syntax("bad escape"));
            }
            let next: char = self.bytes[self.pos] as char;
            let at: usize = self.pos;
            self.pos = self.pos + 1;
            proof {
                if self.bytes@[at as int] < 128 {
                    lemma_boundary_after_ascii(self.bytes@, at as int);
                }
            }
            if next == '"' || next == '\\' || next == '\'' {
                value.push(next);
            } else if next == 'n' {
                value.push('\n');
            } else if next == 'r' {
                value.push('\r');
            } else if next == 't' {
                value.push('\t');
            } else if next == 'u' {
                match self.hex_escape(4) {
                    None => {
                        return Err(CenError::syntax("bad \\u escape"));
                    },
                    Some(n) => {
                        if let Some(ch) = char::from_u32(n) {
                            value.push(ch);
                        }
                    },
                }
            } else if next == 'U' {
                match self.hex_escape(8) {
                    None => {
                        return Err(CenError::syntax("bad \\U escape"));
                    },
                    Some(n) => {
                        if let Some(ch) = char::from_u32(n) {
                            value.push(ch);
                        }
                    },
                }
            } else {
                value.push('\\');
                self.pos = at;
            }
        }
        let tag: Option<String> = self.parse_literal_tag()?;
        Ok(RdfTerm::Literal(value, tag))
    }

    fn parse_literal_tag(&mut self) -> (r: CenResult<Option<String>>)
        requires
            old(self).wf(),
        ensures
            final(self).wf(),
            final(self).input == old(self).input,
            final(self).bytes == old(self).bytes,
            match (r, literal_tag_at(old(self).bytes@, old(self).pos as int)) {
                (Ok(t), Ok((v, j))) => tag_view(t) == v && final(self).pos == j,
                (Err(e), Err(x)) => e@ == x,
                _ => false,
            },
            r is Ok ==> final(self).pos >= old(self).pos,
    {
        if self.pos < self.bytes.len() && self.bytes[self.pos] as char == '@' {
            self.pos = self.pos + 1;
            let start: usize = self.pos;
            while self.pos < self.bytes.len()
                invariant_except_break
                    lang_end(self.bytes@, self.pos as int) == lang_end(self.bytes@, start as int),
                invariant
                    self.wf(),
                    self.input == old(self).input,
                    self.bytes == old(self).bytes,
                    start <= self.pos,
                ensures
                    self.pos == lang_end(self.bytes@, start as int),
                decreases self.bytes@.len() - self.pos,
            {
                let c: char = self.bytes[self.pos] as char;
                if !(is_alphanumeric(c) || c == '-') {
                    break;
                }
                self.pos = self.pos + 1;
            }
            let name: String = self.latin_from(start);
            let mut lang: String = String::new();
            lang.push('@');
            lang.append(name.as_str());
            assert(lang@ =~= seq!['@'] + name@);
            Ok(Some(lang))
        } else if self.pos < self.bytes.len() && self.bytes[self.pos] as char == '^' {
            self.pos = self.pos + 1;
            self.expect_char('^')?;
            let iri: String = self.parse_iri()?;
            Ok(Some(iri))
        } else {
            Ok(None)
        }
    }

    fn parse_blank(&mut self) -> (r: CenResult<RdfTerm>)
        requires
            old(self).wf(),
        ensures
            final(self).wf(),
            final(self).input == old(self).input,
            final(self).bytes == old(self).bytes,
            term_agrees(r, final(self).pos as int, blank_at(old(self).bytes@, old(self).pos as int)),
            r is Ok ==> final(self).pos > old(self).pos,
    {
        self.expect_char('_')?;
        self.expect_char(':')?;
        proof {
            encode_utf8_valid_utf8(self.input@);
            lemma_boundary_after_ascii(self.bytes@, self.pos - 1);
        }
        let label: String = self.parse_pname_local();
        Ok(RdfTerm::BlankNode(label))
    }

    fn parse_uri(&mut self) -> (r: CenResult<RdfTerm>)
        requires
            old(self).wf(),
        ensures
            final(self).wf(),
            final(self).input == old(self).input,
            final(self).bytes == old(self).bytes,
            term_agrees(
                r,
                final(self).pos as int,
                uri_found(iri_at(old(self).bytes@, old(self).pos as int)),
            ),
            r is Ok ==> final(self).pos > old(self).pos,
    {
        let iri: String = self.parse_iri()?;
        Ok(RdfTerm::Uri(iri))
    }

    fn parse_local(&mut self) -> (r: CenResult<RdfTerm>)
        requires
            old(self).wf(),
        ensures
            final(self).wf(),
            final(self).input == old(self).input,
            final(self).bytes == old(self).bytes,
            term_agrees(
                r,
                final(self).pos as int,
                local_found(prefixed_at(old(self).bytes@, old(self).pos as int)),
            ),
            r is Ok ==> final(self).pos > old(self).pos,
    {
        let (_prefix, local) = self.parse_prefixed_name()?;
        Ok(RdfTerm::Uri(local))
    }

    fn name_starts(&self) -> (r: bool)
        ensures
            r == starts_name(peek(self.bytes@, self.pos as int)),
    {
        match self.peek_char() {
            Some(c) => is_alphabetic(c) || c == ':',
            None => false,
        }
    }

    fn at_char(&self, c: char) -> (r: bool)
        ensures
            r == (peek(self.bytes@, self.pos as int) == Some(c)),
    {
        match self.peek_char() {
            Some(x) => x == c,
            None => false,
        }
    }

    fn at_a(&self) -> (r: bool)
        requires
            self.wf(),
        ensures
            r == a_at(self.bytes@, self.pos as int),
    {
        if !self.at_char('a') {
            return false;
        }
        let next: usize = self.pos + 1;
        if next == self.bytes.len() {
            return true;
        }
        proof {
            encode_utf8_valid_utf8(self.input@);
            lemma_boundary_after_ascii(self.bytes@, self.pos as int);
        }
        match char_at_byte(self.input, next) {
            Some(c) => is_whitespace(c),
            None => false,
        }
    }

    fn parse_subject(&mut self) -> (r: CenResult<RdfTerm>)
        requires
            old(self).wf(),
        ensures
            final(self).wf(),
            final(self).input == old(self).input,
            final(self).bytes == old(self).bytes,
            term_agrees(
                r,
                final(self).pos as int,
                subject_at(old(self).bytes@, old(self).pos as int),
            ),
    {
        self.skip_ws();
        if self.at_char('<') {
            self.parse_uri()
        } else if self.at_char('_') {
            self.parse_blank()
        } else if self.name_starts() {
            self.parse_local()
        } else {
            Err(CenError::syntax("expected subject"))
        }
    }

    fn parse_iri_or_a(&mut self) -> (r: CenResult<RdfTerm>)
        requires
            old(self).wf(),
        ensures
            final(self).wf(),
            final(self).input == old(self).input,
            final(self).bytes == old(self).bytes,
            term_agrees(
                r,
                final(self).pos as int,
                predicate_at(old(self).bytes@, old(self).pos as int),
            ),
    {
        self.skip_ws();
        if self.at_a() {
            self.pos = self.pos + 1;
            Ok(RdfTerm::Uri("http://www.w3.org/1999/02/22-rdf-syntax-ns#type".to_owned()))
        } else if self.at_char('<') {
            self.parse_uri()
        } else if self.name_starts() {
            self.parse_local()
        } else {
            Err(CenError::syntax("expected predicate"))
        }
    }

    fn parse_object(&mut self) -> (r: CenResult<RdfTerm>)
        requires
            old(self).wf(),
        ensures
            final(self).wf(),
            final(self).input == old(self).input,
            final(self).bytes == old(self).bytes,
            term_agrees(r, final(self).pos as int, object_at(old(self).bytes@, old(self).pos as int)),
    {
        self.skip_ws();
        if self.at_char('<') {
            self.parse_uri()
        } else if self.at_char('_') {
            self.parse_blank()
        } else if self.at_char('"') || self.at_char('\'') {
            self.parse_literal()
        } else if self.name_starts() {
            self.parse_local()
        } else {
            Err(CenError::syntax("expected object"))
        }
    }
}

// ---------------------------------------------------------------------------
// N-Triples
// ---------------------------------------------------------------------------
fn parse_ntriples_line(line: &str) -> (r: CenResult<Triple>)
    ensures
        match (r, line_triple(encode_utf8(line@))) {
            (Ok(t), Ok(v)) => t@ == v,
            (Err(e), Err(x)) => e@ == x,
            _ => false,
        },
{
    let mut p: Parser = Parser::new(line);
    p.skip_ws();
    let subject: RdfTerm = p.parse_subject()?;
    p.skip_ws();
    let predicate: RdfTerm = p.parse_iri_or_a()?;
    p.skip_ws();
    let object: RdfTerm = p.parse_object()?;
    p.skip_ws();
    p.expect_char('.')?;
    Ok(Triple::new(subject, predicate, object))
}


/// The error of a line, with the line's number in front.
pub open spec fn line_error(number: nat, x: ErrorView) -> ErrorView {
    syntax_error("line "@ + decimal(number) + ": "@ + x.message)
}

/// The triples of the lines from place `i` on, after those read so far. Lines
/// are trimmed; an empty line and one that starts with `#` hold no triple.
pub open spec fn ntriples_rest(s: Seq<char>, i: int, number: nat, acc: Seq<TripleView>) -> Result<
    Seq<TripleView>,
    ErrorView,
>
    decreases s.len() - i,
{
    if !(0 <= i < s.len()) {
        Ok(acc)
    } else {
        proof {
            lemma_line_feed(s, i);
        }
        let e = line_feed(s, i);
        let line = trim(s.subrange(i, e));
        let next = if e < s.len() {
            e + 1
        } else {
            e
        };
        if line.len() == 0 || line[0] == '#' {
            ntriples_rest(s, next, number + 1, acc)
        } else {
            match line_triple(encode_utf8(line)) {
                Err(x) => Err(line_error(number, x)),
                Ok(t) => ntriples_rest(s, next, number + 1, acc.push(t)),
            }
        }
    }
}

/// Whether a reader returned the triples that were owed.
pub open spec fn triples_agree(
    r: CenResult<Vec<Triple>>,
    owed: Result<Seq<TripleView>, ErrorView>,
) -> bool {
    match (r, owed) {
        (Ok(v), Ok(s)) => triple_views(v@) == s,
        (Err(e), Err(x)) => e@ == x,
        _ => false,
    }
}

/// Reads N-Triples: one triple on each line.
pub fn parse_ntriples(input: &str) -> (r: CenResult<Vec<Triple>>)
    ensures
        triples_agree(r, ntriples_rest(input@, 0, 1, seq![])),
{
    let chars: Vec<char> = chars_of(input);
    let mut out: Vec<Triple> = Vec::new();
    let mut i: usize = 0;
    let mut number: usize = 0;
    assert(triple_views(out@) =~= seq![]);
    while i < chars.len()
        invariant
            chars@ == input@,
            i <= chars@.len(),
            number <= i,
            ntriples_rest(chars@, i as int, (number + 1) as nat, triple_views(out@))
                == ntriples_rest(input@, 0, 1, seq![]),
        decreases chars@.len() - i,
    {
        let e: usize = find_line_feed(chars.as_slice(), i);
        let (a, z) = trim_range(chars.as_slice(), i, e);
        let ghost line = chars@.subrange(a as int, z as int);
        let next: usize = if e < chars.len() {
            e + 1
        } else {
            e
        };
        number = number + 1;
        if a == z || chars[a] == '#' {
            i = next;
            continue;
        }
        let text: String = string_of(chars.as_slice(), a, z);
        match parse_ntriples_line(text.as_str()) {
            Err(x) => {
                let mut message: String = "line ".to_owned();
                let shown: String = decimal_string(number as u64);
                message.append(shown.as_str());
                message.append(": ");
                message.append(x.message.as_str());
                assert(message@ =~= line_error(number as nat, x@).message);
                return Err(CenError { status: CenStatus::ErrSyntax, message });
            },
            Ok(t) => {
                let ghost before = out@;
                let ghost tv = t@;
                out.push(t);
                assert(triple_views(out@) =~= triple_views(before).push(tv));
            },
        }
        i = next;
    }
    Ok(out)
}

/// Triples as N-Triples text, one line each.
pub open spec fn ntriples_text(ts: Seq<TripleView>) -> Seq<char>
    decreases ts.len(),
{
    if ts.len() == 0 {
        seq![]
    } else {
        ntriples_text(ts.drop_last()) + ntriples_line(ts.last())
    }
}

/// One triple as a line of N-Triples.
pub open spec fn ntriples_line(t: TripleView) -> Seq<char> {
    formatted(t.subject) + seq![' '] + formatted(t.predicate) + seq![' '] + formatted(t.object)
        + seq![' ', '.', '\n']
}

/// Writes triples as N-Triples, one triple on each line.
pub fn serialize_ntriples(triples: &[Triple]) -> (r: String)
    ensures
        r@ == ntriples_text(triple_views(triples@)),
{
    let mut out: String = String::new();
    let mut i: usize = 0;
    let ghost all = triple_views(triples@);
    assert(all.take(0) =~= seq![]);
    while i < triples.len()
        invariant
            i <= triples@.len(),
            all == triple_views(triples@),
            out@ == ntriples_text(all.take(i as int)),
        decreases triples@.len() - i,
    {
        let ghost before = out@;
        let t: &Triple = &triples[i];
        let s: String = format_term(&t.subject);
        out.append(s.as_str());
        out.push(' ');
        let p: String = format_term(&t.predicate);
        out.append(p.as_str());
        out.push(' ');
        let o: String = format_term(&t.object);
        out.append(o.as_str());
        out.push(' ');
        out.push('.');
        out.push('\n');
        proof {
            assert(out@ =~= before + ntriples_line(t@));
            assert(all.take(i + 1).drop_last() =~= all.take(i as int));
            assert(all.take(i + 1).last() == t@);
        }
        i = i + 1;
    }
    assert(all.take(i as int) =~= all);
    out
}

// ---------------------------------------------------------------------------
// Turtle: what stands at a place
// ---------------------------------------------------------------------------
/// Where the label of a prefix declaration that goes on at `i` ends: before a
/// colon, or at the end of the input.
pub open spec fn label_end(b: Seq<u8>, i: int) -> int
    decreases b.len() - i,
{
    if 0 <= i < b.len() && b[i] as char != ':' {
        label_end(b, i + 1)
    } else {
        i
    }
}

/// The place after an optional full stop, after white space.
pub open spec fn after_stop(b: Seq<u8>, i: int) -> int {
    let j = skip_space(b, i);
    if peek(b, j) == Some('.') {
        j + 1
    } else {
        j
    }
}

/// The length of the declaration keyword that stands at a place.
pub open spec fn declaration_keyword(b: Seq<u8>, i: int) -> Option<int> {
    if keyword_at(b, i, encode_utf8("@prefix"@)) {
        Some(encode_utf8("@prefix"@).len() as int)
    } else if keyword_at(b, i, encode_utf8("PREFIX"@)) {
        Some(encode_utf8("PREFIX"@).len() as int)
    } else if keyword_at(b, i, encode_utf8("@base"@)) {
        Some(encode_utf8("@base"@).len() as int)
    } else if keyword_at(b, i, encode_utf8("BASE"@)) {
        Some(encode_utf8("BASE"@).len() as int)
    } else {
        None
    }
}

/// The prefixes after the declaration at a place, and the place after it. A
/// base declaration changes nothing.
pub open spec fn declaration_at(
    b: Seq<u8>,
    i: int,
    prefixes: Map<Seq<char>, Seq<char>>,
    is_base: bool,
) -> Result<(Map<Seq<char>, Seq<char>>, int), ErrorView> {
    match declaration_keyword(b, i) {
        None => Err(syntax_error("expected @prefix or PREFIX"@)),
        Some(n) => {
            let j = skip_space(b, i + n);
            if is_base {
                match iri_at(b, j) {
                    Err(x) => Err(x),
                    Ok((_, k)) => Ok((prefixes, after_stop(b, k))),
                }
            } else {
                let e = label_end(b, j);
                if peek(b, e) != Some(':') {
                    Err(expected(':', peek(b, e)))
                } else {
                    match iri_at(b, skip_space(b, e + 1)) {
                        Err(x) => Err(x),
                        Ok((iri, k)) => Ok(
                            (
                                prefixes.insert(latin_text(b.subrange(j, e)), iri),
                                after_stop(b, k),
                            ),
                        ),
                    }
                }
            }
        },
    }
}

/// The error of an undeclared prefix.
pub open spec fn unknown_prefix(prefix: Seq<char>) -> ErrorView {
    syntax_error("unknown prefix '"@ + prefix + "'"@)
}

/// The error of a character that starts no term.
pub open spec fn unexpected_char(c: char) -> ErrorView {
    syntax_error("unexpected character '"@ + seq![c] + "'"@)
}

/// The term at a place after white space, and the place after it.
pub open spec fn term_at(b: Seq<u8>, i: int, prefixes: Map<Seq<char>, Seq<char>>) -> Result<
    (TermView, int),
    ErrorView,
> {
    let j = skip_space(b, i);
    match peek(b, j) {
        None => Err(syntax_error("unexpected end of input"@)),
        Some(c) => if c == '<' {
            uri_found(iri_at(b, j))
        } else if c == '_' {
            blank_at(b, j)
        } else if c == '"' || c == '\'' {
            literal_at(b, j)
        } else if is_letter(c) || c == ':' {
            match prefixed_at(b, j) {
                Err(x) => Err(x),
                Ok(((prefix, local), k)) => if prefixes.dom().contains(prefix) {
                    Ok((TermView::Uri(prefixes[prefix] + local), k))
                } else {
                    Err(unknown_prefix(prefix))
                },
            }
        } else {
            Err(unexpected_char(c))
        },
    }
}

/// The predicate at a place after white space, and the place after it.
pub open spec fn verb_at(b: Seq<u8>, i: int, prefixes: Map<Seq<char>, Seq<char>>) -> Result<
    (TermView, int),
    ErrorView,
> {
    let j = skip_space(b, i);
    if a_at(b, j) {
        Ok((TermView::Uri(rdf_type()), j + 1))
    } else {
        term_at(b, j, prefixes)
    }
}

/// A term takes up at least one byte.
pub proof fn lemma_term_at(b: Seq<u8>, i: int, prefixes: Map<Seq<char>, Seq<char>>)
    requires
        0 <= i <= b.len(),
    ensures
        term_at(b, i, prefixes) matches Ok((_, j)) ==> i < j <= b.len(),
        verb_at(b, i, prefixes) matches Ok((_, j)) ==> i < j <= b.len(),
{
    lemma_skip_space(b, i);
    let j = skip_space(b, i);
    lemma_skip_space(b, j);
    lemma_skip_space_idempotent(b, i);
    if j < b.len() {
        lemma_iri_end(b, j + 1);
        if j + 2 <= b.len() {
            lemma_local_end(b, j + 2);
        }
        lemma_prefix_end(b, j);
        if let Ok(e) = prefix_end(b, j) {
            if e < b.len() {
                lemma_local_end(b, e + 1);
            }
        }
        lemma_literal_rest(b, j + 1, b[j] as char, seq![]);
        if let Ok((_, k)) = literal_rest(b, j + 1, b[j] as char, seq![]) {
            if k < b.len() {
                lemma_lang_end(b, k + 1);
            }
            if k + 2 < b.len() {
                lemma_iri_end(b, k + 3);
            }
        }
    }
}

proof fn lemma_skip_space_idempotent(b: Seq<u8>, i: int)
    requires
        0 <= i <= b.len(),
    ensures
        skip_space(b, skip_space(b, i)) == skip_space(b, i),
    decreases b.len() - i,
{
    if i < b.len() && is_space(b[i] as char) {
        lemma_skip_space_idempotent(b, i + 1);
    }
}

/// The triples of one predicate: those so far, and one for each object from
/// place `i` on; objects are separated by commas.
pub open spec fn objects_at(
    b: Seq<u8>,
    i: int,
    prefixes: Map<Seq<char>, Seq<char>>,
    subject: TermView,
    predicate: TermView,
    acc: Seq<TripleView>,
) -> Result<(Seq<TripleView>, int), ErrorView>
    decreases b.len() - i,
    when 0 <= i <= b.len()
{
    proof {
        lemma_term_at(b, i, prefixes);
    }
    match term_at(b, i, prefixes) {
        Err(x) => Err(x),
        Ok((object, j)) => {
            proof {
                lemma_skip_space(b, j);
                if skip_space(b, j) < b.len() {
                    lemma_skip_space(b, skip_space(b, j) + 1);
                }
            }
            let more = acc.push(TripleView { subject, predicate, object });
            let k = skip_space(b, j);
            if peek(b, k) == Some(',') {
                objects_at(b, skip_space(b, k + 1), prefixes, subject, predicate, more)
            } else {
                Ok((more, k))
            }
        },
    }
}

/// A list of objects takes up at least one byte.
pub proof fn lemma_objects_at(
    b: Seq<u8>,
    i: int,
    prefixes: Map<Seq<char>, Seq<char>>,
    subject: TermView,
    predicate: TermView,
    acc: Seq<TripleView>,
)
    requires
        0 <= i <= b.len(),
    ensures
        objects_at(b, i, prefixes, subject, predicate, acc) matches Ok((_, j)) ==> i < j
            <= b.len(),
    decreases b.len() - i,
{
    lemma_term_at(b, i, prefixes);
    if let Ok((object, j)) = term_at(b, i, prefixes) {
        lemma_skip_space(b, j);
        let more = acc.push(TripleView { subject, predicate, object });
        let k = skip_space(b, j);
        if peek(b, k) == Some(',') {
            lemma_skip_space(b, k + 1);
            lemma_objects_at(b, skip_space(b, k + 1), prefixes, subject, predicate, more);
        }
    }
}

/// The triples of one subject: those so far, and those of each predicate from
/// place `i` on; predicates are separated by semicolons, and a full stop ends
/// the block.
pub open spec fn predicates_at(
    b: Seq<u8>,
    i: int,
    prefixes: Map<Seq<char>, Seq<char>>,
    subject: TermView,
    acc: Seq<TripleView>,
) -> Result<(Seq<TripleView>, int), ErrorView>
    decreases b.len() - i,
    when 0 <= i <= b.len()
{
    proof {
        lemma_skip_space(b, i);
    }
    let j = skip_space(b, i);
    if peek(b, j) == Some('.') {
        Ok((acc, j + 1))
    } else {
        proof {
            lemma_term_at(b, j, prefixes);
        }
        match verb_at(b, j, prefixes) {
            Err(x) => Err(x),
            Ok((predicate, k)) => {
                proof {
                    lemma_skip_space(b, k);
                    lemma_objects_at(b, skip_space(b, k), prefixes, subject, predicate, acc);
                }
                match objects_at(b, skip_space(b, k), prefixes, subject, predicate, acc) {
                    Err(x) => Err(x),
                    Ok((more, m)) => {
                        proof {
                            lemma_skip_space(b, m);
                            if skip_space(b, m) < b.len() {
                                lemma_skip_space(b, skip_space(b, m) + 1);
                            }
                        }
                        let n = skip_space(b, m);
                        if peek(b, n) == Some(';') {
                            predicates_at(b, skip_space(b, n + 1), prefixes, subject, more)
                        } else if peek(b, n) == Some('.') {
                            Ok((more, n + 1))
                        } else {
                            Err(
                                syntax_error(
                                    "expected '.' or ';' after predicate-object list"@,
                                ),
                            )
                        }
                    },
                }
            },
        }
    }
}

/// The predicates of a subject take up at least one byte.
pub proof fn lemma_predicates_at(
    b: Seq<u8>,
    i: int,
    prefixes: Map<Seq<char>, Seq<char>>,
    subject: TermView,
    acc: Seq<TripleView>,
)
    requires
        0 <= i <= b.len(),
    ensures
        predicates_at(b, i, prefixes, subject, acc) matches Ok((_, j)) ==> i < j <= b.len(),
    decreases b.len() - i,
{
    lemma_skip_space(b, i);
    let j = skip_space(b, i);
    if peek(b, j) != Some('.') {
        lemma_term_at(b, j, prefixes);
        if let Ok((predicate, k)) = verb_at(b, j, prefixes) {
            lemma_skip_space(b, k);
            lemma_objects_at(b, skip_space(b, k), prefixes, subject, predicate, acc);
            if let Ok((more, m)) = objects_at(
                b,
                skip_space(b, k),
                prefixes,
                subject,
                predicate,
                acc,
            ) {
                lemma_skip_space(b, m);
                let n = skip_space(b, m);
                if peek(b, n) == Some(';') {
                    lemma_skip_space(b, n + 1);
                    lemma_predicates_at(b, skip_space(b, n + 1), prefixes, subject, more);
                }
            }
        }
    }
}

/// The triples so far and those of the block at a place, and the place after
/// the block.
pub open spec fn block_at(
    b: Seq<u8>,
    i: int,
    prefixes: Map<Seq<char>, Seq<char>>,
    acc: Seq<TripleView>,
) -> Result<(Seq<TripleView>, int), ErrorView> {
    match term_at(b, skip_space(b, i), prefixes) {
        Err(x) => Err(x),
        Ok((subject, j)) => predicates_at(b, skip_space(b, j), prefixes, subject, acc),
    }
}

/// A block takes up at least one byte.
pub proof fn lemma_block_at(
    b: Seq<u8>,
    i: int,
    prefixes: Map<Seq<char>, Seq<char>>,
    acc: Seq<TripleView>,
)
    requires
        0 <= i <= b.len(),
    ensures
        block_at(b, i, prefixes, acc) matches Ok((_, j)) ==> i < j <= b.len(),
{
    lemma_skip_space(b, i);
    lemma_term_at(b, skip_space(b, i), prefixes);
    if let Ok((subject, j)) = term_at(b, skip_space(b, i), prefixes) {
        lemma_skip_space(b, j);
        lemma_predicates_at(b, skip_space(b, j), prefixes, subject, acc);
    }
}

proof fn lemma_label_end(b: Seq<u8>, i: int)
    requires
        0 <= i <= b.len(),
    ensures
        i <= label_end(b, i) <= b.len(),
    decreases b.len() - i,
{
    if i < b.len() && b[i] as char != ':' {
        lemma_label_end(b, i + 1);
    }
}

/// A declaration takes up at least one byte.
pub proof fn lemma_declaration_at(
    b: Seq<u8>,
    i: int,
    prefixes: Map<Seq<char>, Seq<char>>,
    is_base: bool,
)
    requires
        0 <= i <= b.len(),
    ensures
        declaration_at(b, i, prefixes, is_base) matches Ok((_, j)) ==> i < j <= b.len(),
{
    if let Some(n) = declaration_keyword(b, i) {
        lemma_skip_space(b, i + n);
        let j = skip_space(b, i + n);
        lemma_label_end(b, j);
        let e = label_end(b, j);
        if j < b.len() {
            lemma_iri_end(b, j + 1);
        }
        if e < b.len() {
            lemma_skip_space(b, e + 1);
            if skip_space(b, e + 1) < b.len() {
                lemma_iri_end(b, skip_space(b, e + 1) + 1);
            }
            if let Ok((_, k)) = iri_at(b, skip_space(b, e + 1)) {
                lemma_skip_space(b, k);
            }
        }
        if let Ok((_, k)) = iri_at(b, j) {
            lemma_skip_space(b, k);
        }
    }
}

/// The triples so far and those of the input from place `i` on.
pub open spec fn turtle_rest(
    b: Seq<u8>,
    i: int,
    prefixes: Map<Seq<char>, Seq<char>>,
    acc: Seq<TripleView>,
) -> Result<Seq<TripleView>, ErrorView>
    decreases b.len() - i,
    when 0 <= i <= b.len()
{
    proof {
        lemma_skip_space_and_comments(b, i);
    }
    let j = skip_space_and_comments(b, i);
    proof {
        lemma_declaration_at(b, j, prefixes, false);
        lemma_declaration_at(b, j, prefixes, true);
        lemma_block_at(b, j, prefixes, acc);
    }
    if j >= b.len() {
        Ok(acc)
    } else if keyword_at(b, j, encode_utf8("PREFIX"@)) || keyword_at(
        b,
        j,
        encode_utf8("@prefix"@),
    ) {
        match declaration_at(b, j, prefixes, false) {
            Err(x) => Err(x),
            Ok((wider, k)) => turtle_rest(b, k, wider, acc),
        }
    } else if keyword_at(b, j, encode_utf8("BASE"@)) || keyword_at(b, j, encode_utf8("@base"@)) {
        match declaration_at(b, j, prefixes, true) {
            Err(x) => Err(x),
            Ok((same, k)) => turtle_rest(b, k, same, acc),
        }
    } else {
        match block_at(b, j, prefixes, acc) {
            Err(x) => Err(x),
            Ok((more, k)) => turtle_rest(b, k, prefixes, more),
        }
    }
}


// ---------------------------------------------------------------------------
// Turtle: reading
// ---------------------------------------------------------------------------
/// The text of the declared prefixes.
pub open spec fn prefix_views(m: Map<Seq<char>, String>) -> Map<Seq<char>, Seq<char>> {
    m.map_values(|s: String| s@)
}

fn skip_stop(p: &mut Parser)
    requires
        old(p).wf(),
    ensures
        final(p).wf(),
        final(p).input == old(p).input,
        final(p).bytes == old(p).bytes,
        final(p).pos == after_stop(old(p).bytes@, old(p).pos as int),
{
    p.skip_ws();
    if p.at_char('.') {
        p.pos = p.pos + 1;
    }
}

fn parse_prefix_decl(p: &mut Parser, prefixes: &mut StrMap<String>, is_base: bool) -> (r: CenResult<
    (),
>)
    requires
        old(p).wf(),
        old(prefixes).wf(),
    ensures
        final(p).wf(),
        final(prefixes).wf(),
        final(p).input == old(p).input,
        final(p).bytes == old(p).bytes,
        match (
            r,
            declaration_at(old(p).bytes@, old(p).pos as int, prefix_views(old(prefixes)@), is_base),
        ) {
            (Ok(_), Ok((m, j))) => prefix_views(final(prefixes)@) == m && final(p).pos == j,
            (Err(e), Err(x)) => e@ == x,
            _ => false,
        },
{
    let ghost m = prefix_views(prefixes@);
    let ghost b = p.bytes@;
    if p.peek_keyword("@prefix") {
        p.pos = p.pos + "@prefix".as_bytes().len();
    } else if p.peek_keyword("PREFIX") {
        p.pos = p.pos + "PREFIX".as_bytes().len();
    } else if p.peek_keyword("@base") {
        p.pos = p.pos + "@base".as_bytes().len();
    } else if p.peek_keyword("BASE") {
        p.pos = p.pos + "BASE".as_bytes().len();
    } else {
        return Err(CenError::syntax("expected @prefix or PREFIX"));
    }
    p.skip_ws();
    if is_base {
        let _iri: String = p.parse_iri()?;
        skip_stop(p);
        return Ok(());
    }
    let start: usize = p.pos;
    while p.pos < p.bytes.len() && p.bytes[p.pos] as char != ':'
        invariant
            p.wf(),
            p.input == old(p).input,
            p.bytes == old(p).bytes,
            b == p.bytes@,
            start <= p.pos,
            label_end(b, p.pos as int) == label_end(b, start as int),
        decreases p.bytes@.len() - p.pos,
    {
        p.pos = p.pos + 1;
    }
    let label: String = p.latin_from(start);
    p.expect_char(':')?;
    p.skip_ws();
    let iri: String = p.parse_iri()?;
    skip_stop(p);
    let ghost iv = iri@;
    let ghost lv = label@;
    prefixes.insert(label, iri);
    assert(prefix_views(prefixes@) =~= m.insert(lv, iv));
    Ok(())
}

fn parse_term(p: &mut Parser, prefixes: &StrMap<String>) -> (r: CenResult<RdfTerm>)
    requires
        old(p).wf(),
        prefixes.wf(),
    ensures
        final(p).wf(),
        final(p).input == old(p).input,
        final(p).bytes == old(p).bytes,
        term_agrees(
            r,
            final(p).pos as int,
            term_at(old(p).bytes@, old(p).pos as int, prefix_views(prefixes@)),
        ),
{
    p.skip_ws();
    match p.peek_char() {
        None => Err(CenError::syntax("unexpected end of input")),
        Some(c) => {
            if c == '<' {
                p.parse_uri()
            } else if c == '_' {
                p.parse_blank()
            } else if c == '"' || c == '\'' {
                p.parse_literal()
            } else if is_alphabetic(c) || c == ':' {
                let (prefix, local) = p.parse_prefixed_name()?;
                match prefixes.get(prefix.as_str()) {
                    Some(base) => {
                        let mut iri: String = base.clone();
                        iri.append(local.as_str());
                        Ok(RdfTerm::Uri(iri))
                    },
                    None => {
                        let mut message: String = "unknown prefix '".to_owned();
                        message.append(prefix.as_str());
                        message.append("'");
                        Err(CenError { status: CenStatus::ErrSyntax, message })
                    },
                }
            } else {
                let mut message: String = "unexpected character '".to_owned();
                message.push(c);
                message.append("'");
                assert(message@ =~= unexpected_char(c).message);
                Err(CenError { status: CenStatus::ErrSyntax, message })
            }
        },
    }
}

fn parse_predicate(p: &mut Parser, prefixes: &StrMap<String>) -> (r: CenResult<RdfTerm>)
    requires
        old(p).wf(),
        prefixes.wf(),
    ensures
        final(p).wf(),
        final(p).input == old(p).input,
        final(p).bytes == old(p).bytes,
        term_agrees(
            r,
            final(p).pos as int,
            verb_at(old(p).bytes@, old(p).pos as int, prefix_views(prefixes@)),
        ),
{
    p.skip_ws();
    if p.at_a() {
        p.pos = p.pos + 1;
        return Ok(RdfTerm::Uri("http://www.w3.org/1999/02/22-rdf-syntax-ns#type".to_owned()));
    }
    parse_term(p, prefixes)
}

/// Reads the objects of a predicate and adds their triples.
fn parse_objects(
    p: &mut Parser,
    prefixes: &StrMap<String>,
    subject: &RdfTerm,
    predicate: &RdfTerm,
    out: &mut Vec<Triple>,
) -> (r: CenResult<()>)
    requires
        old(p).wf(),
        prefixes.wf(),
    ensures
        final(p).wf(),
        final(p).input == old(p).input,
        final(p).bytes == old(p).bytes,
        match (
            r,
            objects_at(
                old(p).bytes@,
                old(p).pos as int,
                prefix_views(prefixes@),
                subject@,
                predicate@,
                triple_views(old(out)@),
            ),
        ) {
            (Ok(_), Ok((ts, j))) => triple_views(final(out)@) == ts && final(p).pos == j,
            (Err(e), Err(x)) => e@ == x,
            _ => false,
        },
{
    let ghost m = prefix_views(prefixes@);
    let ghost owed = objects_at(
        p.bytes@,
        p.pos as int,
        m,
        subject@,
        predicate@,
        triple_views(out@),
    );
    loop
        invariant_except_break
            objects_at(
                p.bytes@,
                p.pos as int,
                m,
                subject@,
                predicate@,
                triple_views(out@),
            ) == owed,
        invariant
            p.wf(),
            prefixes.wf(),
            p.input == old(p).input,
            p.bytes == old(p).bytes,
            m == prefix_views(prefixes@),
            owed == objects_at(
                old(p).bytes@,
                old(p).pos as int,
                m,
                subject@,
                predicate@,
                triple_views(old(out)@),
            ),
        ensures
            owed == Ok::<(Seq<TripleView>, int), ErrorView>((triple_views(out@), p.pos as int)),
        decreases p.bytes@.len() - p.pos,
    {
        let ghost before = out@;
        proof {
            lemma_term_at(p.bytes@, p.pos as int, m);
        }
        let object: RdfTerm = parse_term(p, prefixes)?;
        let t: Triple = Triple::new(subject.clone(), predicate.clone(), object);
        let ghost tv = t@;
        out.push(t);
        assert(triple_views(out@) =~= triple_views(before).push(tv));
        p.skip_ws();
        if p.at_char(',') {
            p.pos = p.pos + 1;
            p.skip_ws();
        } else {
            break;
        }
    }
    Ok(())
}

fn parse_triples_block(p: &mut Parser, prefixes: &StrMap<String>, out: &mut Vec<Triple>) -> (r:
    CenResult<()>)
    requires
        old(p).wf(),
        prefixes.wf(),
    ensures
        final(p).wf(),
        final(p).input == old(p).input,
        final(p).bytes == old(p).bytes,
        match (
            r,
            block_at(
                old(p).bytes@,
                old(p).pos as int,
                prefix_views(prefixes@),
                triple_views(old(out)@),
            ),
        ) {
            (Ok(_), Ok((ts, j))) => triple_views(final(out)@) == ts && final(p).pos == j,
            (Err(e), Err(x)) => e@ == x,
            _ => false,
        },
{
    let ghost m = prefix_views(prefixes@);
    p.skip_ws();
    let subject: RdfTerm = parse_term(p, prefixes)?;
    p.skip_ws();
    let ghost owed = predicates_at(p.bytes@, p.pos as int, m, subject@, triple_views(out@));
    assert(owed == block_at(old(p).bytes@, old(p).pos as int, m, triple_views(old(out)@)));
    loop
        invariant_except_break
            predicates_at(p.bytes@, p.pos as int, m, subject@, triple_views(out@)) == owed,
        invariant
            p.wf(),
            prefixes.wf(),
            p.input == old(p).input,
            p.bytes == old(p).bytes,
            m == prefix_views(prefixes@),
            owed == block_at(old(p).bytes@, old(p).pos as int, m, triple_views(old(out)@)),
        ensures
            owed == Ok::<(Seq<TripleView>, int), ErrorView>((triple_views(out@), p.pos as int)),
        decreases p.bytes@.len() - p.pos,
    {
        p.skip_ws();
        if p.at_char('.') {
            p.pos = p.pos + 1;
            break;
        }
        proof {
            lemma_term_at(p.bytes@, p.pos as int, m);
        }
        let predicate: RdfTerm = parse_predicate(p, prefixes)?;
        p.skip_ws();
        proof {
            lemma_objects_at(
                p.bytes@,
                p.pos as int,
                m,
                subject@,
                predicate@,
                triple_views(out@),
            );
        }
        parse_objects(p, prefixes, &subject, &predicate, out)?;
        p.skip_ws();
        if p.at_char(';') {
            p.pos = p.pos + 1;
            p.skip_ws();
        } else if p.at_char('.') {
            p.pos = p.pos + 1;
            break;
        } else {
            return Err(CenError::syntax("expected '.' or ';' after predicate-object list"));
        }
    }
    Ok(())
}

/// Reads Turtle: prefix declarations, prefixed names, the keyword `a`, comma
/// and semicolon abbreviations, IRIs, blank nodes and literals.
pub fn parse_turtle(input: &str) -> (r: CenResult<Vec<Triple>>)
    ensures
        triples_agree(r, turtle_rest(encode_utf8(input@), 0, Map::empty(), seq![])),
{
    let mut prefixes: StrMap<String> = StrMap::new();
    let mut out: Vec<Triple> = Vec::new();
    let mut p: Parser = Parser::new(input);
    assert(prefix_views(prefixes@) =~= Map::empty());
    assert(triple_views(out@) =~= seq![]);
    loop
        invariant_except_break
            turtle_rest(p.bytes@, p.pos as int, prefix_views(prefixes@), triple_views(out@))
                == turtle_rest(encode_utf8(input@), 0, Map::empty(), seq![]),
        invariant
            p.wf(),
            prefixes.wf(),
            p.bytes@ == encode_utf8(input@),
        ensures
            turtle_rest(encode_utf8(input@), 0, Map::empty(), seq![]) == Ok::<
                Seq<TripleView>,
                ErrorView,
            >(triple_views(out@)),
        decreases p.bytes@.len() - p.pos,
    {
        p.skip_ws_and_comments();
        if p.is_eof() {
            break;
        }
        let ghost m = prefix_views(prefixes@);
        proof {
            lemma_declaration_at(p.bytes@, p.pos as int, m, false);
            lemma_declaration_at(p.bytes@, p.pos as int, m, true);
            lemma_block_at(p.bytes@, p.pos as int, m, triple_views(out@));
        }
        if p.peek_keyword("PREFIX") || p.peek_keyword("@prefix") {
            parse_prefix_decl(&mut p, &mut prefixes, false)?;
        } else if p.peek_keyword("BASE") || p.peek_keyword("@base") {
            parse_prefix_decl(&mut p, &mut prefixes, true)?;
        } else {
            parse_triples_block(&mut p, &prefixes, &mut out)?;
        }
    }
    Ok(out)
}

// ---------------------------------------------------------------------------
// Turtle: writing
// ---------------------------------------------------------------------------
/// The terms that stand in a position, each once, in the order of first
/// occurrence.
pub open spec fn distinct_parts(ts: Seq<TripleView>, at: Position) -> Seq<TermView>
    decreases ts.len(),
{
    if ts.len() == 0 {
        seq![]
    } else {
        let before = distinct_parts(ts.drop_last(), at);
        if before.contains(part(ts.last(), at)) {
            before
        } else {
            before.push(part(ts.last(), at))
        }
    }
}

/// Objects separated by commas.
pub open spec fn object_list(us: Seq<TripleView>) -> Seq<char>
    decreases us.len(),
{
    if us.len() == 0 {
        seq![]
    } else if us.len() == 1 {
        formatted(us[0].object)
    } else {
        object_list(us.drop_last()) + seq![' ', ',', ' '] + formatted(us.last().object)
    }
}

/// The first predicates of a subject, each with its objects; `us` holds the
/// triples of the subject.
pub open spec fn predicate_list(us: Seq<TripleView>, predicates: Seq<TermView>) -> Seq<char>
    decreases predicates.len(),
{
    if predicates.len() == 0 {
        seq![]
    } else {
        predicate_list(us, predicates.drop_last()) + (if predicates.len() == 1 {
            seq![' ']
        } else {
            seq![' ', ';', '\n', ' ', ' ']
        }) + formatted(predicates.last()) + seq![' '] + object_list(
            with_part(us, Position::Predicate, predicates.last()),
        )
    }
}

/// The block of one subject.
pub open spec fn subject_block(ts: Seq<TripleView>, subject: TermView) -> Seq<char> {
    let us = with_part(ts, Position::Subject, subject);
    formatted(subject) + predicate_list(us, distinct_parts(us, Position::Predicate)) + seq![
        ' ',
        '.',
        '\n',
    ]
}

/// The blocks of the given subjects.
pub open spec fn blocks(ts: Seq<TripleView>, subjects: Seq<TermView>) -> Seq<char>
    decreases subjects.len(),
{
    if subjects.len() == 0 {
        seq![]
    } else {
        blocks(ts, subjects.drop_last()) + subject_block(ts, subjects.last())
    }
}

/// Triples as Turtle text: one block for each subject, in the order of first
/// occurrence.
pub open spec fn turtle_text(ts: Seq<TripleView>) -> Seq<char> {
    blocks(ts, distinct_parts(ts, Position::Subject))
}

/// The values of references to terms.
pub open spec fn term_ref_views(s: Seq<&RdfTerm>) -> Seq<TermView> {
    s.map_values(|t: &RdfTerm| t@)
}

fn position_term(t: &Triple, at: Position) -> (r: &RdfTerm)
    ensures
        r@ == part(t@, at),
{
    match at {
        Position::Subject => &t.subject,
        Position::Predicate => &t.predicate,
        Position::Object => &t.object,
    }
}

fn distinct_terms<'a>(ts: &Vec<&'a Triple>, at: Position) -> (r: Vec<&'a RdfTerm>)
    ensures
        term_ref_views(r@) == distinct_parts(crate::rdf::triple_ref_views(ts@), at),
{
    let mut out: Vec<&'a RdfTerm> = Vec::new();
    let mut i: usize = 0;
    let ghost all = crate::rdf::triple_ref_views(ts@);
    assert(all.take(0) =~= seq![]);
    assert(term_ref_views(out@) =~= seq![]);
    while i < ts.len()
        invariant
            i <= ts@.len(),
            all == crate::rdf::triple_ref_views(ts@),
            term_ref_views(out@) == distinct_parts(all.take(i as int), at),
        decreases ts@.len() - i,
    {
        let term: &'a RdfTerm = position_term(ts[i], at);
        let ghost have = term_ref_views(out@);
        let mut seen: bool = false;
        let mut k: usize = 0;
        while k < out.len()
            invariant
                k <= out@.len(),
                have == term_ref_views(out@),
                seen == have.take(k as int).contains(term@),
            decreases out@.len() - k,
        {
            proof {
                assert(have.take(k + 1) =~= have.take(k as int).push(have[k as int]));
                crate::sequences::lemma_push_contains(have.take(k as int), have[k as int], term@);
            }
            if *out[k] == *term {
                seen = true;
            }
            k = k + 1;
        }
        proof {
            assert(have.take(k as int) =~= have);
            assert(all.take(i + 1).drop_last() =~= all.take(i as int));
            assert(part(all.take(i + 1).last(), at) == term@);
        }
        if !seen {
            out.push(term);
            assert(term_ref_views(out@) =~= have.push(term@));
        }
        i = i + 1;
    }
    assert(all.take(i as int) =~= all);
    out
}

fn select<'a>(ts: &Vec<&'a Triple>, at: Position, term: &RdfTerm) -> (r: Vec<&'a Triple>)
    ensures
        crate::rdf::triple_ref_views(r@) == with_part(
            crate::rdf::triple_ref_views(ts@),
            at,
            term@,
        ),
{
    let mut out: Vec<&'a Triple> = Vec::new();
    let mut i: usize = 0;
    let ghost all = crate::rdf::triple_ref_views(ts@);
    let ghost has = |t: TripleView| part(t, at) == term@;
    proof {
        reveal(Seq::filter);
        assert(all.take(0) =~= seq![]);
        assert(crate::rdf::triple_ref_views(out@) =~= all.take(0).filter(has));
    }
    while i < ts.len()
        invariant
            i <= ts@.len(),
            all == crate::rdf::triple_ref_views(ts@),
            has == (|t: TripleView| part(t, at) == term@),
            crate::rdf::triple_ref_views(out@) == all.take(i as int).filter(has),
        decreases ts@.len() - i,
    {
        let ghost before = crate::rdf::triple_ref_views(out@);
        let t: &'a Triple = ts[i];
        proof {
            assert(all.take(i + 1) =~= all.take(i as int).push(t@));
            lemma_filter_push(all.take(i as int), t@, has);
        }
        if *position_term(t, at) == *term {
            out.push(t);
            assert(crate::rdf::triple_ref_views(out@) =~= before.push(t@));
        }
        i = i + 1;
    }
    assert(all.take(i as int) =~= all);
    out
}

fn push_objects(out: &mut String, us: &Vec<&Triple>)
    ensures
        final(out)@ == old(out)@ + object_list(crate::rdf::triple_ref_views(us@)),
{
    let ghost all = crate::rdf::triple_ref_views(us@);
    let mut i: usize = 0;
    assert(all.take(0) =~= seq![]);
    assert(out@ =~= old(out)@ + object_list(all.take(0)));
    while i < us.len()
        invariant
            i <= us@.len(),
            all == crate::rdf::triple_ref_views(us@),
            out@ == old(out)@ + object_list(all.take(i as int)),
        decreases us@.len() - i,
    {
        let ghost before = out@;
        if i > 0 {
            out.push(' ');
            out.push(',');
            out.push(' ');
        }
        let o: String = format_term(&us[i].object);
        out.append(o.as_str());
        proof {
            let wide = all.take(i + 1);
            assert(wide.drop_last() =~= all.take(i as int));
            assert(wide.last() == us@[i as int]@);
            if i == 0 {
                assert(wide.len() == 1);
                assert(before =~= old(out)@);
                assert(out@ =~= old(out)@ + object_list(wide));
            } else {
                assert(out@ =~= old(out)@ + object_list(wide));
            }
        }
        i = i + 1;
    }
    assert(all.take(i as int) =~= all);
}

fn push_predicates(out: &mut String, us: &Vec<&Triple>, predicates: &Vec<&RdfTerm>)
    ensures
        final(out)@ == old(out)@ + predicate_list(
            crate::rdf::triple_ref_views(us@),
            term_ref_views(predicates@),
        ),
{
    let ghost uv = crate::rdf::triple_ref_views(us@);
    let ghost all = term_ref_views(predicates@);
    let mut i: usize = 0;
    assert(all.take(0) =~= seq![]);
    assert(out@ =~= old(out)@ + predicate_list(uv, all.take(0)));
    while i < predicates.len()
        invariant
            i <= predicates@.len(),
            uv == crate::rdf::triple_ref_views(us@),
            all == term_ref_views(predicates@),
            out@ == old(out)@ + predicate_list(uv, all.take(i as int)),
        decreases predicates@.len() - i,
    {
        if i == 0 {
            out.push(' ');
        } else {
            out.append(" ;\n  ");
        }
        let p: &RdfTerm = predicates[i];
        let shown: String = format_term(p);
        out.append(shown.as_str());
        out.push(' ');
        let objects: Vec<&Triple> = select(us, Position::Predicate, p);
        push_objects(out, &objects);
        proof {
            reveal_strlit(" ;\n  ");
            assert(" ;\n  "@ =~= seq![' ', ';', '\n', ' ', ' ']);
            let wide = all.take(i + 1);
            assert(wide.drop_last() =~= all.take(i as int));
            assert(wide.last() == p@);
            assert(out@ =~= old(out)@ + predicate_list(uv, wide));
        }
        i = i + 1;
    }
    assert(all.take(i as int) =~= all);
}

/// Writes triples as Turtle. Every IRI is written in full; triples of one
/// subject share a block, and those of one subject and predicate share a list.
pub fn serialize_turtle(triples: &[Triple]) -> (r: String)
    ensures
        r@ == turtle_text(triple_views(triples@)),
{
    let ghost ts = triple_views(triples@);
    let mut all: Vec<&Triple> = Vec::new();
    let mut n: usize = 0;
    while n < triples.len()
        invariant
            n <= triples@.len(),
            all@.len() == n,
            forall|j: int| 0 <= j < n ==> (#[trigger] all@[j])@ == triples@[j]@,
        decreases triples@.len() - n,
    {
        all.push(&triples[n]);
        n = n + 1;
    }
    assert(crate::rdf::triple_ref_views(all@) =~= ts);
    let subjects: Vec<&RdfTerm> = distinct_terms(&all, Position::Subject);
    let ghost names = term_ref_views(subjects@);
    let mut out: String = String::new();
    let mut i: usize = 0;
    assert(names.take(0) =~= seq![]);
    assert(out@ =~= blocks(ts, names.take(0)));
    while i < subjects.len()
        invariant
            i <= subjects@.len(),
            ts == crate::rdf::triple_ref_views(all@),
            names == term_ref_views(subjects@),
            out@ == blocks(ts, names.take(i as int)),
        decreases subjects@.len() - i,
    {
        let ghost before = out@;
        let subject: &RdfTerm = subjects[i];
        let shown: String = format_term(subject);
        out.append(shown.as_str());
        let us: Vec<&Triple> = select(&all, Position::Subject, subject);
        let predicates: Vec<&RdfTerm> = distinct_terms(&us, Position::Predicate);
        push_predicates(&mut out, &us, &predicates);
        out.push(' ');
        out.push('.');
        out.push('\n');
        proof {
            assert(out@ =~= before + subject_block(ts, subject@));
            assert(names.take(i + 1).drop_last() =~= names.take(i as int));
            assert(names.take(i + 1).last() == subject@);
        }
        i = i + 1;
    }
    assert(names.take(i as int) =~= names);
    out
}

} // verus!
