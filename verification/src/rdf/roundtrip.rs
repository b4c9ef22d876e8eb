//! What is written as N-Triples or Turtle is read back.

use vstd::prelude::*;
use vstd::utf8::{encode_scalar, encode_utf8, is_ascii_chars, is_continuation_byte};

use crate::error::ErrorView;
use crate::rdf::serialize::{
    blank_at, block_at, blocks, distinct_parts, escaped, escaped_char, formatted, iri_at, iri_end,
    keyword_at, lang_end, line_triple, literal_at, literal_rest, local_end, ntriples_line,
    ntriples_rest, ntriples_text, object_at, object_list, objects_at, peek, predicate_at,
    predicate_list, predicates_at, skip_space, skip_space_and_comments, stops_name, subject_at,
    subject_block, term_at, turtle_rest, turtle_text, verb_at,
};
use crate::rdf::store::{part, with_part, Position};
use crate::rdf::{TermView, TripleView};
use crate::sequences::{lemma_filter_contains, lemma_filter_push, lemma_push_contains};
use crate::text::{is_letter_or_number, latin_text, line_feed, trim};
use crate::utf8::{
    lemma_ascii_stands, lemma_char_number, lemma_first_bytes, lemma_stands_at_split,
    lemma_text_stands, lemma_text_starts, lemma_texts_stand, lemma_wide_stands, stands_at,
};

verus! {

/// Whether an IRI is read back as it was written: no `>` but directly after a
/// backslash that pairs with it, and no unpaired backslash at the end.
pub open spec fn iri_readable(s: Seq<char>) -> bool
    decreases s.len(),
{
    if s.len() == 0 {
        true
    } else if s[0] == '>' {
        false
    } else if s[0] == '\\' {
        s.len() >= 2 && iri_readable(s.skip(2))
    } else {
        iri_readable(s.skip(1))
    }
}

/// Whether a label is read back as it was written: no ASCII white space and
/// none of the punctuation that ends a name.
pub open spec fn label_readable(s: Seq<char>) -> bool {
    forall|k: int| 0 <= k < s.len() ==> (s[k] as u32) >= 128 || !stops_name(#[trigger] s[k])
}

/// Whether a language tag, with its `@`, is read back as it was written.
pub open spec fn lang_readable(tag: Seq<char>) -> bool {
    is_ascii_chars(tag) && forall|k: int|
        1 <= k < tag.len() ==> is_letter_or_number(#[trigger] tag[k]) || tag[k] == '-'
}

/// Whether a term is read back as it was written.
pub open spec fn readable(t: TermView) -> bool {
    match t {
        TermView::Uri(s) => iri_readable(s),
        TermView::BlankNode(s) => label_readable(s),
        TermView::Literal(_, None) => true,
        TermView::Literal(_, Some(tag)) => if tag.len() > 0 && tag[0] == '@' {
            lang_readable(tag)
        } else {
            iri_readable(tag)
        },
    }
}

proof fn lemma_iri_steps(b: Seq<u8>, i: int, n: int)
    requires
        0 <= i,
        0 <= n,
        i + n <= b.len(),
        forall|k: int| i <= k < i + n ==> #[trigger] b[k] >= 128,
    ensures
        iri_end(b, i) == iri_end(b, i + n),
    decreases n,
{
    if n > 0 {
        assert(b[i] >= 128);
        lemma_iri_steps(b, i + 1, n - 1);
    }
}

proof fn lemma_iri_end_stands(b: Seq<u8>, i: int, s: Seq<char>)
    requires
        iri_readable(s),
        stands_at(b, i, encode_utf8(s)),
        i + encode_utf8(s).len() < b.len(),
        b[i + encode_utf8(s).len()] as char == '>',
    ensures
        iri_end(b, i) == i + encode_utf8(s).len(),
    decreases s.len(),
{
    if s.len() > 0 {
        let e = encode_utf8(s);
        let rest = s.skip(1);
        lemma_first_bytes(s);
        let n = encode_scalar(s[0] as u32).len() as int;
        assert(e == e.take(n) + encode_utf8(rest));
        lemma_stands_at_split(b, i, e.take(n), encode_utf8(rest));
        assert forall|k: int| 0 <= k < n implies b[i + k] == e[k] by {
            assert(b.subrange(i, i + e.len())[k] == e[k]);
        }
        if s[0] == '\\' {
            assert(n == 1);
            let more = rest.skip(1);
            lemma_first_bytes(rest);
            let m = encode_scalar(rest[0] as u32).len() as int;
            let f = encode_utf8(rest);
            assert(rest.skip(1) =~= s.skip(2));
            assert(f == f.take(m) + encode_utf8(more));
            lemma_stands_at_split(b, i + 1, f.take(m), encode_utf8(more));
            assert forall|k: int| 0 <= k < m implies b[i + 1 + k] == f[k] by {
                assert(b.subrange(i + 1, i + 1 + f.len())[k] == f[k]);
            }
            assert(b[i] as char == '\\');
            assert(iri_end(b, i) == iri_end(b, i + 2));
            if m > 1 {
                assert forall|k: int| i + 2 <= k < i + 1 + m implies #[trigger] b[k] >= 128 by {
                    assert(b[i + 1 + (k - i - 1)] == f[k - i - 1]);
                }
                lemma_iri_steps(b, i + 2, m - 1);
            }
            lemma_iri_end_stands(b, i + 1 + m, more);
        } else {
            lemma_char_number(s[0]);
            if (s[0] as u32) < 128 {
                assert(b[i] == e[0]);
                assert(b[i] as char == s[0]);
                assert(iri_end(b, i) == iri_end(b, i + 1));
            } else {
                assert forall|k: int| i <= k < i + n implies #[trigger] b[k] >= 128 by {
                    assert(b[i + (k - i)] == e[k - i]);
                }
                lemma_iri_steps(b, i, n);
            }
            lemma_iri_end_stands(b, i + n, rest);
        }
    }
}

proof fn lemma_char_stands(b: Seq<u8>, i: int, c: char)
    requires
        stands_at(b, i, encode_utf8(seq![c])),
        (c as u32) < 128,
    ensures
        encode_utf8(seq![c]).len() == 1,
        i < b.len(),
        peek(b, i) == Some(c),
{
    lemma_ascii_stands(b, i, seq![c]);
    assert(seq![c][0] == c);
    assert(b[i + 0] as char == c);
}

proof fn lemma_iri_reads(b: Seq<u8>, i: int, s: Seq<char>)
    requires
        iri_readable(s),
        stands_at(b, i, encode_utf8(seq!['<'] + s + seq!['>'])),
    ensures
        iri_at(b, i) == Ok::<(Seq<char>, int), ErrorView>(
            (s, i + encode_utf8(seq!['<'] + s + seq!['>']).len()),
        ),
{
    lemma_texts_stand(b, i, seq!['<'] + s, seq!['>']);
    lemma_texts_stand(b, i, seq!['<'], s);
    lemma_char_stands(b, i, '<');
    let n = encode_utf8(s).len() as int;
    lemma_char_stands(b, i + 1 + n, '>');
    lemma_iri_end_stands(b, i + 1, s);
    lemma_text_stands(b, i + 1, s);
}

proof fn lemma_local_steps(b: Seq<u8>, i: int, n: int)
    requires
        0 <= i,
        0 <= n,
        i + n <= b.len(),
        forall|k: int| i <= k < i + n ==> #[trigger] b[k] >= 128,
    ensures
        local_end(b, i) == local_end(b, i + n),
    decreases n,
{
    if n > 0 {
        assert(b[i] >= 128);
        lemma_local_steps(b, i + 1, n - 1);
    }
}

proof fn lemma_local_end_stands(b: Seq<u8>, i: int, s: Seq<char>)
    requires
        label_readable(s),
        stands_at(b, i, encode_utf8(s)),
        i + encode_utf8(s).len() < b.len(),
        b[i + encode_utf8(s).len()] < 128,
        stops_name(b[i + encode_utf8(s).len()] as char),
    ensures
        local_end(b, i) == i + encode_utf8(s).len(),
    decreases s.len(),
{
    if s.len() > 0 {
        let e = encode_utf8(s);
        let rest = s.skip(1);
        lemma_first_bytes(s);
        let n = encode_scalar(s[0] as u32).len() as int;
        lemma_stands_at_split(b, i, e.take(n), encode_utf8(rest));
        assert forall|k: int| 0 <= k < n implies b[i + k] == e[k] by {
            assert(b.subrange(i, i + e.len())[k] == e[k]);
        }
        lemma_char_number(s[0]);
        assert(label_readable(rest)) by {
            assert forall|k: int| 0 <= k < rest.len() implies (rest[k] as u32) >= 128
                || !stops_name(#[trigger] rest[k]) by {
                assert(rest[k] == s[k + 1]);
            }
        }
        if (s[0] as u32) < 128 {
            assert(b[i + 0] == e[0]);
            assert(b[i] as char == s[0]);
            assert(local_end(b, i) == local_end(b, i + 1));
        } else {
            assert forall|k: int| i <= k < i + n implies #[trigger] b[k] >= 128 by {
                assert(b[i + (k - i)] == e[k - i]);
            }
            lemma_local_steps(b, i, n);
        }
        lemma_local_end_stands(b, i + n, rest);
    }
}

proof fn lemma_blank_reads(b: Seq<u8>, i: int, s: Seq<char>)
    requires
        label_readable(s),
        stands_at(b, i, encode_utf8(seq!['_', ':'] + s)),
        i + encode_utf8(seq!['_', ':'] + s).len() < b.len(),
        b[i + encode_utf8(seq!['_', ':'] + s).len()] < 128,
        stops_name(b[i + encode_utf8(seq!['_', ':'] + s).len()] as char),
    ensures
        blank_at(b, i) == Ok::<(TermView, int), ErrorView>(
            (TermView::BlankNode(s), i + encode_utf8(seq!['_', ':'] + s).len()),
        ),
{
    lemma_texts_stand(b, i, seq!['_', ':'], s);
    assert(seq!['_', ':'] =~= seq!['_'] + seq![':']);
    lemma_texts_stand(b, i, seq!['_'], seq![':']);
    lemma_char_stands(b, i, '_');
    lemma_char_stands(b, i + 1, ':');
    lemma_local_end_stands(b, i + 2, s);
    lemma_text_stands(b, i + 2, s);
}

proof fn lemma_escaped_front(c: char, s: Seq<char>)
    ensures
        escaped(seq![c] + s) == escaped_char(c) + escaped(s),
    decreases s.len(),
{
    let w = seq![c] + s;
    if s.len() == 0 {
        assert(w.drop_last() =~= seq![]);
        assert(w.last() == c);
        assert(escaped(w.drop_last()) =~= seq![]);
        assert(escaped(w) =~= escaped_char(c));
        assert(escaped(s) =~= seq![]);
        assert(escaped_char(c) + escaped(s) =~= escaped_char(c));
    } else {
        assert(w.drop_last() =~= seq![c] + s.drop_last());
        assert(w.last() == s.last());
        lemma_escaped_front(c, s.drop_last());
        assert(escaped(w) =~= escaped_char(c) + (escaped(s.drop_last()) + escaped_char(s.last())));
    }
}

proof fn lemma_literal_body(b: Seq<u8>, i: int, v: Seq<char>, acc: Seq<char>)
    requires
        stands_at(b, i, encode_utf8(escaped(v))),
        i + encode_utf8(escaped(v)).len() < b.len(),
        !is_continuation_byte(b[i + encode_utf8(escaped(v)).len()]),
    ensures
        literal_rest(b, i, '"', acc) == literal_rest(
            b,
            i + encode_utf8(escaped(v)).len(),
            '"',
            acc + v,
        ),
    decreases v.len(),
{
    if v.len() == 0 {
        assert(acc + v =~= acc);
    } else {
        let c = v[0];
        let rest = v.skip(1);
        let first = escaped_char(c);
        assert(v =~= seq![c] + rest);
        lemma_escaped_front(c, rest);
        lemma_texts_stand(b, i, first, escaped(rest));
        let n = encode_utf8(first).len() as int;
        lemma_literal_body(b, i + n, rest, acc.push(c));
        assert(acc.push(c) + rest =~= acc + v);
        lemma_char_number(c);
        if (c as u32) < 128 {
            assert(is_ascii_chars(first));
            lemma_ascii_stands(b, i, first);
            assert(b[i + 0] as char == first[0]);
            if first.len() == 2 {
                assert(b[i + 1] as char == first[1]);
            }
        } else {
            assert(first == seq![c]);
            if rest.len() > 0 {
                let f = encode_utf8(escaped(rest));
                assert(rest =~= seq![rest[0]] + rest.skip(1));
                lemma_escaped_front(rest[0], rest.skip(1));
                lemma_text_starts(escaped(rest));
                assert(b.subrange(i + n, i + n + f.len())[0] == f[0]);
            }
            lemma_wide_stands(b, i, c);
            assert(acc + seq![c] =~= acc.push(c));
        }
    }
}

proof fn lemma_lang_end_stands(b: Seq<u8>, i: int, tag: Seq<char>, k: int)
    requires
        lang_readable(tag),
        stands_at(b, i, encode_utf8(tag)),
        1 <= k <= tag.len(),
        i + tag.len() < b.len(),
        b[i + tag.len()] as char == ' ',
    ensures
        lang_end(b, i + k) == i + tag.len(),
    decreases tag.len() - k,
{
    lemma_ascii_stands(b, i, tag);
    if k < tag.len() {
        assert(b[i + k] as char == tag[k]);
        lemma_lang_end_stands(b, i, tag, k + 1);
    }
}

proof fn lemma_quoted_reads(b: Seq<u8>, i: int, v: Seq<char>)
    requires
        stands_at(b, i, encode_utf8(seq!['"'] + escaped(v) + seq!['"'])),
    ensures
        i < b.len(),
        peek(b, i) == Some('"'),
        encode_utf8(seq!['"'] + escaped(v) + seq!['"']).len() == encode_utf8(escaped(v)).len() + 2,
        literal_rest(b, i + 1, b[i] as char, seq![]) == Ok::<(Seq<char>, int), ErrorView>(
            (v, i + encode_utf8(escaped(v)).len() + 2),
        ),
{
    lemma_texts_stand(b, i, seq!['"'] + escaped(v), seq!['"']);
    lemma_texts_stand(b, i, seq!['"'], escaped(v));
    lemma_char_stands(b, i, '"');
    lemma_char_stands(b, i + 1 + encode_utf8(escaped(v)).len(), '"');
    lemma_literal_body(b, i + 1, v, seq![]);
    assert(Seq::<char>::empty() + v =~= v);
}

proof fn lemma_literal_reads(b: Seq<u8>, i: int, v: Seq<char>, tag: Option<Seq<char>>)
    requires
        readable(TermView::Literal(v, tag)),
        stands_at(b, i, encode_utf8(formatted(TermView::Literal(v, tag)))),
        i + encode_utf8(formatted(TermView::Literal(v, tag))).len() < b.len(),
        b[i + encode_utf8(formatted(TermView::Literal(v, tag))).len()] as char == ' ',
    ensures
        literal_at(b, i) == Ok::<(TermView, int), ErrorView>(
            (
                TermView::Literal(v, tag),
                i + encode_utf8(formatted(TermView::Literal(v, tag))).len(),
            ),
        ),
        peek(b, i) == Some('"'),
{
    let quoted = seq!['"'] + escaped(v) + seq!['"'];
    match tag {
        None => {
            lemma_quoted_reads(b, i, v);
        },
        Some(t) => {
            if t.len() > 0 && t[0] == '@' {
                lemma_texts_stand(b, i, quoted, t);
                lemma_quoted_reads(b, i, v);
                let j = i + encode_utf8(escaped(v)).len() + 2;
                lemma_ascii_stands(b, j, t);
                assert(b[j + 0] as char == t[0]);
                lemma_lang_end_stands(b, j, t, 1);
                let name = latin_text(b.subrange(j + 1, j + t.len()));
                assert forall|k: int| 0 <= k < name.len() implies name[k] == t[k + 1] by {
                    assert(b[j + (k + 1)] as char == t[k + 1]);
                }
                assert(seq!['@'] + name =~= t);
            } else {
                let whole = seq!['"'] + escaped(v) + seq!['"', '^', '^', '<'] + t + seq!['>'];
                let iri = seq!['<'] + t + seq!['>'];
                assert(whole =~= quoted + (seq!['^', '^'] + iri));
                lemma_texts_stand(b, i, quoted, seq!['^', '^'] + iri);
                lemma_quoted_reads(b, i, v);
                let j = i + encode_utf8(escaped(v)).len() + 2;
                lemma_texts_stand(b, j, seq!['^', '^'], iri);
                assert(seq!['^', '^'] =~= seq!['^'] + seq!['^']);
                lemma_texts_stand(b, j, seq!['^'], seq!['^']);
                lemma_char_stands(b, j, '^');
                lemma_char_stands(b, j + 1, '^');
                lemma_iri_reads(b, j + 2, t);
            }
        },
    }
}

/// A readable term that stands at a place before a space is read back there,
/// in every position of a triple that admits it.
pub proof fn lemma_term_reads(b: Seq<u8>, i: int, t: TermView)
    requires
        readable(t),
        stands_at(b, i, encode_utf8(formatted(t))),
        i + encode_utf8(formatted(t)).len() < b.len(),
        b[i + encode_utf8(formatted(t)).len()] as char == ' ',
    ensures
        ({
            let owed = Ok::<(TermView, int), ErrorView>((t, i + encode_utf8(formatted(t)).len()));
            &&& term_at(b, i, Map::empty()) == owed
            &&& verb_at(b, i, Map::empty()) == owed
            &&& object_at(b, i) == owed
            &&& t is Uri ==> predicate_at(b, i) == owed
            &&& t !is Literal ==> subject_at(b, i) == owed
            &&& skip_space(b, i) == i
            &&& i < b.len()
            &&& (b[i] as char == '<' || b[i] as char == '_' || b[i] as char == '"')
        }),
{
    match t {
        TermView::Uri(s) => {
            lemma_iri_reads(b, i, s);
            lemma_texts_stand(b, i, seq!['<'] + s, seq!['>']);
            lemma_texts_stand(b, i, seq!['<'], s);
            lemma_char_stands(b, i, '<');
        },
        TermView::BlankNode(s) => {
            lemma_blank_reads(b, i, s);
            lemma_texts_stand(b, i, seq!['_', ':'], s);
            assert(seq!['_', ':'] =~= seq!['_'] + seq![':']);
            lemma_texts_stand(b, i, seq!['_'], seq![':']);
            lemma_char_stands(b, i, '_');
        },
        TermView::Literal(v, tag) => {
            lemma_literal_reads(b, i, v, tag);
        },
    }
    assert(skip_space(b, i) == i);
}


// ---------------------------------------------------------------------------
// N-Triples
// ---------------------------------------------------------------------------
/// Whether a text holds no line feed.
pub open spec fn one_line(s: Seq<char>) -> bool {
    forall|k: int| 0 <= k < s.len() ==> #[trigger] s[k] != '\n'
}

/// Whether a triple is read back from a line of N-Triples: a subject that is
/// no literal, an IRI as predicate, readable terms, and no line feed inside.
pub open spec fn line_readable(t: TripleView) -> bool {
    &&& t.subject !is Literal
    &&& t.predicate is Uri
    &&& readable(t.subject) && readable(t.predicate) && readable(t.object)
    &&& one_line(formatted(t.subject)) && one_line(formatted(t.predicate)) && one_line(
        formatted(t.object),
    )
}

/// A line without its line feed.
spec fn line_body(t: TripleView) -> Seq<char> {
    formatted(t.subject) + seq![' '] + formatted(t.predicate) + seq![' '] + formatted(t.object)
        + seq![' ', '.']
}

proof fn lemma_skip_one(b: Seq<u8>, i: int)
    requires
        0 <= i,
        i + 1 < b.len(),
        b[i] as char == ' ',
        b[i + 1] as char == '<' || b[i + 1] as char == '_' || b[i + 1] as char == '"' || b[i + 1]
            as char == '.' || b[i + 1] as char == ';' || b[i + 1] as char == ',',
    ensures
        skip_space(b, i) == i + 1,
        skip_space(b, i + 1) == i + 1,
{
    reveal_with_fuel(skip_space, 3);
}

proof fn lemma_line_reads(t: TripleView)
    requires
        line_readable(t),
    ensures
        line_triple(encode_utf8(line_body(t))) == Ok::<TripleView, ErrorView>(t),
{
    let fs = formatted(t.subject);
    let fp = formatted(t.predicate);
    let fo = formatted(t.object);
    let b = encode_utf8(line_body(t));
    assert(b.subrange(0, b.len() as int) =~= b);
    let t3 = seq![' '] + seq!['.'];
    let t2 = fo + t3;
    let t1 = fp + (seq![' '] + t2);
    assert(line_body(t) =~= fs + (seq![' '] + t1));
    lemma_texts_stand(b, 0, fs, seq![' '] + t1);
    let i1 = encode_utf8(fs).len() as int;
    lemma_texts_stand(b, i1, seq![' '], t1);
    lemma_char_stands(b, i1, ' ');
    lemma_texts_stand(b, i1 + 1, fp, seq![' '] + t2);
    let i2 = i1 + 1 + encode_utf8(fp).len();
    lemma_texts_stand(b, i2, seq![' '], t2);
    lemma_char_stands(b, i2, ' ');
    lemma_texts_stand(b, i2 + 1, fo, t3);
    let i3 = i2 + 1 + encode_utf8(fo).len();
    lemma_texts_stand(b, i3, seq![' '], seq!['.']);
    lemma_char_stands(b, i3, ' ');
    lemma_char_stands(b, i3 + 1, '.');
    lemma_term_reads(b, 0, t.subject);
    lemma_term_reads(b, i1 + 1, t.predicate);
    lemma_term_reads(b, i2 + 1, t.object);
    lemma_skip_one(b, i1);
    lemma_skip_one(b, i2);
    lemma_skip_one(b, i3);
    assert(t == TripleView { subject: t.subject, predicate: t.predicate, object: t.object });
}

proof fn lemma_formatted_start(t: TermView)
    ensures
        formatted(t).len() > 0,
        formatted(t)[0] == '<' || formatted(t)[0] == '_' || formatted(t)[0] == '"',
{
}

proof fn lemma_line_feed_at(s: Seq<char>, i: int, e: int)
    requires
        0 <= i <= e < s.len(),
        s[e] == '\n',
        forall|k: int| i <= k < e ==> #[trigger] s[k] != '\n',
    ensures
        line_feed(s, i) == e,
    decreases e - i,
{
    if i < e {
        lemma_line_feed_at(s, i + 1, e);
    }
}

proof fn lemma_ntriples_front(ts: Seq<TripleView>)
    requires
        ts.len() > 0,
    ensures
        ntriples_text(ts) == ntriples_line(ts[0]) + ntriples_text(ts.skip(1)),
    decreases ts.len(),
{
    if ts.len() == 1 {
        assert(ts.drop_last() =~= seq![]);
        assert(ts.skip(1) =~= seq![]);
        assert(ntriples_text(ts) =~= ntriples_line(ts[0]) + ntriples_text(ts.skip(1)));
    } else {
        lemma_ntriples_front(ts.drop_last());
        assert(ts.drop_last().skip(1) =~= ts.skip(1).drop_last());
        assert(ts.drop_last()[0] == ts[0]);
        assert(ntriples_text(ts) =~= ntriples_line(ts[0]) + ntriples_text(ts.skip(1)));
    }
}

proof fn lemma_body_one_line(t: TripleView)
    requires
        line_readable(t),
    ensures
        one_line(line_body(t)),
{
    let body = line_body(t);
    let fs = formatted(t.subject);
    let fp = formatted(t.predicate);
    let fo = formatted(t.object);
    assert forall|k: int| 0 <= k < body.len() implies #[trigger] body[k] != '\n' by {
        if k < fs.len() {
            assert(body[k] == fs[k]);
        } else if fs.len() < k < fs.len() + 1 + fp.len() {
            assert(body[k] == fp[k - fs.len() - 1]);
        } else if fs.len() + fp.len() + 1 < k < fs.len() + fp.len() + 2 + fo.len() {
            assert(body[k] == fo[k - fs.len() - fp.len() - 2]);
        }
    }
}

proof fn lemma_ntriples_reads(
    s: Seq<char>,
    i: int,
    number: nat,
    ts: Seq<TripleView>,
    acc: Seq<TripleView>,
)
    requires
        0 <= i <= s.len(),
        s.skip(i) == ntriples_text(ts),
        forall|k: int| 0 <= k < ts.len() ==> line_readable(#[trigger] ts[k]),
    ensures
        ntriples_rest(s, i, number, acc) == Ok::<Seq<TripleView>, ErrorView>(acc + ts),
    decreases ts.len(),
{
    if ts.len() == 0 {
        assert(s.skip(i).len() == s.len() - i);
        assert(acc + ts =~= acc);
    } else {
        let t = ts[0];
        let rest = ts.skip(1);
        let body = line_body(t);
        let e = i + body.len();
        lemma_ntriples_front(ts);
        assert(ntriples_line(t) =~= body + seq!['\n']);
        assert(s.skip(i) =~= body + seq!['\n'] + ntriples_text(rest));
        assert(s.skip(i).len() == s.len() - i);
        assert(e + 1 + ntriples_text(rest).len() == s.len());
        assert forall|k: int| 0 <= k < body.len() implies s[i + k] == body[k] by {
            assert(s.skip(i)[k] == s[i + k]);
        }
        assert(s[e] == '\n') by {
            assert(s.skip(i)[body.len() as int] == s[e]);
        }
        assert(line_readable(ts[0]));
        lemma_body_one_line(t);
        assert forall|k: int| i <= k < e implies #[trigger] s[k] != '\n' by {
            assert(s[i + (k - i)] == body[k - i]);
        }
        lemma_line_feed_at(s, i, e);
        assert(s.subrange(i, e) =~= body);
        lemma_formatted_start(t.subject);
        assert(body[0] == formatted(t.subject)[0]);
        assert(body.last() == '.');
        assert(trim(body) == body);
        lemma_line_reads(t);
        assert(s.skip(e + 1) =~= ntriples_text(rest)) by {
            assert forall|k: int| 0 <= k < ntriples_text(rest).len() implies s[e + 1 + k]
                == ntriples_text(rest)[k] by {
                assert(s.skip(i)[body.len() + 1 + k] == s[e + 1 + k]);
            }
        }
        assert forall|k: int| 0 <= k < rest.len() implies line_readable(#[trigger] rest[k]) by {
            assert(rest[k] == ts[k + 1]);
        }
        lemma_ntriples_reads(s, e + 1, number + 1, rest, acc.push(t));
        assert(acc.push(t) + rest =~= acc + ts);
    }
}

/// Triples that are written as N-Triples are read back, all and in order.
pub proof fn law_ntriples_round_trip(ts: Seq<TripleView>)
    requires
        forall|k: int| 0 <= k < ts.len() ==> line_readable(#[trigger] ts[k]),
    ensures
        ntriples_rest(ntriples_text(ts), 0, 1, seq![]) == Ok::<Seq<TripleView>, ErrorView>(ts),
{
    assert(ntriples_text(ts).skip(0) =~= ntriples_text(ts));
    lemma_ntriples_reads(ntriples_text(ts), 0, 1, ts, seq![]);
    assert(Seq::<TripleView>::empty() + ts =~= ts);
}

// ---------------------------------------------------------------------------
// Turtle
// ---------------------------------------------------------------------------
/// Whether the three terms of a triple are readable.
pub open spec fn terms_readable(t: TripleView) -> bool {
    readable(t.subject) && readable(t.predicate) && readable(t.object)
}

/// The triples of one subject, grouped by the given predicates.
pub open spec fn by_predicates(us: Seq<TripleView>, predicates: Seq<TermView>) -> Seq<TripleView>
    decreases predicates.len(),
{
    if predicates.len() == 0 {
        seq![]
    } else {
        with_part(us, Position::Predicate, predicates[0]) + by_predicates(us, predicates.skip(1))
    }
}

/// The triples of the given subjects, grouped by subject and predicate.
pub open spec fn by_subjects(ts: Seq<TripleView>, subjects: Seq<TermView>) -> Seq<TripleView>
    decreases subjects.len(),
{
    if subjects.len() == 0 {
        seq![]
    } else {
        let us = with_part(ts, Position::Subject, subjects[0]);
        by_predicates(us, distinct_parts(us, Position::Predicate)) + by_subjects(
            ts,
            subjects.skip(1),
        )
    }
}

/// Triples grouped by subject, and within a subject by predicate, each in the
/// order of first occurrence.
pub open spec fn regrouped(ts: Seq<TripleView>) -> Seq<TripleView> {
    by_subjects(ts, distinct_parts(ts, Position::Subject))
}

proof fn lemma_object_list_front(us: Seq<TripleView>)
    requires
        us.len() >= 2,
    ensures
        object_list(us) == formatted(us[0].object) + seq![' ', ',', ' '] + object_list(us.skip(1)),
    decreases us.len(),
{
    assert(us.drop_last()[0] == us[0]);
    assert(us.drop_last().skip(1) =~= us.skip(1).drop_last());
    assert(us.skip(1).last() == us.last());
    if us.len() == 2 {
        reveal_with_fuel(object_list, 3);
        assert(us.skip(1)[0] == us[1]);
        assert(object_list(us) =~= formatted(us[0].object) + seq![' ', ',', ' '] + object_list(
            us.skip(1),
        ));
    } else {
        lemma_object_list_front(us.drop_last());
        assert(object_list(us) =~= formatted(us[0].object) + seq![' ', ',', ' '] + object_list(
            us.skip(1),
        ));
    }
}

/// The part of one predicate, without what stands before it.
spec fn predicate_part(us: Seq<TripleView>, p: TermView) -> Seq<char> {
    formatted(p) + (seq![' '] + object_list(with_part(us, Position::Predicate, p)))
}

/// The parts of further predicates.
spec fn further(us: Seq<TripleView>, predicates: Seq<TermView>) -> Seq<char>
    decreases predicates.len(),
{
    if predicates.len() == 0 {
        seq![]
    } else {
        seq![' ', ';', '\n', ' ', ' '] + predicate_part(us, predicates[0]) + further(
            us,
            predicates.skip(1),
        )
    }
}

proof fn lemma_further_back(us: Seq<TripleView>, predicates: Seq<TermView>)
    requires
        predicates.len() > 0,
    ensures
        further(us, predicates) == further(us, predicates.drop_last()) + (seq![
            ' ',
            ';',
            '\n',
            ' ',
            ' ',
        ] + predicate_part(us, predicates.last())),
    decreases predicates.len(),
{
    if predicates.len() == 1 {
        assert(predicates.drop_last() =~= seq![]);
        assert(predicates.skip(1) =~= seq![]);
        assert(further(us, predicates.skip(1)) =~= seq![]);
        assert(further(us, predicates.drop_last()) =~= seq![]);
    } else {
        lemma_further_back(us, predicates.skip(1));
        assert(predicates.skip(1).drop_last() =~= predicates.drop_last().skip(1));
        assert(predicates.skip(1).last() == predicates.last());
        assert(predicates.drop_last()[0] == predicates[0]);
    }
    assert(further(us, predicates) =~= further(us, predicates.drop_last()) + (seq![
        ' ',
        ';',
        '\n',
        ' ',
        ' ',
    ] + predicate_part(us, predicates.last())));
}

proof fn lemma_predicate_list_front(us: Seq<TripleView>, predicates: Seq<TermView>)
    requires
        predicates.len() > 0,
    ensures
        predicate_list(us, predicates) == seq![' '] + predicate_part(us, predicates[0]) + further(
            us,
            predicates.skip(1),
        ),
    decreases predicates.len(),
{
    if predicates.len() == 1 {
        assert(predicates.drop_last() =~= seq![]);
        assert(predicates.skip(1) =~= seq![]);
        assert(further(us, predicates.skip(1)) =~= seq![]);
        assert(predicate_list(us, predicates.drop_last()) =~= seq![]);
        assert(predicate_list(us, predicates) =~= seq![' '] + predicate_part(us, predicates[0])
            + further(us, predicates.skip(1)));
    } else {
        lemma_predicate_list_front(us, predicates.drop_last());
        lemma_further_back(us, predicates.skip(1));
        assert(predicates.drop_last()[0] == predicates[0]);
        assert(predicates.skip(1).drop_last() =~= predicates.drop_last().skip(1));
        assert(predicates.skip(1).last() == predicates.last());
        assert(predicate_list(us, predicates) =~= seq![' '] + predicate_part(us, predicates[0])
            + further(us, predicates.skip(1)));
    }
}

proof fn lemma_blocks_front(ts: Seq<TripleView>, subjects: Seq<TermView>)
    requires
        subjects.len() > 0,
    ensures
        blocks(ts, subjects) == subject_block(ts, subjects[0]) + blocks(ts, subjects.skip(1)),
    decreases subjects.len(),
{
    if subjects.len() == 1 {
        assert(subjects.drop_last() =~= seq![]);
        assert(subjects.skip(1) =~= seq![]);
        assert(blocks(ts, subjects) =~= subject_block(ts, subjects[0]) + blocks(
            ts,
            subjects.skip(1),
        ));
    } else {
        lemma_blocks_front(ts, subjects.drop_last());
        assert(subjects.drop_last().skip(1) =~= subjects.skip(1).drop_last());
        assert(subjects.drop_last()[0] == subjects[0]);
        assert(subjects.skip(1).last() == subjects.last());
        assert(blocks(ts, subjects) =~= subject_block(ts, subjects[0]) + blocks(
            ts,
            subjects.skip(1),
        ));
    }
}

/// Whether all triples of a sequence have the given subject and predicate and
/// readable objects.
spec fn one_list(us: Seq<TripleView>, s: TermView, p: TermView) -> bool {
    forall|k: int|
        0 <= k < us.len() ==> (#[trigger] us[k]).subject == s && us[k].predicate == p && readable(
            us[k].object,
        )
}

proof fn lemma_objects_read(
    b: Seq<u8>,
    i: int,
    us: Seq<TripleView>,
    s: TermView,
    p: TermView,
    acc: Seq<TripleView>,
)
    requires
        us.len() > 0,
        one_list(us, s, p),
        stands_at(b, i, encode_utf8(object_list(us))),
        i + encode_utf8(object_list(us)).len() + 1 < b.len(),
        b[i + encode_utf8(object_list(us)).len()] as char == ' ',
        b[i + encode_utf8(object_list(us)).len() + 1] as char == ';' || b[i + encode_utf8(
            object_list(us),
        ).len() + 1] as char == '.',
    ensures
        objects_at(b, i, Map::empty(), s, p, acc) == Ok::<(Seq<TripleView>, int), ErrorView>(
            (acc + us, i + encode_utf8(object_list(us)).len() + 1),
        ),
    decreases us.len(),
{
    let o = us[0].object;
    assert(us[0] == TripleView { subject: s, predicate: p, object: o });
    if us.len() == 1 {
        lemma_term_reads(b, i, o);
        let j = i + encode_utf8(formatted(o)).len();
        lemma_skip_one(b, j);
        assert(acc.push(us[0]) =~= acc + us);
    } else {
        let rest = us.skip(1);
        lemma_object_list_front(us);
        let tail = seq![' '] + (seq![','] + (seq![' '] + object_list(rest)));
        assert(object_list(us) =~= formatted(o) + tail);
        lemma_texts_stand(b, i, formatted(o), tail);
        let j = i + encode_utf8(formatted(o)).len();
        lemma_texts_stand(b, j, seq![' '], seq![','] + (seq![' '] + object_list(rest)));
        lemma_char_stands(b, j, ' ');
        lemma_texts_stand(b, j + 1, seq![','], seq![' '] + object_list(rest));
        lemma_char_stands(b, j + 1, ',');
        lemma_texts_stand(b, j + 2, seq![' '], object_list(rest));
        lemma_char_stands(b, j + 2, ' ');
        lemma_term_reads(b, i, o);
        lemma_skip_one(b, j);
        assert(one_list(rest, s, p)) by {
            assert forall|k: int| 0 <= k < rest.len() implies (#[trigger] rest[k]).subject == s
                && rest[k].predicate == p && readable(rest[k].object) by {
                assert(rest[k] == us[k + 1]);
            }
        }
        lemma_object_list_start(b, j + 3, rest);
        lemma_skip_one(b, j + 2);
        lemma_objects_read(b, j + 3, rest, s, p, acc.push(us[0]));
        assert(acc.push(us[0]) + rest =~= acc + us);
    }
}

proof fn lemma_object_list_start(b: Seq<u8>, i: int, us: Seq<TripleView>)
    requires
        us.len() > 0,
        stands_at(b, i, encode_utf8(object_list(us))),
    ensures
        i < b.len(),
        b[i] as char == '<' || b[i] as char == '_' || b[i] as char == '"',
{
    let o = us[0].object;
    lemma_formatted_start(o);
    let f = formatted(o);
    let c = f[0];
    let tail = f.skip(1) + if us.len() == 1 {
        seq![]
    } else {
        seq![' ', ',', ' '] + object_list(us.skip(1))
    };
    if us.len() >= 2 {
        lemma_object_list_front(us);
    }
    assert(object_list(us) =~= seq![c] + tail);
    lemma_texts_stand(b, i, seq![c], tail);
    lemma_char_stands(b, i, c);
}

spec fn starts_term(c: char) -> bool {
    c == '<' || c == '_' || c == '"'
}

proof fn lemma_skip_gap(b: Seq<u8>, i: int)
    requires
        0 <= i,
        i + 3 < b.len(),
        b[i] as char == '\n',
        b[i + 1] as char == ' ',
        b[i + 2] as char == ' ',
        starts_term(b[i + 3] as char),
    ensures
        skip_space(b, i) == i + 3,
        skip_space(b, i + 3) == i + 3,
{
    reveal_with_fuel(skip_space, 5);
}

/// Where the part of a predicate stands, a term starts.
proof fn lemma_part_start(b: Seq<u8>, i: int, us: Seq<TripleView>, p: TermView, tail: Seq<char>)
    requires
        stands_at(b, i, encode_utf8(predicate_part(us, p) + tail)),
    ensures
        i < b.len(),
        starts_term(b[i] as char),
{
    lemma_formatted_start(p);
    let c = formatted(p)[0];
    let after = formatted(p).skip(1) + (seq![' '] + object_list(
        with_part(us, Position::Predicate, p),
    )) + tail;
    assert(predicate_part(us, p) + tail =~= seq![c] + after);
    lemma_texts_stand(b, i, seq![c], after);
    lemma_char_stands(b, i, c);
}

/// Where further predicates stand, a semicolon and a gap come first.
proof fn lemma_gap_stands(b: Seq<u8>, e: int, inner: Seq<char>)
    requires
        stands_at(b, e, encode_utf8(seq![' ', ';', '\n', ' ', ' '] + inner)),
    ensures
        e >= 0,
        e + 5 <= b.len(),
        b[e] as char == ' ',
        b[e + 1] as char == ';',
        b[e + 2] as char == '\n',
        b[e + 3] as char == ' ',
        b[e + 4] as char == ' ',
        stands_at(b, e + 5, encode_utf8(inner)),
        encode_utf8(seq![' ', ';', '\n', ' ', ' '] + inner).len() == 5 + encode_utf8(inner).len(),
{
    let gap = seq![' ', ';', '\n', ' ', ' '];
    lemma_texts_stand(b, e, gap, inner);
    assert(is_ascii_chars(gap));
    lemma_ascii_stands(b, e, gap);
    assert(b[e + 0] as char == gap[0]);
    assert(b[e + 1] as char == gap[1]);
    assert(b[e + 2] as char == gap[2]);
    assert(b[e + 3] as char == gap[3]);
    assert(b[e + 4] as char == gap[4]);
}

/// Where the end of a block stands, there are a space and a full stop.
proof fn lemma_stop_stands(b: Seq<u8>, e: int)
    requires
        stands_at(b, e, encode_utf8(seq![' ', '.'])),
    ensures
        e >= 0,
        e + 2 <= b.len(),
        b[e] as char == ' ',
        b[e + 1] as char == '.',
        encode_utf8(seq![' ', '.']).len() == 2,
{
    let stop = seq![' ', '.'];
    assert(is_ascii_chars(stop));
    lemma_ascii_stands(b, e, stop);
    assert(b[e + 0] as char == stop[0]);
    assert(b[e + 1] as char == stop[1]);
}

/// One predicate with its objects, read up to what follows them.
proof fn lemma_predicate_reads(
    b: Seq<u8>,
    i: int,
    us: Seq<TripleView>,
    s: TermView,
    p: TermView,
    tail: Seq<char>,
    acc: Seq<TripleView>,
)
    requires
        forall|k: int|
            0 <= k < us.len() ==> (#[trigger] us[k]).subject == s && terms_readable(us[k]),
        with_part(us, Position::Predicate, p).len() > 0,
        stands_at(b, i, encode_utf8(predicate_part(us, p) + tail)),
        ({
            let e = i + encode_utf8(predicate_part(us, p)).len();
            &&& e + 1 < b.len()
            &&& b[e] as char == ' '
            &&& b[e + 1] as char == ';' || b[e + 1] as char == '.'
        }),
    ensures
        ({
            let j = i + encode_utf8(formatted(p)).len();
            let e = i + encode_utf8(predicate_part(us, p)).len();
            &&& skip_space(b, i) == i
            &&& peek(b, i) != Some('.')
            &&& verb_at(b, i, Map::empty()) == Ok::<(TermView, int), ErrorView>((p, j))
            &&& objects_at(b, skip_space(b, j), Map::empty(), s, p, acc) == Ok::<
                (Seq<TripleView>, int),
                ErrorView,
            >((acc + with_part(us, Position::Predicate, p), e + 1))
            &&& skip_space(b, e + 1) == e + 1
            &&& stands_at(b, e, encode_utf8(tail))
        }),
{
    let vs = with_part(us, Position::Predicate, p);
    let objs = object_list(vs);
    assert forall|k: int| 0 <= k < vs.len() implies (#[trigger] vs[k]).subject == s
        && vs[k].predicate == p && terms_readable(vs[k]) by {
        assert(vs.contains(vs[k]));
        lemma_filter_contains(us, |t: TripleView| part(t, Position::Predicate) == p, vs[k]);
        let m = us.index_of(vs[k]);
        assert(us[m] == vs[k]);
    }
    assert(one_list(vs, s, p));
    assert(readable(p)) by {
        assert(vs[0].predicate == p);
    }
    lemma_texts_stand(b, i, predicate_part(us, p), tail);
    lemma_texts_stand(b, i, formatted(p), seq![' '] + objs);
    let j = i + encode_utf8(formatted(p)).len();
    lemma_texts_stand(b, j, seq![' '], objs);
    lemma_char_stands(b, j, ' ');
    let e = j + 1 + encode_utf8(objs).len();
    lemma_term_reads(b, i, p);
    lemma_object_list_start(b, j + 1, vs);
    lemma_skip_one(b, j);
    lemma_objects_read(b, j + 1, vs, s, p, acc);
    lemma_skip_one(b, e);
}

#[verifier::spinoff_prover]
#[verifier::rlimit(40)]
proof fn lemma_predicates_read(
    b: Seq<u8>,
    i: int,
    us: Seq<TripleView>,
    s: TermView,
    predicates: Seq<TermView>,
    acc: Seq<TripleView>,
)
    requires
        predicates.len() > 0,
        forall|k: int|
            0 <= k < us.len() ==> (#[trigger] us[k]).subject == s && terms_readable(us[k]),
        forall|k: int|
            0 <= k < predicates.len() ==> with_part(
                us,
                Position::Predicate,
                #[trigger] predicates[k],
            ).len() > 0,
        stands_at(
            b,
            i,
            encode_utf8(
                predicate_part(us, predicates[0]) + (further(us, predicates.skip(1)) + seq![' ', '.']),
            ),
        ),
    ensures
        predicates_at(b, i, Map::empty(), s, acc) == Ok::<(Seq<TripleView>, int), ErrorView>(
            (
                acc + by_predicates(us, predicates),
                i + encode_utf8(
                    predicate_part(us, predicates[0]) + (further(us, predicates.skip(1)) + seq![
                        ' ',
                        '.',
                    ]),
                ).len(),
            ),
        ),
    decreases predicates.len(),
{
    let p = predicates[0];
    let vs = with_part(us, Position::Predicate, p);
    let rest = predicates.skip(1);
    let tail = further(us, rest) + seq![' ', '.'];
    assert(with_part(us, Position::Predicate, predicates[0]).len() > 0);
    lemma_texts_stand(b, i, predicate_part(us, p), tail);
    let e = i + encode_utf8(predicate_part(us, p)).len();
    if rest.len() == 0 {
        assert(further(us, rest) =~= seq![]);
        assert(tail =~= seq![' ', '.']);
        lemma_stop_stands(b, e);
        lemma_predicate_reads(b, i, us, s, p, tail, acc);
        assert(by_predicates(us, rest) =~= seq![]);
        assert(by_predicates(us, predicates) =~= vs);
    } else {
        let after = further(us, rest.skip(1)) + seq![' ', '.'];
        let inner = predicate_part(us, rest[0]) + after;
        assert(tail =~= seq![' ', ';', '\n', ' ', ' '] + inner);
        lemma_gap_stands(b, e, inner);
        lemma_predicate_reads(b, i, us, s, p, tail, acc);
        assert forall|k: int| 0 <= k < rest.len() implies with_part(
            us,
            Position::Predicate,
            #[trigger] rest[k],
        ).len() > 0 by {
            assert(rest[k] == predicates[k + 1]);
        }
        lemma_predicates_read(b, e + 5, us, s, rest, acc + vs);
        lemma_part_start(b, e + 5, us, rest[0], after);
        lemma_skip_gap(b, e + 2);
        assert(acc + vs + by_predicates(us, rest) =~= acc + by_predicates(us, predicates));
    }
}

proof fn lemma_distinct_parts(ts: Seq<TripleView>, at: Position, x: TermView)
    ensures
        distinct_parts(ts, at).contains(x) <==> with_part(ts, at, x).len() > 0,
        ts.len() > 0 ==> distinct_parts(ts, at).len() > 0,
    decreases ts.len(),
{
    if ts.len() > 0 {
        let t = ts.drop_last();
        let last = ts.last();
        assert(ts == t.push(last));
        lemma_distinct_parts(t, at, x);
        lemma_filter_push(t, last, |y: TripleView| part(y, at) == x);
        lemma_push_contains(distinct_parts(t, at), part(last, at), x);
        lemma_push_contains(distinct_parts(t, at), part(last, at), part(last, at));
    } else {
        reveal(Seq::filter);
        assert(with_part(ts, at, x) =~= seq![]);
    }
}

/// The first byte of a keyword decides against a place that holds another.
proof fn lemma_not_keyword(b: Seq<u8>, i: int, kw: Seq<char>)
    requires
        0 <= i < b.len(),
        kw.len() > 0,
        (kw[0] as u32) < 128,
        b[i] as char != kw[0],
    ensures
        !keyword_at(b, i, encode_utf8(kw)),
{
    lemma_first_bytes(kw);
    lemma_char_number(kw[0]);
    let w = encode_utf8(kw);
    if keyword_at(b, i, w) {
        assert(b.subrange(i, i + w.len())[0] == b[i]);
    }
}

#[verifier::spinoff_prover]
#[verifier::rlimit(40)]
proof fn lemma_blocks_read(
    b: Seq<u8>,
    q: int,
    i: int,
    ts: Seq<TripleView>,
    subjects: Seq<TermView>,
    acc: Seq<TripleView>,
)
    requires
        forall|k: int| 0 <= k < ts.len() ==> terms_readable(#[trigger] ts[k]),
        forall|k: int|
            0 <= k < subjects.len() ==> with_part(
                ts,
                Position::Subject,
                #[trigger] subjects[k],
            ).len() > 0,
        stands_at(b, i, encode_utf8(blocks(ts, subjects))),
        i + encode_utf8(blocks(ts, subjects)).len() == b.len(),
        0 <= q,
        q == i || (q + 1 == i && b[q] as char == '\n'),
    ensures
        turtle_rest(b, q, Map::empty(), acc) == Ok::<Seq<TripleView>, ErrorView>(
            acc + by_subjects(ts, subjects),
        ),
    decreases subjects.len(),
{
    if subjects.len() == 0 {
        assert(encode_utf8(blocks(ts, subjects)) =~= seq![]);
        lemma_skip_to(b, q, i);
        assert(acc + by_subjects(ts, subjects) =~= acc);
    } else {
        let s = subjects[0];
        let rest = subjects.skip(1);
        let us = with_part(ts, Position::Subject, s);
        let preds = distinct_parts(us, Position::Predicate);
        assert(with_part(ts, Position::Subject, subjects[0]).len() > 0);
        lemma_blocks_front(ts, subjects);
        let block = subject_block(ts, s);
        lemma_texts_stand(b, i, block, blocks(ts, rest));
        lemma_block_reads(b, i, ts, s, acc);
        let e = i + encode_utf8(block).len();
        lemma_skip_to(b, q, i);
        lemma_no_declaration(b, i);
        assert forall|k: int| 0 <= k < rest.len() implies with_part(
            ts,
            Position::Subject,
            #[trigger] rest[k],
        ).len() > 0 by {
            assert(rest[k] == subjects[k + 1]);
        }
        lemma_blocks_read(b, e - 1, e, ts, rest, acc + by_predicates(us, preds));
        assert(acc + by_predicates(us, preds) + by_subjects(ts, rest) =~= acc + by_subjects(
            ts,
            subjects,
        ));
    }
}

/// Skipping an optional line feed before a term or the end.
proof fn lemma_skip_to(b: Seq<u8>, q: int, i: int)
    requires
        0 <= q <= i <= b.len(),
        q == i || (q + 1 == i && b[q] as char == '\n'),
        i < b.len() ==> starts_term(b[i] as char),
    ensures
        skip_space_and_comments(b, q) == i,
{
    reveal_with_fuel(skip_space, 3);
    assert(skip_space(b, q) == i);
}

/// Where a term starts, no declaration stands.
proof fn lemma_no_declaration(b: Seq<u8>, i: int)
    requires
        0 <= i < b.len(),
        starts_term(b[i] as char),
    ensures
        !keyword_at(b, i, encode_utf8("PREFIX"@)),
        !keyword_at(b, i, encode_utf8("@prefix"@)),
        !keyword_at(b, i, encode_utf8("BASE"@)),
        !keyword_at(b, i, encode_utf8("@base"@)),
{
    reveal_strlit("PREFIX");
    reveal_strlit("@prefix");
    reveal_strlit("BASE");
    reveal_strlit("@base");
    lemma_not_keyword(b, i, "PREFIX"@);
    lemma_not_keyword(b, i, "@prefix"@);
    lemma_not_keyword(b, i, "BASE"@);
    lemma_not_keyword(b, i, "@base"@);
}

/// The block of one subject, read up to its line feed.
#[verifier::spinoff_prover]
#[verifier::rlimit(60)]
proof fn lemma_block_reads(
    b: Seq<u8>,
    i: int,
    ts: Seq<TripleView>,
    s: TermView,
    acc: Seq<TripleView>,
)
    requires
        forall|k: int| 0 <= k < ts.len() ==> terms_readable(#[trigger] ts[k]),
        with_part(ts, Position::Subject, s).len() > 0,
        stands_at(b, i, encode_utf8(subject_block(ts, s))),
    ensures
        ({
            let us = with_part(ts, Position::Subject, s);
            let e = i + encode_utf8(subject_block(ts, s)).len();
            &&& block_at(b, i, Map::empty(), acc) == Ok::<(Seq<TripleView>, int), ErrorView>(
                (acc + by_predicates(us, distinct_parts(us, Position::Predicate)), e - 1),
            )
            &&& e - 1 >= 0
            &&& e <= b.len()
            &&& b[e - 1] as char == '\n'
            &&& i < b.len()
            &&& starts_term(b[i] as char)
        }),
{
    let us = with_part(ts, Position::Subject, s);
    let preds = distinct_parts(us, Position::Predicate);
    assert forall|k: int| 0 <= k < us.len() implies (#[trigger] us[k]).subject == s
        && terms_readable(us[k]) by {
        assert(us.contains(us[k]));
        lemma_filter_contains(ts, |t: TripleView| part(t, Position::Subject) == s, us[k]);
        let m = ts.index_of(us[k]);
        assert(ts[m] == us[k]);
    }
    assert(us[0].subject == s);
    lemma_distinct_parts(us, Position::Predicate, us[0].predicate);
    assert forall|k: int| 0 <= k < preds.len() implies with_part(
        us,
        Position::Predicate,
        #[trigger] preds[k],
    ).len() > 0 by {
        assert(preds.contains(preds[k]));
        lemma_distinct_parts(us, Position::Predicate, preds[k]);
    }
    lemma_predicate_list_front(us, preds);
    let after = further(us, preds.skip(1)) + seq![' ', '.'];
    let inner = predicate_part(us, preds[0]) + after;
    assert(subject_block(ts, s) =~= formatted(s) + (seq![' '] + (inner + seq!['\n'])));
    lemma_texts_stand(b, i, formatted(s), seq![' '] + (inner + seq!['\n']));
    let j = i + encode_utf8(formatted(s)).len();
    lemma_texts_stand(b, j, seq![' '], inner + seq!['\n']);
    lemma_char_stands(b, j, ' ');
    lemma_texts_stand(b, j + 1, inner, seq!['\n']);
    lemma_char_stands(b, j + 1 + encode_utf8(inner).len(), '\n');
    lemma_term_reads(b, i, s);
    lemma_predicates_read(b, j + 1, us, s, preds, acc);
    lemma_part_start(b, j + 1, us, preds[0], after);
    lemma_skip_one(b, j);
}

/// Triples that are written as Turtle are read back, grouped by subject and
/// predicate.
pub proof fn law_turtle_round_trip(ts: Seq<TripleView>)
    requires
        forall|k: int| 0 <= k < ts.len() ==> terms_readable(#[trigger] ts[k]),
    ensures
        turtle_rest(encode_utf8(turtle_text(ts)), 0, Map::empty(), seq![]) == Ok::<
            Seq<TripleView>,
            ErrorView,
        >(regrouped(ts)),
{
    let subjects = distinct_parts(ts, Position::Subject);
    let b = encode_utf8(turtle_text(ts));
    assert(b.subrange(0, b.len() as int) =~= b);
    assert forall|k: int| 0 <= k < subjects.len() implies with_part(
        ts,
        Position::Subject,
        #[trigger] subjects[k],
    ).len() > 0 by {
        assert(subjects.contains(subjects[k]));
        lemma_distinct_parts(ts, Position::Subject, subjects[k]);
    }
    lemma_blocks_read(b, 0, 0, ts, subjects, seq![]);
    assert(Seq::<TripleView>::empty() + regrouped(ts) =~= regrouped(ts));
}

/// How often a triple occurs.
pub open spec fn occurrences(s: Seq<TripleView>, x: TripleView) -> nat
    decreases s.len(),
{
    if s.len() == 0 {
        0
    } else {
        occurrences(s.drop_last(), x) + if s.last() == x {
            1nat
        } else {
            0nat
        }
    }
}

proof fn lemma_occurrences_concat(a: Seq<TripleView>, b: Seq<TripleView>, x: TripleView)
    ensures
        occurrences(a + b, x) == occurrences(a, x) + occurrences(b, x),
    decreases b.len(),
{
    if b.len() == 0 {
        assert(a + b =~= a);
    } else {
        assert((a + b).drop_last() =~= a + b.drop_last());
        lemma_occurrences_concat(a, b.drop_last(), x);
    }
}

proof fn lemma_occurrences_part(ts: Seq<TripleView>, at: Position, term: TermView, x: TripleView)
    ensures
        occurrences(with_part(ts, at, term), x) == (if part(x, at) == term {
            occurrences(ts, x)
        } else {
            0
        }),
    decreases ts.len(),
{
    if ts.len() == 0 {
        reveal(Seq::filter);
        assert(with_part(ts, at, term) =~= seq![]);
    } else {
        let t = ts.drop_last();
        assert(ts == t.push(ts.last()));
        lemma_occurrences_part(t, at, term, x);
        lemma_filter_push(t, ts.last(), |y: TripleView| part(y, at) == term);
        assert(with_part(t, at, term).push(ts.last()).drop_last() =~= with_part(t, at, term));
    }
}

proof fn lemma_distinct_no_duplicates(ts: Seq<TripleView>, at: Position)
    ensures
        distinct_parts(ts, at).no_duplicates(),
    decreases ts.len(),
{
    if ts.len() > 0 {
        lemma_distinct_no_duplicates(ts.drop_last(), at);
    }
}

proof fn lemma_occurrences_predicates(
    us: Seq<TripleView>,
    predicates: Seq<TermView>,
    x: TripleView,
)
    requires
        predicates.no_duplicates(),
    ensures
        occurrences(by_predicates(us, predicates), x) == (if predicates.contains(x.predicate) {
            occurrences(us, x)
        } else {
            0
        }),
    decreases predicates.len(),
{
    if predicates.len() > 0 {
        let p = predicates[0];
        let rest = predicates.skip(1);
        lemma_occurrences_predicates(us, rest, x);
        lemma_occurrences_part(us, Position::Predicate, p, x);
        lemma_occurrences_concat(
            with_part(us, Position::Predicate, p),
            by_predicates(us, rest),
            x,
        );
        lemma_skip_contains(predicates, x.predicate);
    }
}

proof fn lemma_skip_contains(s: Seq<TermView>, x: TermView)
    requires
        s.len() > 0,
        s.no_duplicates(),
    ensures
        s.contains(x) <==> s[0] == x || s.skip(1).contains(x),
        s.skip(1).no_duplicates(),
        s[0] == x ==> !s.skip(1).contains(x),
{
    if s.contains(x) && s[0] != x {
        let i = s.index_of(x);
        assert(s.skip(1)[i - 1] == x);
    }
    if s.skip(1).contains(x) {
        let i = s.skip(1).index_of(x);
        assert(s[i + 1] == x);
    }
}

proof fn lemma_occurrences_subjects(ts: Seq<TripleView>, subjects: Seq<TermView>, x: TripleView)
    requires
        subjects.no_duplicates(),
    ensures
        occurrences(by_subjects(ts, subjects), x) == (if subjects.contains(x.subject) {
            occurrences(ts, x)
        } else {
            0
        }),
    decreases subjects.len(),
{
    if subjects.len() > 0 {
        let s = subjects[0];
        let rest = subjects.skip(1);
        lemma_skip_contains(subjects, x.subject);
        lemma_occurrences_subjects(ts, rest, x);
        let us = with_part(ts, Position::Subject, s);
        let preds = distinct_parts(us, Position::Predicate);
        lemma_occurrences_part(ts, Position::Subject, s, x);
        lemma_distinct_no_duplicates(us, Position::Predicate);
        lemma_occurrences_predicates(us, preds, x);
        lemma_occurrences_concat(by_predicates(us, preds), by_subjects(ts, rest), x);
        lemma_distinct_parts(us, Position::Predicate, x.predicate);
        lemma_occurrences_part(us, Position::Predicate, x.predicate, x);
        if with_part(us, Position::Predicate, x.predicate).len() == 0 {
            assert(with_part(us, Position::Predicate, x.predicate) =~= seq![]);
        }
    }
}

/// Grouping neither adds nor drops a triple: each occurs as often as before.
pub proof fn law_regrouping_keeps_triples(ts: Seq<TripleView>, x: TripleView)
    ensures
        occurrences(regrouped(ts), x) == occurrences(ts, x),
{
    let subjects = distinct_parts(ts, Position::Subject);
    lemma_distinct_no_duplicates(ts, Position::Subject);
    lemma_occurrences_subjects(ts, subjects, x);
    lemma_distinct_parts(ts, Position::Subject, x.subject);
    lemma_occurrences_part(ts, Position::Subject, x.subject, x);
    if with_part(ts, Position::Subject, x.subject).len() == 0 {
        assert(with_part(ts, Position::Subject, x.subject) =~= seq![]);
    }
}

} // verus!
