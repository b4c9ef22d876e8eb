//! What the words and the terms of a text are.

use vstd::prelude::*;

use crate::search::bm25::{query_terms, terms_of_text};
use crate::search::stemmer::{cut, has_suffix, lemma_word_end, stem_of, word_end};
use crate::search::stemmer_laws::{
    ends_in, lemma_end_before, lemma_end_shift, lemma_ends_in, lemma_first_endings,
    lemma_has_letters, lemma_letters, lemma_with_ending, letter,
};
use crate::search::tokenizer::{
    simple_stem, stopwords, tokens_of, tokens_of_words, without_plural, without_tense, words_from,
    words_of, TokenView,
};
use crate::text::{byte_len, is_letter_or_number, lowercase};
use crate::utf8::lemma_encode_concat;

verus! {

/// Whether the word is an article, a conjunction or a negation.
pub open spec fn is_article_or_link(w: Seq<char>) -> bool {
    ||| w == "a"@
    ||| w == "an"@
    ||| w == "the"@
    ||| w == "and"@
    ||| w == "or"@
    ||| w == "but"@
    ||| w == "no"@
    ||| w == "nor"@
    ||| w == "not"@
    ||| w == "so"@
    ||| w == "than"@
}

/// Whether the word is an auxiliary verb.
pub open spec fn is_auxiliary(w: Seq<char>) -> bool {
    ||| w == "is"@
    ||| w == "are"@
    ||| w == "was"@
    ||| w == "were"@
    ||| w == "be"@
    ||| w == "been"@
    ||| w == "being"@
    ||| w == "have"@
    ||| w == "has"@
    ||| w == "had"@
    ||| w == "do"@
    ||| w == "does"@
    ||| w == "did"@
    ||| w == "will"@
    ||| w == "would"@
    ||| w == "could"@
    ||| w == "should"@
    ||| w == "may"@
    ||| w == "might"@
    ||| w == "must"@
    ||| w == "can"@
    ||| w == "don"@
}

/// Whether the word is a pronoun or a question word.
pub open spec fn is_pronoun(w: Seq<char>) -> bool {
    ||| w == "this"@
    ||| w == "that"@
    ||| w == "these"@
    ||| w == "those"@
    ||| w == "i"@
    ||| w == "you"@
    ||| w == "he"@
    ||| w == "she"@
    ||| w == "it"@
    ||| w == "we"@
    ||| w == "they"@
    ||| w == "what"@
    ||| w == "which"@
    ||| w == "who"@
    ||| w == "when"@
    ||| w == "where"@
    ||| w == "why"@
    ||| w == "how"@
}

/// Whether the word is a word of quantity or degree.
pub open spec fn is_quantity(w: Seq<char>) -> bool {
    ||| w == "all"@
    ||| w == "each"@
    ||| w == "every"@
    ||| w == "both"@
    ||| w == "few"@
    ||| w == "more"@
    ||| w == "most"@
    ||| w == "other"@
    ||| w == "some"@
    ||| w == "such"@
    ||| w == "only"@
    ||| w == "own"@
    ||| w == "same"@
    ||| w == "too"@
    ||| w == "very"@
    ||| w == "s"@
    ||| w == "t"@
    ||| w == "just"@
    ||| w == "now"@
}

/// Whether the word is a preposition.
pub open spec fn is_preposition(w: Seq<char>) -> bool {
    ||| w == "in"@
    ||| w == "on"@
    ||| w == "at"@
    ||| w == "to"@
    ||| w == "for"@
    ||| w == "of"@
    ||| w == "with"@
    ||| w == "by"@
    ||| w == "from"@
    ||| w == "up"@
    ||| w == "about"@
    ||| w == "into"@
    ||| w == "through"@
    ||| w == "during"@
    ||| w == "before"@
    ||| w == "after"@
    ||| w == "above"@
    ||| w == "below"@
    ||| w == "between"@
}

/// Whether the word is too common to be searched for.
pub open spec fn is_common(w: Seq<char>) -> bool {
    is_article_or_link(w) || is_auxiliary(w) || is_pronoun(w) || is_quantity(w) || is_preposition(w)
}

/// The stop-words are the common words.
pub proof fn law_common_words(w: Seq<char>)
    ensures
        stopwords().contains(w) == is_common(w),
{
    let s = stopwords();
    if is_common(w) {
        assert(s[0] == "a"@);
        assert(s[1] == "an"@);
        assert(s[2] == "the"@);
        assert(s[3] == "and"@);
        assert(s[4] == "or"@);
        assert(s[5] == "but"@);
        assert(s[6] == "is"@);
        assert(s[7] == "are"@);
        assert(s[8] == "was"@);
        assert(s[9] == "were"@);
        assert(s[10] == "be"@);
        assert(s[11] == "been"@);
        assert(s[12] == "being"@);
        assert(s[13] == "have"@);
        assert(s[14] == "has"@);
        assert(s[15] == "had"@);
        assert(s[16] == "do"@);
        assert(s[17] == "does"@);
        assert(s[18] == "did"@);
        assert(s[19] == "will"@);
        assert(s[20] == "would"@);
        assert(s[21] == "could"@);
        assert(s[22] == "should"@);
        assert(s[23] == "may"@);
        assert(s[24] == "might"@);
        assert(s[25] == "must"@);
        assert(s[26] == "can"@);
        assert(s[27] == "this"@);
        assert(s[28] == "that"@);
        assert(s[29] == "these"@);
        assert(s[30] == "those"@);
        assert(s[31] == "i"@);
        assert(s[32] == "you"@);
        assert(s[33] == "he"@);
        assert(s[34] == "she"@);
        assert(s[35] == "it"@);
        assert(s[36] == "we"@);
        assert(s[37] == "they"@);
        assert(s[38] == "what"@);
        assert(s[39] == "which"@);
        assert(s[40] == "who"@);
        assert(s[41] == "when"@);
        assert(s[42] == "where"@);
        assert(s[43] == "why"@);
        assert(s[44] == "how"@);
        assert(s[45] == "all"@);
        assert(s[46] == "each"@);
        assert(s[47] == "every"@);
        assert(s[48] == "both"@);
        assert(s[49] == "few"@);
        assert(s[50] == "more"@);
        assert(s[51] == "most"@);
        assert(s[52] == "other"@);
        assert(s[53] == "some"@);
        assert(s[54] == "such"@);
        assert(s[55] == "no"@);
        assert(s[56] == "nor"@);
        assert(s[57] == "not"@);
        assert(s[58] == "only"@);
        assert(s[59] == "own"@);
        assert(s[60] == "same"@);
        assert(s[61] == "so"@);
        assert(s[62] == "than"@);
        assert(s[63] == "too"@);
        assert(s[64] == "very"@);
        assert(s[65] == "s"@);
        assert(s[66] == "t"@);
        assert(s[67] == "just"@);
        assert(s[68] == "don"@);
        assert(s[69] == "now"@);
        assert(s[70] == "in"@);
        assert(s[71] == "on"@);
        assert(s[72] == "at"@);
        assert(s[73] == "to"@);
        assert(s[74] == "for"@);
        assert(s[75] == "of"@);
        assert(s[76] == "with"@);
        assert(s[77] == "by"@);
        assert(s[78] == "from"@);
        assert(s[79] == "up"@);
        assert(s[80] == "about"@);
        assert(s[81] == "into"@);
        assert(s[82] == "through"@);
        assert(s[83] == "during"@);
        assert(s[84] == "before"@);
        assert(s[85] == "after"@);
        assert(s[86] == "above"@);
        assert(s[87] == "below"@);
        assert(s[88] == "between"@);
        let k = choose|k: int| 0 <= k < 89 && #[trigger] s[k] == w;
        assert(s.contains(s[k]));
    }
    if s.contains(w) {
        let k = s.index_of(w);
        assert(s[k] == w);
    }
}

proof fn lemma_words_behind(a: Seq<char>, sep: char, b: Seq<char>, i: int)
    requires
        0 <= i <= b.len(),
    ensures
        words_from(a + seq![sep] + b, a.len() + 1 + i) == words_from(b, i),
    decreases b.len() - i,
{
    let s = a + seq![sep] + b;
    let k = a.len() + 1 + i;
    if i < b.len() {
        assert(s[k] == b[i]);
        if is_letter_or_number(b[i]) {
            lemma_end_shift(a, sep, b, i);
            lemma_word_end(b, i);
            let e = word_end(b, i);
            assert(s.subrange(k, a.len() + 1 + e) =~= b.subrange(i, e));
            lemma_words_behind(a, sep, b, e);
        } else {
            lemma_words_behind(a, sep, b, i + 1);
        }
    }
}

proof fn lemma_words_before(a: Seq<char>, sep: char, b: Seq<char>, i: int)
    requires
        0 <= i <= a.len(),
        !is_letter_or_number(sep),
    ensures
        words_from(a + seq![sep] + b, i) == words_from(a, i) + words_from(b, 0),
    decreases a.len() - i,
{
    let s = a + seq![sep] + b;
    if i == a.len() {
        assert(s[i] == sep);
        lemma_words_behind(a, sep, b, 0);
        assert(words_from(s, i) =~= words_from(a, i) + words_from(b, 0));
    } else {
        assert(s[i] == a[i]);
        if is_letter_or_number(a[i]) {
            lemma_end_before(a, sep, b, i);
            lemma_word_end(a, i);
            let e = word_end(a, i);
            assert(s.subrange(i, e) =~= a.subrange(i, e));
            lemma_words_before(a, sep, b, e);
        } else {
            lemma_words_before(a, sep, b, i + 1);
        }
        assert(words_from(s, i) =~= words_from(a, i) + words_from(b, 0));
    }
}

/// A character that is neither letter nor number parts the words of a text.
pub proof fn law_words_parted(a: Seq<char>, sep: char, b: Seq<char>)
    requires
        !is_letter_or_number(sep),
    ensures
        words_of(a + seq![sep] + b) == words_of(a) + words_of(b),
{
    lemma_words_before(a, sep, b, 0);
}

/// A text of letters and numbers alone is one word; an empty text has none.
pub proof fn law_one_word(w: Seq<char>)
    requires
        forall|i: int| 0 <= i < w.len() ==> is_letter_or_number(#[trigger] w[i]),
    ensures
        w.len() > 0 ==> words_of(w) == seq![w],
        w.len() == 0 ==> words_of(w) == Seq::<Seq<char>>::empty(),
{
    if w.len() > 0 {
        lemma_word_end(w, 0);
        assert(word_end(w, 0) == w.len());
        assert(w.subrange(0, w.len() as int) =~= w);
        assert(words_from(w, w.len() as int) =~= seq![]);
        assert(words_of(w) =~= seq![w]);
    } else {
        assert(words_of(w) =~= seq![]);
    }
}

/// The terms of a text are those of its parts, and a word has one term, its
/// stem, or none where it is common.
pub proof fn law_terms_of_parts(a: Seq<char>, sep: char, b: Seq<char>, w: Seq<char>)
    requires
        !is_letter_or_number(sep),
        w.len() > 0,
        forall|i: int| 0 <= i < w.len() ==> is_letter_or_number(#[trigger] w[i]),
    ensures
        terms_of_text(a + seq![sep] + b) == terms_of_text(a) + terms_of_text(b),
        is_common(lowercase(w)) ==> terms_of_text(w) == Seq::<Seq<char>>::empty(),
        !is_common(lowercase(w)) ==> terms_of_text(w) == seq![stem_of(lowercase(w))],
{
    law_words_parted(a, sep, b);
    lemma_query_terms_joined(words_of(a), words_of(b), words_of(b).len() as int);
    lemma_query_terms_start(words_of(a), words_of(b), words_of(a).len() as int);
    law_one_word(w);
    law_common_words(lowercase(w));
    reveal_with_fuel(query_terms, 2);
    assert(words_of(w).len() == 1 && words_of(w)[0] == w);
    if is_common(lowercase(w)) {
        assert(terms_of_text(w) =~= seq![]);
    } else {
        assert(terms_of_text(w) =~= seq![stem_of(lowercase(w))]);
    }
}

proof fn lemma_query_terms_start(a: Seq<Seq<char>>, b: Seq<Seq<char>>, n: int)
    requires
        0 <= n <= a.len(),
    ensures
        query_terms(a + b, n) == query_terms(a, n),
    decreases n,
{
    if n > 0 {
        assert((a + b)[n - 1] == a[n - 1]);
        lemma_query_terms_start(a, b, n - 1);
    }
}

proof fn lemma_query_terms_joined(a: Seq<Seq<char>>, b: Seq<Seq<char>>, n: int)
    requires
        0 <= n <= b.len(),
    ensures
        query_terms(a + b, a.len() + n) == query_terms(a, a.len() as int) + query_terms(b, n),
    decreases n,
{
    lemma_query_terms_start(a, b, a.len() as int);
    if n > 0 {
        assert((a + b)[a.len() + n - 1] == b[n - 1]);
        lemma_query_terms_joined(a, b, n - 1);
    }
    assert(query_terms(a + b, a.len() + n) =~= query_terms(a, a.len() as int) + query_terms(b, n));
}

/// Whether a token stands for the word at its position.
pub open spec fn is_token_of(words: Seq<Seq<char>>, t: TokenView) -> bool {
    &&& t.position < words.len()
    &&& !is_common(lowercase(words[t.position as int]))
    &&& t.term == simple_stem(lowercase(words[t.position as int]))
}

/// Whether tokens stand for the first `n` words but the common ones, in order.
pub open spec fn are_tokens_of(words: Seq<Seq<char>>, n: int, r: Seq<TokenView>) -> bool {
    &&& forall|i: int| 0 <= i < r.len() ==> is_token_of(words, #[trigger] r[i])
    &&& forall|i: int| 0 <= i < r.len() ==> (#[trigger] r[i]).position < n
    &&& forall|i: int, j: int|
        0 <= i < j < r.len() ==> (#[trigger] r[i]).position < (#[trigger] r[j]).position
    &&& forall|k: int|
        0 <= k < n && !is_common(lowercase(#[trigger] words[k])) ==> exists|i: int|
            0 <= i < r.len() && (#[trigger] r[i]).position == k
}

proof fn lemma_tokens(words: Seq<Seq<char>>, n: int)
    requires
        0 <= n <= words.len(),
    ensures
        are_tokens_of(words, n, tokens_of_words(words, n)),
    decreases n,
{
    if n > 0 {
        lemma_tokens(words, n - 1);
        let before = tokens_of_words(words, n - 1);
        let r = tokens_of_words(words, n);
        let lower = lowercase(words[n - 1]);
        law_common_words(lower);
        assert forall|k: int|
            0 <= k < n && !is_common(lowercase(#[trigger] words[k])) implies exists|i: int|
            0 <= i < r.len() && (#[trigger] r[i]).position == k by {
            if k < n - 1 {
                let i = choose|i: int| 0 <= i < before.len() && (#[trigger] before[i]).position == k;
                assert(r[i].position == k);
            } else {
                assert(r[r.len() - 1].position == k);
            }
        }
    }
}

/// Each word but the common ones has a token at its position, in the order of
/// the text, and there are no others.
pub proof fn law_tokens(s: Seq<char>)
    ensures
        are_tokens_of(words_of(s), words_of(s).len() as int, tokens_of(s)),
{
    lemma_tokens(words_of(s), words_of(s).len() as int);
}

proof fn lemma_one_byte(t: Seq<char>)
    requires
        t == "s"@ || t == "ss"@ || t == "i"@ || t == "ed"@ || t == "ing"@ || t == "eed"@ || t
            == "ee"@ || t == "ies"@ || t == "sses"@,
    ensures
        byte_len(t) == t.len(),
{
    reveal_strlit("s");
    reveal_strlit("ss");
    reveal_strlit("i");
    reveal_strlit("ed");
    reveal_strlit("ing");
    reveal_strlit("eed");
    reveal_strlit("ee");
    reveal_strlit("ies");
    reveal_strlit("sses");
    assert(vstd::utf8::is_ascii_chars(t));
    vstd::utf8::is_ascii_chars_encode_utf8(t);
}

proof fn lemma_byte_sum(w: Seq<char>, t: Seq<char>)
    requires
        t == "s"@ || t == "ss"@ || t == "i"@ || t == "ed"@ || t == "ing"@ || t == "eed"@ || t
            == "ee"@ || t == "ies"@ || t == "sses"@,
    ensures
        byte_len(w + t) == byte_len(w) + t.len(),
{
    lemma_encode_concat(w, t);
    lemma_one_byte(t);
}

/// The simple stem of plurals: `sses` becomes `ss`, `ies` becomes `i`, `ss`
/// stays, and another `s` goes where three bytes stand before it.
pub proof fn law_simple_plural(w: Seq<char>)
    ensures
        without_plural(w + "sses"@) == w + "ss"@,
        without_plural(w + "ies"@) == w + "i"@,
        without_plural(w + "ss"@) == w + "ss"@,
        w.len() > 0 && w.last() != 's' && !ends_in(w, "ie"@) && !ends_in(w, "sse"@) ==> (
        without_plural(w + "s"@) == if byte_len(w) >= 3 {
            w
        } else {
            w + "s"@
        }),
        w.len() > 0 && w.last() != 's' ==> without_plural(w) == w,
{
    reveal_strlit("sses");
    reveal_strlit("ies");
    reveal_strlit("ss");
    reveal_strlit("s");
    reveal_strlit("i");
    reveal_strlit("ie");
    reveal_strlit("sse");
    lemma_with_ending(w, "sses"@);
    lemma_with_ending(w, "ies"@);
    lemma_with_ending(w, "ss"@);
    lemma_with_ending(w, "s"@);
    lemma_byte_sum(w, "s"@);
    assert(cut(w + "sses"@, 2) =~= w + "ss"@);
    let b = w + "ies"@;
    lemma_first_endings(b);
    assert(letter(b, 2) == 'i');
    assert(cut(b, 2) =~= w + "i"@);
    let c = w + "ss"@;
    lemma_first_endings(c);
    assert(letter(c, 0) == 's' && letter(c, 1) == 's');
    let d = w + "s"@;
    if w.len() > 0 && w.last() != 's' {
        lemma_first_endings(d);
        lemma_first_endings(w);
        lemma_ends_in(w, "ie"@);
        lemma_ends_in(w, "sse"@);
        assert(letter(d, 1) == w.last());
        if has_suffix(d, "ies"@) {
            assert(letter(w, 0) == letter(d, 1) && letter(w, 1) == letter(d, 2));
            lemma_has_letters(w, "ie"@);
        }
        if has_suffix(d, "sses"@) {
            assert(letter(w, 0) == letter(d, 1) && letter(w, 1) == letter(d, 2) && letter(w, 2)
                == letter(d, 3));
            lemma_has_letters(w, "sse"@);
        }
        assert(letter(w, 0) == w.last());
    }
}

/// The simple stem of past tense and participle: `ing` and `ed` go and `eed`
/// loses its `d`, where two bytes stand before them.
pub proof fn law_simple_tense(w: Seq<char>)
    ensures
        without_tense(w + "ing"@) == (if byte_len(w) >= 2 {
            w
        } else {
            w + "ing"@
        }),
        w.len() > 0 && w.last() != 'e' ==> without_tense(w + "ed"@) == (if byte_len(w) >= 2 {
            w
        } else {
            w + "ed"@
        }),
        byte_len(w) >= 2 ==> without_tense(w + "eed"@) == w + "ee"@,
        w.len() > 0 && w.last() != 'd' && w.last() != 'g' ==> without_tense(w) == w,
{
    reveal_strlit("eed");
    reveal_strlit("ed");
    reveal_strlit("ing");
    reveal_strlit("ee");
    lemma_with_ending(w, "ing"@);
    lemma_with_ending(w, "ed"@);
    lemma_with_ending(w, "eed"@);
    lemma_byte_sum(w, "ing"@);
    lemma_byte_sum(w, "ed"@);
    lemma_byte_sum(w, "eed"@);
    let a = w + "ing"@;
    lemma_first_endings(a);
    assert(letter(a, 0) == 'g');
    let b = w + "ed"@;
    lemma_first_endings(b);
    if w.len() > 0 && has_suffix(b, "eed"@) {
        lemma_letters(b, "eed"@);
        assert(letter(b, 2) == 'e');
        assert(letter(b, 2) == w.last());
    }
    assert(cut(w + "eed"@, 1) =~= w + "ee"@);
    if w.len() > 0 {
        lemma_first_endings(w);
        assert(letter(w, 0) == w.last());
    }
}

/// The simple stem strips the plural first: words in `ing` and `ed` and their
/// forms with an `s` have the same one, the word before.
pub proof fn law_simple_stem(w: Seq<char>)
    requires
        byte_len(w) >= 2,
        w.len() > 0,
        w.last() != 'e',
    ensures
        simple_stem(w + "ing"@) == w,
        simple_stem(w + "ed"@) == w,
        simple_stem(w + "ing"@ + "s"@) == w,
{
    reveal_strlit("ing");
    reveal_strlit("ed");
    reveal_strlit("ie");
    reveal_strlit("sse");
    let a = w + "ing"@;
    let b = w + "ed"@;
    lemma_byte_sum(w, "ing"@);
    law_simple_plural(a);
    law_simple_plural(b);
    law_simple_tense(w);
    assert(a.last() == 'g');
    assert(b.last() == 'd');
    lemma_ends_in(a, "ie"@);
    lemma_ends_in(a, "sse"@);
    lemma_letters(a, "ie"@);
    lemma_letters(a, "sse"@);
    assert(letter(a, 0) == 'g');
}

} // verus!
