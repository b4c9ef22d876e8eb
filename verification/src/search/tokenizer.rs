//! Splits text into terms: words without stop-words, in a simple stemmed form.

use vstd::prelude::*;

use crate::search::stemmer::{cut, find_word_end, has_suffix, lemma_word_end, word_end};
use crate::text::{
    byte_len, chars_of, is_alphanumeric, is_letter_or_number, lowercase, same_text, string_of,
    texts, to_lowercase,
};

verus! {

/// A term and the number of the word it comes from.
#[derive(Clone, Debug)]
pub struct Token {
    /// The stemmed term, in lower case.
    pub term: String,
    /// The word's number in the text, from zero.
    pub position: u32,
}

/// The mathematical value of a [`Token`].
#[verifier::ext_equal]
pub struct TokenView {
    pub term: Seq<char>,
    pub position: nat,
}

impl View for Token {
    type V = TokenView;

    open spec fn view(&self) -> TokenView {
        TokenView { term: self.term@, position: self.position as nat }
    }
}

/// The values of a row of tokens.
pub open spec fn token_views(tokens: Seq<Token>) -> Seq<TokenView> {
    tokens.map_values(|t: Token| t@)
}

/// The words of a text from `i` on: its runs of letters and numbers.
pub open spec fn words_from(s: Seq<char>, i: int) -> Seq<Seq<char>>
    decreases s.len() - i,
{
    if i < 0 || i >= s.len() {
        seq![]
    } else if is_letter_or_number(s[i]) && i < word_end(s, i) <= s.len() {
        seq![s.subrange(i, word_end(s, i))] + words_from(s, word_end(s, i))
    } else {
        words_from(s, i + 1)
    }
}

/// The words of a text.
pub open spec fn words_of(s: Seq<char>) -> Seq<Seq<char>> {
    words_from(s, 0)
}

/// The words that are too common to be searched for.
pub open spec fn stopwords() -> Seq<Seq<char>> {
    seq![
        "a"@, "an"@, "the"@, "and"@, "or"@, "but"@, "is"@, "are"@, "was"@, "were"@, "be"@,
        "been"@, "being"@, "have"@, "has"@, "had"@, "do"@, "does"@, "did"@, "will"@, "would"@,
        "could"@, "should"@, "may"@, "might"@, "must"@, "can"@, "this"@, "that"@, "these"@,
        "those"@, "i"@, "you"@, "he"@, "she"@, "it"@, "we"@, "they"@, "what"@, "which"@, "who"@,
        "when"@, "where"@, "why"@, "how"@, "all"@, "each"@, "every"@, "both"@, "few"@, "more"@,
        "most"@, "other"@, "some"@, "such"@, "no"@, "nor"@, "not"@, "only"@, "own"@, "same"@,
        "so"@, "than"@, "too"@, "very"@, "s"@, "t"@, "just"@, "don"@, "now"@, "in"@, "on"@, "at"@,
        "to"@, "for"@, "of"@, "with"@, "by"@, "from"@, "up"@, "about"@, "into"@, "through"@,
        "during"@, "before"@, "after"@, "above"@, "below"@, "between"@,
    ]
}

/// A word without a plural ending.
pub open spec fn without_plural(w: Seq<char>) -> Seq<char> {
    if has_suffix(w, "sses"@) {
        cut(w, 2)
    } else if has_suffix(w, "ies"@) {
        cut(w, 2)
    } else if has_suffix(w, "ss"@) {
        w
    } else if has_suffix(w, "s"@) && byte_len(w) > 3 {
        cut(w, 1)
    } else {
        w
    }
}

/// A word without a past tense or participle ending.
pub open spec fn without_tense(w: Seq<char>) -> Seq<char> {
    if has_suffix(w, "eed"@) && byte_len(w) > 4 {
        cut(w, 1)
    } else if has_suffix(w, "ed"@) && byte_len(w) > 3 {
        cut(w, 2)
    } else if has_suffix(w, "ing"@) && byte_len(w) > 4 {
        cut(w, 3)
    } else {
        w
    }
}

/// The simple stem of a word: first the plural ending goes, then the ending of
/// tense.
pub open spec fn simple_stem(w: Seq<char>) -> Seq<char> {
    without_tense(without_plural(w))
}

/// The tokens of the first `n` words: each word but the stop-words, in lower
/// case and stemmed, with its number.
pub open spec fn tokens_of_words(words: Seq<Seq<char>>, n: int) -> Seq<TokenView>
    decreases n,
{
    if n <= 0 {
        seq![]
    } else {
        let before = tokens_of_words(words, n - 1);
        let lower = lowercase(words[n - 1]);
        if stopwords().contains(lower) {
            before
        } else {
            before.push(TokenView { term: simple_stem(lower), position: (n - 1) as nat })
        }
    }
}

/// The tokens of a text.
pub open spec fn tokens_of(s: Seq<char>) -> Seq<TokenView> {
    tokens_of_words(words_of(s), words_of(s).len() as int)
}

/// Splits a text into its words.
pub fn split_words(text: &str) -> (r: Vec<String>)
    ensures
        texts(r@) == words_of(text@),
{
    let s: Vec<char> = chars_of(text);
    let mut out: Vec<String> = Vec::new();
    let mut i: usize = 0;
    assert(texts(out@) + words_from(s@, 0) =~= words_of(text@));
    while i < s.len()
        invariant
            i <= s@.len(),
            s@ == text@,
            texts(out@) + words_from(s@, i as int) == words_of(text@),
        decreases s@.len() - i,
    {
        if is_alphanumeric(s[i]) {
            proof {
                lemma_word_end(s@, i as int);
            }
            let e: usize = find_word_end(s.as_slice(), i);
            let word: String = string_of(s.as_slice(), i, e);
            let ghost before = out@;
            out.push(word);
            assert(texts(out@) =~= texts(before).push(word@));
            assert(texts(out@) + words_from(s@, e as int) =~= texts(before) + words_from(
                s@,
                i as int,
            ));
            i = e;
        } else {
            i = i + 1;
        }
    }
    assert(texts(out@) + words_from(s@, i as int) =~= texts(out@));
    out
}

/// Whether the word is a stop-word.
pub fn is_stopword(word: &str) -> (r: bool)
    ensures
        r == stopwords().contains(word@),
{
    let all: [&str; 89] = [
        "a", "an", "the", "and", "or", "but", "is", "are", "was", "were", "be", "been", "being",
        "have", "has", "had", "do", "does", "did", "will", "would", "could", "should", "may",
        "might", "must", "can", "this", "that", "these", "those", "i", "you", "he", "she", "it",
        "we", "they", "what", "which", "who", "when", "where", "why", "how", "all", "each",
        "every", "both", "few", "more", "most", "other", "some", "such", "no", "nor", "not",
        "only", "own", "same", "so", "than", "too", "very", "s", "t", "just", "don", "now", "in",
        "on", "at", "to", "for", "of", "with", "by", "from", "up", "about", "into", "through",
        "during", "before", "after", "above", "below", "between",
    ];
    let mut i: usize = 0;
    while i < 89
        invariant
            i <= 89,
            stopwords().len() == 89,
            forall|k: int| 0 <= k < 89 ==> (#[trigger] all@[k])@ == stopwords()[k],
            forall|k: int| 0 <= k < i ==> #[trigger] stopwords()[k] != word@,
        decreases 89 - i,
    {
        let here: &str = all[i];
        assert(here@ == all@[i as int]@);
        if same_text(here, word) {
            assert(stopwords()[i as int] == word@);
            return true;
        }
        i = i + 1;
    }
    false
}

/// Whether a text ends in the suffix.
fn ends_with(s: &str, suffix: &str) -> (r: bool)
    ensures
        r == has_suffix(s@, suffix@),
{
    let a: Vec<char> = chars_of(s);
    let b: Vec<char> = chars_of(suffix);
    let n: usize = a.len();
    if n < b.len() {
        return false;
    }
    let from: usize = n - b.len();
    let mut k: usize = 0;
    while k < b.len()
        invariant
            k <= b@.len() <= n == a@.len(),
            a@ == s@,
            b@ == suffix@,
            from == n - b@.len(),
            forall|j: int| 0 <= j < k ==> a@[from + j] == #[trigger] b@[j],
        decreases b@.len() - k,
    {
        if a[from + k] != b[k] {
            assert(s@.skip(from as int)[k as int] != suffix@[k as int]);
            return false;
        }
        k = k + 1;
    }
    assert(s@.skip(from as int) =~= suffix@);
    true
}

/// A text without its last `n` characters.
fn shortened(s: &str, n: usize) -> (r: String)
    requires
        n <= s@.len(),
    ensures
        r@ == cut(s@, n as int),
{
    let a: Vec<char> = chars_of(s);
    let e: usize = a.len() - n;
    let r: String = string_of(a.as_slice(), 0, e);
    assert(r@ =~= cut(s@, n as int));
    r
}

/// Strips common English suffixes: the plural, then the past tense or
/// participle.
pub fn stem(word: &str) -> (r: String)
    ensures
        r@ == simple_stem(word@),
{
    proof {
        reveal_strlit("sses");
        reveal_strlit("ies");
        reveal_strlit("s");
        reveal_strlit("eed");
        reveal_strlit("ed");
        reveal_strlit("ing");
    }
    let w: String = if ends_with(word, "sses") {
        shortened(word, 2)
    } else if ends_with(word, "ies") {
        shortened(word, 2)
    } else if ends_with(word, "ss") {
        word.to_owned()
    } else if ends_with(word, "s") && word.as_bytes().len() > 3 {
        shortened(word, 1)
    } else {
        word.to_owned()
    };
    let w: &str = w.as_str();
    let bytes: usize = w.as_bytes().len();
    if ends_with(w, "eed") && bytes > 4 {
        shortened(w, 1)
    } else if ends_with(w, "ed") && bytes > 3 {
        shortened(w, 2)
    } else if ends_with(w, "ing") && bytes > 4 {
        shortened(w, 3)
    } else {
        w.to_owned()
    }
}

/// Splits a text into tokens: words in lower case, without stop-words,
/// stemmed. Stop-words count for the positions.
pub fn tokenize(text: &str) -> (r: Vec<Token>)
    requires
        words_of(text@).len() <= u32::MAX,
    ensures
        token_views(r@) == tokens_of(text@),
{
    let words: Vec<String> = split_words(text);
    let mut tokens: Vec<Token> = Vec::new();
    let mut k: usize = 0;
    assert(token_views(tokens@) =~= tokens_of_words(words_of(text@), 0));
    while k < words.len()
        invariant
            k <= words@.len() <= u32::MAX,
            texts(words@) == words_of(text@),
            token_views(tokens@) == tokens_of_words(words_of(text@), k as int),
        decreases words@.len() - k,
    {
        assert(words_of(text@)[k as int] == words@[k as int]@);
        let lower: String = to_lowercase(words[k].as_str());
        if !is_stopword(lower.as_str()) {
            let term: String = stem(lower.as_str());
            let token: Token = Token { term, position: k as u32 };
            let ghost before = tokens@;
            tokens.push(token);
            assert(token_views(tokens@) =~= token_views(before).push(token@));
        }
        k = k + 1;
    }
    tokens
}

} // verus!
