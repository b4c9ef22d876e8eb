//! What the stemmer does to the families of endings it knows.

use vstd::prelude::*;

use crate::numbers::ascii_lower;
use crate::search::stemmer::{
    all_steps, consonant_at, cut, dropped, first_dropped, first_rule, has_cvc_end, has_double_end,
    has_suffix, has_vowel, lemma_word_end, measure_of, repaired, rule_applies, stem_of,
    stemmed_from, step_1a_of, step_1b_of, step_1c_of, step_2_of, step_2_rules, step_3_of,
    step_3_rules, step_4_of, step_4_suffixes, step_5a_of, step_5b_of, turns, word_end, Rule,
};
use crate::text::{is_ascii_text, is_letter_or_number, lowercase};

verus! {

/// Whether the letter at `i` sounds as a vowel: a, e, i, o, u, or a y behind a
/// letter that does not.
pub open spec fn vowel_at(w: Seq<char>, i: int) -> bool
    decreases i,
{
    let c = w[i];
    if c == 'a' || c == 'e' || c == 'i' || c == 'o' || c == 'u' {
        true
    } else {
        c == 'y' && i > 0 && !vowel_at(w, i - 1)
    }
}

/// Whether a vowel stands at `i` and a consonant behind it.
pub open spec fn pair_at(w: Seq<char>, i: int) -> bool {
    0 <= i && i + 1 < w.len() && vowel_at(w, i) && !vowel_at(w, i + 1)
}

/// Whether a consonant follows a vowel somewhere in the word.
pub open spec fn has_pair(w: Seq<char>) -> bool {
    exists|i: int| #[trigger] pair_at(w, i)
}

/// Whether a consonant follows a vowel at two places in the word.
pub open spec fn has_two_pairs(w: Seq<char>) -> bool {
    exists|i: int, j: int| i < j && #[trigger] pair_at(w, i) && #[trigger] pair_at(w, j)
}

/// Whether the word has a vowel.
pub open spec fn voiced(w: Seq<char>) -> bool {
    exists|i: int| 0 <= i < w.len() && #[trigger] vowel_at(w, i)
}

/// Whether the word ends in consonant, vowel, consonant, as in `hop`, and not
/// in `w`, `x` or `y`.
pub open spec fn is_short_end(w: Seq<char>) -> bool {
    let n = w.len() as int;
    &&& n >= 3
    &&& !vowel_at(w, n - 3)
    &&& vowel_at(w, n - 2)
    &&& !vowel_at(w, n - 1)
    &&& w[n - 1] != 'w' && w[n - 1] != 'x' && w[n - 1] != 'y'
}

/// Whether all letters are lower-case letters of the Latin alphabet.
pub open spec fn is_lower_word(w: Seq<char>) -> bool {
    forall|i: int| 0 <= i < w.len() ==> 'a' <= #[trigger] w[i] <= 'z'
}

/// The letter `k` places before the last one.
pub open spec fn letter(w: Seq<char>, k: int) -> char {
    w[w.len() - 1 - k]
}

proof fn lemma_vowel(w: Seq<char>, i: int)
    requires
        0 <= i < w.len(),
    ensures
        vowel_at(w, i) == !consonant_at(w, i),
    decreases i,
{
    if i > 0 {
        lemma_vowel(w, i - 1);
    }
}

proof fn lemma_voiced(w: Seq<char>)
    ensures
        has_vowel(w) == voiced(w),
{
    if has_vowel(w) {
        let i = choose|i: int| 0 <= i < w.len() && !#[trigger] consonant_at(w, i);
        lemma_vowel(w, i);
        assert(vowel_at(w, i));
    }
    if voiced(w) {
        let i = choose|i: int| 0 <= i < w.len() && #[trigger] vowel_at(w, i);
        lemma_vowel(w, i);
        assert(!consonant_at(w, i));
    }
}

proof fn lemma_turns(w: Seq<char>, n: int)
    requires
        0 <= n <= w.len(),
    ensures
        turns(w, n) > 0 <==> exists|i: int| i + 1 < n && #[trigger] pair_at(w, i),
        turns(w, n) > 1 <==> exists|i: int, j: int|
            i < j && j + 1 < n && #[trigger] pair_at(w, i) && #[trigger] pair_at(w, j),
    decreases n,
{
    if n >= 2 {
        lemma_turns(w, n - 1);
        lemma_vowel(w, n - 2);
        lemma_vowel(w, n - 1);
        let here = pair_at(w, n - 2);
        assert(here == (!consonant_at(w, n - 2) && consonant_at(w, n - 1)));
        if turns(w, n) > 0 && turns(w, n - 1) == 0 {
            assert(pair_at(w, n - 2));
        }
        if turns(w, n) > 1 {
            let i = choose|i: int| i + 1 < n - 1 && #[trigger] pair_at(w, i);
            if turns(w, n - 1) > 1 {
                let (i, j) = choose|i: int, j: int|
                    i < j && j + 1 < n - 1 && #[trigger] pair_at(w, i) && #[trigger] pair_at(w, j);
                assert(pair_at(w, i) && pair_at(w, j));
            } else {
                assert(pair_at(w, i) && pair_at(w, n - 2));
            }
        }
        if exists|i: int, j: int|
            i < j && j + 1 < n && #[trigger] pair_at(w, i) && #[trigger] pair_at(w, j) {
            let (i, j) = choose|i: int, j: int|
                i < j && j + 1 < n && #[trigger] pair_at(w, i) && #[trigger] pair_at(w, j);
            assert(i + 1 < n - 1 && pair_at(w, i));
            assert(turns(w, n - 1) > 0);
            if j < n - 2 {
                assert(turns(w, n - 1) > 1);
            }
        }
    }
}

/// The measure of a word counts the places at which a consonant follows a
/// vowel.
proof fn lemma_measure(w: Seq<char>)
    ensures
        measure_of(w) > 0 <==> has_pair(w),
        measure_of(w) > 1 <==> has_two_pairs(w),
{
    lemma_turns(w, w.len() as int);
}

proof fn lemma_short_end(w: Seq<char>)
    ensures
        has_cvc_end(w) == is_short_end(w),
{
    if w.len() >= 3 {
        lemma_vowel(w, w.len() - 1);
        lemma_vowel(w, w.len() - 2);
        lemma_vowel(w, w.len() - 3);
    }
}

/// The start of a word sounds as the word does.
proof fn lemma_start(w: Seq<char>, t: Seq<char>, i: int)
    requires
        0 <= i < w.len(),
    ensures
        vowel_at(w + t, i) == vowel_at(w, i),
    decreases i,
{
    if i > 0 {
        lemma_start(w, t, i - 1);
    }
}

proof fn lemma_start_pair(w: Seq<char>, t: Seq<char>, i: int)
    requires
        pair_at(w, i),
    ensures
        pair_at(w + t, i),
{
    lemma_start(w, t, i);
    lemma_start(w, t, i + 1);
}

/// A longer word has the pairs of its start.
proof fn lemma_start_pairs(w: Seq<char>, t: Seq<char>)
    ensures
        has_pair(w) ==> has_pair(w + t),
        has_two_pairs(w) ==> has_two_pairs(w + t),
        voiced(w) ==> voiced(w + t),
{
    if has_pair(w) {
        let i = choose|i: int| #[trigger] pair_at(w, i);
        lemma_start_pair(w, t, i);
    }
    if has_two_pairs(w) {
        let (i, j) = choose|i: int, j: int|
            i < j && #[trigger] pair_at(w, i) && #[trigger] pair_at(w, j);
        lemma_start_pair(w, t, i);
        lemma_start_pair(w, t, j);
        assert(pair_at(w + t, i) && pair_at(w + t, j));
    }
    if voiced(w) {
        let i = choose|i: int| 0 <= i < w.len() && #[trigger] vowel_at(w, i);
        lemma_start(w, t, i);
        assert(vowel_at(w + t, i));
    }
}

/// A word with an ending has that suffix, and is itself without it.
pub proof fn lemma_with_ending(w: Seq<char>, t: Seq<char>)
    ensures
        has_suffix(w + t, t),
        cut(w + t, t.len() as int) == w,
        forall|k: int| 0 <= k < t.len() ==> #[trigger] letter(w + t, k) == letter(t, k),
        t.len() >= 1 ==> (w + t).last() == t.last(),
{
    assert((w + t).skip(w.len() as int) =~= t);
    assert((w + t).take(w.len() as int) =~= w);
}

/// A word that has a suffix ends in its letters.
pub proof fn lemma_letters(w: Seq<char>, t: Seq<char>)
    ensures
        has_suffix(w, t) ==> t.len() <= w.len() && forall|k: int|
            0 <= k < t.len() ==> #[trigger] letter(w, k) == letter(t, k),
{
    if has_suffix(w, t) {
        assert forall|k: int| 0 <= k < t.len() implies #[trigger] letter(w, k) == letter(t, k) by {
            assert(w.skip(w.len() - t.len())[t.len() - 1 - k] == t[t.len() - 1 - k]);
        }
    }
}

/// A word whose last letters are those of the suffix has it.
pub proof fn lemma_has_letters(w: Seq<char>, t: Seq<char>)
    requires
        t.len() <= w.len(),
        forall|k: int| 0 <= k < t.len() ==> #[trigger] letter(w, k) == letter(t, k),
    ensures
        has_suffix(w, t),
        w == cut(w, t.len() as int) + t,
{
    assert forall|i: int| 0 <= i < t.len() implies w.skip(w.len() - t.len())[i] == t[i] by {
        assert(letter(w, t.len() - 1 - i) == letter(t, t.len() - 1 - i));
    }
    assert(w.skip(w.len() - t.len()) =~= t);
    assert(w =~= cut(w, t.len() as int) + t);
}

/// What a word with one of the first steps' suffixes ends in.
pub proof fn lemma_first_endings(x: Seq<char>)
    ensures
        has_suffix(x, "sses"@) ==> letter(x, 0) == 's' && letter(x, 1) == 'e'
            && letter(x, 2) == 's' && letter(x, 3) == 's',
        has_suffix(x, "ies"@) ==> letter(x, 0) == 's' && letter(x, 1) == 'e'
            && letter(x, 2) == 'i',
        has_suffix(x, "ss"@) ==> letter(x, 0) == 's' && letter(x, 1) == 's',
        has_suffix(x, "s"@) ==> letter(x, 0) == 's',
        has_suffix(x, "eed"@) ==> letter(x, 0) == 'd' && letter(x, 1) == 'e'
            && letter(x, 2) == 'e',
        has_suffix(x, "ed"@) ==> letter(x, 0) == 'd' && letter(x, 1) == 'e',
        has_suffix(x, "ing"@) ==> letter(x, 0) == 'g' && letter(x, 1) == 'n'
            && letter(x, 2) == 'i',
        has_suffix(x, "at"@) ==> letter(x, 0) == 't' && letter(x, 1) == 'a',
        has_suffix(x, "bl"@) ==> letter(x, 0) == 'l' && letter(x, 1) == 'b',
        has_suffix(x, "iz"@) ==> letter(x, 0) == 'z' && letter(x, 1) == 'i',
{
    lemma_letters(x, "sses"@);
    reveal_strlit("sses");
    lemma_letters(x, "ies"@);
    reveal_strlit("ies");
    lemma_letters(x, "ss"@);
    reveal_strlit("ss");
    lemma_letters(x, "s"@);
    reveal_strlit("s");
    lemma_letters(x, "eed"@);
    reveal_strlit("eed");
    lemma_letters(x, "ed"@);
    reveal_strlit("ed");
    lemma_letters(x, "ing"@);
    reveal_strlit("ing");
    lemma_letters(x, "at"@);
    reveal_strlit("at");
    lemma_letters(x, "bl"@);
    reveal_strlit("bl");
    lemma_letters(x, "iz"@);
    reveal_strlit("iz");
}

/// What a word with one of the second step's suffixes ends in.
proof fn lemma_second_endings(x: Seq<char>)
    ensures
        has_suffix(x, "ational"@) ==> letter(x, 0) == 'l' && letter(x, 1) == 'a'
            && letter(x, 2) == 'n' && letter(x, 3) == 'o' && letter(x, 4) == 'i',
        has_suffix(x, "tional"@) ==> letter(x, 0) == 'l' && letter(x, 1) == 'a'
            && letter(x, 2) == 'n' && letter(x, 3) == 'o' && letter(x, 4) == 'i',
        has_suffix(x, "enci"@) ==> letter(x, 0) == 'i' && letter(x, 1) == 'c'
            && letter(x, 2) == 'n' && letter(x, 3) == 'e',
        has_suffix(x, "anci"@) ==> letter(x, 0) == 'i' && letter(x, 1) == 'c'
            && letter(x, 2) == 'n' && letter(x, 3) == 'a',
        has_suffix(x, "izer"@) ==> letter(x, 0) == 'r' && letter(x, 1) == 'e'
            && letter(x, 2) == 'z' && letter(x, 3) == 'i',
        has_suffix(x, "abli"@) ==> letter(x, 0) == 'i' && letter(x, 1) == 'l'
            && letter(x, 2) == 'b' && letter(x, 3) == 'a',
        has_suffix(x, "alli"@) ==> letter(x, 0) == 'i' && letter(x, 1) == 'l'
            && letter(x, 2) == 'l' && letter(x, 3) == 'a',
        has_suffix(x, "entli"@) ==> letter(x, 0) == 'i' && letter(x, 1) == 'l'
            && letter(x, 2) == 't' && letter(x, 3) == 'n' && letter(x, 4) == 'e',
        has_suffix(x, "eli"@) ==> letter(x, 0) == 'i' && letter(x, 1) == 'l'
            && letter(x, 2) == 'e',
        has_suffix(x, "ousli"@) ==> letter(x, 0) == 'i' && letter(x, 1) == 'l'
            && letter(x, 2) == 's' && letter(x, 3) == 'u' && letter(x, 4) == 'o',
        has_suffix(x, "ization"@) ==> letter(x, 0) == 'n' && letter(x, 1) == 'o'
            && letter(x, 2) == 'i' && letter(x, 3) == 't' && letter(x, 4) == 'a',
        has_suffix(x, "ation"@) ==> letter(x, 0) == 'n' && letter(x, 1) == 'o'
            && letter(x, 2) == 'i' && letter(x, 3) == 't' && letter(x, 4) == 'a',
        has_suffix(x, "ator"@) ==> letter(x, 0) == 'r' && letter(x, 1) == 'o'
            && letter(x, 2) == 't' && letter(x, 3) == 'a',
        has_suffix(x, "alism"@) ==> letter(x, 0) == 'm' && letter(x, 1) == 's'
            && letter(x, 2) == 'i' && letter(x, 3) == 'l' && letter(x, 4) == 'a',
        has_suffix(x, "iveness"@) ==> letter(x, 0) == 's' && letter(x, 1) == 's'
            && letter(x, 2) == 'e' && letter(x, 3) == 'n' && letter(x, 4) == 'e',
        has_suffix(x, "fulness"@) ==> letter(x, 0) == 's' && letter(x, 1) == 's'
            && letter(x, 2) == 'e' && letter(x, 3) == 'n' && letter(x, 4) == 'l',
        has_suffix(x, "ousness"@) ==> letter(x, 0) == 's' && letter(x, 1) == 's'
            && letter(x, 2) == 'e' && letter(x, 3) == 'n' && letter(x, 4) == 's',
        has_suffix(x, "aliti"@) ==> letter(x, 0) == 'i' && letter(x, 1) == 't'
            && letter(x, 2) == 'i' && letter(x, 3) == 'l' && letter(x, 4) == 'a',
        has_suffix(x, "iviti"@) ==> letter(x, 0) == 'i' && letter(x, 1) == 't'
            && letter(x, 2) == 'i' && letter(x, 3) == 'v' && letter(x, 4) == 'i',
        has_suffix(x, "biliti"@) ==> letter(x, 0) == 'i' && letter(x, 1) == 't'
            && letter(x, 2) == 'i' && letter(x, 3) == 'l' && letter(x, 4) == 'i',
        has_suffix(x, "logi"@) ==> letter(x, 0) == 'i' && letter(x, 1) == 'g'
            && letter(x, 2) == 'o' && letter(x, 3) == 'l',
{
    lemma_letters(x, "ational"@);
    reveal_strlit("ational");
    lemma_letters(x, "tional"@);
    reveal_strlit("tional");
    lemma_letters(x, "enci"@);
    reveal_strlit("enci");
    lemma_letters(x, "anci"@);
    reveal_strlit("anci");
    lemma_letters(x, "izer"@);
    reveal_strlit("izer");
    lemma_letters(x, "abli"@);
    reveal_strlit("abli");
    lemma_letters(x, "alli"@);
    reveal_strlit("alli");
    lemma_letters(x, "entli"@);
    reveal_strlit("entli");
    lemma_letters(x, "eli"@);
    reveal_strlit("eli");
    lemma_letters(x, "ousli"@);
    reveal_strlit("ousli");
    lemma_letters(x, "ization"@);
    reveal_strlit("ization");
    lemma_letters(x, "ation"@);
    reveal_strlit("ation");
    lemma_letters(x, "ator"@);
    reveal_strlit("ator");
    lemma_letters(x, "alism"@);
    reveal_strlit("alism");
    lemma_letters(x, "iveness"@);
    reveal_strlit("iveness");
    lemma_letters(x, "fulness"@);
    reveal_strlit("fulness");
    lemma_letters(x, "ousness"@);
    reveal_strlit("ousness");
    lemma_letters(x, "aliti"@);
    reveal_strlit("aliti");
    lemma_letters(x, "iviti"@);
    reveal_strlit("iviti");
    lemma_letters(x, "biliti"@);
    reveal_strlit("biliti");
    lemma_letters(x, "logi"@);
    reveal_strlit("logi");
}

/// What a word with one of the third step's suffixes ends in.
proof fn lemma_third_endings(x: Seq<char>)
    ensures
        has_suffix(x, "icate"@) ==> letter(x, 0) == 'e' && letter(x, 1) == 't'
            && letter(x, 2) == 'a' && letter(x, 3) == 'c' && letter(x, 4) == 'i',
        has_suffix(x, "ative"@) ==> letter(x, 0) == 'e' && letter(x, 1) == 'v'
            && letter(x, 2) == 'i' && letter(x, 3) == 't' && letter(x, 4) == 'a',
        has_suffix(x, "alize"@) ==> letter(x, 0) == 'e' && letter(x, 1) == 'z'
            && letter(x, 2) == 'i' && letter(x, 3) == 'l' && letter(x, 4) == 'a',
        has_suffix(x, "iciti"@) ==> letter(x, 0) == 'i' && letter(x, 1) == 't'
            && letter(x, 2) == 'i' && letter(x, 3) == 'c' && letter(x, 4) == 'i',
        has_suffix(x, "ical"@) ==> letter(x, 0) == 'l' && letter(x, 1) == 'a'
            && letter(x, 2) == 'c' && letter(x, 3) == 'i',
        has_suffix(x, "ful"@) ==> letter(x, 0) == 'l' && letter(x, 1) == 'u'
            && letter(x, 2) == 'f',
        has_suffix(x, "ness"@) ==> letter(x, 0) == 's' && letter(x, 1) == 's'
            && letter(x, 2) == 'e' && letter(x, 3) == 'n',
{
    lemma_letters(x, "icate"@);
    reveal_strlit("icate");
    lemma_letters(x, "ative"@);
    reveal_strlit("ative");
    lemma_letters(x, "alize"@);
    reveal_strlit("alize");
    lemma_letters(x, "iciti"@);
    reveal_strlit("iciti");
    lemma_letters(x, "ical"@);
    reveal_strlit("ical");
    lemma_letters(x, "ful"@);
    reveal_strlit("ful");
    lemma_letters(x, "ness"@);
    reveal_strlit("ness");
}

/// What a word with one of the fourth step's suffixes ends in.
proof fn lemma_fourth_endings(x: Seq<char>)
    ensures
        has_suffix(x, "al"@) ==> letter(x, 0) == 'l' && letter(x, 1) == 'a',
        has_suffix(x, "ance"@) ==> letter(x, 0) == 'e' && letter(x, 1) == 'c'
            && letter(x, 2) == 'n' && letter(x, 3) == 'a',
        has_suffix(x, "ence"@) ==> letter(x, 0) == 'e' && letter(x, 1) == 'c'
            && letter(x, 2) == 'n' && letter(x, 3) == 'e',
        has_suffix(x, "er"@) ==> letter(x, 0) == 'r' && letter(x, 1) == 'e',
        has_suffix(x, "ic"@) ==> letter(x, 0) == 'c' && letter(x, 1) == 'i',
        has_suffix(x, "able"@) ==> letter(x, 0) == 'e' && letter(x, 1) == 'l'
            && letter(x, 2) == 'b' && letter(x, 3) == 'a',
        has_suffix(x, "ible"@) ==> letter(x, 0) == 'e' && letter(x, 1) == 'l'
            && letter(x, 2) == 'b' && letter(x, 3) == 'i',
        has_suffix(x, "ant"@) ==> letter(x, 0) == 't' && letter(x, 1) == 'n'
            && letter(x, 2) == 'a',
        has_suffix(x, "ement"@) ==> letter(x, 0) == 't' && letter(x, 1) == 'n'
            && letter(x, 2) == 'e' && letter(x, 3) == 'm' && letter(x, 4) == 'e',
        has_suffix(x, "ment"@) ==> letter(x, 0) == 't' && letter(x, 1) == 'n'
            && letter(x, 2) == 'e' && letter(x, 3) == 'm',
        has_suffix(x, "ent"@) ==> letter(x, 0) == 't' && letter(x, 1) == 'n'
            && letter(x, 2) == 'e',
        has_suffix(x, "ion"@) ==> letter(x, 0) == 'n' && letter(x, 1) == 'o'
            && letter(x, 2) == 'i',
        has_suffix(x, "ou"@) ==> letter(x, 0) == 'u' && letter(x, 1) == 'o',
        has_suffix(x, "ism"@) ==> letter(x, 0) == 'm' && letter(x, 1) == 's'
            && letter(x, 2) == 'i',
        has_suffix(x, "ate"@) ==> letter(x, 0) == 'e' && letter(x, 1) == 't'
            && letter(x, 2) == 'a',
        has_suffix(x, "iti"@) ==> letter(x, 0) == 'i' && letter(x, 1) == 't'
            && letter(x, 2) == 'i',
        has_suffix(x, "ous"@) ==> letter(x, 0) == 's' && letter(x, 1) == 'u'
            && letter(x, 2) == 'o',
        has_suffix(x, "ive"@) ==> letter(x, 0) == 'e' && letter(x, 1) == 'v'
            && letter(x, 2) == 'i',
        has_suffix(x, "ize"@) ==> letter(x, 0) == 'e' && letter(x, 1) == 'z'
            && letter(x, 2) == 'i',
{
    lemma_letters(x, "al"@);
    reveal_strlit("al");
    lemma_letters(x, "ance"@);
    reveal_strlit("ance");
    lemma_letters(x, "ence"@);
    reveal_strlit("ence");
    lemma_letters(x, "er"@);
    reveal_strlit("er");
    lemma_letters(x, "ic"@);
    reveal_strlit("ic");
    lemma_letters(x, "able"@);
    reveal_strlit("able");
    lemma_letters(x, "ible"@);
    reveal_strlit("ible");
    lemma_letters(x, "ant"@);
    reveal_strlit("ant");
    lemma_letters(x, "ement"@);
    reveal_strlit("ement");
    lemma_letters(x, "ment"@);
    reveal_strlit("ment");
    lemma_letters(x, "ent"@);
    reveal_strlit("ent");
    lemma_letters(x, "ion"@);
    reveal_strlit("ion");
    lemma_letters(x, "ou"@);
    reveal_strlit("ou");
    lemma_letters(x, "ism"@);
    reveal_strlit("ism");
    lemma_letters(x, "ate"@);
    reveal_strlit("ate");
    lemma_letters(x, "iti"@);
    reveal_strlit("iti");
    lemma_letters(x, "ous"@);
    reveal_strlit("ous");
    lemma_letters(x, "ive"@);
    reveal_strlit("ive");
    lemma_letters(x, "ize"@);
    reveal_strlit("ize");
}

proof fn lemma_rule(w: Seq<char>, rules: Seq<Rule>, i: int, k: int)
    requires
        0 <= i <= k < rules.len(),
        forall|j: int| i <= j < k ==> !rule_applies(w, #[trigger] rules[j]),
        rule_applies(w, rules[k]),
    ensures
        first_rule(w, rules, i) == cut(w, rules[k].0.len() as int) + rules[k].1,
    decreases k - i,
{
    if i < k {
        lemma_rule(w, rules, i + 1, k);
    }
}

proof fn lemma_no_rule(w: Seq<char>, rules: Seq<Rule>, i: int)
    requires
        0 <= i <= rules.len(),
        forall|j: int| i <= j < rules.len() ==> !rule_applies(w, #[trigger] rules[j]),
    ensures
        first_rule(w, rules, i) == w,
    decreases rules.len() - i,
{
    if i < rules.len() {
        lemma_no_rule(w, rules, i + 1);
    }
}

proof fn lemma_dropped(w: Seq<char>, list: Seq<Seq<char>>, i: int, k: int)
    requires
        0 <= i <= k < list.len(),
        forall|j: int| i <= j < k ==> !has_suffix(w, #[trigger] list[j]),
        has_suffix(w, list[k]),
    ensures
        first_dropped(w, list, i) == dropped(w, list[k]),
    decreases k - i,
{
    if i < k {
        lemma_dropped(w, list, i + 1, k);
    }
}

proof fn lemma_none_dropped(w: Seq<char>, list: Seq<Seq<char>>, i: int)
    requires
        0 <= i <= list.len(),
        forall|j: int| i <= j < list.len() ==> !has_suffix(w, #[trigger] list[j]),
    ensures
        first_dropped(w, list, i) == w,
    decreases list.len() - i,
{
    if i < list.len() {
        lemma_none_dropped(w, list, i + 1);
    }
}

/// A word with less than two pairs keeps its suffix.
proof fn lemma_keeps_suffix(w: Seq<char>, list: Seq<Seq<char>>, i: int)
    requires
        0 <= i <= list.len(),
        !has_two_pairs(w),
    ensures
        first_dropped(w, list, i) == w,
    decreases list.len() - i,
{
    if i < list.len() {
        lemma_keeps_suffix(w, list, i + 1);
        if has_suffix(w, list[i]) {
            let rest = cut(w, list[i].len() as int);
            assert(w =~= rest + list[i]) by {
                lemma_split(w, list[i]);
            }
            lemma_start_pairs(rest, list[i]);
            lemma_measure(rest);
        }
    }
}

proof fn lemma_split(w: Seq<char>, t: Seq<char>)
    requires
        has_suffix(w, t),
    ensures
        w == cut(w, t.len() as int) + t,
{
    lemma_letters(w, t);
    lemma_has_letters(w, t);
}

/// A word in lower case is its own lower-case form.
proof fn lemma_lower(w: Seq<char>)
    requires
        is_lower_word(w),
    ensures
        lowercase(w) == w,
        w.len() > 2 ==> stem_of(w) == all_steps(w),
{
    assert(is_ascii_text(w));
    assert(lowercase(w) =~= w);
}

proof fn lemma_lower_parts(w: Seq<char>, t: Seq<char>)
    requires
        is_lower_word(w),
        is_lower_word(t),
    ensures
        is_lower_word(w + t),
{
}

// --- plurals -------------------------------------------------------------------

/// Whether the word ends in the letters.
pub open spec fn ends_in(w: Seq<char>, t: Seq<char>) -> bool {
    exists|v: Seq<char>| w == #[trigger] (v + t)
}

pub proof fn lemma_ends_in(w: Seq<char>, t: Seq<char>)
    ensures
        has_suffix(w, t) == ends_in(w, t),
{
    if has_suffix(w, t) {
        lemma_split(w, t);
        assert(w == cut(w, t.len() as int) + t);
    }
    if ends_in(w, t) {
        let v = choose|v: Seq<char>| w == #[trigger] (v + t);
        lemma_with_ending(v, t);
    }
}

/// The first step turns `sses` into `ss` and `ies` into `i`, keeps `ss`, drops
/// any other `s`, and keeps words that do not end in `s`.
pub proof fn law_plural(w: Seq<char>)
    ensures
        step_1a_of(w + "sses"@) == w + "ss"@,
        step_1a_of(w + "ies"@) == w + "i"@,
        step_1a_of(w + "ss"@) == w + "ss"@,
        w.len() > 0 && w.last() != 's' && !ends_in(w, "ie"@) && !ends_in(w, "sse"@)
            ==> step_1a_of(w + "s"@) == w,
        w.len() > 0 && w.last() != 's' ==> step_1a_of(w) == w,
{
    reveal_strlit("sses");
    reveal_strlit("ies");
    reveal_strlit("ss");
    reveal_strlit("s");
    reveal_strlit("i");
    reveal_strlit("ie");
    reveal_strlit("sse");
    lemma_with_ending(w, "sses"@);
    lemma_with_ending(w, "ies"@);
    lemma_with_ending(w, "ss"@);
    lemma_with_ending(w, "s"@);
    let a = w + "sses"@;
    assert(cut(a, 2) =~= w + "ss"@);
    let b = w + "ies"@;
    lemma_first_endings(b);
    assert(letter(b, 2) == 'i');
    assert(cut(b, 2) =~= w + "i"@);
    let c = w + "ss"@;
    lemma_first_endings(c);
    assert(letter(c, 0) == 's' && letter(c, 1) == 's');
    let d = w + "s"@;
    if w.len() > 0 && w.last() != 's' {
        lemma_first_endings(d);
        lemma_first_endings(w);
        lemma_ends_in(w, "ie"@);
        lemma_ends_in(w, "sse"@);
        assert(letter(d, 1) == w.last());
        if has_suffix(d, "ies"@) {
            assert(letter(w, 0) == letter(d, 1) && letter(w, 1) == letter(d, 2));
            lemma_has_letters(w, "ie"@);
        }
        if has_suffix(d, "sses"@) {
            assert(letter(w, 0) == letter(d, 1) && letter(w, 1) == letter(d, 2) && letter(w, 2)
                == letter(d, 3));
            lemma_has_letters(w, "sse"@);
        }
        assert(letter(w, 0) == w.last());
    }
}

/// A plural and its singular have the same stem.
pub proof fn law_plural_stem(w: Seq<char>)
    requires
        is_lower_word(w),
        w.len() > 2,
        w.last() != 's',
        !ends_in(w, "ie"@),
        !ends_in(w, "sse"@),
    ensures
        stem_of(w + "s"@) == stem_of(w),
        stem_of(w + "sses"@) == stem_of(w + "ss"@),
        stem_of(w + "ies"@) == stem_of(w + "i"@),
{
    reveal_strlit("sses");
    reveal_strlit("ies");
    reveal_strlit("ss");
    reveal_strlit("s");
    reveal_strlit("i");
    law_plural(w);
    lemma_lower_parts(w, "s"@);
    lemma_lower_parts(w, "sses"@);
    lemma_lower_parts(w, "ss"@);
    lemma_lower_parts(w, "ies"@);
    lemma_lower_parts(w, "i"@);
    lemma_lower(w);
    lemma_lower(w + "s"@);
    lemma_lower(w + "sses"@);
    lemma_lower(w + "ss"@);
    lemma_lower(w + "ies"@);
    lemma_lower(w + "i"@);
    law_plural(w + "i"@);
    assert((w + "i"@).last() == 'i');
}

// --- past tense and progressive --------------------------------------------------

/// A word that loses `ed` or `ing`: with `at`, `bl` or `iz` at its end it gets
/// an `e`, of a double consonant at its end other than l, s and z it keeps one,
/// with one pair and a short end it gets an `e`, and else it stays as it is.
pub proof fn law_repair(w: Seq<char>)
    ensures
        ends_in(w, "at"@) || ends_in(w, "bl"@) || ends_in(w, "iz"@) ==> repaired(w) == w + "e"@,
        w.len() >= 2 && letter(w, 0) == letter(w, 1) && !vowel_at(w, w.len() - 1) && letter(w, 0)
            != 'l' && letter(w, 0) != 's' && letter(w, 0) != 'z' ==> repaired(w) == w.drop_last(),
        has_pair(w) && !has_two_pairs(w) && is_short_end(w) ==> repaired(w) == w + "e"@,
        !ends_in(w, "at"@) && !ends_in(w, "bl"@) && !ends_in(w, "iz"@) && (w.len() >= 2
            && letter(w, 0) == letter(w, 1) ==> vowel_at(w, w.len() - 1) || letter(w, 0) == 'l'
            || letter(w, 0) == 's' || letter(w, 0) == 'z') && !(has_pair(w) && !has_two_pairs(w)
            && is_short_end(w)) ==> repaired(w) == w,
{
    reveal_strlit("at");
    reveal_strlit("bl");
    reveal_strlit("iz");
    reveal_strlit("e");
    lemma_ends_in(w, "at"@);
    lemma_ends_in(w, "bl"@);
    lemma_ends_in(w, "iz"@);
    lemma_first_endings(w);
    lemma_measure(w);
    lemma_short_end(w);
    assert(w.push('e') =~= w + "e"@);
    if w.len() >= 1 {
        lemma_vowel(w, w.len() - 1);
    }
    if w.len() >= 2 {
        lemma_vowel(w, w.len() - 2);
        assert(cut(w, 1) =~= w.drop_last());
        assert(letter(w, 0) == w[w.len() - 1] && letter(w, 1) == w[w.len() - 2]);
        if w[w.len() - 1] == w[w.len() - 2] && w[w.len() - 1] != 'y' {
            assert(vowel_at(w, w.len() - 1) == vowel_at(w, w.len() - 2));
        }
    }
}

/// A word with a vowel loses `ed` and `ing` alike; one without keeps them. Of
/// `eed` it loses the `d`, where a consonant follows a vowel before it.
pub proof fn law_past_and_progressive(w: Seq<char>)
    ensures
        voiced(w) ==> step_1b_of(w + "ing"@) == repaired(w),
        !voiced(w) ==> step_1b_of(w + "ing"@) == w + "ing"@,
        voiced(w) && w.last() != 'e' ==> step_1b_of(w + "ed"@) == repaired(w),
        !voiced(w) ==> step_1b_of(w + "ed"@) == w + "ed"@,
        has_pair(w) ==> step_1b_of(w + "eed"@) == w + "ee"@,
        !has_pair(w) ==> step_1b_of(w + "eed"@) == w + "eed"@,
        w.len() > 0 && w.last() != 'd' && w.last() != 'g' ==> step_1b_of(w) == w,
{
    reveal_strlit("eed");
    reveal_strlit("ed");
    reveal_strlit("ing");
    reveal_strlit("ee");
    lemma_voiced(w);
    lemma_measure(w);
    lemma_with_ending(w, "ing"@);
    lemma_with_ending(w, "ed"@);
    lemma_with_ending(w, "eed"@);
    let a = w + "ing"@;
    lemma_first_endings(a);
    assert(letter(a, 0) == 'g');
    let b = w + "ed"@;
    lemma_first_endings(b);
    if has_suffix(b, "eed"@) {
        lemma_letters(b, "eed"@);
        assert(letter(b, 2) == 'e');
        assert(letter(b, 2) == w.last());
        lemma_vowel(w, w.len() - 1);
        assert(vowel_at(w, w.len() - 1));
    }
    let c = w + "eed"@;
    assert(cut(c, 1) =~= w + "ee"@);
    if w.len() > 0 {
        lemma_first_endings(w);
        assert(letter(w, 0) == w.last());
    }
}

/// The forms in `ing` and `ed` of a word have the same stem.
pub proof fn law_past_and_progressive_stem(w: Seq<char>)
    requires
        is_lower_word(w),
        voiced(w),
        w.last() != 'e',
    ensures
        stem_of(w + "ing"@) == stem_of(w + "ed"@),
{
    reveal_strlit("ing");
    reveal_strlit("ed");
    lemma_lower_parts(w, "ing"@);
    lemma_lower_parts(w, "ed"@);
    lemma_lower(w + "ing"@);
    lemma_lower(w + "ed"@);
    law_past_and_progressive(w);
    law_plural(w + "ing"@);
    law_plural(w + "ed"@);
    assert((w + "ing"@).last() == 'g');
    assert((w + "ed"@).last() == 'd');
}

/// No rule of the second step is for a word that ends in `e`.
proof fn lemma_second_keeps_e(x: Seq<char>)
    requires
        x.len() > 0,
        x.last() == 'e',
    ensures
        step_2_of(x) == x,
{
    lemma_second_endings(x);
    assert(letter(x, 0) == 'e');
    lemma_no_rule(x, step_2_rules(), 0);
}

/// The short words of one pair: those in `ing` and `ed` have the stem that the
/// form in `e` has, which is that form itself.
pub proof fn law_silent_e(w: Seq<char>)
    requires
        is_lower_word(w),
        has_pair(w),
        !has_two_pairs(w),
        is_short_end(w),
    ensures
        step_1b_of(w + "ing"@) == w + "e"@,
        step_1b_of(w + "ed"@) == w + "e"@,
        stem_of(w + "ing"@) == w + "e"@,
        stem_of(w + "ed"@) == w + "e"@,
        stem_of(w + "e"@) == w + "e"@,
{
    reveal_strlit("ing");
    reveal_strlit("ed");
    reveal_strlit("e");
    let x = w + "e"@;
    assert(vowel_at(w, w.len() - 2));
    law_repair(w);
    assert(w.last() != 'e') by {
        lemma_vowel(w, w.len() - 1);
    }
    law_past_and_progressive(w);
    law_past_and_progressive_stem(w);
    lemma_lower_parts(w, "ing"@);
    lemma_lower_parts(w, "e"@);
    lemma_lower(w + "ing"@);
    lemma_lower(x);
    law_plural(w + "ing"@);
    assert((w + "ing"@).last() == 'g');
    law_plural(x);
    assert(x.last() == 'e');
    law_past_and_progressive(x);
    assert(step_1c_of(x) == x);
    lemma_second_keeps_e(x);
    lemma_short_third(w);
    assert(!has_two_pairs(x)) by {
        if has_two_pairs(x) {
            let (i, j) = choose|i: int, j: int|
                i < j && #[trigger] pair_at(x, i) && #[trigger] pair_at(x, j);
            assert(x[x.len() - 1] == 'e');
            assert(vowel_at(x, x.len() - 1));
            lemma_start(w, "e"@, i);
            lemma_start(w, "e"@, i + 1);
            lemma_start(w, "e"@, j);
            lemma_start(w, "e"@, j + 1);
            assert(pair_at(w, i) && pair_at(w, j));
        }
    }
    lemma_keeps_suffix(x, step_4_suffixes(), 0);
    lemma_with_ending(w, "e"@);
    assert(cut(x, 1) == w);
    lemma_measure(w);
    lemma_short_end(w);
}

/// Short words of one pair keep their form in the third step.
proof fn lemma_short_third(w: Seq<char>)
    requires
        !has_two_pairs(w),
        is_short_end(w),
    ensures
        step_3_of(w + "e"@) == w + "e"@,
{
    reveal_strlit("e");
    let x = w + "e"@;
    lemma_third_endings(x);
    assert(letter(x, 0) == 'e');
    let n = w.len() as int;
    assert(pair_at(w, n - 2));
    assert forall|j: int| 0 <= j < 7 implies !rule_applies(x, #[trigger] step_3_rules()[j]) by {
        if rule_applies(x, step_3_rules()[j]) {
            let t = step_3_rules()[j].0;
            let rest = cut(x, t.len() as int);
            reveal_strlit("icate");
            reveal_strlit("ative");
            reveal_strlit("alize");
            lemma_measure(rest);
            let i = choose|i: int| #[trigger] pair_at(rest, i);
            assert(t.len() == 5);
            let m = w.subrange(rest.len() as int, n);
            assert(w =~= rest + m);
            lemma_start_pair(rest, m, i);
            assert(pair_at(w, i) && pair_at(w, n - 2));
            assert(i < n - 2);
        }
    }
    lemma_no_rule(x, step_3_rules(), 0);
}

// --- y ---------------------------------------------------------------------------

/// A final `y` becomes `i` where a vowel stands before it; other words stay.
pub proof fn law_final_y(w: Seq<char>)
    ensures
        voiced(w) ==> step_1c_of(w + "y"@) == w + "i"@,
        !voiced(w) ==> step_1c_of(w + "y"@) == w + "y"@,
        w.len() > 0 && w.last() != 'y' ==> step_1c_of(w) == w,
{
    reveal_strlit("y");
    reveal_strlit("i");
    lemma_with_ending(w, "y"@);
    lemma_voiced(w);
    assert(cut(w + "y"@, 1) == w);
    assert(w.push('i') =~= w + "i"@);
    if voiced(w) {
        assert(w.len() > 0);
    }
}

/// A word in `y` has the stem of the word in `i`, where a vowel stands before.
pub proof fn law_final_y_stem(w: Seq<char>)
    requires
        is_lower_word(w),
        w.len() > 1,
        voiced(w),
    ensures
        stem_of(w + "y"@) == stem_of(w + "i"@),
{
    reveal_strlit("y");
    reveal_strlit("i");
    lemma_lower_parts(w, "y"@);
    lemma_lower_parts(w, "i"@);
    lemma_lower(w + "y"@);
    lemma_lower(w + "i"@);
    law_plural(w + "y"@);
    law_plural(w + "i"@);
    law_past_and_progressive(w + "y"@);
    law_past_and_progressive(w + "i"@);
    law_final_y(w);
    law_final_y(w + "i"@);
    assert((w + "y"@).last() == 'y');
    assert((w + "i"@).last() == 'i');
}

// --- suffixes ---------------------------------------------------------------------

/// What the second step makes of its suffixes behind a word with a pair.
pub proof fn law_second_step(w: Seq<char>)
    requires
        has_pair(w),
    ensures
        step_2_of(w + "ational"@) == w + "ate"@,
        w.last() != 'a' ==> step_2_of(w + "tional"@) == w + "tion"@,
        step_2_of(w + "enci"@) == w + "ence"@,
        step_2_of(w + "anci"@) == w + "ance"@,
        step_2_of(w + "izer"@) == w + "ize"@,
        step_2_of(w + "abli"@) == w + "able"@,
        step_2_of(w + "alli"@) == w + "al"@,
        step_2_of(w + "entli"@) == w + "ent"@,
        step_2_of(w + "eli"@) == w + "e"@,
        step_2_of(w + "ousli"@) == w + "ous"@,
        step_2_of(w + "ization"@) == w + "ize"@,
        w.last() != 'z' ==> step_2_of(w + "ation"@) == w + "ate"@,
        step_2_of(w + "ator"@) == w + "ate"@,
        step_2_of(w + "alism"@) == w + "al"@,
        step_2_of(w + "iveness"@) == w + "ive"@,
        step_2_of(w + "fulness"@) == w + "ful"@,
        step_2_of(w + "ousness"@) == w + "ous"@,
        step_2_of(w + "aliti"@) == w + "al"@,
        step_2_of(w + "iviti"@) == w + "ive"@,
        step_2_of(w + "biliti"@) == w + "ble"@,
        step_2_of(w + "logi"@) == w + "log"@,
{
    lemma_second_rule(w, "ational"@, 0);
    if w.last() != 'a' {
        lemma_second_rule(w, "tional"@, 1);
    }
    lemma_second_rule(w, "enci"@, 2);
    lemma_second_rule(w, "anci"@, 3);
    lemma_second_rule(w, "izer"@, 4);
    lemma_second_rule(w, "abli"@, 5);
    lemma_second_rule(w, "alli"@, 6);
    lemma_second_rule(w, "entli"@, 7);
    lemma_second_rule(w, "eli"@, 8);
    lemma_second_rule(w, "ousli"@, 9);
    lemma_second_rule(w, "ization"@, 10);
    if w.last() != 'z' {
        lemma_second_rule(w, "ation"@, 11);
    }
    lemma_second_rule(w, "ator"@, 12);
    lemma_second_rule(w, "alism"@, 13);
    lemma_second_rule(w, "iveness"@, 14);
    lemma_second_rule(w, "fulness"@, 15);
    lemma_second_rule(w, "ousness"@, 16);
    lemma_second_rule(w, "aliti"@, 17);
    lemma_second_rule(w, "iviti"@, 18);
    lemma_second_rule(w, "biliti"@, 19);
    lemma_second_rule(w, "logi"@, 20);
}

proof fn lemma_second_rule(w: Seq<char>, t: Seq<char>, k: int)
    requires
        has_pair(w),
        0 <= k < 21,
        t == step_2_rules()[k].0,
        k == 1 ==> w.last() != 'a',
        k == 11 ==> w.last() != 'z',
    ensures
        step_2_of(w + t) == w + step_2_rules()[k].1,
{
    let x = w + t;
    reveal_strlit("ational");
    reveal_strlit("tional");
    reveal_strlit("enci");
    reveal_strlit("anci");
    reveal_strlit("izer");
    reveal_strlit("abli");
    reveal_strlit("alli");
    reveal_strlit("entli");
    reveal_strlit("eli");
    reveal_strlit("ousli");
    reveal_strlit("ization");
    reveal_strlit("ation");
    reveal_strlit("ator");
    reveal_strlit("alism");
    reveal_strlit("iveness");
    reveal_strlit("fulness");
    reveal_strlit("ousness");
    reveal_strlit("aliti");
    reveal_strlit("iviti");
    reveal_strlit("biliti");
    reveal_strlit("logi");
    lemma_with_ending(w, t);
    lemma_second_endings(x);
    lemma_measure(w);
    assert(letter(x, 0) == letter(t, 0) && letter(x, 1) == letter(t, 1) && letter(x, 2) == letter(
        t,
        2,
    ));
    if t.len() >= 4 {
        assert(letter(x, 3) == letter(t, 3));
    }
    if t.len() >= 5 {
        assert(letter(x, 4) == letter(t, 4));
    }
    if k == 1 {
        lemma_letters(x, "ational"@);
        assert(letter("ational"@, 6) == 'a');
        assert(letter(x, 6) == w.last());
    }
    if k == 11 {
        lemma_letters(x, "ization"@);
        assert(letter("ization"@, 5) == 'z');
        assert(letter(x, 5) == w.last());
    }
    assert forall|j: int| 0 <= j < k implies !rule_applies(x, #[trigger] step_2_rules()[j]) by {}
    lemma_rule(x, step_2_rules(), 0, k);
}

/// The second step leaves a suffix behind a word without a pair.
pub proof fn law_second_step_kept(w: Seq<char>)
    requires
        !has_pair(w),
    ensures
        step_2_of(w + "tional"@) == w + "tional"@,
        step_2_of(w + "enci"@) == w + "enci"@,
        step_2_of(w + "anci"@) == w + "anci"@,
        step_2_of(w + "izer"@) == w + "izer"@,
        step_2_of(w + "abli"@) == w + "abli"@,
        step_2_of(w + "alli"@) == w + "alli"@,
        step_2_of(w + "entli"@) == w + "entli"@,
        step_2_of(w + "eli"@) == w + "eli"@,
        step_2_of(w + "ousli"@) == w + "ousli"@,
        step_2_of(w + "ation"@) == w + "ation"@,
        step_2_of(w + "ator"@) == w + "ator"@,
        step_2_of(w + "alism"@) == w + "alism"@,
        step_2_of(w + "iveness"@) == w + "iveness"@,
        step_2_of(w + "fulness"@) == w + "fulness"@,
        step_2_of(w + "ousness"@) == w + "ousness"@,
        step_2_of(w + "aliti"@) == w + "aliti"@,
        step_2_of(w + "iviti"@) == w + "iviti"@,
        step_2_of(w + "biliti"@) == w + "biliti"@,
        step_2_of(w + "logi"@) == w + "logi"@,
{
    lemma_second_kept(w, "tional"@, 1);
    lemma_second_kept(w, "enci"@, 2);
    lemma_second_kept(w, "anci"@, 3);
    lemma_second_kept(w, "izer"@, 4);
    lemma_second_kept(w, "abli"@, 5);
    lemma_second_kept(w, "alli"@, 6);
    lemma_second_kept(w, "entli"@, 7);
    lemma_second_kept(w, "eli"@, 8);
    lemma_second_kept(w, "ousli"@, 9);
    lemma_second_kept(w, "ation"@, 11);
    lemma_second_kept(w, "ator"@, 12);
    lemma_second_kept(w, "alism"@, 13);
    lemma_second_kept(w, "iveness"@, 14);
    lemma_second_kept(w, "fulness"@, 15);
    lemma_second_kept(w, "ousness"@, 16);
    lemma_second_kept(w, "aliti"@, 17);
    lemma_second_kept(w, "iviti"@, 18);
    lemma_second_kept(w, "biliti"@, 19);
    lemma_second_kept(w, "logi"@, 20);
}

proof fn lemma_second_kept(w: Seq<char>, t: Seq<char>, k: int)
    requires
        !has_pair(w),
        0 <= k < 21,
        k != 0,
        k != 10,
        t == step_2_rules()[k].0,
    ensures
        step_2_of(w + t) == w + t,
{
    let x = w + t;
    reveal_strlit("ational");
    reveal_strlit("tional");
    reveal_strlit("enci");
    reveal_strlit("anci");
    reveal_strlit("izer");
    reveal_strlit("abli");
    reveal_strlit("alli");
    reveal_strlit("entli");
    reveal_strlit("eli");
    reveal_strlit("ousli");
    reveal_strlit("ization");
    reveal_strlit("ation");
    reveal_strlit("ator");
    reveal_strlit("alism");
    reveal_strlit("iveness");
    reveal_strlit("fulness");
    reveal_strlit("ousness");
    reveal_strlit("aliti");
    reveal_strlit("iviti");
    reveal_strlit("biliti");
    reveal_strlit("logi");
    lemma_with_ending(w, t);
    lemma_second_endings(x);
    lemma_measure(w);
    assert(letter(x, 0) == letter(t, 0) && letter(x, 1) == letter(t, 1) && letter(x, 2) == letter(
        t,
        2,
    ));
    if t.len() >= 4 {
        assert(letter(x, 3) == letter(t, 3));
    }
    if t.len() >= 5 {
        assert(letter(x, 4) == letter(t, 4));
    }
    assert forall|j: int| 0 <= j < 21 implies !rule_applies(x, #[trigger] step_2_rules()[j]) by {
        if rule_applies(x, step_2_rules()[j]) {
            let s = step_2_rules()[j].0;
            let rest = cut(x, s.len() as int);
            lemma_measure(rest);
            assert(j == k || (j == 0 && k == 1) || (j == 10 && k == 11));
            if j != k {
                let m = w.skip(rest.len() as int);
                assert(w =~= rest + m);
                lemma_start_pairs(rest, m);
            }
        }
    }
    lemma_no_rule(x, step_2_rules(), 0);
}

/// What the third step makes of its suffixes behind a word with a pair.
pub proof fn law_third_step(w: Seq<char>)
    ensures
        has_pair(w) ==> step_3_of(w + "icate"@) == w + "ic"@,
        has_pair(w) ==> step_3_of(w + "ative"@) == w,
        has_pair(w) ==> step_3_of(w + "alize"@) == w + "al"@,
        has_pair(w) ==> step_3_of(w + "iciti"@) == w + "ic"@,
        has_pair(w) ==> step_3_of(w + "ical"@) == w + "ic"@,
        has_pair(w) ==> step_3_of(w + "ful"@) == w,
        has_pair(w) ==> step_3_of(w + "ness"@) == w,
        !has_pair(w) ==> step_3_of(w + "icate"@) == w + "icate"@,
        !has_pair(w) ==> step_3_of(w + "ative"@) == w + "ative"@,
        !has_pair(w) ==> step_3_of(w + "alize"@) == w + "alize"@,
        !has_pair(w) ==> step_3_of(w + "iciti"@) == w + "iciti"@,
        !has_pair(w) ==> step_3_of(w + "ical"@) == w + "ical"@,
        !has_pair(w) ==> step_3_of(w + "ful"@) == w + "ful"@,
        !has_pair(w) ==> step_3_of(w + "ness"@) == w + "ness"@,
{
    lemma_third_rule(w, "icate"@, 0);
    lemma_third_rule(w, "ative"@, 1);
    lemma_third_rule(w, "alize"@, 2);
    lemma_third_rule(w, "iciti"@, 3);
    lemma_third_rule(w, "ical"@, 4);
    lemma_third_rule(w, "ful"@, 5);
    lemma_third_rule(w, "ness"@, 6);
    reveal_strlit("");
    assert(w + ""@ =~= w);
}

proof fn lemma_third_rule(w: Seq<char>, t: Seq<char>, k: int)
    requires
        0 <= k < 7,
        t == step_3_rules()[k].0,
    ensures
        has_pair(w) ==> step_3_of(w + t) == w + step_3_rules()[k].1,
        !has_pair(w) ==> step_3_of(w + t) == w + t,
{
    let x = w + t;
    reveal_strlit("icate");
    reveal_strlit("ative");
    reveal_strlit("alize");
    reveal_strlit("iciti");
    reveal_strlit("ical");
    reveal_strlit("ful");
    reveal_strlit("ness");
    lemma_with_ending(w, t);
    lemma_third_endings(x);
    lemma_measure(w);
    assert(letter(x, 0) == letter(t, 0) && letter(x, 1) == letter(t, 1) && letter(x, 2) == letter(
        t,
        2,
    ));
    if t.len() >= 4 {
        assert(letter(x, 3) == letter(t, 3));
    }
    assert forall|j: int| 0 <= j < 7 && j != k implies !rule_applies(
        x,
        #[trigger] step_3_rules()[j],
    ) by {}
    if has_pair(w) {
        lemma_rule(x, step_3_rules(), 0, k);
    } else {
        lemma_no_rule(x, step_3_rules(), 0);
    }
}

/// The fourth step drops its suffixes behind a word with two pairs: `ion` only
/// behind `s` and `t`, and of `ement`, `ment` and `ent` the longest.
pub proof fn law_fourth_step(w: Seq<char>)
    requires
        has_two_pairs(w),
    ensures
        step_4_of(w + "al"@) == w,
        step_4_of(w + "ance"@) == w,
        step_4_of(w + "ence"@) == w,
        step_4_of(w + "er"@) == w,
        step_4_of(w + "ic"@) == w,
        step_4_of(w + "able"@) == w,
        step_4_of(w + "ible"@) == w,
        step_4_of(w + "ant"@) == w,
        step_4_of(w + "ement"@) == w,
        w.last() != 'e' ==> step_4_of(w + "ment"@) == w,
        w.last() != 'm' ==> step_4_of(w + "ent"@) == w,
        w.last() == 's' || w.last() == 't' ==> step_4_of(w + "ion"@) == w,
        step_4_of(w + "ou"@) == w,
        step_4_of(w + "ism"@) == w,
        step_4_of(w + "ate"@) == w,
        step_4_of(w + "iti"@) == w,
        step_4_of(w + "ous"@) == w,
        step_4_of(w + "ive"@) == w,
        step_4_of(w + "ize"@) == w,
        w.last() != 's' && w.last() != 't' ==> step_4_of(w + "ion"@) == w + "ion"@,
{
    lemma_fourth_drop(w, "al"@, 0);
    lemma_fourth_drop(w, "ance"@, 1);
    lemma_fourth_drop(w, "ence"@, 2);
    lemma_fourth_drop(w, "er"@, 3);
    lemma_fourth_drop(w, "ic"@, 4);
    lemma_fourth_drop(w, "able"@, 5);
    lemma_fourth_drop(w, "ible"@, 6);
    lemma_fourth_drop(w, "ant"@, 7);
    lemma_fourth_drop(w, "ement"@, 8);
    if w.last() != 'e' {
        lemma_fourth_drop(w, "ment"@, 9);
    }
    if w.last() != 'm' {
        lemma_fourth_drop(w, "ent"@, 10);
    }
    lemma_fourth_drop(w, "ion"@, 11);
    lemma_fourth_drop(w, "ou"@, 12);
    lemma_fourth_drop(w, "ism"@, 13);
    lemma_fourth_drop(w, "ate"@, 14);
    lemma_fourth_drop(w, "iti"@, 15);
    lemma_fourth_drop(w, "ous"@, 16);
    lemma_fourth_drop(w, "ive"@, 17);
    lemma_fourth_drop(w, "ize"@, 18);
}

proof fn lemma_fourth_drop(w: Seq<char>, t: Seq<char>, k: int)
    requires
        0 <= k < 19,
        t == step_4_suffixes()[k],
        has_two_pairs(w),
        k == 9 ==> w.last() != 'e',
        k == 10 ==> w.last() != 'm',
    ensures
        k != 11 || w.last() == 's' || w.last() == 't' ==> step_4_of(w + t) == w,
        k == 11 && w.last() != 's' && w.last() != 't' ==> step_4_of(w + t) == w + t,
{
    let x = w + t;
    reveal_strlit("al");
    reveal_strlit("ance");
    reveal_strlit("ence");
    reveal_strlit("er");
    reveal_strlit("ic");
    reveal_strlit("able");
    reveal_strlit("ible");
    reveal_strlit("ant");
    reveal_strlit("ement");
    reveal_strlit("ment");
    reveal_strlit("ent");
    reveal_strlit("ion");
    reveal_strlit("ou");
    reveal_strlit("ism");
    reveal_strlit("ate");
    reveal_strlit("iti");
    reveal_strlit("ous");
    reveal_strlit("ive");
    reveal_strlit("ize");
    lemma_with_ending(w, t);
    lemma_fourth_endings(x);
    lemma_measure(w);
    assert(letter(x, 0) == letter(t, 0) && letter(x, 1) == letter(t, 1));
    if t.len() >= 3 {
        assert(letter(x, 2) == letter(t, 2));
    }
    if t.len() >= 4 {
        assert(letter(x, 3) == letter(t, 3));
    }
    if t.len() >= 5 {
        assert(letter(x, 4) == letter(t, 4));
    }
    if k == 9 {
        assert(letter(x, 4) == w.last());
    }
    if k == 10 {
        assert(letter(x, 3) == w.last());
    }
    assert forall|j: int| 0 <= j < k implies !has_suffix(x, #[trigger] step_4_suffixes()[j]) by {}
    lemma_dropped(x, step_4_suffixes(), 0, k);
    if k != 11 {
        assert(t != "ion"@);
    }
}

/// The fourth step keeps a word with less than two pairs before its suffix.
pub proof fn law_fourth_step_kept(w: Seq<char>)
    requires
        !has_two_pairs(w),
    ensures
        step_4_of(w + "al"@) == w + "al"@,
        step_4_of(w + "ance"@) == w + "ance"@,
        step_4_of(w + "ence"@) == w + "ence"@,
        step_4_of(w + "er"@) == w + "er"@,
        step_4_of(w + "ic"@) == w + "ic"@,
        step_4_of(w + "able"@) == w + "able"@,
        step_4_of(w + "ible"@) == w + "ible"@,
        step_4_of(w + "ant"@) == w + "ant"@,
        step_4_of(w + "ement"@) == w + "ement"@,
        step_4_of(w + "ment"@) == w + "ment"@,
        step_4_of(w + "ent"@) == w + "ent"@,
        step_4_of(w + "ion"@) == w + "ion"@,
        step_4_of(w + "ou"@) == w + "ou"@,
        step_4_of(w + "ism"@) == w + "ism"@,
        step_4_of(w + "ate"@) == w + "ate"@,
        step_4_of(w + "iti"@) == w + "iti"@,
        step_4_of(w + "ous"@) == w + "ous"@,
        step_4_of(w + "ive"@) == w + "ive"@,
        step_4_of(w + "ize"@) == w + "ize"@,
{
    lemma_fourth_kept(w, "al"@, 0);
    lemma_fourth_kept(w, "ance"@, 1);
    lemma_fourth_kept(w, "ence"@, 2);
    lemma_fourth_kept(w, "er"@, 3);
    lemma_fourth_kept(w, "ic"@, 4);
    lemma_fourth_kept(w, "able"@, 5);
    lemma_fourth_kept(w, "ible"@, 6);
    lemma_fourth_kept(w, "ant"@, 7);
    lemma_fourth_kept(w, "ement"@, 8);
    lemma_fourth_kept(w, "ment"@, 9);
    lemma_fourth_kept(w, "ent"@, 10);
    lemma_fourth_kept(w, "ion"@, 11);
    lemma_fourth_kept(w, "ou"@, 12);
    lemma_fourth_kept(w, "ism"@, 13);
    lemma_fourth_kept(w, "ate"@, 14);
    lemma_fourth_kept(w, "iti"@, 15);
    lemma_fourth_kept(w, "ous"@, 16);
    lemma_fourth_kept(w, "ive"@, 17);
    lemma_fourth_kept(w, "ize"@, 18);
}

proof fn lemma_fourth_kept(w: Seq<char>, t: Seq<char>, k: int)
    requires
        0 <= k < 19,
        t == step_4_suffixes()[k],
        !has_two_pairs(w),
    ensures
        step_4_of(w + t) == w + t,
{
    let x = w + t;
    reveal_strlit("al");
    reveal_strlit("ance");
    reveal_strlit("ence");
    reveal_strlit("er");
    reveal_strlit("ic");
    reveal_strlit("able");
    reveal_strlit("ible");
    reveal_strlit("ant");
    reveal_strlit("ement");
    reveal_strlit("ment");
    reveal_strlit("ent");
    reveal_strlit("ion");
    reveal_strlit("ou");
    reveal_strlit("ism");
    reveal_strlit("ate");
    reveal_strlit("iti");
    reveal_strlit("ous");
    reveal_strlit("ive");
    reveal_strlit("ize");
    lemma_with_ending(w, t);
    lemma_fourth_endings(x);
    lemma_measure(w);
    assert(letter(x, 0) == letter(t, 0) && letter(x, 1) == letter(t, 1));
    if t.len() >= 3 {
        assert(letter(x, 2) == letter(t, 2));
    }
    if t.len() >= 4 {
        assert(letter(x, 3) == letter(t, 3));
    }
    if t.len() >= 5 {
        assert(letter(x, 4) == letter(t, 4));
    }
    if (k == 9 || k == 10) && has_suffix(x, "ement"@) {
        lemma_keeps_longer(w, t, "ement"@);
        lemma_dropped(x, step_4_suffixes(), 0, 8);
    } else if k == 10 && has_suffix(x, "ment"@) {
        lemma_keeps_longer(w, t, "ment"@);
        lemma_dropped(x, step_4_suffixes(), 0, 9);
    } else {
        assert forall|j: int| 0 <= j < k implies !has_suffix(
            x,
            #[trigger] step_4_suffixes()[j],
        ) by {}
        lemma_dropped(x, step_4_suffixes(), 0, k);
    }
}

proof fn lemma_keeps_longer(w: Seq<char>, t: Seq<char>, s: Seq<char>)
    requires
        t.len() <= s.len(),
        has_suffix(w + t, s),
        !has_two_pairs(w),
    ensures
        measure_of(cut(w + t, s.len() as int)) <= 1,
{
    let rest = cut(w + t, s.len() as int);
    let m = w.skip(rest.len() as int);
    assert(w =~= rest + m);
    lemma_start_pairs(rest, m);
    lemma_measure(rest);
}

/// A final `e` goes behind a word with two pairs, or with one and no short end.
pub proof fn law_final_e(w: Seq<char>)
    ensures
        has_two_pairs(w) || (has_pair(w) && !is_short_end(w)) ==> step_5a_of(w + "e"@) == w,
        !has_pair(w) || (!has_two_pairs(w) && is_short_end(w)) ==> step_5a_of(w + "e"@) == w
            + "e"@,
        w.len() > 0 && w.last() != 'e' ==> step_5a_of(w) == w,
{
    reveal_strlit("e");
    lemma_with_ending(w, "e"@);
    lemma_measure(w);
    lemma_short_end(w);
    assert(cut(w + "e"@, 1) == w);
    if has_two_pairs(w) {
        let (i, j) = choose|i: int, j: int|
            i < j && #[trigger] pair_at(w, i) && #[trigger] pair_at(w, j);
        assert(pair_at(w, i));
    }
}

/// Of a final `ll` one goes where the word has two pairs.
pub proof fn law_final_l(w: Seq<char>)
    ensures
        has_two_pairs(w + "ll"@) ==> step_5b_of(w + "ll"@) == w + "l"@,
        !has_two_pairs(w + "ll"@) ==> step_5b_of(w + "ll"@) == w + "ll"@,
        w.len() > 0 && (w.last() != 'l' || (w.len() > 1 && letter(w, 1) != 'l')) ==> step_5b_of(w)
            == w,
{
    reveal_strlit("ll");
    reveal_strlit("l");
    let x = w + "ll"@;
    lemma_measure(x);
    assert(cut(x, 1) =~= w + "l"@);
    assert(has_double_end(x));
}

// --- whole words -------------------------------------------------------------------

/// A word in `e` whose letter before is none of c, l, t, v and z.
pub proof fn law_final_e_stem(w: Seq<char>)
    requires
        is_lower_word(w),
        w.len() >= 2,
        w.last() != 'c' && w.last() != 'l' && w.last() != 't' && w.last() != 'v' && w.last() != 'z',
    ensures
        has_two_pairs(w) || (has_pair(w) && !is_short_end(w)) ==> stem_of(w + "e"@) == w,
        !has_pair(w) || (!has_two_pairs(w) && is_short_end(w)) ==> stem_of(w + "e"@) == w + "e"@,
{
    reveal_strlit("e");
    let x = w + "e"@;
    lemma_lower_parts(w, "e"@);
    lemma_lower(x);
    lemma_plain_start(x);
    assert(x.last() == 'e');
    assert(letter(x, 0) == 'e' && letter(x, 1) == w.last());
    lemma_second_keeps_e(x);
    lemma_third_endings(x);
    lemma_no_rule(x, step_3_rules(), 0);
    lemma_fourth_endings(x);
    lemma_none_dropped(x, step_4_suffixes(), 0);
    law_final_e(w);
    law_final_l(w);
    law_final_l(x);
}

/// A word that ends in none of d, g, s and y passes the first steps.
proof fn lemma_plain_start(x: Seq<char>)
    requires
        x.len() > 0,
        x.last() != 'd' && x.last() != 'g' && x.last() != 's' && x.last() != 'y',
    ensures
        step_1c_of(step_1b_of(step_1a_of(x))) == x,
{
    law_plural(x);
    law_past_and_progressive(x);
    law_final_y(x);
}

/// A word in `ll`.
pub proof fn law_final_l_stem(w: Seq<char>)
    requires
        is_lower_word(w),
        w.len() >= 1,
    ensures
        has_two_pairs(w + "ll"@) ==> stem_of(w + "ll"@) == w + "l"@,
        !has_two_pairs(w + "ll"@) ==> stem_of(w + "ll"@) == w + "ll"@,
{
    reveal_strlit("ll");
    let x = w + "ll"@;
    lemma_lower_parts(w, "ll"@);
    lemma_lower(x);
    lemma_plain_start(x);
    assert(letter(x, 0) == 'l' && letter(x, 1) == 'l');
    lemma_second_endings(x);
    lemma_no_rule(x, step_2_rules(), 0);
    lemma_third_endings(x);
    lemma_no_rule(x, step_3_rules(), 0);
    lemma_fourth_endings(x);
    lemma_none_dropped(x, step_4_suffixes(), 0);
    law_final_e(x);
    law_final_l(w);
}

/// Behind a word of two pairs that ends in one of these letters nothing but the
/// fourth step sees its suffixes.
pub open spec fn is_plain(c: char) -> bool {
    c == 'd' || c == 'f' || c == 'g' || c == 'h' || c == 'k' || c == 'p' || c == 'r' || c == 'w'
}

/// Whether the fourth step drops the suffix, whatever stands before it.
pub open spec fn is_dropped_suffix(t: Seq<char>) -> bool {
    ||| t == "al"@
    ||| t == "ance"@
    ||| t == "ence"@
    ||| t == "er"@
    ||| t == "ic"@
    ||| t == "able"@
    ||| t == "ible"@
    ||| t == "ant"@
    ||| t == "ement"@
    ||| t == "ment"@
    ||| t == "ent"@
    ||| t == "ou"@
    ||| t == "ism"@
    ||| t == "ate"@
    ||| t == "iti"@
    ||| t == "ous"@
    ||| t == "ive"@
    ||| t == "ize"@
}

/// The stem of a word with two pairs and one of the dropped suffixes is that
/// word.
pub proof fn law_dropped_stem(w: Seq<char>, t: Seq<char>)
    requires
        is_lower_word(w),
        has_two_pairs(w),
        is_plain(w.last()),
        is_dropped_suffix(t),
    ensures
        stem_of(w + t) == w,
{
    reveal_strlit("ous");
    if t == "ous"@ {
        reveal_strlit("ou");
        reveal_strlit("s");
        reveal_strlit("ie");
        reveal_strlit("sse");
        let v = w + "ou"@;
        lemma_two_pairs_length(w);
        lemma_lower_parts(w, t);
        lemma_lower_parts(w, "ou"@);
        assert(v + "s"@ =~= w + t);
        assert(v.last() == 'u');
        lemma_ends_in(v, "ie"@);
        lemma_ends_in(v, "sse"@);
        lemma_letters(v, "ie"@);
        lemma_letters(v, "sse"@);
        assert(letter(v, 0) == 'u');
        law_plural_stem(v);
        lemma_dropped_stem(w, "ou"@, 12);
    } else {
        let k = choose|k: int|
            0 <= k < 19 && k != 11 && k != 16 && t == #[trigger] step_4_suffixes()[k];
        assert(step_4_suffixes()[0] == "al"@);
        assert(step_4_suffixes()[1] == "ance"@);
        assert(step_4_suffixes()[2] == "ence"@);
        assert(step_4_suffixes()[3] == "er"@);
        assert(step_4_suffixes()[4] == "ic"@);
        assert(step_4_suffixes()[5] == "able"@);
        assert(step_4_suffixes()[6] == "ible"@);
        assert(step_4_suffixes()[7] == "ant"@);
        assert(step_4_suffixes()[8] == "ement"@);
        assert(step_4_suffixes()[9] == "ment"@);
        assert(step_4_suffixes()[10] == "ent"@);
        assert(step_4_suffixes()[12] == "ou"@);
        assert(step_4_suffixes()[13] == "ism"@);
        assert(step_4_suffixes()[14] == "ate"@);
        assert(step_4_suffixes()[15] == "iti"@);
        assert(step_4_suffixes()[17] == "ive"@);
        assert(step_4_suffixes()[18] == "ize"@);
        lemma_dropped_stem(w, t, k);
    }
}

proof fn lemma_two_pairs_length(w: Seq<char>)
    ensures
        has_pair(w) ==> w.len() >= 2,
        has_two_pairs(w) ==> w.len() >= 3 && has_pair(w),
{
    if has_pair(w) {
        let i = choose|i: int| #[trigger] pair_at(w, i);
        assert(pair_at(w, i));
    }
    if has_two_pairs(w) {
        let (i, j) = choose|i: int, j: int|
            i < j && #[trigger] pair_at(w, i) && #[trigger] pair_at(w, j);
        assert(pair_at(w, i) && pair_at(w, j));
    }
}

proof fn lemma_dropped_stem(w: Seq<char>, t: Seq<char>, k: int)
    requires
        0 <= k < 19,
        k != 11,
        k != 16,
        t == step_4_suffixes()[k],
        is_lower_word(w),
        has_two_pairs(w),
        is_plain(w.last()),
    ensures
        stem_of(w + t) == w,
{
    let x = w + t;
    lemma_two_pairs_length(w);
    lemma_passed_by(w, t, k);
    lemma_fourth_drop(w, t, k);
    law_final_e(w);
    law_final_l(w);
    lemma_lower_parts(w, t);
    lemma_assembled(x);
}

/// The stem of a word that the steps before the fourth leave as it is.
proof fn lemma_assembled(x: Seq<char>)
    requires
        is_lower_word(x),
        x.len() > 2,
        step_1c_of(step_1b_of(step_1a_of(x))) == x,
        step_2_of(x) == x,
    ensures
        stem_of(x) == step_5b_of(step_5a_of(step_4_of(step_3_of(x)))),
{
    lemma_lower(x);
}

/// A plain word with a dropped suffix passes the steps before the fourth.
proof fn lemma_passed_by(w: Seq<char>, t: Seq<char>, k: int)
    requires
        0 <= k < 19,
        k != 11,
        k != 16,
        t == step_4_suffixes()[k],
        w.len() > 0,
        is_plain(w.last()),
    ensures
        step_1c_of(step_1b_of(step_1a_of(w + t))) == w + t,
        step_2_of(w + t) == w + t,
        step_3_of(w + t) == w + t,
        is_lower_word(t),
{
    let x = w + t;
    reveal_strlit("al");
    reveal_strlit("ance");
    reveal_strlit("ence");
    reveal_strlit("er");
    reveal_strlit("ic");
    reveal_strlit("able");
    reveal_strlit("ible");
    reveal_strlit("ant");
    reveal_strlit("ement");
    reveal_strlit("ment");
    reveal_strlit("ent");
    reveal_strlit("ion");
    reveal_strlit("ou");
    reveal_strlit("ism");
    reveal_strlit("ate");
    reveal_strlit("iti");
    reveal_strlit("ous");
    reveal_strlit("ive");
    reveal_strlit("ize");
    lemma_with_ending(w, t);
    assert(letter(x, 0) == letter(t, 0) && letter(x, 1) == letter(t, 1));
    if t.len() == 2 {
        assert(letter(x, 2) == w.last());
    }
    if t.len() >= 3 {
        assert(letter(x, 2) == letter(t, 2));
    }
    if t.len() == 3 {
        assert(letter(x, 3) == w.last());
    }
    if t.len() >= 4 {
        assert(letter(x, 3) == letter(t, 3));
    }
    assert(x.last() == letter(x, 0));
    lemma_plain_start(x);
    assert(step_2_of(x) == x) by {
        lemma_second_endings(x);
        lemma_no_rule(x, step_2_rules(), 0);
    }
    assert(step_3_of(x) == x) by {
        lemma_third_endings(x);
        lemma_no_rule(x, step_3_rules(), 0);
    }
}

/// Whether the second step replaces a suffix of the word by the other.
pub open spec fn is_replaced(w: Seq<char>, s: Seq<char>, r: Seq<char>) -> bool {
    ||| s == "ational"@ && r == "ate"@
    ||| s == "tional"@ && r == "tion"@ && w.last() != 'a'
    ||| s == "enci"@ && r == "ence"@
    ||| s == "anci"@ && r == "ance"@
    ||| s == "izer"@ && r == "ize"@
    ||| s == "abli"@ && r == "able"@
    ||| s == "alli"@ && r == "al"@ && w.last() != 'n'
    ||| s == "entli"@ && r == "ent"@
    ||| s == "eli"@ && r == "e"@
    ||| s == "ization"@ && r == "ize"@
    ||| s == "ation"@ && r == "ate"@ && w.last() != 'z'
    ||| s == "ator"@ && r == "ate"@
    ||| s == "alism"@ && r == "al"@ && w.last() != 'n'
    ||| s == "iveness"@ && r == "ive"@
    ||| s == "fulness"@ && r == "ful"@
    ||| s == "aliti"@ && r == "al"@ && w.last() != 'n'
    ||| s == "iviti"@ && r == "ive"@
    ||| s == "biliti"@ && r == "ble"@
}

/// The suffixes that the second step replaces: the stem is the one of the word
/// with the replacement.
pub proof fn law_second_step_stem(w: Seq<char>, s: Seq<char>, r: Seq<char>)
    requires
        is_lower_word(w),
        has_pair(w),
        is_replaced(w, s, r),
    ensures
        stem_of(w + s) == stem_of(w + r),
{
    lemma_two_pairs_length(w);
    assert(step_2_of(w + s) == w + r) by {
        law_second_step(w);
    }
    reveal_strlit("ational");
    reveal_strlit("tional");
    reveal_strlit("enci");
    reveal_strlit("anci");
    reveal_strlit("izer");
    reveal_strlit("abli");
    reveal_strlit("alli");
    reveal_strlit("entli");
    reveal_strlit("eli");
    reveal_strlit("ization");
    reveal_strlit("ation");
    reveal_strlit("ator");
    reveal_strlit("alism");
    reveal_strlit("iveness");
    reveal_strlit("fulness");
    reveal_strlit("aliti");
    reveal_strlit("iviti");
    reveal_strlit("biliti");
    reveal_strlit("able");
    reveal_strlit("al");
    reveal_strlit("ance");
    reveal_strlit("ate");
    reveal_strlit("ble");
    reveal_strlit("e");
    reveal_strlit("ence");
    reveal_strlit("ent");
    reveal_strlit("ful");
    reveal_strlit("ive");
    reveal_strlit("ize");
    reveal_strlit("tion");
    lemma_second_stem(w, s, r);
}

/// Where both words pass the first steps and the second takes the one to the
/// other, their stems are equal.
proof fn lemma_second_stem(w: Seq<char>, s: Seq<char>, r: Seq<char>)
    requires
        is_lower_word(w),
        w.len() >= 2,
        is_lower_word(s),
        is_lower_word(r),
        s.len() > 1,
        r.len() > 0,
        s.last() == 'i' || s.last() == 'l' || s.last() == 'r' || s.last() == 'n' || s.last() == 'm'
            || (s.last() == 's' && s[s.len() - 2] == 's'),
        r.last() == 'e' || (r.last() == 'l' && r.len() >= 2 && (r[r.len() - 2] == 'u' || (r.len()
            == 2 && w.last() != 'n'))) || r.last() == 't' || (r.last() == 'n' && w.last() != 'a'
            && r.len() == 4 && r[0] == 't'),
        step_2_of(w + s) == w + r,
    ensures
        stem_of(w + s) == stem_of(w + r),
{
    let x = w + s;
    let y = w + r;
    assert(step_1c_of(step_1b_of(step_1a_of(x))) == x) by {
        assert(x.last() == s.last());
        if x.last() == 's' {
            reveal_strlit("ss");
            let v = x.take(x.len() - 2);
            assert(x =~= v + "ss"@);
            law_plural(v);
            law_past_and_progressive(x);
            law_final_y(x);
        } else {
            lemma_plain_start(x);
        }
    }
    assert(y.last() == r.last());
    lemma_plain_start(y);
    assert(step_2_of(y) == y) by {
        lemma_second_endings(y);
        assert(letter(y, 0) == r.last());
        if r.len() >= 2 {
            assert(letter(y, 1) == r[r.len() - 2]);
        }
        if r.len() == 2 {
            assert(letter(y, 2) == w.last());
        }
        if r.len() == 4 {
            assert(letter(y, 3) == r[0]);
            assert(letter(y, 4) == w.last());
        }
        lemma_no_rule(y, step_2_rules(), 0);
    }
    lemma_lower_parts(w, s);
    lemma_lower_parts(w, r);
    lemma_lower(x);
    lemma_lower(y);
}

/// Whether the third step leaves the same of both suffixes of the word.
pub open spec fn is_same_rest(w: Seq<char>, s: Seq<char>, t: Seq<char>) -> bool {
    ||| s == "icate"@ && t == "ical"@
    ||| s == "iciti"@ && t == "ical"@
    ||| s == "ative"@ && t == "ful"@
    ||| s == "ness"@ && t == "ful"@ && w.last() != 'e' && w.last() != 'l' && w.last() != 's'
    ||| s == "alize"@ && t == "al"@ && w.last() != 'n' && w.last() != 'c'
}

/// The suffixes of the third step: those that leave `ic` have one stem, and so
/// have those that leave nothing; `alize` has the stem of `al`.
pub proof fn law_third_step_stem(w: Seq<char>, s: Seq<char>, t: Seq<char>)
    requires
        is_lower_word(w),
        has_pair(w),
        is_same_rest(w, s, t),
    ensures
        stem_of(w + s) == stem_of(w + t),
{
    lemma_two_pairs_length(w);
    lemma_third_suffix_lengths(w, s, t);
    assert(step_3_of(w + s) == step_3_of(w + t)) by {
        law_third_step(w);
        if t == "al"@ {
            reveal_strlit("al");
            lemma_third_endings(w + t);
            assert(letter(w + t, 0) == 'l' && letter(w + t, 1) == 'a' && letter(w + t, 2)
                == w.last());
            lemma_no_rule(w + t, step_3_rules(), 0);
        }
    }
    lemma_third_start(w, s);
    lemma_third_start(w, t);
    lemma_lower_parts(w, s);
    lemma_lower_parts(w, t);
    lemma_assembled(w + s);
    lemma_assembled(w + t);
}

proof fn lemma_third_suffix_lengths(w: Seq<char>, s: Seq<char>, t: Seq<char>)
    requires
        is_same_rest(w, s, t),
    ensures
        is_lower_word(s),
        is_lower_word(t),
        s.len() >= 2,
        t.len() >= 2,
        s != "al"@,
        t != "ness"@,
        s == "ness"@ ==> w.last() != 'e' && w.last() != 'l' && w.last() != 's',
        t == "al"@ ==> w.last() != 'n' && w.last() != 'c',
{
    reveal_strlit("icate");
    reveal_strlit("ative");
    reveal_strlit("alize");
    reveal_strlit("iciti");
    reveal_strlit("ical");
    reveal_strlit("ful");
    reveal_strlit("ness");
    reveal_strlit("al");
    assert(t.last() == 'l');
    assert("ness"@.last() == 's');
}

/// A word in one of the third step's suffixes, or in `al`, passes the steps
/// before it.
proof fn lemma_third_start(w: Seq<char>, t: Seq<char>)
    requires
        w.len() >= 2,
        t == "icate"@ || t == "ative"@ || t == "alize"@ || t == "iciti"@ || t == "ical"@ || t
            == "ful"@ || t == "ness"@ || t == "al"@,
        t == "ness"@ ==> w.last() != 'e' && w.last() != 'l' && w.last() != 's',
        t == "al"@ ==> w.last() != 'n',
    ensures
        step_1c_of(step_1b_of(step_1a_of(w + t))) == w + t,
        step_2_of(w + t) == w + t,
{
    reveal_strlit("icate");
    reveal_strlit("ative");
    reveal_strlit("alize");
    reveal_strlit("iciti");
    reveal_strlit("ical");
    reveal_strlit("ful");
    reveal_strlit("ness");
    reveal_strlit("al");
    let x = w + t;
    lemma_with_ending(w, t);
    assert(x.last() == t.last());
    assert(letter(x, 0) == letter(t, 0) && letter(x, 1) == letter(t, 1));
    if t.len() == 2 {
        assert(letter(x, 2) == w.last());
    }
    if t.len() >= 3 {
        assert(letter(x, 2) == letter(t, 2));
    }
    if t.len() >= 4 {
        assert(letter(x, 3) == letter(t, 3));
    }
    if t.len() == 4 {
        assert(letter(x, 4) == w.last());
    }
    if t == "ness"@ {
        reveal_strlit("ss");
        let v = x.take(x.len() - 2);
        assert(x =~= v + "ss"@);
        law_plural(v);
        law_past_and_progressive(x);
        law_final_y(x);
    } else {
        lemma_plain_start(x);
    }
    assert(step_2_of(x) == x) by {
        lemma_second_endings(x);
        lemma_no_rule(x, step_2_rules(), 0);
    }
}

// --- form and text -------------------------------------------------------------------

/// Whether two texts of ASCII characters differ at most in the case of letters,
/// the second being in lower case.
pub open spec fn is_lower_form(w: Seq<char>, v: Seq<char>) -> bool {
    w.len() == v.len() && forall|i: int|
        0 <= i < w.len() ==> (w[i] as int) < 128 && (if 'A' <= w[i] <= 'Z' {
            v[i] as int == w[i] as int + 32
        } else {
            v[i] == #[trigger] w[i]
        })
}

/// The case of the letters does not matter, and words of one or two letters
/// keep their form.
pub proof fn law_case(w: Seq<char>, v: Seq<char>)
    requires
        is_lower_form(w, v),
    ensures
        stem_of(w) == stem_of(v),
        w.len() <= 2 ==> stem_of(w) == v,
{
    assert forall|i: int| 0 <= i < w.len() implies ascii_lower(#[trigger] w[i]) == v[i] && (
    v[i] as u32) < 128 && (w[i] as u32) < 128 && ascii_lower(v[i]) == v[i] by {
        lemma_lower_letter(w[i], v[i]);
    }
    assert(is_ascii_text(w));
    assert(is_ascii_text(v)) by {
        assert forall|i: int| 0 <= i < v.len() implies (#[trigger] v[i] as u32) < 128 by {
            assert(ascii_lower(w[i]) == v[i]);
        }
    }
    assert(lowercase(w) =~= v);
    assert(lowercase(v) =~= v) by {
        assert forall|i: int| 0 <= i < v.len() implies ascii_lower(#[trigger] v[i]) == v[i] by {
            assert(ascii_lower(w[i]) == v[i]);
        }
    }
}

proof fn lemma_lower_letter(c: char, d: char)
    requires
        (c as int) < 128,
        if 'A' <= c <= 'Z' {
            d as int == c as int + 32
        } else {
            d == c
        },
    ensures
        ascii_lower(c) == d,
        ascii_lower(d) == d,
        (c as u32) < 128,
        (d as u32) < 128,
{
}

proof fn lemma_stemmed_shift(a: Seq<char>, sep: char, b: Seq<char>, i: int)
    requires
        0 <= i <= b.len(),
    ensures
        stemmed_from(a + seq![sep] + b, a.len() + 1 + i) == stemmed_from(b, i),
    decreases b.len() - i,
{
    let s = a + seq![sep] + b;
    let k = a.len() + 1 + i;
    if i < b.len() {
        assert(s[k] == b[i]);
        if is_letter_or_number(b[i]) {
            lemma_end_shift(a, sep, b, i);
            lemma_word_end(b, i);
            let e = word_end(b, i);
            assert(s.subrange(k, a.len() + 1 + e) =~= b.subrange(i, e));
            lemma_stemmed_shift(a, sep, b, e);
        } else {
            lemma_stemmed_shift(a, sep, b, i + 1);
        }
    }
}

pub proof fn lemma_end_shift(a: Seq<char>, sep: char, b: Seq<char>, i: int)
    requires
        0 <= i <= b.len(),
    ensures
        word_end(a + seq![sep] + b, a.len() + 1 + i) == a.len() + 1 + word_end(b, i),
    decreases b.len() - i,
{
    let s = a + seq![sep] + b;
    if i < b.len() {
        assert(s[a.len() + 1 + i] == b[i]);
        lemma_end_shift(a, sep, b, i + 1);
    }
}

pub proof fn lemma_end_before(a: Seq<char>, sep: char, b: Seq<char>, i: int)
    requires
        0 <= i <= a.len(),
        !is_letter_or_number(sep),
    ensures
        word_end(a + seq![sep] + b, i) == word_end(a, i),
    decreases a.len() - i,
{
    let s = a + seq![sep] + b;
    if i < a.len() {
        assert(s[i] == a[i]);
        lemma_end_before(a, sep, b, i + 1);
    } else {
        assert(s[i] == sep);
    }
}

proof fn lemma_stemmed_before(a: Seq<char>, sep: char, b: Seq<char>, i: int)
    requires
        0 <= i <= a.len(),
        !is_letter_or_number(sep),
    ensures
        stemmed_from(a + seq![sep] + b, i) == stemmed_from(a, i) + seq![sep] + stemmed_from(b, 0),
    decreases a.len() - i,
{
    let s = a + seq![sep] + b;
    let tail = seq![sep] + stemmed_from(b, 0);
    if i == a.len() {
        assert(s[i] == sep);
        lemma_stemmed_shift(a, sep, b, 0);
        assert(stemmed_from(s, i) =~= stemmed_from(a, i) + seq![sep] + stemmed_from(b, 0));
    } else {
        assert(s[i] == a[i]);
        if is_letter_or_number(a[i]) {
            lemma_end_before(a, sep, b, i);
            lemma_word_end(a, i);
            let e = word_end(a, i);
            assert(s.subrange(i, e) =~= a.subrange(i, e));
            lemma_stemmed_before(a, sep, b, e);
        } else {
            lemma_stemmed_before(a, sep, b, i + 1);
        }
        assert(stemmed_from(s, i) =~= stemmed_from(a, i) + seq![sep] + stemmed_from(b, 0));
    }
}

/// A character that is neither letter nor number parts a text: what stands
/// before it and behind it is stemmed by itself, and it stays.
pub proof fn law_text_parts(a: Seq<char>, sep: char, b: Seq<char>)
    requires
        !is_letter_or_number(sep),
    ensures
        stemmed_from(a + seq![sep] + b, 0) == stemmed_from(a, 0) + seq![sep] + stemmed_from(b, 0),
{
    lemma_stemmed_before(a, sep, b, 0);
}

/// A text of letters and numbers alone is one word.
pub proof fn law_text_word(w: Seq<char>)
    requires
        forall|i: int| 0 <= i < w.len() ==> is_letter_or_number(#[trigger] w[i]),
    ensures
        w.len() > 0 ==> stemmed_from(w, 0) == stem_of(w),
        w.len() == 0 ==> stemmed_from(w, 0) == w,
{
    if w.len() > 0 {
        lemma_word_end(w, 0);
        assert(word_end(w, 0) == w.len());
        assert(w.subrange(0, w.len() as int) =~= w);
        assert(stemmed_from(w, w.len() as int) =~= seq![]);
        assert(stemmed_from(w, 0) =~= stem_of(w));
    } else {
        assert(stemmed_from(w, 0) =~= w);
    }
}

/// `making`, `hoping` and `hoped` are stemmed to `make` and `hope`.
pub proof fn law_making_and_hoping()
    ensures
        stem_of("making"@) == "make"@,
        stem_of("hoping"@) == "hope"@,
        stem_of("hoped"@) == "hope"@,
{
    reveal_strlit("making");
    reveal_strlit("make");
    reveal_strlit("hoping");
    reveal_strlit("hoped");
    reveal_strlit("hope");
    reveal_strlit("ing");
    reveal_strlit("ed");
    reveal_strlit("e");
    let m = seq!['m', 'a', 'k'];
    let h = seq!['h', 'o', 'p'];
    assert(m + "ing"@ =~= "making"@);
    assert(m + "e"@ =~= "make"@);
    assert(h + "ing"@ =~= "hoping"@);
    assert(h + "ed"@ =~= "hoped"@);
    assert(h + "e"@ =~= "hope"@);
    lemma_short_word(m);
    lemma_short_word(h);
    law_silent_e(m);
    law_silent_e(h);
}

proof fn lemma_short_word(w: Seq<char>)
    requires
        w == seq!['m', 'a', 'k'] || w == seq!['h', 'o', 'p'],
    ensures
        is_lower_word(w),
        has_pair(w),
        !has_two_pairs(w),
        is_short_end(w),
{
    assert(vowel_at(w, 1) && !vowel_at(w, 0) && !vowel_at(w, 2));
    assert(pair_at(w, 1));
}

} // verus!
