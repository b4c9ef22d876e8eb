//! The Porter stemmer: reduces English words to their stems.
//!
//! A word is read as `[C](VC){m}[V]`, where `C` is a run of consonants and `V`
//! a run of vowels; `m` is its measure. Eight steps strip or replace suffixes,
//! most of them under a condition on the measure of what stays.

use vstd::prelude::*;

use crate::text::{
    chars_of, is_alphanumeric, is_letter_or_number, lowercase, same_text, string_of, to_lowercase,
};

verus! {

/// Whether the letter is one of a, e, i, o and u.
pub open spec fn is_vowel_letter(c: char) -> bool {
    c == 'a' || c == 'e' || c == 'i' || c == 'o' || c == 'u'
}

/// Whether the letter at `i` is a consonant: no vowel letter, and if it is a
/// `y`, first in the word or behind a vowel.
pub open spec fn consonant_at(w: Seq<char>, i: int) -> bool
    decreases i,
{
    if is_vowel_letter(w[i]) {
        false
    } else if w[i] == 'y' && i > 0 {
        !consonant_at(w, i - 1)
    } else {
        true
    }
}

/// How often a vowel is followed by a consonant within the first `n` letters.
pub open spec fn turns(w: Seq<char>, n: int) -> nat
    decreases n,
{
    if n < 2 {
        0
    } else {
        turns(w, n - 1) + if !consonant_at(w, n - 2) && consonant_at(w, n - 1) {
            1nat
        } else {
            0nat
        }
    }
}

/// The measure of a word.
pub open spec fn measure_of(w: Seq<char>) -> nat {
    turns(w, w.len() as int)
}

/// Whether the word holds a vowel.
pub open spec fn has_vowel(w: Seq<char>) -> bool {
    exists|i: int| 0 <= i < w.len() && !#[trigger] consonant_at(w, i)
}

/// Whether the word ends in the same consonant twice.
pub open spec fn has_double_end(w: Seq<char>) -> bool {
    let n = w.len();
    n >= 2 && w[n - 1] == w[n - 2] && consonant_at(w, n - 1)
}

/// Whether the word ends in consonant, vowel, consonant, the last one neither
/// `w` nor `x` nor `y`.
pub open spec fn has_cvc_end(w: Seq<char>) -> bool {
    let n = w.len();
    &&& n >= 3
    &&& consonant_at(w, n - 3)
    &&& !consonant_at(w, n - 2)
    &&& consonant_at(w, n - 1)
    &&& w[n - 1] != 'w' && w[n - 1] != 'x' && w[n - 1] != 'y'
}

/// Whether the word ends in the suffix.
pub open spec fn has_suffix(w: Seq<char>, suffix: Seq<char>) -> bool {
    suffix.len() <= w.len() && w.skip(w.len() - suffix.len()) == suffix
}

/// The word without its last `n` letters.
pub open spec fn cut(w: Seq<char>, n: int) -> Seq<char> {
    w.take(w.len() - n)
}

/// A suffix and what replaces it.
pub type Rule = (Seq<char>, Seq<char>);

/// Whether the word ends in the rule's suffix and what stays has a measure
/// above zero.
pub open spec fn rule_applies(w: Seq<char>, rule: Rule) -> bool {
    has_suffix(w, rule.0) && measure_of(cut(w, rule.0.len() as int)) > 0
}

/// The word after the first of the rules from `i` on that applies.
pub open spec fn first_rule(w: Seq<char>, rules: Seq<Rule>, i: int) -> Seq<char>
    decreases rules.len() - i,
{
    if i < 0 || i >= rules.len() {
        w
    } else if rule_applies(w, rules[i]) {
        cut(w, rules[i].0.len() as int) + rules[i].1
    } else {
        first_rule(w, rules, i + 1)
    }
}

/// Plural endings: `sses` to `ss`, `ies` to `i`, `ss` kept, `s` dropped.
pub open spec fn step_1a_of(w: Seq<char>) -> Seq<char> {
    if has_suffix(w, "sses"@) {
        cut(w, 2)
    } else if has_suffix(w, "ies"@) {
        cut(w, 2)
    } else if has_suffix(w, "ss"@) {
        w
    } else if has_suffix(w, "s"@) && w.len() > 1 {
        cut(w, 1)
    } else {
        w
    }
}

/// Repairs a word that lost `ed` or `ing`.
pub open spec fn repaired(w: Seq<char>) -> Seq<char> {
    if has_suffix(w, "at"@) || has_suffix(w, "bl"@) || has_suffix(w, "iz"@) {
        w.push('e')
    } else if has_double_end(w) && w.last() != 'l' && w.last() != 's' && w.last() != 'z' {
        cut(w, 1)
    } else if measure_of(w) == 1 && has_cvc_end(w) {
        w.push('e')
    } else {
        w
    }
}

/// Past tense and progressive endings.
pub open spec fn step_1b_of(w: Seq<char>) -> Seq<char> {
    if has_suffix(w, "eed"@) {
        if measure_of(cut(w, 3)) > 0 {
            cut(w, 1)
        } else {
            w
        }
    } else if has_suffix(w, "ed"@) {
        if has_vowel(cut(w, 2)) {
            repaired(cut(w, 2))
        } else {
            w
        }
    } else if has_suffix(w, "ing"@) {
        if has_vowel(cut(w, 3)) {
            repaired(cut(w, 3))
        } else {
            w
        }
    } else {
        w
    }
}

/// A final `y` behind a part with a vowel becomes `i`.
pub open spec fn step_1c_of(w: Seq<char>) -> Seq<char> {
    if w.len() > 1 && w.last() == 'y' && has_vowel(cut(w, 1)) {
        cut(w, 1).push('i')
    } else {
        w
    }
}

/// The rules of the second step, in the order in which they are tried.
pub open spec fn step_2_rules() -> Seq<Rule> {
    seq![
        ("ational"@, "ate"@),
        ("tional"@, "tion"@),
        ("enci"@, "ence"@),
        ("anci"@, "ance"@),
        ("izer"@, "ize"@),
        ("abli"@, "able"@),
        ("alli"@, "al"@),
        ("entli"@, "ent"@),
        ("eli"@, "e"@),
        ("ousli"@, "ous"@),
        ("ization"@, "ize"@),
        ("ation"@, "ate"@),
        ("ator"@, "ate"@),
        ("alism"@, "al"@),
        ("iveness"@, "ive"@),
        ("fulness"@, "ful"@),
        ("ousness"@, "ous"@),
        ("aliti"@, "al"@),
        ("iviti"@, "ive"@),
        ("biliti"@, "ble"@),
        ("logi"@, "log"@),
    ]
}

/// The word after the second step.
pub open spec fn step_2_of(w: Seq<char>) -> Seq<char> {
    first_rule(w, step_2_rules(), 0)
}

/// The rules of the third step, in the order in which they are tried.
pub open spec fn step_3_rules() -> Seq<Rule> {
    seq![
        ("icate"@, "ic"@),
        ("ative"@, ""@),
        ("alize"@, "al"@),
        ("iciti"@, "ic"@),
        ("ical"@, "ic"@),
        ("ful"@, ""@),
        ("ness"@, ""@),
    ]
}

/// The word after the third step.
pub open spec fn step_3_of(w: Seq<char>) -> Seq<char> {
    first_rule(w, step_3_rules(), 0)
}

/// The suffixes that the fourth step drops, in the order in which they are
/// tried.
pub open spec fn step_4_suffixes() -> Seq<Seq<char>> {
    seq![
        "al"@,
        "ance"@,
        "ence"@,
        "er"@,
        "ic"@,
        "able"@,
        "ible"@,
        "ant"@,
        "ement"@,
        "ment"@,
        "ent"@,
        "ion"@,
        "ou"@,
        "ism"@,
        "ate"@,
        "iti"@,
        "ous"@,
        "ive"@,
        "ize"@,
    ]
}

/// Drops a suffix that the word ends in where what stays has a measure above
/// one; `ion` only behind `s` or `t`.
pub open spec fn dropped(w: Seq<char>, suffix: Seq<char>) -> Seq<char> {
    let rest = cut(w, suffix.len() as int);
    if measure_of(rest) > 1 && (suffix == "ion"@ ==> rest.last() == 's' || rest.last() == 't') {
        rest
    } else {
        w
    }
}

/// The word after the first of the suffixes from `i` on that it ends in has
/// been treated.
pub open spec fn first_dropped(w: Seq<char>, suffixes: Seq<Seq<char>>, i: int) -> Seq<char>
    decreases suffixes.len() - i,
{
    if i < 0 || i >= suffixes.len() {
        w
    } else if has_suffix(w, suffixes[i]) {
        dropped(w, suffixes[i])
    } else {
        first_dropped(w, suffixes, i + 1)
    }
}

/// The word after the fourth step.
pub open spec fn step_4_of(w: Seq<char>) -> Seq<char> {
    first_dropped(w, step_4_suffixes(), 0)
}

/// A final `e` goes where the measure of the rest is above one, or is one and
/// the rest does not end in consonant, vowel, consonant.
pub open spec fn step_5a_of(w: Seq<char>) -> Seq<char> {
    if w.len() > 0 && w.last() == 'e' && (measure_of(cut(w, 1)) > 1 || (measure_of(cut(w, 1)) == 1
        && !has_cvc_end(cut(w, 1)))) {
        cut(w, 1)
    } else {
        w
    }
}

/// A final double `l` becomes a single one where the measure is above one.
pub open spec fn step_5b_of(w: Seq<char>) -> Seq<char> {
    if w.len() > 0 && measure_of(w) > 1 && has_double_end(w) && w.last() == 'l' {
        cut(w, 1)
    } else {
        w
    }
}

/// A word in lower case after the eight steps.
pub open spec fn all_steps(w: Seq<char>) -> Seq<char> {
    step_5b_of(step_5a_of(step_4_of(step_3_of(step_2_of(step_1c_of(step_1b_of(step_1a_of(w))))))))
}

/// The stem of a word: words of one or two letters keep their form.
pub open spec fn stem_of(word: Seq<char>) -> Seq<char> {
    let lower = lowercase(word);
    if lower.len() <= 2 {
        lower
    } else {
        all_steps(lower)
    }
}

/// Where the run of letters and numbers from `i` on ends.
pub open spec fn word_end(s: Seq<char>, i: int) -> int
    decreases s.len() - i,
{
    if 0 <= i < s.len() && is_letter_or_number(s[i]) {
        word_end(s, i + 1)
    } else {
        i
    }
}

/// The text from `i` on with every word replaced by its stem.
pub open spec fn stemmed_from(s: Seq<char>, i: int) -> Seq<char>
    decreases s.len() - i,
{
    if i < 0 || i >= s.len() {
        seq![]
    } else if is_letter_or_number(s[i]) && i < word_end(s, i) <= s.len() {
        stem_of(s.subrange(i, word_end(s, i))) + stemmed_from(s, word_end(s, i))
    } else {
        seq![s[i]] + stemmed_from(s, i + 1)
    }
}

/// A run of letters and numbers ends within the text.
pub proof fn lemma_word_end(s: Seq<char>, i: int)
    requires
        0 <= i <= s.len(),
    ensures
        i <= word_end(s, i) <= s.len(),
        i < s.len() && is_letter_or_number(s[i]) ==> i < word_end(s, i),
        forall|k: int| i <= k < word_end(s, i) ==> is_letter_or_number(#[trigger] s[k]),
        word_end(s, i) < s.len() ==> !is_letter_or_number(s[word_end(s, i)]),
    decreases s.len() - i,
{
    if i < s.len() && is_letter_or_number(s[i]) {
        lemma_word_end(s, i + 1);
    }
}

/// Whether the letter is one of a, e, i, o and u.
fn is_vowel(c: char) -> (r: bool)
    ensures
        r == is_vowel_letter(c),
{
    c == 'a' || c == 'e' || c == 'i' || c == 'o' || c == 'u'
}

/// Whether the letter at `i` is a consonant.
fn is_consonant_at(word: &[char], i: usize) -> (r: bool)
    requires
        i < word@.len(),
    ensures
        r == consonant_at(word@, i as int),
    decreases i,
{
    let c: char = word[i];
    if is_vowel(c) {
        false
    } else if c == 'y' && i > 0 {
        !is_consonant_at(word, i - 1)
    } else {
        true
    }
}

/// The measure of the first `n` letters, which depends on those letters alone.
proof fn lemma_turns_prefix(w: Seq<char>, n: int, k: int)
    requires
        0 <= k <= n <= w.len(),
    ensures
        turns(w.take(n), k) == turns(w, k),
        turns(w, k) <= k,
        forall|i: int| 0 <= i < n ==> #[trigger] consonant_at(w.take(n), i) == consonant_at(w, i),
    decreases k,
{
    assert forall|i: int| 0 <= i < n implies #[trigger] consonant_at(w.take(n), i) == consonant_at(
        w,
        i,
    ) by {
        lemma_consonant_prefix(w, n, i);
    }
    if k > 0 {
        lemma_turns_prefix(w, n, k - 1);
    }
}

proof fn lemma_consonant_prefix(w: Seq<char>, n: int, i: int)
    requires
        0 <= i < n <= w.len(),
    ensures
        consonant_at(w.take(n), i) == consonant_at(w, i),
    decreases i,
{
    if i > 0 {
        lemma_consonant_prefix(w, n, i - 1);
    }
}

/// The measure of the first `n` letters of a word.
fn measure(word: &[char], n: usize) -> (r: usize)
    requires
        n <= word@.len(),
    ensures
        r == measure_of(word@.take(n as int)),
{
    proof {
        lemma_turns_prefix(word@, n as int, n as int);
    }
    if n == 0 {
        return 0;
    }
    let mut m: usize = 0;
    let mut before: bool = is_consonant_at(word, 0);
    let mut i: usize = 1;
    while i < n
        invariant
            1 <= i <= n <= word@.len(),
            m == turns(word@, i as int),
            m <= i,
            before == consonant_at(word@, i - 1),
        decreases n - i,
    {
        let here: bool = is_consonant_at(word, i);
        if !before && here {
            m = m + 1;
        }
        before = here;
        i = i + 1;
    }
    m
}

/// Whether one of the first `n` letters is a vowel.
fn contains_vowel(word: &[char], n: usize) -> (r: bool)
    requires
        n <= word@.len(),
    ensures
        r == has_vowel(word@.take(n as int)),
{
    proof {
        lemma_turns_prefix(word@, n as int, n as int);
    }
    let mut i: usize = 0;
    while i < n
        invariant
            i <= n <= word@.len(),
            forall|k: int| 0 <= k < i ==> #[trigger] consonant_at(word@, k),
            forall|k: int|
                0 <= k < n ==> #[trigger] consonant_at(word@.take(n as int), k) == consonant_at(
                    word@,
                    k,
                ),
        decreases n - i,
    {
        if !is_consonant_at(word, i) {
            assert(!consonant_at(word@.take(n as int), i as int));
            return true;
        }
        i = i + 1;
    }
    false
}

/// Whether the word ends in the same consonant twice.
fn ends_double_consonant(word: &[char]) -> (r: bool)
    ensures
        r == has_double_end(word@),
{
    let n: usize = word.len();
    n >= 2 && word[n - 1] == word[n - 2] && is_consonant_at(word, n - 1)
}

/// Whether the first `n` letters end in consonant, vowel, consonant, the last
/// one neither `w` nor `x` nor `y`.
fn ends_cvc(word: &[char], n: usize) -> (r: bool)
    requires
        n <= word@.len(),
    ensures
        r == has_cvc_end(word@.take(n as int)),
{
    proof {
        lemma_turns_prefix(word@, n as int, n as int);
    }
    if n < 3 {
        return false;
    }
    let last: char = word[n - 1];
    assert(word@.take(n as int)[n - 1] == last);
    is_consonant_at(word, n - 3) && !is_consonant_at(word, n - 2) && is_consonant_at(word, n - 1)
        && last != 'w' && last != 'x' && last != 'y'
}

/// Whether the word ends in the suffix; if it does, the number of letters
/// before it.
fn before_suffix(word: &[char], suffix: &str) -> (r: Option<usize>)
    ensures
        match r {
            Some(n) => has_suffix(word@, suffix@) && n == word@.len() - suffix@.len(),
            None => !has_suffix(word@, suffix@),
        },
{
    let s: Vec<char> = chars_of(suffix);
    let n: usize = word.len();
    if n < s.len() {
        return None;
    }
    let from: usize = n - s.len();
    let mut k: usize = 0;
    while k < s.len()
        invariant
            k <= s@.len(),
            s@ == suffix@,
            from == word@.len() - s@.len(),
            n == word@.len(),
            s@.len() <= n,
            forall|j: int| 0 <= j < k ==> word@[from + j] == #[trigger] s@[j],
        decreases s@.len() - k,
    {
        if word[from + k] != s[k] {
            assert(word@.skip(from as int)[k as int] != suffix@[k as int]);
            return None;
        }
        k = k + 1;
    }
    assert(word@.skip(from as int) =~= suffix@);
    Some(from)
}

/// Adds the characters of a text to a word.
fn push_text(w: &mut Vec<char>, text: &str)
    ensures
        final(w)@ == old(w)@ + text@,
{
    let t: Vec<char> = chars_of(text);
    let mut k: usize = 0;
    assert(w@ =~= old(w)@ + text@.take(0));
    while k < t.len()
        invariant
            k <= t@.len(),
            t@ == text@,
            w@ == old(w)@ + text@.take(k as int),
        decreases t@.len() - k,
    {
        w.push(t[k]);
        k = k + 1;
        assert(w@ =~= old(w)@ + text@.take(k as int));
    }
    assert(text@.take(k as int) =~= text@);
}

/// Applies a rule to a word. Returns whether it applied.
fn apply_rule_m_gt_0(w: &mut Vec<char>, suffix: &str, replacement: &str) -> (r: bool)
    ensures
        r == rule_applies(old(w)@, (suffix@, replacement@)),
        final(w)@ == (if r {
            cut(old(w)@, suffix@.len() as int) + replacement@
        } else {
            old(w)@
        }),
{
    match before_suffix(w.as_slice(), suffix) {
        Some(n) => {
            if measure(w.as_slice(), n) > 0 {
                w.truncate(n);
                push_text(w, replacement);
                true
            } else {
                false
            }
        },
        None => false,
    }
}

/// Normalizes plural endings.
fn step_1a(w: &mut Vec<char>)
    ensures
        final(w)@ == step_1a_of(old(w)@),
{
    proof {
        reveal_strlit("sses");
        reveal_strlit("ies");
        reveal_strlit("s");
    }
    let n: usize = w.len();
    if before_suffix(w.as_slice(), "sses").is_some() {
        w.truncate(n - 2);
    } else if before_suffix(w.as_slice(), "ies").is_some() {
        w.truncate(n - 2);
    } else if before_suffix(w.as_slice(), "ss").is_some() {
    } else if before_suffix(w.as_slice(), "s").is_some() && n > 1 {
        w.truncate(n - 1);
    }
}

/// Repairs a word that lost `ed` or `ing`.
fn repair(w: &mut Vec<char>)
    ensures
        final(w)@ == repaired(old(w)@),
{
    let n: usize = w.len();
    assert(w@.take(n as int) =~= w@);
    if before_suffix(w.as_slice(), "at").is_some() || before_suffix(w.as_slice(), "bl").is_some()
        || before_suffix(w.as_slice(), "iz").is_some() {
        w.push('e');
    } else if ends_double_consonant(w.as_slice()) && w[n - 1] != 'l' && w[n - 1] != 's' && w[n - 1]
        != 'z' {
        w.truncate(n - 1);
    } else if measure(w.as_slice(), n) == 1 && ends_cvc(w.as_slice(), n) {
        w.push('e');
    }
}

/// Strips past tense and progressive endings.
fn step_1b(w: &mut Vec<char>)
    ensures
        final(w)@ == step_1b_of(old(w)@),
{
    proof {
        reveal_strlit("eed");
        reveal_strlit("ed");
        reveal_strlit("ing");
    }
    let n: usize = w.len();
    if before_suffix(w.as_slice(), "eed").is_some() {
        if measure(w.as_slice(), n - 3) > 0 {
            w.truncate(n - 1);
        }
    } else if before_suffix(w.as_slice(), "ed").is_some() {
        if contains_vowel(w.as_slice(), n - 2) {
            w.truncate(n - 2);
            repair(w);
        }
    } else if before_suffix(w.as_slice(), "ing").is_some() {
        if contains_vowel(w.as_slice(), n - 3) {
            w.truncate(n - 3);
            repair(w);
        }
    }
}

/// Turns a final `y` behind a part with a vowel into `i`.
fn step_1c(w: &mut Vec<char>)
    ensures
        final(w)@ == step_1c_of(old(w)@),
{
    let n: usize = w.len();
    if n > 1 && w[n - 1] == 'y' && contains_vowel(w.as_slice(), n - 1) {
        w.truncate(n - 1);
        w.push('i');
    }
}

/// Applies the second step's rules.
fn step_2(w: &mut Vec<char>)
    ensures
        final(w)@ == step_2_of(old(w)@),
{
    let rules: [(&str, &str); 21] = [
        ("ational", "ate"),
        ("tional", "tion"),
        ("enci", "ence"),
        ("anci", "ance"),
        ("izer", "ize"),
        ("abli", "able"),
        ("alli", "al"),
        ("entli", "ent"),
        ("eli", "e"),
        ("ousli", "ous"),
        ("ization", "ize"),
        ("ation", "ate"),
        ("ator", "ate"),
        ("alism", "al"),
        ("iveness", "ive"),
        ("fulness", "ful"),
        ("ousness", "ous"),
        ("aliti", "al"),
        ("iviti", "ive"),
        ("biliti", "ble"),
        ("logi", "log"),
    ];
    let mut i: usize = 0;
    while i < 21
        invariant
            i <= 21,
            w@ == old(w)@,
            step_2_rules().len() == 21,
            first_rule(w@, step_2_rules(), i as int) == step_2_of(old(w)@),
            forall|k: int|
                0 <= k < 21 ==> (#[trigger] rules@[k]).0@ == step_2_rules()[k].0 && rules@[k].1@
                    == step_2_rules()[k].1,
        decreases 21 - i,
    {
        let (suffix, replacement): (&str, &str) = rules[i];
        if apply_rule_m_gt_0(w, suffix, replacement) {
            return;
        }
        i = i + 1;
    }
}

/// Applies the third step's rules.
fn step_3(w: &mut Vec<char>)
    ensures
        final(w)@ == step_3_of(old(w)@),
{
    let rules: [(&str, &str); 7] = [
        ("icate", "ic"),
        ("ative", ""),
        ("alize", "al"),
        ("iciti", "ic"),
        ("ical", "ic"),
        ("ful", ""),
        ("ness", ""),
    ];
    let mut i: usize = 0;
    while i < 7
        invariant
            i <= 7,
            w@ == old(w)@,
            step_3_rules().len() == 7,
            first_rule(w@, step_3_rules(), i as int) == step_3_of(old(w)@),
            forall|k: int|
                0 <= k < 7 ==> (#[trigger] rules@[k]).0@ == step_3_rules()[k].0 && rules@[k].1@
                    == step_3_rules()[k].1,
        decreases 7 - i,
    {
        let (suffix, replacement): (&str, &str) = rules[i];
        if apply_rule_m_gt_0(w, suffix, replacement) {
            return;
        }
        i = i + 1;
    }
}

/// Drops the fourth step's suffixes.
fn step_4(w: &mut Vec<char>)
    ensures
        final(w)@ == step_4_of(old(w)@),
{
    let suffixes: [&str; 19] = [
        "al",
        "ance",
        "ence",
        "er",
        "ic",
        "able",
        "ible",
        "ant",
        "ement",
        "ment",
        "ent",
        "ion",
        "ou",
        "ism",
        "ate",
        "iti",
        "ous",
        "ive",
        "ize",
    ];
    let mut i: usize = 0;
    while i < 19
        invariant
            i <= 19,
            w@ == old(w)@,
            step_4_suffixes().len() == 19,
            first_dropped(w@, step_4_suffixes(), i as int) == step_4_of(old(w)@),
            forall|k: int|
                0 <= k < 19 ==> (#[trigger] suffixes@[k])@ == step_4_suffixes()[k],
        decreases 19 - i,
    {
        let suffix: &str = suffixes[i];
        match before_suffix(w.as_slice(), suffix) {
            Some(n) => {
                assert(n == 0 ==> measure_of(cut(w@, suffix@.len() as int)) == 0);
                if measure(w.as_slice(), n) > 1 {
                    assert(cut(w@, suffix@.len() as int).last() == w@[n - 1]);
                    if !same_text(suffix, "ion") || w[n - 1] == 's' || w[n - 1] == 't' {
                        w.truncate(n);
                    }
                }
                return;
            },
            None => {},
        }
        i = i + 1;
    }
}

/// Drops a final `e`.
fn step_5a(w: &mut Vec<char>)
    ensures
        final(w)@ == step_5a_of(old(w)@),
{
    let n: usize = w.len();
    if n == 0 || w[n - 1] != 'e' {
        return;
    }
    let m: usize = measure(w.as_slice(), n - 1);
    if m > 1 || (m == 1 && !ends_cvc(w.as_slice(), n - 1)) {
        w.truncate(n - 1);
    }
}

/// Makes a final double `l` single.
fn step_5b(w: &mut Vec<char>)
    ensures
        final(w)@ == step_5b_of(old(w)@),
{
    let n: usize = w.len();
    assert(w@.take(n as int) =~= w@);
    if n > 0 && measure(w.as_slice(), n) > 1 && ends_double_consonant(w.as_slice()) && w[n - 1]
        == 'l' {
        w.truncate(n - 1);
    }
}

/// Stems a single word. The stem is in lower case; words of one or two letters
/// keep their form, and letters beyond ASCII count as consonants.
pub fn stem(word: &str) -> (r: String)
    ensures
        r@ == stem_of(word@),
{
    let lower: String = to_lowercase(word);
    let mut w: Vec<char> = chars_of(lower.as_str());
    if w.len() <= 2 {
        return lower;
    }
    step_1a(&mut w);
    step_1b(&mut w);
    step_1c(&mut w);
    step_2(&mut w);
    step_3(&mut w);
    step_4(&mut w);
    step_5a(&mut w);
    step_5b(&mut w);
    let n: usize = w.len();
    let r: String = string_of(w.as_slice(), 0, n);
    assert(w@.subrange(0, n as int) =~= w@);
    r
}

/// Stems a single word; the same as [`stem`].
pub fn stem_owned(word: &str) -> (r: String)
    ensures
        r@ == stem_of(word@),
{
    stem(word)
}

/// Finds where the run of letters and numbers from `i` on ends.
pub fn find_word_end(s: &[char], i: usize) -> (r: usize)
    requires
        i <= s@.len(),
    ensures
        r == word_end(s@, i as int),
        i <= r <= s@.len(),
{
    let mut e: usize = i;
    while e < s.len() && is_alphanumeric(s[e])
        invariant
            i <= e <= s@.len(),
            word_end(s@, e as int) == word_end(s@, i as int),
        decreases s@.len() - e,
    {
        e = e + 1;
    }
    e
}

/// Replaces every word of a text by its stem and keeps everything else.
pub fn stem_text(text: &str) -> (r: String)
    ensures
        r@ == stemmed_from(text@, 0),
{
    let s: Vec<char> = chars_of(text);
    let mut out: String = String::new();
    let mut i: usize = 0;
    while i < s.len()
        invariant
            i <= s@.len(),
            s@ == text@,
            out@ + stemmed_from(s@, i as int) == stemmed_from(text@, 0),
        decreases s@.len() - i,
    {
        let ghost before = out@;
        if is_alphanumeric(s[i]) {
            proof {
                lemma_word_end(s@, i as int);
            }
            let e: usize = find_word_end(s.as_slice(), i);
            let word: String = string_of(s.as_slice(), i, e);
            let stemmed: String = stem(word.as_str());
            out.append(stemmed.as_str());
            assert(out@ + stemmed_from(s@, e as int) =~= before + stemmed_from(s@, i as int));
            i = e;
        } else {
            out.push(s[i]);
            assert(out@ + stemmed_from(s@, i + 1) =~= before + stemmed_from(s@, i as int));
            i = i + 1;
        }
    }
    assert(out@ + stemmed_from(s@, i as int) =~= out@);
    out
}

} // verus!
