//! Text as sequences of characters: the string operations that the other
//! modules share.

use vstd::prelude::*;
use vstd::utf8::{
    decode_utf8, encode_utf8, encode_utf8_decode_utf8, encode_utf8_valid_utf8, is_char_boundary,
    is_char_boundary_iff_not_is_continuation_byte, is_char_boundary_start_end_of_seq, is_scalar,
    length_of_first_scalar, pop_first_scalar, valid_utf8, valid_utf8_split,
};

use crate::numbers::ascii_lower;

verus! {

/// A text.
pub type Text = Seq<char>;

/// `String::push`: the character is added at the end.
pub assume_specification[ std::string::String::push ](s: &mut std::string::String, c: char)
    ensures
        final(s)@ == old(s)@.push(c),
;

/// True exactly for the characters of Unicode's `White_Space` property.
pub open spec fn is_space(c: char) -> bool {
    ||| '\u{9}' <= c <= '\u{d}'
    ||| c == ' '
    ||| c == '\u{85}'
    ||| c == '\u{a0}'
    ||| c == '\u{1680}'
    ||| '\u{2000}' <= c <= '\u{200a}'
    ||| c == '\u{2028}'
    ||| c == '\u{2029}'
    ||| c == '\u{202f}'
    ||| c == '\u{205f}'
    ||| c == '\u{3000}'
}

/// Whether the character is white space.
pub fn is_whitespace(c: char) -> (r: bool)
    ensures
        r == is_space(c),
{
    ('\u{9}' <= c && c <= '\u{d}') || c == ' ' || c == '\u{85}' || c == '\u{a0}' || c == '\u{1680}'
        || ('\u{2000}' <= c && c <= '\u{200a}') || c == '\u{2028}' || c == '\u{2029}' || c
        == '\u{202f}' || c == '\u{205f}' || c == '\u{3000}'
}

/// True exactly for `0` to `9`.
pub open spec fn is_digit(c: char) -> bool {
    '0' <= c <= '9'
}

/// True exactly for the unaccented Latin letters of either case.
pub open spec fn is_ascii_letter(c: char) -> bool {
    'a' <= c <= 'z' || 'A' <= c <= 'Z'
}

/// Whether Unicode counts the character as a letter (`Alphabetic`).
pub uninterp spec fn unicode_letter(c: char) -> bool;

/// Whether Unicode counts the character as a number (`Nd`, `Nl` or `No`).
pub uninterp spec fn unicode_number(c: char) -> bool;

/// Whether the character is a letter: one of the Latin letters on the ASCII
/// range, what Unicode says beyond it.
pub open spec fn is_letter(c: char) -> bool {
    if (c as u32) < 128 {
        is_ascii_letter(c)
    } else {
        unicode_letter(c)
    }
}

/// Whether the character is a number: one of the ten digits on the ASCII
/// range, what Unicode says beyond it.
pub open spec fn is_number(c: char) -> bool {
    if (c as u32) < 128 {
        is_digit(c)
    } else {
        unicode_number(c)
    }
}

/// Whether the character is a letter or a number.
pub open spec fn is_letter_or_number(c: char) -> bool {
    is_letter(c) || is_number(c)
}

/// Calls `char::is_alphabetic`. The result depends on the character alone; on
/// the ASCII range only the Latin letters have the property.
#[verifier::external_body]
pub(crate) fn is_alphabetic(c: char) -> (r: bool)
    ensures
        r == (if (c as u32) < 128 {
            is_ascii_letter(c)
        } else {
            unicode_letter(c)
        }),
{
    c.is_alphabetic()
}

/// Calls `char::is_numeric`. The result depends on the character alone; on the
/// ASCII range only the ten digits have the property.
#[verifier::external_body]
pub(crate) fn is_numeric(c: char) -> (r: bool)
    ensures
        r == (if (c as u32) < 128 {
            is_digit(c)
        } else {
            unicode_number(c)
        }),
{
    c.is_numeric()
}

/// Whether the character is a letter or a number.
pub fn is_alphanumeric(c: char) -> (r: bool)
    ensures
        r == is_letter_or_number(c),
{
    is_alphabetic(c) || is_numeric(c)
}

/// Whether every character of a text is in the ASCII range.
pub open spec fn is_ascii_text(s: Seq<char>) -> bool {
    forall|i: int| 0 <= i < s.len() ==> (#[trigger] s[i] as u32) < 128
}

/// What Unicode gives as the lower-case form of a text.
pub uninterp spec fn unicode_lowercase(s: Seq<char>) -> Seq<char>;

/// A text in lower case: letter by letter on the ASCII range, what Unicode
/// gives beyond it.
pub open spec fn lowercase(s: Seq<char>) -> Seq<char> {
    if is_ascii_text(s) {
        s.map_values(|c: char| ascii_lower(c))
    } else {
        unicode_lowercase(s)
    }
}

/// Calls `str::to_lowercase`. The result depends on the text alone; a text of
/// ASCII characters has its capital letters replaced one by one.
#[verifier::external_body]
pub(crate) fn to_lowercase(s: &str) -> (r: String)
    ensures
        r@ == (if is_ascii_text(s@) {
            s@.map_values(|c: char| ascii_lower(c))
        } else {
            unicode_lowercase(s@)
        }),
{
    s.to_lowercase()
}

/// A letter of the Latin alphabet in upper case; other characters as they are.
pub open spec fn ascii_upper(c: char) -> char {
    if 'a' <= c <= 'z' {
        (c as u32 - 32) as char
    } else {
        c
    }
}

/// A text with its Latin letters in upper case.
pub open spec fn ascii_uppercase(s: Seq<char>) -> Seq<char> {
    s.map_values(|c: char| ascii_upper(c))
}

/// A text with its Latin letters in upper case.
pub fn upper_case(s: &str) -> (r: String)
    ensures
        r@ == ascii_uppercase(s@),
{
    let mut out: String = String::new();
    for c in it: s.chars()
        invariant
            it.seq() == s@,
            out@ == ascii_uppercase(s@.take(it.index() as int)),
    {
        let u: char = if 'a' <= c && c <= 'z' {
            ((c as u8) - 32) as char
        } else {
            c
        };
        out.push(u);
        assert(out@ =~= ascii_uppercase(s@.take(it.index() as int + 1)));
    }
    assert(s@.take(s@.len() as int) =~= s@);
    out
}

/// The texts that a row of strings holds.
pub open spec fn texts(v: Seq<String>) -> Seq<Seq<char>> {
    v.map_values(|s: String| s@)
}

/// The number of bytes of a text's UTF-8 form.
pub open spec fn byte_len(s: Seq<char>) -> nat {
    encode_utf8(s).len()
}

/// The text of bytes that are not valid UTF-8, with replacement characters.
pub uninterp spec fn utf8_lossy(b: Seq<u8>) -> Seq<char>;

/// The text of bytes: their UTF-8 reading, with replacement characters where
/// they are not valid.
pub open spec fn lossy_text(b: Seq<u8>) -> Seq<char> {
    if valid_utf8(b) {
        decode_utf8(b)
    } else {
        utf8_lossy(b)
    }
}

/// Calls `String::from_utf8_lossy`. Valid UTF-8 is read as it is; what other
/// bytes give depends on the bytes alone.
#[verifier::external_body]
pub(crate) fn from_utf8_lossy(b: &[u8]) -> (r: String)
    ensures
        r@ == (if valid_utf8(b@) {
            decode_utf8(b@)
        } else {
            utf8_lossy(b@)
        }),
{
    String::from_utf8_lossy(b).into_owned()
}

/// The characters of `s`, in order.
pub fn chars_of(s: &str) -> (r: Vec<char>)
    ensures
        r@ == s@,
{
    let mut out: Vec<char> = Vec::new();
    for c in it: s.chars()
        invariant
            out@ == it.seq().take(it.index() as int),
            it.seq() == s@,
    {
        out.push(c);
    }
    out
}

/// The string that holds `chars[from..to]`.
pub fn string_of(chars: &[char], from: usize, to: usize) -> (r: String)
    requires
        from <= to <= chars@.len(),
    ensures
        r@ == chars@.subrange(from as int, to as int),
{
    let mut out: String = String::new();
    let mut i: usize = from;
    while i < to
        invariant
            from <= i <= to <= chars@.len(),
            out@ == chars@.subrange(from as int, i as int),
        decreases to - i,
    {
        out.push(chars[i]);
        i = i + 1;
    }
    out
}

/// Two texts with the same UTF-8 bytes are the same text.
pub proof fn lemma_bytes_decide(a: Seq<char>, b: Seq<char>)
    requires
        encode_utf8(a) == encode_utf8(b),
    ensures
        a == b,
{
    encode_utf8_decode_utf8(a);
    encode_utf8_decode_utf8(b);
}

/// Whether two byte slices are equal.
pub fn bytes_equal(a: &[u8], b: &[u8]) -> (r: bool)
    ensures
        r == (a@ == b@),
{
    if a.len() != b.len() {
        return false;
    }
    let mut i: usize = 0;
    while i < a.len()
        invariant
            i <= a@.len() == b@.len(),
            a@.take(i as int) == b@.take(i as int),
        decreases a.len() - i,
    {
        if a[i] != b[i] {
            return false;
        }
        assert(a@.take(i + 1) == a@.take(i as int).push(a@[i as int]));
        assert(b@.take(i + 1) == b@.take(i as int).push(b@[i as int]));
        i = i + 1;
    }
    assert(a@.take(i as int) == a@);
    assert(b@.take(i as int) == b@);
    true
}

/// Whether two texts are the same.
pub fn same_text(a: &str, b: &str) -> (r: bool)
    ensures
        r == (a@ == b@),
{
    let r: bool = bytes_equal(a.as_bytes(), b.as_bytes());
    proof {
        if r {
            lemma_bytes_decide(a@, b@);
        }
    }
    r
}

/// The digit character of a value below ten.
pub open spec fn digit_char(d: nat) -> char {
    (d + '0' as nat) as char
}

/// The decimal notation of a number, without leading zeros.
pub open spec fn decimal(n: nat) -> Seq<char>
    decreases n,
{
    if n < 10 {
        seq![digit_char(n)]
    } else {
        decimal(n / 10).push(digit_char(n % 10))
    }
}

/// Writes a number in decimal.
pub fn decimal_string(n: u64) -> (r: String)
    ensures
        r@ == decimal(n as nat),
    decreases n,
{
    let mut out: String = if n < 10 {
        String::new()
    } else {
        decimal_string(n / 10)
    };
    let d: u8 = (n % 10) as u8;
    let c: char = (d + 48) as char;
    out.push(c);
    assert(decimal(n as nat) == out@);
    out
}

/// A text followed by a number in decimal.
pub fn with_number(text: &str, n: usize) -> (r: String)
    ensures
        r@ == text@ + decimal(n as nat),
{
    let mut out: String = text.to_owned();
    let d: String = decimal_string(n as u64);
    out.append(d.as_str());
    out
}

/// How Rust writes an optional character for debugging.
pub uninterp spec fn debug_char(c: Option<char>) -> Seq<char>;

/// Formats with `{:?}`. The text depends on the value alone.
#[verifier::external_body]
pub(crate) fn debug_of_char(c: Option<char>) -> (r: String)
    ensures
        r@ == debug_char(c),
{
    format!("{:?}", c)
}

/// How Rust writes a character for debugging: quoted, with escapes.
pub uninterp spec fn debug_scalar(c: char) -> Seq<char>;

/// Formats with `{:?}`. The text depends on the value alone.
#[verifier::external_body]
pub(crate) fn debug_of_scalar(c: char) -> (r: String)
    ensures
        r@ == debug_scalar(c),
{
    format!("{:?}", c)
}

/// How Rust writes a text for debugging: quoted, with escapes.
pub uninterp spec fn debug_text(s: Seq<char>) -> Seq<char>;

/// Formats with `{:?}`. The text depends on the value alone.
#[verifier::external_body]
pub(crate) fn debug_of_text(s: &str) -> (r: String)
    ensures
        r@ == debug_text(s@),
{
    format!("{:?}", s)
}

/// `char::from_u32`: the scalar value with that number, if there is one.
pub assume_specification[ char::from_u32 ](i: u32) -> (r: Option<char>)
    ensures
        r == (if is_scalar(i) {
            Some(i as char)
        } else {
            None
        }),
;

/// A text with the character of a number added, if the number has one.
pub open spec fn push_scalar(acc: Seq<char>, n: nat) -> Seq<char> {
    if is_scalar(n as u32) {
        acc.push((n as u32) as char)
    } else {
        acc
    }
}

/// The value of a hexadecimal digit.
pub open spec fn hex_digit(c: char) -> Option<nat> {
    if '0' <= c <= '9' {
        Some((c as nat - '0' as nat) as nat)
    } else if 'a' <= c <= 'f' {
        Some((c as nat - 'a' as nat + 10) as nat)
    } else if 'A' <= c <= 'F' {
        Some((c as nat - 'A' as nat + 10) as nat)
    } else {
        None
    }
}

/// The value of a row of hexadecimal digits; `None` where another character
/// occurs.
pub open spec fn hex_digits(s: Seq<char>) -> Option<nat>
    decreases s.len(),
{
    if s.len() == 0 {
        Some(0)
    } else {
        match (hex_digits(s.drop_last()), hex_digit(s.last())) {
            (Some(n), Some(d)) => Some(n * 16 + d),
            _ => None,
        }
    }
}

/// The value of a hexadecimal number: at least one digit, after an optional
/// plus sign.
pub open spec fn hex_number(s: Seq<char>) -> Option<nat> {
    let digits = if s.len() > 0 && s[0] == '+' {
        s.skip(1)
    } else {
        s
    };
    if digits.len() == 0 {
        None
    } else {
        hex_digits(digits)
    }
}

/// The last character of a hexadecimal number is an ASCII one.
pub proof fn lemma_hex_last(s: Seq<char>)
    requires
        hex_number(s) is Some,
    ensures
        s.len() > 0,
        '\0' <= s.last() <= '\u{7f}',
{
    let digits = if s.len() > 0 && s[0] == '+' {
        s.skip(1)
    } else {
        s
    };
    assert(digits.last() == s.last());
    assert(hex_digit(digits.last()) is Some);
}

fn hex_digit_value(c: char) -> (r: Option<u32>)
    ensures
        match r {
            Some(d) => hex_digit(c) == Some(d as nat) && d < 16,
            None => hex_digit(c) is None,
        },
{
    if '0' <= c && c <= '9' {
        Some(c as u32 - 48)
    } else if 'a' <= c && c <= 'f' {
        Some(c as u32 - 97 + 10)
    } else if 'A' <= c && c <= 'F' {
        Some(c as u32 - 65 + 10)
    } else {
        None
    }
}

proof fn lemma_hex_none(s: Seq<char>, n: int)
    requires
        0 <= n <= s.len(),
        hex_digits(s.take(n)) is None,
    ensures
        hex_digits(s) is None,
    decreases s.len() - n,
{
    if n < s.len() {
        assert(s.take(n + 1).drop_last() == s.take(n));
        lemma_hex_none(s, n + 1);
    } else {
        assert(s.take(n) == s);
    }
}

/// The bound of a row of hexadecimal digits.
pub open spec fn pow16(n: nat) -> nat
    decreases n,
{
    if n == 0 {
        1
    } else {
        16 * pow16((n - 1) as nat)
    }
}

/// Reads a hexadecimal number of at most eight characters.
pub fn parse_hex(s: &[char]) -> (r: Option<u32>)
    requires
        s@.len() <= 8,
    ensures
        match r {
            Some(n) => hex_number(s@) == Some(n as nat),
            None => hex_number(s@) is None,
        },
{
    let start: usize = if s.len() > 0 && s[0] == '+' {
        1
    } else {
        0
    };
    let ghost digits = s@.skip(start as int);
    assert(start == 0 ==> digits == s@);
    if s.len() == start {
        return None;
    }
    let mut value: u32 = 0;
    let mut i: usize = start;
    proof {
        reveal_with_fuel(pow16, 9);
    }
    while i < s.len()
        invariant
            start <= i <= s@.len() <= 8,
            digits == s@.skip(start as int),
            hex_digits(digits.take(i - start)) == Some(value as nat),
            value < pow16((i - start) as nat),
            start == 0 || start == 1,
            start == 0 ==> !(s@.len() > 0 && s@[0] == '+'),
            start == 1 ==> s@.len() > 0 && s@[0] == '+',
            s@.len() > start,
        decreases s@.len() - i,
    {
        proof {
            reveal_with_fuel(pow16, 9);
            assert(digits.take(i - start + 1).drop_last() == digits.take(i - start));
            assert(digits.take(i - start + 1).last() == s@[i as int]);
            assert(pow16((i - start) as nat) <= 0x1000_0000);
        }
        match hex_digit_value(s[i]) {
            Some(d) => {
                value = value * 16 + d;
            },
            None => {
                proof {
                    lemma_hex_none(digits, i - start + 1);
                    assert(start == 0 ==> digits == s@);
                }
                return None;
            },
        }
        i = i + 1;
    }
    assert(digits.take(i - start) == digits);
    assert(start == 0 ==> digits == s@);
    Some(value)
}

/// The text whose characters are the given bytes, one for one.
pub open spec fn latin_text(b: Seq<u8>) -> Seq<char> {
    b.map_values(|x: u8| x as char)
}

/// The bytes `from` to `to` of a text as text.
pub open spec fn text_between(b: Seq<u8>, from: int, to: int) -> Seq<char> {
    decode_utf8(b.subrange(from, to))
}

/// The place after a one-byte character is a character boundary.
pub proof fn lemma_boundary_after_ascii(b: Seq<u8>, i: int)
    requires
        valid_utf8(b),
        0 <= i < b.len(),
        b[i] < 0x80,
    ensures
        is_char_boundary(b, i + 1),
        is_char_boundary(b, i),
    decreases b.len(),
{
    is_char_boundary_iff_not_is_continuation_byte(b, i);
    reveal_with_fuel(is_char_boundary, 2);
    let n = length_of_first_scalar(b);
    if i < n {
        assert(i == 0);
        assert(n == 1);
    } else {
        lemma_boundary_after_ascii(pop_first_scalar(b), i - n);
    }
}

/// The end of the UTF-8 form of a text is a character boundary.
pub proof fn lemma_boundary_at_end(b: Seq<u8>)
    requires
        valid_utf8(b),
    ensures
        is_char_boundary(b, b.len() as int),
{
    is_char_boundary_start_end_of_seq(b);
}

/// The bytes `from` to `to` of `s`, as a string.
pub fn slice_text(s: &str, from: usize, to: usize) -> (r: String)
    requires
        from <= to <= encode_utf8(s@).len(),
        is_char_boundary(encode_utf8(s@), from as int),
        is_char_boundary(encode_utf8(s@), to as int),
    ensures
        r@ == text_between(encode_utf8(s@), from as int, to as int),
{
    let ghost b = encode_utf8(s@);
    proof {
        encode_utf8_valid_utf8(s@);
        valid_utf8_split(b, to as int);
        let head = b.subrange(0, to as int);
        if from < to {
            is_char_boundary_iff_not_is_continuation_byte(b, from as int);
            is_char_boundary_iff_not_is_continuation_byte(head, from as int);
        } else {
            is_char_boundary_start_end_of_seq(head);
        }
    }
    let (head, _tail) = s.split_at(to);
    let (_front, piece) = head.split_at(from);
    proof {
        assert(encode_utf8(piece@) =~= b.subrange(from as int, to as int));
        encode_utf8_decode_utf8(piece@);
    }
    piece.to_owned()
}

/// The first character of the rest of `s` from byte `from` on.
pub fn char_at_byte(s: &str, from: usize) -> (r: Option<char>)
    requires
        from <= encode_utf8(s@).len(),
        is_char_boundary(encode_utf8(s@), from as int),
    ensures
        r == first_char(text_between(encode_utf8(s@), from as int, encode_utf8(s@).len() as int)),
{
    let (_head, rest) = s.split_at(from);
    proof {
        encode_utf8_decode_utf8(rest@);
    }
    rest.chars().next()
}

/// The first character of a text.
pub open spec fn first_char(s: Seq<char>) -> Option<char> {
    if s.len() > 0 {
        Some(s[0])
    } else {
        None
    }
}

/// A text without the white space at its start.
pub open spec fn trim_front(s: Seq<char>) -> Seq<char>
    decreases s.len(),
{
    if s.len() > 0 && is_space(s[0]) {
        trim_front(s.skip(1))
    } else {
        s
    }
}

/// A text without the white space at its end.
pub open spec fn trim_back(s: Seq<char>) -> Seq<char>
    decreases s.len(),
{
    if s.len() > 0 && is_space(s.last()) {
        trim_back(s.drop_last())
    } else {
        s
    }
}

/// A text without the white space at its two ends.
pub open spec fn trim(s: Seq<char>) -> Seq<char> {
    trim_back(trim_front(s))
}

/// Where the trimmed form of `chars[from..to]` stands.
pub fn trim_range(chars: &[char], from: usize, to: usize) -> (r: (usize, usize))
    requires
        from <= to <= chars@.len(),
    ensures
        from <= r.0 <= r.1 <= to,
        chars@.subrange(r.0 as int, r.1 as int) == trim(chars@.subrange(from as int, to as int)),
{
    let ghost whole = chars@.subrange(from as int, to as int);
    let mut a: usize = from;
    while a < to && is_whitespace(chars[a])
        invariant
            from <= a <= to <= chars@.len(),
            trim_front(chars@.subrange(a as int, to as int)) == trim_front(whole),
        decreases to - a,
    {
        proof {
            let here = chars@.subrange(a as int, to as int);
            assert(here.skip(1) == chars@.subrange(a + 1, to as int));
        }
        a = a + 1;
    }
    let ghost front = chars@.subrange(a as int, to as int);
    assert(front == trim_front(whole)) by {
        if a < to {
            assert(front[0] == chars@[a as int]);
        }
    }
    let mut z: usize = to;
    while a < z && is_whitespace(chars[z - 1])
        invariant
            a <= z <= to <= chars@.len(),
            trim_back(chars@.subrange(a as int, z as int)) == trim_back(front),
        decreases z - a,
    {
        proof {
            let here = chars@.subrange(a as int, z as int);
            assert(here.drop_last() == chars@.subrange(a as int, z - 1));
        }
        z = z - 1;
    }
    (a, z)
}

/// The place of the next line feed from `i` on, or the end.
pub open spec fn line_feed(s: Seq<char>, i: int) -> int
    decreases s.len() - i,
{
    if 0 <= i < s.len() && s[i] != '\n' {
        line_feed(s, i + 1)
    } else {
        i
    }
}

/// A line ends within the text.
pub proof fn lemma_line_feed(s: Seq<char>, i: int)
    requires
        0 <= i <= s.len(),
    ensures
        i <= line_feed(s, i) <= s.len(),
    decreases s.len() - i,
{
    if i < s.len() && s[i] != '\n' {
        lemma_line_feed(s, i + 1);
    }
}

/// Finds the next line feed from `i` on.
pub fn find_line_feed(s: &[char], i: usize) -> (r: usize)
    requires
        i <= s@.len(),
    ensures
        r == line_feed(s@, i as int),
        i <= r <= s@.len(),
{
    let mut e: usize = i;
    while e < s.len() && s[e] != '\n'
        invariant
            i <= e <= s@.len(),
            line_feed(s@, e as int) == line_feed(s@, i as int),
        decreases s@.len() - e,
    {
        e = e + 1;
    }
    e
}

} // verus!
