//! Numbers in text: decimal integers, and which texts denote a decimal
//! fraction.

use vstd::prelude::*;

use crate::text::{chars_of, decimal, is_digit};

verus! {

/// The value of a row of decimal digits; `None` where another character
/// occurs.
pub open spec fn digits_value(s: Seq<char>) -> Option<nat>
    decreases s.len(),
{
    if s.len() == 0 {
        Some(0)
    } else {
        match digits_value(s.drop_last()) {
            Some(n) => if is_digit(s.last()) {
                Some(n * 10 + (s.last() as nat - '0' as nat) as nat)
            } else {
                None
            },
            None => None,
        }
    }
}

/// The decimal notation of a number is a row of digits with that value.
pub proof fn law_decimal_round_trip(n: nat)
    ensures
        digits_value(decimal(n)) == Some(n),
        decimal(n).len() > 0,
        forall|i: int| 0 <= i < decimal(n).len() ==> is_digit(#[trigger] decimal(n)[i]),
    decreases n,
{
    let d = (n % 10) as nat;
    let s = decimal(n);
    assert(s.last() as nat == d + '0' as nat && is_digit(s.last()));
    if n < 10 {
        assert(s.drop_last() =~= seq![]);
        assert(digits_value(s.drop_last()) == Some(0nat));
    } else {
        law_decimal_round_trip(n / 10);
        assert(s.drop_last() =~= decimal(n / 10));
        assert(digits_value(s.drop_last()) == Some(n / 10));
        assert(n == (n / 10) * 10 + d);
    }
}

/// The value of an unsigned integer: digits after an optional plus sign.
pub open spec fn unsigned_value(s: Seq<char>) -> Option<nat> {
    let digits = if s.len() > 0 && s[0] == '+' {
        s.skip(1)
    } else {
        s
    };
    if digits.len() == 0 {
        None
    } else {
        digits_value(digits)
    }
}

/// The value of an integer: digits after an optional sign.
pub open spec fn signed_value(s: Seq<char>) -> Option<int> {
    if s.len() > 0 && s[0] == '-' {
        if s.len() == 1 {
            None
        } else {
            match digits_value(s.skip(1)) {
                Some(n) => Some(-(n as int)),
                None => None,
            }
        }
    } else {
        match unsigned_value(s) {
            Some(n) => Some(n as int),
            None => None,
        }
    }
}

proof fn lemma_prefix_decides(s: Seq<char>, n: int, bound: nat)
    requires
        0 <= n <= s.len(),
        digits_value(s.take(n)) is None || digits_value(s.take(n))->0 > bound,
    ensures
        digits_value(s) is None || digits_value(s)->0 > bound,
    decreases s.len() - n,
{
    if n < s.len() {
        assert(s.take(n + 1).drop_last() == s.take(n));
        lemma_prefix_decides(s, n + 1, bound);
    } else {
        assert(s.take(n) == s);
    }
}

/// Reads the digits from `from` on, if they are all digits and their value
/// fits 64 bits.
fn read_digits(s: &[char], from: usize) -> (r: Option<u64>)
    requires
        from <= s@.len(),
    ensures
        match r {
            Some(v) => digits_value(s@.skip(from as int)) == Some(v as nat),
            None => digits_value(s@.skip(from as int)) is None || digits_value(
                s@.skip(from as int),
            )->0 > u64::MAX,
        },
{
    let ghost digits = s@.skip(from as int);
    let mut value: u64 = 0;
    let mut i: usize = from;
    assert(digits.take(0) =~= seq![]);
    while i < s.len()
        invariant
            from <= i <= s@.len(),
            digits == s@.skip(from as int),
            digits_value(digits.take(i - from)) == Some(value as nat),
        decreases s@.len() - i,
    {
        let c: char = s[i];
        proof {
            assert(digits.take(i - from + 1).drop_last() =~= digits.take(i - from));
            assert(digits.take(i - from + 1).last() == c);
        }
        if !('0' <= c && c <= '9') {
            proof {
                lemma_prefix_decides(digits, i - from + 1, u64::MAX as nat);
            }
            return None;
        }
        let d: u64 = (c as u32 - 48) as u64;
        if value > (u64::MAX - d) / 10 {
            proof {
                assert(value * 10 + d > u64::MAX);
                lemma_prefix_decides(digits, i - from + 1, u64::MAX as nat);
            }
            return None;
        }
        value = value * 10 + d;
        i = i + 1;
    }
    assert(digits.take(i - from) =~= digits);
    Some(value)
}

/// Reads a signed 64-bit integer.
pub fn parse_i64(s: &str) -> (r: Option<i64>)
    ensures
        match r {
            Some(n) => signed_value(s@) == Some(n as int),
            None => match signed_value(s@) {
                Some(n) => n < i64::MIN || n > i64::MAX,
                None => true,
            },
        },
{
    let chars: Vec<char> = chars_of(s);
    if chars.len() == 0 {
        return None;
    }
    if chars[0] == '-' {
        if chars.len() == 1 {
            return None;
        }
        match read_digits(chars.as_slice(), 1) {
            Some(v) => {
                if v <= 0x7fff_ffff_ffff_ffff {
                    Some(-(v as i64))
                } else if v == 0x8000_0000_0000_0000 {
                    Some(i64::MIN)
                } else {
                    None
                }
            },
            None => None,
        }
    } else {
        let from: usize = if chars[0] == '+' {
            1
        } else {
            0
        };
        assert(from == 0 ==> chars@.skip(0) =~= chars@);
        if chars.len() == from {
            return None;
        }
        match read_digits(chars.as_slice(), from) {
            Some(v) => {
                if v <= 0x7fff_ffff_ffff_ffff {
                    Some(v as i64)
                } else {
                    None
                }
            },
            None => None,
        }
    }
}

/// Reads an unsigned 64-bit integer.
pub fn parse_u64(s: &str) -> (r: Option<u64>)
    ensures
        match r {
            Some(n) => unsigned_value(s@) == Some(n as nat),
            None => match unsigned_value(s@) {
                Some(n) => n > u64::MAX,
                None => true,
            },
        },
{
    let chars: Vec<char> = chars_of(s);
    let from: usize = if chars.len() > 0 && chars[0] == '+' {
        1
    } else {
        0
    };
    assert(from == 0 ==> chars@.skip(0) =~= chars@);
    if chars.len() == from {
        return None;
    }
    read_digits(chars.as_slice(), from)
}

/// Reads an unsigned integer of the machine's size.
pub fn parse_usize(s: &str) -> (r: Option<usize>)
    ensures
        match r {
            Some(n) => unsigned_value(s@) == Some(n as nat),
            None => match unsigned_value(s@) {
                Some(n) => n > usize::MAX,
                None => true,
            },
        },
{
    match parse_u64(s) {
        Some(v) => {
            if v <= usize::MAX as u64 {
                Some(v as usize)
            } else {
                None
            }
        },
        None => None,
    }
}

/// Where the digits that go on at `i` end.
pub open spec fn digits_end(s: Seq<char>, i: int) -> int
    decreases s.len() - i,
{
    if 0 <= i < s.len() && is_digit(s[i]) {
        digits_end(s, i + 1)
    } else {
        i
    }
}

/// Digits end within the text.
pub proof fn lemma_digits_end(s: Seq<char>, i: int)
    requires
        0 <= i <= s.len(),
    ensures
        i <= digits_end(s, i) <= s.len(),
    decreases s.len() - i,
{
    if i < s.len() && is_digit(s[i]) {
        lemma_digits_end(s, i + 1);
    }
}

/// Whether a sign stands at a place.
pub open spec fn sign_at(s: Seq<char>, i: int) -> bool {
    0 <= i < s.len() && (s[i] == '+' || s[i] == '-')
}

/// Behind a sign, where one stands.
pub open spec fn sign_end(s: Seq<char>, i: int) -> int {
    if sign_at(s, i) {
        i + 1
    } else {
        i
    }
}

/// Whether the text from `i` on is empty or an exponent: a mark, an optional
/// sign and at least one digit.
pub open spec fn exponent_or_end(s: Seq<char>, i: int) -> bool {
    i == s.len() || (0 <= i < s.len() && (s[i] == 'e' || s[i] == 'E') && {
        let d = if sign_at(s, i + 1) {
            i + 2
        } else {
            i + 1
        };
        digits_end(s, d) > d && digits_end(s, d) == s.len()
    })
}

/// Whether the text from `i` on is an unsigned decimal fraction: digits with
/// an optional point, at least one digit, and an optional exponent.
pub open spec fn fraction_from(s: Seq<char>, i: int) -> bool {
    let a = digits_end(s, i);
    if 0 <= a < s.len() && s[a] == '.' {
        let z = digits_end(s, a + 1);
        (a > i || z > a + 1) && exponent_or_end(s, z)
    } else {
        a > i && exponent_or_end(s, a)
    }
}

/// The lower-case form of a letter of the Latin alphabet.
pub open spec fn ascii_lower(c: char) -> char {
    if 'A' <= c <= 'Z' {
        (c as u32 + 32) as char
    } else {
        c
    }
}

/// Whether the text from `i` on is the word, letters in any case.
pub open spec fn word_from(s: Seq<char>, i: int, word: Seq<char>) -> bool {
    s.len() - i == word.len() && forall|k: int|
        0 <= k < word.len() ==> ascii_lower(s[i + k]) == #[trigger] word[k]
}

/// Whether a text denotes a floating-point number: an optional sign, then a
/// decimal fraction or one of the words for infinity and not-a-number.
pub open spec fn is_float_text(s: Seq<char>) -> bool {
    let i = if sign_at(s, 0) {
        1int
    } else {
        0int
    };
    fraction_from(s, i) || word_from(s, i, "inf"@) || word_from(s, i, "infinity"@) || word_from(
        s,
        i,
        "nan"@,
    )
}

/// Whether a text is a decimal in its plain form: an optional minus sign,
/// digits, and an optional point with digits behind it.
pub open spec fn is_plain_decimal(s: Seq<char>) -> bool {
    let i = if 0 < s.len() && s[0] == '-' {
        1int
    } else {
        0int
    };
    let a = digits_end(s, i);
    a > i && (a == s.len() || (0 <= a < s.len() && s[a] == '.' && digits_end(s, a + 1) > a + 1
        && digits_end(s, a + 1) == s.len()))
}

/// A decimal in its plain form denotes a number.
pub proof fn lemma_plain_decimal(s: Seq<char>)
    requires
        is_plain_decimal(s),
    ensures
        is_float_text(s),
{
}

/// Where the digits that go on at `i` end.
pub fn skip_digits(s: &[char], i: usize) -> (r: usize)
    requires
        i <= s@.len(),
    ensures
        r == digits_end(s@, i as int),
        i <= r <= s@.len(),
{
    let mut e: usize = i;
    while e < s.len() && '0' <= s[e] && s[e] <= '9'
        invariant
            i <= e <= s@.len(),
            digits_end(s@, e as int) == digits_end(s@, i as int),
        decreases s@.len() - e,
    {
        e = e + 1;
    }
    e
}

/// Behind a sign, where one stands.
pub fn skip_sign(s: &[char], i: usize) -> (r: usize)
    requires
        i <= s@.len(),
    ensures
        r == sign_end(s@, i as int),
        i <= r <= s@.len(),
{
    if i < s.len() && (s[i] == '+' || s[i] == '-') {
        i + 1
    } else {
        i
    }
}

fn exponent_check(s: &[char], i: usize) -> (r: bool)
    requires
        i <= s@.len(),
    ensures
        r == exponent_or_end(s@, i as int),
{
    if i == s.len() {
        return true;
    }
    if !(s[i] == 'e' || s[i] == 'E') {
        return false;
    }
    let mut d: usize = i + 1;
    if d < s.len() && (s[d] == '+' || s[d] == '-') {
        d = d + 1;
    }
    let e: usize = skip_digits(s, d);
    e > d && e == s.len()
}

fn fraction_check(s: &[char], i: usize) -> (r: bool)
    requires
        i <= s@.len(),
    ensures
        r == fraction_from(s@, i as int),
{
    let a: usize = skip_digits(s, i);
    if a < s.len() && s[a] == '.' {
        let z: usize = skip_digits(s, a + 1);
        (a > i || z > a + 1) && exponent_check(s, z)
    } else {
        a > i && exponent_check(s, a)
    }
}

fn word_check(s: &[char], i: usize, word: &str) -> (r: bool)
    requires
        i <= s@.len(),
    ensures
        r == word_from(s@, i as int, word@),
{
    let w: Vec<char> = chars_of(word);
    if s.len() - i != w.len() {
        return false;
    }
    let mut k: usize = 0;
    while k < w.len()
        invariant
            k <= w@.len(),
            w@ == word@,
            s@.len() - i == w@.len(),
            i <= s@.len(),
            forall|j: int| 0 <= j < k ==> ascii_lower(s@[i + j]) == #[trigger] word@[j],
        decreases w@.len() - k,
    {
        let _len: usize = s.len();
        let c: char = s[i + k];
        let l: char = if 'A' <= c && c <= 'Z' {
            ((c as u8) + 32) as char
        } else {
            c
        };
        assert(l == ascii_lower(s@[i + k]));
        if l != w[k] {
            assert(ascii_lower(s@[i + k]) != word@[k as int]);
            return false;
        }
        k = k + 1;
    }
    true
}

/// Whether a text denotes a floating-point number.
pub fn denotes_float(s: &str) -> (r: bool)
    ensures
        r == is_float_text(s@),
{
    let chars: Vec<char> = chars_of(s);
    let i: usize = if chars.len() > 0 && (chars[0] == '+' || chars[0] == '-') {
        1
    } else {
        0
    };
    fraction_check(chars.as_slice(), i) || word_check(chars.as_slice(), i, "inf") || word_check(
        chars.as_slice(),
        i,
        "infinity",
    ) || word_check(chars.as_slice(), i, "nan")
}

} // verus!
