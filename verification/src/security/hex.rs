//! Bytes in hexadecimal notation.

use vstd::prelude::*;
use vstd::utf8::{encode_utf8, is_ascii_chars, is_ascii_chars_encode_utf8};

use crate::text::hex_digit;

verus! {

/// The digit of a value below sixteen, in lower case.
pub open spec fn hex_char(n: int) -> char {
    if n < 10 {
        (n + '0' as int) as char
    } else {
        (n - 10 + 'a' as int) as char
    }
}

/// The digit at a place of the notation of some bytes.
pub open spec fn hex_char_at(b: Seq<u8>, i: int) -> char {
    hex_char(
        if i % 2 == 0 {
            b[i / 2] as int / 16
        } else {
            b[i / 2] as int % 16
        },
    )
}

/// Bytes in hexadecimal, two lower-case digits each.
pub open spec fn hex_text(b: Seq<u8>) -> Seq<char> {
    Seq::new((2 * b.len()) as nat, |i: int| hex_char_at(b, i))
}

/// The value of two characters: two digits in either case, or a plus sign and
/// one digit.
pub open spec fn hex_pair(x: u8, y: u8) -> Option<u8> {
    match (hex_digit(x as char), hex_digit(y as char)) {
        (Some(hi), Some(lo)) => Some((hi * 16 + lo) as u8),
        (None, Some(lo)) => if x as char == '+' {
            Some(lo as u8)
        } else {
            None
        },
        _ => None,
    }
}

/// The values of the first `n` pairs; `None` where one of them has none.
pub open spec fn hex_pairs(s: Seq<u8>, n: int) -> Option<Seq<u8>>
    decreases n,
{
    if n <= 0 {
        Some(seq![])
    } else {
        match (hex_pairs(s, n - 1), hex_pair(s[2 * (n - 1)], s[2 * (n - 1) + 1])) {
            (Some(before), Some(x)) => Some(before.push(x)),
            _ => None,
        }
    }
}

/// The bytes that a text in hexadecimal stands for, given its UTF-8 form.
pub open spec fn hex_value(s: Seq<u8>) -> Option<Seq<u8>> {
    if s.len() % 2 != 0 {
        None
    } else {
        hex_pairs(s, s.len() as int / 2)
    }
}

/// Writes bytes in hexadecimal, two lower-case digits each.
pub fn bytes_to_hex(bytes: &[u8]) -> (r: String)
    ensures
        r@ == hex_text(bytes@),
{
    let mut out: String = String::new();
    let mut i: usize = 0;
    while i < bytes.len()
        invariant
            i <= bytes@.len(),
            out@ == hex_text(bytes@.take(i as int)),
        decreases bytes@.len() - i,
    {
        let b: u8 = bytes[i];
        let ghost before = out@;
        out.push(digit(b / 16));
        out.push(digit(b % 16));
        i = i + 1;
        proof {
            let now = bytes@.take(i as int);
            assert(out@ =~= hex_text(now)) by {
                assert forall|k: int| 0 <= k < 2 * now.len() implies out@[k] == hex_char_at(
                    now,
                    k,
                ) by {
                    if k < before.len() {
                        assert(before[k] == hex_char_at(bytes@.take(i - 1), k));
                        assert(now[k / 2] == bytes@.take(i - 1)[k / 2]);
                    } else {
                        assert(k / 2 == i - 1);
                    }
                }
            }
        }
    }
    assert(bytes@.take(i as int) =~= bytes@);
    out
}

fn digit(n: u8) -> (r: char)
    requires
        n < 16,
    ensures
        r == hex_char(n as int),
{
    if n < 10 {
        (n + 48) as char
    } else {
        (n - 10 + 97) as char
    }
}

fn digit_value(c: u8) -> (r: Option<u8>)
    ensures
        match r {
            Some(d) => hex_digit(c as char) == Some(d as nat) && d < 16,
            None => hex_digit(c as char) is None,
        },
{
    if 48 <= c && c <= 57 {
        Some(c - 48)
    } else if 97 <= c && c <= 102 {
        Some(c - 97 + 10)
    } else if 65 <= c && c <= 70 {
        Some(c - 65 + 10)
    } else {
        None
    }
}

proof fn lemma_pairs_none(s: Seq<u8>, m: int, n: int)
    requires
        0 <= m <= n,
        hex_pairs(s, m) is None,
    ensures
        hex_pairs(s, n) is None,
    decreases n,
{
    if m < n {
        lemma_pairs_none(s, m, n - 1);
    }
}

/// Reads bytes in hexadecimal. `None` where the text has an odd number of bytes
/// or holds a pair that is no number.
pub fn hex_to_bytes(hex: &str) -> (r: Option<Vec<u8>>)
    ensures
        match r {
            Some(b) => hex_value(encode_utf8(hex@)) == Some(b@),
            None => hex_value(encode_utf8(hex@)) is None,
        },
{
    let s: &[u8] = hex.as_bytes();
    let len: usize = s.len();
    if len % 2 != 0 {
        return None;
    }
    let mut out: Vec<u8> = Vec::new();
    let mut n: usize = 0;
    while n < len / 2
        invariant
            n <= len / 2,
            len == s@.len(),
            len % 2 == 0,
            s@ == encode_utf8(hex@),
            hex_pairs(s@, n as int) == Some(out@),
        decreases len / 2 - n,
    {
        let x: u8 = s[2 * n];
        let y: u8 = s[2 * n + 1];
        let value: Option<u8> = match (digit_value(x), digit_value(y)) {
            (Some(hi), Some(lo)) => Some(hi * 16 + lo),
            (None, Some(lo)) => if x == 43 {
                Some(lo)
            } else {
                None
            },
            _ => None,
        };
        assert(value == hex_pair(x, y));
        match value {
            Some(v) => {
                out.push(v);
            },
            None => {
                proof {
                    lemma_pairs_none(s@, n + 1, len as int / 2);
                }
                return None;
            },
        }
        n = n + 1;
    }
    Some(out)
}

/// A digit that was written has the value that it was written for.
pub proof fn lemma_pair_back(b: u8)
    ensures
        hex_digit(hex_char(b as int / 16)) == Some((b as nat / 16) as nat),
        hex_digit(hex_char(b as int % 16)) == Some((b as nat % 16) as nat),
{
}

/// The notation holds lower-case digits alone.
pub proof fn lemma_hex_text_digits(b: Seq<u8>)
    ensures
        forall|i: int|
            0 <= i < hex_text(b).len() ==> '0' <= #[trigger] hex_text(b)[i] <= '9' || 'a'
                <= hex_text(b)[i] <= 'f',
        is_ascii_chars(hex_text(b)),
{
    assert forall|i: int| 0 <= i < hex_text(b).len() implies '0' <= #[trigger] hex_text(b)[i] <= '9'
        || 'a' <= hex_text(b)[i] <= 'f' by {
        lemma_pair_back(b[i / 2]);
    }
}

proof fn lemma_pairs_back(b: Seq<u8>, s: Seq<u8>, n: int)
    requires
        0 <= n <= b.len(),
        s == encode_utf8(hex_text(b)),
    ensures
        s.len() == 2 * b.len(),
        hex_pairs(s, n) == Some(b.take(n)),
    decreases n,
{
    lemma_hex_text_digits(b);
    is_ascii_chars_encode_utf8(hex_text(b));
    if n > 0 {
        lemma_pairs_back(b, s, n - 1);
        let i = 2 * (n - 1);
        lemma_pair_back(b[n - 1]);
        assert(hex_text(b)[i] == hex_char_at(b, i));
        assert(hex_text(b)[i + 1] == hex_char_at(b, i + 1));
        assert(s[i] == hex_text(b)[i] as u8);
        assert(s[i + 1] == hex_text(b)[i + 1] as u8);
        assert(s[i] as char == hex_text(b)[i]);
        assert(s[i + 1] as char == hex_text(b)[i + 1]);
        assert(hex_pair(s[i], s[i + 1]) == Some(b[n - 1]));
        assert(b.take(n - 1).push(b[n - 1]) =~= b.take(n));
    } else {
        assert(b.take(0) =~= seq![]);
    }
}

/// Reading the notation of bytes gives the bytes back.
pub proof fn law_hex_round_trip(b: Seq<u8>)
    ensures
        hex_value(encode_utf8(hex_text(b))) == Some(b),
{
    let s = encode_utf8(hex_text(b));
    lemma_pairs_back(b, s, b.len() as int);
    assert(b.take(b.len() as int) =~= b);
}

} // verus!
