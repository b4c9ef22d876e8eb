//! Facts about the UTF-8 form of texts.

use vstd::prelude::*;
use vstd::utf8::{
    char_is_scalar, encode_scalar, encode_utf8, encode_utf8_decode_utf8, encode_utf8_first_scalar,
    is_ascii_chars, is_ascii_chars_encode_utf8, is_char_boundary,
    is_char_boundary_iff_not_is_continuation_byte, is_char_boundary_start_end_of_seq,
    is_continuation_byte, length_of_first_scalar, valid_utf8,
};

use crate::text::text_between;

verus! {

/// The UTF-8 form of a concatenation.
pub proof fn lemma_encode_concat(a: Seq<char>, b: Seq<char>)
    ensures
        encode_utf8(a + b) == encode_utf8(a) + encode_utf8(b),
    decreases a.len(),
{
    if a.len() == 0 {
        assert(a + b =~= b);
        assert(encode_utf8(a) + encode_utf8(b) =~= encode_utf8(b));
    } else {
        assert((a + b).drop_first() =~= a.drop_first() + b);
        lemma_encode_concat(a.drop_first(), b);
        assert(encode_utf8(a + b) =~= encode_utf8(a) + encode_utf8(b));
    }
}

/// The number of a character.
pub proof fn lemma_char_number(c: char)
    ensures
        (c as u32) as int == c as int,
        (c as u32) < 128 ==> '\0' <= c <= '\u{7f}' && (c as u8) as char == c,
{
}

/// The UTF-8 form of a text is that of its first character and that of the
/// rest. An ASCII character is one byte of its own number; the bytes of any
/// other character are all beyond the ASCII range.
pub proof fn lemma_first_bytes(s: Seq<char>)
    requires
        s.len() > 0,
    ensures
        ({
            let n = encode_scalar(s[0] as u32).len();
            let b = encode_utf8(s);
            &&& n >= 1
            &&& b.len() >= n
            &&& b == b.take(n as int) + encode_utf8(s.skip(1))
            &&& (s[0] as u32) < 128 ==> n == 1 && b[0] == s[0] as u8
            &&& (s[0] as u32) >= 128 ==> forall|k: int| 0 <= k < n ==> #[trigger] b[k] >= 128
        }),
{
    lemma_char_number(s[0]);
    let c = s[0] as u32;
    let n = encode_scalar(c).len();
    let b = encode_utf8(s);
    assert(s.skip(1) =~= s.drop_first());
    assert(b.take(n as int) =~= encode_scalar(c));
    assert(b =~= b.take(n as int) + encode_utf8(s.skip(1)));
    encode_utf8_first_scalar(s);
    char_is_scalar(s[0]);
    let one = seq![s[0]];
    if c < 128 {
        assert(is_ascii_chars(one));
        is_ascii_chars_encode_utf8(one);
        assert(encode_utf8(one) =~= encode_scalar(c)) by {
            assert(one.drop_first() =~= seq![]);
        }
        assert(one[0] as u8 == encode_utf8(one)[0]);
    } else {
        assert(n == length_of_first_scalar(b));
        let b0 = b[0];
        assert((b0 & 0x7Fu8) as u32 <= 127u32) by (bit_vector);
        assert(b0 > 0x7f);
        assert forall|k: int| 0 <= k < n implies #[trigger] b[k] >= 128 by {}
    }
}

/// A byte sequence stands at a place of another.
pub open spec fn stands_at(b: Seq<u8>, i: int, w: Seq<u8>) -> bool {
    0 <= i && i + w.len() <= b.len() && b.subrange(i, i + w.len()) == w
}

/// What stands at a place is what its parts are.
pub proof fn lemma_stands_at_split(b: Seq<u8>, i: int, u: Seq<u8>, v: Seq<u8>)
    requires
        stands_at(b, i, u + v),
    ensures
        stands_at(b, i, u),
        stands_at(b, i + u.len(), v),
{
    let w = u + v;
    assert(b.subrange(i, i + u.len()) =~= u) by {
        assert forall|k: int| 0 <= k < u.len() implies b[i + k] == u[k] by {
            assert(b.subrange(i, i + w.len())[k] == w[k]);
        }
    }
    assert(b.subrange(i + u.len(), i + u.len() + v.len()) =~= v) by {
        assert forall|k: int| 0 <= k < v.len() implies b[i + u.len() + k] == v[k] by {
            assert(b.subrange(i, i + w.len())[u.len() + k] == w[u.len() + k]);
        }
    }
}

/// A text whose bytes stand at a place is the text between the ends.
pub proof fn lemma_text_stands(b: Seq<u8>, i: int, s: Seq<char>)
    requires
        stands_at(b, i, encode_utf8(s)),
    ensures
        text_between(b, i, i + encode_utf8(s).len()) == s,
{
    encode_utf8_decode_utf8(s);
}

/// The bytes of an ASCII text are the numbers of its characters.
pub proof fn lemma_ascii_stands(b: Seq<u8>, i: int, s: Seq<char>)
    requires
        stands_at(b, i, encode_utf8(s)),
        is_ascii_chars(s),
    ensures
        encode_utf8(s).len() == s.len(),
        forall|k: int| 0 <= k < s.len() ==> (#[trigger] b[i + k]) as char == s[k],
        forall|k: int| 0 <= k < s.len() ==> b[i + k] as char == #[trigger] s[k],
{
    is_ascii_chars_encode_utf8(s);
    assert forall|k: int| 0 <= k < s.len() implies b[i + k] as char == #[trigger] s[k] by {
        assert(b.subrange(i, i + s.len())[k] == encode_utf8(s)[k]);
        assert('\0' <= s[k] <= '\u{7f}');
    }
    assert forall|k: int| 0 <= k < s.len() implies (#[trigger] b[i + k]) as char == s[k] by {
        assert(s[k] == s[k]);
    }
}

/// Cuts a text that stands at a place into two parts.
pub proof fn lemma_texts_stand(b: Seq<u8>, i: int, u: Seq<char>, v: Seq<char>)
    requires
        stands_at(b, i, encode_utf8(u + v)),
    ensures
        stands_at(b, i, encode_utf8(u)),
        stands_at(b, i + encode_utf8(u).len(), encode_utf8(v)),
        encode_utf8(u + v).len() == encode_utf8(u).len() + encode_utf8(v).len(),
{
    lemma_encode_concat(u, v);
    lemma_stands_at_split(b, i, encode_utf8(u), encode_utf8(v));
}

/// The first place from `i` on at which no character goes on.
pub open spec fn next_start(b: Seq<u8>, i: int) -> int
    decreases b.len() - i,
{
    if 0 <= i < b.len() && is_continuation_byte(b[i]) {
        next_start(b, i + 1)
    } else {
        i
    }
}

/// Such a place is not before `i`, and a character boundary of valid UTF-8.
pub proof fn lemma_next_start(b: Seq<u8>, i: int)
    requires
        0 <= i <= b.len(),
    ensures
        i <= next_start(b, i) <= b.len(),
        valid_utf8(b) ==> is_char_boundary(b, next_start(b, i)),
    decreases b.len() - i,
{
    if i < b.len() && is_continuation_byte(b[i]) {
        lemma_next_start(b, i + 1);
    } else if valid_utf8(b) {
        if i < b.len() {
            is_char_boundary_iff_not_is_continuation_byte(b, i);
        } else {
            is_char_boundary_start_end_of_seq(b);
        }
    }
}

/// The first place from `i` on at which no character goes on.
pub fn find_start(b: &[u8], i: usize) -> (r: usize)
    requires
        i <= b@.len(),
    ensures
        r == next_start(b@, i as int),
        i <= r <= b@.len(),
{
    let mut k: usize = i;
    while k < b.len() && 0x80 <= b[k] && b[k] <= 0xbf
        invariant
            i <= k <= b@.len(),
            next_start(b@, k as int) == next_start(b@, i as int),
        decreases b@.len() - k,
    {
        k = k + 1;
    }
    k
}

/// The first byte of a text begins a character.
pub proof fn lemma_text_starts(s: Seq<char>)
    requires
        s.len() > 0,
    ensures
        encode_utf8(s).len() > 0,
        !is_continuation_byte(encode_utf8(s)[0]),
{
    encode_utf8_first_scalar(s);
    lemma_first_bytes(s);
}

/// A character beyond the ASCII range that stands at a place is the text from
/// there to the next place at which no character goes on.
pub proof fn lemma_wide_stands(b: Seq<u8>, i: int, c: char)
    requires
        stands_at(b, i, encode_utf8(seq![c])),
        (c as u32) >= 128,
        i + encode_utf8(seq![c]).len() < b.len() ==> !is_continuation_byte(
            b[i + encode_utf8(seq![c]).len()],
        ),
    ensures
        encode_utf8(seq![c]).len() > 0,
        b[i] >= 128,
        next_start(b, i + 1) == i + encode_utf8(seq![c]).len(),
        text_between(b, i, next_start(b, i + 1)) == seq![c],
{
    let s = seq![c];
    let e = encode_utf8(s);
    let n = e.len() as int;
    encode_utf8_first_scalar(s);
    lemma_first_bytes(s);
    assert(s[0] == c);
    assert(s.skip(1) =~= seq![]);
    assert(e =~= e.take(encode_scalar(c as u32).len() as int));
    assert forall|k: int| 0 <= k < n implies b[i + k] == #[trigger] e[k] by {
        assert(b.subrange(i, i + n)[k] == e[k]);
    }
    assert forall|k: int| 1 <= k < n implies is_continuation_byte(#[trigger] e[k]) by {}
    assert(b[i + 0] == e[0]);
    lemma_next_over(b, i + 1, i + n, e, i);
    lemma_text_stands(b, i, s);
}

proof fn lemma_next_over(b: Seq<u8>, k: int, to: int, e: Seq<u8>, i: int)
    requires
        0 <= i < k <= to <= b.len(),
        to == i + e.len(),
        forall|j: int| 0 <= j < e.len() ==> b[i + j] == #[trigger] e[j],
        forall|j: int| 1 <= j < e.len() ==> is_continuation_byte(#[trigger] e[j]),
        to < b.len() ==> !is_continuation_byte(b[to]),
    ensures
        next_start(b, k) == to,
    decreases to - k,
{
    if k < to {
        assert(b[i + (k - i)] == e[k - i]);
        lemma_next_over(b, k + 1, to, e, i);
    }
}

} // verus!
