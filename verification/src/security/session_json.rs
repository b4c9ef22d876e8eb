//! Sessions as lines of JSON.
//!
//! A line is an object with the fields `token`, `user_id` and `expires_at`.

use vstd::prelude::*;
use vstd::utf8::is_scalar;

use crate::error::{corrupt_error, CenError, CenResult, ErrorView};
use crate::numbers::{digits_end, digits_value, law_decimal_round_trip, parse_u64, skip_digits};
use crate::scan::{
    char_at, holds_at, lemma_holds_char, lemma_holds_split, lemma_holds_whole, lemma_space_end, peek,
    skip_ws, space_end,
};
use crate::security::auth::{Session, SessionView};
use crate::security::hex::{hex_char, lemma_pair_back};
use crate::text::{
    chars_of, debug_char, debug_of_char, debug_of_scalar, debug_of_text, debug_scalar, debug_text,
    decimal, decimal_string, hex_digit, is_digit, is_space, same_text, string_of,
};
use crate::utf8::lemma_char_number;

verus! {

/// An error about a line.
pub open spec fn bad_line(message: Seq<char>) -> ErrorView {
    corrupt_error("parse_session_json: "@ + message)
}

fn bad(message: &str) -> (r: CenError)
    ensures
        r@ == bad_line(message@),
{
    let mut text: String = "parse_session_json: ".to_owned();
    text.append(message);
    CenError::corrupt(text.as_str())
}

fn bad_with(message: &str, what: String) -> (r: CenError)
    ensures
        r@ == bad_line(message@ + what@),
{
    let mut text: String = message.to_owned();
    text.append(what.as_str());
    bad(text.as_str())
}

/// How a character of a token is written.
pub open spec fn escaped_char(c: char) -> Seq<char> {
    if c == '"' || c == '\\' {
        seq!['\\', c]
    } else if c == '\n' {
        seq!['\\', 'n']
    } else if c == '\r' {
        seq!['\\', 'r']
    } else if c == '\t' {
        seq!['\\', 't']
    } else if c == '\u{8}' {
        seq!['\\', 'b']
    } else if c == '\u{c}' {
        seq!['\\', 'f']
    } else if (c as u32) < 32 {
        seq!['\\', 'u', '0', '0', hex_char(c as int / 16), hex_char(c as int % 16)]
    } else {
        seq![c]
    }
}

/// How a token is written between its quotes.
pub open spec fn escaped(s: Seq<char>) -> Seq<char>
    decreases s.len(),
{
    if s.len() == 0 {
        seq![]
    } else {
        escaped(s.drop_last()) + escaped_char(s.last())
    }
}

/// A session as a line.
pub open spec fn session_line(s: SessionView) -> Seq<char> {
    "{\"token\":\""@ + escaped(s.token) + "\",\"user_id\":"@ + decimal(s.user_id as nat)
        + ",\"expires_at\":"@ + decimal(s.expires_at as nat) + "}"@
}

fn escape_json_string(s: &str) -> (r: String)
    ensures
        r@ == escaped(s@),
{
    let chars: Vec<char> = chars_of(s);
    let mut out: String = String::new();
    let mut i: usize = 0;
    assert(s@.take(0) =~= seq![]);
    while i < chars.len()
        invariant
            i <= chars@.len(),
            chars@ == s@,
            out@ == escaped(s@.take(i as int)),
        decreases chars@.len() - i,
    {
        let c: char = chars[i];
        let ghost before = out@;
        if c == '"' || c == '\\' {
            out.push('\\');
            out.push(c);
        } else if c == '\n' {
            out.push('\\');
            out.push('n');
        } else if c == '\r' {
            out.push('\\');
            out.push('r');
        } else if c == '\t' {
            out.push('\\');
            out.push('t');
        } else if c == '\u{8}' {
            out.push('\\');
            out.push('b');
        } else if c == '\u{c}' {
            out.push('\\');
            out.push('f');
        } else if (c as u32) < 32 {
            let n: u8 = (c as u32) as u8;
            out.push('\\');
            out.push('u');
            out.push('0');
            out.push('0');
            out.push(if n < 16 {
                '0'
            } else {
                '1'
            });
            out.push(if n % 16 < 10 {
                (n % 16 + 48) as char
            } else {
                (n % 16 - 10 + 97) as char
            });
        } else {
            out.push(c);
        }
        proof {
            if (c as u32) < 32 {
                let n = c as int;
                lemma_char_number(c);
                assert(n / 16 == (if n < 16 {
                    0int
                } else {
                    1int
                }));
                assert(hex_char(0) == '0');
                assert(hex_char(1) == '1');
                assert(hex_char(n % 16) == (if n % 16 < 10 {
                    (n % 16 + 48) as u8 as char
                } else {
                    (n % 16 - 10 + 97) as u8 as char
                }));
            }
            assert(out@ =~= before + escaped_char(c));
            assert(s@.take(i + 1).drop_last() =~= s@.take(i as int));
            assert(s@.take(i + 1).last() == c);
        }
        i = i + 1;
    }
    assert(s@.take(i as int) =~= s@);
    out
}

/// Writes a session as a line, without a line feed.
pub fn serialize_session_json(s: &Session) -> (r: String)
    ensures
        r@ == session_line(s@),
{
    let token: String = escape_json_string(s.token.as_str());
    let user: String = decimal_string(s.user_id);
    let end: String = decimal_string(s.expires_at);
    let mut out: String = "{\"token\":\"".to_owned();
    out.append(token.as_str());
    out.append("\",\"user_id\":");
    out.append(user.as_str());
    out.append(",\"expires_at\":");
    out.append(end.as_str());
    out.append("}");
    out
}

/// The place after the character that must stand at `i`.
pub open spec fn after(t: Seq<char>, i: int, c: char) -> Result<int, ErrorView> {
    match char_at(t, i) {
        Some(x) => if x == c {
            Ok(i + 1)
        } else {
            Err(bad_line("expected "@ + debug_scalar(c) + ", got "@ + debug_scalar(x)))
        },
        None => Err(bad_line("expected "@ + debug_scalar(c) + ", got EOF"@)),
    }
}

/// What a character after a backslash stands for.
pub open spec fn simple_escape(c: char) -> Option<char> {
    if c == '"' || c == '\\' || c == '/' {
        Some(c)
    } else if c == 'n' {
        Some('\n')
    } else if c == 't' {
        Some('\t')
    } else if c == 'r' {
        Some('\r')
    } else if c == 'b' {
        Some('\u{8}')
    } else if c == 'f' {
        Some('\u{c}')
    } else {
        None
    }
}

/// The number that `n` hexadecimal digits from `i` on add to `code`.
pub open spec fn code_from(t: Seq<char>, i: int, n: nat, code: nat) -> Result<nat, ErrorView>
    decreases n,
{
    if n == 0 {
        Ok(code)
    } else {
        match char_at(t, i) {
            None => Err(bad_line("\\u escape truncated"@)),
            Some(c) => match hex_digit(c) {
                None => Err(bad_line("bad hex digit in \\u escape: "@ + debug_scalar(c))),
                Some(d) => code_from(t, i + 1, (n - 1) as nat, code * 16 + d),
            },
        }
    }
}

/// An upper-case hexadecimal digit.
pub open spec fn upper_hex(n: nat) -> char {
    if n < 10 {
        (n + '0' as nat) as char
    } else {
        (n - 10 + 'A' as nat) as char
    }
}

/// A number below 65536 in four upper-case hexadecimal digits.
pub open spec fn four_hex(n: nat) -> Seq<char> {
    seq![
        upper_hex(n / 4096 % 16),
        upper_hex(n / 256 % 16),
        upper_hex(n / 16 % 16),
        upper_hex(n % 16),
    ]
}

/// The digits that were read stand within the text.
pub proof fn lemma_code_from(t: Seq<char>, i: int, n: nat, code: nat)
    requires
        0 <= i,
    ensures
        code_from(t, i, n, code) is Ok ==> i + n <= t.len() || n == 0,
        n <= 4 && code_from(t, i, n, code) is Ok ==> code_from(t, i, n, code)->Ok_0 < (code + 1) * (
        if n == 0 {
            1
        } else if n == 1 {
            16
        } else if n == 2 {
            256
        } else if n == 3 {
            4096
        } else {
            65536nat
        }),
    decreases n,
{
    if n > 0 {
        match char_at(t, i) {
            Some(c) => match hex_digit(c) {
                Some(d) => {
                    lemma_code_from(t, i + 1, (n - 1) as nat, code * 16 + d);
                },
                None => {},
            },
            None => {},
        }
    }
}

/// The text that goes on at `i` up to the closing quote, after what was read
/// already, and the place after the quote.
pub open spec fn string_rest(t: Seq<char>, i: int, acc: Seq<char>) -> Result<
    (Seq<char>, int),
    ErrorView,
>
    decreases t.len() - i,
{
    if !(0 <= i < t.len()) {
        Err(bad_line("unterminated string"@))
    } else if t[i] == '"' {
        Ok((acc, i + 1))
    } else if t[i] == '\\' {
        match char_at(t, i + 1) {
            None => Err(bad_line("unterminated escape"@)),
            Some(c) => match simple_escape(c) {
                Some(x) => string_rest(t, i + 2, acc.push(x)),
                None => if c == 'u' {
                    proof {
                        lemma_code_from(t, i + 2, 4, 0);
                    }
                    match code_from(t, i + 2, 4, 0) {
                        Err(e) => Err(e),
                        Ok(code) => if is_scalar(code as u32) {
                            string_rest(t, i + 6, acc.push(code as char))
                        } else {
                            Err(bad_line("bad unicode codepoint U+"@ + four_hex(code)))
                        },
                    }
                } else {
                    Err(bad_line("bad escape \\"@ + debug_scalar(c)))
                },
            },
        }
    } else {
        string_rest(t, i + 1, acc.push(t[i]))
    }
}

/// The quoted text at `i` and the place after it.
pub open spec fn string_at(t: Seq<char>, i: int) -> Result<(Seq<char>, int), ErrorView> {
    match after(t, i, '"') {
        Err(e) => Err(e),
        Ok(j) => string_rest(t, j, seq![]),
    }
}

/// The number at `i` and the place after it.
pub open spec fn number_at(t: Seq<char>, i: int) -> Result<(u64, int), ErrorView> {
    let e = digits_end(t, i);
    if e == i {
        Err(bad_line("expected number, got "@ + debug_char(char_at(t, i))))
    } else {
        let digits = t.subrange(i, e);
        match digits_value(digits) {
            Some(n) => if n <= u64::MAX {
                Ok((n as u64, e))
            } else {
                Err(
                    bad_line(
                        "bad number "@ + digits + ": number too large to fit in target type"@,
                    ),
                )
            },
            None => Err(bad_line(""@)),
        }
    }
}

/// The fields that were read.
#[verifier::ext_equal]
pub struct Fields {
    pub token: Option<Seq<char>>,
    pub user_id: Option<u64>,
    pub expires_at: Option<u64>,
}

/// The value of a field, read at `i`, among those that were read, and the place
/// after it.
pub open spec fn field_at(t: Seq<char>, i: int, key: Seq<char>, acc: Fields) -> Result<
    (Fields, int),
    ErrorView,
> {
    if key == "token"@ {
        match string_at(t, i) {
            Ok(x) => Ok((Fields { token: Some(x.0), ..acc }, x.1)),
            Err(e) => Err(e),
        }
    } else if key == "user_id"@ {
        match number_at(t, i) {
            Ok(x) => Ok((Fields { user_id: Some(x.0), ..acc }, x.1)),
            Err(e) => Err(e),
        }
    } else if key == "expires_at"@ {
        match number_at(t, i) {
            Ok(x) => Ok((Fields { expires_at: Some(x.0), ..acc }, x.1)),
            Err(e) => Err(e),
        }
    } else {
        Err(bad_line("unknown field "@ + debug_text(key)))
    }
}

/// A key, a colon and a value, with white space between them, from `i` on.
#[verifier::opaque]
pub open spec fn entry_at(t: Seq<char>, i: int, acc: Fields) -> Result<(Fields, int), ErrorView> {
    match string_at(t, i) {
        Err(e) => Err(e),
        Ok(key) => match after(t, space_end(t, key.1), ':') {
            Err(e) => Err(e),
            Ok(j) => field_at(t, space_end(t, j), key.0, acc),
        },
    }
}

proof fn lemma_digits_end(t: Seq<char>, i: int)
    requires
        0 <= i <= t.len(),
    ensures
        i <= digits_end(t, i) <= t.len(),
        forall|k: int| i <= k < digits_end(t, i) ==> is_digit(#[trigger] t[k]),
    decreases t.len() - i,
{
    if i < t.len() && is_digit(t[i]) {
        lemma_digits_end(t, i + 1);
    }
}

proof fn lemma_string_rest(t: Seq<char>, i: int, acc: Seq<char>)
    requires
        0 <= i <= t.len(),
    ensures
        string_rest(t, i, acc) matches Ok(x) ==> i < x.1 <= t.len(),
    decreases t.len() - i,
{
    if i < t.len() && t[i] != '"' {
        if t[i] == '\\' {
            match char_at(t, i + 1) {
                Some(c) => match simple_escape(c) {
                    Some(x) => {
                        lemma_string_rest(t, i + 2, acc.push(x));
                    },
                    None => {
                        lemma_code_from(t, i + 2, 4, 0);
                        match code_from(t, i + 2, 4, 0) {
                            Ok(code) => {
                                lemma_string_rest(t, i + 6, acc.push(code as char));
                            },
                            Err(_) => {},
                        }
                    },
                },
                None => {},
            }
        } else {
            lemma_string_rest(t, i + 1, acc.push(t[i]));
        }
    }
}

proof fn lemma_string_at(t: Seq<char>, i: int)
    requires
        0 <= i <= t.len(),
    ensures
        string_at(t, i) matches Ok(x) ==> i < x.1 <= t.len(),
{
    if after(t, i, '"') is Ok {
        lemma_string_rest(t, i + 1, seq![]);
    }
}

/// An entry takes some characters and ends within the text.
pub proof fn lemma_entry_at(t: Seq<char>, i: int, acc: Fields)
    requires
        0 <= i <= t.len(),
    ensures
        entry_at(t, i, acc) matches Ok(x) ==> i < x.1 <= t.len(),
{
    reveal(entry_at);
    lemma_string_at(t, i);
    match string_at(t, i) {
        Ok(key) => {
            lemma_space_end(t, key.1);
            match after(t, space_end(t, key.1), ':') {
                Ok(j) => {
                    lemma_space_end(t, j);
                    let k = space_end(t, j);
                    lemma_string_at(t, k);
                    lemma_digits_end(t, k);
                },
                Err(_) => {},
            }
        },
        Err(_) => {},
    }
}

/// The entries from `i` on up to the closing brace, after those that were read
/// already, and the place of the brace.
pub open spec fn entries_from(t: Seq<char>, i: int, acc: Fields) -> Result<(Fields, int), ErrorView>
    decreases t.len() - i,
    when 0 <= i <= t.len()
{
    let a = space_end(t, i);
    if char_at(t, a) == Some('}') {
        Ok((acc, a))
    } else {
        proof {
            lemma_space_end(t, i);
            lemma_entry_at(t, a, acc);
            match entry_at(t, a, acc) {
                Ok(x) => {
                    lemma_space_end(t, x.1);
                    if space_end(t, x.1) < t.len() {
                        lemma_space_end(t, space_end(t, x.1) + 1);
                    }
                },
                Err(_) => {},
            }
        }
        match entry_at(t, a, acc) {
            Err(e) => Err(e),
            Ok(x) => {
                let z = space_end(t, x.1);
                if char_at(t, z) == Some(',') {
                    entries_from(t, space_end(t, z + 1), x.0)
                } else if char_at(t, z) == Some('}') {
                    Ok((x.0, z))
                } else {
                    Err(bad_line("expected ',' or '}', got "@ + debug_char(char_at(t, z))))
                }
            },
        }
    }
}

/// The session of the fields, where all three are there.
pub open spec fn session_of(f: Fields) -> Result<SessionView, ErrorView> {
    match f.token {
        None => Err(bad_line("missing field \"token\""@)),
        Some(token) => match f.user_id {
            None => Err(bad_line("missing field \"user_id\""@)),
            Some(user_id) => match f.expires_at {
                None => Err(bad_line("missing field \"expires_at\""@)),
                Some(expires_at) => Ok(SessionView { token, user_id, expires_at }),
            },
        },
    }
}

/// No fields.
pub open spec fn no_fields() -> Fields {
    Fields { token: None, user_id: None, expires_at: None }
}

/// The session that a line holds.
pub open spec fn line_session(line: Seq<char>) -> Result<SessionView, ErrorView> {
    match after(line, space_end(line, 0), '{') {
        Err(e) => Err(e),
        Ok(i) => match entries_from(line, space_end(line, i), no_fields()) {
            Err(e) => Err(e),
            Ok(x) => {
                let z = space_end(line, x.1 + 1);
                if z < line.len() {
                    Err(bad_line("trailing input after object: "@ + debug_text(line.skip(z))))
                } else {
                    session_of(x.0)
                }
            },
        },
    }
}

fn expect_char(t: &[char], i: usize, c: char) -> (r: CenResult<usize>)
    requires
        i <= t@.len(),
    ensures
        match r {
            Ok(j) => after(t@, i as int, c) == Ok::<int, ErrorView>(j as int) && j == i + 1 && j
                <= t@.len(),
            Err(e) => after(t@, i as int, c) == Err::<int, ErrorView>(e@),
        },
{
    match peek(t, i) {
        Some(x) => {
            if x == c {
                return Ok(i + 1);
            }
            let want: String = debug_of_scalar(c);
            let got: String = debug_of_scalar(x);
            let mut text: String = "expected ".to_owned();
            text.append(want.as_str());
            text.append(", got ");
            text.append(got.as_str());
            Err(bad(text.as_str()))
        },
        None => {
            let want: String = debug_of_scalar(c);
            let mut text: String = "expected ".to_owned();
            text.append(want.as_str());
            text.append(", got EOF");
            Err(bad(text.as_str()))
        },
    }
}

fn hex_value_of(c: char) -> (r: Option<u32>)
    ensures
        match r {
            Some(d) => hex_digit(c) == Some(d as nat) && d < 16,
            None => hex_digit(c) is None,
        },
{
    if '0' <= c && c <= '9' {
        Some(c as u32 - 48)
    } else if 'a' <= c && c <= 'f' {
        Some(c as u32 - 97 + 10)
    } else if 'A' <= c && c <= 'F' {
        Some(c as u32 - 65 + 10)
    } else {
        None
    }
}

fn read_code(t: &[char], i: usize) -> (r: CenResult<u32>)
    requires
        i <= t@.len(),
    ensures
        match r {
            Ok(code) => code_from(t@, i as int, 4, 0) == Ok::<nat, ErrorView>(code as nat) && code
                < 65536 && i + 4 <= t@.len(),
            Err(e) => code_from(t@, i as int, 4, 0) == Err::<nat, ErrorView>(e@),
        },
{
    let n: usize = t.len();
    let mut code: u32 = 0;
    let mut k: usize = 0;
    while k < 4
        invariant
            k <= 4,
            i + k <= n,
            n == t@.len(),
            code < (if k == 0 {
                1
            } else if k == 1 {
                16
            } else if k == 2 {
                256
            } else if k == 3 {
                4096
            } else {
                65536int
            }),
            code_from(t@, i as int, 4, 0) == code_from(t@, i + k, (4 - k) as nat, code as nat),
        decreases 4 - k,
    {
        match peek(t, i + k) {
            None => {
                return Err(bad("\\u escape truncated"));
            },
            Some(c) => match hex_value_of(c) {
                None => {
                    return Err(bad_with("bad hex digit in \\u escape: ", debug_of_scalar(c)));
                },
                Some(d) => {
                    code = code * 16 + d;
                },
            },
        }
        k = k + 1;
    }
    Ok(code)
}

fn upper_digit(n: u32) -> (r: char)
    requires
        n < 16,
    ensures
        r == upper_hex(n as nat),
{
    if n < 10 {
        (n as u8 + 48) as char
    } else {
        (n as u8 - 10 + 65) as char
    }
}

fn escape_of(c: char) -> (r: Option<char>)
    ensures
        r == simple_escape(c),
{
    if c == '"' || c == '\\' || c == '/' {
        Some(c)
    } else if c == 'n' {
        Some('\n')
    } else if c == 't' {
        Some('\t')
    } else if c == 'r' {
        Some('\r')
    } else if c == 'b' {
        Some('\u{8}')
    } else if c == 'f' {
        Some('\u{c}')
    } else {
        None
    }
}

fn parse_string(t: &[char], i: usize) -> (r: CenResult<(String, usize)>)
    requires
        i <= t@.len(),
    ensures
        match r {
            Ok(x) => string_at(t@, i as int) == Ok::<(Seq<char>, int), ErrorView>(
                (x.0@, x.1 as int),
            ) && x.1 <= t@.len(),
            Err(e) => string_at(t@, i as int) == Err::<(Seq<char>, int), ErrorView>(e@),
        },
{
    let n: usize = t.len();
    let start: usize = match expect_char(t, i, '"') {
        Ok(j) => j,
        Err(e) => {
            return Err(e);
        },
    };
    let mut out: String = String::new();
    let mut k: usize = start;
    while k < n
        invariant
            k <= n,
            n == t@.len(),
            string_at(t@, i as int) == string_rest(t@, k as int, out@),
        decreases n - k,
    {
        let c: char = t[k];
        if c == '"' {
            return Ok((out, k + 1));
        }
        if c == '\\' {
            match peek(t, k + 1) {
                None => {
                    return Err(bad("unterminated escape"));
                },
                Some(x) => match escape_of(x) {
                    Some(y) => {
                        out.push(y);
                        k = k + 2;
                    },
                    None => {
                        if x != 'u' {
                            return Err(bad_with("bad escape \\", debug_of_scalar(x)));
                        }
                        match read_code(t, k + 2) {
                            Err(e) => {
                                return Err(e);
                            },
                            Ok(code) => match char::from_u32(code) {
                                Some(y) => {
                                    out.push(y);
                                    k = k + 6;
                                },
                                None => {
                                    let mut text: String = "bad unicode codepoint U+".to_owned();
                                    let ghost before = text@;
                                    text.push(upper_digit(code / 4096 % 16));
                                    text.push(upper_digit(code / 256 % 16));
                                    text.push(upper_digit(code / 16 % 16));
                                    text.push(upper_digit(code % 16));
                                    assert(text@ =~= before + four_hex(code as nat));
                                    return Err(bad(text.as_str()));
                                },
                            },
                        }
                    },
                },
            }
        } else {
            out.push(c);
            k = k + 1;
        }
    }
    Err(bad("unterminated string"))
}

proof fn lemma_digits_have_value(s: Seq<char>)
    requires
        forall|k: int| 0 <= k < s.len() ==> is_digit(#[trigger] s[k]),
    ensures
        digits_value(s) is Some,
    decreases s.len(),
{
    if s.len() > 0 {
        assert forall|k: int| 0 <= k < s.drop_last().len() implies is_digit(
            #[trigger] s.drop_last()[k],
        ) by {
            assert(s.drop_last()[k] == s[k]);
        }
        lemma_digits_have_value(s.drop_last());
        assert(is_digit(s[s.len() - 1]));
    }
}

fn parse_number(t: &[char], i: usize) -> (r: CenResult<(u64, usize)>)
    requires
        i <= t@.len(),
    ensures
        match r {
            Ok(x) => number_at(t@, i as int) == Ok::<(u64, int), ErrorView>((x.0, x.1 as int))
                && x.1 <= t@.len(),
            Err(e) => number_at(t@, i as int) == Err::<(u64, int), ErrorView>(e@),
        },
{
    let e: usize = skip_digits(t, i);
    if e == i {
        return Err(bad_with("expected number, got ", debug_of_char(peek(t, i))));
    }
    let digits: String = string_of(t, i, e);
    proof {
        lemma_digits_end(t@, i as int);
        assert forall|k: int| 0 <= k < digits@.len() implies is_digit(#[trigger] digits@[k]) by {
            assert(digits@[k] == t@[i + k]);
        }
        lemma_digits_have_value(digits@);
        assert(is_digit(digits@[0]));
    }
    match parse_u64(digits.as_str()) {
        Some(v) => Ok((v, e)),
        None => {
            let mut text: String = "bad number ".to_owned();
            text.append(digits.as_str());
            text.append(": number too large to fit in target type");
            Err(bad(text.as_str()))
        },
    }
}

/// The fields that were read.
struct Draft {
    token: Option<String>,
    user_id: Option<u64>,
    expires_at: Option<u64>,
}

impl View for Draft {
    type V = Fields;

    closed spec fn view(&self) -> Fields {
        Fields {
            token: match self.token {
                Some(s) => Some(s@),
                None => None,
            },
            user_id: self.user_id,
            expires_at: self.expires_at,
        }
    }
}

fn parse_field(t: &[char], i: usize, key: &str, acc: Draft) -> (r: CenResult<(Draft, usize)>)
    requires
        i <= t@.len(),
    ensures
        match r {
            Ok(x) => field_at(t@, i as int, key@, acc@) == Ok::<(Fields, int), ErrorView>(
                (x.0@, x.1 as int),
            ) && x.1 <= t@.len(),
            Err(e) => field_at(t@, i as int, key@, acc@) == Err::<(Fields, int), ErrorView>(e@),
        },
{
    if same_text(key, "token") {
        match parse_string(t, i) {
            Ok(x) => Ok((Draft { token: Some(x.0), ..acc }, x.1)),
            Err(e) => Err(e),
        }
    } else if same_text(key, "user_id") {
        match parse_number(t, i) {
            Ok(x) => Ok((Draft { user_id: Some(x.0), ..acc }, x.1)),
            Err(e) => Err(e),
        }
    } else if same_text(key, "expires_at") {
        match parse_number(t, i) {
            Ok(x) => Ok((Draft { expires_at: Some(x.0), ..acc }, x.1)),
            Err(e) => Err(e),
        }
    } else {
        Err(bad_with("unknown field ", debug_of_text(key)))
    }
}

fn parse_entry(t: &[char], i: usize, acc: Draft) -> (r: CenResult<(Draft, usize)>)
    requires
        i <= t@.len(),
    ensures
        match r {
            Ok(x) => entry_at(t@, i as int, acc@) == Ok::<(Fields, int), ErrorView>(
                (x.0@, x.1 as int),
            ) && x.1 <= t@.len(),
            Err(e) => entry_at(t@, i as int, acc@) == Err::<(Fields, int), ErrorView>(e@),
        },
{
    proof {
        reveal(entry_at);
    }
    match parse_string(t, i) {
        Err(e) => Err(e),
        Ok(key) => {
            let a: usize = skip_ws(t, key.1);
            match expect_char(t, a, ':') {
                Err(e) => Err(e),
                Ok(j) => {
                    let k: usize = skip_ws(t, j);
                    parse_field(t, k, key.0.as_str(), acc)
                },
            }
        },
    }
}

fn parse_entries(t: &[char], i: usize) -> (r: CenResult<(Draft, usize)>)
    requires
        i <= t@.len(),
    ensures
        match r {
            Ok(x) => entries_from(t@, i as int, no_fields()) == Ok::<(Fields, int), ErrorView>(
                (x.0@, x.1 as int),
            ) && x.1 < t@.len() && t@[x.1 as int] == '}',
            Err(e) => entries_from(t@, i as int, no_fields()) == Err::<(Fields, int), ErrorView>(
                e@,
            ),
        },
{
    let mut acc: Draft = Draft { token: None, user_id: None, expires_at: None };
    let mut k: usize = i;
    loop
        invariant
            k <= t@.len(),
            entries_from(t@, i as int, no_fields()) == entries_from(t@, k as int, acc@),
        decreases t@.len() - k,
    {
        let a: usize = skip_ws(t, k);
        if peek(t, a) == Some('}') {
            return Ok((acc, a));
        }
        proof {
            lemma_entry_at(t@, a as int, acc@);
        }
        match parse_entry(t, a, acc) {
            Err(e) => {
                return Err(e);
            },
            Ok(x) => {
                let z: usize = skip_ws(t, x.1);
                if peek(t, z) == Some(',') {
                    acc = x.0;
                    k = skip_ws(t, z + 1);
                } else if peek(t, z) == Some('}') {
                    return Ok((x.0, z));
                } else {
                    return Err(bad_with("expected ',' or '}', got ", debug_of_char(peek(t, z))));
                }
            },
        }
    }
}

/// Reads a line. White space may stand between the parts, a comma after the
/// last field, and of a field that is there twice the last counts.
pub fn parse_session_json(input: &str) -> (r: CenResult<Session>)
    ensures
        match r {
            Ok(s) => line_session(input@) == Ok::<SessionView, ErrorView>(s@),
            Err(e) => line_session(input@) == Err::<SessionView, ErrorView>(e@),
        },
{
    let chars: Vec<char> = chars_of(input);
    let t: &[char] = chars.as_slice();
    let n: usize = t.len();
    let a: usize = skip_ws(t, 0);
    let i: usize = match expect_char(t, a, '{') {
        Ok(i) => i,
        Err(e) => {
            return Err(e);
        },
    };
    let start: usize = skip_ws(t, i);
    match parse_entries(t, start) {
        Err(e) => Err(e),
        Ok(x) => {
            let z: usize = skip_ws(t, x.1 + 1);
            if z < n {
                let rest: String = string_of(t, z, n);
                assert(rest@ =~= input@.skip(z as int));
                return Err(
                    bad_with("trailing input after object: ", debug_of_text(rest.as_str())),
                );
            }
            match x.0.token {
                None => Err(bad("missing field \"token\"")),
                Some(token) => match x.0.user_id {
                    None => Err(bad("missing field \"user_id\"")),
                    Some(user_id) => match x.0.expires_at {
                        None => Err(bad("missing field \"expires_at\"")),
                        Some(expires_at) => Ok(Session { token, user_id, expires_at }),
                    },
                },
            }
        },
    }
}

/// Reading the four digits of a control character.
proof fn lemma_code_read(t: Seq<char>, i: int, n: u8)
    requires
        0 <= i,
        i + 4 <= t.len(),
        t[i] == '0',
        t[i + 1] == '0',
        t[i + 2] == hex_char(n as int / 16),
        t[i + 3] == hex_char(n as int % 16),
    ensures
        code_from(t, i, 4, 0) == Ok::<nat, ErrorView>(n as nat),
{
    lemma_pair_back(n);
    assert(hex_digit('0') == Some(0nat));
    let hi = (n as nat / 16) as nat;
    assert(code_from(t, i + 4, 0, n as nat) == Ok::<nat, ErrorView>(n as nat));
    assert(code_from(t, i + 3, 1, hi) == Ok::<nat, ErrorView>(n as nat));
    assert(code_from(t, i + 2, 2, 0) == Ok::<nat, ErrorView>(n as nat));
    assert(code_from(t, i + 1, 3, 0) == Ok::<nat, ErrorView>(n as nat));
}

/// Reading an escaped character gives it back.
proof fn lemma_char_read(t: Seq<char>, i: int, c: char, acc: Seq<char>)
    requires
        holds_at(t, i, escaped_char(c)),
    ensures
        string_rest(t, i, acc) == string_rest(t, i + escaped_char(c).len(), acc.push(c)),
{
    let e = escaped_char(c);
    lemma_holds_char(t, i, e, 0);
    lemma_char_number(c);
    if e.len() > 1 {
        lemma_holds_char(t, i, e, 1);
    }
    if e.len() == 6 {
        lemma_holds_char(t, i, e, 2);
        lemma_holds_char(t, i, e, 3);
        lemma_holds_char(t, i, e, 4);
        lemma_holds_char(t, i, e, 5);
        let n = c as u8;
        assert(n as int == c as int);
        lemma_code_read(t, i + 2, n);
        assert(is_scalar(n as nat as u32));
        assert(n as nat as char == c);
    }
}

/// Reading an escaped text gives it back.
proof fn lemma_text_read(t: Seq<char>, i: int, s: Seq<char>, acc: Seq<char>)
    requires
        holds_at(t, i, escaped(s)),
    ensures
        string_rest(t, i, acc) == string_rest(t, i + escaped(s).len(), acc + s),
    decreases s.len(),
{
    if s.len() == 0 {
        assert(acc + s =~= acc);
    } else {
        let front = s.drop_last();
        lemma_holds_split(t, i, escaped(front), escaped_char(s.last()));
        lemma_text_read(t, i, front, acc);
        lemma_char_read(t, i + escaped(front).len(), s.last(), acc + front);
        assert((acc + front).push(s.last()) =~= acc + s);
    }
}

/// A character that is written as it is.
spec fn plain(c: char) -> bool {
    ' ' < c <= '~' && c != '"' && c != '\\'
}

proof fn lemma_plain(s: Seq<char>)
    requires
        forall|k: int| 0 <= k < s.len() ==> plain(#[trigger] s[k]),
    ensures
        escaped(s) == s,
    decreases s.len(),
{
    if s.len() > 0 {
        let front = s.drop_last();
        assert forall|k: int| 0 <= k < front.len() implies plain(#[trigger] front[k]) by {
            assert(front[k] == s[k]);
        }
        lemma_plain(front);
        assert(plain(s[s.len() - 1]));
        lemma_char_number(s.last());
        assert(escaped(s) =~= s);
    }
}

/// A key with its quotes and its colon.
spec fn key_text(key: Seq<char>) -> Seq<char> {
    seq!['"'] + key + seq!['"', ':']
}

proof fn lemma_key_read(t: Seq<char>, i: int, key: Seq<char>, acc: Fields)
    requires
        holds_at(t, i, key_text(key)),
        forall|k: int| 0 <= k < key.len() ==> plain(#[trigger] key[k]),
        i + key.len() + 3 < t.len(),
        !is_space(t[i + key.len() + 3]),
    ensures
        entry_at(t, i, acc) == field_at(t, i + key.len() + 3, key, acc),
{
    reveal(entry_at);
    let n = key.len() as int;
    lemma_holds_split(t, i, seq!['"'] + key, seq!['"', ':']);
    lemma_holds_split(t, i, seq!['"'], key);
    lemma_holds_char(t, i, seq!['"'], 0);
    lemma_plain(key);
    lemma_text_read(t, i + 1, key, seq![]);
    assert(Seq::<char>::empty() + key =~= key);
    lemma_holds_char(t, i + 1 + n, seq!['"', ':'], 0);
    lemma_holds_char(t, i + 1 + n, seq!['"', ':'], 1);
    assert(string_at(t, i) == Ok::<(Seq<char>, int), ErrorView>((key, i + n + 2)));
    assert(space_end(t, i + n + 2) == i + n + 2);
    assert(space_end(t, i + n + 3) == i + n + 3);
}

proof fn lemma_digits_stop(t: Seq<char>, i: int, e: int)
    requires
        0 <= i <= e < t.len(),
        forall|k: int| i <= k < e ==> is_digit(#[trigger] t[k]),
        !is_digit(t[e]),
    ensures
        digits_end(t, i) == e,
    decreases e - i,
{
    if i < e {
        lemma_digits_stop(t, i + 1, e);
    }
}

proof fn lemma_number_read(t: Seq<char>, i: int, n: u64)
    requires
        holds_at(t, i, decimal(n as nat)),
        i + decimal(n as nat).len() < t.len(),
        !is_digit(t[i + decimal(n as nat).len()]),
    ensures
        number_at(t, i) == Ok::<(u64, int), ErrorView>((n, i + decimal(n as nat).len())),
{
    reveal(holds_at);
    let d = decimal(n as nat);
    law_decimal_round_trip(n as nat);
    assert forall|k: int| i <= k < i + d.len() implies is_digit(#[trigger] t[k]) by {
        lemma_holds_char(t, i, d, k - i);
    }
    lemma_digits_stop(t, i, i + d.len());
}

/// Reading an entry and the comma after it.
proof fn lemma_entry_step(t: Seq<char>, i: int, acc: Fields, now: Fields, j: int)
    requires
        0 <= i < t.len(),
        t[i] == '"',
        entry_at(t, i, acc) == Ok::<(Fields, int), ErrorView>((now, j)),
        0 <= j,
        j + 1 < t.len(),
        t[j] == ',',
        t[j + 1] == '"',
    ensures
        entries_from(t, i, acc) == entries_from(t, j + 1, now),
{
    assert(space_end(t, i) == i);
    assert(space_end(t, j) == j);
    assert(space_end(t, j + 1) == j + 1);
}

/// Reading the last entry.
proof fn lemma_entry_last(t: Seq<char>, i: int, acc: Fields, now: Fields, j: int)
    requires
        0 <= i < t.len(),
        t[i] == '"',
        entry_at(t, i, acc) == Ok::<(Fields, int), ErrorView>((now, j)),
        0 <= j < t.len(),
        t[j] == '}',
    ensures
        entries_from(t, i, acc) == Ok::<(Fields, int), ErrorView>((now, j)),
{
    assert(space_end(t, i) == i);
    assert(space_end(t, j) == j);
}

/// Reading the token's entry and the comma after it.
proof fn lemma_token_entry(t: Seq<char>, i: int, token: Seq<char>, acc: Fields)
    requires
        holds_at(t, i, key_text("token"@)),
        holds_at(t, i + 8, seq!['"']),
        holds_at(t, i + 9, escaped(token)),
        holds_at(t, i + 9 + escaped(token).len(), seq!['"', ',', '"']),
    ensures
        entries_from(t, i, acc) == entries_from(
            t,
            i + 11 + escaped(token).len(),
            Fields { token: Some(token), ..acc },
        ),
{
    let j = i + 9 + escaped(token).len();
    reveal_strlit("token");
    assert("token"@.len() == 5);
    lemma_holds_char(t, i, key_text("token"@), 0);
    lemma_holds_char(t, i + 8, seq!['"'], 0);
    lemma_holds_char(t, j, seq!['"', ',', '"'], 0);
    lemma_holds_char(t, j, seq!['"', ',', '"'], 1);
    lemma_holds_char(t, j, seq!['"', ',', '"'], 2);
    lemma_key_read(t, i, "token"@, acc);
    lemma_text_read(t, i + 9, token, seq![]);
    assert(Seq::<char>::empty() + token =~= token);
    assert(string_at(t, i + 8) == Ok::<(Seq<char>, int), ErrorView>((token, j + 1)));
    lemma_entry_step(t, i, acc, Fields { token: Some(token), ..acc }, j + 1);
}

/// Reading the entry of a number, up to the character after it.
proof fn lemma_number_entry(t: Seq<char>, i: int, key: Seq<char>, n: u64, acc: Fields)
    requires
        key == "user_id"@ || key == "expires_at"@,
        holds_at(t, i, key_text(key)),
        holds_at(t, i + key.len() + 3, decimal(n as nat)),
        i + key.len() + 3 + decimal(n as nat).len() < t.len(),
        t[i + key.len() + 3 + decimal(n as nat).len()] == ',' || t[i + key.len() + 3 + decimal(
            n as nat,
        ).len()] == '}',
    ensures
        t[i] == '"',
        entry_at(t, i, acc) == Ok::<(Fields, int), ErrorView>(
            (
                if key == "user_id"@ {
                    Fields { user_id: Some(n), ..acc }
                } else {
                    Fields { expires_at: Some(n), ..acc }
                },
                i + key.len() + 3 + decimal(n as nat).len(),
            ),
        ),
{
    reveal_strlit("token");
    reveal_strlit("user_id");
    reveal_strlit("expires_at");
    assert("token"@.len() == 5);
    assert("user_id"@.len() == 7);
    assert("expires_at"@.len() == 10);
    let d = decimal(n as nat);
    law_decimal_round_trip(n as nat);
    lemma_holds_char(t, i, key_text(key), 0);
    lemma_holds_char(t, i + key.len() + 3, d, 0);
    assert(is_digit(d[0]));
    lemma_key_read(t, i, key, acc);
    lemma_number_read(t, i + key.len() + 3, n);
}

/// The parts of a line.
proof fn lemma_line_parts(s: SessionView)
    ensures
        session_line(s) == seq!['{'] + key_text("token"@) + seq!['"'] + escaped(s.token) + (seq![
            '"',
            ',',
        ] + key_text("user_id"@)) + decimal(s.user_id as nat) + (seq![','] + key_text(
            "expires_at"@,
        )) + decimal(s.expires_at as nat) + seq!['}'],
{
    reveal_strlit("{\"token\":\"");
    reveal_strlit("\",\"user_id\":");
    reveal_strlit(",\"expires_at\":");
    reveal_strlit("}");
    reveal_strlit("token");
    reveal_strlit("user_id");
    reveal_strlit("expires_at");
    let e = escaped(s.token);
    let d1 = decimal(s.user_id as nat);
    let d2 = decimal(s.expires_at as nat);
    let p1 = seq!['{'] + key_text("token"@) + seq!['"'];
    let p2 = seq!['"', ','] + key_text("user_id"@);
    let p3 = seq![','] + key_text("expires_at"@);
    assert("{\"token\":\""@ =~= p1);
    assert("\",\"user_id\":"@ =~= p2);
    assert(",\"expires_at\":"@ =~= p3);
    assert("}"@ =~= seq!['}']);
    assert(session_line(s) =~= p1 + e + p2 + d1 + p3 + d2 + seq!['}']);
}

/// Where the parts of a line stand.
proof fn lemma_line_places(s: SessionView, i2: int, i4: int)
    requires
        i2 == 10 + escaped(s.token).len(),
        i4 == i2 + 12 + decimal(s.user_id as nat).len(),
    ensures
        holds_at(session_line(s), 0, seq!['{']),
        holds_at(session_line(s), 1, key_text("token"@)),
        holds_at(session_line(s), 9, seq!['"']),
        holds_at(session_line(s), 10, escaped(s.token)),
        holds_at(session_line(s), i2, seq!['"', ',', '"']),
        holds_at(session_line(s), i2 + 2, key_text("user_id"@)),
        holds_at(session_line(s), i2 + 12, decimal(s.user_id as nat)),
        holds_at(session_line(s), i4, seq![',', '"']),
        holds_at(session_line(s), i4 + 1, key_text("expires_at"@)),
        holds_at(session_line(s), i4 + 14, decimal(s.expires_at as nat)),
        holds_at(session_line(s), i4 + 14 + decimal(s.expires_at as nat).len(), seq!['}']),
        session_line(s).len() == i4 + 15 + decimal(s.expires_at as nat).len(),
{
    lemma_line_parts(s);
    let t = session_line(s);
    let e = escaped(s.token);
    let d1 = decimal(s.user_id as nat);
    let d2 = decimal(s.expires_at as nat);
    let k1 = key_text("token"@);
    let k2 = key_text("user_id"@);
    let k3 = key_text("expires_at"@);
    let p1 = seq!['{'] + k1 + seq!['"'];
    let p2 = seq!['"', ','] + k2;
    let p3 = seq![','] + k3;
    reveal_strlit("token");
    reveal_strlit("user_id");
    reveal_strlit("expires_at");
    assert(k1.len() == 8);
    assert(k2.len() == 10);
    assert(k3.len() == 13);
    lemma_holds_whole(t);
    let q1 = p1 + e;
    let q2 = q1 + p2;
    let q3 = q2 + d1;
    let q4 = q3 + p3;
    let q5 = q4 + d2;
    lemma_holds_split(t, 0, q5, seq!['}']);
    lemma_holds_split(t, 0, q4, d2);
    lemma_holds_split(t, 0, q3, p3);
    lemma_holds_split(t, 0, q2, d1);
    lemma_holds_split(t, 0, q1, p2);
    lemma_holds_split(t, 0, p1, e);
    lemma_holds_split(t, 0, seq!['{'] + k1, seq!['"']);
    lemma_holds_split(t, 0, seq!['{'], k1);
    assert(p2 =~= seq!['"', ',', '"'] + k2.skip(1));
    lemma_holds_split(t, i2, seq!['"', ',', '"'], k2.skip(1));
    lemma_holds_split(t, i2, seq!['"', ','], k2);
    assert(p3 =~= seq![',', '"'] + k3.skip(1));
    lemma_holds_split(t, i4, seq![',', '"'], k3.skip(1));
    lemma_holds_split(t, i4, seq![','], k3);
}

/// Reading the entries of a line.
proof fn lemma_entries_read(s: SessionView)
    ensures
        session_line(s).len() > 1,
        session_line(s)[0] == '{',
        session_line(s)[1] == '"',
        session_line(s).last() == '}',
        entries_from(session_line(s), 1, no_fields()) == Ok::<(Fields, int), ErrorView>(
            (
                Fields {
                    token: Some(s.token),
                    user_id: Some(s.user_id),
                    expires_at: Some(s.expires_at),
                },
                session_line(s).len() - 1,
            ),
        ),
{
    let t = session_line(s);
    let d1 = decimal(s.user_id as nat);
    let d2 = decimal(s.expires_at as nat);
    let i2 = 10 + escaped(s.token).len() as int;
    let i4 = i2 + 12 + d1.len();
    let i6 = i4 + 14 + d2.len();
    lemma_line_places(s, i2, i4);
    lemma_holds_char(t, 0, seq!['{'], 0);
    lemma_holds_char(t, 1, key_text("token"@), 0);
    lemma_holds_char(t, i4, seq![',', '"'], 0);
    lemma_holds_char(t, i4, seq![',', '"'], 1);
    lemma_holds_char(t, i6, seq!['}'], 0);
    reveal_strlit("user_id");
    reveal_strlit("expires_at");
    assert("user_id"@.len() == 7);
    assert("expires_at"@.len() == 10);
    let none = no_fields();
    let f1 = Fields { token: Some(s.token), ..none };
    lemma_token_entry(t, 1, s.token, none);
    let f2 = Fields { user_id: Some(s.user_id), ..f1 };
    lemma_number_entry(t, i2 + 2, "user_id"@, s.user_id, f1);
    lemma_entry_step(t, i2 + 2, f1, f2, i4);
    let f3 = Fields { expires_at: Some(s.expires_at), ..f2 };
    lemma_number_entry(t, i4 + 1, "expires_at"@, s.expires_at, f2);
    lemma_entry_last(t, i4 + 1, f2, f3, i6);
}

/// Reading the line of a session gives the session back, whatever the token
/// holds.
pub proof fn law_line_round_trip(s: SessionView)
    ensures
        line_session(session_line(s)) == Ok::<SessionView, ErrorView>(s),
{
    let t = session_line(s);
    lemma_entries_read(s);
    assert(space_end(t, 0) == 0);
    assert(space_end(t, 1) == 1);
    assert(space_end(t, t.len() as int) == t.len());
}

/// A line begins and ends with its braces, whatever the token holds.
pub proof fn lemma_line_ends(s: SessionView)
    ensures
        session_line(s).len() > 1,
        session_line(s)[0] == '{',
        session_line(s).last() == '}',
{
    reveal_strlit("{\"token\":\"");
    reveal_strlit("}");
}

/// The line of a session holds no line feed, whatever the token holds.
pub proof fn law_line_is_one_line(s: SessionView)
    ensures
        !session_line(s).contains('\n'),
{
    reveal_strlit("{\"token\":\"");
    reveal_strlit("\",\"user_id\":");
    reveal_strlit(",\"expires_at\":");
    reveal_strlit("}");
    lemma_escaped_line(s.token);
    law_decimal_round_trip(s.user_id as nat);
    law_decimal_round_trip(s.expires_at as nat);
    let t = session_line(s);
    assert forall|k: int| 0 <= k < t.len() implies t[k] != '\n' by {
        let a = "{\"token\":\""@;
        let e = escaped(s.token);
        let b = "\",\"user_id\":"@;
        let d1 = decimal(s.user_id as nat);
        let c = ",\"expires_at\":"@;
        let d2 = decimal(s.expires_at as nat);
        if k < a.len() {
            assert(t[k] == a[k]);
        } else if k < a.len() + e.len() {
            assert(t[k] == e[k - a.len()]);
        } else if k < a.len() + e.len() + b.len() {
            assert(t[k] == b[k - a.len() - e.len()]);
        } else if k < a.len() + e.len() + b.len() + d1.len() {
            assert(t[k] == d1[k - a.len() - e.len() - b.len()]);
        } else if k < a.len() + e.len() + b.len() + d1.len() + c.len() {
            assert(t[k] == c[k - a.len() - e.len() - b.len() - d1.len()]);
        } else if k < a.len() + e.len() + b.len() + d1.len() + c.len() + d2.len() {
            assert(t[k] == d2[k - a.len() - e.len() - b.len() - d1.len() - c.len()]);
        } else {
            assert(t[k] == '}');
        }
    }
}

proof fn lemma_escaped_line(s: Seq<char>)
    ensures
        forall|k: int| 0 <= k < escaped(s).len() ==> #[trigger] escaped(s)[k] != '\n',
    decreases s.len(),
{
    if s.len() > 0 {
        lemma_escaped_line(s.drop_last());
        let m = escaped(s.drop_last()).len();
        let e = escaped_char(s.last());
        lemma_char_number(s.last());
        assert forall|k: int| 0 <= k < escaped(s).len() implies #[trigger] escaped(s)[k]
            != '\n' by {
            if k < m {
                assert(escaped(s)[k] == escaped(s.drop_last())[k]);
            } else {
                assert(escaped(s)[k] == e[k - m]);
                if e.len() == 6 {
                    assert(hex_char(s.last() as int / 16) != '\n');
                    assert(hex_char(s.last() as int % 16) != '\n');
                }
            }
        }
    }
}

} // verus!
