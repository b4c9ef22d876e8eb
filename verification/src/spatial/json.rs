//! A small JSON reader. Numbers are kept as they are written.

use vstd::prelude::*;

use crate::error::{syntax_error, CenError, CenResult, ErrorView};
use crate::numbers::{
    denotes_float, digits_end, is_float_text, lemma_digits_end, sign_end, skip_digits, skip_sign,
};
use crate::scan::{char_at, error_at, holds_at, message_at, peek, skip_ws, space_end, Read};
use crate::text::{
    chars_of, debug_char, debug_of_char, hex_number, is_digit, parse_hex, push_scalar, same_text,
    string_of, Text,
};

verus! {

/// A JSON value.
#[derive(Debug)]
pub enum JsonValue {
    Null,
    Bool(bool),
    /// The text of a number.
    Number(String),
    Text(String),
    Array(Vec<JsonValue>),
    Object(Vec<(String, JsonValue)>),
}

/// The mathematical value of a [`JsonValue`].
pub enum JsonView {
    Null,
    Bool(bool),
    Number(Text),
    Text(Text),
    Array(Seq<JsonView>),
    Object(Seq<(Text, JsonView)>),
}

/// The value of a JSON value.
pub open spec fn json_view(v: JsonValue) -> JsonView
    decreases v,
{
    match v {
        JsonValue::Null => JsonView::Null,
        JsonValue::Bool(b) => JsonView::Bool(b),
        JsonValue::Number(s) => JsonView::Number(s@),
        JsonValue::Text(s) => JsonView::Text(s@),
        JsonValue::Array(a) => JsonView::Array(values_view(a@)),
        JsonValue::Object(m) => JsonView::Object(members_view(m@)),
    }
}

/// The values of the items of an array.
pub open spec fn values_view(s: Seq<JsonValue>) -> Seq<JsonView>
    decreases s,
{
    if s.len() == 0 {
        seq![]
    } else {
        values_view(s.drop_last()).push(json_view(s.last()))
    }
}

/// The values of the members of an object.
pub open spec fn members_view(s: Seq<(String, JsonValue)>) -> Seq<(Text, JsonView)>
    decreases s,
{
    if s.len() == 0 {
        seq![]
    } else {
        members_view(s.drop_last()).push((s.last().0@, json_view(s.last().1)))
    }
}

/// The items of an array, one by one.
pub proof fn lemma_values_view(s: Seq<JsonValue>)
    ensures
        values_view(s).len() == s.len(),
        forall|i: int| 0 <= i < s.len() ==> #[trigger] values_view(s)[i] == json_view(s[i]),
    decreases s.len(),
{
    if s.len() > 0 {
        lemma_values_view(s.drop_last());
    }
}

/// The members of an object, one by one.
pub proof fn lemma_members_view(s: Seq<(String, JsonValue)>)
    ensures
        members_view(s).len() == s.len(),
        forall|i: int|
            0 <= i < s.len() ==> #[trigger] members_view(s)[i] == (s[i].0@, json_view(s[i].1)),
    decreases s.len(),
{
    if s.len() > 0 {
        lemma_members_view(s.drop_last());
    }
}

impl View for JsonValue {
    type V = JsonView;

    open spec fn view(&self) -> JsonView {
        json_view(*self)
    }
}

/// The place of the first member with the key, from `k` on; where there is
/// none, the number of members.
pub open spec fn member_index(m: Seq<(Text, JsonView)>, key: Text, k: int) -> int
    decreases m.len() - k,
{
    if 0 <= k < m.len() && m[k].0 != key {
        member_index(m, key, k + 1)
    } else {
        k
    }
}

/// What an object holds under a key; nothing for a value that is no object.
pub open spec fn field(v: JsonView, key: Text) -> Option<JsonView> {
    match v {
        JsonView::Object(m) => {
            let k = member_index(m, key, 0);
            if 0 <= k < m.len() {
                Some(m[k].1)
            } else {
                None
            }
        },
        _ => None,
    }
}

impl JsonValue {
    /// What an object holds under a key.
    pub fn get(&self, key: &str) -> (r: Option<&JsonValue>)
        ensures
            match r {
                Some(v) => field(self@, key@) == Some(v@) && decreases_to!(*self => *v),
                None => field(self@, key@) is None,
            },
    {
        match self {
            JsonValue::Object(m) => {
                let ghost all = members_view(m@);
                proof {
                    lemma_members_view(m@);
                }
                let mut k: usize = 0;
                while k < m.len()
                    invariant
                        k <= m@.len(),
                        all == members_view(m@),
                        all.len() == m@.len(),
                        self@ == JsonView::Object(all),
                        *self == JsonValue::Object(*m),
                        forall|i: int|
                            0 <= i < m@.len() ==> #[trigger] all[i] == (
                                m@[i].0@,
                                json_view(m@[i].1),
                            ),
                        member_index(all, key@, k as int) == member_index(all, key@, 0),
                    decreases m@.len() - k,
                {
                    assert(all[k as int] == (m@[k as int].0@, json_view(m@[k as int].1)));
                    if same_text(m[k].0.as_str(), key) {
                        assert(decreases_to!(*self => m, m@, m@[k as int], m@[k as int].1));
                        return Some(&m[k].1);
                    }
                    k = k + 1;
                }
                None
            },
            _ => None,
        }
    }
}

/// How many bytes a character has in UTF-8.
pub open spec fn utf8_width(c: char) -> int {
    if c as u32 <= 0x7f {
        1
    } else if c as u32 <= 0x7ff {
        2
    } else if c as u32 <= 0xffff {
        3
    } else {
        4
    }
}

/// Where `need` bytes from a place on end, if a character ends there.
pub open spec fn span_end(t: Text, i: int, need: int) -> Option<int>
    decreases t.len() - i,
{
    if need == 0 {
        Some(i)
    } else if 0 <= i < t.len() && utf8_width(t[i]) <= need {
        span_end(t, i + 1, need - utf8_width(t[i]))
    } else {
        None
    }
}

/// What a character behind a backslash stands for.
pub open spec fn escaped(c: char) -> Option<char> {
    match c {
        '"' => Some('"'),
        '\\' => Some('\\'),
        '/' => Some('/'),
        'b' => Some('\u{8}'),
        'f' => Some('\u{c}'),
        'n' => Some('\n'),
        'r' => Some('\r'),
        't' => Some('\t'),
        _ => None,
    }
}

/// The characters of a string from a place on.
pub open spec fn chars_rest(t: Text, i: int, acc: Text) -> Read<Text>
    decreases t.len() - i,
{
    if !(0 <= i < t.len()) {
        Err(syntax_error("unterminated string"@))
    } else if t[i] == '"' {
        Ok((acc, i + 1))
    } else if t[i] != '\\' {
        chars_rest(t, i + 1, acc.push(t[i]))
    } else if i + 1 >= t.len() {
        Err(syntax_error("trailing backslash in string"@))
    } else if escaped(t[i + 1]) is Some {
        chars_rest(t, i + 2, acc.push(escaped(t[i + 1])->Some_0))
    } else if t[i + 1] != 'u' {
        Err(syntax_error("bad escape \\"@ + seq![t[i + 1]]))
    } else {
        match span_end(t, i + 2, 4) {
            None => Err(syntax_error("bad \\u escape"@)),
            Some(j) => {
                let hex = t.subrange(i + 2, j);
                match hex_number(hex) {
                    None => Err(
                        syntax_error(
                            "bad \\u escape '"@ + hex + "': invalid digit found in string"@,
                        ),
                    ),
                    Some(n) => if i < j <= t.len() {
                        chars_rest(t, j, push_scalar(acc, n))
                    } else {
                        Err(syntax_error(seq![]))
                    },
                }
            },
        }
    }
}

/// The string at a place.
pub open spec fn string_at(t: Text, i: int) -> Read<Text> {
    let k = space_end(t, i);
    if char_at(t, k) == Some('"') {
        chars_rest(t, k + 1, seq![])
    } else {
        Err(syntax_error(message_at("expected '\"' at offset "@, t, k)))
    }
}

/// Behind the fraction, where one stands.
pub open spec fn fraction_end(t: Text, i: int) -> int {
    if char_at(t, i) == Some('.') {
        digits_end(t, i + 1)
    } else {
        i
    }
}

/// Behind the exponent, where one stands.
pub open spec fn exponent_end(t: Text, i: int) -> int {
    if char_at(t, i) == Some('e') || char_at(t, i) == Some('E') {
        digits_end(t, sign_end(t, i + 1))
    } else {
        i
    }
}

/// Where the number at a place ends.
pub open spec fn number_end(t: Text, i: int) -> int {
    exponent_end(t, fraction_end(t, digits_end(t, sign_end(t, i))))
}

/// The number at a place.
pub open spec fn number_at(t: Text, i: int) -> Read<JsonView> {
    let e = number_end(t, i);
    let s = t.subrange(i, e);
    if is_float_text(s) {
        Ok((JsonView::Number(s), e))
    } else {
        Err(syntax_error("bad number '"@ + s + "': invalid float literal"@))
    }
}

/// The literal at a place, of the given ones.
pub open spec fn literal_at(t: Text, i: int) -> Read<JsonView> {
    if holds_at(t, i, "true"@) {
        Ok((JsonView::Bool(true), i + 4))
    } else if holds_at(t, i, "false"@) {
        Ok((JsonView::Bool(false), i + 5))
    } else if holds_at(t, i, "null"@) {
        Ok((JsonView::Null, i + 4))
    } else {
        Err(syntax_error(message_at("bad literal at offset "@, t, i)))
    }
}

/// A value at a place that holds no others: a string, a literal or a number.
pub open spec fn scalar_at(t: Text, i: int) -> Read<JsonView> {
    match char_at(t, i) {
        Some(c) => if c == '"' {
            match string_at(t, i) {
                Err(e) => Err(e),
                Ok((s, k)) => Ok((JsonView::Text(s), k)),
            }
        } else if c == 't' || c == 'f' || c == 'n' {
            literal_at(t, i)
        } else if c == '-' || c == '+' || is_digit(c) {
            number_at(t, i)
        } else {
            Err(unexpected(t, i))
        },
        None => Err(unexpected(t, i)),
    }
}

/// That no value starts at a place.
pub open spec fn unexpected(t: Text, i: int) -> ErrorView {
    syntax_error(
        message_at("unexpected character "@ + debug_char(char_at(t, i)) + " at offset "@, t, i),
    )
}

/// Whether another item or member follows, and where; `close` ends the list.
pub open spec fn next_at(t: Text, i: int, close: char) -> Read<bool> {
    let k = space_end(t, i);
    if char_at(t, k) == Some(',') {
        Ok((true, k + 1))
    } else if char_at(t, k) == Some(close) {
        Ok((false, k + 1))
    } else {
        Err(syntax_error(message_at("expected ',' or '"@ + seq![close] + "' at offset "@, t, k)))
    }
}

/// The key of a member and where its value stands.
pub open spec fn key_at(t: Text, i: int) -> Read<Text> {
    match string_at(t, i) {
        Err(e) => Err(e),
        Ok((key, k)) => {
            let j = space_end(t, k);
            if char_at(t, j) == Some(':') {
                Ok((key, j + 1))
            } else {
                Err(syntax_error(message_at("expected ':' at offset "@, t, j)))
            }
        },
    }
}

/// The value at a place.
pub open spec fn value_at(t: Text, i: int) -> Read<JsonView>
    decreases t.len() - i, 0int,
{
    let k = space_end(t, i);
    if char_at(t, k) == Some('{') {
        let j = space_end(t, k + 1);
        if char_at(t, j) == Some('}') {
            Ok((JsonView::Object(seq![]), j + 1))
        } else if i < j <= t.len() {
            members_rest(t, j, seq![])
        } else {
            Err(syntax_error(seq![]))
        }
    } else if char_at(t, k) == Some('[') {
        let j = space_end(t, k + 1);
        if char_at(t, j) == Some(']') {
            Ok((JsonView::Array(seq![]), j + 1))
        } else if i < j <= t.len() {
            items_rest(t, j, seq![])
        } else {
            Err(syntax_error(seq![]))
        }
    } else {
        scalar_at(t, k)
    }
}

/// An array from the next item on.
pub open spec fn items_rest(t: Text, i: int, acc: Seq<JsonView>) -> Read<JsonView>
    decreases t.len() - i, 1int,
{
    match value_at(t, i) {
        Err(e) => Err(e),
        Ok((v, k)) => match next_at(t, k, ']') {
            Err(e) => Err(e),
            Ok((more, z)) => if !more {
                Ok((JsonView::Array(acc.push(v)), z))
            } else if i < z <= t.len() {
                items_rest(t, z, acc.push(v))
            } else {
                Err(syntax_error(seq![]))
            },
        },
    }
}

/// An object from the next member on.
pub open spec fn members_rest(t: Text, i: int, acc: Seq<(Text, JsonView)>) -> Read<JsonView>
    decreases t.len() - i, 1int,
{
    match key_at(t, i) {
        Err(e) => Err(e),
        Ok((key, j)) => if i < j <= t.len() {
            match value_at(t, j) {
                Err(e) => Err(e),
                Ok((v, k)) => match next_at(t, k, '}') {
                    Err(e) => Err(e),
                    Ok((more, z)) => if !more {
                        Ok((JsonView::Object(acc.push((key, v))), z))
                    } else if i < z <= t.len() {
                        members_rest(t, z, acc.push((key, v)))
                    } else {
                        Err(syntax_error(seq![]))
                    },
                },
            }
        } else {
            Err(syntax_error(seq![]))
        },
    }
}

fn width_of(c: char) -> (r: usize)
    ensures
        r == utf8_width(c),
{
    let n: u32 = c as u32;
    if n <= 0x7f {
        1
    } else if n <= 0x7ff {
        2
    } else if n <= 0xffff {
        3
    } else {
        4
    }
}

fn find_span(t: &[char], i: usize) -> (r: Option<usize>)
    requires
        i <= t@.len(),
    ensures
        match r {
            Some(j) => span_end(t@, i as int, 4) == Some(j as int) && i < j <= t@.len() && j <= i
                + 4,
            None => span_end(t@, i as int, 4) is None,
        },
{
    let mut k: usize = i;
    let mut need: usize = 4;
    while need > 0
        invariant
            i <= k <= t@.len(),
            k - i + need <= 4,
            need == 4 || k > i,
            span_end(t@, i as int, 4) == span_end(t@, k as int, need as int),
        decreases need,
    {
        if k >= t.len() {
            return None;
        }
        let w: usize = width_of(t[k]);
        if w > need {
            return None;
        }
        need = need - w;
        k = k + 1;
    }
    Some(k)
}

fn unescaped(c: char) -> (r: Option<char>)
    ensures
        r == escaped(c),
{
    match c {
        '"' => Some('"'),
        '\\' => Some('\\'),
        '/' => Some('/'),
        'b' => Some('\u{8}'),
        'f' => Some('\u{c}'),
        'n' => Some('\n'),
        'r' => Some('\r'),
        't' => Some('\t'),
        _ => None,
    }
}

fn bad_hex(hex: &str) -> (r: CenError)
    ensures
        r@ == syntax_error("bad \\u escape '"@ + hex@ + "': invalid digit found in string"@),
{
    let mut m: String = String::new();
    m.append("bad \\u escape '");
    m.append(hex);
    m.append("': invalid digit found in string");
    assert(m@ =~= "bad \\u escape '"@ + hex@ + "': invalid digit found in string"@);
    CenError::syntax(m.as_str())
}

fn bad_escape(c: char) -> (r: CenError)
    ensures
        r@ == syntax_error("bad escape \\"@ + seq![c]),
{
    let mut m: String = String::new();
    m.append("bad escape \\");
    m.push(c);
    assert(m@ =~= "bad escape \\"@ + seq![c]);
    CenError::syntax(m.as_str())
}

fn parse_string(t: &[char], i: usize) -> (r: CenResult<(String, usize)>)
    requires
        i <= t@.len(),
    ensures
        match r {
            Ok(x) => string_at(t@, i as int) == Ok::<(Text, int), ErrorView>((x.0@, x.1 as int))
                && i < x.1 <= t@.len(),
            Err(e) => string_at(t@, i as int) == Err::<(Text, int), ErrorView>(e@),
        },
{
    let start: usize = skip_ws(t, i);
    if peek(t, start) != Some('"') {
        return Err(error_at("expected '\"' at offset ", t, start));
    }
    let mut s: String = String::new();
    let mut k: usize = start + 1;
    assert(s@ =~= seq![]);
    while k < t.len()
        invariant
            i < k <= t@.len(),
            string_at(t@, i as int) == chars_rest(t@, k as int, s@),
        decreases t@.len() - k,
    {
        let c: char = t[k];
        if c == '"' {
            return Ok((s, k + 1));
        }
        if c != '\\' {
            s.push(c);
            k = k + 1;
            continue ;
        }
        if k + 1 >= t.len() {
            return Err(CenError::syntax("trailing backslash in string"));
        }
        let esc: char = t[k + 1];
        match unescaped(esc) {
            Some(x) => {
                s.push(x);
                k = k + 2;
            },
            None => {
                if esc != 'u' {
                    return Err(bad_escape(esc));
                }
                let j: usize = match find_span(t, k + 2) {
                    Some(j) => j,
                    None => {
                        return Err(CenError::syntax("bad \\u escape"));
                    },
                };
                let hex: String = string_of(t, k + 2, j);
                let digits: Vec<char> = chars_of(hex.as_str());
                match parse_hex(digits.as_slice()) {
                    None => {
                        return Err(bad_hex(hex.as_str()));
                    },
                    Some(n) => {
                        if let Some(ch) = char::from_u32(n) {
                            s.push(ch);
                        }
                    },
                }
                k = j;
            },
        }
    }
    Err(CenError::syntax("unterminated string"))
}

fn parse_number(t: &[char], i: usize) -> (r: CenResult<(JsonValue, usize)>)
    requires
        i < t@.len(),
        t@[i as int] == '-' || t@[i as int] == '+' || is_digit(t@[i as int]),
    ensures
        match r {
            Ok(x) => number_at(t@, i as int) == Ok::<(JsonView, int), ErrorView>(
                (x.0@, x.1 as int),
            ) && i < x.1 <= t@.len(),
            Err(e) => number_at(t@, i as int) == Err::<(JsonView, int), ErrorView>(e@),
        },
{
    let first: usize = skip_sign(t, i);
    let mut k: usize = skip_digits(t, first);
    assert(i < k) by {
        if first == i {
            assert(is_digit(t@[i as int]));
            assert(digits_end(t@, i as int) == digits_end(t@, i + 1));
            lemma_digits_end(t@, i + 1);
        }
    }
    if peek(t, k) == Some('.') {
        k = skip_digits(t, k + 1);
    }
    assert(k == fraction_end(t@, digits_end(t@, sign_end(t@, i as int))));
    let c: Option<char> = peek(t, k);
    if c == Some('e') || c == Some('E') {
        k = skip_digits(t, skip_sign(t, k + 1));
    }
    let s: String = string_of(t, i, k);
    if !denotes_float(s.as_str()) {
        let mut m: String = String::new();
        m.append("bad number '");
        m.append(s.as_str());
        m.append("': invalid float literal");
        assert(m@ =~= "bad number '"@ + s@ + "': invalid float literal"@);
        return Err(CenError::syntax(m.as_str()));
    }
    Ok((JsonValue::Number(s), k))
}

fn word_at(t: &[char], i: usize, word: &str) -> (r: bool)
    requires
        i <= t@.len(),
    ensures
        r == holds_at(t@, i as int, word@),
{
    proof {
        reveal(holds_at);
    }
    let w: Vec<char> = chars_of(word);
    if t.len() - i < w.len() {
        return false;
    }
    let piece: String = string_of(t, i, i + w.len());
    same_text(piece.as_str(), word)
}

fn parse_literal(t: &[char], i: usize) -> (r: CenResult<(JsonValue, usize)>)
    requires
        i <= t@.len(),
    ensures
        match r {
            Ok(x) => literal_at(t@, i as int) == Ok::<(JsonView, int), ErrorView>(
                (x.0@, x.1 as int),
            ) && i < x.1 <= t@.len(),
            Err(e) => literal_at(t@, i as int) == Err::<(JsonView, int), ErrorView>(e@),
        },
{
    proof {
        reveal(holds_at);
        reveal_strlit("true");
        reveal_strlit("false");
        reveal_strlit("null");
    }
    let _len: usize = t.len();
    if word_at(t, i, "true") {
        Ok((JsonValue::Bool(true), i + 4))
    } else if word_at(t, i, "false") {
        Ok((JsonValue::Bool(false), i + 5))
    } else if word_at(t, i, "null") {
        Ok((JsonValue::Null, i + 4))
    } else {
        Err(error_at("bad literal at offset ", t, i))
    }
}

fn unexpected_char(t: &[char], i: usize) -> (r: CenError)
    requires
        i <= t@.len(),
    ensures
        r@ == unexpected(t@, i as int),
{
    let mut head: String = String::new();
    head.append("unexpected character ");
    head.append(debug_of_char(peek(t, i)).as_str());
    head.append(" at offset ");
    assert(head@ =~= "unexpected character "@ + debug_char(char_at(t@, i as int))
        + " at offset "@);
    error_at(head.as_str(), t, i)
}

fn parse_scalar(t: &[char], i: usize) -> (r: CenResult<(JsonValue, usize)>)
    requires
        i <= t@.len(),
    ensures
        match r {
            Ok(x) => scalar_at(t@, i as int) == Ok::<(JsonView, int), ErrorView>(
                (x.0@, x.1 as int),
            ) && i < x.1 <= t@.len(),
            Err(e) => scalar_at(t@, i as int) == Err::<(JsonView, int), ErrorView>(e@),
        },
{
    match peek(t, i) {
        Some(c) => {
            if c == '"' {
                match parse_string(t, i) {
                    Ok((s, k)) => Ok((JsonValue::Text(s), k)),
                    Err(e) => Err(e),
                }
            } else if c == 't' || c == 'f' || c == 'n' {
                parse_literal(t, i)
            } else if c == '-' || c == '+' || ('0' <= c && c <= '9') {
                parse_number(t, i)
            } else {
                Err(unexpected_char(t, i))
            }
        },
        None => Err(unexpected_char(t, i)),
    }
}

fn next_part(t: &[char], i: usize, close: char) -> (r: CenResult<(bool, usize)>)
    requires
        i <= t@.len(),
    ensures
        match r {
            Ok(x) => next_at(t@, i as int, close) == Ok::<(bool, int), ErrorView>(
                (x.0, x.1 as int),
            ) && i < x.1 <= t@.len(),
            Err(e) => next_at(t@, i as int, close) == Err::<(bool, int), ErrorView>(e@),
        },
{
    let k: usize = skip_ws(t, i);
    let c: Option<char> = peek(t, k);
    if c == Some(',') {
        Ok((true, k + 1))
    } else if c == Some(close) {
        Ok((false, k + 1))
    } else {
        let mut head: String = String::new();
        head.append("expected ',' or '");
        head.push(close);
        head.append("' at offset ");
        assert(head@ =~= "expected ',' or '"@ + seq![close] + "' at offset "@);
        Err(error_at(head.as_str(), t, k))
    }
}

fn parse_key(t: &[char], i: usize) -> (r: CenResult<(String, usize)>)
    requires
        i <= t@.len(),
    ensures
        match r {
            Ok(x) => key_at(t@, i as int) == Ok::<(Text, int), ErrorView>((x.0@, x.1 as int)) && i
                < x.1 <= t@.len(),
            Err(e) => key_at(t@, i as int) == Err::<(Text, int), ErrorView>(e@),
        },
{
    let (key, k) = match parse_string(t, i) {
        Ok(x) => x,
        Err(e) => {
            return Err(e);
        },
    };
    let j: usize = skip_ws(t, k);
    if peek(t, j) != Some(':') {
        return Err(error_at("expected ':' at offset ", t, j));
    }
    Ok((key, j + 1))
}

/// Reads the value at a place.
pub fn parse_value(t: &[char], i: usize) -> (r: CenResult<(JsonValue, usize)>)
    requires
        i <= t@.len(),
    ensures
        match r {
            Ok(x) => value_at(t@, i as int) == Ok::<(JsonView, int), ErrorView>(
                (x.0@, x.1 as int),
            ) && i < x.1 <= t@.len(),
            Err(e) => value_at(t@, i as int) == Err::<(JsonView, int), ErrorView>(e@),
        },
    decreases t@.len() - i, 0int,
{
    let k: usize = skip_ws(t, i);
    let c: Option<char> = peek(t, k);
    if c == Some('{') {
        let j: usize = skip_ws(t, k + 1);
        if peek(t, j) == Some('}') {
            let none: Vec<(String, JsonValue)> = Vec::new();
            assert(members_view(none@) =~= seq![]);
            return Ok((JsonValue::Object(none), j + 1));
        }
        parse_object(t, j)
    } else if c == Some('[') {
        let j: usize = skip_ws(t, k + 1);
        if peek(t, j) == Some(']') {
            let none: Vec<JsonValue> = Vec::new();
            assert(values_view(none@) =~= seq![]);
            return Ok((JsonValue::Array(none), j + 1));
        }
        parse_array(t, j)
    } else {
        parse_scalar(t, k)
    }
}

fn parse_object(t: &[char], i: usize) -> (r: CenResult<(JsonValue, usize)>)
    requires
        i <= t@.len(),
    ensures
        match r {
            Ok(x) => members_rest(t@, i as int, seq![]) == Ok::<(JsonView, int), ErrorView>(
                (x.0@, x.1 as int),
            ) && i < x.1 <= t@.len(),
            Err(e) => members_rest(t@, i as int, seq![]) == Err::<(JsonView, int), ErrorView>(e@),
        },
    decreases t@.len() - i, 1int,
{
    let mut entries: Vec<(String, JsonValue)> = Vec::new();
    let mut at: usize = i;
    assert(members_view(entries@) =~= seq![]);
    loop
        invariant
            i <= at <= t@.len(),
            members_rest(t@, i as int, seq![]) == members_rest(
                t@,
                at as int,
                members_view(entries@),
            ),
        decreases t@.len() - at,
    {
        let ghost before = entries@;
        let (key, j) = match parse_key(t, at) {
            Ok(x) => x,
            Err(e) => {
                return Err(e);
            },
        };
        let (value, k) = match parse_value(t, j) {
            Ok(x) => x,
            Err(e) => {
                return Err(e);
            },
        };
        let ghost entry = (key@, value@);
        entries.push((key, value));
        assert(entries@.drop_last() =~= before);
        assert(members_view(entries@) =~= members_view(before).push(entry));
        match next_part(t, k, '}') {
            Err(e) => {
                return Err(e);
            },
            Ok((more, z)) => {
                if !more {
                    return Ok((JsonValue::Object(entries), z));
                }
                at = z;
            },
        }
    }
}

fn parse_array(t: &[char], i: usize) -> (r: CenResult<(JsonValue, usize)>)
    requires
        i <= t@.len(),
    ensures
        match r {
            Ok(x) => items_rest(t@, i as int, seq![]) == Ok::<(JsonView, int), ErrorView>(
                (x.0@, x.1 as int),
            ) && i < x.1 <= t@.len(),
            Err(e) => items_rest(t@, i as int, seq![]) == Err::<(JsonView, int), ErrorView>(e@),
        },
    decreases t@.len() - i, 1int,
{
    let mut items: Vec<JsonValue> = Vec::new();
    let mut at: usize = i;
    assert(values_view(items@) =~= seq![]);
    loop
        invariant
            i <= at <= t@.len(),
            items_rest(t@, i as int, seq![]) == items_rest(t@, at as int, values_view(items@)),
        decreases t@.len() - at,
    {
        let ghost before = items@;
        let (value, k) = match parse_value(t, at) {
            Ok(x) => x,
            Err(e) => {
                return Err(e);
            },
        };
        let ghost item = value@;
        items.push(value);
        assert(items@.drop_last() =~= before);
        assert(values_view(items@) =~= values_view(before).push(item));
        match next_part(t, k, ']') {
            Err(e) => {
                return Err(e);
            },
            Ok((more, z)) => {
                if !more {
                    return Ok((JsonValue::Array(items), z));
                }
                at = z;
            },
        }
    }
}

} // verus!
