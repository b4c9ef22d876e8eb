//! What the strings and the members of JSON values are.

use vstd::prelude::*;

use crate::error::ErrorView;
use crate::scan::{holds_at, space_end};
use crate::spatial::json::{
    chars_rest, field, member_index, scalar_at, string_at, JsonView,
};

verus! {

/// How a character stands in a string: the quote, the backslash and the control
/// characters with a letter of their own behind a backslash, the others as they
/// are.
pub open spec fn quoted_char(c: char) -> Seq<char> {
    if c == '"' {
        seq!['\\', '"']
    } else if c == '\\' {
        seq!['\\', '\\']
    } else if c == '\n' {
        seq!['\\', 'n']
    } else if c == '\r' {
        seq!['\\', 'r']
    } else if c == '\t' {
        seq!['\\', 't']
    } else if c == '\u{8}' {
        seq!['\\', 'b']
    } else if c == '\u{c}' {
        seq!['\\', 'f']
    } else {
        seq![c]
    }
}

/// How characters stand in a string.
pub open spec fn quoted_chars(s: Seq<char>) -> Seq<char>
    decreases s.len(),
{
    if s.len() == 0 {
        seq![]
    } else {
        quoted_char(s[0]) + quoted_chars(s.skip(1))
    }
}

proof fn lemma_quoted(t: Seq<char>, i: int, s: Seq<char>, acc: Seq<char>)
    requires
        0 <= i,
        i + quoted_chars(s).len() < t.len(),
        t.subrange(i, i + quoted_chars(s).len()) == quoted_chars(s),
        t[i + quoted_chars(s).len()] == '"',
    ensures
        chars_rest(t, i, acc) == Ok::<(Seq<char>, int), ErrorView>(
            (acc + s, i + quoted_chars(s).len() + 1),
        ),
    decreases s.len(),
{
    let q = quoted_chars(s);
    if s.len() == 0 {
        assert(acc + s =~= acc);
    } else {
        let h = quoted_char(s[0]);
        let rest = s.skip(1);
        let r = quoted_chars(rest);
        assert forall|k: int| 0 <= k < q.len() implies #[trigger] t[i + k] == q[k] by {
            assert(t.subrange(i, i + q.len())[k] == q[k]);
        }
        let j = i + h.len();
        assert(t.subrange(j, j + r.len()) =~= r) by {
            assert forall|k: int| 0 <= k < r.len() implies t[j + k] == r[k] by {
                assert(t[i + (h.len() + k)] == q[h.len() + k]);
            }
        }
        assert(q.len() == h.len() + r.len());
        lemma_quoted(t, j, rest, acc.push(s[0]));
        assert(acc.push(s[0]) + rest =~= acc + s);
        assert(t[i + 0] == q[0]);
        if h.len() == 2 {
            assert(t[i + 1] == q[1]);
        }
    }
}

/// A string between quotes is read as the characters that were put there.
pub proof fn law_string_round_trip(s: Seq<char>, rest: Seq<char>)
    ensures
        string_at(seq!['"'] + quoted_chars(s) + seq!['"'] + rest, 0) == Ok::<
            (Seq<char>, int),
            ErrorView,
        >((s, quoted_chars(s).len() as int + 2)),
{
    let q = quoted_chars(s);
    let t = seq!['"'] + q + seq!['"'] + rest;
    assert(t[0] == '"');
    assert(space_end(t, 0) == 0);
    assert(t.subrange(1, 1 + q.len() as int) =~= q);
    assert(t[1 + q.len() as int] == '"');
    lemma_quoted(t, 1, s, seq![]);
    assert(Seq::<char>::empty() + s =~= s);
}

/// The three words stand for their values.
pub proof fn law_words(rest: Seq<char>)
    ensures
        scalar_at("true"@ + rest, 0) == Ok::<(JsonView, int), ErrorView>((JsonView::Bool(true), 4)),
        scalar_at("false"@ + rest, 0) == Ok::<(JsonView, int), ErrorView>(
            (JsonView::Bool(false), 5),
        ),
        scalar_at("null"@ + rest, 0) == Ok::<(JsonView, int), ErrorView>((JsonView::Null, 4)),
{
    reveal(holds_at);
    reveal_strlit("true");
    reveal_strlit("false");
    reveal_strlit("null");
    let a = "true"@ + rest;
    let b = "false"@ + rest;
    let c = "null"@ + rest;
    assert(a.subrange(0, 4) =~= "true"@);
    assert(b.subrange(0, 5) =~= "false"@);
    assert(c.subrange(0, 4) =~= "null"@);
    assert(b.subrange(0, 4)[0] == 'f');
    assert(c.subrange(0, 4)[0] == 'n');
    assert(!holds_at(b, 0, "true"@));
    assert(!holds_at(c, 0, "true"@));
    if holds_at(c, 0, "false"@) {
        assert(c.subrange(0, 5)[0] == 'n');
    }
}

proof fn lemma_member(m: Seq<(Seq<char>, JsonView)>, key: Seq<char>, k: int)
    requires
        0 <= k <= m.len(),
    ensures
        k <= member_index(m, key, k) <= m.len(),
        member_index(m, key, k) < m.len() ==> m[member_index(m, key, k)].0 == key,
        forall|j: int| k <= j < member_index(m, key, k) ==> (#[trigger] m[j]).0 != key,
    decreases m.len() - k,
{
    if k < m.len() && m[k].0 != key {
        lemma_member(m, key, k + 1);
    }
}

/// An object holds under a key what its first member with that key holds.
pub proof fn law_member(m: Seq<(Seq<char>, JsonView)>, key: Seq<char>, i: int, v: JsonView)
    requires
        0 <= i < m.len(),
        forall|j: int| 0 <= j < i ==> (#[trigger] m[j]).0 != key,
    ensures
        m[i].0 == key ==> field(JsonView::Object(m), key) == Some(m[i].1),
        !m.map_values(|x: (Seq<char>, JsonView)| x.0).contains(key) ==> field(
            JsonView::Object(m),
            key,
        ) is None,
        !(v is Object) ==> field(v, key) is None,
{
    lemma_member(m, key, 0);
    let p = member_index(m, key, 0);
    if m[i].0 == key && p != i {
        if p < i {
            assert(m[p].0 != key);
        } else {
            assert(m[i].0 != key);
        }
    }
    let keys = m.map_values(|x: (Seq<char>, JsonView)| x.0);
    if !keys.contains(key) && p < m.len() {
        assert(keys[p] == key);
    }
}

} // verus!
