//! Steps through a text that its readers share.

use vstd::prelude::*;

use crate::error::{syntax_error, CenError, ErrorView};
use crate::text::{byte_len, decimal, is_space, is_whitespace, string_of, with_number};

verus! {

/// Where the white space that goes on at `i` ends.
pub open spec fn space_end(t: Seq<char>, i: int) -> int
    decreases t.len() - i,
{
    if 0 <= i < t.len() && is_space(t[i]) {
        space_end(t, i + 1)
    } else {
        i
    }
}

/// The character at a place.
pub open spec fn char_at(t: Seq<char>, i: int) -> Option<char> {
    if 0 <= i < t.len() {
        Some(t[i])
    } else {
        None
    }
}

/// How many bytes stand before a place.
pub open spec fn offset(t: Seq<char>, i: int) -> nat {
    byte_len(t.take(i))
}

/// What is read at a place: a value and where the text goes on.
pub type Read<X> = Result<(X, int), ErrorView>;

/// A message that ends in an offset.
pub open spec fn message_at(head: Seq<char>, t: Seq<char>, i: int) -> Seq<char> {
    head + decimal(offset(t, i))
}

/// White space ends within the text.
pub proof fn lemma_space_end(t: Seq<char>, i: int)
    requires
        0 <= i <= t.len(),
    ensures
        i <= space_end(t, i) <= t.len(),
    decreases t.len() - i,
{
    if i < t.len() && is_space(t[i]) {
        lemma_space_end(t, i + 1);
    }
}

/// Where the white space that goes on at `i` ends.
pub fn skip_ws(t: &[char], i: usize) -> (r: usize)
    requires
        i <= t@.len(),
    ensures
        r == space_end(t@, i as int),
        i <= r <= t@.len(),
{
    let mut k: usize = i;
    while k < t.len() && is_whitespace(t[k])
        invariant
            i <= k <= t@.len(),
            space_end(t@, k as int) == space_end(t@, i as int),
        decreases t@.len() - k,
    {
        k = k + 1;
    }
    k
}

/// The character at a place.
pub fn peek(t: &[char], i: usize) -> (r: Option<char>)
    ensures
        r == char_at(t@, i as int),
        r is Some ==> i < usize::MAX,
{
    if i < t.len() {
        Some(t[i])
    } else {
        None
    }
}

/// How many bytes stand before a place.
pub fn offset_at(t: &[char], i: usize) -> (r: usize)
    requires
        i <= t@.len(),
    ensures
        r == offset(t@, i as int),
{
    let head: String = string_of(t, 0, i);
    assert(head@ =~= t@.take(i as int));
    head.as_str().as_bytes().len()
}

/// A syntax error whose message ends in an offset.
pub fn error_at(head: &str, t: &[char], i: usize) -> (r: CenError)
    requires
        i <= t@.len(),
    ensures
        r@ == syntax_error(message_at(head@, t@, i as int)),
{
    let n: usize = offset_at(t, i);
    CenError::syntax(with_number(head, n).as_str())
}

/// A text stands at a place of another.
#[verifier::opaque]
pub open spec fn holds_at(t: Seq<char>, i: int, w: Seq<char>) -> bool {
    0 <= i && i + w.len() <= t.len() && t.subrange(i, i + w.len()) == w
}

/// What stands at a place is what its parts are.
pub proof fn lemma_holds_split(t: Seq<char>, i: int, u: Seq<char>, v: Seq<char>)
    requires
        holds_at(t, i, u + v),
    ensures
        holds_at(t, i, u),
        holds_at(t, i + u.len(), v),
{
    reveal(holds_at);
    let w = u + v;
    assert forall|k: int| 0 <= k < w.len() implies #[trigger] t[i + k] == w[k] by {
        assert(t.subrange(i, i + w.len())[k] == w[k]);
    }
    assert(t.subrange(i, i + u.len()) =~= u) by {
        assert forall|k: int| 0 <= k < u.len() implies t[i + k] == u[k] by {
            assert(w[k] == u[k]);
        }
    }
    assert(t.subrange(i + u.len(), i + u.len() + v.len()) =~= v) by {
        assert forall|k: int| 0 <= k < v.len() implies t[i + u.len() + k] == v[k] by {
            assert(t[i + (u.len() + k)] == w[u.len() + k]);
        }
    }
}

/// A character of a text that stands at a place.
pub proof fn lemma_holds_char(t: Seq<char>, i: int, w: Seq<char>, k: int)
    requires
        holds_at(t, i, w),
        0 <= k < w.len(),
    ensures
        0 <= i,
        i + w.len() <= t.len(),
        t[i + k] == w[k],
{
    reveal(holds_at);
    assert(t.subrange(i, i + w.len())[k] == w[k]);
}

/// A text stands at its own start.
pub proof fn lemma_holds_whole(t: Seq<char>)
    ensures
        holds_at(t, 0, t),
{
    reveal(holds_at);
    assert(t.subrange(0, t.len() as int) =~= t);
}

} // verus!
