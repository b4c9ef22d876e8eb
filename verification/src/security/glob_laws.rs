//! What patterns of resource names match.

use vstd::prelude::*;

use crate::security::rbac::matches_glob;

verus! {

/// A question mark stands for one character, whichever it is.
pub proof fn law_question_mark(p: Seq<char>, c: char, t: Seq<char>)
    ensures
        matches_glob(seq!['?'] + p, seq![c] + t) == matches_glob(p, t),
        !matches_glob(seq!['?'] + p, seq![]),
{
    assert((seq!['?'] + p).drop_first() =~= p);
    assert((seq![c] + t).drop_first() =~= t);
}

/// Any other character but an asterisk stands for itself.
pub proof fn law_plain_character(a: char, p: Seq<char>, c: char, t: Seq<char>)
    requires
        a != '*',
        a != '?',
    ensures
        matches_glob(seq![a] + p, seq![c] + t) == (a == c && matches_glob(p, t)),
        !matches_glob(seq![a] + p, seq![]),
{
    assert((seq![a] + p).drop_first() =~= p);
    assert((seq![c] + t).drop_first() =~= t);
}

/// An asterisk stands for any characters, none included.
pub proof fn law_asterisk(p: Seq<char>, any: Seq<char>, t: Seq<char>)
    ensures
        matches_glob(p, t) ==> matches_glob(seq!['*'] + p, any + t),
        matches_glob(seq!['*'], any),
        matches_glob(seq!['*'] + p, t) ==> exists|k: int|
            0 <= k <= t.len() && matches_glob(p, #[trigger] t.skip(k)),
{
    let q = seq!['*'] + p;
    assert(q.drop_first() =~= p);
    if matches_glob(p, t) {
        assert((any + t).skip(any.len() as int) =~= t);
        assert(matches_glob(q.drop_first(), (any + t).skip(any.len() as int)));
    }
    let star = seq!['*'];
    assert(star.drop_first() =~= seq![]);
    assert(any.skip(any.len() as int) =~= seq![]);
    assert(matches_glob(star.drop_first(), any.skip(any.len() as int)));
}

/// Patterns one behind the other match texts one behind the other.
pub proof fn law_joined_patterns(p: Seq<char>, s: Seq<char>, q: Seq<char>, t: Seq<char>)
    requires
        matches_glob(p, s),
        matches_glob(q, t),
    ensures
        matches_glob(p + q, s + t),
    decreases p.len(),
{
    if p.len() == 0 {
        assert(p + q =~= q);
        assert(s + t =~= t);
    } else {
        let rest = p.drop_first();
        assert((p + q).drop_first() =~= rest + q);
        if p[0] == '*' {
            let k = choose|k: int| 0 <= k <= s.len() && matches_glob(rest, #[trigger] s.skip(k));
            law_joined_patterns(rest, s.skip(k), q, t);
            assert((s + t).skip(k) =~= s.skip(k) + t);
            assert(matches_glob((p + q).drop_first(), (s + t).skip(k)));
        } else {
            law_joined_patterns(rest, s.drop_first(), q, t);
            assert((s + t).drop_first() =~= s.drop_first() + t);
        }
    }
}

} // verus!
