//! What texts have in common but for the case of their letters.

use vstd::prelude::*;

use crate::text::ascii_uppercase;

verus! {

/// Whether a word is the other, which is in capital letters, in any case.
pub open spec fn is_in_any_case(w: Seq<char>, capital: Seq<char>) -> bool {
    w.len() == capital.len() && forall|i: int|
        0 <= i < w.len() ==> #[trigger] w[i] == capital[i] || ('a' <= w[i] <= 'z' && w[i] as int
            == capital[i] as int + 32)
}

/// Such a word in capital letters is the other.
pub proof fn lemma_any_case(w: Seq<char>, capital: Seq<char>)
    requires
        is_in_any_case(w, capital),
        forall|i: int| 0 <= i < capital.len() ==> 'A' <= #[trigger] capital[i] <= 'Z',
    ensures
        ascii_uppercase(w) == capital,
{
    assert forall|i: int| 0 <= i < w.len() implies ascii_uppercase(w)[i] == capital[i] by {
        assert('A' <= capital[i] <= 'Z');
        assert(w[i] == capital[i] || ('a' <= w[i] <= 'z' && w[i] as int == capital[i] as int + 32));
    }
    assert(ascii_uppercase(w) =~= capital);
}

} // verus!
