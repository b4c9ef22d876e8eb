//! What a replica takes from the names of shipped segments.

use vstd::prelude::*;

use crate::replication::wal_shipping::{
    highest_lsn, new_segments, padded, segment_lsn, segment_name,
};
use crate::text::decimal;

verus! {

/// Whether a name is that of a segment behind a place in the log.
pub open spec fn is_news(after: u64) -> spec_fn(Seq<char>) -> bool {
    |name: Seq<char>| segment_lsn(name) is Some && segment_lsn(name)->0 > after
}

/// A replica counts the segments behind the last one that it applied.
pub proof fn law_news_are_counted(names: Seq<Seq<char>>, after: u64)
    ensures
        new_segments(names, after) == names.filter(is_news(after)).len(),
    decreases names.len(),
{
    reveal(Seq::filter);
    if names.len() > 0 {
        law_news_are_counted(names.drop_last(), after);
    }
}

/// After it caught up, a replica is at the highest segment that is listed, or
/// where it was if none is behind that.
pub proof fn law_highest_segment(names: Seq<Seq<char>>, after: u64)
    ensures
        highest_lsn(names, after) >= after,
        forall|i: int|
            0 <= i < names.len() && segment_lsn(#[trigger] names[i]) is Some ==> highest_lsn(
                names,
                after,
            ) >= segment_lsn(names[i])->0,
        highest_lsn(names, after) == after || exists|i: int|
            0 <= i < names.len() && segment_lsn(#[trigger] names[i]) == Some(
                highest_lsn(names, after),
            ),
    decreases names.len(),
{
    if names.len() > 0 {
        let front = names.drop_last();
        law_highest_segment(front, after);
        let n = names.len() - 1;
        assert forall|i: int|
            0 <= i < names.len() && segment_lsn(#[trigger] names[i]) is Some implies highest_lsn(
            names,
            after,
        ) >= segment_lsn(names[i])->0 by {
            if i < n {
                assert(front[i] == names[i]);
            }
        }
        if highest_lsn(names, after) != highest_lsn(front, after) {
            assert(segment_lsn(names[n]) == Some(highest_lsn(names, after)));
        } else if highest_lsn(front, after) != after {
            let i = choose|i: int|
                0 <= i < front.len() && segment_lsn(#[trigger] front[i]) == Some(
                    highest_lsn(front, after),
                );
            assert(names[i] == front[i]);
        }
    }
}

proof fn lemma_digits(n: nat, k: nat, bound: nat)
    requires
        n < bound,
        k >= 1,
        bound == vstd::arithmetic::power::pow(10, k),
    ensures
        decimal(n).len() <= k,
    decreases k,
{
    reveal(vstd::arithmetic::power::pow);
    if n >= 10 {
        let rest = vstd::arithmetic::power::pow(10, (k - 1) as nat);
        assert(bound == 10 * rest);
        if k == 1 {
            assert(rest == 1);
        } else {
            lemma_digits(n / 10, (k - 1) as nat, rest as nat);
        }
    }
}

/// The names of segments are all 28 characters long.
pub proof fn law_segment_names_are_even(lsn: u64)
    ensures
        segment_name(lsn).len() == 28,
        padded(lsn as nat, 20).len() == 20,
{
    reveal_strlit("wal_");
    reveal_strlit(".seg");
    assert(vstd::arithmetic::power::pow(10, 20) == 100_000_000_000_000_000_000) by {
        reveal_with_fuel(vstd::arithmetic::power::pow, 21);
    }
    lemma_digits(lsn as nat, 20, 100_000_000_000_000_000_000);
}

} // verus!
