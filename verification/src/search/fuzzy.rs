//! Fuzzy matching by Levenshtein edit distance.

use vstd::prelude::*;

use crate::text::chars_of;

verus! {

/// The smaller of two numbers.
pub open spec fn least(a: nat, b: nat) -> nat {
    if a <= b {
        a
    } else {
        b
    }
}

/// What it costs to put one character in another's place.
pub open spec fn swap_cost(x: char, y: char) -> nat {
    if x == y {
        0
    } else {
        1
    }
}

/// The edit distance of two texts, seen from their last characters: drop the
/// first text's, add the second's, or put one in the other's place.
pub open spec fn distance(a: Seq<char>, b: Seq<char>) -> nat
    decreases a.len() + b.len(),
{
    if a.len() == 0 {
        b.len()
    } else if b.len() == 0 {
        a.len()
    } else {
        least(
            least(distance(a.drop_last(), b) + 1, distance(a, b.drop_last()) + 1),
            distance(a.drop_last(), b.drop_last()) + swap_cost(a.last(), b.last()),
        )
    }
}

/// Whether `b` is `a` with one character more.
pub open spec fn is_insertion(a: Seq<char>, b: Seq<char>) -> bool {
    exists|p: int, x: char| 0 <= p <= a.len() && b == #[trigger] a.insert(p, x)
}

/// Whether `b` is `a` with one character replaced.
pub open spec fn is_substitution(a: Seq<char>, b: Seq<char>) -> bool {
    exists|p: int, x: char| 0 <= p < a.len() && b == #[trigger] a.update(p, x)
}

/// Whether one insertion, deletion or substitution leads from `a` to `b`.
pub open spec fn one_edit(a: Seq<char>, b: Seq<char>) -> bool {
    is_insertion(a, b) || is_insertion(b, a) || is_substitution(a, b)
}

/// Whether each text of the row comes from the one before it by one edit, from
/// `a` to `b`.
pub open spec fn edit_path(path: Seq<Seq<char>>, a: Seq<char>, b: Seq<char>) -> bool {
    &&& path.len() > 0
    &&& path[0] == a
    &&& path.last() == b
    &&& forall|i: int| 1 <= i < path.len() ==> one_edit(path[i - 1], #[trigger] path[i])
}

/// The distance lies between the difference of the lengths and the greater
/// length.
pub proof fn lemma_distance_bounds(a: Seq<char>, b: Seq<char>)
    ensures
        distance(a, b) <= a.len() || distance(a, b) <= b.len(),
        a.len() <= b.len() + distance(a, b),
        b.len() <= a.len() + distance(a, b),
    decreases a.len() + b.len(),
{
    if a.len() > 0 && b.len() > 0 {
        lemma_distance_bounds(a.drop_last(), b);
        lemma_distance_bounds(a, b.drop_last());
        lemma_distance_bounds(a.drop_last(), b.drop_last());
    }
}

/// Two texts are at distance zero exactly where they are the same.
pub proof fn law_distance_zero(a: Seq<char>, b: Seq<char>)
    ensures
        distance(a, b) == 0 <==> a == b,
    decreases a.len() + b.len(),
{
    if a.len() > 0 && b.len() > 0 {
        law_distance_zero(a.drop_last(), b.drop_last());
        assert(a == a.drop_last().push(a.last()));
        assert(b == b.drop_last().push(b.last()));
    } else if distance(a, b) == 0 {
        assert(a =~= b);
    }
}

/// The distance does not depend on the order of the two texts.
pub proof fn law_distance_symmetric(a: Seq<char>, b: Seq<char>)
    ensures
        distance(a, b) == distance(b, a),
    decreases a.len() + b.len(),
{
    if a.len() > 0 && b.len() > 0 {
        law_distance_symmetric(a.drop_last(), b);
        law_distance_symmetric(a, b.drop_last());
        law_distance_symmetric(a.drop_last(), b.drop_last());
    }
}

/// A detour over a third text is never shorter.
pub proof fn law_distance_triangle(a: Seq<char>, b: Seq<char>, c: Seq<char>)
    ensures
        distance(a, c) <= distance(a, b) + distance(b, c),
    decreases a.len() + b.len() + c.len(),
{
    lemma_distance_bounds(a, b);
    lemma_distance_bounds(b, c);
    lemma_distance_bounds(a, c);
    if a.len() > 0 && b.len() > 0 && c.len() > 0 {
        let a1 = a.drop_last();
        let b1 = b.drop_last();
        let c1 = c.drop_last();
        law_distance_triangle(a1, b, c);
        law_distance_triangle(a, b, c1);
        law_distance_triangle(a, b1, c);
        law_distance_triangle(a, b1, c1);
        law_distance_triangle(a1, b1, c);
        law_distance_triangle(a1, b1, c1);
    }
}

proof fn lemma_insertion_distance(a: Seq<char>, p: int, x: char)
    requires
        0 <= p <= a.len(),
    ensures
        distance(a, a.insert(p, x)) <= 1,
    decreases a.len(),
{
    let b = a.insert(p, x);
    if a.len() > 0 {
        if p == a.len() {
            assert(b.drop_last() =~= a);
            law_distance_zero(a, a);
        } else {
            lemma_insertion_distance(a.drop_last(), p, x);
            assert(b.drop_last() =~= a.drop_last().insert(p, x));
        }
    }
}

proof fn lemma_substitution_distance(a: Seq<char>, p: int, x: char)
    requires
        0 <= p < a.len(),
    ensures
        distance(a, a.update(p, x)) <= 1,
    decreases a.len(),
{
    let b = a.update(p, x);
    if p == a.len() - 1 {
        assert(b.drop_last() =~= a.drop_last());
        law_distance_zero(a.drop_last(), a.drop_last());
    } else {
        lemma_substitution_distance(a.drop_last(), p, x);
        assert(b.drop_last() =~= a.drop_last().update(p, x));
    }
}

proof fn lemma_edit_distance(a: Seq<char>, b: Seq<char>)
    requires
        one_edit(a, b),
    ensures
        distance(a, b) <= 1,
{
    if is_insertion(a, b) {
        let (p, x) = choose|p: int, x: char| 0 <= p <= a.len() && b == #[trigger] a.insert(p, x);
        lemma_insertion_distance(a, p, x);
    } else if is_insertion(b, a) {
        let (p, x) = choose|p: int, x: char| 0 <= p <= b.len() && a == #[trigger] b.insert(p, x);
        lemma_insertion_distance(b, p, x);
        law_distance_symmetric(a, b);
    } else {
        let (p, x) = choose|p: int, x: char| 0 <= p < a.len() && b == #[trigger] a.update(p, x);
        lemma_substitution_distance(a, p, x);
    }
}

/// No row of single edits is shorter than the distance.
pub proof fn law_distance_is_least(path: Seq<Seq<char>>, a: Seq<char>, b: Seq<char>)
    requires
        edit_path(path, a, b),
    ensures
        distance(a, b) + 1 <= path.len(),
    decreases path.len(),
{
    if path.len() == 1 {
        law_distance_zero(a, b);
    } else {
        let before = path.drop_last();
        let c = before.last();
        assert(edit_path(before, a, c));
        law_distance_is_least(before, a, c);
        assert(one_edit(c, b)) by {
            assert(path[path.len() - 1] == b);
        }
        lemma_edit_distance(c, b);
        law_distance_triangle(a, c, b);
    }
}

proof fn lemma_edit_behind(a: Seq<char>, b: Seq<char>, c: char)
    requires
        one_edit(a, b),
    ensures
        one_edit(a.push(c), b.push(c)),
{
    if is_insertion(a, b) {
        let (p, x) = choose|p: int, x: char| 0 <= p <= a.len() && b == #[trigger] a.insert(p, x);
        assert(b.push(c) =~= a.push(c).insert(p, x));
    } else if is_insertion(b, a) {
        let (p, x) = choose|p: int, x: char| 0 <= p <= b.len() && a == #[trigger] b.insert(p, x);
        assert(a.push(c) =~= b.push(c).insert(p, x));
    } else {
        let (p, x) = choose|p: int, x: char| 0 <= p < a.len() && b == #[trigger] a.update(p, x);
        assert(b.push(c) =~= a.push(c).update(p, x));
    }
}

/// A row with one text more in front.
proof fn lemma_path_front(path: Seq<Seq<char>>, a: Seq<char>, b: Seq<char>, first: Seq<char>)
    requires
        edit_path(path, a, b),
        one_edit(first, a),
    ensures
        edit_path(seq![first] + path, first, b),
{
    let longer = seq![first] + path;
    assert forall|i: int| 1 <= i < longer.len() implies one_edit(
        longer[i - 1],
        #[trigger] longer[i],
    ) by {
        if i > 1 {
            assert(longer[i] == path[i - 1]);
        }
    }
}

/// Some row of single edits is as short as the distance says.
pub proof fn law_distance_is_reached(a: Seq<char>, b: Seq<char>) -> (path: Seq<Seq<char>>)
    ensures
        edit_path(path, a, b),
        path.len() == distance(a, b) + 1,
    decreases a.len() + b.len(),
{
    if a.len() == 0 && b.len() == 0 {
        assert(a =~= b);
        seq![a]
    } else if b.len() == 0 || (a.len() > 0 && distance(a, b) == distance(a.drop_last(), b) + 1) {
        let rest = law_distance_is_reached(a.drop_last(), b);
        assert(a =~= a.drop_last().insert(a.len() - 1, a.last()));
        assert(is_insertion(a.drop_last(), a));
        lemma_path_front(rest, a.drop_last(), b, a);
        seq![a] + rest
    } else if a.len() == 0 || distance(a, b) == distance(a, b.drop_last()) + 1 {
        let rest = law_distance_is_reached(a, b.drop_last());
        assert(b =~= b.drop_last().insert(b.len() - 1, b.last()));
        assert(is_insertion(b.drop_last(), b));
        let path = rest.push(b);
        assert forall|i: int| 1 <= i < path.len() implies one_edit(
            path[i - 1],
            #[trigger] path[i],
        ) by {
            if i < rest.len() {
                assert(path[i] == rest[i]);
            }
        }
        path
    } else {
        let inner = law_distance_is_reached(a.drop_last(), b.drop_last());
        let lifted = inner.map_values(|s: Seq<char>| s.push(b.last()));
        let start = a.drop_last().push(b.last());
        assert(edit_path(lifted, start, b)) by {
            assert(b.drop_last().push(b.last()) =~= b);
            assert forall|i: int| 1 <= i < lifted.len() implies one_edit(
                lifted[i - 1],
                #[trigger] lifted[i],
            ) by {
                assert(one_edit(inner[i - 1], inner[i]));
                lemma_edit_behind(inner[i - 1], inner[i], b.last());
            }
        }
        if a.last() == b.last() {
            assert(start =~= a);
            lifted
        } else {
            assert(start =~= a.update(a.len() - 1, b.last()));
            assert(is_substitution(a, start));
            lemma_path_front(lifted, start, b, a);
            seq![a] + lifted
        }
    }
}

/// The next entry of a row of the distance table.
fn cell(deletion: usize, insertion: usize, substitution: usize, same: bool) -> (r: usize)
    requires
        same || deletion < usize::MAX || insertion < usize::MAX || substitution < usize::MAX,
    ensures
        r == least(
            least((deletion + 1) as nat, (insertion + 1) as nat),
            (substitution + if same {
                0int
            } else {
                1
            }) as nat,
        ),
{
    let other: usize = if deletion <= insertion {
        deletion
    } else {
        insertion
    };
    if same {
        if substitution <= other {
            substitution
        } else {
            other + 1
        }
    } else if substitution <= other {
        substitution + 1
    } else {
        other + 1
    }
}

/// The edit distance of two rows of characters, by a table of which one row is
/// kept.
fn levenshtein_chars(a: &[char], b: &[char]) -> (r: usize)
    ensures
        r == distance(a@, b@),
{
    let m: usize = a.len();
    let n: usize = b.len();
    if m == 0 {
        return n;
    }
    if n == 0 {
        return m;
    }
    let mut row: Vec<usize> = Vec::new();
    let mut j: usize = 0;
    while j < n
        invariant
            j <= n == b@.len(),
            row@.len() == j,
            forall|k: int| 0 <= k < j ==> #[trigger] row@[k] == k + 1,
        decreases n - j,
    {
        j = j + 1;
        row.push(j);
    }
    let mut i: usize = 0;
    assert forall|k: int| 0 <= k < n implies #[trigger] row@[k] == distance(
        a@.take(0),
        b@.take(k + 1),
    ) by {}
    while i < m
        invariant
            i <= m == a@.len(),
            n == b@.len(),
            n > 0,
            row@.len() == n,
            forall|k: int|
                0 <= k < n ==> #[trigger] row@[k] == distance(a@.take(i as int), b@.take(k + 1)),
        decreases m - i,
    {
        let ghost above = row@;
        let ghost x = a@.take(i as int);
        let ghost y = a@.take(i + 1);
        assert(y.drop_last() =~= x);
        assert(y.last() == a@[i as int]);
        let mut corner: usize = i;
        let mut left: usize = i + 1;
        let mut j: usize = 0;
        assert(b@.take(0).len() == 0);
        while j < n
            invariant
                i < m == a@.len(),
                j <= n == b@.len(),
                row@.len() == n,
                above.len() == n,
                x == a@.take(i as int),
                y == a@.take(i + 1),
                y.drop_last() == x,
                y.last() == a@[i as int],
                corner == distance(x, b@.take(j as int)),
                left == distance(y, b@.take(j as int)),
                forall|k: int| 0 <= k < n ==> #[trigger] above[k] == distance(x, b@.take(k + 1)),
                forall|k: int| 0 <= k < j ==> #[trigger] row@[k] == distance(y, b@.take(k + 1)),
                forall|k: int| j <= k < n ==> #[trigger] row@[k] == above[k],
            decreases n - j,
        {
            proof {
                let z = b@.take(j + 1);
                assert(z.drop_last() =~= b@.take(j as int));
                assert(z.last() == b@[j as int]);
                lemma_distance_bounds(y, z);
                assert(row@[j as int] == above[j as int]);
                assert(distance(y, z) <= usize::MAX);
            }
            let up: usize = row[j];
            let value: usize = cell(up, left, corner, a[i] == b[j]);
            row.set(j, value);
            corner = up;
            left = value;
            j = j + 1;
        }
        i = i + 1;
    }
    assert(a@.take(m as int) =~= a@);
    assert(b@.take(n - 1 + 1) =~= b@);
    row[n - 1]
}

/// The least number of single-character edits (insertions, deletions,
/// substitutions) that lead from `a` to `b`.
pub fn levenshtein(a: &str, b: &str) -> (r: usize)
    ensures
        r == distance(a@, b@),
{
    let a: Vec<char> = chars_of(a);
    let b: Vec<char> = chars_of(b);
    levenshtein_chars(a.as_slice(), b.as_slice())
}

/// A term of a vocabulary and its distance from what is searched.
pub type Found = (Seq<char>, nat);

/// The values of a row of results.
pub open spec fn found_views(r: Seq<(String, usize)>) -> Seq<Found> {
    r.map_values(|p: (String, usize)| (p.0@, p.1 as nat))
}

/// Whether `a` stands before `b` in the order of code points.
pub open spec fn text_before(a: Seq<char>, b: Seq<char>) -> bool
    decreases a.len(),
{
    if b.len() == 0 {
        false
    } else if a.len() == 0 {
        true
    } else if a[0] == b[0] {
        text_before(a.skip(1), b.skip(1))
    } else {
        a[0] < b[0]
    }
}

/// Whether `x` ranks before `y`: it is nearer, or as near and first in the
/// alphabet.
pub open spec fn ranks_before(x: Found, y: Found) -> bool {
    x.1 < y.1 || (x.1 == y.1 && text_before(x.0, y.0))
}

/// The place of `x` among ranked results: behind all that do not rank after
/// it.
pub open spec fn rank_place(ranked: Seq<Found>, x: Found, n: int) -> int
    decreases n,
{
    if n > 0 && ranks_before(x, ranked[n - 1]) {
        rank_place(ranked, x, n - 1)
    } else {
        n
    }
}

/// The first `n` terms of the vocabulary that are near enough, by rank.
pub open spec fn ranked_matches(
    term: Seq<char>,
    vocabulary: Seq<Seq<char>>,
    max_distance: nat,
    n: int,
) -> Seq<Found>
    decreases n,
{
    if n <= 0 {
        seq![]
    } else {
        let before = ranked_matches(term, vocabulary, max_distance, n - 1);
        let x = (vocabulary[n - 1], distance(term, vocabulary[n - 1]));
        if x.1 <= max_distance {
            before.insert(rank_place(before, x, before.len() as int), x)
        } else {
            before
        }
    }
}

/// The first `limit` elements of a row.
pub open spec fn capped<A>(s: Seq<A>, limit: int) -> Seq<A> {
    if limit < s.len() {
        s.take(limit)
    } else {
        s
    }
}

/// The texts that a row of string slices holds.
pub open spec fn slices(v: Seq<&str>) -> Seq<Seq<char>> {
    v.map_values(|s: &str| s@)
}

/// Whether `a` stands before `b` in the order of code points.
pub fn stands_before(a: &str, b: &str) -> (r: bool)
    ensures
        r == text_before(a@, b@),
{
    let x: Vec<char> = chars_of(a);
    let y: Vec<char> = chars_of(b);
    let mut i: usize = 0;
    assert(x@.skip(0) =~= a@);
    assert(y@.skip(0) =~= b@);
    while i < x.len() && i < y.len()
        invariant
            i <= x@.len(),
            i <= y@.len(),
            x@ == a@,
            y@ == b@,
            text_before(x@.skip(i as int), y@.skip(i as int)) == text_before(a@, b@),
        decreases x@.len() - i,
    {
        if x[i] != y[i] {
            return x[i] < y[i];
        }
        assert(x@.skip(i as int).skip(1) =~= x@.skip(i + 1));
        assert(y@.skip(i as int).skip(1) =~= y@.skip(i + 1));
        i = i + 1;
    }
    i < y.len()
}

/// The terms of a vocabulary within `max_distance` edits of `term`, at most
/// `limit` of them, by distance and then by alphabet.
fn fuzzy_search_impl(
    term: &str,
    vocabulary: &[&str],
    max_distance: usize,
    limit: usize,
) -> (r: Vec<(String, usize)>)
    ensures
        found_views(r@) == capped(
            ranked_matches(
                term@,
                slices(vocabulary@),
                max_distance as nat,
                vocabulary@.len() as int,
            ),
            limit as int,
        ),
{
    let mut results: Vec<(String, usize)> = Vec::new();
    let ghost words = slices(vocabulary@);
    let mut n: usize = 0;
    assert(found_views(results@) =~= ranked_matches(term@, words, max_distance as nat, 0));
    while n < vocabulary.len()
        invariant
            n <= vocabulary@.len(),
            words == slices(vocabulary@),
            found_views(results@) == ranked_matches(term@, words, max_distance as nat, n as int),
        decreases vocabulary@.len() - n,
    {
        let word: &str = vocabulary[n];
        assert(words[n as int] == word@);
        let d: usize = levenshtein(term, word);
        if d <= max_distance {
            let ghost x = (word@, d as nat);
            let ghost before = found_views(results@);
            let ghost old_results = results@;
            let mut p: usize = results.len();
            while p > 0 && (d < results[p - 1].1 || (d == results[p - 1].1 && stands_before(
                word,
                results[p - 1].0.as_str(),
            )))
                invariant
                    p <= results@.len(),
                    results@ == old_results,
                    before == found_views(results@),
                    x == (word@, d as nat),
                    rank_place(before, x, p as int) == rank_place(before, x, before.len() as int),
                decreases p,
            {
                assert(before[p - 1] == (results@[p - 1].0@, results@[p - 1].1 as nat));
                p = p - 1;
            }
            proof {
                if p > 0 {
                    assert(before[p - 1] == (results@[p - 1].0@, results@[p - 1].1 as nat));
                }
            }
            results.insert(p, (word.to_owned(), d));
            assert(found_views(results@) =~= before.insert(p as int, x));
        }
        n = n + 1;
    }
    let ghost all = found_views(results@);
    if limit < results.len() {
        results.truncate(limit);
        assert(found_views(results@) =~= all.take(limit as int));
    }
    results
}

/// The terms of a vocabulary within `max_distance` edits of `term`, each with
/// its distance, by distance and then by alphabet.
pub fn fuzzy_search(term: &str, vocabulary: &[&str], max_distance: usize) -> (r: Vec<
    (String, usize),
>)
    ensures
        found_views(r@) == ranked_matches(
            term@,
            slices(vocabulary@),
            max_distance as nat,
            vocabulary@.len() as int,
        ),
{
    let _n: usize = vocabulary.len();
    proof {
        lemma_ranked_len(
            term@,
            slices(vocabulary@),
            max_distance as nat,
            vocabulary@.len() as int,
        );
    }
    fuzzy_search_impl(term, vocabulary, max_distance, usize::MAX)
}

/// Like [`fuzzy_search`], with at most `limit` results.
pub fn fuzzy_search_with_limit(
    term: &str,
    vocabulary: &[&str],
    max_distance: usize,
    limit: usize,
) -> (r: Vec<(String, usize)>)
    ensures
        found_views(r@) == capped(
            ranked_matches(
                term@,
                slices(vocabulary@),
                max_distance as nat,
                vocabulary@.len() as int,
            ),
            limit as int,
        ),
{
    fuzzy_search_impl(term, vocabulary, max_distance, limit)
}

proof fn lemma_ranked_len(
    term: Seq<char>,
    vocabulary: Seq<Seq<char>>,
    max_distance: nat,
    n: int,
)
    requires
        0 <= n,
    ensures
        ranked_matches(term, vocabulary, max_distance, n).len() <= n,
    decreases n,
{
    if n > 0 {
        lemma_ranked_len(term, vocabulary, max_distance, n - 1);
        let before = ranked_matches(term, vocabulary, max_distance, n - 1);
        let x = (vocabulary[n - 1], distance(term, vocabulary[n - 1]));
        lemma_rank_place(before, x, before.len() as int);
    }
}

proof fn lemma_rank_place(ranked: Seq<Found>, x: Found, n: int)
    requires
        0 <= n <= ranked.len(),
    ensures
        0 <= rank_place(ranked, x, n) <= n,
        forall|k: int|
            rank_place(ranked, x, n) <= k < n ==> ranks_before(x, #[trigger] ranked[k]),
        rank_place(ranked, x, n) > 0 ==> !ranks_before(x, ranked[rank_place(ranked, x, n) - 1]),
    decreases n,
{
    if n > 0 && ranks_before(x, ranked[n - 1]) {
        lemma_rank_place(ranked, x, n - 1);
    }
}

/// The order of texts: total, and no text stands before itself.
proof fn lemma_text_order(a: Seq<char>, b: Seq<char>, c: Seq<char>)
    ensures
        !text_before(a, a),
        text_before(a, b) && text_before(b, c) ==> text_before(a, c),
        text_before(a, b) || text_before(b, a) || a == b,
        text_before(a, b) ==> !text_before(b, a),
    decreases a.len() + b.len() + c.len(),
{
    if a.len() > 0 && b.len() > 0 {
        if c.len() > 0 {
            lemma_text_order(a.skip(1), b.skip(1), c.skip(1));
        } else {
            lemma_text_order(a.skip(1), b.skip(1), c);
        }
        if a[0] == b[0] && a.skip(1) == b.skip(1) {
            assert(a =~= seq![a[0]] + a.skip(1));
            assert(b =~= seq![b[0]] + b.skip(1));
        }
    } else if a.len() > 0 {
        lemma_text_order(a.skip(1), b, c);
    } else if b.len() == 0 {
        assert(a =~= b);
    }
}

/// Whether no result ranks before an earlier one.
pub open spec fn in_rank_order(s: Seq<Found>) -> bool {
    forall|i: int, j: int|
        0 <= i < j < s.len() ==> !ranks_before(#[trigger] s[j], #[trigger] s[i])
}

/// The results are in order of rank, and hold every term that is near enough,
/// as often as the vocabulary holds it, with its distance, and no other.
pub proof fn law_fuzzy_results(
    term: Seq<char>,
    vocabulary: Seq<Seq<char>>,
    max_distance: nat,
    n: int,
)
    requires
        0 <= n <= vocabulary.len(),
    ensures
        in_rank_order(ranked_matches(term, vocabulary, max_distance, n)),
        ranked_matches(term, vocabulary, max_distance, n).to_multiset() == vocabulary.take(
            n,
        ).filter(|w: Seq<char>| distance(term, w) <= max_distance).map_values(
            |w: Seq<char>| (w, distance(term, w)),
        ).to_multiset(),
    decreases n,
{
    let near = |w: Seq<char>| distance(term, w) <= max_distance;
    let pair = |w: Seq<char>| (w, distance(term, w));
    broadcast use vstd::seq_lib::group_to_multiset_ensures;
    if n == 0 {
        assert(vocabulary.take(0) =~= seq![]);
        reveal(Seq::filter);
        assert(vocabulary.take(0).filter(near).map_values(pair) =~= seq![]);
    } else {
        law_fuzzy_results(term, vocabulary, max_distance, n - 1);
        let before = ranked_matches(term, vocabulary, max_distance, n - 1);
        let w = vocabulary[n - 1];
        let x = (w, distance(term, w));
        let p = rank_place(before, x, before.len() as int);
        assert(vocabulary.take(n) =~= vocabulary.take(n - 1).push(w));
        crate::sequences::lemma_filter_push(vocabulary.take(n - 1), w, near);
        let kept = vocabulary.take(n - 1).filter(near);
        if near(w) {
            lemma_rank_place(before, x, before.len() as int);
            assert(kept.push(w).map_values(pair) =~= kept.map_values(pair).push(x));
            let now = before.insert(p, x);
            assert(now.to_multiset() =~= before.to_multiset().insert(x)) by {
                vstd::seq_lib::to_multiset_insert(before, p, x);
            }
            assert forall|i: int, j: int| 0 <= i < j < now.len() implies !ranks_before(
                #[trigger] now[j],
                #[trigger] now[i],
            ) by {
                lemma_placed(before, x, p, i, j);
            }
        }
    }
}

proof fn lemma_placed(before: Seq<Found>, x: Found, p: int, i: int, j: int)
    requires
        in_rank_order(before),
        0 <= p <= before.len(),
        forall|k: int| p <= k < before.len() ==> ranks_before(x, #[trigger] before[k]),
        p > 0 ==> !ranks_before(x, before[p - 1]),
        0 <= i < j < before.len() + 1,
    ensures
        !ranks_before(before.insert(p, x)[j], before.insert(p, x)[i]),
{
    let now = before.insert(p, x);
    if j == p {
        assert(now[i] == before[i]);
        if i < p - 1 {
            let y = before[p - 1];
            lemma_text_order(x.0, before[i].0, y.0);
            lemma_text_order(y.0, x.0, before[i].0);
            assert(!ranks_before(before[p - 1], before[i]));
            lemma_text_order(before[i].0, y.0, x.0);
            lemma_text_order(y.0, before[i].0, x.0);
            lemma_text_order(x.0, y.0, before[i].0);
        }
    } else if i == p {
        assert(now[j] == before[j - 1]);
        lemma_text_order(x.0, before[j - 1].0, x.0);
    } else {
        let i0 = if i < p { i } else { i - 1 };
        let j0 = if j < p { j } else { j - 1 };
        assert(now[i] == before[i0]);
        assert(now[j] == before[j0]);
    }
}

} // verus!
