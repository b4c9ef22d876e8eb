//! What the join of a query finds.

use vstd::prelude::*;

use crate::rdf::evaluate::{
    bind, bind_part, candidates, extend_row, extend_rows, joined, note_var, pattern_variables,
    resolved,
};
use crate::rdf::sparql::{PatternTermView, TriplePatternView};
use crate::rdf::store::{law_matching_is_exact, part, triple_matches, Position};
use crate::rdf::{TermView, TripleView};
use crate::sequences::lemma_push_contains;

verus! {

/// Whether a row binds every variable of a pattern, and to a stored triple.
pub open spec fn satisfied(
    pat: TriplePatternView,
    row: Map<Seq<char>, TermView>,
    all: Seq<TripleView>,
) -> bool {
    match (resolved(pat.subject, row), resolved(pat.predicate, row), resolved(pat.object, row)) {
        (Some(subject), Some(predicate), Some(object)) => all.contains(
            TripleView { subject, predicate, object },
        ),
        _ => false,
    }
}

/// Whether one row holds the bindings of another.
pub open spec fn extends(wide: Map<Seq<char>, TermView>, row: Map<Seq<char>, TermView>) -> bool {
    forall|n: Seq<char>| #[trigger]
        row.dom().contains(n) ==> wide.dom().contains(n) && wide[n] == row[n]
}

/// How a row of an extension came about.
spec fn came_from(
    pat: TriplePatternView,
    ts: Seq<TripleView>,
    row: Map<Seq<char>, TermView>,
    wide: Map<Seq<char>, TermView>,
    t: TripleView,
) -> bool {
    ts.contains(t) && bind(pat, t, row) is Some && wide == row.union_prefer_right(
        bind(pat, t, row)->0,
    )
}

proof fn lemma_extend_row(
    pat: TriplePatternView,
    ts: Seq<TripleView>,
    row: Map<Seq<char>, TermView>,
    wide: Map<Seq<char>, TermView>,
)
    ensures
        extend_row(pat, ts, row).contains(wide) <==> exists|t: TripleView|
            came_from(pat, ts, row, wide, t),
    decreases ts.len(),
{
    if ts.len() > 0 {
        let before = ts.drop_last();
        let last = ts.last();
        lemma_extend_row(pat, before, row, wide);
        assert(ts == before.push(last));
        assert forall|t: TripleView| #[trigger]
            came_from(pat, ts, row, wide, t) <==> came_from(pat, before, row, wide, t) || (t == last
                && came_from(pat, ts, row, wide, last)) by {
            lemma_push_contains(before, last, t);
            lemma_push_contains(before, last, last);
        }
        lemma_push_contains(before, last, last);
        match bind(pat, last, row) {
            Some(m) => {
                lemma_push_contains(
                    extend_row(pat, before, row),
                    row.union_prefer_right(m),
                    wide,
                );
                if wide == row.union_prefer_right(m) {
                    assert(came_from(pat, ts, row, wide, last));
                }
            },
            None => {},
        }
        if exists|t: TripleView| came_from(pat, before, row, wide, t) {
            let t = choose|t: TripleView| came_from(pat, before, row, wide, t);
            assert(came_from(pat, ts, row, wide, t));
        }
    } else {
        assert forall|t: TripleView| !came_from(pat, ts, row, wide, t) by {}
    }
}

proof fn lemma_concat_contains<A>(a: Seq<A>, b: Seq<A>, x: A)
    ensures
        (a + b).contains(x) <==> a.contains(x) || b.contains(x),
{
    if a.contains(x) {
        let i = a.index_of(x);
        assert((a + b)[i] == x);
    }
    if b.contains(x) {
        let i = b.index_of(x);
        assert((a + b)[a.len() + i] == x);
    }
    if (a + b).contains(x) {
        let i = (a + b).index_of(x);
        if i < a.len() {
            assert(a[i] == x);
        } else {
            assert(b[i - a.len()] == x);
        }
    }
}

/// Whether a row comes from extending another.
spec fn row_came_from(
    pat: TriplePatternView,
    all: Seq<TripleView>,
    rows: Seq<Map<Seq<char>, TermView>>,
    wide: Map<Seq<char>, TermView>,
    row: Map<Seq<char>, TermView>,
) -> bool {
    rows.contains(row) && extend_row(pat, candidates(pat, all, row), row).contains(wide)
}

proof fn lemma_extend_rows(
    pat: TriplePatternView,
    all: Seq<TripleView>,
    rows: Seq<Map<Seq<char>, TermView>>,
    wide: Map<Seq<char>, TermView>,
)
    ensures
        extend_rows(pat, all, rows).contains(wide) <==> exists|row: Map<Seq<char>, TermView>|
            row_came_from(pat, all, rows, wide, row),
    decreases rows.len(),
{
    if rows.len() > 0 {
        let before = rows.drop_last();
        let last = rows.last();
        lemma_extend_rows(pat, all, before, wide);
        assert(rows == before.push(last));
        let here = extend_row(pat, candidates(pat, all, last), last);
        lemma_concat_contains(extend_rows(pat, all, before), here, wide);
        lemma_push_contains(before, last, last);
        if here.contains(wide) {
            assert(row_came_from(pat, all, rows, wide, last));
        }
        if exists|row: Map<Seq<char>, TermView>| row_came_from(pat, all, before, wide, row) {
            let row = choose|row: Map<Seq<char>, TermView>|
                row_came_from(pat, all, before, wide, row);
            lemma_push_contains(before, last, row);
            assert(row_came_from(pat, all, rows, wide, row));
        }
        if exists|row: Map<Seq<char>, TermView>| row_came_from(pat, all, rows, wide, row) {
            let row = choose|row: Map<Seq<char>, TermView>|
                row_came_from(pat, all, rows, wide, row);
            lemma_push_contains(before, last, row);
            if row != last {
                assert(row_came_from(pat, all, before, wide, row));
            }
        }
    } else {
        assert forall|row: Map<Seq<char>, TermView>| !row_came_from(pat, all, rows, wide, row) by {}
    }
}

/// What one step of binding does.
proof fn lemma_bind_part(
    p: PatternTermView,
    term: TermView,
    row: Map<Seq<char>, TermView>,
    m: Map<Seq<char>, TermView>,
)
    requires
        forall|n: Seq<char>| #[trigger] m.dom().contains(n) ==> !row.dom().contains(n),
    ensures
        match bind_part(p, term, row, Some(m)) {
            Some(w) => {
                &&& extends(w, m)
                &&& forall|n: Seq<char>| #[trigger]
                    w.dom().contains(n) ==> !row.dom().contains(n) && (m.dom().contains(n) || p
                        == PatternTermView::Var(n))
                &&& p matches PatternTermView::Var(n) ==> {
                    let wide = row.union_prefer_right(w);
                    wide.dom().contains(n) && wide[n] == term
                }
            },
            None => p matches PatternTermView::Var(n) && ((row.dom().contains(n) && row[n] != term)
                || (m.dom().contains(n) && m[n] != term)),
        },
{
}

/// A triple that binds a pattern is the pattern's instance under the extended
/// row, and the extension holds what was bound before and nothing but the
/// pattern's variables beside it.
proof fn lemma_bind(
    pat: TriplePatternView,
    t: TripleView,
    row: Map<Seq<char>, TermView>,
    all: Seq<TripleView>,
)
    requires
        bind(pat, t, row) is Some,
        candidates(pat, all, row).contains(t),
    ensures
        ({
            let wide = row.union_prefer_right(bind(pat, t, row)->0);
            &&& extends(wide, row)
            &&& satisfied(pat, wide, all)
            &&& forall|n: Seq<char>| #[trigger]
                wide.dom().contains(n) <==> row.dom().contains(n) || mentions(pat, n)
        }),
{
    let m0 = Map::<Seq<char>, TermView>::empty();
    let m1 = bind_part(pat.subject, t.subject, row, Some(m0));
    lemma_bind_part(pat.subject, t.subject, row, m0);
    let m2 = bind_part(pat.predicate, t.predicate, row, m1);
    lemma_bind_part(pat.predicate, t.predicate, row, m1->0);
    let m3 = bind_part(pat.object, t.object, row, m2);
    lemma_bind_part(pat.object, t.object, row, m2->0);
    let wide = row.union_prefer_right(m3->0);
    law_matching_is_exact(
        all,
        resolved(pat.subject, row),
        resolved(pat.predicate, row),
        resolved(pat.object, row),
        t,
    );
    assert(part(t, Position::Subject) == t.subject);
    assert(resolved(pat.subject, wide) == Some(t.subject));
    assert(resolved(pat.predicate, wide) == Some(t.predicate));
    assert(resolved(pat.object, wide) == Some(t.object));
    assert(t == TripleView { subject: t.subject, predicate: t.predicate, object: t.object });
}

/// Whether a pattern mentions a variable.
pub open spec fn mentions(pat: TriplePatternView, n: Seq<char>) -> bool {
    pat.subject == PatternTermView::Var(n) || pat.predicate == PatternTermView::Var(n)
        || pat.object == PatternTermView::Var(n)
}

proof fn lemma_note_var(names: Seq<Seq<char>>, p: PatternTermView, n: Seq<char>)
    ensures
        note_var(names, p).contains(n) <==> names.contains(n) || p == PatternTermView::Var(n),
{
    if let PatternTermView::Var(x) = p {
        lemma_push_contains(names, x, n);
    }
}

pub proof fn lemma_pattern_variables(pats: Seq<TriplePatternView>, n: Seq<char>)
    requires
        pats.len() > 0,
    ensures
        pattern_variables(pats).contains(n) <==> pattern_variables(pats.drop_last()).contains(n)
            || mentions(pats.last(), n),
{
    let p = pats.last();
    let v0 = pattern_variables(pats.drop_last());
    lemma_note_var(v0, p.subject, n);
    lemma_note_var(note_var(v0, p.subject), p.predicate, n);
    lemma_note_var(note_var(note_var(v0, p.subject), p.predicate), p.object, n);
}

/// Whether a row binds exactly the variables of the patterns, and each pattern
/// to a stored triple.
pub open spec fn solves(
    pats: Seq<TriplePatternView>,
    row: Map<Seq<char>, TermView>,
    all: Seq<TripleView>,
) -> bool {
    &&& forall|n: Seq<char>| #[trigger]
        row.dom().contains(n) <==> pattern_variables(pats).contains(n)
    &&& forall|k: int| 0 <= k < pats.len() ==> satisfied(#[trigger] pats[k], row, all)
}

proof fn lemma_satisfied_extends(
    pat: TriplePatternView,
    row: Map<Seq<char>, TermView>,
    wide: Map<Seq<char>, TermView>,
    all: Seq<TripleView>,
)
    requires
        satisfied(pat, row, all),
        extends(wide, row),
    ensures
        satisfied(pat, wide, all),
{
}

proof fn lemma_join_sound(
    pats: Seq<TriplePatternView>,
    all: Seq<TripleView>,
    wide: Map<Seq<char>, TermView>,
)
    requires
        joined(pats, all).contains(wide),
    ensures
        solves(pats, wide, all),
    decreases pats.len(),
{
    if pats.len() > 0 {
        let pat = pats.last();
        let rows = joined(pats.drop_last(), all);
        lemma_extend_rows(pat, all, rows, wide);
        let row = choose|row: Map<Seq<char>, TermView>| row_came_from(pat, all, rows, wide, row);
        lemma_join_sound(pats.drop_last(), all, row);
        let ts = candidates(pat, all, row);
        lemma_extend_row(pat, ts, row, wide);
        let t = choose|t: TripleView| came_from(pat, ts, row, wide, t);
        lemma_bind(pat, t, row, all);
        assert forall|n: Seq<char>| #[trigger]
            wide.dom().contains(n) <==> pattern_variables(pats).contains(n) by {
            lemma_pattern_variables(pats, n);
        }
        assert forall|k: int| 0 <= k < pats.len() implies satisfied(#[trigger] pats[k], wide, all) by {
            if k < pats.len() - 1 {
                assert(pats.drop_last()[k] == pats[k]);
                lemma_satisfied_extends(pats[k], row, wide, all);
            }
        }
    } else {
        assert(wide == Map::<Seq<char>, TermView>::empty());
    }
}

proof fn lemma_join_complete(
    pats: Seq<TriplePatternView>,
    all: Seq<TripleView>,
    wide: Map<Seq<char>, TermView>,
)
    requires
        solves(pats, wide, all),
    ensures
        joined(pats, all).contains(wide),
    decreases pats.len(),
{
    if pats.len() > 0 {
        let pat = pats.last();
        let before = pats.drop_last();
        let names = pattern_variables(before);
        let row = Map::new(
            |n: Seq<char>| wide.dom().contains(n) && names.contains(n),
            |n: Seq<char>| wide[n],
        );
        assert forall|n: Seq<char>| #[trigger] row.dom().contains(n) <==> names.contains(n) by {
            lemma_pattern_variables(pats, n);
        }
        assert forall|k: int| 0 <= k < before.len() implies satisfied(
            #[trigger] before[k],
            row,
            all,
        ) by {
            assert(before[k] == pats[k]);
            assert(satisfied(pats[k], wide, all));
            assert forall|n: Seq<char>| mentions(before[k], n) implies names.contains(n) by {
                lemma_mentioned(before, k, n);
            }
        }
        lemma_join_complete(before, all, row);
        let t = TripleView {
            subject: resolved(pat.subject, wide)->0,
            predicate: resolved(pat.predicate, wide)->0,
            object: resolved(pat.object, wide)->0,
        };
        assert(satisfied(pats[pats.len() - 1], wide, all));
        assert(all.contains(t));
        law_matching_is_exact(
            all,
            resolved(pat.subject, row),
            resolved(pat.predicate, row),
            resolved(pat.object, row),
            t,
        );
        assert(triple_matches(
            t,
            resolved(pat.subject, row),
            resolved(pat.predicate, row),
            resolved(pat.object, row),
        ));
        let m0 = Map::<Seq<char>, TermView>::empty();
        lemma_bind_part(pat.subject, t.subject, row, m0);
        let m1 = bind_part(pat.subject, t.subject, row, Some(m0));
        assert(m1 is Some);
        assert(extends(wide, m1->0));
        lemma_bind_part(pat.predicate, t.predicate, row, m1->0);
        let m2 = bind_part(pat.predicate, t.predicate, row, m1);
        assert(m2 is Some);
        assert(extends(wide, m2->0));
        lemma_bind_part(pat.object, t.object, row, m2->0);
        let m3 = bind_part(pat.object, t.object, row, m2);
        assert(m3 is Some);
        assert(extends(wide, m3->0));
        lemma_bind(pat, t, row, all);
        assert forall|n: Seq<char>| wide.dom().contains(n) <==> row.union_prefer_right(
            m3->0,
        ).dom().contains(n) by {
            lemma_pattern_variables(pats, n);
        }
        assert(row.union_prefer_right(m3->0) =~= wide);
        let ts = candidates(pat, all, row);
        assert(came_from(pat, ts, row, wide, t));
        lemma_extend_row(pat, ts, row, wide);
        assert(row_came_from(pat, all, joined(before, all), wide, row));
        lemma_extend_rows(pat, all, joined(before, all), wide);
    } else {
        assert(wide =~= Map::<Seq<char>, TermView>::empty());
        assert(joined(pats, all)[0] == wide);
    }
}

pub proof fn lemma_mentioned(pats: Seq<TriplePatternView>, k: int, n: Seq<char>)
    requires
        0 <= k < pats.len(),
        mentions(pats[k], n),
    ensures
        pattern_variables(pats).contains(n),
    decreases pats.len(),
{
    lemma_pattern_variables(pats, n);
    if k < pats.len() - 1 {
        assert(pats.drop_last()[k] == pats[k]);
        lemma_mentioned(pats.drop_last(), k, n);
    }
}

/// The join of patterns finds exactly the rows that bind the patterns'
/// variables, and no others, such that every pattern becomes a stored triple.
pub proof fn law_join_finds_solutions(
    pats: Seq<TriplePatternView>,
    all: Seq<TripleView>,
    row: Map<Seq<char>, TermView>,
)
    ensures
        joined(pats, all).contains(row) <==> solves(pats, row, all),
{
    if joined(pats, all).contains(row) {
        lemma_join_sound(pats, all, row);
    }
    if solves(pats, row, all) {
        lemma_join_complete(pats, all, row);
    }
}

} // verus!
