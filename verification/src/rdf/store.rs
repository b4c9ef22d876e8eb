//! The triple store: every triple once, in the order of insertion, with one
//! index for each position of a triple.

use vstd::prelude::*;

use crate::error::CenResult;
use crate::rdf::{triple_ref_views, triple_views, RdfTerm, TermView, Triple, TripleView};
use crate::sequences::{
    lemma_filter_agree, lemma_filter_commutes, lemma_filter_contains, lemma_filter_no_duplicates,
    lemma_filter_out_one, lemma_filter_push, lemma_filter_twice, lemma_push_contains,
};

verus! {

/// A position of a triple.
#[derive(Clone, Copy, Debug, PartialEq, Eq, Structural)]
pub enum Position {
    Subject,
    Predicate,
    Object,
}

/// The term that stands in a position of a triple.
pub open spec fn part(t: TripleView, at: Position) -> TermView {
    match at {
        Position::Subject => t.subject,
        Position::Predicate => t.predicate,
        Position::Object => t.object,
    }
}

/// Whether a triple has the given term in the given position; no term accepts
/// any.
pub open spec fn part_matches(t: TripleView, at: Position, term: Option<TermView>) -> bool {
    match term {
        None => true,
        Some(x) => part(t, at) == x,
    }
}

/// Whether a triple matches a pattern of three optional terms.
pub open spec fn triple_matches(
    t: TripleView,
    s: Option<TermView>,
    p: Option<TermView>,
    o: Option<TermView>,
) -> bool {
    part_matches(t, Position::Subject, s) && part_matches(t, Position::Predicate, p)
        && part_matches(t, Position::Object, o)
}

/// The triples that match a pattern, in their order.
pub open spec fn matching(
    all: Seq<TripleView>,
    s: Option<TermView>,
    p: Option<TermView>,
    o: Option<TermView>,
) -> Seq<TripleView> {
    all.filter(|t: TripleView| triple_matches(t, s, p, o))
}

/// The triples with a given term in a given position, in their order.
pub open spec fn with_part(all: Seq<TripleView>, at: Position, term: TermView) -> Seq<TripleView> {
    all.filter(|t: TripleView| part(t, at) == term)
}

/// The condition of being another triple than `x`.
pub open spec fn other_than(x: TripleView) -> spec_fn(TripleView) -> bool {
    |t: TripleView| t != x
}

/// The triples other than the given one, in their order.
pub open spec fn without(all: Seq<TripleView>, x: TripleView) -> Seq<TripleView> {
    all.filter(other_than(x))
}

/// The value of an optional term.
pub open spec fn term_option(t: Option<&RdfTerm>) -> Option<TermView> {
    match t {
        None => None,
        Some(x) => Some(x@),
    }
}

fn part_of(t: &Triple, at: Position) -> (r: &RdfTerm)
    ensures
        r@ == part(t@, at),
{
    match at {
        Position::Subject => &t.subject,
        Position::Predicate => &t.predicate,
        Position::Object => &t.object,
    }
}

/// For one position, the triples grouped by the term that stands there.
struct TermIndex {
    at: Position,
    keys: Vec<RdfTerm>,
    buckets: Vec<Vec<Triple>>,
}

impl TermIndex {
    /// The groups are those of `all`: each key once, each group in order, and a
    /// group for every term that occurs.
    spec fn indexes(&self, all: Seq<TripleView>) -> bool {
        &&& self.keys@.len() == self.buckets@.len()
        &&& forall|i: int, j: int|
            0 <= i < j < self.keys@.len() ==> (#[trigger] self.keys@[i])@ != (
            #[trigger] self.keys@[j])@
        &&& forall|i: int|
            0 <= i < self.keys@.len() ==> triple_views((#[trigger] self.buckets@[i])@) == with_part(
                all,
                self.at,
                self.keys@[i]@,
            )
        &&& forall|t: TripleView|
            #[trigger] all.contains(t) ==> exists|i: int|
                0 <= i < self.keys@.len() && (#[trigger] self.keys@[i])@ == part(t, self.at)
    }

    fn new(at: Position) -> (res: Self)
        ensures
            res.at == at,
            res.indexes(Seq::empty()),
    {
        let res = TermIndex { at, keys: Vec::new(), buckets: Vec::new() };
        assert forall|t: TripleView| !Seq::<TripleView>::empty().contains(t) by {}
        res
    }

    /// The place of a key, or the number of keys.
    fn find(&self, key: &RdfTerm) -> (r: usize)
        requires
            self.keys@.len() == self.buckets@.len(),
        ensures
            r <= self.keys@.len(),
            r < self.keys@.len() ==> self.keys@[r as int]@ == key@,
            r == self.keys@.len() ==> forall|i: int|
                0 <= i < self.keys@.len() ==> (#[trigger] self.keys@[i])@ != key@,
    {
        let mut i: usize = 0;
        while i < self.keys.len()
            invariant
                i <= self.keys@.len(),
                forall|j: int| 0 <= j < i ==> (#[trigger] self.keys@[j])@ != key@,
            decreases self.keys@.len() - i,
        {
            if self.keys[i] == *key {
                return i;
            }
            i = i + 1;
        }
        i
    }

    fn add(&mut self, t: &Triple, Ghost(all): Ghost<Seq<TripleView>>)
        requires
            old(self).indexes(all),
        ensures
            final(self).at == old(self).at,
            final(self).indexes(all.push(t@)),
    {
        let key: &RdfTerm = part_of(t, self.at);
        let i: usize = self.find(key);
        let ghost before = *self;
        let ghost wide = all.push(t@);
        proof {
            assert forall|term: TermView| #[trigger]
                with_part(wide, before.at, term) == (if part(t@, before.at) == term {
                    with_part(all, before.at, term).push(t@)
                } else {
                    with_part(all, before.at, term)
                }) by {
                lemma_filter_push(all, t@, |x: TripleView| part(x, before.at) == term);
            }
            assert forall|x: TripleView| #[trigger] wide.contains(x) implies all.contains(x) || x
                == t@ by {
                lemma_push_contains(all, t@, x);
            }
        }
        if i < self.keys.len() {
            let ghost group = self.buckets@[i as int]@;
            self.buckets[i].push(t.clone());
            proof {
                assert(triple_views(self.buckets@[i as int]@) == triple_views(group).push(t@));
                assert forall|x: TripleView| #[trigger] wide.contains(x) implies exists|j: int|
                    0 <= j < self.keys@.len() && (#[trigger] self.keys@[j])@ == part(x, self.at) by {
                    if !all.contains(x) {
                        assert(self.keys@[i as int]@ == part(x, self.at));
                    }
                }
            }
        } else {
            proof {
                assert(with_part(all, self.at, key@) == Seq::<TripleView>::empty()) by {
                    let hits = with_part(all, self.at, key@);
                    if hits.len() > 0 {
                        let x = hits[0];
                        assert(hits.contains(x));
                        lemma_filter_contains(all, |y: TripleView| part(y, self.at) == key@, x);
                    }
                }
            }
            let mut group: Vec<Triple> = Vec::new();
            group.push(t.clone());
            let ghost fresh = group@;
            self.keys.push(key.clone());
            self.buckets.push(group);
            proof {
                assert(triple_views(fresh) == Seq::<TripleView>::empty().push(t@));
                let n = before.keys@.len() as int;
                assert(self.keys@[n]@ == key@);
                assert forall|j: int| 0 <= j < n implies self.keys@[j] == before.keys@[j]
                    && self.buckets@[j] == before.buckets@[j] by {}
                assert forall|x: TripleView| #[trigger] wide.contains(x) implies exists|j: int|
                    0 <= j < self.keys@.len() && (#[trigger] self.keys@[j])@ == part(x, self.at) by {
                    if all.contains(x) {
                        let j = choose|j: int|
                            0 <= j < before.keys@.len() && (#[trigger] before.keys@[j])@ == part(
                                x,
                                before.at,
                            );
                        assert(self.keys@[j]@ == part(x, self.at));
                    }
                }
            }
        }
    }

    fn drop(&mut self, t: &Triple, Ghost(all): Ghost<Seq<TripleView>>)
        requires
            old(self).indexes(all),
        ensures
            final(self).at == old(self).at,
            final(self).indexes(without(all, t@)),
    {
        let key: &RdfTerm = part_of(t, self.at);
        let i: usize = self.find(key);
        let ghost before = *self;
        let ghost narrow = without(all, t@);
        proof {
            assert forall|term: TermView| #[trigger]
                with_part(narrow, before.at, term) == without(with_part(all, before.at, term), t@) by {
                lemma_filter_commutes(
                    all,
                    other_than(t@),
                    |x: TripleView| part(x, before.at) == term,
                );
            }
            assert forall|x: TripleView| #[trigger] narrow.contains(x) implies all.contains(x) by {
                lemma_filter_contains(all, other_than(t@), x);
            }
            assert forall|j: int| 0 <= j < before.keys@.len() && j != i implies without(
                with_part(all, before.at, (#[trigger] before.keys@[j])@),
                t@,
            ) == with_part(all, before.at, before.keys@[j]@) by {
                let group = with_part(all, before.at, before.keys@[j]@);
                assert(before.keys@[j]@ != key@);
                assert forall|k: int| 0 <= k < group.len() implies #[trigger] group[k] != t@ by {
                    assert(group.contains(group[k]));
                    lemma_filter_contains(
                        all,
                        |y: TripleView| part(y, before.at) == before.keys@[j]@,
                        group[k],
                    );
                }
                lemma_filter_agree(group, other_than(t@), |x: TripleView| true);
                lemma_keep_all(group);
            }
        }
        if i < self.keys.len() {
            let kept: Vec<Triple> = others(&self.buckets[i], t);
            let ghost kept_seq = kept@;
            self.buckets.set(i, kept);
            proof {
                assert(self.buckets@[i as int]@ == kept_seq);
                assert forall|j: int| 0 <= j < self.keys@.len() && j != i implies self.buckets@[j]
                    == before.buckets@[j] by {}
            }
        }
        proof {
            assert(self.keys@ == before.keys@);
        }
    }

    fn get(&self, key: &RdfTerm, Ghost(all): Ghost<Seq<TripleView>>) -> (r: Vec<&Triple>)
        requires
            self.indexes(all),
        ensures
            triple_ref_views(r@) == with_part(all, self.at, key@),
    {
        let i: usize = self.find(key);
        if i < self.keys.len() {
            let group: &Vec<Triple> = &self.buckets[i];
            let r: Vec<&Triple> = refs(group);
            proof {
                assert(triple_ref_views(r@) == triple_views(group@));
            }
            r
        } else {
            let r: Vec<&Triple> = Vec::new();
            proof {
                let hits = with_part(all, self.at, key@);
                if hits.len() > 0 {
                    let x = hits[0];
                    assert(hits.contains(x));
                    lemma_filter_contains(all, |y: TripleView| part(y, self.at) == key@, x);
                }
                assert(triple_ref_views(r@) == hits);
            }
            r
        }
    }
}

/// Selecting everything changes nothing.
proof fn lemma_keep_all(s: Seq<TripleView>)
    ensures
        s.filter(|x: TripleView| true) == s,
    decreases s.len(),
{
    reveal(Seq::filter);
    if s.len() > 0 {
        lemma_keep_all(s.drop_last());
        assert(s == s.drop_last().push(s.last()));
    }
}

/// The triples of a list other than the given one.
fn others(list: &Vec<Triple>, t: &Triple) -> (r: Vec<Triple>)
    ensures
        triple_views(r@) == without(triple_views(list@), t@),
{
    let mut out: Vec<Triple> = Vec::new();
    let mut i: usize = 0;
    proof {
        reveal(Seq::filter);
        assert(triple_views(list@).take(0) == Seq::<TripleView>::empty());
    }
    while i < list.len()
        invariant
            i <= list@.len(),
            triple_views(out@) == without(triple_views(list@).take(i as int), t@),
        decreases list@.len() - i,
    {
        proof {
            let all = triple_views(list@);
            assert(all.take(i + 1) == all.take(i as int).push(list@[i as int]@));
            lemma_filter_push(all.take(i as int), list@[i as int]@, other_than(t@));
        }
        if list[i] != *t {
            let ghost before = out@;
            out.push(list[i].clone());
            assert(triple_views(out@) == triple_views(before).push(list@[i as int]@));
        }
        i = i + 1;
    }
    assert(triple_views(list@).take(i as int) == triple_views(list@));
    out
}

/// References to the triples of a list.
fn refs(list: &Vec<Triple>) -> (r: Vec<&Triple>)
    ensures
        triple_ref_views(r@) == triple_views(list@),
{
    let mut out: Vec<&Triple> = Vec::new();
    let mut i: usize = 0;
    while i < list.len()
        invariant
            i <= list@.len(),
            out@.len() == i,
            forall|j: int| 0 <= j < i ==> (#[trigger] out@[j])@ == list@[j]@,
        decreases list@.len() - i,
    {
        out.push(&list[i]);
        i = i + 1;
    }
    assert(triple_ref_views(out@) =~= triple_views(list@));
    out
}

/// An in-memory RDF triple store.
pub struct TripleStore {
    triples: Vec<Triple>,
    idx_s: TermIndex,
    idx_p: TermIndex,
    idx_o: TermIndex,
}

impl View for TripleStore {
    type V = Seq<TripleView>;

    closed spec fn view(&self) -> Seq<TripleView> {
        triple_views(self.triples@)
    }
}

impl TripleStore {
    /// No triple is held twice, and the three indexes agree with the triples.
    pub closed spec fn wf(&self) -> bool {
        &&& self@.no_duplicates()
        &&& self.idx_s.at == Position::Subject
        &&& self.idx_p.at == Position::Predicate
        &&& self.idx_o.at == Position::Object
        &&& self.idx_s.indexes(self@)
        &&& self.idx_p.indexes(self@)
        &&& self.idx_o.indexes(self@)
    }

    /// A well-formed store holds no triple twice.
    pub proof fn law_no_duplicates(&self)
        requires
            self.wf(),
        ensures
            self@.no_duplicates(),
    {
    }

    /// An empty store.
    pub fn new() -> (res: Self)
        ensures
            res.wf(),
            res@ == Seq::<TripleView>::empty(),
    {
        let res = TripleStore {
            triples: Vec::new(),
            idx_s: TermIndex::new(Position::Subject),
            idx_p: TermIndex::new(Position::Predicate),
            idx_o: TermIndex::new(Position::Object),
        };
        assert(res@ =~= Seq::<TripleView>::empty());
        res
    }

    /// Adds a triple. Returns whether it was new.
    pub fn insert(&mut self, triple: Triple) -> (res: CenResult<bool>)
        requires
            old(self).wf(),
        ensures
            final(self).wf(),
            res == Ok::<bool, crate::error::CenError>(!old(self)@.contains(triple@)),
            final(self)@ == (if old(self)@.contains(triple@) {
                old(self)@
            } else {
                old(self)@.push(triple@)
            }),
    {
        if self.contains(&triple) {
            return Ok(false);
        }
        let ghost all = self@;
        self.idx_s.add(&triple, Ghost(all));
        self.idx_p.add(&triple, Ghost(all));
        self.idx_o.add(&triple, Ghost(all));
        let ghost value = triple@;
        self.triples.push(triple);
        proof {
            assert(self@ =~= all.push(value));
            assert forall|i: int, j: int| 0 <= i < j < self@.len() implies self@[i] != self@[j] by {
                if j == all.len() {
                    assert(all.contains(all[i]));
                }
            }
        }
        Ok(true)
    }

    /// Removes a triple. Returns whether it was present.
    pub fn remove(&mut self, triple: &Triple) -> (res: CenResult<bool>)
        requires
            old(self).wf(),
        ensures
            final(self).wf(),
            res == Ok::<bool, crate::error::CenError>(old(self)@.contains(triple@)),
            final(self)@ == without(old(self)@, triple@),
    {
        let ghost all = self@;
        proof {
            lemma_filter_out_one(all, triple@, other_than(triple@));
            lemma_filter_no_duplicates(all, other_than(triple@));
        }
        if !self.contains(triple) {
            return Ok(false);
        }
        self.idx_s.drop(triple, Ghost(all));
        self.idx_p.drop(triple, Ghost(all));
        self.idx_o.drop(triple, Ghost(all));
        self.triples = others(&self.triples, triple);
        Ok(true)
    }

    /// The number of triples.
    pub fn len(&self) -> (r: usize)
        ensures
            r == self@.len(),
    {
        self.triples.len()
    }

    /// Whether the store holds no triple.
    pub fn is_empty(&self) -> (r: bool)
        ensures
            r == (self@.len() == 0),
    {
        self.triples.len() == 0
    }

    /// Whether the store holds the triple.
    pub fn contains(&self, triple: &Triple) -> (r: bool)
        ensures
            r == self@.contains(triple@),
    {
        let mut i: usize = 0;
        while i < self.triples.len()
            invariant
                i <= self.triples@.len(),
                forall|j: int| 0 <= j < i ==> self@[j] != triple@,
            decreases self.triples@.len() - i,
        {
            if self.triples[i] == *triple {
                assert(self@[i as int] == triple@);
                return true;
            }
            i = i + 1;
        }
        false
    }

    /// All triples, in the order of insertion.
    pub fn iter(&self) -> (r: Vec<&Triple>)
        ensures
            triple_ref_views(r@) == self@,
    {
        refs(&self.triples)
    }

    /// The triples that match a pattern, in the order of insertion; an absent
    /// term matches any. A bound subject, else predicate, else object narrows
    /// the search to one group of its index.
    pub fn match_pattern(
        &self,
        s: Option<&RdfTerm>,
        p: Option<&RdfTerm>,
        o: Option<&RdfTerm>,
    ) -> (r: Vec<&Triple>)
        requires
            self.wf(),
        ensures
            triple_ref_views(r@) == matching(
                self@,
                term_option(s),
                term_option(p),
                term_option(o),
            ),
    {
        let ghost sv = term_option(s);
        let ghost pv = term_option(p);
        let ghost ov = term_option(o);
        let ghost all = self@;
        let ghost wanted = |t: TripleView| triple_matches(t, sv, pv, ov);
        let candidates: Vec<&Triple> = match (s, p, o) {
            (Some(st), _, _) => {
                proof {
                    lemma_filter_twice(
                        all,
                        |t: TripleView| part(t, Position::Subject) == st@,
                        wanted,
                        wanted,
                    );
                }
                self.idx_s.get(st, Ghost(all))
            },
            (None, Some(pt), _) => {
                proof {
                    lemma_filter_twice(
                        all,
                        |t: TripleView| part(t, Position::Predicate) == pt@,
                        wanted,
                        wanted,
                    );
                }
                self.idx_p.get(pt, Ghost(all))
            },
            (None, None, Some(ot)) => {
                proof {
                    lemma_filter_twice(
                        all,
                        |t: TripleView| part(t, Position::Object) == ot@,
                        wanted,
                        wanted,
                    );
                }
                self.idx_o.get(ot, Ghost(all))
            },
            (None, None, None) => refs(&self.triples),
        };
        let ghost from = triple_ref_views(candidates@);
        assert(from.filter(wanted) == matching(all, sv, pv, ov));
        let mut out: Vec<&Triple> = Vec::new();
        let mut i: usize = 0;
        proof {
            reveal(Seq::filter);
            assert(from.take(0) == Seq::<TripleView>::empty());
        }
        while i < candidates.len()
            invariant
                i <= candidates@.len(),
                from == triple_ref_views(candidates@),
                sv == term_option(s),
                pv == term_option(p),
                ov == term_option(o),
                wanted == (|t: TripleView| triple_matches(t, sv, pv, ov)),
                triple_ref_views(out@) == from.take(i as int).filter(wanted),
            decreases candidates@.len() - i,
        {
            let t: &Triple = candidates[i];
            proof {
                assert(from.take(i + 1) == from.take(i as int).push(t@));
                lemma_filter_push(from.take(i as int), t@, wanted);
            }
            let hit_s: bool = match s {
                None => true,
                Some(x) => t.subject == *x,
            };
            let hit_p: bool = match p {
                None => true,
                Some(x) => t.predicate == *x,
            };
            let hit_o: bool = match o {
                None => true,
                Some(x) => t.object == *x,
            };
            if hit_s && hit_p && hit_o {
                let ghost before = out@;
                out.push(t);
                assert(triple_ref_views(out@) == triple_ref_views(before).push(t@));
            }
            i = i + 1;
        }
        assert(from.take(i as int) == from);
        out
    }
}

impl Default for TripleStore {
    fn default() -> (res: Self)
        ensures
            res.wf(),
            res@ == Seq::<TripleView>::empty(),
    {
        TripleStore::new()
    }
}

/// Inserting a triple and removing it again leaves a store that did not hold
/// it as it was.
pub proof fn law_remove_undoes_insert(all: Seq<TripleView>, x: TripleView)
    requires
        all.no_duplicates(),
        !all.contains(x),
    ensures
        without(all.push(x), x) == all,
{
    lemma_filter_push(all, x, other_than(x));
    lemma_filter_out_one(all, x, other_than(x));
}

/// A pattern finds exactly the held triples that agree with its bound terms.
pub proof fn law_matching_is_exact(
    all: Seq<TripleView>,
    s: Option<TermView>,
    p: Option<TermView>,
    o: Option<TermView>,
    x: TripleView,
)
    ensures
        matching(all, s, p, o).contains(x) <==> all.contains(x) && triple_matches(x, s, p, o),
{
    lemma_filter_contains(all, |t: TripleView| triple_matches(t, s, p, o), x);
}

/// A pattern without bound terms finds every triple.
pub proof fn law_wildcard_finds_all(all: Seq<TripleView>)
    ensures
        matching(all, None, None, None) == all,
{
    lemma_filter_agree(
        all,
        |t: TripleView| triple_matches(t, None, None, None),
        |t: TripleView| true,
    );
    lemma_keep_all(all);
}

} // verus!
