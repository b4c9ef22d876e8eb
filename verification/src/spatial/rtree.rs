//! An index of boxes and geometries, searched entry by entry.

use vstd::prelude::*;

use crate::sequences::lemma_filter_push;
use crate::floats::{at_most, bits_at_most, bits_less, is_nan, less, order_key};
use crate::spatial::distance::{distance, shape_distance, Lengths, Measure, Ruler};
use crate::spatial::geometry::{
    law_common_point_meets, point_box, shape_box, BoundingBox, Geometry, Point, Shape,
};
use crate::spatial::plane::{Coord, Plane, PlaneView, Question};
use crate::spatial::predicates::{
    contains, contains_relation, intersects, shapes_meet,
};

verus! {

/// An entry: a box, the number of a row, and a geometry where one is stored.
#[derive(Debug)]
pub struct RTreeEntry {
    pub bbox: BoundingBox,
    pub id: u64,
    pub geometry: Option<Geometry<u64>>,
}

/// An index of boxes.
#[derive(Debug)]
pub struct RTree {
    pub entries: Vec<RTreeEntry>,
}

/// The box that stands for a geometry that holds no point.
pub open spec fn zero_box() -> BoundingBox {
    BoundingBox { min_x: 0, min_y: 0, max_x: 0, max_y: 0 }
}

/// Entries whose box meets a box.
pub open spec fn meeting(q: BoundingBox) -> spec_fn(RTreeEntry) -> bool {
    |e: RTreeEntry| e.bbox.meets(q)
}

/// Entries whose box holds a point.
pub open spec fn holding(p: (u64, u64)) -> spec_fn(RTreeEntry) -> bool {
    |e: RTreeEntry| e.bbox.holds(p)
}

/// The numbers of entries.
pub open spec fn ids(s: Seq<RTreeEntry>) -> Seq<u64> {
    s.map_values(|e: RTreeEntry| e.id)
}

/// Whether an entry meets a geometry: its box meets that of the geometry, and
/// where it stores a geometry the two meet.
pub open spec fn entry_meets(w: PlaneView, e: RTreeEntry, g: Shape<u64>, q: BoundingBox) -> bool {
    e.bbox.meets(q) && match e.geometry {
        Some(x) => shapes_meet(w, x@, g),
        None => true,
    }
}

/// The first `n` entries that meet a geometry.
pub open spec fn meeting_ids(
    w: PlaneView,
    s: Seq<RTreeEntry>,
    g: Shape<u64>,
    q: BoundingBox,
    n: int,
) -> Seq<u64>
    decreases n,
{
    if n <= 0 {
        seq![]
    } else if entry_meets(w, s[n - 1], g, q) {
        meeting_ids(w, s, g, q, n - 1).push(s[n - 1].id)
    } else {
        meeting_ids(w, s, g, q, n - 1)
    }
}

/// Whether an entry contains a geometry: its box holds that of the geometry,
/// and where it stores a geometry that contains the other.
pub open spec fn entry_contains(
    w: PlaneView,
    e: RTreeEntry,
    g: Shape<u64>,
    q: BoundingBox,
) -> bool {
    e.bbox.holds_box(q) && match e.geometry {
        Some(x) => contains_relation(w, x@, g),
        None => true,
    }
}

/// The first `n` entries that contain a geometry.
pub open spec fn containing_ids(
    w: PlaneView,
    s: Seq<RTreeEntry>,
    g: Shape<u64>,
    q: BoundingBox,
    n: int,
) -> Seq<u64>
    decreases n,
{
    if n <= 0 {
        seq![]
    } else if entry_contains(w, s[n - 1], g, q) {
        containing_ids(w, s, g, q, n - 1).push(s[n - 1].id)
    } else {
        containing_ids(w, s, g, q, n - 1)
    }
}

/// Arithmetic on boxes, as it is handed in.
pub struct Gauge<N, C> {
    /// Whether two boxes are within the distance of the query.
    pub near: N,
    /// The middle of a box.
    pub center: C,
}

/// Arithmetic on boxes.
pub struct GaugeView {
    pub near: spec_fn(BoundingBox, BoundingBox) -> bool,
    pub center: spec_fn(BoundingBox) -> Coord,
}

impl<N: Fn(BoundingBox, BoundingBox) -> bool, C: Fn(BoundingBox) -> Coord> Gauge<N, C> {
    /// Every question is answered, and always in the same way.
    pub open spec fn steady(&self) -> bool {
        &&& forall|a: BoundingBox, b: BoundingBox| #[trigger] self.near.requires((a, b))
        &&& forall|a: BoundingBox, b: BoundingBox, r: bool, s: bool|
            #[trigger] self.near.ensures((a, b), r) && #[trigger] self.near.ensures((a, b), s)
                ==> r == s
        &&& forall|a: BoundingBox| #[trigger] self.center.requires((a,))
        &&& forall|a: BoundingBox, r: Coord, s: Coord|
            #[trigger] self.center.ensures((a,), r) && #[trigger] self.center.ensures((a,), s)
                ==> r == s
    }

    fn is_near(&self, a: BoundingBox, b: BoundingBox) -> (r: bool)
        requires
            self.steady(),
        ensures
            r == (self@.near)(a, b),
    {
        (self.near)(a, b)
    }

    fn middle_of(&self, a: BoundingBox) -> (r: Coord)
        requires
            self.steady(),
        ensures
            r == (self@.center)(a),
    {
        (self.center)(a)
    }
}

impl<N: Fn(BoundingBox, BoundingBox) -> bool, C: Fn(BoundingBox) -> Coord> View for Gauge<N, C> {
    type V = GaugeView;

    open spec fn view(&self) -> GaugeView {
        GaugeView {
            near: |a: BoundingBox, b: BoundingBox| choose|r: bool| self.near.ensures((a, b), r),
            center: |a: BoundingBox| choose|r: Coord| self.center.ensures((a,), r),
        }
    }
}

/// The number of an entry and its distance.
pub type Hit = (u64, u64);

/// The distance of an entry from a geometry: that of its geometry, or of the
/// middle of its box where it stores none.
pub open spec fn entry_distance(
    w: PlaneView,
    d: Lengths,
    u: GaugeView,
    e: RTreeEntry,
    g: Shape<u64>,
) -> u64 {
    match e.geometry {
        Some(x) => shape_distance(w, d, x@, g),
        None => shape_distance(w, d, Shape::Point((u.center)(e.bbox)), g),
    }
}

/// The first `n` entries with their distances, as far as their box is near and
/// their distance is within the limit.
pub open spec fn near_hits(
    w: PlaneView,
    d: Lengths,
    u: GaugeView,
    s: Seq<RTreeEntry>,
    g: Shape<u64>,
    q: BoundingBox,
    limit: u64,
    n: int,
) -> Seq<Hit>
    decreases n,
{
    if n <= 0 {
        seq![]
    } else {
        let found = near_hits(w, d, u, s, g, q, limit, n - 1);
        let far = entry_distance(w, d, u, s[n - 1], g);
        if (u.near)(s[n - 1].bbox, q) && at_most(far, limit) {
            found.push((s[n - 1].id, far))
        } else {
            found
        }
    }
}

/// Where a hit goes among the first `n` sorted ones: behind all that are not
/// farther.
pub open spec fn hit_place(sorted: Seq<Hit>, x: Hit, n: int) -> int
    decreases n,
{
    if n > 0 && less(x.1, sorted[n - 1].1) {
        hit_place(sorted, x, n - 1)
    } else {
        n
    }
}

/// The first `n` hits sorted by distance; equal ones keep their order.
pub open spec fn sorted_hits(hits: Seq<Hit>, n: int) -> Seq<Hit>
    decreases n,
{
    if n <= 0 {
        seq![]
    } else {
        let before = sorted_hits(hits, n - 1);
        before.insert(hit_place(before, hits[n - 1], before.len() as int), hits[n - 1])
    }
}

/// Every entry with the distance of its box.
pub open spec fn all_hits(s: Seq<RTreeEntry>, apart: spec_fn(BoundingBox) -> u64) -> Seq<Hit> {
    Seq::new(s.len(), |k: int| (s[k].id, apart(s[k].bbox)))
}

/// The distance of the middle of a box from a point, as it is handed in.
pub struct Reach<A> {
    pub apart: A,
}

impl<A: Fn(BoundingBox) -> u64> Reach<A> {
    /// Every distance is given, and always the same.
    pub open spec fn steady(&self) -> bool {
        &&& forall|b: BoundingBox| #[trigger] self.apart.requires((b,))
        &&& forall|b: BoundingBox, r: u64, s: u64|
            #[trigger] self.apart.ensures((b,), r) && #[trigger] self.apart.ensures((b,), s) ==> r
                == s
    }

    fn far(&self, b: BoundingBox) -> (r: u64)
        requires
            self.steady(),
        ensures
            r == self@(b),
    {
        (self.apart)(b)
    }
}

impl<A: Fn(BoundingBox) -> u64> View for Reach<A> {
    type V = spec_fn(BoundingBox) -> u64;

    open spec fn view(&self) -> spec_fn(BoundingBox) -> u64 {
        |b: BoundingBox| choose|r: u64| self.apart.ensures((b,), r)
    }
}

/// The first items, at most `k` of them.
pub open spec fn at_most_first(s: Seq<Hit>, k: int) -> Seq<Hit> {
    if k < s.len() {
        s.take(k)
    } else {
        s
    }
}

fn sort_hits(hits: &Vec<Hit>) -> (r: Vec<Hit>)
    ensures
        r@ == sorted_hits(hits@, hits@.len() as int),
{
    let mut out: Vec<Hit> = Vec::new();
    let mut n: usize = 0;
    while n < hits.len()
        invariant
            n <= hits@.len(),
            out@ == sorted_hits(hits@, n as int),
        decreases hits@.len() - n,
    {
        let x: Hit = hits[n];
        let mut p: usize = out.len();
        while p > 0 && bits_less(x.1, out[p - 1].1)
            invariant
                p <= out@.len(),
                hit_place(out@, x, p as int) == hit_place(out@, x, out@.len() as int),
            decreases p,
        {
            p = p - 1;
        }
        out.insert(p, x);
        n = n + 1;
    }
    out
}

impl RTree {
    /// An empty index.
    pub fn new() -> (res: Self)
        ensures
            res.entries@ == Seq::<RTreeEntry>::empty(),
    {
        RTree { entries: Vec::new() }
    }

    /// Adds a point.
    pub fn insert_point(&mut self, id: u64, p: Point<u64>)
        ensures
            final(self).entries@ == old(self).entries@.push(
                RTreeEntry {
                    bbox: point_box((p.x, p.y)),
                    id,
                    geometry: Some(Geometry::Point(p)),
                },
            ),
    {
        self.entries.push(
            RTreeEntry {
                bbox: BoundingBox::from_point(p),
                id,
                geometry: Some(Geometry::Point(p)),
            },
        );
    }

    /// Adds a box, without a geometry.
    pub fn insert_bbox(&mut self, id: u64, bbox: BoundingBox)
        ensures
            final(self).entries@ == old(self).entries@.push(
                (RTreeEntry { bbox, id, geometry: None }),
            ),
    {
        self.entries.push(RTreeEntry { bbox, id, geometry: None });
    }

    /// Adds a geometry, under its bounding box.
    pub fn insert_geometry(&mut self, id: u64, geom: Geometry<u64>)
        ensures
            final(self).entries@ == old(self).entries@.push(
                RTreeEntry {
                    bbox: match shape_box(geom@) {
                        Some(b) => b,
                        None => zero_box(),
                    },
                    id,
                    geometry: Some(geom),
                },
            ),
    {
        let bbox: BoundingBox = match geom.bounding_box() {
            Some(b) => b,
            None => BoundingBox { min_x: 0, min_y: 0, max_x: 0, max_y: 0 },
        };
        self.entries.push(RTreeEntry { bbox, id, geometry: Some(geom) });
    }

    /// The entries whose box meets a box.
    pub fn search(&self, query: &BoundingBox) -> (r: Vec<u64>)
        ensures
            r@ == ids(self.entries@.filter(meeting(*query))),
    {
        let mut out: Vec<u64> = Vec::new();
        let ghost all = self.entries@;
        let mut i: usize = 0;
        proof {
            reveal(Seq::filter);
            assert(all.take(0) =~= seq![]);
            assert(out@ =~= ids(all.take(0).filter(meeting(*query))));
        }
        while i < self.entries.len()
            invariant
                i <= all.len(),
                all == self.entries@,
                out@ == ids(all.take(i as int).filter(meeting(*query))),
            decreases all.len() - i,
        {
            proof {
                assert(all.take(i + 1) =~= all.take(i as int).push(all[i as int]));
                lemma_filter_push(all.take(i as int), all[i as int], meeting(*query));
            }
            if self.entries[i].bbox.intersects(query) {
                out.push(self.entries[i].id);
            }
            i = i + 1;
            assert(out@ =~= ids(all.take(i as int).filter(meeting(*query))));
        }
        assert(all.take(i as int) =~= all);
        out
    }

    /// The entries whose box holds a point.
    pub fn search_point(&self, p: Point<u64>) -> (r: Vec<u64>)
        ensures
            r@ == ids(self.entries@.filter(holding((p.x, p.y)))),
    {
        let mut out: Vec<u64> = Vec::new();
        let ghost all = self.entries@;
        let ghost want = holding((p.x, p.y));
        let mut i: usize = 0;
        proof {
            reveal(Seq::filter);
            assert(all.take(0) =~= seq![]);
            assert(out@ =~= ids(all.take(0).filter(want)));
        }
        while i < self.entries.len()
            invariant
                i <= all.len(),
                all == self.entries@,
                want == holding((p.x, p.y)),
                out@ == ids(all.take(i as int).filter(want)),
            decreases all.len() - i,
        {
            proof {
                assert(all.take(i + 1) =~= all.take(i as int).push(all[i as int]));
                lemma_filter_push(all.take(i as int), all[i as int], want);
            }
            if self.entries[i].bbox.contains(p) {
                out.push(self.entries[i].id);
            }
            i = i + 1;
            assert(out@ =~= ids(all.take(i as int).filter(want)));
        }
        assert(all.take(i as int) =~= all);
        out
    }

    /// The `k` entries whose boxes are nearest; equally near ones stay in the
    /// order in which they were added.
    pub fn knn<A: Fn(BoundingBox) -> u64>(&self, reach: &Reach<A>, k: usize) -> (r: Vec<Hit>)
        requires
            reach.steady(),
        ensures
            r@ == at_most_first(
                sorted_hits(all_hits(self.entries@, reach@), self.entries@.len() as int),
                k as int,
            ),
    {
        let mut hits: Vec<Hit> = Vec::new();
        let ghost all = all_hits(self.entries@, reach@);
        let mut i: usize = 0;
        assert(hits@ =~= all.take(0));
        while i < self.entries.len()
            invariant
                i <= self.entries@.len(),
                reach.steady(),
                all == all_hits(self.entries@, reach@),
                hits@ == all.take(i as int),
            decreases self.entries@.len() - i,
        {
            hits.push((self.entries[i].id, reach.far(self.entries[i].bbox)));
            i = i + 1;
            assert(hits@ =~= all.take(i as int));
        }
        assert(hits@ =~= all);
        let sorted: Vec<Hit> = sort_hits(&hits);
        proof {
            lemma_sorted_len(all, all.len() as int);
        }
        if k >= sorted.len() {
            return sorted;
        }
        let mut out: Vec<Hit> = Vec::new();
        let mut j: usize = 0;
        assert(out@ =~= sorted@.take(0));
        while j < k
            invariant
                j <= k <= sorted@.len(),
                out@ == sorted@.take(j as int),
            decreases k - j,
        {
            out.push(sorted[j]);
            j = j + 1;
            assert(out@ =~= sorted@.take(j as int));
        }
        out
    }

    /// The entries that meet a geometry.
    pub fn query_intersects<F: Fn(Question) -> u8, M: Fn(Coord, Coord) -> Coord>(
        &self,
        plane: &Plane<F, M>,
        geom: &Geometry<u64>,
    ) -> (r: Vec<u64>)
        requires
            plane.steady(),
        ensures
            r@ == (match shape_box(geom@) {
                None => seq![],
                Some(q) => meeting_ids(
                    plane@,
                    self.entries@,
                    geom@,
                    q,
                    self.entries@.len() as int,
                ),
            }),
    {
        let mut out: Vec<u64> = Vec::new();
        let q: BoundingBox = match geom.bounding_box() {
            Some(b) => b,
            None => {
                return out;
            },
        };
        let mut i: usize = 0;
        while i < self.entries.len()
            invariant
                i <= self.entries@.len(),
                plane.steady(),
                out@ == meeting_ids(plane@, self.entries@, geom@, q, i as int),
            decreases self.entries@.len() - i,
        {
            let e: &RTreeEntry = &self.entries[i];
            let met: bool = e.bbox.intersects(&q) && match &e.geometry {
                Some(g) => intersects(plane, g, geom),
                None => true,
            };
            if met {
                out.push(e.id);
            }
            i = i + 1;
        }
        out
    }

    /// The entries that contain a geometry.
    pub fn query_contains<F: Fn(Question) -> u8, M: Fn(Coord, Coord) -> Coord>(
        &self,
        plane: &Plane<F, M>,
        geom: &Geometry<u64>,
    ) -> (r: Vec<u64>)
        requires
            plane.steady(),
        ensures
            r@ == (match shape_box(geom@) {
                None => seq![],
                Some(q) => containing_ids(
                    plane@,
                    self.entries@,
                    geom@,
                    q,
                    self.entries@.len() as int,
                ),
            }),
    {
        let mut out: Vec<u64> = Vec::new();
        let q: BoundingBox = match geom.bounding_box() {
            Some(b) => b,
            None => {
                assert(out@ =~= seq![]);
                return out;
            },
        };
        let mut i: usize = 0;
        assert(out@ =~= seq![]);
        while i < self.entries.len()
            invariant
                i <= self.entries@.len(),
                plane.steady(),
                shape_box(geom@) == Some(q),
                out@ == containing_ids(plane@, self.entries@, geom@, q, i as int),
            decreases self.entries@.len() - i,
        {
            let e: &RTreeEntry = &self.entries[i];
            let held: bool = e.bbox.contains_bbox(&q) && match &e.geometry {
                Some(g) => contains(plane, g, geom),
                None => true,
            };
            if held {
                out.push(e.id);
            }
            i = i + 1;
        }
        out
    }

    /// The entries within a distance of a geometry, nearest first.
    pub fn query_within_distance<
        F: Fn(Question) -> u8,
        M: Fn(Coord, Coord) -> Coord,
        D: Fn(Measure) -> u64,
        N: Fn(BoundingBox, BoundingBox) -> bool,
        C: Fn(BoundingBox) -> Coord,
    >(
        &self,
        plane: &Plane<F, M>,
        ruler: &Ruler<D>,
        gauge: &Gauge<N, C>,
        geom: &Geometry<u64>,
        limit: u64,
    ) -> (r: Vec<Hit>)
        requires
            plane.steady(),
            ruler.steady(),
            gauge.steady(),
        ensures
            r@ == (match shape_box(geom@) {
                None => seq![],
                Some(q) => {
                    let hits = near_hits(
                        plane@,
                        ruler@,
                        gauge@,
                        self.entries@,
                        geom@,
                        q,
                        limit,
                        self.entries@.len() as int,
                    );
                    sorted_hits(hits, hits.len() as int)
                },
            }),
    {
        let mut hits: Vec<Hit> = Vec::new();
        let q: BoundingBox = match geom.bounding_box() {
            Some(b) => b,
            None => {
                return hits;
            },
        };
        let mut i: usize = 0;
        while i < self.entries.len()
            invariant
                i <= self.entries@.len(),
                plane.steady(),
                ruler.steady(),
                gauge.steady(),
                hits@ == near_hits(
                    plane@,
                    ruler@,
                    gauge@,
                    self.entries@,
                    geom@,
                    q,
                    limit,
                    i as int,
                ),
            decreases self.entries@.len() - i,
        {
            let e: &RTreeEntry = &self.entries[i];
            if gauge.is_near(e.bbox, q) {
                let far: u64 = match &e.geometry {
                    Some(g) => distance(plane, ruler, g, geom),
                    None => {
                        let c: Coord = gauge.middle_of(e.bbox);
                        let p: Geometry<u64> = Geometry::Point(Point { x: c.0, y: c.1 });
                        distance(plane, ruler, &p, geom)
                    },
                };
                if bits_at_most(far, limit) {
                    hits.push((e.id, far));
                }
            }
            i = i + 1;
        }
        sort_hits(&hits)
    }

    /// Number of entries.
    pub fn len(&self) -> (r: usize)
        ensures
            r == self.entries@.len(),
    {
        self.entries.len()
    }

    /// Whether there are no entries.
    pub fn is_empty(&self) -> (r: bool)
        ensures
            r == (self.entries@.len() == 0),
    {
        self.entries.len() == 0
    }
}

impl Default for RTree {
    fn default() -> (res: Self)
        ensures
            res.entries@ == Seq::<RTreeEntry>::empty(),
    {
        RTree::new()
    }
}

proof fn lemma_hit_place(sorted: Seq<Hit>, x: Hit, n: int)
    requires
        0 <= n <= sorted.len(),
    ensures
        0 <= hit_place(sorted, x, n) <= n,
        forall|k: int| hit_place(sorted, x, n) <= k < n ==> less(x.1, (#[trigger] sorted[k]).1),
        hit_place(sorted, x, n) > 0 ==> !less(x.1, sorted[hit_place(sorted, x, n) - 1].1),
    decreases n,
{
    if n > 0 && less(x.1, sorted[n - 1].1) {
        lemma_hit_place(sorted, x, n - 1);
    }
}

proof fn lemma_sorted_len(hits: Seq<Hit>, n: int)
    requires
        0 <= n <= hits.len(),
    ensures
        sorted_hits(hits, n).len() == n,
    decreases n,
{
    if n > 0 {
        lemma_sorted_len(hits, n - 1);
        let before = sorted_hits(hits, n - 1);
        lemma_hit_place(before, hits[n - 1], before.len() as int);
    }
}

/// No distance is without a number.
pub open spec fn all_numbers(hits: Seq<Hit>) -> bool {
    forall|i: int| 0 <= i < hits.len() ==> !is_nan((#[trigger] hits[i]).1)
}

/// Whether no hit is nearer than an earlier one.
pub open spec fn nearest_first(hits: Seq<Hit>) -> bool {
    forall|i: int, j: int|
        0 <= i < j < hits.len() ==> order_key((#[trigger] hits[i]).1) <= order_key(
            (#[trigger] hits[j]).1,
        )
}

/// Sorting puts the nearest first and neither loses nor adds a hit.
pub proof fn law_nearest_first(hits: Seq<Hit>, n: int)
    requires
        0 <= n <= hits.len(),
        all_numbers(hits),
    ensures
        nearest_first(sorted_hits(hits, n)),
        all_numbers(sorted_hits(hits, n)),
        sorted_hits(hits, n).to_multiset() == hits.take(n).to_multiset(),
    decreases n,
{
    broadcast use vstd::seq_lib::group_to_multiset_ensures;
    if n == 0 {
        assert(hits.take(0) =~= seq![]);
    } else {
        law_nearest_first(hits, n - 1);
        let before = sorted_hits(hits, n - 1);
        let x = hits[n - 1];
        let p = hit_place(before, x, before.len() as int);
        lemma_hit_place(before, x, before.len() as int);
        let now = before.insert(p, x);
        vstd::seq_lib::to_multiset_insert(before, p, x);
        assert(hits.take(n) =~= hits.take(n - 1).push(x));
        assert forall|i: int| 0 <= i < now.len() implies !is_nan((#[trigger] now[i]).1) by {
            if i != p {
                let i0 = if i < p { i } else { i - 1 };
                assert(now[i] == before[i0]);
            }
        }
        assert forall|i: int, j: int| 0 <= i < j < now.len() implies order_key(
            (#[trigger] now[i]).1,
        ) <= order_key((#[trigger] now[j]).1) by {
            if j == p {
                assert(now[i] == before[i]);
                assert(order_key(before[i].1) <= order_key(before[p - 1].1));
            } else if i == p {
                assert(now[j] == before[j - 1]);
            } else {
                let i0 = if i < p { i } else { i - 1 };
                let j0 = if j < p { j } else { j - 1 };
                assert(now[i] == before[i0]);
                assert(now[j] == before[j0]);
            }
        }
    }
}

/// An added entry is found by exactly the boxes that meet its own, and the
/// other entries are found as before.
pub proof fn law_added_entry_is_found(s: Seq<RTreeEntry>, e: RTreeEntry, q: BoundingBox)
    ensures
        ids(s.push(e).filter(meeting(q))) == (if e.bbox.meets(q) {
            ids(s.filter(meeting(q))).push(e.id)
        } else {
            ids(s.filter(meeting(q)))
        }),
{
    lemma_filter_push(s, e, meeting(q));
    if e.bbox.meets(q) {
        assert(ids(s.filter(meeting(q)).push(e)) =~= ids(s.filter(meeting(q))).push(e.id));
    }
}

/// What is found at a point is found in every box that holds the point.
pub proof fn law_found_at_point_is_found_in_box(
    s: Seq<RTreeEntry>,
    q: BoundingBox,
    p: (u64, u64),
    e: RTreeEntry,
)
    requires
        q.holds(p),
        s.filter(holding(p)).contains(e),
    ensures
        s.filter(meeting(q)).contains(e),
{
    broadcast use vstd::seq_lib::group_filter_ensures;
    let k = choose|k: int| 0 <= k < s.filter(holding(p)).len() && s.filter(holding(p))[k] == e;
    assert(holding(p)(s.filter(holding(p))[k]));
    s.lemma_filter_contains_rev(holding(p), e);
    law_common_point_meets(e.bbox, q, p);
    let i = choose|i: int| 0 <= i < s.len() && s[i] == e;
    s.lemma_filter_contains(meeting(q), i);
}

} // verus!
