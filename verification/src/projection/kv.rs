//! Key-value projection: rows of a key and a value in blocks, with an index in
//! memory from each key to its row.
//!
//! Writes are buffered and sealed into blocks. A deleted key keeps a row with
//! an empty value, the mark of a deletion.

use vstd::prelude::*;

use crate::bytemap::ByteMap;
use crate::bytes::{copy_range, from_bits, of_bits};
use crate::error::CenResult;
use crate::ids::{BlockId, SegmentId};
use crate::text::bytes_equal;

verus! {

/// A key and its value.
pub type Pair = (Seq<u8>, Seq<u8>);

/// One step of the FNV-1a hash.
pub open spec fn fnv_step(hash: u64, b: u8) -> u64 {
    (((hash ^ (b as u64)) * 0x100_0000_01b3) % 0x1_0000_0000_0000_0000) as u64
}

/// The FNV-1a hash of the first `n` bytes.
pub open spec fn fnv(key: Seq<u8>, n: int) -> u64
    decreases n,
{
    if n <= 0 {
        0xcbf2_9ce4_8422_2325
    } else {
        fnv_step(fnv(key, n - 1), key[n - 1])
    }
}

/// The FNV-1a hash of a key, as a signed number.
pub fn hash_key(key: &[u8]) -> (r: i64)
    ensures
        r == from_bits(fnv(key@, key@.len() as int)),
{
    let mut hash: u64 = 0xcbf2_9ce4_8422_2325;
    let mut i: usize = 0;
    while i < key.len()
        invariant
            i <= key@.len(),
            hash == fnv(key@, i as int),
        decreases key@.len() - i,
    {
        let mixed: u64 = hash ^ (key[i] as u64);
        hash = mixed.wrapping_mul(0x100_0000_01b3);
        i = i + 1;
    }
    of_bits(hash)
}

/// A row: the key's hash, which is the primary key, the key and the value.
#[derive(Debug)]
pub struct KvRow {
    pub pk: i64,
    pub key: Vec<u8>,
    pub value: Vec<u8>,
}

/// The value of a row without its hash.
pub open spec fn pair_of(row: KvRow) -> Pair {
    (row.key@, row.value@)
}

/// Whether the row's primary key is the hash of its key.
pub open spec fn row_hashed(row: KvRow) -> bool {
    row.pk == from_bits(fnv(row.key@, row.key@.len() as int))
}

/// A sealed block of rows.
#[derive(Debug)]
pub struct KvBlock {
    pub rows: Vec<KvRow>,
}

/// The pairs of a row of rows.
pub open spec fn pairs_of(rows: Seq<KvRow>) -> Seq<Pair> {
    rows.map_values(|r: KvRow| pair_of(r))
}

/// The pairs of each block.
pub open spec fn block_pairs(blocks: Seq<KvBlock>) -> Seq<Seq<Pair>> {
    blocks.map_values(|b: KvBlock| pairs_of(b.rows@))
}

/// Whether the primary keys of a block are the hashes of its keys.
pub open spec fn block_hashed(b: KvBlock) -> bool {
    forall|i: int| 0 <= i < b.rows@.len() ==> row_hashed(#[trigger] b.rows@[i])
}

/// Where a row stands.
#[derive(Clone, Copy, Debug)]
struct Place {
    block: BlockId,
    slot: u32,
}

/// A buffered write.
struct Write {
    key: Vec<u8>,
    value: Vec<u8>,
}

spec fn write_pair(w: Write) -> Pair {
    (w.key@, w.value@)
}

spec fn write_pairs(ws: Seq<Write>) -> Seq<Pair> {
    ws.map_values(|w: Write| write_pair(w))
}

/// The last of the first `n` pairs with the key.
pub open spec fn last_with(pairs: Seq<Pair>, key: Seq<u8>, n: int) -> Option<int>
    decreases n,
{
    if n <= 0 {
        None
    } else if pairs[n - 1].0 == key {
        Some(n - 1)
    } else {
        last_with(pairs, key, n - 1)
    }
}

/// Whether one of the pairs has the key.
pub open spec fn has_key(pairs: Seq<Pair>, key: Seq<u8>) -> bool {
    last_with(pairs, key, pairs.len() as int) is Some
}

/// The place of the last row with the key in the first `n` blocks.
pub open spec fn last_row(blocks: Seq<Seq<Pair>>, key: Seq<u8>, n: int) -> Option<(int, int)>
    decreases n,
{
    if n <= 0 {
        None
    } else {
        match last_with(blocks[n - 1], key, blocks[n - 1].len() as int) {
            Some(s) => Some((n - 1, s)),
            None => last_row(blocks, key, n - 1),
        }
    }
}

/// The bytes that a row takes in a block: its hash, two slot headers, the key,
/// the value, and room for alignment.
pub open spec fn row_cost(p: Pair) -> nat {
    8 + 8 + p.0.len() + 8 + p.1.len() + 16
}

/// The bytes of a block that rows can use: without header, column directory
/// and bitmaps.
pub open spec fn usable_bytes(block_size: u32) -> nat {
    if block_size >= 512 {
        (block_size - 512) as nat
    } else {
        0
    }
}

/// Where a block that begins with row `start` ends, `i` rows being taken with
/// `used` bytes: before the first row that does not fit, but never before the
/// first row.
pub open spec fn chunk_end(pairs: Seq<Pair>, start: int, i: int, used: nat, usable: nat) -> int
    decreases pairs.len() - i,
{
    if i >= pairs.len() || (used + row_cost(pairs[i]) > usable && i > start) {
        i
    } else {
        chunk_end(pairs, start, i + 1, used + row_cost(pairs[i]), usable)
    }
}

/// The pairs from `start` on, cut into blocks.
pub open spec fn chunks(pairs: Seq<Pair>, start: int, usable: nat) -> Seq<Seq<Pair>>
    decreases pairs.len() - start,
{
    if start < 0 || start >= pairs.len() {
        seq![]
    } else {
        let end = chunk_end(pairs, start, start, 0, usable);
        if start < end <= pairs.len() {
            seq![pairs.subrange(start, end)] + chunks(pairs, end, usable)
        } else {
            seq![]
        }
    }
}

/// What a store holds: its sealed blocks, the index, and the buffered writes.
#[verifier::ext_equal]
pub struct KvView {
    pub blocks: Seq<Seq<Pair>>,
    pub index: Map<Seq<u8>, (int, int)>,
    pub pending: Seq<Pair>,
}

/// The value of a key: of its last buffered write, else of its indexed row.
pub open spec fn value_in(v: KvView, key: Seq<u8>) -> Option<Seq<u8>> {
    match last_with(v.pending, key, v.pending.len() as int) {
        Some(i) => Some(v.pending[i].1),
        None => if v.index.dom().contains(key) {
            Some(v.blocks[v.index[key].0][v.index[key].1].1)
        } else {
            None
        },
    }
}

/// What every store keeps: an indexed key's place is that of its last row, and
/// a key with rows that is not indexed has a buffered write.
pub open spec fn coherent(v: KvView) -> bool {
    &&& forall|k: Seq<u8>|
        #[trigger] v.index.dom().contains(k) ==> last_row(v.blocks, k, v.blocks.len() as int)
            == Some(v.index[k])
    &&& forall|k: Seq<u8>|
        !(#[trigger] v.index.dom().contains(k)) && last_row(
            v.blocks,
            k,
            v.blocks.len() as int,
        ) is Some ==> has_key(v.pending, k)
}

/// The index that has each key at the place of its last row.
pub open spec fn full_index(blocks: Seq<Seq<Pair>>) -> Map<Seq<u8>, (int, int)> {
    Map::new(
        |k: Seq<u8>| last_row(blocks, k, blocks.len() as int) is Some,
        |k: Seq<u8>| last_row(blocks, k, blocks.len() as int)->0,
    )
}

/// The store after its buffered writes were sealed.
pub open spec fn sealed(v: KvView, block_size: u32) -> KvView {
    if v.pending.len() == 0 {
        v
    } else {
        let blocks = v.blocks + chunks(v.pending, 0, usable_bytes(block_size));
        KvView {
            blocks,
            index: Map::new(
                |k: Seq<u8>| v.index.dom().contains(k) || has_key(v.pending, k),
                |k: Seq<u8>| last_row(blocks, k, blocks.len() as int)->0,
            ),
            pending: seq![],
        }
    }
}

/// The rows of the first `n` blocks whose value is not empty.
pub open spec fn live_rows(blocks: Seq<Seq<Pair>>, n: int) -> Seq<Pair>
    decreases n,
{
    if n <= 0 {
        seq![]
    } else {
        live_rows(blocks, n - 1) + blocks[n - 1].filter(|p: Pair| p.1.len() > 0)
    }
}

/// The bytes of the first `n` pairs with eight bytes of hash each.
pub open spec fn plain_bytes(pairs: Seq<Pair>, n: int) -> nat
    decreases n,
{
    if n <= 0 {
        0
    } else {
        plain_bytes(pairs, n - 1) + pairs[n - 1].0.len() + pairs[n - 1].1.len() + 8
    }
}

/// The bytes of the rows of the first `n` blocks.
pub open spec fn plain_total(blocks: Seq<Seq<Pair>>, n: int) -> nat
    decreases n,
{
    if n <= 0 {
        0
    } else {
        plain_total(blocks, n - 1) + plain_bytes(blocks[n - 1], blocks[n - 1].len() as int)
    }
}

proof fn lemma_last_with(pairs: Seq<Pair>, key: Seq<u8>, n: int)
    requires
        0 <= n <= pairs.len(),
    ensures
        match last_with(pairs, key, n) {
            Some(i) => 0 <= i < n && pairs[i].0 == key && forall|j: int|
                i < j < n ==> (#[trigger] pairs[j]).0 != key,
            None => forall|j: int| 0 <= j < n ==> (#[trigger] pairs[j]).0 != key,
        },
    decreases n,
{
    if n > 0 {
        lemma_last_with(pairs, key, n - 1);
    }
}

proof fn lemma_last_with_prefix(a: Seq<Pair>, b: Seq<Pair>, key: Seq<u8>, n: int)
    requires
        0 <= n <= a.len(),
        n <= b.len(),
        a.take(n) == b.take(n),
    ensures
        last_with(a, key, n) == last_with(b, key, n),
    decreases n,
{
    if n > 0 {
        assert(a.take(n)[n - 1] == b.take(n)[n - 1]);
        assert(a.take(n - 1) =~= a.take(n).take(n - 1));
        assert(b.take(n - 1) =~= b.take(n).take(n - 1));
        lemma_last_with_prefix(a, b, key, n - 1);
    }
}

proof fn lemma_last_row_prefix(a: Seq<Seq<Pair>>, b: Seq<Seq<Pair>>, key: Seq<u8>, n: int)
    requires
        0 <= n <= a.len(),
        n <= b.len(),
        forall|i: int| 0 <= i < n ==> #[trigger] a[i] == b[i],
    ensures
        last_row(a, key, n) == last_row(b, key, n),
    decreases n,
{
    if n > 0 {
        assert(a[n - 1] == b[n - 1]);
        lemma_last_row_prefix(a, b, key, n - 1);
    }
}

proof fn lemma_last_row(blocks: Seq<Seq<Pair>>, key: Seq<u8>, n: int)
    requires
        0 <= n <= blocks.len(),
    ensures
        match last_row(blocks, key, n) {
            Some(p) => 0 <= p.0 < n && 0 <= p.1 < blocks[p.0].len() && blocks[p.0][p.1].0 == key,
            None => true,
        },
    decreases n,
{
    if n > 0 {
        lemma_last_with(blocks[n - 1], key, blocks[n - 1].len() as int);
        lemma_last_row(blocks, key, n - 1);
    }
}

/// What the blocks hold after the first `n` writes were sealed behind `base`:
/// of a key that was written, its last write; of another key, what was there.
spec fn rows_match(
    blocks: Seq<Seq<Pair>>,
    base: Seq<Seq<Pair>>,
    pairs: Seq<Pair>,
    key: Seq<u8>,
    n: int,
) -> bool {
    match last_with(pairs, key, n) {
        Some(i) => match last_row(blocks, key, blocks.len() as int) {
            Some(p) => 0 <= p.0 < blocks.len() && 0 <= p.1 < blocks[p.0].len()
                && blocks[p.0][p.1] == pairs[i],
            None => false,
        },
        None => last_row(blocks, key, blocks.len() as int) == last_row(
            base,
            key,
            base.len() as int,
        ),
    }
}

/// The last pair with a key in a row is the last in its tail, if one is there,
/// else the last before.
proof fn lemma_last_with_split(pairs: Seq<Pair>, key: Seq<u8>, start: int, end: int)
    requires
        0 <= start <= end <= pairs.len(),
    ensures
        last_with(pairs, key, end) == (match last_with(
            pairs.subrange(start, end),
            key,
            end - start,
        ) {
            Some(s) => Some(start + s),
            None => last_with(pairs, key, start),
        }),
    decreases end - start,
{
    let tail = pairs.subrange(start, end);
    if start < end {
        lemma_last_with_split(pairs, key, start, end - 1);
        let shorter = pairs.subrange(start, end - 1);
        assert(tail.take(end - start - 1) =~= shorter.take(end - start - 1));
        lemma_last_with_prefix(tail, shorter, key, end - start - 1);
        assert(tail[end - start - 1] == pairs[end - 1]);
    }
}

/// One more block keeps the blocks in step with the writes.
proof fn lemma_add_chunk(
    blocks: Seq<Seq<Pair>>,
    base: Seq<Seq<Pair>>,
    pairs: Seq<Pair>,
    key: Seq<u8>,
    start: int,
    end: int,
)
    requires
        0 <= start < end <= pairs.len(),
        rows_match(blocks, base, pairs, key, start),
    ensures
        rows_match(blocks.push(pairs.subrange(start, end)), base, pairs, key, end),
        last_row(
            blocks.push(pairs.subrange(start, end)),
            key,
            blocks.len() as int + 1,
        ) == (match last_with(pairs.subrange(start, end), key, end - start) {
            Some(s) => Some((blocks.len() as int, s)),
            None => last_row(blocks, key, blocks.len() as int),
        }),
{
    let chunk = pairs.subrange(start, end);
    let more = blocks.push(chunk);
    lemma_last_with_split(pairs, key, start, end);
    lemma_last_with(chunk, key, end - start);
    lemma_last_row_prefix(more, blocks, key, blocks.len() as int);
    lemma_last_row(blocks, key, blocks.len() as int);
    match last_with(chunk, key, end - start) {
        Some(s) => {
            assert(more[blocks.len() as int][s] == pairs[start + s]);
        },
        None => {
            match last_row(blocks, key, blocks.len() as int) {
                Some(p) => {
                    assert(more[p.0] == blocks[p.0]);
                },
                None => {},
            }
        },
    }
}

/// A block ends behind its beginning and within the writes.
proof fn lemma_chunk_end(pairs: Seq<Pair>, start: int, i: int, used: nat, usable: nat)
    requires
        0 <= start <= i <= pairs.len(),
        start < pairs.len(),
    ensures
        i <= chunk_end(pairs, start, i, used, usable) <= pairs.len(),
        start < chunk_end(pairs, start, i, used, usable),
    decreases pairs.len() - i,
{
    if !(i >= pairs.len() || (used + row_cost(pairs[i]) > usable && i > start)) {
        lemma_chunk_end(pairs, start, i + 1, used + row_cost(pairs[i]), usable);
    }
}

proof fn lemma_chunks_match(
    blocks: Seq<Seq<Pair>>,
    base: Seq<Seq<Pair>>,
    pairs: Seq<Pair>,
    key: Seq<u8>,
    start: int,
    usable: nat,
)
    requires
        0 <= start <= pairs.len(),
        rows_match(blocks, base, pairs, key, start),
    ensures
        rows_match(
            blocks + chunks(pairs, start, usable),
            base,
            pairs,
            key,
            pairs.len() as int,
        ),
    decreases pairs.len() - start,
{
    if start < pairs.len() {
        let end = chunk_end(pairs, start, start, 0, usable);
        lemma_chunk_end(pairs, start, start, 0, usable);
        let chunk = pairs.subrange(start, end);
        lemma_add_chunk(blocks, base, pairs, key, start, end);
        lemma_chunks_match(blocks.push(chunk), base, pairs, key, end, usable);
        assert(blocks + chunks(pairs, start, usable) =~= blocks.push(chunk) + chunks(
            pairs,
            end,
            usable,
        ));
    } else {
        assert(blocks + chunks(pairs, start, usable) =~= blocks);
    }
}

proof fn lemma_sealed_rows(v: KvView, block_size: u32, key: Seq<u8>)
    requires
        v.pending.len() > 0,
    ensures
        rows_match(
            sealed(v, block_size).blocks,
            v.blocks,
            v.pending,
            key,
            v.pending.len() as int,
        ),
{
    lemma_chunks_match(v.blocks, v.blocks, v.pending, key, 0, usable_bytes(block_size));
}

/// Sealing the buffered writes keeps the store coherent.
proof fn lemma_sealed_coherent(v: KvView, block_size: u32)
    requires
        coherent(v),
    ensures
        coherent(sealed(v, block_size)),
{
    let w = sealed(v, block_size);
    if v.pending.len() > 0 {
        assert forall|k: Seq<u8>| #[trigger] w.index.dom().contains(k) implies last_row(
            w.blocks,
            k,
            w.blocks.len() as int,
        ) == Some(w.index[k]) by {
            lemma_sealed_rows(v, block_size, k);
            assert(v.index.dom().contains(k) || has_key(v.pending, k));
        }
        assert forall|k: Seq<u8>|
            !(#[trigger] w.index.dom().contains(k)) && last_row(
                w.blocks,
                k,
                w.blocks.len() as int,
            ) is Some implies has_key(w.pending, k) by {
            lemma_sealed_rows(v, block_size, k);
            assert(!v.index.dom().contains(k));
        }
    }
}

/// Sealing the buffered writes changes the value of no key.
pub proof fn law_sealing_keeps_values(v: KvView, block_size: u32, key: Seq<u8>)
    requires
        coherent(v),
    ensures
        value_in(sealed(v, block_size), key) == value_in(v, key),
{
    if v.pending.len() > 0 {
        let w = sealed(v, block_size);
        lemma_sealed_rows(v, block_size, key);
        lemma_last_with(v.pending, key, v.pending.len() as int);
        assert(w.index.dom().contains(key) <==> v.index.dom().contains(key) || has_key(
            v.pending,
            key,
        ));
        if last_with(v.pending, key, v.pending.len() as int) is None
            && v.index.dom().contains(key) {
            assert(last_row(v.blocks, key, v.blocks.len() as int) == Some(v.index[key]));
            lemma_last_row(v.blocks, key, v.blocks.len() as int);
            let p = v.index[key];
            assert(w.index[key] == p);
            assert(w.blocks[p.0] == v.blocks[p.0]);
        }
    }
}

/// A read after a write gives back what was written; other keys keep their
/// values. An empty value is what a deletion writes.
pub proof fn law_read_after_write(v: KvView, key: Seq<u8>, value: Seq<u8>, other: Seq<u8>)
    ensures
        ({
            let w = KvView { pending: v.pending.push((key, value)), ..v };
            &&& value_in(w, key) == Some(value)
            &&& other != key ==> value_in(w, other) == value_in(v, other)
        }),
{
    let w = KvView { pending: v.pending.push((key, value)), ..v };
    let n = v.pending.len() as int;
    assert(w.pending.take(n) =~= v.pending.take(n));
    lemma_last_with_prefix(w.pending, v.pending, other, n);
    lemma_last_with(v.pending, other, n);
}

/// A store rebuilt from the sealed blocks of a store without buffered writes
/// has the same values.
pub proof fn law_rebuilding_keeps_values(v: KvView, key: Seq<u8>)
    requires
        coherent(v),
        v.pending.len() == 0,
    ensures
        value_in(
            KvView { blocks: v.blocks, index: full_index(v.blocks), pending: seq![] },
            key,
        ) == value_in(v, key),
{
    let w = KvView { blocks: v.blocks, index: full_index(v.blocks), pending: seq![] };
    assert(v.index.dom().contains(key) ==> last_row(v.blocks, key, v.blocks.len() as int) == Some(
        v.index[key],
    ));
    assert(!has_key(v.pending, key));
    assert(!v.index.dom().contains(key) ==> last_row(v.blocks, key, v.blocks.len() as int) is None);
    assert(w.index.dom().contains(key) <==> v.index.dom().contains(key));
}

/// The keys of writes, in order.
pub open spec fn write_keys(pending: Seq<Pair>) -> Seq<Seq<u8>> {
    pending.map_values(|p: Pair| p.0)
}

/// The keys that are in the index or among the buffered writes.
pub open spec fn stored_keys(v: KvView) -> Set<Seq<u8>> {
    v.index.dom().union(write_keys(v.pending).to_set())
}

/// How many writes are buffered before they are sealed.
pub const PENDING_CAPACITY: usize = 1024;

/// A key-value store.
pub struct KvStore {
    segment_id: SegmentId,
    block_size: u32,
    blocks: Vec<KvBlock>,
    index: ByteMap<Place>,
    pending: Vec<Write>,
}

spec fn place_of(p: Place) -> (int, int) {
    (p.block.0 as int, p.slot as int)
}

spec fn index_view(m: Map<Seq<u8>, Place>) -> Map<Seq<u8>, (int, int)> {
    Map::new(|k: Seq<u8>| m.dom().contains(k), |k: Seq<u8>| place_of(m[k]))
}

impl View for KvStore {
    type V = KvView;

    closed spec fn view(&self) -> KvView {
        KvView {
            blocks: block_pairs(self.blocks@),
            index: index_view(self.index@),
            pending: write_pairs(self.pending@),
        }
    }
}

impl KvStore {
    /// The sealed blocks, and the index and the writes in step with them.
    pub closed spec fn wf(&self) -> bool {
        &&& self.index.wf()
        &&& coherent(self@)
        &&& forall|i: int| 0 <= i < self.blocks@.len() ==> block_hashed(#[trigger] self.blocks@[i])
    }

    /// The size of a block in bytes.
    pub closed spec fn size(&self) -> u32 {
        self.block_size
    }

    /// The segment that the store belongs to.
    pub closed spec fn segment(&self) -> SegmentId {
        self.segment_id
    }

    /// Whether block and row numbers suffice for the blocks and `extra` more
    /// writes.
    pub open spec fn has_room(&self, extra: int) -> bool {
        self@.blocks.len() + self@.pending.len() + extra <= u32::MAX
    }

    /// An empty store.
    pub fn new(segment_id: SegmentId, block_size: u32) -> (res: Self)
        ensures
            res.wf(),
            res.size() == block_size,
            res.segment() == segment_id,
            res@ == (KvView { blocks: seq![], index: Map::empty(), pending: seq![] }),
    {
        let res = KvStore {
            segment_id,
            block_size,
            blocks: Vec::new(),
            index: ByteMap::new(),
            pending: Vec::new(),
        };
        assert(res@ =~~= (KvView { blocks: seq![], index: Map::empty(), pending: seq![] }));
        res
    }

    /// A store over sealed blocks; its index has each key at its last row.
    pub fn from_blocks(segment_id: SegmentId, block_size: u32, blocks: Vec<KvBlock>) -> (res: Self)
        requires
            blocks@.len() <= u32::MAX,
            forall|i: int|
                0 <= i < blocks@.len() ==> block_hashed(#[trigger] blocks@[i])
                    && blocks@[i].rows@.len() <= u32::MAX,
        ensures
            res.wf(),
            res.size() == block_size,
            res.segment() == segment_id,
            res@ == (KvView {
                blocks: block_pairs(blocks@),
                index: full_index(block_pairs(blocks@)),
                pending: seq![],
            }),
    {
        let ghost all = block_pairs(blocks@);
        let mut index: ByteMap<Place> = ByteMap::new();
        let mut b: usize = 0;
        assert(index_view(index@) =~= full_index(all.take(0)));
        while b < blocks.len()
            invariant
                b <= blocks@.len() <= u32::MAX,
                all == block_pairs(blocks@),
                forall|i: int|
                    0 <= i < blocks@.len() ==> block_hashed(#[trigger] blocks@[i])
                        && blocks@[i].rows@.len() <= u32::MAX,
                index.wf(),
                index_view(index@) == full_index(all.take(b as int)),
            decreases blocks@.len() - b,
        {
            assert(block_hashed(blocks@[b as int]));
            let ghost before = index_view(index@);
            let ghost rows = all[b as int];
            let ghost done = all.take(b as int);
            let ghost more = all.take(b + 1);
            let block: &KvBlock = &blocks[b];
            assert(rows == pairs_of(block.rows@));
            index_rows(&mut index, block, b as u32);
            proof {
                assert(index_view(index@) =~= full_index(more)) by {
                    assert forall|k: Seq<u8>|
                        #![trigger last_row(more, k, b + 1)]
                        last_row(more, k, b + 1) == (match last_with(
                            rows,
                            k,
                            rows.len() as int,
                        ) {
                            Some(s) => Some((b as int, s)),
                            None => last_row(done, k, b as int),
                        }) by {
                        lemma_last_row_prefix(more, done, k, b as int);
                    }
                }
            }
            b = b + 1;
        }
        assert(all.take(b as int) =~= all);
        let res = KvStore { segment_id, block_size, blocks, index, pending: Vec::new() };
        assert(res@ =~~= (KvView { blocks: all, index: full_index(all), pending: seq![] }));
        res
    }

    /// Writes a value for a key. The write is buffered; a full buffer is
    /// sealed.
    pub fn put(&mut self, key: &[u8], value: &[u8]) -> (r: CenResult<()>)
        requires
            old(self).wf(),
            old(self).has_room(1),
        ensures
            final(self).wf(),
            final(self).size() == old(self).size(),
            final(self).segment() == old(self).segment(),
            r is Ok,
            final(self)@ == ({
                let v = KvView { pending: old(self)@.pending.push((key@, value@)), ..old(self)@ };
                if v.pending.len() >= PENDING_CAPACITY {
                    sealed(v, old(self).size())
                } else {
                    v
                }
            }),
    {
        self.push_write(key, value);
        if self.pending.len() >= PENDING_CAPACITY {
            self.flush_pending()
        } else {
            Ok(())
        }
    }

    fn push_write(&mut self, key: &[u8], value: &[u8])
        requires
            old(self).wf(),
        ensures
            final(self).wf(),
            final(self).size() == old(self).size(),
            final(self).segment() == old(self).segment(),
            final(self)@ == (KvView {
                pending: old(self)@.pending.push((key@, value@)),
                ..old(self)@
            }),
    {
        let ghost v = self@;
        let k: Vec<u8> = copy_range(key, 0, key.len());
        let x: Vec<u8> = copy_range(value, 0, value.len());
        assert(k@ =~= key@);
        assert(x@ =~= value@);
        let ghost before = self.pending@;
        let w: Write = Write { key: k, value: x };
        self.pending.push(w);
        proof {
            assert(write_pairs(self.pending@) =~= write_pairs(before).push((key@, value@)));
            assert(self@ =~= (KvView { pending: v.pending.push((key@, value@)), ..v }));
            assert forall|j: Seq<u8>|
                !(#[trigger] self@.index.dom().contains(j)) && last_row(
                    self@.blocks,
                    j,
                    self@.blocks.len() as int,
                ) is Some implies has_key(self@.pending, j) by {
                assert(!v.index.dom().contains(j));
                law_read_after_write(v, key@, value@, j);
                let n = v.pending.len() as int;
                assert(self@.pending.take(n) =~= v.pending.take(n));
                lemma_last_with_prefix(
                    self@.pending,
                    v.pending,
                    j,
                    v.pending.len() as int,
                );
            }
            assert forall|j: Seq<u8>| #[trigger] self@.index.dom().contains(j) implies last_row(
                self@.blocks,
                j,
                self@.blocks.len() as int,
            ) == Some(self@.index[j]) by {
                assert(v.index.dom().contains(j));
            }
        }
    }

    /// The value of a key: of its last write, which is an empty value where
    /// the key was deleted.
    pub fn get(&self, key: &[u8]) -> (r: CenResult<Option<Vec<u8>>>)
        requires
            self.wf(),
        ensures
            r is Ok,
            match r->Ok_0 {
                Some(v) => value_in(self@, key@) == Some(v@),
                None => value_in(self@, key@) is None,
            },
    {
        let ghost pairs = self@.pending;
        let mut i: usize = self.pending.len();
        while i > 0
            invariant
                i <= self.pending@.len(),
                pairs == write_pairs(self.pending@),
                last_with(pairs, key@, i as int) == last_with(pairs, key@, pairs.len() as int),
                pairs == self@.pending,
            decreases i,
        {
            i = i - 1;
            assert(pairs[i as int] == write_pair(self.pending@[i as int]));
            if bytes_equal(self.pending[i].key.as_slice(), key) {
                let v: &Vec<u8> = &self.pending[i].value;
                let out: Vec<u8> = copy_range(v.as_slice(), 0, v.len());
                assert(out@ =~= v@);
                return Ok(Some(out));
            }
        }
        match self.index.get(key) {
            Some(p) => {
                let place: Place = *p;
                proof {
                    assert(self@.index.dom().contains(key@));
                    assert(self@.index[key@] == place_of(place));
                    lemma_last_row(self@.blocks, key@, self@.blocks.len() as int);
                    assert(self@.blocks[place.block.0 as int] == pairs_of(
                        self.blocks@[place.block.0 as int].rows@,
                    ));
                }
                let row: &KvRow = &self.blocks[place.block.0 as usize].rows[place.slot as usize];
                let out: Vec<u8> = copy_range(row.value.as_slice(), 0, row.value.len());
                assert(out@ =~= row.value@);
                Ok(Some(out))
            },
            None => {
                assert(!self@.index.dom().contains(key@));
                Ok(None)
            },
        }
    }

    /// Deletes a key by writing an empty value for it. Returns whether the
    /// store held a value for it, be it an empty one.
    pub fn delete(&mut self, key: &[u8]) -> (r: CenResult<bool>)
        requires
            old(self).wf(),
        ensures
            final(self).wf(),
            final(self).size() == old(self).size(),
            final(self).segment() == old(self).segment(),
            r is Ok,
            r->Ok_0 == (value_in(old(self)@, key@) is Some),
            final(self)@ == (if r->Ok_0 {
                KvView {
                    index: old(self)@.index.remove(key@),
                    pending: old(self)@.pending.push((key@, seq![])),
                    ..old(self)@
                }
            } else {
                old(self)@
            }),
    {
        let ghost v = self@;
        let mut buffered: bool = false;
        let mut i: usize = 0;
        while i < self.pending.len()
            invariant
                i <= self.pending@.len(),
                v == self@,
                v.pending == write_pairs(self.pending@),
                buffered == (last_with(v.pending, key@, i as int) is Some),
            decreases self.pending@.len() - i,
        {
            assert(v.pending[i as int] == write_pair(self.pending@[i as int]));
            if bytes_equal(self.pending[i].key.as_slice(), key) {
                buffered = true;
            }
            i = i + 1;
        }
        let indexed: bool = self.index.contains_key(key);
        assert(indexed == v.index.dom().contains(key@));
        if indexed || buffered {
            let empty: Vec<u8> = Vec::new();
            self.push_write(key, empty.as_slice());
            assert(empty@ =~= seq![]);
            let ghost w = self@;
            let _removed: bool = self.index.remove(key);
            proof {
                assert(index_view(self.index@) =~= w.index.remove(key@));
                assert(self@ =~= (KvView { index: w.index.remove(key@), ..w }));
                law_read_after_write(v, key@, seq![], key@);
                assert(has_key(self@.pending, key@));
                assert forall|j: Seq<u8>|
                    !(#[trigger] self@.index.dom().contains(j)) && last_row(
                        self@.blocks,
                        j,
                        self@.blocks.len() as int,
                    ) is Some implies has_key(self@.pending, j) by {
                    if j != key@ {
                        assert(!w.index.dom().contains(j));
                    }
                }
                assert forall|j: Seq<u8>| #[trigger] self@.index.dom().contains(j) implies last_row(
                    self@.blocks,
                    j,
                    self@.blocks.len() as int,
                ) == Some(self@.index[j]) by {
                    assert(w.index.dom().contains(j));
                }
            }
            Ok(true)
        } else {
            Ok(false)
        }
    }

    /// Seals the buffered writes into as many blocks as they need.
    pub fn flush_pending(&mut self) -> (r: CenResult<()>)
        requires
            old(self).wf(),
            old(self).has_room(0),
        ensures
            final(self).wf(),
            final(self).size() == old(self).size(),
            final(self).segment() == old(self).segment(),
            r is Ok,
            final(self)@ == sealed(old(self)@, old(self).size()),
    {
        if self.pending.len() == 0 {
            return Ok(());
        }
        let ghost v = self@;
        let ghost usable = usable_bytes(self.block_size);
        let ghost pairs = v.pending;
        let limit: u32 = if self.block_size >= 512 {
            self.block_size - 512
        } else {
            0
        };
        let mut idx: usize = 0;
        assert(v.blocks + chunks(pairs, 0, usable) == sealed(v, self.block_size).blocks);
        assert forall|k: Seq<u8>| #[trigger] rows_match(v.blocks, v.blocks, pairs, k, 0) by {}
        while idx < self.pending.len()
            invariant
                idx <= self.pending@.len(),
                self.pending@ == old(self).pending@,
                self.block_size == old(self).block_size,
                self.segment_id == old(self).segment_id,
                v == old(self)@,
                pairs == v.pending,
                pairs == write_pairs(self.pending@),
                usable == usable_bytes(self.block_size),
                limit == usable,
                coherent(v),
                v.blocks.len() + pairs.len() <= u32::MAX,
                self.index.wf(),
                forall|i: int|
                    0 <= i < self.blocks@.len() ==> block_hashed(#[trigger] self.blocks@[i]),
                self.blocks@.len() <= v.blocks.len() + idx,
                self@.blocks + chunks(pairs, idx as int, usable) == v.blocks + chunks(
                    pairs,
                    0,
                    usable,
                ),
                forall|k: Seq<u8>|
                    #[trigger] rows_match(self@.blocks, v.blocks, pairs, k, idx as int),
                forall|k: Seq<u8>|
                    #[trigger] self@.index.dom().contains(k) <==> v.index.dom().contains(k)
                        || last_with(pairs, k, idx as int) is Some,
                forall|k: Seq<u8>|
                    #[trigger] self@.index.dom().contains(k) ==> last_row(
                        self@.blocks,
                        k,
                        self@.blocks.len() as int,
                    ) == Some(self@.index[k]),
            decreases self.pending@.len() - idx,
        {
            let ghost here = self@;
            let end: usize = self.find_chunk_end(idx, limit);
            proof {
                lemma_chunk_end(pairs, idx as int, idx as int, 0, usable);
            }
            let block: KvBlock = self.build_chunk(idx, end);
            let ghost chunk = pairs.subrange(idx as int, end as int);
            let ghost rows = block.rows@;
            let number: u32 = self.blocks.len() as u32;
            assert(pairs_of(block.rows@) == chunk);
            index_rows(&mut self.index, &block, number);
            let ghost blocks_before = self.blocks@;
            self.blocks.push(block);
            proof {
                assert(block_pairs(self.blocks@) =~= block_pairs(blocks_before).push(chunk));
                assert(self@.blocks == here.blocks.push(chunk));
                assert(self@.blocks + chunks(pairs, end as int, usable) =~= here.blocks + chunks(
                    pairs,
                    idx as int,
                    usable,
                ));
                assert forall|k: Seq<u8>| #[trigger] rows_match(
                    self@.blocks,
                    v.blocks,
                    pairs,
                    k,
                    end as int,
                ) by {
                    assert(rows_match(here.blocks, v.blocks, pairs, k, idx as int));
                    lemma_add_chunk(here.blocks, v.blocks, pairs, k, idx as int, end as int);
                }
                assert forall|k: Seq<u8>| #[trigger] self@.index.dom().contains(k) <==> (
                v.index.dom().contains(k) || last_with(pairs, k, end as int) is Some) by {
                    lemma_last_with_split(pairs, k, idx as int, end as int);
                    assert(here.index.dom().contains(k) <==> v.index.dom().contains(k)
                        || last_with(pairs, k, idx as int) is Some);
                }
                assert forall|k: Seq<u8>| #[trigger] self@.index.dom().contains(k) implies last_row(
                    self@.blocks,
                    k,
                    self@.blocks.len() as int,
                ) == Some(self@.index[k]) by {
                    assert(rows_match(here.blocks, v.blocks, pairs, k, idx as int));
                    lemma_add_chunk(here.blocks, v.blocks, pairs, k, idx as int, end as int);
                    if last_with(chunk, k, chunk.len() as int) is None {
                        assert(here.index.dom().contains(k));
                    }
                }
            }
            idx = end;
        }
        let ghost done = self@;
        self.pending = Vec::new();
        proof {
            let w = sealed(v, self.block_size);
            assert(self@.index == done.index);
            assert(self@.blocks == done.blocks);
            assert(chunks(pairs, idx as int, usable) =~= seq![]);
            assert(self@.blocks =~= w.blocks);
            assert(self@.index =~= w.index) by {
                assert forall|k: Seq<u8>| self@.index.dom().contains(k) <==> w.index.dom().contains(
                    k,
                ) by {
                    assert(done.index.dom().contains(k) <==> v.index.dom().contains(k)
                        || last_with(pairs, k, idx as int) is Some);
                }
                assert forall|k: Seq<u8>| #[trigger]
                    self@.index.dom().contains(k) implies self@.index[k] == w.index[k] by {
                    assert(done.index.dom().contains(k));
                }
            }
            assert(write_pairs(self.pending@) =~= seq![]);
            assert(self@ =~= w);
            lemma_sealed_coherent(v, self.block_size);
        }
        Ok(())
    }

    /// Where the block that begins with write `start` ends.
    fn find_chunk_end(&self, start: usize, usable: u32) -> (r: usize)
        requires
            start < self.pending@.len(),
        ensures
            r == chunk_end(self@.pending, start as int, start as int, 0, usable as nat),
            start < r <= self.pending@.len(),
    {
        let ghost pairs = self@.pending;
        let mut used: u128 = 0;
        let mut i: usize = start;
        proof {
            lemma_chunk_end(pairs, start as int, start as int, 0, usable as nat);
        }
        while i < self.pending.len()
            invariant
                start <= i <= self.pending@.len(),
                pairs == write_pairs(self.pending@),
                pairs == self@.pending,
                i == start ==> used == 0,
                used <= 0x2_0000_0000_0000_0000 + 0x1_0000_0000,
                chunk_end(pairs, start as int, i as int, used as nat, usable as nat) == chunk_end(
                    pairs,
                    start as int,
                    start as int,
                    0,
                    usable as nat,
                ),
                start < self.pending@.len(),
            ensures
                start < i <= self.pending@.len(),
                i == chunk_end(pairs, start as int, start as int, 0, usable as nat),
            decreases self.pending@.len() - i,
        {
            assert(pairs[i as int] == write_pair(self.pending@[i as int]));
            let w: &Write = &self.pending[i];
            let klen: usize = w.key.len();
            let vlen: usize = w.value.len();
            let cost: u128 = 40 + klen as u128 + vlen as u128;
            assert(cost == row_cost(pairs[i as int]));
            if used + cost > usable as u128 && i > start {
                break;
            }
            used = used + cost;
            i = i + 1;
        }
        i
    }

    /// The block of the writes `start` to `end`.
    fn build_chunk(&self, start: usize, end: usize) -> (r: KvBlock)
        requires
            start <= end <= self.pending@.len(),
        ensures
            block_hashed(r),
            pairs_of(r.rows@) == self@.pending.subrange(start as int, end as int),
    {
        let ghost pairs = self@.pending;
        let mut rows: Vec<KvRow> = Vec::new();
        let mut i: usize = start;
        assert(pairs_of(rows@) =~= pairs.subrange(start as int, start as int));
        while i < end
            invariant
                start <= i <= end <= self.pending@.len(),
                pairs == write_pairs(self.pending@),
                pairs_of(rows@) == pairs.subrange(start as int, i as int),
                forall|j: int| 0 <= j < rows@.len() ==> row_hashed(#[trigger] rows@[j]),
            decreases end - i,
        {
            assert(pairs[i as int] == write_pair(self.pending@[i as int]));
            let w: &Write = &self.pending[i];
            let row: KvRow = make_row(w.key.as_slice(), w.value.as_slice());
            let ghost before = rows@;
            rows.push(row);
            assert(pairs_of(rows@) =~= pairs_of(before).push(pair_of(row)));
            i = i + 1;
            assert(pairs.subrange(start as int, i as int) =~= pairs.subrange(
                start as int,
                i - 1,
            ).push(pairs[i - 1]));
        }
        KvBlock { rows }
    }

    /// Seals the store: no write stays buffered.
    pub fn seal(&mut self) -> (r: CenResult<()>)
        requires
            old(self).wf(),
            old(self).has_room(0),
        ensures
            final(self).wf(),
            final(self).size() == old(self).size(),
            final(self).segment() == old(self).segment(),
            r is Ok,
            final(self)@ == sealed(old(self)@, old(self).size()),
    {
        self.flush_pending()
    }

    /// The pairs of the store: the buffered writes, then the rows of the sealed
    /// blocks but those with an empty value. Rows that a later write replaced
    /// are among them.
    pub fn iter(&self) -> (r: Vec<(Vec<u8>, Vec<u8>)>)
        ensures
            r@.map_values(|p: (Vec<u8>, Vec<u8>)| (p.0@, p.1@)) == self@.pending + live_rows(
                self@.blocks,
                self@.blocks.len() as int,
            ),
    {
        let ghost f = |p: (Vec<u8>, Vec<u8>)| (p.0@, p.1@);
        let ghost v = self@;
        let mut out: Vec<(Vec<u8>, Vec<u8>)> = Vec::new();
        let mut i: usize = 0;
        assert(out@.map_values(f) =~= v.pending.take(0));
        while i < self.pending.len()
            invariant
                i <= self.pending@.len(),
                v.pending == write_pairs(self.pending@),
                f == (|p: (Vec<u8>, Vec<u8>)| (p.0@, p.1@)),
                out@.map_values(f) == v.pending.take(i as int),
            decreases self.pending@.len() - i,
        {
            assert(v.pending[i as int] == write_pair(self.pending@[i as int]));
            let w: &Write = &self.pending[i];
            let k: Vec<u8> = copy_range(w.key.as_slice(), 0, w.key.len());
            let x: Vec<u8> = copy_range(w.value.as_slice(), 0, w.value.len());
            assert(k@ =~= w.key@);
            assert(x@ =~= w.value@);
            let ghost before = out@;
            out.push((k, x));
            i = i + 1;
            assert(out@.map_values(f) =~= before.map_values(f).push((k@, x@)));
            assert(v.pending.take(i as int) =~= v.pending.take(i - 1).push(v.pending[i - 1]));
        }
        assert(v.pending.take(i as int) =~= v.pending);
        let mut b: usize = 0;
        assert(v.pending + live_rows(v.blocks, 0) =~= v.pending);
        while b < self.blocks.len()
            invariant
                b <= self.blocks@.len(),
                v.blocks == block_pairs(self.blocks@),
                f == (|p: (Vec<u8>, Vec<u8>)| (p.0@, p.1@)),
                out@.map_values(f) == v.pending + live_rows(v.blocks, b as int),
            decreases self.blocks@.len() - b,
        {
            let ghost before = out@.map_values(f);
            let ghost rows = v.blocks[b as int];
            let ghost live = |p: Pair| p.1.len() > 0;
            let block: &KvBlock = &self.blocks[b];
            assert(rows == pairs_of(block.rows@));
            let mut s: usize = 0;
            proof {
                reveal(Seq::filter);
                assert(out@.map_values(f) =~= before + rows.take(0).filter(live));
            }
            while s < block.rows.len()
                invariant
                    s <= block.rows@.len(),
                    rows == pairs_of(block.rows@),
                    live == (|p: Pair| p.1.len() > 0),
                    f == (|p: (Vec<u8>, Vec<u8>)| (p.0@, p.1@)),
                    out@.map_values(f) == before + rows.take(s as int).filter(live),
                decreases block.rows@.len() - s,
            {
                let row: &KvRow = &block.rows[s];
                proof {
                    assert(rows[s as int] == pair_of(*row));
                    assert(rows.take(s + 1) =~= rows.take(s as int).push(pair_of(*row)));
                    crate::sequences::lemma_filter_push(rows.take(s as int), pair_of(*row), live);
                }
                if row.value.len() > 0 {
                    let k: Vec<u8> = copy_range(row.key.as_slice(), 0, row.key.len());
                    let x: Vec<u8> = copy_range(row.value.as_slice(), 0, row.value.len());
                    assert(k@ =~= row.key@);
                    assert(x@ =~= row.value@);
                    let ghost earlier = out@;
                    out.push((k, x));
                    assert(out@.map_values(f) =~= earlier.map_values(f).push((k@, x@)));
                    assert(out@.map_values(f) =~= before + rows.take(s + 1).filter(live));
                }
                s = s + 1;
            }
            assert(rows.take(s as int) =~= rows);
            b = b + 1;
            assert(out@.map_values(f) =~= v.pending + live_rows(v.blocks, b as int));
        }
        out
    }

    /// The number of keys that are stored, buffered ones among them.
    pub fn len(&self) -> (r: usize)
        requires
            self.wf(),
            stored_keys(self@).len() <= usize::MAX,
        ensures
            r == stored_keys(self@).len(),
    {
        let ghost dom = self@.index.dom();
        let ghost keys = write_keys(self@.pending);
        let mut count: usize = self.index.len();
        let mut i: usize = 0;
        proof {
            let indexed = self.index.key_seq();
            assert(dom =~= indexed.to_set());
            indexed.unique_seq_to_set();
            vstd::seq_lib::seq_to_set_is_finite(indexed);
            assert(dom.union(keys.take(0).to_set()) =~= dom);
        }
        while i < self.pending.len()
            invariant
                i <= self.pending@.len(),
                self.wf(),
                dom == self@.index.dom(),
                dom.finite(),
                keys == write_keys(self@.pending),
                keys.len() == self.pending@.len(),
                stored_keys(self@).len() <= usize::MAX,
                dom.union(keys.take(i as int).to_set()).finite(),
                count == dom.union(keys.take(i as int).to_set()).len(),
            decreases self.pending@.len() - i,
        {
            let key: &[u8] = self.pending[i].key.as_slice();
            let known: bool = self.index.contains_key(key) || self.is_buffered(key, i);
            proof {
                let before = dom.union(keys.take(i as int).to_set());
                let after = dom.union(keys.take(i + 1).to_set());
                assert(key@ == keys[i as int]);
                assert(keys.take(i + 1) =~= keys.take(i as int).push(key@));
                assert forall|k: Seq<u8>| #[trigger] after.contains(k) <==> before.insert(
                    key@,
                ).contains(k) by {
                    crate::sequences::lemma_push_contains(keys.take(i as int), key@, k);
                }
                assert(after =~= before.insert(key@));
                assert(known == before.contains(key@));
                assert(after.subset_of(stored_keys(self@))) by {
                    assert forall|k: Seq<u8>| #[trigger] after.contains(k) implies stored_keys(
                        self@,
                    ).contains(k) by {
                        let first = keys.take(i + 1);
                        if first.contains(k) {
                            let n = choose|n: int| 0 <= n < first.len() && first[n] == k;
                            assert(keys[n] == k);
                        }
                    }
                }
                vstd::seq_lib::seq_to_set_is_finite(keys);
                vstd::set_lib::lemma_len_subset(after, stored_keys(self@));
            }
            if !known {
                count = count + 1;
            }
            i = i + 1;
        }
        assert(keys.take(i as int) =~= keys);
        count
    }

    /// Whether a key is among the first `n` buffered writes.
    fn is_buffered(&self, key: &[u8], n: usize) -> (r: bool)
        requires
            n <= self.pending@.len(),
        ensures
            r == write_keys(self@.pending).take(n as int).contains(key@),
    {
        let ghost keys = write_keys(self@.pending);
        let mut i: usize = 0;
        while i < n
            invariant
                i <= n <= self.pending@.len(),
                keys == write_keys(self@.pending),
                keys.len() == self.pending@.len(),
                forall|k: int| 0 <= k < i ==> #[trigger] keys[k] != key@,
            decreases n - i,
        {
            assert(keys[i as int] == self.pending@[i as int].key@);
            if bytes_equal(self.pending[i].key.as_slice(), key) {
                assert(keys.take(n as int)[i as int] == key@);
                return true;
            }
            i = i + 1;
        }
        proof {
            if keys.take(n as int).contains(key@) {
                let k = choose|k: int| 0 <= k < n && keys.take(n as int)[k] == key@;
                assert(keys[k] == key@);
            }
        }
        false
    }

    /// The number of sealed blocks.
    pub fn block_count(&self) -> (r: usize)
        ensures
            r == self@.blocks.len(),
    {
        self.blocks.len()
    }

    /// A sealed block.
    pub fn block(&self, i: usize) -> (r: &KvBlock)
        requires
            self.wf(),
            i < self@.blocks.len(),
        ensures
            pairs_of(r.rows@) == self@.blocks[i as int],
            block_hashed(*r),
    {
        &self.blocks[i]
    }

    /// The segment that the store belongs to.
    pub fn segment_id(&self) -> (r: SegmentId)
        ensures
            r == self.segment(),
    {
        self.segment_id
    }

    /// The bytes that the sealed rows would take as plain keys, values and
    /// eight-byte hashes.
    pub fn raw_bytes(&self) -> (r: usize)
        requires
            plain_total(self@.blocks, self@.blocks.len() as int) <= usize::MAX,
        ensures
            r == plain_total(self@.blocks, self@.blocks.len() as int),
    {
        let ghost blocks = self@.blocks;
        let ghost n = blocks.len() as int;
        let mut total: usize = 0;
        let mut b: usize = 0;
        while b < self.blocks.len()
            invariant
                b <= self.blocks@.len(),
                n == blocks.len() == self.blocks@.len(),
                blocks == block_pairs(self.blocks@),
                plain_total(blocks, n) <= usize::MAX,
                total == plain_total(blocks, b as int),
            decreases self.blocks@.len() - b,
        {
            let block: &KvBlock = &self.blocks[b];
            let ghost rows = blocks[b as int];
            assert(rows == pairs_of(block.rows@));
            let ghost before = total;
            proof {
                lemma_total_grows(blocks, b + 1, n);
            }
            let mut s: usize = 0;
            while s < block.rows.len()
                invariant
                    s <= block.rows@.len(),
                    rows == pairs_of(block.rows@),
                    before + plain_bytes(rows, rows.len() as int) <= usize::MAX,
                    total == before + plain_bytes(rows, s as int),
                decreases block.rows@.len() - s,
            {
                let row: &KvRow = &block.rows[s];
                assert(rows[s as int] == pair_of(*row));
                proof {
                    lemma_bytes_grow(rows, s + 1, rows.len() as int);
                }
                total = total + row.key.len() + row.value.len() + 8;
                s = s + 1;
            }
            b = b + 1;
        }
        total
    }
}

proof fn lemma_bytes_grow(pairs: Seq<Pair>, m: int, n: int)
    requires
        0 <= m <= n,
    ensures
        plain_bytes(pairs, m) <= plain_bytes(pairs, n),
    decreases n,
{
    if m < n {
        lemma_bytes_grow(pairs, m, n - 1);
    }
}

proof fn lemma_total_grows(blocks: Seq<Seq<Pair>>, m: int, n: int)
    requires
        0 <= m <= n,
    ensures
        plain_total(blocks, m) <= plain_total(blocks, n),
    decreases n,
{
    if m < n {
        lemma_total_grows(blocks, m, n - 1);
    }
}

/// The row of a key and a value.
fn make_row(key: &[u8], value: &[u8]) -> (r: KvRow)
    ensures
        pair_of(r) == (key@, value@),
        row_hashed(r),
{
    let pk: i64 = hash_key(key);
    let k: Vec<u8> = copy_range(key, 0, key.len());
    let x: Vec<u8> = copy_range(value, 0, value.len());
    assert(k@ =~= key@);
    assert(x@ =~= value@);
    KvRow { pk, key: k, value: x }
}

/// Notes the places of a block's rows in the index.
fn index_rows(index: &mut ByteMap<Place>, block: &KvBlock, number: u32)
    requires
        old(index).wf(),
        block.rows@.len() <= u32::MAX,
    ensures
        final(index).wf(),
        forall|k: Seq<u8>|
            #[trigger] index_view(final(index)@).dom().contains(k) <==> index_view(
                old(index)@,
            ).dom().contains(k) || has_key(pairs_of(block.rows@), k),
        forall|k: Seq<u8>|
            index_view(final(index)@).dom().contains(k) ==> #[trigger] index_view(
                final(index)@,
            )[k] == (match last_with(pairs_of(block.rows@), k, block.rows@.len() as int) {
                Some(s) => (number as int, s),
                None => index_view(old(index)@)[k],
            }),
{
    let ghost rows = pairs_of(block.rows@);
    let ghost before = index_view(index@);
    let mut s: usize = 0;
    while s < block.rows.len()
        invariant
            s <= block.rows@.len() <= u32::MAX,
            rows == pairs_of(block.rows@),
            index.wf(),
            forall|k: Seq<u8>|
                #[trigger] index_view(index@).dom().contains(k) <==> before.dom().contains(k)
                    || last_with(rows, k, s as int) is Some,
            forall|k: Seq<u8>|
                index_view(index@).dom().contains(k) ==> #[trigger] index_view(index@)[k] == (
                match last_with(rows, k, s as int) {
                    Some(t) => (number as int, t),
                    None => before[k],
                }),
        decreases block.rows@.len() - s,
    {
        let row: &KvRow = &block.rows[s];
        assert(rows[s as int] == pair_of(*row));
        let key: Vec<u8> = copy_range(row.key.as_slice(), 0, row.key.len());
        assert(key@ =~= row.key@);
        let ghost here = index_view(index@);
        let place: Place = Place { block: BlockId(number), slot: s as u32 };
        index.insert(key, place);
        assert(index_view(index@) =~= here.insert(row.key@, place_of(place)));
        s = s + 1;
    }
}

/// Builds blocks without a store.
pub struct KvProjection;

impl KvProjection {
    /// The block with the given keys and values as its rows.
    pub fn build_block(pairs: &[(&[u8], &[u8])]) -> (r: KvBlock)
        ensures
            block_hashed(r),
            pairs_of(r.rows@) == pairs@.map_values(|p: (&[u8], &[u8])| (p.0@, p.1@)),
    {
        let ghost f = |p: (&[u8], &[u8])| (p.0@, p.1@);
        let mut rows: Vec<KvRow> = Vec::new();
        let mut i: usize = 0;
        assert(pairs_of(rows@) =~= pairs@.take(0).map_values(f));
        while i < pairs.len()
            invariant
                i <= pairs@.len(),
                f == (|p: (&[u8], &[u8])| (p.0@, p.1@)),
                pairs_of(rows@) == pairs@.take(i as int).map_values(f),
                forall|j: int| 0 <= j < rows@.len() ==> row_hashed(#[trigger] rows@[j]),
            decreases pairs@.len() - i,
        {
            let (key, value): (&[u8], &[u8]) = pairs[i];
            let row: KvRow = make_row(key, value);
            let ghost before = rows@;
            rows.push(row);
            i = i + 1;
            assert(pairs_of(rows@) =~= pairs_of(before).push(pair_of(row)));
            assert(pairs@.take(i as int).map_values(f) =~= pairs@.take(i - 1).map_values(f).push(
                f(pairs@[i - 1]),
            ));
        }
        assert(pairs@.take(i as int) =~= pairs@);
        KvBlock { rows }
    }
}

} // verus!
