//! Merkle trees: a binary hash tree over data blocks, whose root changes with
//! any of the blocks.

use vstd::prelude::*;

use crate::bytes::push_bytes;
use crate::security::hash::{blake3_hash, blake3_of, collision, same_hash};

verus! {

/// A 32-byte BLAKE3 digest.
pub type Hash = [u8; 32];

/// The digest of two child digests.
pub open spec fn pair_hash(left: Hash, right: Hash) -> Hash {
    blake3_of(left@ + right@)
}

/// The right child of the pair that begins at `i`: the next digest, or the
/// same one again at an odd end.
pub open spec fn partner(s: Seq<Hash>, i: int) -> Hash {
    if i + 1 < s.len() {
        s[i + 1]
    } else {
        s[i]
    }
}

/// The level above: one digest for each pair.
pub open spec fn level_above(s: Seq<Hash>) -> Seq<Hash> {
    Seq::new(
        ((s.len() + 1) / 2) as nat,
        |j: int| pair_hash(s[2 * j], partner(s, 2 * j)),
    )
}

/// All levels of the tree over some leaves, the leaves first.
pub open spec fn levels_of(s: Seq<Hash>) -> Seq<Seq<Hash>>
    decreases s.len(),
{
    if s.len() <= 1 {
        seq![s]
    } else {
        seq![s] + levels_of(level_above(s))
    }
}

/// The root of the tree over some leaves, of which there is at least one.
pub open spec fn root_of(s: Seq<Hash>) -> Hash
    decreases s.len(),
{
    if s.len() <= 1 {
        s[0]
    } else {
        root_of(level_above(s))
    }
}

/// The digest beside the one at `i`, and whether it stands to the left.
pub open spec fn sibling(s: Seq<Hash>, i: int) -> (Hash, bool) {
    if i % 2 == 0 {
        (partner(s, i), false)
    } else {
        (s[i - 1], true)
    }
}

/// The siblings on the way from a leaf to the root.
pub open spec fn path_of(s: Seq<Hash>, i: int) -> Seq<(Hash, bool)>
    decreases s.len(),
{
    if s.len() <= 1 {
        seq![]
    } else {
        seq![sibling(s, i)] + path_of(level_above(s), i / 2)
    }
}

/// The digest of a digest and its sibling.
pub open spec fn joined(h: Hash, step: (Hash, bool)) -> Hash {
    if step.1 {
        pair_hash(step.0, h)
    } else {
        pair_hash(h, step.0)
    }
}

/// What a digest becomes along the first `n` steps of a path.
pub open spec fn climbed(h: Hash, path: Seq<(Hash, bool)>, n: int) -> Hash
    decreases n,
{
    if n <= 0 {
        h
    } else {
        joined(climbed(h, path, n - 1), path[n - 1])
    }
}

/// The digests of some blocks.
pub open spec fn leaves_of(blocks: Seq<Seq<u8>>) -> Seq<Hash> {
    blocks.map_values(|b: Seq<u8>| blake3_of(b))
}

/// The bytes of a row of slices.
pub open spec fn block_bytes(blocks: Seq<&[u8]>) -> Seq<Seq<u8>> {
    blocks.map_values(|b: &[u8]| b@)
}

proof fn lemma_climb_first(h: Hash, step: (Hash, bool), rest: Seq<(Hash, bool)>, n: int)
    requires
        0 <= n <= rest.len(),
    ensures
        climbed(h, seq![step] + rest, n + 1) == climbed(joined(h, step), rest, n),
    decreases n,
{
    let path = seq![step] + rest;
    if n > 0 {
        lemma_climb_first(h, step, rest, n - 1);
        assert(path[n] == rest[n - 1]);
    } else {
        assert(path[0] == step);
        assert(climbed(h, path, 0) == h);
    }
}

/// The path of a leaf leads from its digest to the root.
pub proof fn law_path_leads_to_root(s: Seq<Hash>, i: int)
    requires
        0 <= i < s.len(),
    ensures
        climbed(s[i], path_of(s, i), path_of(s, i).len() as int) == root_of(s),
    decreases s.len(),
{
    if s.len() > 1 {
        let up = level_above(s);
        let step = sibling(s, i);
        let rest = path_of(up, i / 2);
        law_path_leads_to_root(up, i / 2);
        assert(joined(s[i], step) == up[i / 2]) by {
            if i % 2 == 0 {
                assert(2 * (i / 2) == i);
            } else {
                assert(2 * (i / 2) == i - 1);
                assert(partner(s, i - 1) == s[i]);
            }
        }
        lemma_climb_first(s[i], step, rest, rest.len() as int);
    }
}

proof fn lemma_level_binds(a: Seq<Hash>, b: Seq<Hash>)
    requires
        a.len() == b.len(),
        a.len() > 0,
        level_above(a) == level_above(b),
        a != b,
    ensures
        collision(),
{
    if a =~= b {
    } else {
        let i = choose|i: int| 0 <= i < a.len() && a[i] != b[i];
        let j = i / 2;
        let up_a = level_above(a);
        let up_b = level_above(b);
        assert(up_a[j] == up_b[j]);
        let x = a[2 * j]@ + partner(a, 2 * j)@;
        let y = b[2 * j]@ + partner(b, 2 * j)@;
        assert(blake3_of(x) == blake3_of(y));
        if x == y {
            assert(x.take(32) =~= a[2 * j]@);
            assert(y.take(32) =~= b[2 * j]@);
            assert(x.skip(32) =~= partner(a, 2 * j)@);
            assert(y.skip(32) =~= partner(b, 2 * j)@);
            crate::security::hash::lemma_same_digest(a[2 * j], b[2 * j]);
            crate::security::hash::lemma_same_digest(partner(a, 2 * j), partner(b, 2 * j));
            if i % 2 == 0 {
                assert(2 * j == i);
            } else {
                assert(2 * j + 1 == i);
            }
        }
    }
}

proof fn lemma_root_binds(a: Seq<Hash>, b: Seq<Hash>)
    requires
        a.len() == b.len(),
        a.len() > 0,
        root_of(a) == root_of(b),
        a != b,
    ensures
        collision(),
    decreases a.len(),
{
    if a.len() > 1 {
        let up_a = level_above(a);
        let up_b = level_above(b);
        if up_a == up_b {
            lemma_level_binds(a, b);
        } else {
            lemma_root_binds(up_a, up_b);
        }
    } else {
        assert(a =~= b);
    }
}

/// Changing blocks changes the root: two rows of as many blocks that differ
/// have the same root only where BLAKE3 gives two byte strings one digest.
pub proof fn law_root_binds_blocks(a: Seq<Seq<u8>>, b: Seq<Seq<u8>>)
    requires
        a.len() == b.len(),
        a.len() > 0,
        a != b,
        root_of(leaves_of(a)) == root_of(leaves_of(b)),
    ensures
        collision(),
{
    if leaves_of(a) == leaves_of(b) {
        if a =~= b {
        } else {
            let i = choose|i: int| 0 <= i < a.len() && a[i] != b[i];
            assert(leaves_of(a)[i] == leaves_of(b)[i]);
            assert(blake3_of(a[i]) == blake3_of(b[i]));
        }
    } else {
        lemma_root_binds(leaves_of(a), leaves_of(b));
    }
}

/// A tree over data blocks.
#[derive(Clone, Debug)]
pub struct MerkleTree {
    leaves: Vec<Hash>,
    levels: Vec<Vec<Hash>>,
}

impl MerkleTree {
    /// The digests of the blocks.
    pub closed spec fn leaves(&self) -> Seq<Hash> {
        self.leaves@
    }

    /// The levels are those of the leaves.
    pub closed spec fn wf(&self) -> bool {
        self.levels@.map_values(|l: Vec<Hash>| l@) == levels_of(self.leaves@)
    }

    /// Builds the tree over some blocks.
    pub fn build(blocks: &[&[u8]]) -> (res: Self)
        ensures
            res.wf(),
            res.leaves() == leaves_of(block_bytes(blocks@)),
    {
        let ghost want = leaves_of(block_bytes(blocks@));
        let ghost f = |l: Vec<Hash>| l@;
        let mut leaves: Vec<Hash> = Vec::new();
        let mut i: usize = 0;
        while i < blocks.len()
            invariant
                i <= blocks@.len(),
                want == leaves_of(block_bytes(blocks@)),
                leaves@ == want.take(i as int),
            decreases blocks@.len() - i,
        {
            leaves.push(blake3_hash(blocks[i]));
            i = i + 1;
            assert(leaves@ =~= want.take(i as int));
        }
        assert(want.take(i as int) =~= want);
        let mut levels: Vec<Vec<Hash>> = Vec::new();
        let mut current: Vec<Hash> = copy_hashes(&leaves);
        assert(levels@.map_values(f) =~= seq![]);
        assert(levels@.map_values(f) + levels_of(current@) =~= levels_of(want));
        while current.len() > 1
            invariant
                f == (|l: Vec<Hash>| l@),
                levels@.map_values(f) + levels_of(current@) == levels_of(want),
            decreases current@.len(),
        {
            let next: Vec<Hash> = next_level(&current);
            let ghost before = levels@;
            let ghost here = current@;
            levels.push(current);
            assert(levels@.map_values(f) =~= before.map_values(f).push(here));
            assert(levels@.map_values(f) + levels_of(next@) =~= before.map_values(f) + levels_of(
                here,
            ));
            current = next;
        }
        let ghost before = levels@;
        let ghost here = current@;
        levels.push(current);
        assert(levels@.map_values(f) =~= before.map_values(f).push(here));
        assert(levels@.map_values(f) =~= before.map_values(f) + levels_of(here));
        MerkleTree { leaves, levels }
    }

    /// The root; `None` for a tree without blocks.
    pub fn root(&self) -> (r: Option<Hash>)
        requires
            self.wf(),
        ensures
            r == (if self.leaves().len() > 0 {
                Some(root_of(self.leaves()))
            } else {
                None
            }),
    {
        let ghost f = |l: Vec<Hash>| l@;
        let n: usize = self.levels.len();
        proof {
            lemma_levels(self.leaves@);
            assert(self.levels@.map_values(f).len() == n);
        }
        let last: &Vec<Hash> = &self.levels[n - 1];
        assert(last@ == self.levels@.map_values(f)[n - 1]);
        if last.len() > 0 {
            Some(last[0])
        } else {
            None
        }
    }

    /// The number of blocks.
    pub fn leaf_count(&self) -> (r: usize)
        ensures
            r == self.leaves().len(),
    {
        self.leaves.len()
    }

    /// Whether a block is the one that the tree was built over at a place.
    pub fn verify_block(&self, block_index: usize, block_data: &[u8]) -> (r: bool)
        ensures
            r == (block_index < self.leaves().len() && self.leaves()[block_index as int]
                == blake3_of(block_data@)),
    {
        if block_index >= self.leaves.len() {
            return false;
        }
        let computed: Hash = blake3_hash(block_data);
        same_hash(&computed, &self.leaves[block_index])
    }

    /// The proof that a block belongs to the tree; `None` where there is no
    /// block at the place.
    pub fn proof_for(&self, block_index: usize) -> (r: Option<MerkleProof>)
        requires
            self.wf(),
        ensures
            match r {
                Some(p) => block_index < self.leaves().len() && p.leaf_hash
                    == self.leaves()[block_index as int] && p.path@ == path_of(
                    self.leaves(),
                    block_index as int,
                ) && p.root == root_of(self.leaves()),
                None => block_index >= self.leaves().len(),
            },
    {
        if block_index >= self.leaves.len() {
            return None;
        }
        let root: Hash = match self.root() {
            Some(h) => h,
            None => {
                return None;
            },
        };
        let ghost f = |l: Vec<Hash>| l@;
        let ghost all = self.levels@.map_values(f);
        let ghost want = path_of(self.leaves@, block_index as int);
        let mut path: Vec<(Hash, bool)> = Vec::new();
        let mut idx: usize = block_index;
        let mut k: usize = 0;
        let n: usize = self.levels.len();
        proof {
            lemma_levels(self.leaves@);
            assert(all.len() == n);
            assert(all.skip(0) =~= all);
            assert(path@ + path_of(all[0], idx as int) =~= want);
        }
        while k < n - 1
            invariant
                k <= n - 1,
                n == self.levels@.len(),
                f == (|l: Vec<Hash>| l@),
                all == self.levels@.map_values(f),
                all.skip(k as int) == levels_of(all[k as int]),
                idx < all[k as int].len(),
                path@ + path_of(all[k as int], idx as int) == want,
            decreases n - k,
        {
            let level: &Vec<Hash> = &self.levels[k];
            let ghost here = all[k as int];
            assert(here == level@);
            let ghost up = level_above(here);
            proof {
                lemma_levels(here);
                assert(all.skip(k as int).len() == n - k);
                assert(here.len() > 1);
                assert(levels_of(here)[1] == levels_of(up)[0]);
                lemma_levels(up);
                assert(all[k + 1] == all.skip(k as int)[1]);
                assert(all.skip(k + 1) =~= all.skip(k as int).skip(1));
                assert(levels_of(here).skip(1) =~= levels_of(up));
            }
            let len: usize = level.len();
            let step: (Hash, bool) = if idx % 2 == 0 {
                let right: Hash = if idx < len - 1 {
                    level[idx + 1]
                } else {
                    level[idx]
                };
                (right, false)
            } else {
                (level[idx - 1], true)
            };
            assert(step == sibling(here, idx as int));
            let ghost before = path@;
            path.push(step);
            assert(path@ + path_of(up, (idx / 2) as int) =~= before + path_of(here, idx as int));
            idx = idx / 2;
            k = k + 1;
        }
        proof {
            lemma_levels(all[k as int]);
            assert(all.skip(k as int).len() == 1);
            assert(path@ + path_of(all[k as int], idx as int) =~= path@);
        }
        Some(MerkleProof { leaf_hash: self.leaves[block_index], path, root })
    }

    /// Whether the tree has the given root.
    pub fn verify_root(&self, expected_root: Hash) -> (r: bool)
        requires
            self.wf(),
        ensures
            r == (self.leaves().len() > 0 && root_of(self.leaves()) == expected_root),
    {
        match self.root() {
            Some(h) => same_hash(&h, &expected_root),
            None => false,
        }
    }
}

proof fn lemma_levels(s: Seq<Hash>)
    ensures
        levels_of(s).len() > 0,
        levels_of(s)[0] == s,
        levels_of(s).last().len() <= 1,
        s.len() > 0 ==> levels_of(s).last().len() == 1 && levels_of(s).last()[0] == root_of(s),
        s.len() == 0 ==> levels_of(s).last().len() == 0,
        levels_of(s).len() == 1 <==> s.len() <= 1,
    decreases s.len(),
{
    if s.len() > 1 {
        lemma_levels(level_above(s));
        assert(levels_of(s).last() == levels_of(level_above(s)).last());
    }
}

/// A copy of a row of digests.
fn copy_hashes(v: &Vec<Hash>) -> (r: Vec<Hash>)
    ensures
        r@ == v@,
{
    let mut out: Vec<Hash> = Vec::new();
    let mut i: usize = 0;
    while i < v.len()
        invariant
            i <= v@.len(),
            out@ == v@.take(i as int),
        decreases v@.len() - i,
    {
        out.push(v[i]);
        i = i + 1;
        assert(out@ =~= v@.take(i as int));
    }
    assert(v@.take(i as int) =~= v@);
    out
}

/// The level above some digests.
fn next_level(current: &Vec<Hash>) -> (r: Vec<Hash>)
    ensures
        r@ == level_above(current@),
{
    let ghost want = level_above(current@);
    let n: usize = current.len();
    let mut next: Vec<Hash> = Vec::new();
    let mut i: usize = 0;
    while i < n
        invariant
            n == current@.len(),
            want == level_above(current@),
            i == 2 * next@.len() || (i == n && i == 2 * next@.len() - 1),
            i <= n,
            next@.len() <= want.len(),
            forall|j: int| 0 <= j < next@.len() ==> #[trigger] next@[j] == want[j],
        decreases n - i,
    {
        let left: Hash = current[i];
        let right: Hash = if i < n - 1 {
            current[i + 1]
        } else {
            current[i]
        };
        let h: Hash = hash_pair(&left, &right);
        assert(i == 2 * next@.len());
        assert(h == want[next@.len() as int]);
        next.push(h);
        i = if n - i > 2 {
            i + 2
        } else {
            n
        };
    }
    assert(next@ =~= want);
    next
}

/// The digest of two child digests.
fn hash_pair(left: &Hash, right: &Hash) -> (r: Hash)
    ensures
        r == pair_hash(*left, *right),
{
    let mut both: Vec<u8> = Vec::new();
    push_bytes(&mut both, left.as_slice());
    push_bytes(&mut both, right.as_slice());
    assert(both@ =~= left@ + right@);
    blake3_hash(both.as_slice())
}

/// A proof that one block belongs to a tree.
#[derive(Clone, Debug)]
pub struct MerkleProof {
    /// The digest of the block.
    pub leaf_hash: Hash,
    /// The siblings from the leaf to the root, each with whether it stands to
    /// the left.
    pub path: Vec<(Hash, bool)>,
    /// The root.
    pub root: Hash,
}

impl MerkleProof {
    /// Whether the proof shows that the block belongs to a tree with the root.
    pub fn verify(&self, block_data: &[u8]) -> (r: bool)
        ensures
            r == (blake3_of(block_data@) == self.leaf_hash && climbed(
                self.leaf_hash,
                self.path@,
                self.path@.len() as int,
            ) == self.root),
    {
        let computed: Hash = blake3_hash(block_data);
        if !same_hash(&computed, &self.leaf_hash) {
            return false;
        }
        let mut current: Hash = self.leaf_hash;
        let mut i: usize = 0;
        while i < self.path.len()
            invariant
                i <= self.path@.len(),
                current == climbed(self.leaf_hash, self.path@, i as int),
            decreases self.path@.len() - i,
        {
            let step: (Hash, bool) = self.path[i];
            current = if step.1 {
                hash_pair(&step.0, &current)
            } else {
                hash_pair(&current, &step.0)
            };
            i = i + 1;
        }
        same_hash(&current, &self.root)
    }
}

} // verus!
