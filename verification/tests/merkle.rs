//! Merkle trees.

use cendb::security::merkle::MerkleTree;

#[test]
fn build_and_verify_tree() {
    let blocks: Vec<&[u8]> = vec![b"block0", b"block1", b"block2", b"block3"];
    let tree = MerkleTree::build(&blocks);

    assert_eq!(tree.leaf_count(), 4);
    assert!(tree.root().is_some());

    for (i, block) in blocks.iter().enumerate() {
        assert!(tree.verify_block(i, block));
    }

    assert!(!tree.verify_block(0, b"TAMPERED"));
}

#[test]
fn merkle_proof_verification() {
    let blocks: Vec<&[u8]> = vec![b"a", b"b", b"c", b"d", b"e"];
    let tree = MerkleTree::build(&blocks);

    for (i, block) in blocks.iter().enumerate() {
        let proof = tree.proof_for(i).unwrap();
        assert!(proof.verify(block), "proof for block {} failed", i);
        assert!(!proof.verify(b"wrong data"), "proof for block {} should reject wrong data", i);
    }
}

#[test]
fn tamper_detection() {
    let blocks: Vec<&[u8]> = vec![b"data1", b"data2", b"data3"];
    let tree = MerkleTree::build(&blocks);
    let root = tree.root().unwrap();

    let tampered: Vec<&[u8]> = vec![b"data1", b"TAMPERED", b"data3"];
    let tampered_tree = MerkleTree::build(&tampered);

    assert_ne!(tampered_tree.root(), Some(root));
}

#[test]
fn single_block_tree() {
    let tree = MerkleTree::build(&[b"only block" as &[u8]]);
    assert_eq!(tree.leaf_count(), 1);
    assert!(tree.root().is_some());
    assert!(tree.verify_block(0, b"only block"));
}

#[test]
fn empty_tree() {
    let tree = MerkleTree::build(&[] as &[&[u8]]);
    assert_eq!(tree.leaf_count(), 0);
    assert!(tree.root().is_none());
}

#[test]
fn no_proof_beyond_the_leaves() {
    let tree = MerkleTree::build(&[b"a" as &[u8], b"b"]);
    assert!(tree.proof_for(2).is_none());
    assert!(!tree.verify_block(2, b"a"));
    assert!(tree.verify_root(tree.root().unwrap()));
    assert!(!tree.verify_root([0u8; 32]));
}

#[test]
fn root_of_two_is_the_hash_of_their_hashes() {
    let a = blake3::hash(b"a");
    let b = blake3::hash(b"b");
    let mut both = a.as_bytes().to_vec();
    both.extend_from_slice(b.as_bytes());
    let tree = MerkleTree::build(&[b"a" as &[u8], b"b"]);
    assert_eq!(tree.root(), Some(*blake3::hash(&both).as_bytes()));
}
