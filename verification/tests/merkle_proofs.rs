use ethbridge::hashes::{Hash128, Hash512};
use ethbridge::merkle::DoubleNodeWithMerkleProof;
use sha2::{Digest, Sha256};

fn leaf_bytes(pair: &[Vec<u8>; 2]) -> Vec<u8> {
    let mut buf = pair[0].clone();
    buf.extend_from_slice(&pair[1]);
    Sha256::digest(&buf)[16..32].to_vec()
}

fn pair_hash_bytes(l: &[u8], r: &[u8]) -> Vec<u8> {
    let mut buf = vec![0u8; 64];
    buf[16..32].copy_from_slice(l);
    buf[48..64].copy_from_slice(r);
    Sha256::digest(&buf)[16..32].to_vec()
}

fn pair(a: u8, b: u8) -> [Vec<u8>; 2] {
    [vec![a; 64], vec![b; 64]]
}

fn witness(pair: &[Vec<u8>; 2], proof: Vec<Vec<u8>>) -> DoubleNodeWithMerkleProof {
    DoubleNodeWithMerkleProof {
        dag_nodes: vec![
            Hash512::from_bytes(pair[0].clone()).unwrap(),
            Hash512::from_bytes(pair[1].clone()).unwrap(),
        ],
        proof: proof.into_iter().map(|p| Hash128::from_bytes(p).unwrap()).collect(),
    }
}

#[test]
fn empty_proof_folds_to_the_leaf() {
    let p = pair(1, 2);
    let w = witness(&p, vec![]);
    // Any index folds to the same value when there are no siblings.
    assert_eq!(w.apply_merkle_proof(0).as_bytes(), &leaf_bytes(&p));
    assert_eq!(w.apply_merkle_proof(12345).as_bytes(), &leaf_bytes(&p));
}

#[test]
fn four_leaf_tree_round_trip() {
    // A tree over four leaf pairs, built independently of the library.
    let pairs = [pair(1, 2), pair(3, 4), pair(5, 6), pair(7, 8)];
    let leaves: Vec<Vec<u8>> = pairs.iter().map(leaf_bytes).collect();
    let n01 = pair_hash_bytes(&leaves[0], &leaves[1]);
    let n23 = pair_hash_bytes(&leaves[2], &leaves[3]);
    let root = pair_hash_bytes(&n01, &n23);

    // Each leaf's witness must fold back to the root at its own index.
    let w0 = witness(&pairs[0], vec![leaves[1].clone(), n23.clone()]);
    assert_eq!(w0.apply_merkle_proof(0).as_bytes(), &root);
    let w1 = witness(&pairs[1], vec![leaves[0].clone(), n23.clone()]);
    assert_eq!(w1.apply_merkle_proof(1).as_bytes(), &root);
    let w2 = witness(&pairs[2], vec![leaves[3].clone(), n01.clone()]);
    assert_eq!(w2.apply_merkle_proof(2).as_bytes(), &root);
    let w3 = witness(&pairs[3], vec![leaves[2].clone(), n01.clone()]);
    assert_eq!(w3.apply_merkle_proof(3).as_bytes(), &root);

    // A wrong index folds in the wrong order and misses the root.
    assert_ne!(w0.apply_merkle_proof(1).as_bytes(), &root);
    // A tampered sibling misses the root.
    let bad = witness(&pairs[0], vec![leaves[2].clone(), n23.clone()]);
    assert_ne!(bad.apply_merkle_proof(0).as_bytes(), &root);
}
