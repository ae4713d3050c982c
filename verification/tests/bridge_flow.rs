use ethbridge::bridge::{BlockHeader, BridgeError, EthBridge};
use ethbridge::hashes::{Hash128, Hash256, Hash512, Hash64};
use ethbridge::merkle::DoubleNodeWithMerkleProof;
use ethbridge::u256::U256;
use sha2::{Digest, Sha256};

fn h256(a: u8, b: u8) -> Hash256 {
    let mut v = vec![0u8; 32];
    v[0] = a;
    v[1] = b;
    Hash256::from_bytes(v).unwrap()
}

fn nonce64(v: u64) -> Hash64 {
    Hash64::from_bytes(v.to_le_bytes().to_vec()).unwrap()
}

fn witness() -> DoubleNodeWithMerkleProof {
    let n0 = Hash512::from_bytes(vec![1u8; 64]).unwrap();
    let n1 = Hash512::from_bytes(vec![2u8; 64]).unwrap();
    DoubleNodeWithMerkleProof { dag_nodes: vec![n0, n1], proof: vec![] }
}

fn witness_root() -> Hash128 {
    let mut buf = vec![1u8; 64];
    buf.extend_from_slice(&[2u8; 64]);
    let digest = Sha256::digest(&buf);
    Hash128::from_bytes(digest[16..32].to_vec()).unwrap()
}

fn witnesses(n: usize) -> Vec<DoubleNodeWithMerkleProof> {
    (0..n).map(|_| witness()).collect()
}

fn header(
    number: u64,
    parent: &Hash256,
    difficulty: u64,
    timestamp: u64,
    hash: &Hash256,
    nonce_val: u64,
) -> BlockHeader {
    BlockHeader {
        parent_hash: parent.duplicate(),
        number,
        difficulty: U256::from_u64(difficulty),
        gas_used: U256::from_u64(0),
        gas_limit: U256::from_u64(10000),
        timestamp,
        nonce: nonce64(nonce_val),
        hash: hash.duplicate(),
        partial_hash: h256(9, (number % 251) as u8),
    }
}

/// Submits a header, searching nonces until the proof of work passes.
fn submit_until_ok(bridge: &mut EthBridge, mut h: BlockHeader) {
    for v in 0..4096u64 {
        h.nonce = nonce64(v);
        match bridge.add_block_header(h.duplicate(), witnesses(80)) {
            Ok(()) => return,
            Err(BridgeError::InvalidHeader) => continue,
            Err(e) => panic!("unexpected error {:?}", e),
        }
    }
    panic!("no nonce passed the proof of work");
}

fn bootstrapped() -> (EthBridge, Hash256) {
    let mut bridge = EthBridge::init(13, vec![witness_root()]);
    let g = h256(10, 1);
    let first = header(400001, &h256(0, 0), 1, 1000, &g, 0);
    assert_eq!(bridge.add_block_header(first, vec![]), Ok(()));
    (bridge, g)
}

#[test]
fn genesis_bootstrap() {
    let mut bridge = EthBridge::init(0, vec![witness_root()]);
    assert!(bridge.initialized());
    assert_eq!(bridge.last_block_number(), 0);
    let g = h256(10, 1);
    let first = header(400001, &h256(7, 7), 5, 1000, &g, 0);
    assert_eq!(bridge.add_block_header(first, vec![]), Ok(()));
    assert_eq!(bridge.last_block_number(), 400001);
    assert_eq!(bridge.block_hash(400001), Some(h256(10, 1)));
}

#[test]
fn linear_extension() {
    let (mut bridge, g) = bootstrapped();
    let c = h256(10, 2);
    let child = header(400002, &g, 1, 1001, &c, 0);
    assert_eq!(bridge.add_block_header(child, witnesses(80)), Ok(()));
    assert_eq!(bridge.block_hash(400002), Some(h256(10, 2)));
    assert_eq!(bridge.block_hash(400001), Some(h256(10, 1)));
    assert_eq!(bridge.last_block_number(), 400002);
}

#[test]
fn resubmission_is_a_no_op() {
    let (mut bridge, g) = bootstrapped();
    let c = h256(10, 2);
    let child = header(400002, &g, 1, 1001, &c, 0);
    assert_eq!(bridge.add_block_header(child.duplicate(), witnesses(80)), Ok(()));
    let before = bridge.last_block_number();
    assert_eq!(bridge.add_block_header(child, vec![]), Ok(()));
    assert_eq!(bridge.last_block_number(), before);
    assert_eq!(bridge.block_hash(400002), Some(h256(10, 2)));
}

#[test]
fn rejected_missing_parent() {
    let (mut bridge, _g) = bootstrapped();
    let stranger = header(400002, &h256(66, 66), 1, 1001, &h256(10, 9), 0);
    assert_eq!(
        bridge.add_block_header(stranger, witnesses(80)),
        Err(BridgeError::UnknownParent)
    );
    assert_eq!(bridge.last_block_number(), 400001);
    assert_eq!(bridge.block_hash(400002), None);
}

#[test]
fn rejected_bad_witness() {
    let (mut bridge, g) = bootstrapped();
    let bad = DoubleNodeWithMerkleProof {
        dag_nodes: vec![
            Hash512::from_bytes(vec![3u8; 64]).unwrap(),
            Hash512::from_bytes(vec![4u8; 64]).unwrap(),
        ],
        proof: vec![],
    };
    let mut ws = vec![bad];
    ws.extend(witnesses(79));
    let child = header(400002, &g, 1, 1001, &h256(10, 2), 0);
    assert_eq!(
        bridge.add_block_header(child, ws),
        Err(BridgeError::MerkleRootMismatch)
    );
    assert_eq!(bridge.last_block_number(), 400001);
    assert_eq!(bridge.block_hash(400002), None);
}

#[test]
fn rejected_epoch_without_root() {
    let mut bridge = EthBridge::init(0, vec![witness_root()]);
    let g = h256(10, 1);
    let first = header(400001, &h256(0, 0), 1, 1000, &g, 0);
    assert_eq!(bridge.add_block_header(first, vec![]), Ok(()));
    // Epoch 13 has no pinned root when the list starts at epoch 0 with one
    // entry, so the steady-state path must refuse.
    let child = header(400002, &g, 1, 1001, &h256(10, 2), 0);
    assert_eq!(
        bridge.add_block_header(child, witnesses(80)),
        Err(BridgeError::EpochOutOfRange)
    );
}

#[test]
fn rejected_consensus_rule() {
    let (mut bridge, g) = bootstrapped();
    // Timestamp not strictly increasing.
    let child = header(400002, &g, 1, 1000, &h256(10, 2), 0);
    assert_eq!(
        bridge.add_block_header(child, witnesses(80)),
        Err(BridgeError::InvalidHeader)
    );
    // Height not the successor.
    let child = header(400003, &g, 1, 1001, &h256(10, 3), 0);
    assert_eq!(
        bridge.add_block_header(child, witnesses(80)),
        Err(BridgeError::InvalidHeader)
    );
}

#[test]
fn reorg_with_higher_difficulty() {
    let (mut bridge, g) = bootstrapped();
    let a2 = h256(11, 2);
    let a3 = h256(11, 3);
    let a4 = h256(11, 4);
    submit_until_ok(&mut bridge, header(400002, &g, 1, 1001, &a2, 0));
    submit_until_ok(&mut bridge, header(400003, &a2, 1, 1002, &a3, 0));
    submit_until_ok(&mut bridge, header(400004, &a3, 1, 1003, &a4, 0));
    assert_eq!(bridge.last_block_number(), 400004);
    // A shorter side chain with strictly more cumulative work.
    let b2 = h256(12, 2);
    let b3 = h256(12, 3);
    submit_until_ok(&mut bridge, header(400002, &g, 3, 2001, &b2, 0));
    // Equal total difficulty and odd difficulty: the main chain stays.
    assert_eq!(bridge.block_hash(400002), Some(h256(11, 2)));
    submit_until_ok(&mut bridge, header(400003, &b2, 3, 2002, &b3, 0));
    // Now the side chain wins and the canonical index is rewritten.
    assert_eq!(bridge.last_block_number(), 400003);
    assert_eq!(bridge.block_hash(400002), Some(h256(12, 2)));
    assert_eq!(bridge.block_hash(400003), Some(h256(12, 3)));
    assert_eq!(bridge.block_hash(400004), None);
    assert_eq!(bridge.block_hash(400001), Some(h256(10, 1)));
}

#[test]
fn gc_at_finality() {
    let (mut bridge, g) = bootstrapped();
    let mut parent = g.duplicate();
    for i in 0..32u64 {
        let number = 400002 + i;
        let hash = h256(20, (i + 1) as u8);
        submit_until_ok(&mut bridge, header(number, &parent, 1, 1001 + i, &hash, 0));
        parent = hash;
    }
    assert_eq!(bridge.last_block_number(), 400033);
    // Heights at or above 400003 are retained: resubmitting one is a no-op.
    let kept = header(400003, &h256(20, 1), 1, 1002, &h256(20, 2), 0);
    assert_eq!(bridge.add_block_header(kept, vec![]), Ok(()));
    // The header at 400002 was pruned together with its parent, so a
    // resubmission no longer finds the parent.
    let pruned = header(400002, &g, 1, 1001, &h256(20, 1), 0);
    assert_eq!(
        bridge.add_block_header(pruned, witnesses(80)),
        Err(BridgeError::UnknownParent)
    );
    // Canonical entries below the horizon are removed lazily and still
    // readable until then.
    assert_eq!(bridge.block_hash(400001), Some(h256(10, 1)));
    assert_eq!(bridge.block_hash(400033), Some(h256(20, 32)));
}

#[test]
fn rejected_short_witness_list() {
    let (mut bridge, g) = bootstrapped();
    let child = header(400002, &g, 1, 1001, &h256(10, 2), 0);
    assert_eq!(
        bridge.add_block_header(child, witnesses(1)),
        Err(BridgeError::MissingWitness)
    );
    assert_eq!(bridge.last_block_number(), 400001);
}

#[test]
fn rejected_total_difficulty_overflow() {
    let mut bridge = EthBridge::init(13, vec![witness_root()]);
    let g = h256(10, 1);
    let mut first = header(400001, &h256(0, 0), 1, 1000, &g, 0);
    first.difficulty = U256 { l0: u64::MAX, l1: u64::MAX, l2: u64::MAX, l3: u64::MAX };
    assert_eq!(bridge.add_block_header(first, vec![]), Ok(()));
    // The child passes every check but its cumulative difficulty would not
    // fit in 256 bits.
    let child = header(400002, &g, 1, 1001, &h256(10, 2), 0);
    assert_eq!(
        bridge.add_block_header(child, witnesses(80)),
        Err(BridgeError::TotalDifficultyOverflow)
    );
    assert_eq!(bridge.last_block_number(), 400001);
    assert_eq!(bridge.block_hash(400002), None);
}

#[test]
fn dag_merkle_root_lookup() {
    let bridge = EthBridge::init(5, vec![witness_root(), Hash128::from_bytes(vec![7u8; 16]).unwrap()]);
    assert_eq!(bridge.dag_merkle_root(5), Ok(witness_root()));
    assert_eq!(
        bridge.dag_merkle_root(6),
        Ok(Hash128::from_bytes(vec![7u8; 16]).unwrap())
    );
    assert_eq!(bridge.dag_merkle_root(4), Err(BridgeError::EpochOutOfRange));
    assert_eq!(bridge.dag_merkle_root(7), Err(BridgeError::EpochOutOfRange));
    assert!(!EthBridge::init(0, vec![]).initialized());
}
