//! The Merkle-witnessed DAG node: two 64-byte dataset words together with an
//! inclusion branch, folded to the root of the epoch's pinned tree.

use vstd::prelude::*;
use crate::hashes::{zero_bytes, Hash128, Hash512};
use crate::ext::{sha256, sha256_of};

verus! {

/// The mathematical content of a witness: two dataset words and the branch.
pub ghost struct WitnessV {
    pub dag_nodes: Seq<Seq<u8>>,
    pub proof: Seq<Seq<u8>>,
}

impl WitnessV {
    pub open spec fn wf(self) -> bool {
        &&& self.dag_nodes.len() == 2
        &&& self.dag_nodes[0].len() == 64
        &&& self.dag_nodes[1].len() == 64
        &&& self.proof.len() < 64
        &&& forall|j: int| 0 <= j < self.proof.len() ==> (#[trigger] self.proof[j]).len() == 16
    }
}

/// Two 64-byte DAG words plus the Merkle branch placing the pair in the
/// epoch's tree.
pub struct DoubleNodeWithMerkleProof {
    pub dag_nodes: Vec<Hash512>,
    pub proof: Vec<Hash128>,
}

impl View for DoubleNodeWithMerkleProof {
    type V = WitnessV;

    open spec fn view(&self) -> WitnessV {
        WitnessV { dag_nodes: self.dag_nodes.deep_view(), proof: self.proof.deep_view() }
    }
}

impl DeepView for DoubleNodeWithMerkleProof {
    type V = WitnessV;

    open spec fn deep_view(&self) -> WitnessV {
        self@
    }
}

/// The low half of a 32-byte digest: bytes 16 to 32.
pub open spec fn truncated(h: Seq<u8>) -> Seq<u8> {
    h.subrange(16, 32)
}

/// One folding step: the two 16-byte inputs at offsets 16 and 48 of a 64-byte
/// zero-padded buffer, hashed and truncated.
pub open spec fn pair_hash(l: Seq<u8>, r: Seq<u8>) -> Seq<u8> {
    truncated(sha256_of(zero_bytes(16) + l + zero_bytes(16) + r))
}

/// Bit `i` of the leaf index, deciding the folding order at level `i`.
pub open spec fn proof_bit(index: u64, i: int) -> bool {
    (index >> (i as u64)) % 2 != 0
}

/// The accumulator after folding the first `n` branch levels.
pub open spec fn fold_upto(leaf: Seq<u8>, proof: Seq<Seq<u8>>, index: u64, n: int) -> Seq<u8>
    decreases n,
{
    if n <= 0 {
        leaf
    } else {
        let prev = fold_upto(leaf, proof, index, n - 1);
        if !proof_bit(index, n - 1) {
            pair_hash(prev, proof[n - 1])
        } else {
            pair_hash(proof[n - 1], prev)
        }
    }
}

/// The starting leaf: both dataset words hashed together and truncated.
pub open spec fn leaf_of(w: WitnessV) -> Seq<u8> {
    truncated(sha256_of(w.dag_nodes[0] + w.dag_nodes[1]))
}

/// The root a witness folds to when its pair sits at the given leaf index.
pub open spec fn witness_root(w: WitnessV, index: u64) -> Seq<u8> {
    fold_upto(leaf_of(w), w.proof, index, w.proof.len() as int)
}

/// Appends `n` zero bytes.
fn push_zeros(v: &mut Vec<u8>, n: usize)
    ensures
        final(v)@ == old(v)@ + zero_bytes(n as int),
{
    let mut i: usize = 0;
    while i < n
        invariant
            i <= n,
            v@.len() == old(v)@.len() + i,
            v@ == old(v)@ + zero_bytes(i as int),
        decreases n - i,
    {
        v.push(0u8);
        proof {
            assert(v@ =~= old(v)@ + zero_bytes(i + 1));
        }
        i += 1;
    }
}

/// Appends a copy of the given bytes.
fn push_slice(v: &mut Vec<u8>, src: &Vec<u8>)
    ensures
        final(v)@ == old(v)@ + src@,
{
    let mut i: usize = 0;
    while i < src.len()
        invariant
            i <= src.len(),
            v@ == old(v)@ + src@.subrange(0, i as int),
        decreases src.len() - i,
    {
        v.push(src[i]);
        proof {
            assert(v@ =~= old(v)@ + src@.subrange(0, i + 1));
        }
        i += 1;
    }
    proof {
        assert(v@ =~= old(v)@ + src@);
    }
}

impl DoubleNodeWithMerkleProof {
    pub open spec fn wf(&self) -> bool {
        self@.wf()
    }

    /// The low 16 bytes of a 32-byte digest.
    fn truncate_to_h128(arr: &Vec<u8>) -> (r: Hash128)
        requires
            arr@.len() == 32,
        ensures
            r.wf(),
            r@ == truncated(arr@),
    {
        let mut v: Vec<u8> = Vec::new();
        let mut i: usize = 16;
        while i < 32
            invariant
                16 <= i <= 32,
                arr@.len() == 32,
                v@ == arr@.subrange(16, i as int),
            decreases 32 - i,
        {
            v.push(arr[i]);
            proof {
                assert(v@ =~= arr@.subrange(16, i + 1));
            }
            i += 1;
        }
        Hash128::from_fixed(v)
    }

    /// One paired-hash folding step over the zero-padded 64-byte buffer.
    fn hash_h128(l: &Hash128, r: &Hash128) -> (h: Hash128)
        requires
            l.wf(),
            r.wf(),
        ensures
            h.wf(),
            h@ == pair_hash(l@, r@),
    {
        let mut data: Vec<u8> = Vec::new();
        push_zeros(&mut data, 16);
        push_slice(&mut data, l.as_bytes());
        push_zeros(&mut data, 16);
        push_slice(&mut data, r.as_bytes());
        proof {
            assert(data@ =~= zero_bytes(16) + l@ + zero_bytes(16) + r@);
        }
        let d = sha256(&data);
        Self::truncate_to_h128(&d)
    }

    /// Folds the witness's branch from its leaf pair, returning the root of
    /// the epoch tree this witness claims membership of at the given index.
    pub fn apply_merkle_proof(&self, index: u64) -> (r: Hash128)
        requires
            self.wf(),
        ensures
            r.wf(),
            r@ == witness_root(self@, index),
    {
        proof {
            assert(self@.dag_nodes.len() == self.dag_nodes@.len());
            assert(self@.dag_nodes[0] == self.dag_nodes@[0]@);
            assert(self@.dag_nodes[1] == self.dag_nodes@[1]@);
        }
        let mut data: Vec<u8> = Vec::new();
        push_slice(&mut data, self.dag_nodes[0].as_bytes());
        push_slice(&mut data, self.dag_nodes[1].as_bytes());
        let d0 = sha256(&data);
        let mut leaf = Self::truncate_to_h128(&d0);
        proof {
            assert(data@ =~= self@.dag_nodes[0] + self@.dag_nodes[1]);
            assert(leaf@ == leaf_of(self@));
        }
        let mut i: usize = 0;
        while i < self.proof.len()
            invariant
                self.wf(),
                i <= self.proof.len(),
                leaf.wf(),
                leaf@ == fold_upto(leaf_of(self@), self@.proof, index, i as int),
            decreases self.proof.len() - i,
        {
            proof {
                assert(self@.proof.len() == self.proof@.len());
                assert(self@.proof[i as int] == self.proof@[i as int]@);
            }
            if (index >> (i as u64)) % 2 == 0 {
                leaf = Self::hash_h128(&leaf, &self.proof[i]);
            } else {
                leaf = Self::hash_h128(&self.proof[i], &leaf);
            }
            i += 1;
        }
        leaf
    }
}

} // verus!
