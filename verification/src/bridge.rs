//! The header-acceptance state machine: Ethash proof-of-work checking by
//! Merkle-witnessed DAG lookup, the inter-header consensus rules, the
//! fork-aware canonical index with bounded reorgs, and pruning below the
//! finality horizon.

use vstd::prelude::*;
use vstd::arithmetic::div_mod::lemma_fundamental_div_mod;
use vstd::arithmetic::div_mod::lemma_mod_bound;
use crate::hashes::{zero_bytes, Hash64, Hash128, Hash256, Hash512, bytes_eq};
use crate::u256::{U256, wide_lt, wide_le};
use crate::merkle::{DoubleNodeWithMerkleProof, WitnessV, witness_root};
use crate::ext::{
    be_nat, boundary_of, cross_boundary, full_size_of, get_full_size, hashimoto_of, run_hashimoto,
    u256_from_be,
};
use crate::store::{distinct_seq, HashGroup, Height, Table};
use crate::{EPOCH_LENGTH, FINALITY_DEPTH};

verus! {

/// Why a submission was refused. Every failure leaves the state untouched.
#[derive(Clone, Copy, PartialEq, Eq, Structural, Debug)]
pub enum BridgeError {
    /// The parent of the submitted header is not stored.
    UnknownParent,
    /// The header's epoch has no pinned Merkle root, or lies beyond the
    /// machine bound on dataset sizes.
    EpochOutOfRange,
    /// Fewer witnesses were submitted than the mix required.
    MissingWitness,
    /// A witness folded to something other than the epoch's pinned root.
    MerkleRootMismatch,
    /// The proof-of-work threshold or an inter-header consensus rule failed.
    InvalidHeader,
    /// The cumulative difficulty would not fit in 256 bits.
    TotalDifficultyOverflow,
}

/// A decoded block header of the source ledger. The `hash` and
/// `partial_hash` fields are the digests cached by the decoder.
pub struct BlockHeader {
    pub parent_hash: Hash256,
    pub number: u64,
    pub difficulty: U256,
    pub gas_used: U256,
    pub gas_limit: U256,
    pub timestamp: u64,
    pub nonce: Hash64,
    pub hash: Hash256,
    pub partial_hash: Hash256,
}

/// The mathematical content of a header.
pub ghost struct BlockHeaderV {
    pub parent_hash: Seq<u8>,
    pub number: u64,
    pub difficulty: nat,
    pub gas_used: nat,
    pub gas_limit: nat,
    pub timestamp: u64,
    pub nonce: Seq<u8>,
    pub hash: Seq<u8>,
    pub partial_hash: Seq<u8>,
}

impl BlockHeaderV {
    pub open spec fn wf(self) -> bool {
        &&& self.parent_hash.len() == 32
        &&& self.hash.len() == 32
        &&& self.partial_hash.len() == 32
        &&& self.nonce.len() == 8
    }
}

impl View for BlockHeader {
    type V = BlockHeaderV;

    open spec fn view(&self) -> BlockHeaderV {
        BlockHeaderV {
            parent_hash: self.parent_hash@,
            number: self.number,
            difficulty: self.difficulty.as_nat(),
            gas_used: self.gas_used.as_nat(),
            gas_limit: self.gas_limit.as_nat(),
            timestamp: self.timestamp,
            nonce: self.nonce@,
            hash: self.hash@,
            partial_hash: self.partial_hash@,
        }
    }
}

impl BlockHeader {
    pub open spec fn wf(&self) -> bool {
        self@.wf()
    }

    /// A copy of the same header.
    pub fn duplicate(&self) -> (r: Self)
        ensures
            r@ == self@,
    {
        let r = BlockHeader {
            parent_hash: self.parent_hash.duplicate(),
            number: self.number,
            difficulty: self.difficulty,
            gas_used: self.gas_used,
            gas_limit: self.gas_limit,
            timestamp: self.timestamp,
            nonce: self.nonce.duplicate(),
            hash: self.hash.duplicate(),
            partial_hash: self.partial_hash.duplicate(),
        };
        r
    }
}

/// Metadata kept per stored header.
pub struct HeaderInfo {
    pub total_difficulty: U256,
    pub parent_hash: Hash256,
    pub number: u64,
}

/// The mathematical content of per-header metadata.
pub ghost struct HeaderInfoV {
    pub total_difficulty: nat,
    pub parent_hash: Seq<u8>,
    pub number: u64,
}

impl View for HeaderInfo {
    type V = HeaderInfoV;

    open spec fn view(&self) -> HeaderInfoV {
        HeaderInfoV {
            total_difficulty: self.total_difficulty.as_nat(),
            parent_hash: self.parent_hash@,
            number: self.number,
        }
    }
}

impl HeaderInfoV {
    pub open spec fn wf(self) -> bool {
        self.parent_hash.len() == 32
    }
}

/// The bridge: the pinned per-epoch roots and the pruned, fork-aware store
/// of accepted headers.
pub struct EthBridge {
    dags_start_epoch: u64,
    dags_merkle_roots: Vec<Hash128>,
    best_header_hash: Hash256,
    canonical_header_hashes: Table<Height, Hash256>,
    headers: Table<Hash256, BlockHeader>,
    infos: Table<Hash256, HeaderInfo>,
    recent_header_hashes: Table<Height, HashGroup>,
}

impl EthBridge {
    /// The first epoch with a pinned root.
    pub closed spec fn start_epoch(self) -> u64 {
        self.dags_start_epoch
    }

    /// The pinned per-epoch Merkle roots.
    pub closed spec fn roots_seq(self) -> Seq<Seq<u8>> {
        self.dags_merkle_roots.deep_view()
    }

    /// The hash of the canonical tip; all zero before the first submission.
    pub closed spec fn best_hash(self) -> Seq<u8> {
        self.best_header_hash@
    }

    /// Every stored header, by hash.
    pub closed spec fn headers_map(self) -> Map<Seq<u8>, BlockHeaderV> {
        self.headers@
    }

    /// The stored metadata, by hash.
    pub closed spec fn infos_map(self) -> Map<Seq<u8>, HeaderInfoV> {
        self.infos@
    }

    /// The canonical chain index, by height.
    pub closed spec fn canonical_map(self) -> Map<u64, Seq<u8>> {
        self.canonical_header_hashes@
    }

    /// Every known hash at each height, across forks.
    pub closed spec fn recent_map(self) -> Map<u64, Seq<Seq<u8>>> {
        self.recent_header_hashes@
    }

    /// The height of the canonical tip, or zero before the first submission.
    pub open spec fn best_number(self) -> u64 {
        if self.infos_map().contains_key(self.best_hash()) {
            self.infos_map()[self.best_hash()].number
        } else {
            0
        }
    }

    /// The cumulative difficulty of the canonical tip, or zero.
    pub open spec fn best_td(self) -> nat {
        if self.infos_map().contains_key(self.best_hash()) {
            self.infos_map()[self.best_hash()].total_difficulty
        } else {
            0
        }
    }

    /// Every retained entry lies within the finality window of the tip.
    pub open spec fn finality_bound(self) -> bool {
        forall|x: Seq<u8>| #[trigger]
            self.infos_map().contains_key(x) ==> self.infos_map()[x].number + FINALITY_DEPTH
                >= self.best_number()
    }

    /// Every stored parent link steps the height down by exactly one.
    pub open spec fn linked(self) -> bool {
        forall|x: Seq<u8>| #[trigger]
            self.infos_map().contains_key(x) && self.infos_map().contains_key(
                self.infos_map()[x].parent_hash,
            ) ==> self.infos_map()[self.infos_map()[x].parent_hash].number + 1
                == self.infos_map()[x].number
    }

    /// Headers and infos are kept strictly in parallel, with equal heights.
    pub open spec fn inv_parity(self) -> bool {
        &&& forall|h: Seq<u8>| #[trigger]
            self.headers_map().contains_key(h) ==> self.infos_map().contains_key(h)
                && self.infos_map()[h].number == self.headers_map()[h].number
        &&& forall|h: Seq<u8>| #[trigger]
            self.infos_map().contains_key(h) ==> self.headers_map().contains_key(h)
    }

    /// Every stored header is registered at its height.
    pub open spec fn inv_recent_covers(self) -> bool {
        forall|h: Seq<u8>| #[trigger]
            self.headers_map().contains_key(h) ==> self.recent_map().contains_key(
                self.headers_map()[h].number,
            ) && self.recent_map()[self.headers_map()[h].number].contains(h)
    }

    /// Every registered hash is a stored header of that very height.
    pub open spec fn inv_recent_sound(self) -> bool {
        forall|n: u64, h: Seq<u8>|
            self.recent_map().contains_key(n) && #[trigger] self.recent_map()[n].contains(h)
                ==> self.infos_map().contains_key(h) && self.infos_map()[h].number == n
    }

    /// Stored values are well formed and the component tables are sound.
    pub closed spec fn inv_values(self) -> bool {
        &&& self.canonical_header_hashes.wf()
        &&& self.headers.wf()
        &&& self.infos.wf()
        &&& self.recent_header_hashes.wf()
        &&& self.best_header_hash.wf()
        &&& forall|i: int|
            0 <= i < self.roots_seq().len() ==> (#[trigger] self.roots_seq()[i]).len() == 16
        &&& forall|h: Seq<u8>| #[trigger]
            self.headers_map().contains_key(h) ==> self.headers_map()[h].wf() && h.len() == 32
                && self.headers_map()[h].hash == h
        &&& forall|h: Seq<u8>| #[trigger]
            self.infos_map().contains_key(h) ==> self.infos_map()[h].wf()
        &&& forall|n: u64| #[trigger]
            self.recent_map().contains_key(n) ==> distinct_seq(self.recent_map()[n])
    }

    /// The whole-state invariant.
    pub open spec fn wf(self) -> bool {
        &&& self.inv_values()
        &&& self.inv_parity()
        &&& self.inv_recent_covers()
        &&& self.inv_recent_sound()
    }
}


/// The Ethash epoch a height belongs to.
pub open spec fn epoch_of(number: u64) -> u64 {
    number / EPOCH_LENGTH
}

/// Whether a pinned root exists for the epoch.
pub open spec fn epoch_in_range(start: u64, roots: Seq<Seq<u8>>, epoch: u64) -> bool {
    start <= epoch && epoch - start < roots.len()
}

/// The pinned root of an epoch.
pub open spec fn root_of(start: u64, roots: Seq<Seq<u8>>, epoch: u64) -> Seq<u8> {
    roots[epoch - start]
}

/// A dataset word with each 32-byte half byte-reversed, as Ethash expects.
pub open spec fn rev_half_word(w: Seq<u8>) -> Seq<u8> {
    Seq::new(64, |i: int| if i < 32 { w[31 - i] } else { w[95 - i] })
}

/// The word sequence the witnesses feed to the mix, two words per witness.
pub open spec fn words_of(ws: Seq<WitnessV>) -> Seq<Seq<u8>> {
    Seq::new(2 * ws.len(), |k: int| rev_half_word(ws[k / 2].dag_nodes[k % 2]))
}

/// Every witness whose first word was consumed folds to the epoch root at
/// the offset the mix asked for.
pub open spec fn merkle_ok(ws: Seq<WitnessV>, offsets: Seq<u64>, root: Seq<u8>) -> bool {
    forall|k: int|
        0 <= k < offsets.len() && k % 2 == 0 ==> witness_root(ws[k / 2], (#[trigger] offsets[k]) / 2)
            == root
}

/// Every witness in a submission is well formed.
pub open spec fn witnesses_wf(ws: Seq<WitnessV>) -> bool {
    forall|i: int| 0 <= i < ws.len() ==> (#[trigger] ws[i]).wf()
}

/// The machine bound on epochs whose dataset size can be computed.
pub const MAX_EPOCH: u64 = 0x10000000;

/// The non-proof-of-work consensus rules, plus the proof-of-work threshold,
/// of a header against its parent, given the mix result's value.
/// The adjacent-difficulty bound of the source is a placeholder that always
/// accepts, so no difficulty-window conjunct appears here.
pub open spec fn good_against(h: BlockHeaderV, prev: BlockHeaderV, result_value: nat) -> bool {
    &&& result_value < boundary_of(h.difficulty)
    &&& h.gas_used <= h.gas_limit
    &&& h.gas_limit < prev.gas_limit * 1025 / 1024
    &&& h.gas_limit > prev.gas_limit * 1023 / 1024
    &&& h.gas_limit >= 5000
    &&& h.timestamp > prev.timestamp
    &&& h.number == prev.number + 1
    &&& h.parent_hash == prev.hash
}

/// Comparing against a scaled quotient is comparing the scaled products.
proof fn lemma_window_equiv(gl: nat, pgl: nat)
    ensures
        (gl < pgl * 1025 / 1024) <==> (gl * 1024 + 1024 <= pgl * 1025),
        (gl > pgl * 1023 / 1024) <==> (gl * 1024 > pgl * 1023),
{
    let y1 = (pgl * 1025) as int;
    let y2 = (pgl * 1023) as int;
    lemma_fundamental_div_mod(y1, 1024);
    lemma_mod_bound(y1, 1024);
    lemma_fundamental_div_mod(y2, 1024);
    lemma_mod_bound(y2, 1024);
    assert((gl < y1 / 1024) <==> (gl * 1024 + 1024 <= y1)) by (nonlinear_arith)
        requires
            y1 == 1024 * (y1 / 1024) + y1 % 1024,
            0 <= y1 % 1024 < 1024,
            gl >= 0,
    ;
    assert((gl > y2 / 1024) <==> (gl * 1024 > y2)) by (nonlinear_arith)
        requires
            y2 == 1024 * (y2 / 1024) + y2 % 1024,
            0 <= y2 % 1024 < 1024,
            gl >= 0,
    ;
}

/// One dataset word with both halves byte-reversed.
fn rev_word(w: &Hash512) -> (r: Vec<u8>)
    requires
        w@.len() == 64,
    ensures
        r@ == rev_half_word(w@),
        r@.len() == 64,
{
    let bytes = w.as_bytes();
    let mut v: Vec<u8> = Vec::new();
    let mut i: usize = 0;
    while i < 64
        invariant
            i <= 64,
            bytes@.len() == 64,
            bytes@ == w@,
            v@.len() == i,
            forall|j: int| 0 <= j < i ==> v@[j] == rev_half_word(w@)[j],
        decreases 64 - i,
    {
        let b = if i < 32 {
            bytes[31 - i]
        } else {
            bytes[95 - i]
        };
        v.push(b);
        i += 1;
    }
    proof {
        assert(v@ =~= rev_half_word(w@));
    }
    v
}

/// The flattened, byte-reversed word sequence of a witness list.
fn build_words(nodes: &Vec<DoubleNodeWithMerkleProof>) -> (r: Vec<Vec<u8>>)
    requires
        witnesses_wf(nodes.deep_view()),
    ensures
        r.deep_view() == words_of(nodes.deep_view()),
        r@.len() == 2 * nodes@.len(),
        forall|i: int| 0 <= i < r@.len() ==> (#[trigger] r@[i])@.len() == 64,
{
    let ghost ws = nodes.deep_view();
    let mut r: Vec<Vec<u8>> = Vec::new();
    let mut i: usize = 0;
    while i < nodes.len()
        invariant
            i <= nodes@.len(),
            ws == nodes.deep_view(),
            witnesses_wf(ws),
            ws.len() == nodes@.len(),
            r@.len() == 2 * i,
            forall|k: int| 0 <= k < r@.len() ==> (#[trigger] r@[k])@ == words_of(ws)[k],
            forall|k: int| 0 <= k < r@.len() ==> (#[trigger] r@[k])@.len() == 64,
        decreases nodes@.len() - i,
    {
        proof {
            assert(ws[i as int] == nodes@[i as int]@);
            assert(ws[i as int].wf());
            assert(nodes@[i as int]@.dag_nodes[0] == nodes@[i as int].dag_nodes@[0]@);
            assert(nodes@[i as int]@.dag_nodes[1] == nodes@[i as int].dag_nodes@[1]@);
        }
        let w0 = rev_word(&nodes[i].dag_nodes[0]);
        let w1 = rev_word(&nodes[i].dag_nodes[1]);
        r.push(w0);
        r.push(w1);
        proof {
            assert(r@[2 * i as int]@ == words_of(ws)[2 * i as int]);
            assert(r@[2 * i as int + 1]@ == words_of(ws)[2 * i as int + 1]);
        }
        i += 1;
    }
    proof {
        let d = r.deep_view();
        assert forall|k: int| 0 <= k < d.len() implies d[k] == words_of(ws)[k] by {
            assert(d[k] == r@[k]@);
        }
        assert(r.deep_view() =~= words_of(ws));
    }
    r
}

impl EthBridge {
    /// The expected cumulative difficulty of a parent, zero when unknown.
    pub open spec fn parent_td(self, h: BlockHeaderV) -> nat {
        if self.infos_map().contains_key(h.parent_hash) {
            self.infos_map()[h.parent_hash].total_difficulty
        } else {
            0
        }
    }

    /// The cumulative difficulty a newly stored header would carry.
    pub open spec fn new_total(self, h: BlockHeaderV) -> nat {
        self.parent_td(h) + h.difficulty
    }

    /// A header too far below the tip is silently dropped.
    pub open spec fn too_old(self, h: BlockHeaderV) -> bool {
        self.best_number() > h.number + FINALITY_DEPTH
    }

    /// Whether storing succeeds, fails, or silently drops.
    pub open spec fn store_outcome(self, h: BlockHeaderV) -> Result<(), BridgeError> {
        if self.too_old(h) {
            Result::Ok(())
        } else if self.new_total(h)
            >= 0x10000000000000000000000000000000000000000000000000000000000000000int {
            Result::Err(BridgeError::TotalDifficultyOverflow)
        } else {
            Result::Ok(())
        }
    }

    /// Whether a (not yet known) header actually enters the store.
    pub open spec fn stores(self, h: BlockHeaderV) -> bool {
        !self.too_old(h) && self.new_total(h)
            < 0x10000000000000000000000000000000000000000000000000000000000000000int
    }

    /// Whether a stored header becomes the canonical tip: strictly more
    /// cumulative work, or equal work with the even-difficulty tie-break.
    pub open spec fn tip_wins(self, h: BlockHeaderV) -> bool {
        self.new_total(h) > self.best_td() || (self.new_total(h) == self.best_td()
            && h.difficulty % 2 == 0)
    }

    /// The metadata a newly stored header gets.
    pub open spec fn new_info(self, h: BlockHeaderV) -> HeaderInfoV {
        HeaderInfoV {
            total_difficulty: self.new_total(h),
            parent_hash: h.parent_hash,
            number: h.number,
        }
    }

    /// What the proof-of-work pipeline yields for a submission.
    pub open spec fn pow_outcome(
        self,
        partial: Seq<u8>,
        nonce: Seq<u8>,
        number: u64,
        ws: Seq<WitnessV>,
    ) -> Result<(Seq<u8>, Seq<u8>), BridgeError> {
        let epoch = epoch_of(number);
        if !epoch_in_range(self.start_epoch(), self.roots_seq(), epoch) || epoch >= MAX_EPOCH
            || full_size_of(epoch) < 256 {
            Result::Err(BridgeError::EpochOutOfRange)
        } else {
            let t = hashimoto_of(partial, nonce, full_size_of(epoch), words_of(ws));
            if t.2.len() > 2 * ws.len() {
                Result::Err(BridgeError::MissingWitness)
            } else if !merkle_ok(ws, t.2, root_of(self.start_epoch(), self.roots_seq(), epoch)) {
                Result::Err(BridgeError::MerkleRootMismatch)
            } else {
                Result::Ok((t.0, t.1))
            }
        }
    }

    /// The full verification verdict of a header against its parent.
    pub open spec fn verify_outcome(
        self,
        h: BlockHeaderV,
        prev: BlockHeaderV,
        ws: Seq<WitnessV>,
    ) -> Result<(), BridgeError> {
        match self.pow_outcome(h.partial_hash, h.nonce, h.number, ws) {
            Result::Err(e) => Result::Err(e),
            Result::Ok(t) => if good_against(h, prev, be_nat(t.1)) {
                Result::Ok(())
            } else {
                Result::Err(BridgeError::InvalidHeader)
            },
        }
    }

    /// The verdict of a whole submission.
    pub open spec fn add_outcome(self, h: BlockHeaderV, ws: Seq<WitnessV>) -> Result<
        (),
        BridgeError,
    > {
        if self.infos_map().contains_key(h.hash) {
            Result::Ok(())
        } else if self.best_hash() == zero_bytes(32) {
            self.store_outcome(h)
        } else if !self.headers_map().contains_key(h.parent_hash) {
            Result::Err(BridgeError::UnknownParent)
        } else {
            match self.verify_outcome(h, self.headers_map()[h.parent_hash], ws) {
                Result::Err(e) => Result::Err(e),
                Result::Ok(t) => self.store_outcome(h),
            }
        }
    }

    /// A submission that is new, verified (or trusted at bootstrap), recent
    /// enough, and whose cumulative difficulty fits.
    pub open spec fn accepts(self, h: BlockHeaderV, ws: Seq<WitnessV>) -> bool {
        &&& !self.infos_map().contains_key(h.hash)
        &&& (self.best_hash() == zero_bytes(32) || (self.headers_map().contains_key(h.parent_hash)
            && self.verify_outcome(h, self.headers_map()[h.parent_hash], ws)
                == Result::<(), BridgeError>::Ok(())))
        &&& self.stores(h)
    }

    /// Creates the bridge from the pinned per-epoch roots.
    pub fn init(dags_start_epoch: u64, dags_merkle_roots: Vec<Hash128>) -> (r: Self)
        requires
            forall|i: int|
                0 <= i < dags_merkle_roots@.len() ==> (#[trigger] dags_merkle_roots@[i])@.len()
                    == 16,
        ensures
            r.wf(),
            r.start_epoch() == dags_start_epoch,
            r.roots_seq() == dags_merkle_roots.deep_view(),
            r.best_hash() == zero_bytes(32),
            r.headers_map() == Map::<Seq<u8>, BlockHeaderV>::empty(),
            r.infos_map() == Map::<Seq<u8>, HeaderInfoV>::empty(),
            r.canonical_map() == Map::<u64, Seq<u8>>::empty(),
            r.recent_map() == Map::<u64, Seq<Seq<u8>>>::empty(),
            r.linked(),
            r.finality_bound(),
    {
        let r = EthBridge {
            dags_start_epoch,
            dags_merkle_roots,
            best_header_hash: Hash256::zero(),
            canonical_header_hashes: Table::new(),
            headers: Table::new(),
            infos: Table::new(),
            recent_header_hashes: Table::new(),
        };
        proof {
            assert forall|i: int| 0 <= i < r.roots_seq().len() implies (#[trigger] r.roots_seq()[i]).len() == 16 by {
                assert(r.roots_seq()[i] == r.dags_merkle_roots@[i]@);
            }
        }
        r
    }

    /// True iff the roots list is non-empty.
    pub fn initialized(&self) -> (r: bool)
        ensures
            r == (self.roots_seq().len() > 0),
    {
        self.dags_merkle_roots.len() > 0
    }

    /// The height of the canonical tip, zero before the first submission.
    pub fn last_block_number(&self) -> (r: u64)
        requires
            self.wf(),
        ensures
            r == self.best_number(),
    {
        match self.infos.get(&self.best_header_hash) {
            Some(info) => info.number,
            None => 0,
        }
    }

    /// The pinned Merkle root of an epoch.
    pub fn dag_merkle_root(&self, epoch: u64) -> (r: Result<Hash128, BridgeError>)
        requires
            self.wf(),
        ensures
            match r {
                Ok(h) => epoch_in_range(self.start_epoch(), self.roots_seq(), epoch) && h@
                    == root_of(self.start_epoch(), self.roots_seq(), epoch) && h@.len() == 16,
                Err(e) => !epoch_in_range(self.start_epoch(), self.roots_seq(), epoch) && e
                    == BridgeError::EpochOutOfRange,
            },
    {
        if epoch < self.dags_start_epoch {
            return Err(BridgeError::EpochOutOfRange);
        }
        let idx = epoch - self.dags_start_epoch;
        if idx >= self.dags_merkle_roots.len() as u64 {
            return Err(BridgeError::EpochOutOfRange);
        }
        let root = self.dags_merkle_roots[idx as usize].duplicate();
        proof {
            assert(self.roots_seq()[idx as int] == self.dags_merkle_roots@[idx as int]@);
        }
        Ok(root)
    }

    /// The canonical hash at a height, if one is indexed.
    pub fn block_hash(&self, index: u64) -> (r: Option<Hash256>)
        requires
            self.wf(),
        ensures
            match r {
                Some(h) => self.canonical_map().contains_key(index) && h@
                    == self.canonical_map()[index],
                None => !self.canonical_map().contains_key(index),
            },
    {
        match self.canonical_header_hashes.get(&Height { n: index }) {
            Some(h) => Some(h.duplicate()),
            None => None,
        }
    }

    /// Runs the Ethash mix fed from the witnesses, checking each consumed
    /// pair against the epoch's pinned root.
    fn hashimoto_merkle(
        &self,
        header_hash: &Hash256,
        nonce: &Hash64,
        block_number: u64,
        nodes: &Vec<DoubleNodeWithMerkleProof>,
    ) -> (r: Result<(Hash256, Hash256), BridgeError>)
        requires
            self.wf(),
            header_hash.wf(),
            nonce.wf(),
            witnesses_wf(nodes.deep_view()),
        ensures
            match (r, self.pow_outcome(header_hash@, nonce@, block_number, nodes.deep_view())) {
                (Ok(p), Ok(q)) => p.0@ == q.0 && p.1@ == q.1 && p.0.wf() && p.1.wf(),
                (Err(e), Err(f)) => e == f,
                _ => false,
            },
    {
        let ghost ws = nodes.deep_view();
        let epoch = block_number / EPOCH_LENGTH;
        let root = match self.dag_merkle_root(epoch) {
            Ok(h) => h,
            Err(e) => {
                return Err(e);
            },
        };
        if epoch >= MAX_EPOCH {
            return Err(BridgeError::EpochOutOfRange);
        }
        let full_size = get_full_size(epoch);
        if full_size < 256 {
            return Err(BridgeError::EpochOutOfRange);
        }
        let words = build_words(nodes);
        let (mix, result, offsets) = run_hashimoto(header_hash, nonce, full_size, &words);
        proof {
            assert(ws.len() == nodes@.len());
        }
        if offsets.len() > words.len() {
            return Err(BridgeError::MissingWitness);
        }
        let ghost toffs = hashimoto_of(header_hash@, nonce@, full_size, words_of(ws)).2;
        proof {
            assert(offsets@ == toffs);
        }
        let total = offsets.len();
        let pairs = total / 2 + total % 2;
        proof {
            lemma_fundamental_div_mod(total as int, 2);
        }
        let mut w: usize = 0;
        while w < pairs
            invariant
                self.wf(),
                witnesses_wf(ws),
                ws == nodes.deep_view(),
                ws.len() == nodes@.len(),
                offsets@ == toffs,
                offsets@.len() == total,
                total <= 2 * ws.len(),
                pairs == total / 2 + total % 2,
                total == 2 * (total as int / 2) + total as int % 2,
                0 <= total as int % 2 < 2,
                w <= pairs,
                epoch == epoch_of(block_number),
                epoch_in_range(self.start_epoch(), self.roots_seq(), epoch),
                epoch < MAX_EPOCH,
                full_size == full_size_of(epoch),
                full_size >= 256,
                toffs == hashimoto_of(header_hash@, nonce@, full_size, words_of(ws)).2,
                root@ == root_of(self.start_epoch(), self.roots_seq(), epoch_of(block_number)),
                forall|j: int|
                    0 <= j < 2 * w && j % 2 == 0 ==> witness_root(
                        ws[j / 2],
                        (#[trigger] toffs[j]) / 2,
                    ) == root@,
            decreases pairs - w,
        {
            proof {
                assert(2 * w < total);
                assert(w < ws.len());
                assert(ws[w as int] == nodes@[w as int]@);
            }
            let k = 2 * w;
            let folded = nodes[w].apply_merkle_proof(offsets[k] / 2);
            if !bytes_eq(folded.as_bytes(), root.as_bytes()) {
                proof {
                    assert(witness_root(ws[k as int / 2], toffs[k as int] / 2) != root@);
                    assert(!merkle_ok(ws, toffs, root@));
                }
                return Err(BridgeError::MerkleRootMismatch);
            }
            proof {
                assert(witness_root(ws[k as int / 2], toffs[k as int] / 2) == root@);
            }
            w += 1;
        }
        proof {
            assert forall|j: int|
                0 <= j < toffs.len() && j % 2 == 0 implies witness_root(
                ws[j / 2],
                (#[trigger] toffs[j]) / 2,
            ) == root@ by {
                assert(j < 2 * pairs);
            }
            assert(merkle_ok(ws, toffs, root@));
        }
        Ok((Hash256::from_fixed(mix), Hash256::from_fixed(result)))
    }

    /// Checks the proof of work and every inter-header consensus rule of a
    /// header against its stored parent.
    fn verify_header(
        &self,
        header: &BlockHeader,
        prev: &BlockHeader,
        dag_nodes: &Vec<DoubleNodeWithMerkleProof>,
    ) -> (r: Result<(), BridgeError>)
        requires
            self.wf(),
            header.wf(),
            prev.wf(),
            witnesses_wf(dag_nodes.deep_view()),
        ensures
            r == self.verify_outcome(header@, prev@, dag_nodes.deep_view()),
    {
        let result = match self.hashimoto_merkle(
            &header.partial_hash,
            &header.nonce,
            header.number,
            dag_nodes,
        ) {
            Ok(p) => p.1,
            Err(e) => {
                return Err(e);
            },
        };
        let result_num = u256_from_be(result.as_bytes());
        let boundary = cross_boundary(&header.difficulty);
        let pow_ok = result_num.lt(&boundary);
        let gas_used_ok = !header.gas_limit.lt(&header.gas_used);
        let upper_a = header.gas_limit.mul_add_u64(1024, 1024);
        let upper_b = prev.gas_limit.mul_add_u64(1025, 0);
        let upper_ok = wide_le(&upper_a, &upper_b);
        let lower_a = header.gas_limit.mul_add_u64(1024, 0);
        let lower_b = prev.gas_limit.mul_add_u64(1023, 0);
        let lower_ok = wide_lt(&lower_b, &lower_a);
        let floor_ok = !header.gas_limit.lt(&U256::from_u64(5000));
        let time_ok = header.timestamp > prev.timestamp;
        let number_ok = header.number > prev.number && header.number - 1 == prev.number;
        let parent_ok = bytes_eq(header.parent_hash.as_bytes(), prev.hash.as_bytes());
        proof {
            lemma_window_equiv(header@.gas_limit, prev@.gas_limit);
        }
        if pow_ok && gas_used_ok && upper_ok && lower_ok && floor_ok && time_ok && number_ok
            && parent_ok {
            Ok(())
        } else {
            Err(BridgeError::InvalidHeader)
        }
    }
}


/// The registered set at a height after adding one hash.
pub open spec fn group_after(m: Map<u64, Seq<Seq<u8>>>, number: u64, h: Seq<u8>) -> Seq<Seq<u8>> {
    if m.contains_key(number) {
        if m[number].contains(h) {
            m[number]
        } else {
            m[number].push(h)
        }
    } else {
        seq![h]
    }
}

/// Which heights a pruning pass removes.
pub open spec fn gc_removes(last: u64, new: u64, n: u64) -> bool {
    new > last && last >= FINALITY_DEPTH && last - FINALITY_DEPTH <= n < new - FINALITY_DEPTH
}

impl EthBridge {
    /// The component tables are sound.
    pub closed spec fn tables_wf(self) -> bool {
        &&& self.canonical_header_hashes.wf()
        &&& self.headers.wf()
        &&& self.infos.wf()
        &&& self.recent_header_hashes.wf()
        &&& self.best_header_hash.wf()
    }

    /// Registers a hash among those known at a height.
    fn add_recent_header_hash(&mut self, number: u64, hash: Hash256)
        requires
            old(self).inv_values(),
            hash.wf(),
        ensures
            final(self).recent_map() == old(self).recent_map().insert(
                number,
                group_after(old(self).recent_map(), number, hash@),
            ),
            final(self).headers_map() == old(self).headers_map(),
            final(self).infos_map() == old(self).infos_map(),
            final(self).canonical_map() == old(self).canonical_map(),
            final(self).best_hash() == old(self).best_hash(),
            final(self).start_epoch() == old(self).start_epoch(),
            final(self).roots_seq() == old(self).roots_seq(),
            final(self).inv_values(),
    {
        let ghost m = self.recent_header_hashes@;
        let hkey = Height { n: number };
        match self.recent_header_hashes.get(&hkey) {
            Some(g) => {
                proof {
                    assert(self.recent_map().contains_key(number));
                    assert(g@ == self.recent_map()[number]);
                    assert(distinct_seq(g@));
                }
                let mut g2 = g.duplicate();
                g2.add_member(hash);
                self.recent_header_hashes.insert(Height { n: number }, g2);
            },
            None => {
                self.recent_header_hashes.insert(Height { n: number }, HashGroup::single(hash));
            },
        }
        proof {
            let mnew = self.recent_header_hashes@;
            assert(mnew == m.insert(number, group_after(m, number, hash@)));
            assert forall|h: Seq<u8>| #[trigger]
                self.headers_map().contains_key(h) implies self.headers_map()[h].wf() && h.len()
                == 32 && self.headers_map()[h].hash == h by {
                assert(old(self).headers_map().contains_key(h));
            }
            assert forall|h: Seq<u8>| #[trigger]
                self.infos_map().contains_key(h) implies self.infos_map()[h].wf() by {
                assert(old(self).infos_map().contains_key(h));
            }
            assert forall|i: int|
                0 <= i < self.roots_seq().len() implies (#[trigger] self.roots_seq()[i]).len()
                == 16 by {
                assert(old(self).roots_seq()[i].len() == 16);
            }
            assert forall|n: u64| #[trigger] self.recent_map().contains_key(n) implies distinct_seq(
                self.recent_map()[n],
            ) by {
                if n == number {
                    let g = group_after(m, number, hash@);
                    assert(self.recent_map()[n] == g);
                    if m.contains_key(number) {
                        assert(old(self).recent_map().contains_key(number));
                        assert(distinct_seq(m[number]));
                        if !m[number].contains(hash@) {
                            assert forall|p: int, q: int| 0 <= p < q < g.len() implies g[p] != g[
                            q] by {
                                if q == g.len() - 1 {
                                    assert(g[p] == m[number][p]);
                                    assert(!m[number].contains(hash@));
                                    if m[number][p] == hash@ {
                                        assert(m[number].contains(hash@));
                                    }
                                } else {
                                    assert(g[p] == m[number][p] && g[q] == m[number][q]);
                                }
                            }
                        }
                    } else {
                        assert(g =~= seq![hash@]);
                    }
                } else {
                    assert(self.recent_map()[n] == m[n]);
                    assert(old(self).recent_map().contains_key(n));
                    assert(distinct_seq(m[n]));
                }
            }
        }
    }

    /// Removes every header known at one height, and the height's register.
    fn gc_height(&mut self, number: u64)
        requires
            old(self).wf(),
        ensures
            final(self).wf(),
            final(self).best_hash() == old(self).best_hash(),
            final(self).canonical_map() == old(self).canonical_map(),
            final(self).start_epoch() == old(self).start_epoch(),
            final(self).roots_seq() == old(self).roots_seq(),
            forall|x: Seq<u8>| #[trigger]
                final(self).infos_map().contains_key(x) ==> old(self).infos_map().contains_key(x)
                    && final(self).infos_map()[x] == old(self).infos_map()[x] && old(self).infos_map()[x].number != number,
            forall|x: Seq<u8>| #[trigger]
                old(self).infos_map().contains_key(x) && old(self).infos_map()[x].number != number
                    ==> final(self).infos_map().contains_key(x),
            forall|x: Seq<u8>| #[trigger]
                final(self).headers_map().contains_key(x) ==> old(self).headers_map().contains_key(
                    x,
                ) && final(self).headers_map()[x] == old(self).headers_map()[x],
            forall|x: Seq<u8>| #[trigger]
                old(self).headers_map().contains_key(x) && old(self).headers_map()[x].number
                    != number ==> final(self).headers_map().contains_key(x),
            final(self).recent_map() == old(self).recent_map().remove(number),
    {
        let ghost snap = *self;
        let hkey = Height { n: number };
        let group_opt = match self.recent_header_hashes.get(&hkey) {
            Some(g) => {
                proof {
                    assert(self.recent_map().contains_key(number));
                    assert(g@ == self.recent_map()[number]);
                    assert(distinct_seq(g@));
                }
                Some(g.duplicate())
            },
            None => None,
        };
        match group_opt {
            None => {
                proof {
                    assert(snap.recent_map().remove(number) =~= snap.recent_map());
                    assert forall|x: Seq<u8>| #[trigger]
                        self.infos_map().contains_key(x) implies snap.infos_map()[x].number
                        != number by {
                        assert(self.headers_map().contains_key(x));
                        assert(self.recent_map().contains_key(self.headers_map()[x].number));
                    }
                }
            },
            Some(group) => {
                let ghost gv = group@;
                let total = group.count();
                let mut i: usize = 0;
                while i < total
                    invariant
                        i <= total,
                        total == gv.len(),
                        group.wf(),
                        group@ == gv,
                        snap.recent_map().contains_key(number),
                        gv == snap.recent_map()[number],
                        snap.wf(),
                        self.recent_map() == snap.recent_map(),
                        self.canonical_map() == snap.canonical_map(),
                        self.best_hash() == snap.best_hash(),
                        self.start_epoch() == snap.start_epoch(),
                        self.roots_seq() == snap.roots_seq(),
                        self.tables_wf(),
                        forall|x: Seq<u8>| #[trigger]
                            self.infos_map().contains_key(x) ==> snap.infos_map().contains_key(x)
                                && self.infos_map()[x] == snap.infos_map()[x],
                        forall|x: Seq<u8>| #[trigger]
                            snap.infos_map().contains_key(x) ==> (self.infos_map().contains_key(x)
                                <==> !gv.subrange(0, i as int).contains(x)),
                        forall|x: Seq<u8>| #[trigger]
                            self.headers_map().contains_key(x) ==> snap.headers_map().contains_key(
                                x,
                            ) && self.headers_map()[x] == snap.headers_map()[x],
                        forall|x: Seq<u8>| #[trigger]
                            snap.headers_map().contains_key(x) ==> (
                            self.headers_map().contains_key(x) <==> !gv.subrange(
                                0,
                                i as int,
                            ).contains(x)),
                    decreases total - i,
                {
                    let ghost prev = *self;
                    let h = group.item_at(i).duplicate();
                    proof {
                        assert(h@ == gv[i as int]);
                        assert(h@.len() == 32) by {
                            assert(snap.recent_map()[number].contains(gv[i as int]));
                            assert(snap.infos_map().contains_key(gv[i as int]));
                        }
                    }
                    self.infos.remove(&h);
                    self.headers.remove(&h);
                    proof {
                        assert(self.infos_map() == prev.infos_map().remove(h@));
                        assert(self.headers_map() == prev.headers_map().remove(h@));
                        assert(gv.subrange(0, i as int + 1) =~= gv.subrange(
                            0,
                            i as int,
                        ).push(gv[i as int]));
                        assert forall|x: Seq<u8>|
                            gv.subrange(0, i as int + 1).contains(x) <==> (gv.subrange(
                                0,
                                i as int,
                            ).contains(x) || x == gv[i as int]) by {
                            let s1 = gv.subrange(0, i as int + 1);
                            let s0 = gv.subrange(0, i as int);
                            if s1.contains(x) {
                                let j = choose|j: int| 0 <= j < s1.len() && s1[j] == x;
                                if j < i {
                                    assert(s0[j] == x);
                                } else {
                                    assert(x == gv[i as int]);
                                }
                            }
                            if s0.contains(x) {
                                let j = choose|j: int| 0 <= j < s0.len() && s0[j] == x;
                                assert(s1[j] == x);
                            }
                            if x == gv[i as int] {
                                assert(s1[i as int] == x);
                            }
                        }
                        assert forall|x: Seq<u8>| #[trigger]
                            self.infos_map().contains_key(x) implies snap.infos_map().contains_key(
                            x,
                        ) && self.infos_map()[x] == snap.infos_map()[x] by {
                            assert(prev.infos_map().remove(h@).contains_key(x));
                            assert(prev.infos_map().contains_key(x));
                        }
                        assert forall|x: Seq<u8>| #[trigger]
                            self.headers_map().contains_key(x) implies snap.headers_map(
                        ).contains_key(x) && self.headers_map()[x] == snap.headers_map()[x] by {
                            assert(prev.headers_map().remove(h@).contains_key(x));
                            assert(prev.headers_map().contains_key(x));
                        }
                        assert forall|x: Seq<u8>| #[trigger]
                            snap.infos_map().contains_key(x) implies (self.infos_map(
                        ).contains_key(x) <==> !gv.subrange(0, i as int + 1).contains(x)) by {
                            assert(self.infos_map().contains_key(x) <==> prev.infos_map(
                            ).contains_key(x) && x != h@);
                        }
                        assert forall|x: Seq<u8>| #[trigger]
                            snap.headers_map().contains_key(x) implies (self.headers_map(
                        ).contains_key(x) <==> !gv.subrange(0, i as int + 1).contains(x)) by {
                            assert(self.headers_map().contains_key(x) <==> prev.headers_map(
                            ).contains_key(x) && x != h@);
                        }
                    }
                    i += 1;
                }
                proof {
                    assert(gv.subrange(0, total as int) =~= gv);
                }
                let ghost exited = *self;
                self.recent_header_hashes.remove(&Height { n: number });
                proof {
                    assert(self.infos_map() == exited.infos_map());
                    assert(self.headers_map() == exited.headers_map());
                    assert(self.recent_map() == exited.recent_map().remove(number));
                    assert forall|x: Seq<u8>| #[trigger]
                        self.infos_map().contains_key(x) implies snap.infos_map().contains_key(x)
                        && self.infos_map()[x] == snap.infos_map()[x] && !gv.contains(x) by {
                        assert(exited.infos_map().contains_key(x));
                    }
                    assert forall|x: Seq<u8>| #[trigger]
                        self.headers_map().contains_key(x) implies snap.headers_map().contains_key(
                        x,
                    ) && self.headers_map()[x] == snap.headers_map()[x] && !gv.contains(x) by {
                        assert(exited.headers_map().contains_key(x));
                    }
                    assert forall|x: Seq<u8>| #[trigger]
                        snap.infos_map().contains_key(x) && !gv.contains(x) implies self.infos_map(
                    ).contains_key(x) by {
                        assert(exited.infos_map().contains_key(x));
                    }
                    assert forall|x: Seq<u8>| #[trigger]
                        snap.headers_map().contains_key(x) && !gv.contains(x) implies self
                        .headers_map().contains_key(x) by {
                        assert(exited.headers_map().contains_key(x));
                    }
                    assert forall|x: Seq<u8>|
                        snap.infos_map().contains_key(x) implies (gv.contains(x)
                        <==> snap.infos_map()[x].number == number) by {
                        if gv.contains(x) {
                            assert(snap.recent_map()[number].contains(x));
                        }
                        if snap.infos_map()[x].number == number {
                            assert(snap.headers_map().contains_key(x));
                            assert(snap.recent_map()[snap.headers_map()[x].number].contains(x));
                        }
                    }
                    assert forall|n: u64, h2: Seq<u8>|
                        self.recent_map().contains_key(n) && #[trigger] self.recent_map()[
                        n].contains(h2) implies self.infos_map().contains_key(h2)
                        && self.infos_map()[h2].number == n by {
                        assert(n != number);
                        assert(snap.recent_map()[n].contains(h2));
                        assert(snap.infos_map().contains_key(h2) && snap.infos_map()[h2].number
                            == n);
                        assert(!gv.contains(h2));
                    }
                    assert forall|h2: Seq<u8>| #[trigger]
                        self.headers_map().contains_key(h2) implies self.recent_map().contains_key(
                        self.headers_map()[h2].number,
                    ) && self.recent_map()[self.headers_map()[h2].number].contains(h2) by {
                        assert(snap.headers_map().contains_key(h2));
                        assert(!gv.contains(h2));
                        assert(snap.infos_map()[h2].number != number);
                        assert(snap.headers_map()[h2].number != number);
                    }
                }
            },
        }
    }

    /// Prunes every height that has fallen below the finality horizon.
    fn maybe_gc(&mut self, last_best_number: u64, new_best_number: u64)
        requires
            old(self).wf(),
        ensures
            final(self).wf(),
            final(self).best_hash() == old(self).best_hash(),
            final(self).canonical_map() == old(self).canonical_map(),
            final(self).start_epoch() == old(self).start_epoch(),
            final(self).roots_seq() == old(self).roots_seq(),
            forall|x: Seq<u8>| #[trigger]
                final(self).infos_map().contains_key(x) ==> old(self).infos_map().contains_key(x)
                    && final(self).infos_map()[x] == old(self).infos_map()[x],
            forall|x: Seq<u8>| #[trigger]
                final(self).headers_map().contains_key(x) ==> old(self).headers_map().contains_key(
                    x,
                ) && final(self).headers_map()[x] == old(self).headers_map()[x],
            forall|x: Seq<u8>| #[trigger]
                old(self).infos_map().contains_key(x) && !gc_removes(
                    last_best_number,
                    new_best_number,
                    old(self).infos_map()[x].number,
                ) ==> final(self).infos_map().contains_key(x),
            forall|x: Seq<u8>| #[trigger]
                final(self).infos_map().contains_key(x) ==> !gc_removes(
                    last_best_number,
                    new_best_number,
                    final(self).infos_map()[x].number,
                ),
            !(new_best_number > last_best_number && last_best_number >= FINALITY_DEPTH)
                ==> *final(self) == *old(self),
    {
        if new_best_number > last_best_number && last_best_number >= FINALITY_DEPTH {
            let ghost snap = *self;
            let stop = new_best_number - FINALITY_DEPTH;
            let mut number = last_best_number - FINALITY_DEPTH;
            while number < stop
                invariant
                    new_best_number > last_best_number,
                    last_best_number >= FINALITY_DEPTH,
                    stop == new_best_number - FINALITY_DEPTH,
                    last_best_number - FINALITY_DEPTH <= number <= stop,
                    self.wf(),
                    self.best_hash() == snap.best_hash(),
                    self.canonical_map() == snap.canonical_map(),
                    self.start_epoch() == snap.start_epoch(),
                    self.roots_seq() == snap.roots_seq(),
                    forall|x: Seq<u8>| #[trigger]
                        self.infos_map().contains_key(x) ==> snap.infos_map().contains_key(x)
                            && self.infos_map()[x] == snap.infos_map()[x],
                    forall|x: Seq<u8>| #[trigger]
                        self.headers_map().contains_key(x) ==> snap.headers_map().contains_key(x)
                            && self.headers_map()[x] == snap.headers_map()[x],
                    forall|x: Seq<u8>| #[trigger]
                        snap.infos_map().contains_key(x) && !(last_best_number - FINALITY_DEPTH
                            <= snap.infos_map()[x].number < number) ==> self.infos_map(
                        ).contains_key(x),
                    forall|x: Seq<u8>| #[trigger]
                        self.infos_map().contains_key(x) ==> !(last_best_number - FINALITY_DEPTH
                            <= self.infos_map()[x].number < number),
                decreases stop - number,
            {
                let ghost prev = *self;
                self.gc_height(number);
                proof {
                    assert forall|x: Seq<u8>|
                        snap.infos_map().contains_key(x) && !(last_best_number - FINALITY_DEPTH
                            <= snap.infos_map()[x].number < number + 1) implies self.infos_map(
                    ).contains_key(x) by {
                        assert(prev.infos_map().contains_key(x));
                        assert(prev.infos_map()[x] == snap.infos_map()[x]);
                        assert(prev.infos_map()[x].number != number);
                    }
                    assert forall|x: Seq<u8>| #[trigger]
                        self.infos_map().contains_key(x) implies !(last_best_number
                        - FINALITY_DEPTH <= self.infos_map()[x].number < number + 1) by {
                        assert(prev.infos_map().contains_key(x));
                        assert(self.infos_map()[x] == prev.infos_map()[x]);
                        assert(prev.infos_map()[x].number != number);
                    }
                }
                number += 1;
            }
        }
    }
}



/// A hash is stored as a header exactly when its metadata is stored, and
/// both records carry the same height.
pub proof fn lemma_header_info_parity(s: EthBridge, x: Seq<u8>)
    requires
        s.wf(),
    ensures
        s.headers_map().contains_key(x) <==> s.infos_map().contains_key(x),
        s.headers_map().contains_key(x) ==> s.headers_map()[x].number == s.infos_map()[x].number,
{
}

/// Every stored header is registered among the known hashes of its height,
/// and every registered hash is a stored header of that height.
pub proof fn lemma_recent_membership(s: EthBridge, x: Seq<u8>)
    requires
        s.wf(),
        s.headers_map().contains_key(x),
    ensures
        s.recent_map().contains_key(s.headers_map()[x].number),
        s.recent_map()[s.headers_map()[x].number].contains(x),
{
}

/// Following `parent_hash` through the stored metadata strictly decreases
/// the height, one block per step: the canonical chain walk from the best
/// header descends until height zero or the pruned horizon.
pub proof fn lemma_walk_descends(s: EthBridge, x: Seq<u8>)
    requires
        s.linked(),
        s.infos_map().contains_key(x),
        s.infos_map().contains_key(s.infos_map()[x].parent_hash),
    ensures
        s.infos_map()[s.infos_map()[x].parent_hash].number < s.infos_map()[x].number,
{
}

/// The whole-state invariant does not depend on the canonical index or the
/// best-header field: it transfers between states with the same stores.
proof fn lemma_wf_transfer(a: EthBridge, b: EthBridge)
    requires
        a.wf(),
        b.headers_map() == a.headers_map(),
        b.infos_map() == a.infos_map(),
        b.recent_map() == a.recent_map(),
        b.roots_seq() == a.roots_seq(),
        b.tables_wf(),
    ensures
        b.wf(),
{
    assert forall|x: Seq<u8>| #[trigger]
        b.headers_map().contains_key(x) implies b.infos_map().contains_key(x)
        && b.infos_map()[x].number == b.headers_map()[x].number && b.headers_map()[x].wf()
        && x.len() == 32 && b.headers_map()[x].hash == x && b.recent_map().contains_key(
        b.headers_map()[x].number,
    ) && b.recent_map()[b.headers_map()[x].number].contains(x) by {
        assert(a.headers_map().contains_key(x));
    }
    assert forall|x: Seq<u8>| #[trigger]
        b.infos_map().contains_key(x) implies b.headers_map().contains_key(x)
        && b.infos_map()[x].wf() by {
        assert(a.infos_map().contains_key(x));
    }
    assert forall|n: u64, x: Seq<u8>|
        b.recent_map().contains_key(n) && #[trigger] b.recent_map()[n].contains(
        x,
    ) implies b.infos_map().contains_key(x) && b.infos_map()[x].number == n by {
        assert(a.recent_map().contains_key(n));
        assert(a.recent_map()[n].contains(x));
    }
    assert forall|n: u64| #[trigger] b.recent_map().contains_key(n) implies distinct_seq(
        b.recent_map()[n],
    ) by {
        assert(a.recent_map().contains_key(n));
    }
    assert forall|i: int|
        0 <= i < b.roots_seq().len() implies (#[trigger] b.roots_seq()[i]).len() == 16 by {
        assert(a.roots_seq()[i].len() == 16);
    }
}

impl EthBridge {
    /// Stores a verified (or bootstrap-trusted) header unless it lies too far
    /// below the tip, updating the canonical index and pruning on a reorg.
    fn maybe_store_header(&mut self, header: BlockHeader) -> (r: Result<(), BridgeError>)
        requires
            old(self).wf(),
            header.wf(),
            !old(self).infos_map().contains_key(header@.hash),
        ensures
            final(self).wf(),
            r == old(self).store_outcome(header@),
            final(self).start_epoch() == old(self).start_epoch(),
            final(self).roots_seq() == old(self).roots_seq(),
            !old(self).stores(header@) ==> *final(self) == *old(self),
            old(self).stores(header@) ==> final(self).headers_map().contains_key(header@.hash)
                && final(self).headers_map()[header@.hash] == header@ && final(self).infos_map().contains_key(header@.hash) && final(self).infos_map()[header@.hash]
                == old(self).new_info(header@),
            old(self).stores(header@) && old(self).tip_wins(header@) ==> final(self).best_hash()
                == header@.hash && final(self).canonical_map().contains_key(header@.number)
                && final(self).canonical_map()[header@.number] == header@.hash,
            old(self).stores(header@) && !old(self).tip_wins(header@) ==> final(self).best_hash()
                == old(self).best_hash() && final(self).canonical_map() == old(self).canonical_map() && final(self).headers_map() == old(self).headers_map().insert(
                header@.hash,
                header@,
            ) && final(self).infos_map() == old(self).infos_map().insert(
                header@.hash,
                old(self).new_info(header@),
            ),
            final(self).best_td() >= old(self).best_td(),
            old(self).finality_bound() && old(self).best_number() >= FINALITY_DEPTH ==> final(self).finality_bound(),
            old(self).linked() && header@.parent_hash != header@.hash && (forall|k: Seq<u8>|
                #[trigger] old(self).infos_map().contains_key(k) ==> old(self).infos_map()[k].parent_hash
                    != header@.hash) && (old(self).infos_map().contains_key(header@.parent_hash)
                ==> old(self).infos_map()[header@.parent_hash].number + 1 == header@.number)
                ==> final(self).linked(),
            old(self).stores(header@) && old(self).tip_wins(header@) && old(self).best_number()
                > header@.number ==> (forall|k: u64|
                header@.number < k <= old(self).best_number() ==> !final(self).canonical_map().contains_key(k)),
    {
        let ghost h = header@;
        let (best_td_val, best_number) = match self.infos.get(&self.best_header_hash) {
            Some(info) => (info.total_difficulty, info.number),
            None => (U256::from_u64(0), 0u64),
        };
        proof {
            assert(best_number == old(self).best_number());
            assert(best_td_val.as_nat() == old(self).best_td());
        }
        if best_number > header.number && best_number - header.number > FINALITY_DEPTH {
            proof {
                assert(old(self).too_old(h));
            }
            return Ok(());
        }
        proof {
            assert(!old(self).too_old(h));
        }
        let parent_td = match self.infos.get(&header.parent_hash) {
            Some(info) => info.total_difficulty,
            None => U256::from_u64(0),
        };
        proof {
            assert(parent_td.as_nat() == old(self).parent_td(h));
        }
        let total = match parent_td.checked_add(&header.difficulty) {
            Some(t) => t,
            None => {
                proof {
                    assert(!old(self).stores(h));
                }
                return Err(BridgeError::TotalDifficultyOverflow);
            },
        };
        proof {
            assert(total.as_nat() == old(self).new_total(h));
            assert(old(self).stores(h));
        }
        let number = header.number;
        let difficulty = header.difficulty;
        let header_hash = header.hash.duplicate();
        let parent_hash = header.parent_hash.duplicate();
        self.headers.insert(header.hash.duplicate(), header);
        let info = HeaderInfo {
            total_difficulty: total,
            parent_hash: parent_hash.duplicate(),
            number,
        };
        self.infos.insert(header_hash.duplicate(), info);
        proof {
            assert(self.headers_map() == old(self).headers_map().insert(h.hash, h));
            assert(self.infos_map() == old(self).infos_map().insert(
                h.hash,
                old(self).new_info(h),
            ));
            assert forall|x: Seq<u8>| #[trigger]
                self.headers_map().contains_key(x) implies self.headers_map()[x].wf() && x.len()
                == 32 && self.headers_map()[x].hash == x by {
                if x != h.hash {
                    assert(old(self).headers_map().contains_key(x));
                }
            }
            assert forall|x: Seq<u8>| #[trigger]
                self.infos_map().contains_key(x) implies self.infos_map()[x].wf() by {
                if x != h.hash {
                    assert(old(self).infos_map().contains_key(x));
                }
            }
            assert forall|n: u64| #[trigger]
                self.recent_map().contains_key(n) implies distinct_seq(self.recent_map()[n]) by {
                assert(old(self).recent_map().contains_key(n));
            }
            assert forall|i: int|
                0 <= i < self.roots_seq().len() implies (#[trigger] self.roots_seq()[i]).len()
                == 16 by {
                assert(old(self).roots_seq()[i].len() == 16);
            }
            assert(self.inv_values());
        }
        self.add_recent_header_hash(number, header_hash.duplicate());
        let ghost mid = *self;
        proof {
            let ghost og_m = old(self).recent_map();
            let ghost g = group_after(og_m, h.number, h.hash);
            assert(mid.headers_map() == old(self).headers_map().insert(h.hash, h));
            assert(mid.infos_map() == old(self).infos_map().insert(h.hash, old(self).new_info(h)));
            assert(mid.recent_map() == og_m.insert(h.number, g));
            assert(g.contains(h.hash)) by {
                if og_m.contains_key(h.number) {
                    if !og_m[h.number].contains(h.hash) {
                        assert(g[g.len() - 1] == h.hash);
                    }
                } else {
                    assert(g[0] == h.hash);
                }
            }
            assert forall|x: Seq<u8>| #[trigger]
                mid.headers_map().contains_key(x) implies mid.infos_map().contains_key(x)
                && mid.infos_map()[x].number == mid.headers_map()[x].number by {
                if x != h.hash {
                    assert(old(self).headers_map().contains_key(x));
                }
            }
            assert forall|x: Seq<u8>| #[trigger]
                mid.infos_map().contains_key(x) implies mid.headers_map().contains_key(x) by {
                if x != h.hash {
                    assert(old(self).infos_map().contains_key(x));
                }
            }
            assert forall|x: Seq<u8>| #[trigger]
                mid.headers_map().contains_key(x) implies mid.recent_map().contains_key(
                mid.headers_map()[x].number,
            ) && mid.recent_map()[mid.headers_map()[x].number].contains(x) by {
                if x == h.hash {
                    assert(mid.recent_map()[h.number] == g);
                } else {
                    assert(old(self).headers_map().contains_key(x));
                    let nx = old(self).headers_map()[x].number;
                    assert(og_m.contains_key(nx) && og_m[nx].contains(x));
                    if nx == h.number {
                        let og = og_m[h.number];
                        if !og.contains(h.hash) {
                            let j = choose|j: int| 0 <= j < og.len() && og[j] == x;
                            assert(g[j] == x);
                        }
                        assert(g.contains(x));
                        assert(mid.recent_map()[nx] == g);
                    } else {
                        assert(mid.recent_map()[nx] == og_m[nx]);
                    }
                }
            }
            assert forall|n: u64, x: Seq<u8>|
                mid.recent_map().contains_key(n) && #[trigger] mid.recent_map()[n].contains(
                x,
            ) implies mid.infos_map().contains_key(x) && mid.infos_map()[x].number == n by {
                if n == h.number {
                    assert(mid.recent_map()[n] == g);
                    if og_m.contains_key(h.number) {
                        let og = og_m[h.number];
                        if x != h.hash {
                            assert(og.contains(x)) by {
                                if !og.contains(h.hash) {
                                    let j = choose|j: int| 0 <= j < g.len() && g[j] == x;
                                    assert(j < g.len() - 1);
                                    assert(og[j] == x);
                                }
                            }
                            assert(og_m[h.number].contains(x));
                            assert(old(self).infos_map().contains_key(x) && old(self).infos_map()[x].number == n);
                        }
                    } else {
                        assert(g =~= seq![h.hash]);
                        if x != h.hash {
                            let j = choose|j: int| 0 <= j < g.len() && g[j] == x;
                            assert(false);
                        }
                    }
                } else {
                    assert(mid.recent_map()[n] == og_m[n]);
                    assert(og_m[n].contains(x));
                    assert(old(self).infos_map().contains_key(x) && old(self).infos_map()[x].number
                        == n);
                    assert(x != h.hash);
                }
            }
            assert(mid.wf());
            if old(self).linked() && h.parent_hash != h.hash && (forall|k: Seq<u8>| #[trigger]
                old(self).infos_map().contains_key(k) ==> old(self).infos_map()[k].parent_hash
                    != h.hash) && (old(self).infos_map().contains_key(h.parent_hash) ==> old(
                self,
            ).infos_map()[h.parent_hash].number + 1 == h.number) {
                assert forall|x: Seq<u8>| #[trigger]
                    mid.infos_map().contains_key(x) && mid.infos_map().contains_key(
                        mid.infos_map()[x].parent_hash,
                    ) implies mid.infos_map()[mid.infos_map()[x].parent_hash].number + 1
                    == mid.infos_map()[x].number by {
                    let p = mid.infos_map()[x].parent_hash;
                    if x == h.hash {
                        assert(p == h.parent_hash);
                        assert(p != h.hash);
                        assert(old(self).infos_map().contains_key(p));
                    } else {
                        assert(old(self).infos_map().contains_key(x));
                        assert(mid.infos_map()[x] == old(self).infos_map()[x]);
                        assert(p != h.hash);
                        assert(old(self).infos_map().contains_key(p));
                        assert(mid.infos_map()[p] == old(self).infos_map()[p]);
                    }
                }
                assert(mid.linked());
            }
        }
        let wins = best_td_val.lt(&total) || (total.same(&best_td_val) && difficulty.is_even());
        proof {
            assert(wins == old(self).tip_wins(h));
            assert(mid.best_hash() == old(self).best_hash());
        }
        if wins {
            if best_number > number {
                let mut n2 = number + 1;
                loop
                    invariant
                        number < n2 <= best_number,
                        mid.wf(),
                        *self == (EthBridge {
                            canonical_header_hashes: self.canonical_header_hashes,
                            ..mid
                        }),
                        self.wf(),
                        forall|k: u64|
                            number < k < n2 ==> !self.canonical_map().contains_key(k),
                    ensures
                        *self == (EthBridge {
                            canonical_header_hashes: self.canonical_header_hashes,
                            ..mid
                        }),
                        self.wf(),
                        forall|k: u64|
                            number < k <= best_number ==> !self.canonical_map().contains_key(k),
                    decreases best_number - n2,
                {
                    let ghost cprev = *self;
                    self.canonical_header_hashes.remove(&Height { n: n2 });
                    proof {
                        lemma_wf_transfer(mid, *self);
                        assert(self.canonical_map() == cprev.canonical_map().remove(n2));
                        assert forall|k: u64|
                            number < k < n2 + 1 implies !self.canonical_map().contains_key(
                            k,
                        ) by {
                            if k < n2 {
                                assert(!cprev.canonical_map().contains_key(k));
                            }
                        }
                    }
                    if n2 == best_number {
                        break;
                    }
                    n2 += 1;
                }
            }
            let ghost after_erase = *self;
            self.best_header_hash = header_hash.duplicate();
            proof {
                assert(self.canonical_map() == after_erase.canonical_map());
            }
            let ghost erased = *self;
            self.canonical_header_hashes.insert(Height { n: number }, header_hash.duplicate());
            proof {
                assert(self.canonical_map() == erased.canonical_map().insert(number, h.hash));
                assert forall|k: u64|
                    best_number > number && number < k <= best_number implies !self.canonical_map(
                ).contains_key(k) by {
                    assert(!after_erase.canonical_map().contains_key(k));
                }
                assert(self.best_hash() == h.hash);
                assert(self.canonical_map()[number] == h.hash);
                assert(self.headers_map() == mid.headers_map());
                assert(self.infos_map() == mid.infos_map());
                assert(self.recent_map() == mid.recent_map());
                lemma_wf_transfer(mid, *self);
            }
            let ghost mid2 = *self;
            if number > 0 {
                let mut n = number - 1;
                let mut cur = parent_hash.duplicate();
                loop
                    invariant
                        n < number,
                        mid2.wf(),
                        cur.wf(),
                        self.wf(),
                        *self == (EthBridge {
                            canonical_header_hashes: self.canonical_header_hashes,
                            ..mid2
                        }),
                        self.canonical_map().contains_key(number),
                        self.canonical_map()[number] == h.hash,
                        forall|k: u64|
                            best_number > number && number < k <= best_number
                                ==> !self.canonical_map().contains_key(k),
                    decreases n,
                {
                    let hkey = Height { n };
                    let prev_matches = match self.canonical_header_hashes.get(&hkey) {
                        Some(p) => bytes_eq(p.as_bytes(), cur.as_bytes()),
                        None => false,
                    };
                    let ghost cprev = *self;
                    self.canonical_header_hashes.insert(Height { n }, cur.duplicate());
                    proof {
                        lemma_wf_transfer(mid2, *self);
                        assert(self.canonical_map() == cprev.canonical_map().insert(n, cur@));
                        assert forall|k: u64|
                            best_number > number && number < k <= best_number implies !self
                            .canonical_map().contains_key(k) by {
                            assert(!cprev.canonical_map().contains_key(k));
                        }
                    }
                    if n == 0 || prev_matches {
                        break;
                    }
                    let parent_opt = match self.infos.get(&cur) {
                        Some(i2) => {
                            proof {
                                assert(self.infos_map().contains_key(cur@));
                                assert(self.infos_map()[cur@].wf());
                            }
                            Some(i2.parent_hash.duplicate())
                        },
                        None => None,
                    };
                    match parent_opt {
                        Some(p) => {
                            cur = p;
                        },
                        None => {
                            break;
                        },
                    }
                    n -= 1;
                }
            }
            let ghost mid3 = *self;
            proof {
                assert forall|k: u64|
                    best_number > number && number < k <= best_number implies !mid3.canonical_map(
                ).contains_key(k) by {}
                assert(mid3.headers_map() == mid.headers_map());
                assert(mid3.infos_map() == mid.infos_map());
                assert(mid3.best_hash() == h.hash);
                assert(mid3.infos_map().contains_key(h.hash));
                assert(mid3.canonical_map().contains_key(number) && mid3.canonical_map()[number]
                    == h.hash);
            }
            self.maybe_gc(best_number, number);
            proof {
                assert(!gc_removes(best_number, number, number));
                assert(mid3.infos_map()[h.hash].number == number);
                assert(self.infos_map().contains_key(h.hash));
                assert(self.infos_map()[h.hash] == old(self).new_info(h));
                assert(self.headers_map().contains_key(h.hash)) by {
                    assert(self.infos_map().contains_key(h.hash));
                }
                assert(self.best_hash() == h.hash);
                assert(self.best_td() == old(self).new_total(h));
                assert(self.best_td() >= old(self).best_td());
                if mid.linked() {
                    assert forall|x: Seq<u8>| #[trigger]
                        self.infos_map().contains_key(x) && self.infos_map().contains_key(
                            self.infos_map()[x].parent_hash,
                        ) implies self.infos_map()[self.infos_map()[x].parent_hash].number + 1
                        == self.infos_map()[x].number by {
                        assert(mid3.infos_map().contains_key(x));
                        assert(self.infos_map()[x] == mid3.infos_map()[x]);
                        let p = self.infos_map()[x].parent_hash;
                        assert(mid3.infos_map().contains_key(p));
                        assert(self.infos_map()[p] == mid3.infos_map()[p]);
                    }
                    assert(self.linked());
                }
                if old(self).finality_bound() && old(self).best_number() >= FINALITY_DEPTH {
                    assert(self.best_number() == number);
                    assert forall|x: Seq<u8>| #[trigger]
                        self.infos_map().contains_key(x) implies self.infos_map()[x].number
                        + FINALITY_DEPTH >= self.best_number() by {
                        assert(mid3.infos_map().contains_key(x));
                        assert(self.infos_map()[x] == mid3.infos_map()[x]);
                        if x != h.hash {
                            assert(old(self).infos_map().contains_key(x));
                            assert(old(self).infos_map()[x].number + FINALITY_DEPTH
                                >= best_number);
                            assert(!gc_removes(best_number, number, self.infos_map()[x].number));
                        }
                    }
                }
            }
        } else {
            proof {
                if old(self).finality_bound() && old(self).best_number() >= FINALITY_DEPTH {
                    assert(old(self).infos_map().contains_key(old(self).best_hash()));
                    assert(self.best_number() == best_number);
                    assert forall|x: Seq<u8>| #[trigger]
                        self.infos_map().contains_key(x) implies self.infos_map()[x].number
                        + FINALITY_DEPTH >= self.best_number() by {
                        if x != h.hash {
                            assert(old(self).infos_map().contains_key(x));
                        }
                    }
                }
            }
        }
        Ok(())
    }

    /// Accepts one submitted header. A known header, or one below the
    /// retention horizon, is a silent no-op; any failed check aborts with no
    /// state change; a stored header becomes the canonical tip exactly when
    /// it carries more cumulative work, or equal work and even difficulty.
    pub fn add_block_header(
        &mut self,
        block_header: BlockHeader,
        dag_nodes: Vec<DoubleNodeWithMerkleProof>,
    ) -> (r: Result<(), BridgeError>)
        requires
            old(self).wf(),
            block_header.wf(),
            witnesses_wf(dag_nodes.deep_view()),
        ensures
            final(self).wf(),
            r == old(self).add_outcome(block_header@, dag_nodes.deep_view()),
            old(self).infos_map().contains_key(block_header@.hash) ==> *final(self) == *old(self),
            r is Err ==> *final(self) == *old(self),
            final(self).start_epoch() == old(self).start_epoch(),
            final(self).roots_seq() == old(self).roots_seq(),
            final(self).best_td() >= old(self).best_td(),
            old(self).accepts(block_header@, dag_nodes.deep_view()) ==> final(self).headers_map().contains_key(block_header@.hash) && final(self).headers_map()[block_header@.hash] == block_header@ && final(self).infos_map().contains_key(block_header@.hash) && final(self).infos_map()[block_header@.hash] == old(self).new_info(block_header@),
            old(self).accepts(block_header@, dag_nodes.deep_view()) && old(self).tip_wins(
                block_header@,
            ) ==> final(self).best_hash() == block_header@.hash && final(self).canonical_map().contains_key(block_header@.number) && final(self).canonical_map()[block_header@.number] == block_header@.hash,
            old(self).accepts(block_header@, dag_nodes.deep_view()) && !old(self).tip_wins(
                block_header@,
            ) ==> final(self).best_hash() == old(self).best_hash() && final(self).canonical_map()
                == old(self).canonical_map(),
            !old(self).infos_map().contains_key(block_header@.hash) && !old(self).accepts(
                block_header@,
                dag_nodes.deep_view(),
            ) && r is Ok ==> *final(self) == *old(self),
            old(self).finality_bound() && old(self).best_number() >= FINALITY_DEPTH ==> final(self).finality_bound(),
            old(self).linked() && old(self).best_hash() != zero_bytes(32) && (forall|k: Seq<u8>|
                #[trigger] old(self).infos_map().contains_key(k) ==> old(self).infos_map()[k].parent_hash
                    != block_header@.hash) ==> final(self).linked(),
            old(self).accepts(block_header@, dag_nodes.deep_view()) && old(self).tip_wins(
                block_header@,
            ) && old(self).best_number() > block_header@.number ==> (forall|k: u64|
                block_header@.number < k <= old(self).best_number() ==> !final(self).canonical_map().contains_key(k)),
    {
        let ghost h = block_header@;
        let ghost ws = dag_nodes.deep_view();
        if self.infos.get(&block_header.hash).is_some() {
            return Ok(());
        }
        if self.best_header_hash.is_zero() {
            proof {
                assert(old(self).best_hash() == zero_bytes(32));
            }
            let r = self.maybe_store_header(block_header);
            return r;
        }
        proof {
            assert(old(self).best_hash() != zero_bytes(32));
        }
        let verdict = match self.headers.get(&block_header.parent_hash) {
            None => Err(BridgeError::UnknownParent),
            Some(prev) => {
                proof {
                    assert(self.headers_map().contains_key(h.parent_hash));
                    assert(prev.wf());
                }
                self.verify_header(&block_header, prev, &dag_nodes)
            },
        };
        match verdict {
            Err(e) => {
                return Err(e);
            },
            Ok(_) => {},
        }
        proof {
            if old(self).linked() && (forall|k: Seq<u8>| #[trigger]
                old(self).infos_map().contains_key(k) ==> old(self).infos_map()[k].parent_hash
                    != h.hash) {
                assert(self.headers_map().contains_key(h.parent_hash));
                assert(self.infos_map().contains_key(h.parent_hash));
                assert(h.parent_hash != h.hash);
                let prevv = self.headers_map()[h.parent_hash];
                assert(h.number == prevv.number + 1);
                assert(self.infos_map()[h.parent_hash].number == prevv.number);
            }
        }
        self.maybe_store_header(block_header)
    }
}

} // verus!
