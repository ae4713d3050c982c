//! The trusted boundary: wrappers around the cryptographic primitives of
//! outside crates, each with the contract the rest of the library is proved
//! against.

use vstd::prelude::*;
use sha2::Digest;
use crate::hashes::{Hash64, Hash256};
use crate::u256::U256;

verus! {

/// The SHA-256 digest of a byte string.
pub uninterp spec fn sha256_of(data: Seq<u8>) -> Seq<u8>;

/// Relies on sha2::Sha256: the SHA-256 digest, 32 bytes, a function of the
/// input bytes alone.
#[verifier::external_body]
pub(crate) fn sha256(data: &Vec<u8>) -> (r: Vec<u8>)
    ensures
        r@ == sha256_of(data@),
        r@.len() == 32,
{
    sha2::Sha256::digest(data.as_slice()).to_vec()
}

/// The Ethash dataset size of an epoch.
pub uninterp spec fn full_size_of(epoch: u64) -> u64;

/// Relies on ethash::get_full_size: the per-epoch dataset size, a function of
/// the epoch alone; the bound on the epoch keeps its size arithmetic within
/// the machine word.
#[verifier::external_body]
pub(crate) fn get_full_size(epoch: u64) -> (r: u64)
    requires
        epoch < 0x10000000,
    ensures
        r == full_size_of(epoch),
{
    ethash::get_full_size(epoch as usize) as u64
}

/// The largest 256-bit value.
pub open spec fn max_u256() -> nat {
    0xffffffffffffffffffffffffffffffffffffffffffffffffffffffffffffffffnat
}

/// The proof-of-work target for a difficulty: 2^256 / difficulty, as the
/// outside routine computes it.
pub open spec fn boundary_of(d: nat) -> nat {
    if d <= 1 {
        max_u256()
    } else {
        2 * ((0x8000000000000000000000000000000000000000000000000000000000000000nat) / d)
    }
}

/// Relies on ethash::cross_boundary: for a difficulty of one or less it
/// returns the largest 256-bit value, otherwise `((1 << 255) / d) << 1`.
#[verifier::external_body]
pub(crate) fn cross_boundary(d: &U256) -> (r: U256)
    ensures
        r.as_nat() == boundary_of(d.as_nat()),
{
    let e = ethash::cross_boundary(ethereum_types::U256([d.l0, d.l1, d.l2, d.l3]));
    U256 { l0: e.0[0], l1: e.0[1], l2: e.0[2], l3: e.0[3] }
}

/// The value of a byte string read as a big-endian unsigned integer.
pub open spec fn be_nat(s: Seq<u8>) -> nat
    decreases s.len(),
{
    if s.len() == 0 {
        0
    } else {
        (be_nat(s.drop_last()) * 256 + s.last()) as nat
    }
}

/// Relies on ethereum_types::U256::from_big_endian: the 32 bytes read as a
/// big-endian integer, in little-endian limbs.
#[verifier::external_body]
pub(crate) fn u256_from_be(bytes: &Vec<u8>) -> (r: U256)
    requires
        bytes@.len() == 32,
    ensures
        r.as_nat() == be_nat(bytes@),
{
    let e = ethereum_types::U256::from_big_endian(bytes.as_slice());
    U256 { l0: e.0[0], l1: e.0[1], l2: e.0[2], l3: e.0[3] }
}

/// The Ethash mix, result, and sequence of dataset offsets asked of the
/// lookup, for a run fed the given 64-byte words in order.
pub uninterp spec fn hashimoto_of(
    header_hash: Seq<u8>,
    nonce: Seq<u8>,
    full_size: u64,
    words: Seq<Seq<u8>>,
) -> (Seq<u8>, Seq<u8>, Seq<u64>);

/// Relies on ethash::hashimoto: the mix and result for the given header hash,
/// nonce and dataset size, where the lookup closure feeds the given 64-byte
/// words in order (zero words once they are exhausted) and records the
/// offsets it was asked for; every output is a function of the arguments
/// alone.
#[verifier::external_body]
pub(crate) fn run_hashimoto(
    header_hash: &Hash256,
    nonce: &Hash64,
    full_size: u64,
    words: &Vec<Vec<u8>>,
) -> (r: (Vec<u8>, Vec<u8>, Vec<u64>))
    requires
        header_hash.wf(),
        nonce.wf(),
        full_size >= 256,
        forall|i: int| 0 <= i < words@.len() ==> (#[trigger] words@[i])@.len() == 64,
    ensures
        r.0@ == hashimoto_of(header_hash@, nonce@, full_size, words.deep_view()).0,
        r.0@.len() == 32,
        r.1@ == hashimoto_of(header_hash@, nonce@, full_size, words.deep_view()).1,
        r.1@.len() == 32,
        r.2@ == hashimoto_of(header_hash@, nonce@, full_size, words.deep_view()).2,
{
    let hh = ethereum_types::H256::from_slice(header_hash.as_bytes().as_slice());
    let nn = ethereum_types::H64::from_slice(nonce.as_bytes().as_slice());
    let feed = std::cell::RefCell::new(words.iter());
    let offsets = std::cell::RefCell::new(Vec::<u64>::new());
    let pair = ethash::hashimoto(hh, nn, full_size as usize, |i| {
        offsets.borrow_mut().push(i as u64);
        match feed.borrow_mut().next() {
            Some(w) => ethereum_types::H512::from_slice(w.as_slice()),
            None => ethereum_types::H512::zero(),
        }
    });
    (pair.0.as_bytes().to_vec(), pair.1.as_bytes().to_vec(), offsets.into_inner())
}

} // verus!
