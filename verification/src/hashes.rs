//! Fixed-width byte strings: the hash and nonce quantities of the bridged
//! ledger, held as plain bytes with a width invariant.

use vstd::prelude::*;

verus! {

/// The all-zero byte string of length `n`.
pub open spec fn zero_bytes(n: int) -> Seq<u8> {
    Seq::new(n as nat, |i: int| 0u8)
}

/// A byte string of exactly `N` bytes.
#[derive(Debug)]
pub struct FixedBytes<const N: usize> {
    bytes: Vec<u8>,
}

/// An 8-byte quantity (a block nonce).
pub type Hash64 = FixedBytes<8>;

/// A 16-byte quantity (a Merkle tree node of the pinned DAG trees).
pub type Hash128 = FixedBytes<16>;

/// A 32-byte quantity (a block hash or digest).
pub type Hash256 = FixedBytes<32>;

/// A 64-byte quantity (a DAG dataset word).
pub type Hash512 = FixedBytes<64>;

impl<const N: usize> View for FixedBytes<N> {
    type V = Seq<u8>;

    closed spec fn view(&self) -> Seq<u8> {
        self.bytes@
    }
}

impl<const N: usize> DeepView for FixedBytes<N> {
    type V = Seq<u8>;

    open spec fn deep_view(&self) -> Seq<u8> {
        self@
    }
}

/// Compares two byte vectors for equality of their contents.
pub fn bytes_eq(a: &Vec<u8>, b: &Vec<u8>) -> (r: bool)
    ensures
        r == (a@ == b@),
{
    if a.len() != b.len() {
        return false;
    }
    let mut i: usize = 0;
    while i < a.len()
        invariant
            i <= a.len(),
            a@.len() == b@.len(),
            forall|j: int| 0 <= j < i ==> a@[j] == b@[j],
        decreases a.len() - i,
    {
        if a[i] != b[i] {
            return false;
        }
        i += 1;
    }
    proof {
        assert(a@ =~= b@);
    }
    true
}

/// Copies the contents of a byte vector.
pub fn copy_bytes(src: &Vec<u8>) -> (r: Vec<u8>)
    ensures
        r@ == src@,
{
    let mut v: Vec<u8> = Vec::new();
    let mut i: usize = 0;
    while i < src.len()
        invariant
            i <= src.len(),
            v@ == src@.subrange(0, i as int),
        decreases src.len() - i,
    {
        v.push(src[i]);
        i += 1;
    }
    proof {
        assert(v@ =~= src@);
    }
    v
}

impl<const N: usize> FixedBytes<N> {
    pub open spec fn wf(&self) -> bool {
        self@.len() == N
    }

    /// Wraps bytes known to have the exact width.
    pub fn from_fixed(bytes: Vec<u8>) -> (r: Self)
        requires
            bytes@.len() == N,
        ensures
            r.wf(),
            r@ == bytes@,
    {
        FixedBytes { bytes }
    }

    /// Wraps bytes, checking the width.
    pub fn from_bytes(bytes: Vec<u8>) -> (r: Option<Self>)
        ensures
            match r {
                Some(h) => h.wf() && h@ == bytes@ && bytes@.len() == N,
                None => bytes@.len() != N,
            },
    {
        if bytes.len() == N {
            Some(FixedBytes { bytes })
        } else {
            None
        }
    }

    /// The all-zero value.
    pub fn zero() -> (r: Self)
        ensures
            r.wf(),
            r@ == zero_bytes(N as int),
    {
        let mut v: Vec<u8> = Vec::new();
        let mut i: usize = 0;
        while i < N
            invariant
                i <= N,
                v@.len() == i,
                forall|j: int| 0 <= j < i ==> v@[j] == 0u8,
            decreases N - i,
        {
            v.push(0u8);
            i += 1;
        }
        proof {
            assert(v@ =~= zero_bytes(N as int));
        }
        FixedBytes { bytes: v }
    }

    /// True iff every byte is zero.
    pub fn is_zero(&self) -> (r: bool)
        requires
            self.wf(),
        ensures
            r == (self@ == zero_bytes(N as int)),
    {
        let mut i: usize = 0;
        while i < self.bytes.len()
            invariant
                i <= self.bytes.len(),
                self.wf(),
                forall|j: int| 0 <= j < i ==> self@[j] == 0u8,
        decreases self.bytes.len() - i,
        {
            if self.bytes[i] != 0u8 {
                proof {
                    assert(self@[i as int] != 0u8);
                    assert(self@ != zero_bytes(N as int)) by {
                        assert(zero_bytes(N as int)[i as int] == 0u8);
                    }
                }
                return false;
            }
            i += 1;
        }
        proof {
            assert(self@ =~= zero_bytes(N as int));
        }
        true
    }

    pub fn as_bytes(&self) -> (r: &Vec<u8>)
        ensures
            r@ == self@,
    {
        &self.bytes
    }

    /// A copy of the same bytes.
    pub fn duplicate(&self) -> (r: Self)
        ensures
            r@ == self@,
    {
        FixedBytes { bytes: copy_bytes(&self.bytes) }
    }
}

impl<const N: usize> PartialEq for FixedBytes<N> {
    fn eq(&self, other: &Self) -> (r: bool) {
        bytes_eq(&self.bytes, &other.bytes)
    }
}

impl<const N: usize> vstd::std_specs::cmp::PartialEqSpecImpl for FixedBytes<N> {
    open spec fn obeys_eq_spec() -> bool {
        true
    }

    open spec fn eq_spec(&self, other: &Self) -> bool {
        self@ == other@
    }
}

impl<const N: usize> Eq for FixedBytes<N> {

}

} // verus!
