//! An unsigned 256-bit integer as four 64-bit little-endian limbs, with the
//! arithmetic the consensus rules need, each operation specified over the
//! mathematical value of the limbs.

use vstd::prelude::*;
use vstd::arithmetic::div_mod::lemma_fundamental_div_mod;
use vstd::arithmetic::div_mod::lemma_mod_multiples_vanish;

verus! {

/// A 256-bit unsigned integer; `l0` is the least significant limb.
#[derive(Clone, Copy, PartialEq, Eq, Structural, Debug)]
pub struct U256 {
    pub l0: u64,
    pub l1: u64,
    pub l2: u64,
    pub l3: u64,
}

impl U256 {
    /// The mathematical value of the four limbs.
    pub open spec fn as_nat(self) -> nat {
        (self.l0 as int + self.l1 as int * 0x10000000000000000int
            + self.l2 as int * 0x100000000000000000000000000000000int
            + self.l3 as int * 0x1000000000000000000000000000000000000000000000000int) as nat
    }

    pub proof fn lemma_bound(self)
        ensures
            self.as_nat() < 0x10000000000000000000000000000000000000000000000000000000000000000int,
    {
    }

    pub fn from_u64(x: u64) -> (r: Self)
        ensures
            r.as_nat() == x,
    {
        U256 { l0: x, l1: 0, l2: 0, l3: 0 }
    }

    /// True iff the value is even.
    pub fn is_even(&self) -> (r: bool)
        ensures
            r == (self.as_nat() % 2 == 0),
    {
        proof {
            let k = self.l1 as int * 0x8000000000000000
                + self.l2 as int * 0x80000000000000000000000000000000int
                + self.l3 as int * 0x800000000000000000000000000000000000000000000000int;
            assert(self.as_nat() == 2 * k + self.l0);
            lemma_mod_multiples_vanish(k, self.l0 as int, 2);
        }
        self.l0 % 2 == 0
    }

    /// True iff `self` is strictly below `other`.
    pub fn lt(&self, other: &Self) -> (r: bool)
        ensures
            r == (self.as_nat() < other.as_nat()),
    {
        proof {
            lemma_u256_lex(*self, *other);
        }
        if self.l3 != other.l3 {
            self.l3 < other.l3
        } else if self.l2 != other.l2 {
            self.l2 < other.l2
        } else if self.l1 != other.l1 {
            self.l1 < other.l1
        } else {
            self.l0 < other.l0
        }
    }

    /// Equality of values.
    pub fn same(&self, other: &Self) -> (r: bool)
        ensures
            r == (self.as_nat() == other.as_nat()),
    {
        proof {
            lemma_u256_lex(*self, *other);
            lemma_u256_lex(*other, *self);
        }
        self.l0 == other.l0 && self.l1 == other.l1 && self.l2 == other.l2 && self.l3 == other.l3
    }

    /// The sum, or `None` on overflow past 2^256 - 1.
    pub fn checked_add(&self, other: &Self) -> (r: Option<U256>)
        ensures
            match r {
                Some(s) => s.as_nat() == self.as_nat() + other.as_nat(),
                None => self.as_nat() + other.as_nat()
                    >= 0x10000000000000000000000000000000000000000000000000000000000000000int,
            },
    {
        let b: u128 = 0x10000000000000000u128;
        let s0: u128 = self.l0 as u128 + other.l0 as u128;
        let r0: u64 = (s0 % b) as u64;
        let c0: u128 = s0 / b;
        let s1: u128 = self.l1 as u128 + other.l1 as u128 + c0;
        let r1: u64 = (s1 % b) as u64;
        let c1: u128 = s1 / b;
        let s2: u128 = self.l2 as u128 + other.l2 as u128 + c1;
        let r2: u64 = (s2 % b) as u64;
        let c2: u128 = s2 / b;
        let s3: u128 = self.l3 as u128 + other.l3 as u128 + c2;
        let r3: u64 = (s3 % b) as u64;
        let c3: u128 = s3 / b;
        proof {
            lemma_fundamental_div_mod(s0 as int, b as int);
            lemma_fundamental_div_mod(s1 as int, b as int);
            lemma_fundamental_div_mod(s2 as int, b as int);
            lemma_fundamental_div_mod(s3 as int, b as int);
        }
        let out = U256 { l0: r0, l1: r1, l2: r2, l3: r3 };
        proof {
            assert(out.as_nat() + c3
                * 0x10000000000000000000000000000000000000000000000000000000000000000int
                == self.as_nat() + other.as_nat());
        }
        if c3 == 0 {
            Some(out)
        } else {
            None
        }
    }

    /// The 320-bit product-plus-addend `self * m + a0`, as a 256-bit low part
    /// and a 64-bit high limb.
    pub fn mul_add_u64(&self, m: u64, a0: u64) -> (r: (U256, u64))
        ensures
            wide_nat(r) == self.as_nat() * m + a0,
    {
        let b: u128 = 0x10000000000000000u128;
        proof {
            lemma_mul_limb_bound(self.l0, m);
            lemma_mul_limb_bound(self.l1, m);
            lemma_mul_limb_bound(self.l2, m);
            lemma_mul_limb_bound(self.l3, m);
        }
        let p0: u128 = self.l0 as u128 * m as u128 + a0 as u128;
        let d0: u64 = (p0 % b) as u64;
        let k0: u128 = p0 / b;
        proof {
            lemma_fundamental_div_mod(p0 as int, b as int);
        }
        let p1: u128 = self.l1 as u128 * m as u128 + k0;
        let d1: u64 = (p1 % b) as u64;
        let k1: u128 = p1 / b;
        proof {
            lemma_fundamental_div_mod(p1 as int, b as int);
        }
        let p2: u128 = self.l2 as u128 * m as u128 + k1;
        let d2: u64 = (p2 % b) as u64;
        let k2: u128 = p2 / b;
        proof {
            lemma_fundamental_div_mod(p2 as int, b as int);
        }
        let p3: u128 = self.l3 as u128 * m as u128 + k2;
        let d3: u64 = (p3 % b) as u64;
        let k3: u128 = p3 / b;
        proof {
            lemma_fundamental_div_mod(p3 as int, b as int);
        }
        let out = U256 { l0: d0, l1: d1, l2: d2, l3: d3 };
        let hi: u64 = k3 as u64;
        proof {
            assert((self.l0 as int + self.l1 as int * 0x10000000000000000int
                + self.l2 as int * 0x100000000000000000000000000000000int
                + self.l3 as int * 0x1000000000000000000000000000000000000000000000000int) * (
            m as int) == self.l0 as int * (m as int) + (self.l1 as int * (m as int))
                * 0x10000000000000000int + (self.l2 as int * (m as int))
                * 0x100000000000000000000000000000000int + (self.l3 as int * (m as int))
                * 0x1000000000000000000000000000000000000000000000000int) by (nonlinear_arith);
            assert(wide_nat((out, hi)) == self.as_nat() * m + a0);
        }
        (out, hi)
    }
}

/// The value of a 256-bit low part with a 64-bit high limb.
pub open spec fn wide_nat(r: (U256, u64)) -> nat {
    (r.0.as_nat()
        + r.1 as int * 0x10000000000000000000000000000000000000000000000000000000000000000int) as nat
}

/// Strict order on 320-bit wide values.
pub fn wide_lt(x: &(U256, u64), y: &(U256, u64)) -> (r: bool)
    ensures
        r == (wide_nat(*x) < wide_nat(*y)),
{
    proof {
        x.0.lemma_bound();
        y.0.lemma_bound();
        lemma_scaled_pair(
            x.1 as int,
            x.0.as_nat() as int,
            y.1 as int,
            y.0.as_nat() as int,
            0x10000000000000000000000000000000000000000000000000000000000000000int,
        );
    }
    if x.1 != y.1 {
        x.1 < y.1
    } else {
        x.0.lt(&y.0)
    }
}

/// Non-strict order on 320-bit wide values.
pub fn wide_le(x: &(U256, u64), y: &(U256, u64)) -> (r: bool)
    ensures
        r == (wide_nat(*x) <= wide_nat(*y)),
{
    !wide_lt(y, x)
}

/// For digits below the scale `m`, comparing `h * m + lo` values is
/// lexicographic comparison of the pairs.
proof fn lemma_scaled_pair(h1: int, lo1: int, h2: int, lo2: int, m: int)
    requires
        0 <= lo1 < m,
        0 <= lo2 < m,
        0 <= h1,
        0 <= h2,
    ensures
        (h1 * m + lo1 < h2 * m + lo2) <==> (h1 < h2 || (h1 == h2 && lo1 < lo2)),
{
    assert((h1 * m + lo1 < h2 * m + lo2) <==> (h1 < h2 || (h1 == h2 && lo1 < lo2)))
        by (nonlinear_arith)
        requires
            0 <= lo1 < m,
            0 <= lo2 < m,
            0 <= h1,
            0 <= h2,
    ;
}

/// Comparison of 256-bit values is lexicographic comparison of the limbs,
/// most significant first.
proof fn lemma_u256_lex(a: U256, b: U256)
    ensures
        (a.as_nat() < b.as_nat()) <==> (a.l3 < b.l3 || (a.l3 == b.l3 && (a.l2 < b.l2 || (a.l2
            == b.l2 && (a.l1 < b.l1 || (a.l1 == b.l1 && a.l0 < b.l0)))))),
{
    let low2a = a.l0 as int + a.l1 as int * 0x10000000000000000int;
    let low2b = b.l0 as int + b.l1 as int * 0x10000000000000000int;
    let low3a = low2a + a.l2 as int * 0x100000000000000000000000000000000int;
    let low3b = low2b + b.l2 as int * 0x100000000000000000000000000000000int;
    lemma_scaled_pair(a.l1 as int, a.l0 as int, b.l1 as int, b.l0 as int, 0x10000000000000000int);
    lemma_scaled_pair(
        a.l2 as int,
        low2a,
        b.l2 as int,
        low2b,
        0x100000000000000000000000000000000int,
    );
    lemma_scaled_pair(
        a.l3 as int,
        low3a,
        b.l3 as int,
        low3b,
        0x1000000000000000000000000000000000000000000000000int,
    );
}

/// A limb-by-limb product with addend stays within 128 bits.
proof fn lemma_mul_limb_bound(x: u64, m: u64)
    ensures
        x as int * m as int <= 0xfffffffffffffffe0000000000000001int,
{
    assert(x as int * m as int <= 0xfffffffffffffffe0000000000000001int) by (nonlinear_arith)
        requires
            0 <= x <= 0xffffffffffffffffint,
            0 <= m <= 0xffffffffffffffffint,
    ;
}

} // verus!
