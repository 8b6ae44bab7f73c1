use vstd::arithmetic::div_mod::*;
use vstd::prelude::*;

verus! {

/// The Goldilocks prime, 2^64 - 2^32 + 1.
pub const GOLDILOCKS_P: u64 = 0xFFFF_FFFF_0000_0001u64;

/// An element of the prime field GF(p): the residue `v` together with the
/// modulus `p`. Arithmetic goes through a `u128` intermediate, so it is
/// exact for every modulus that fits in a `u64`.
#[derive(Clone, Copy, Debug, PartialEq, Eq, Structural)]
pub struct F {
    pub v: u64,
    pub p: u64,
}

/// `a + b` in GF(p), p taken from `a`.
pub open spec fn f_add(a: F, b: F) -> F {
    F { v: ((a.v + b.v) % (a.p as int)) as u64, p: a.p }
}

/// `a * b` in GF(p), p taken from `a`.
pub open spec fn f_mul(a: F, b: F) -> F {
    F { v: ((a.v * b.v) % (a.p as int)) as u64, p: a.p }
}

/// The residue `(a - b + p) rem p` computed in signed 128-bit arithmetic
/// (remainder truncated toward zero), then reinterpreted as a `u64`. For
/// reduced operands it is `(a - b) mod p`.
pub open spec fn sub_residue(a: u64, b: u64, p: u64) -> int {
    let d = a - b + p;
    if d >= 0 {
        d % (p as int)
    } else if (-d) % (p as int) == 0 {
        0
    } else {
        0x1_0000_0000_0000_0000 - (-d) % (p as int)
    }
}

/// `a - b` in GF(p), p taken from `a`.
pub open spec fn f_sub(a: F, b: F) -> F {
    F { v: sub_residue(a.v, b.v, a.p) as u64, p: a.p }
}

/// `-a` in GF(p): zero stays zero, otherwise `p - v`.
pub open spec fn f_neg(a: F) -> F {
    if a.v == 0 {
        a
    } else {
        F { v: (a.p - a.v) as u64, p: a.p }
    }
}

/// `(-a) mod p` in terms of `a mod p`.
pub proof fn lemma_mod_of_negation(a: int, p: int)
    requires
        p > 0,
    ensures
        (-a) % p == (if a % p == 0 { 0 } else { p - a % p }),
{
    let q = a / p;
    let r = a % p;
    lemma_fundamental_div_mod(a, p);
    lemma_mod_bound(a, p);
    if r == 0 {
        assert(-a == (-q) * p + 0) by (nonlinear_arith)
            requires
                a == p * q + r,
                r == 0,
        ;
        lemma_fundamental_div_mod_converse(-a, p, -q, 0);
    } else {
        assert(-a == (-q - 1) * p + (p - r)) by (nonlinear_arith)
            requires
                a == p * q + r,
        ;
        lemma_fundamental_div_mod_converse(-a, p, -q - 1, p - r);
    }
}

/// For reduced residues the exact subtraction is the field difference.
pub proof fn lemma_sub_residue_reduced(a: u64, b: u64, p: u64)
    requires
        a < p,
        b < p,
    ensures
        sub_residue(a, b, p) == (a - b) % (p as int),
{
    lemma_mod_add_multiples_vanish(a - b, p as int);
}

impl F {
    /// The residue of `v` modulo `p`, in `0..p` also for negative `v`.
    pub fn new(v: i128, p: u64) -> (r: F)
        requires
            p > 0,
        ensures
            r.p == p,
            r.v == (v as int) % (p as int),
    {
        let m = p as u128;
        if v >= 0 {
            let r = (v as u128) % m;
            F { v: r as u64, p }
        } else {
            let a: u128 = ((-(v + 1)) as u128) + 1;
            assert(a == -v);
            let r = a % m;
            proof {
                lemma_mod_of_negation(a as int, p as int);
            }
            if r == 0 {
                F { v: 0, p }
            } else {
                F { v: (m - r) as u64, p }
            }
        }
    }

    /// The zero of GF(p).
    pub fn zero(p: u64) -> (r: F)
        ensures
            r == (F { v: 0, p }),
    {
        F { v: 0, p }
    }

    /// The one of GF(p) (which is `0` when `p == 1`).
    pub fn one(p: u64) -> (r: F)
        requires
            p > 0,
        ensures
            r.p == p,
            r.v == 1int % (p as int),
    {
        F { v: 1 % p, p }
    }

    /// Field addition; both operands must carry the same modulus.
    pub fn add(self, o: F) -> (r: F)
        requires
            self.p == o.p,
            self.p > 0,
        ensures
            r == f_add(self, o),
    {
        let s = self.v as u128 + o.v as u128;
        F { v: (s % (self.p as u128)) as u64, p: self.p }
    }

    /// Field subtraction; both operands must carry the same modulus. The
    /// residue is `(v - o.v + p) rem p` in signed 128-bit arithmetic, see
    /// [`sub_residue`].
    pub fn sub(self, o: F) -> (r: F)
        requires
            self.p == o.p,
            self.p > 0,
        ensures
            r == f_sub(self, o),
    {
        let m = self.p as u128;
        let vp = self.v as u128 + m;
        let ov = o.v as u128;
        if vp >= ov {
            F { v: ((vp - ov) % m) as u64, p: self.p }
        } else {
            let r = (ov - vp) % m;
            if r == 0 {
                F { v: 0, p: self.p }
            } else {
                F { v: (0x1_0000_0000_0000_0000u128 - r) as u64, p: self.p }
            }
        }
    }

    /// Field multiplication; both operands must carry the same modulus.
    pub fn mul(self, o: F) -> (r: F)
        requires
            self.p == o.p,
            self.p > 0,
        ensures
            r == f_mul(self, o),
    {
        proof {
            vstd::arithmetic::mul::lemma_mul_upper_bound(
                self.v as int,
                u64::MAX as int,
                o.v as int,
                u64::MAX as int,
            );
        }
        let s = self.v as u128 * o.v as u128;
        F { v: (s % (self.p as u128)) as u64, p: self.p }
    }

    /// Additive inverse: zero stays zero, otherwise `p - v`.
    pub fn neg(self) -> (r: F)
        requires
            self.v <= self.p,
        ensures
            r == f_neg(self),
    {
        if self.v == 0 {
            self
        } else {
            F { v: self.p - self.v, p: self.p }
        }
    }

    /// Whether the residue is zero.
    pub fn is_zero(self) -> (r: bool)
        ensures
            r == (self.v == 0),
    {
        self.v == 0
    }
}

} // verus!
