use crate::bits::{
    comp, comp_spec, has_bit, is_superset, lemma_block_bounds, lemma_block_halves_clear,
    lemma_bit_identities, lemma_block_halves_set, lemma_comp, lemma_set_bit_below,
    lemma_shift_amount, lemma_low_ones_step, lemma_low_ones_top, lemma_shl_pow2,
    lemma_popcount_set_bit, lemma_popcount_superset, lemma_superset_bit, lo_of, low_ones, mask,
    parity_sign, popcount, wt,
};
use crate::field::{F, lemma_sub_residue_reduced};
use crate::sums::{
    lemma_rsum_ext, lemma_rsum_scale, lemma_rsum_single, lemma_rsum_split, lemma_rsum_zero, rsum,
};
use vstd::arithmetic::div_mod::*;
use vstd::arithmetic::power2::*;
use vstd::prelude::*;

verus! {

// ---------------------------------------------------------------------
// Specifications
// ---------------------------------------------------------------------
/// The term of index `y` in the sum over supersets of `t`: `val(y)` when
/// `y >= t`, else zero.
pub open spec fn sup_term(val: spec_fn(int) -> int, t: usize) -> spec_fn(int) -> int {
    |y: int|
        if is_superset(y as usize, t) {
            val(y)
        } else {
            0
        }
}

/// The sum over supersets of `t` restricted to the block of `t` at level
/// `i`, i.e. to the `y >= t` that differ from `t` only in the `i` low bits.
pub open spec fn block_sum(val: spec_fn(int) -> int, t: usize, i: usize) -> int {
    rsum(sup_term(val, t), lo_of(t, i) as int, lo_of(t, i) + pow2(i as nat))
}

/// The residues of a vector of field elements, as integers.
pub open spec fn seq_vals(lam: Seq<F>) -> spec_fn(int) -> int {
    |y: int| lam[y].v as int
}

/// The term of index `y` in the sum over supersets of `t`: `lambda[y]` when
/// `y >= t`, else zero.
pub open spec fn zeta_term(lam: Seq<F>, t: usize) -> spec_fn(int) -> int {
    sup_term(seq_vals(lam), t)
}

/// `sum_{y < hi, y >= t} lambda[y]` over the integers.
pub open spec fn zeta_sum(lam: Seq<F>, t: usize, hi: int) -> int {
    rsum(zeta_term(lam, t), 0, hi)
}

/// The superset sum of `lambda` restricted to the block of `t` at level `i`.
pub open spec fn block_zeta(lam: Seq<F>, t: usize, i: usize) -> int {
    block_sum(seq_vals(lam), t, i)
}

/// The naive transform: `u[a] = sum_{y >= comp(a)} lambda[y] mod p`, summed
/// over every entry of `lambda`.
pub open spec fn zeta_naive_spec(lam: Seq<F>, m: u32, p: u64) -> Seq<F> {
    Seq::new(
        pow2(m as nat),
        |a: int|
            F {
                v: (zeta_sum(lam, comp_spec(a as usize, m as usize), lam.len() as int) % (
                p as int)) as u64,
                p,
            },
    )
}

/// The butterfly transform: `u[a] = sum_{y < 2^m, y >= comp(a)} lambda[y] mod p`
/// for `a != 0`; `u[0]` is the entry `lambda[2^m - 1]` passed through as it
/// is (the only entry no butterfly touches).
pub open spec fn zeta_fast_spec(lam: Seq<F>, m: u32, p: u64) -> Seq<F> {
    Seq::new(
        pow2(m as nat),
        |a: int|
            if a == 0 {
                lam[pow2(m as nat) - 1]
            } else {
                F {
                    v: (zeta_sum(lam, comp_spec(a as usize, m as usize), pow2(m as nat) as int) % (
                    p as int)) as u64,
                    p,
                }
            },
    )
}

/// The term of index `b` in the Moebius sum for `y`:
/// `(-1)^(wt(b) - wt(y)) u[comp(b)]` when `b >= y`, else zero.
pub open spec fn mobius_term(u: Seq<F>, m: usize, y: usize) -> spec_fn(int) -> int {
    |b: int|
        if is_superset(b as usize, y) {
            parity_sign(b as usize, y) * (u[comp_spec(b as usize, m) as int].v as int)
        } else {
            0
        }
}

/// The signed sum over supersets of `y` restricted to its block at level `i`.
pub open spec fn block_mobius(u: Seq<F>, m: usize, y: usize, i: usize) -> int {
    rsum(mobius_term(u, m, y), lo_of(y, i) as int, lo_of(y, i) + pow2(i as nat))
}

/// The Moebius inversion:
/// `lambda[y] = sum_{b >= y} (-1)^(wt(b) - wt(y)) u[comp(b)] mod p`.
pub open spec fn mobius_spec(u: Seq<F>, m: u32, p: u64) -> Seq<F> {
    Seq::new(
        pow2(m as nat),
        |y: int|
            F {
                v: (rsum(mobius_term(u, m as usize, y as usize), 0, pow2(m as nat) as int) % (
                p as int)) as u64,
                p,
            },
    )
}

// ---------------------------------------------------------------------
// Arithmetic helpers
// ---------------------------------------------------------------------
/// `((s mod p) + l) mod p == (s + l) mod p`.
pub proof fn lemma_mod_add_absorb(s: int, l: int, p: int)
    requires
        p > 0,
    ensures
        ((s % p) + l) % p == (s + l) % p,
{
    lemma_add_mod_noop(s % p, l, p);
    lemma_mod_twice(s, p);
    lemma_add_mod_noop(s, l, p);
}

/// Congruent summands give congruent sums.
pub proof fn lemma_mod_add_congruent(a: int, b: int, x: int, y: int, p: int)
    requires
        p > 0,
        a % p == x % p,
        b % p == y % p,
    ensures
        (a + b) % p == (x + y) % p,
{
    lemma_add_mod_noop(a, b, p);
    lemma_add_mod_noop(x, y, p);
}

// ---------------------------------------------------------------------
// Block structure of the superset sums
// ---------------------------------------------------------------------
/// At level 0 the block of `x` is `{x}`; when the `i` low bits of `x` are
/// all set, `x` is the only superset of itself in its block.
pub proof fn lemma_block_sum_single(val: spec_fn(int) -> int, x: usize, i: usize, m: usize)
    requires
        i <= m,
        m < usize::BITS,
        (x as nat) < pow2(m as nat),
        low_ones(x, i),
    ensures
        block_sum(val, x, i) == val(x as int),
{
    lemma_block_bounds(x, i, m);
    lemma_shl_pow2(i);
    lemma_shl_pow2(m);
    let lo = lo_of(x, i) as int;
    let hi = lo + pow2(i as nat);
    assert forall|y: int| lo <= y < hi && y != x implies #[trigger] sup_term(val, x)(y) == 0 by {
        let yy = y as usize;
        assert(lo_of(x, i) <= yy && yy < lo_of(x, i) + (1usize << i) && x & mask(i) == mask(i)
            && yy & x == x ==> yy == x) by (bit_vector)
            requires
                i < usize::BITS,
        ;
    }
    lemma_rsum_single(sup_term(val, x), lo, hi, x as int);
    lemma_bit_identities(x, 0);
    assert((x as int) as usize == x);
}

/// One level of the butterfly: the block sum at level `i + 1` of an `x`
/// without bit `i` is its block sum at level `i` plus that of `x | 2^i`;
/// with bit `i` the block sum does not change.
pub proof fn lemma_block_sum_step(val: spec_fn(int) -> int, x: usize, i: usize, m: usize)
    requires
        i < m,
        m < usize::BITS,
        (x as nat) < pow2(m as nat),
    ensures
        !has_bit(x, i) ==> block_sum(val, x, (i + 1) as usize) == block_sum(val, x, i)
            + block_sum(val, x | (1usize << i), i),
        has_bit(x, i) ==> block_sum(val, x, (i + 1) as usize) == block_sum(val, x, i),
{
    let j = (i + 1) as usize;
    lemma_block_bounds(x, j, m);
    lemma_shl_pow2(i);
    lemma_shl_pow2(j);
    lemma_shl_pow2(m);
    let b = 1usize << i;
    let f = sup_term(val, x);
    if !has_bit(x, i) {
        lemma_block_halves_clear(x, i, 0);
        let lo = lo_of(x, i) as int;
        lemma_rsum_split(f, lo, lo + b, lo + 2 * b);
        let g = sup_term(val, x | b);
        assert forall|y: int| lo + b <= y < lo + 2 * b implies #[trigger] f(y) == g(y) by {
            lemma_block_halves_clear(x, i, y as usize);
            lemma_superset_bit(y as usize, x, i);
        }
        lemma_rsum_ext(f, g, lo + b, lo + 2 * b);
    } else {
        lemma_block_halves_set(x, i, 0);
        let lo1 = lo_of(x, j) as int;
        let lo = lo_of(x, i) as int;
        lemma_rsum_split(f, lo1, lo, lo1 + 2 * b);
        assert forall|y: int| lo1 <= y < lo implies #[trigger] f(y) == 0 by {
            lemma_block_halves_set(x, i, y as usize);
            lemma_superset_bit(y as usize, x, i);
        }
        lemma_rsum_zero(f, lo1, lo);
    }
}

/// At level 0 the block of `x` is `{x}`; when the `i` low bits of `x` are
/// all set, `x` is the only superset of itself in its block.
pub proof fn lemma_block_zeta_single(lam: Seq<F>, x: usize, i: usize, m: usize)
    requires
        i <= m,
        m < usize::BITS,
        (x as nat) < pow2(m as nat),
        low_ones(x, i),
    ensures
        block_zeta(lam, x, i) == lam[x as int].v,
{
    lemma_block_sum_single(seq_vals(lam), x, i, m);
}

/// One level of the butterfly on the superset sums of `lambda`.
pub proof fn lemma_block_zeta_step(lam: Seq<F>, x: usize, i: usize, m: usize)
    requires
        i < m,
        m < usize::BITS,
        (x as nat) < pow2(m as nat),
    ensures
        !has_bit(x, i) ==> block_zeta(lam, x, (i + 1) as usize) == block_zeta(lam, x, i)
            + block_zeta(lam, x | (1usize << i), i),
        has_bit(x, i) ==> block_zeta(lam, x, (i + 1) as usize) == block_zeta(lam, x, i),
{
    lemma_block_sum_step(seq_vals(lam), x, i, m);
}

/// One level of the inverse butterfly: the signed block sum at level `i + 1`
/// of a `y` without bit `i` is its block sum at level `i` minus that of
/// `y | 2^i`; with bit `i` the block sum does not change.
pub proof fn lemma_block_mobius_step(u: Seq<F>, y: usize, i: usize, m: usize)
    requires
        i < m,
        m < usize::BITS,
        (y as nat) < pow2(m as nat),
    ensures
        !has_bit(y, i) ==> block_mobius(u, m, y, (i + 1) as usize) == block_mobius(u, m, y, i)
            - block_mobius(u, m, y | (1usize << i), i),
        has_bit(y, i) ==> block_mobius(u, m, y, (i + 1) as usize) == block_mobius(u, m, y, i),
{
    let j = (i + 1) as usize;
    lemma_block_bounds(y, j, m);
    lemma_shl_pow2(i);
    lemma_shl_pow2(j);
    lemma_shl_pow2(m);
    let b = 1usize << i;
    let f = mobius_term(u, m, y);
    if !has_bit(y, i) {
        lemma_block_halves_clear(y, i, 0);
        let lo = lo_of(y, i) as int;
        lemma_rsum_split(f, lo, lo + b, lo + 2 * b);
        let g = mobius_term(u, m, y | b);
        lemma_popcount_set_bit(y, i);
        assert forall|z: int| lo + b <= z < lo + 2 * b implies #[trigger] f(z) == -1 * g(z) by {
            let zz = z as usize;
            lemma_block_halves_clear(y, i, zz);
            lemma_superset_bit(zz, y, i);
            let s1 = parity_sign(zz, y);
            let s2 = parity_sign(zz, y | b);
            assert(s1 == -s2);
            let v = u[comp_spec(zz, m) as int].v as int;
            assert(s1 * v == -1 * (s2 * v)) by (nonlinear_arith)
                requires
                    s1 == -s2,
            ;
        }
        lemma_rsum_scale(f, g, -1, lo + b, lo + 2 * b);
    } else {
        lemma_block_halves_set(y, i, 0);
        let lo1 = lo_of(y, j) as int;
        let lo = lo_of(y, i) as int;
        lemma_rsum_split(f, lo1, lo, lo1 + 2 * b);
        assert forall|z: int| lo1 <= z < lo implies #[trigger] f(z) == 0 by {
            lemma_block_halves_set(y, i, z as usize);
            lemma_superset_bit(z as usize, y, i);
        }
        lemma_rsum_zero(f, lo1, lo);
    }
}

// ---------------------------------------------------------------------
// Zeta transforms
// ---------------------------------------------------------------------
/// Naive O(N^2) zeta transform composed with the complement permutation:
/// `u[a] = sum_{y >= comp(a)} lambda[y]`, over every entry of `lambda`.
pub fn zeta_naive(lambda: &[F], m: u32, p: u64) -> (u: Vec<F>)
    requires
        m < usize::BITS,
        p > 0,
        forall|i: int| 0 <= i < lambda@.len() ==> (#[trigger] lambda@[i]).p == p,
    ensures
        u@ == zeta_naive_spec(lambda@, m, p),
{
    let ghost lam = lambda@;
    let n = 1usize << m;
    proof {
        lemma_shift_amount(0, m);
        lemma_shl_pow2(m as usize);
    }
    let mut u: Vec<F> = Vec::new();
    let mut a: usize = 0;
    while a < n
        invariant
            n as nat == pow2(m as nat),
            m < usize::BITS,
            p > 0,
            lam == lambda@,
            forall|i: int| 0 <= i < lam.len() ==> (#[trigger] lam[i]).p == p,
            a <= n,
            u@.len() == a,
            forall|j: int| 0 <= j < a ==> #[trigger] u@[j] == zeta_naive_spec(lam, m, p)[j],
        decreases n - a,
    {
        let ab = comp(a, m);
        let mut s = F::zero(p);
        let mut y: usize = 0;
        proof {
            assert(zeta_sum(lam, ab, 0) == 0);
            assert(0int % (p as int) == 0);
        }
        while y < lambda.len()
            invariant
                p > 0,
                lam == lambda@,
                forall|i: int| 0 <= i < lam.len() ==> (#[trigger] lam[i]).p == p,
                y <= lam.len(),
                s.p == p,
                s.v == zeta_sum(lam, ab, y as int) % (p as int),
            decreases lam.len() - y,
        {
            let ly = lambda[y];
            proof {
                assert(zeta_sum(lam, ab, y + 1) == zeta_sum(lam, ab, y as int) + zeta_term(lam, ab)(
                    y as int));
                assert((y as int) as usize == y);
            }
            if (y & ab) == ab {
                proof {
                    lemma_mod_add_absorb(zeta_sum(lam, ab, y as int), ly.v as int, p as int);
                }
                s = s.add(ly);
            }
            y += 1;
        }
        proof {
            assert(zeta_naive_spec(lam, m, p)[a as int] == s);
        }
        u.push(s);
        a += 1;
    }
    proof {
        assert(u@ =~= zeta_naive_spec(lam, m, p));
    }
    u
}

/// The value held at index `x` after `i` butterfly levels: the block sum,
/// reduced modulo `p` unless no butterfly has touched `x` yet.
spec fn zeta_level(lam: Seq<F>, x: usize, i: usize, p: u64) -> int {
    if low_ones(x, i) {
        block_zeta(lam, x, i)
    } else {
        block_zeta(lam, x, i) % (p as int)
    }
}

proof fn lemma_zeta_level_congruent(lam: Seq<F>, x: usize, i: usize, p: u64)
    requires
        p > 0,
    ensures
        zeta_level(lam, x, i, p) % (p as int) == block_zeta(lam, x, i) % (p as int),
{
    lemma_mod_twice(block_zeta(lam, x, i), p as int);
}

/// Fast O(N log N) zeta transform composed with the complement permutation,
/// by the "sum over supersets" butterfly schedule. Only the `2^m` first
/// entries of `lambda` are read.
pub fn zeta_fast(lambda: &[F], m: u32, p: u64) -> (u: Vec<F>)
    requires
        m < usize::BITS,
        p > 0,
        lambda@.len() >= pow2(m as nat),
        forall|i: int| 0 <= i < pow2(m as nat) ==> (#[trigger] lambda@[i]).p == p,
    ensures
        u@ == zeta_fast_spec(lambda@, m, p),
{
    let ghost lam = lambda@;
    let ghost mu = m as usize;
    let n = 1usize << m;
    proof {
        lemma_shift_amount(0, m);
        lemma_shl_pow2(mu);
    }
    let mut f: Vec<F> = Vec::new();
    let mut c: usize = 0;
    while c < n
        invariant
            n as nat == pow2(m as nat),
            n == 1usize << mu,
            mu == m as usize,
            m < usize::BITS,
            p > 0,
            lam == lambda@,
            lam.len() >= n,
            forall|i: int| 0 <= i < n ==> (#[trigger] lam[i]).p == p,
            c <= n,
            f@.len() == c,
            forall|x: int| 0 <= x < c ==> (#[trigger] f@[x]).p == p,
            forall|x: int|
                0 <= x < c ==> (#[trigger] f@[x]).v == zeta_level(lam, x as usize, 0, p),
        decreases n - c,
    {
        proof {
            lemma_low_ones_step(c, 0);
            lemma_block_zeta_single(lam, c, 0, mu);
            assert((c as int) as usize == c);
        }
        f.push(lambda[c]);
        c += 1;
    }
    for i in 0..m
        invariant
            n as nat == pow2(m as nat),
            n == 1usize << mu,
            mu == m as usize,
            m < usize::BITS,
            p > 0,
            f@.len() == n,
            forall|x: int| 0 <= x < n ==> (#[trigger] f@[x]).p == p,
            forall|x: int|
                0 <= x < n ==> (#[trigger] f@[x]).v == zeta_level(lam, x as usize, i as usize, p),
    {
        let ghost iu = i as usize;
        let bit = 1usize << i;
        proof {
            lemma_shift_amount(0, i);
        }
        let ghost old = f@;
        let mut mask: usize = 0;
        while mask < n
            invariant
                n as nat == pow2(m as nat),
                n == 1usize << mu,
                mu == m as usize,
                m < usize::BITS,
                p > 0,
                i < m,
                iu == i as usize,
                bit == 1usize << iu,
                mask <= n,
                f@.len() == n,
                old.len() == n,
                forall|x: int| 0 <= x < n ==> (#[trigger] f@[x]).p == p,
                forall|x: int| 0 <= x < n ==> (#[trigger] old[x]).p == p,
                forall|x: int|
                    0 <= x < n ==> (#[trigger] old[x]).v == zeta_level(lam, x as usize, iu, p),
                forall|x: int|
                    0 <= x < mask ==> (#[trigger] f@[x]).v == zeta_level(
                        lam,
                        x as usize,
                        (iu + 1) as usize,
                        p,
                    ),
                forall|x: int| mask <= x < n ==> (#[trigger] f@[x]) == old[x],
            decreases n - mask,
        {
            proof {
                lemma_block_zeta_step(lam, mask, iu, mu);
                lemma_low_ones_step(mask, iu);
                assert((mask as int) as usize == mask);
            }
            if mask & bit == 0 {
                let hi_idx = mask | bit;
                proof {
                    lemma_set_bit_below(mask, iu, mu);
                    assert((hi_idx as int) as usize == hi_idx);
                    lemma_zeta_level_congruent(lam, mask, iu, p);
                    lemma_zeta_level_congruent(lam, hi_idx, iu, p);
                    lemma_mod_add_congruent(
                        old[mask as int].v as int,
                        old[hi_idx as int].v as int,
                        block_zeta(lam, mask, iu),
                        block_zeta(lam, hi_idx, iu),
                        p as int,
                    );
                }
                let hi = f[hi_idx];
                let cur = f[mask];
                f.set(mask, cur.add(hi));
            }
            mask += 1;
        }
    }
    proof {
        assert forall|x: int| 0 <= x < n implies #[trigger] block_zeta(lam, x as usize, mu) == zeta_sum(
            lam,
            x as usize,
            pow2(m as nat) as int,
        ) by {
            lemma_block_bounds(x as usize, mu, mu);
        }
    }
    let mut u: Vec<F> = Vec::new();
    let mut a: usize = 0;
    while a < n
        invariant
            n as nat == pow2(m as nat),
            n == 1usize << mu,
            mu == m as usize,
            m < usize::BITS,
            p > 0,
            lam == lambda@,
            lam.len() >= n,
            forall|i: int| 0 <= i < n ==> (#[trigger] lam[i]).p == p,
            f@.len() == n,
            forall|x: int| 0 <= x < n ==> (#[trigger] f@[x]).p == p,
            forall|x: int|
                0 <= x < n ==> (#[trigger] f@[x]).v == zeta_level(lam, x as usize, mu, p),
            forall|x: int|
                0 <= x < n ==> #[trigger] block_zeta(lam, x as usize, mu) == zeta_sum(
                    lam,
                    x as usize,
                    pow2(m as nat) as int,
                ),
            a <= n,
            u@.len() == a,
            forall|j: int| 0 <= j < a ==> #[trigger] u@[j] == zeta_fast_spec(lam, m, p)[j],
        decreases n - a,
    {
        let c = comp(a, m);
        proof {
            lemma_shl_pow2(mu);
            lemma_comp(a, mu);
            lemma_low_ones_top(c, mu);
            assert((c as int) as usize == c);
            assert((a as int) as usize == a);
            if a == 0 {
                lemma_block_zeta_single(lam, c, mu, mu);
            }
        }
        u.push(f[c]);
        a += 1;
    }
    proof {
        assert(u@ =~= zeta_fast_spec(lam, m, p));
    }
    u
}

// ---------------------------------------------------------------------
// Moebius inversions
// ---------------------------------------------------------------------
/// `((s mod p) - t) mod p == (s - t) mod p`.
pub proof fn lemma_mod_sub_absorb(s: int, t: int, p: int)
    requires
        p > 0,
    ensures
        ((s % p) - t) % p == (s - t) % p,
{
    lemma_sub_mod_noop(s % p, t, p);
    lemma_mod_twice(s, p);
    lemma_sub_mod_noop(s, t, p);
}

/// Naive O(N^2) Moebius inversion:
/// `lambda[y] = sum_{b >= y} (-1)^(wt(b) - wt(y)) u[comp(b)]`.
pub fn mobius_naive(u: &[F], m: u32, p: u64) -> (lambda: Vec<F>)
    requires
        m < usize::BITS,
        p > 0,
        u@.len() >= pow2(m as nat),
        forall|i: int| 0 <= i < pow2(m as nat) ==> (#[trigger] u@[i]).p == p && u@[i].v < p,
    ensures
        lambda@ == mobius_spec(u@, m, p),
{
    let ghost us = u@;
    let ghost mu = m as usize;
    let n = 1usize << m;
    proof {
        lemma_shift_amount(0, m);
        lemma_shl_pow2(mu);
    }
    let mut lambda: Vec<F> = Vec::new();
    let mut y: usize = 0;
    while y < n
        invariant
            n as nat == pow2(m as nat),
            n == 1usize << mu,
            mu == m as usize,
            m < usize::BITS,
            p > 0,
            us == u@,
            us.len() >= n,
            forall|i: int| 0 <= i < n ==> (#[trigger] us[i]).p == p && us[i].v < p,
            y <= n,
            lambda@.len() == y,
            forall|j: int| 0 <= j < y ==> #[trigger] lambda@[j] == mobius_spec(us, m, p)[j],
        decreases n - y,
    {
        let mut s = F::zero(p);
        let mut b: usize = 0;
        proof {
            assert(rsum(mobius_term(us, mu, y), 0, 0) == 0);
            assert(0int % (p as int) == 0);
        }
        while b < n
            invariant
                n as nat == pow2(m as nat),
                n == 1usize << mu,
                mu == m as usize,
                m < usize::BITS,
                p > 0,
                us == u@,
                us.len() >= n,
                forall|i: int| 0 <= i < n ==> (#[trigger] us[i]).p == p && us[i].v < p,
                y < n,
                b <= n,
                s.p == p,
                s.v < p,
                s.v == rsum(mobius_term(us, mu, y), 0, b as int) % (p as int),
            decreases n - b,
        {
            proof {
                assert(rsum(mobius_term(us, mu, y), 0, b + 1) == rsum(mobius_term(us, mu, y), 0, b as int)
                    + mobius_term(us, mu, y)(b as int));
                assert((b as int) as usize == b);
            }
            if (b & y) == y {
                let c = comp(b, m);
                proof {
                    lemma_shl_pow2(mu);
                    lemma_comp(b, mu);
                    lemma_popcount_superset(b, y);
                    assert((c as int) as usize == c);
                }
                let term = u[c];
                let wb = wt(b);
                let wy = wt(y);
                let ghost sum = rsum(mobius_term(us, mu, y), 0, b as int);
                if (wb - wy) % 2 == 0 {
                    proof {
                        assert(parity_sign(b, y) == 1);
                        lemma_mod_add_absorb(sum, term.v as int, p as int);
                        assert(mobius_term(us, mu, y)(b as int) == term.v as int);
                    }
                    s = s.add(term);
                } else {
                    proof {
                        assert(parity_sign(b, y) == -1);
                        lemma_sub_residue_reduced(s.v, term.v, p);
                        lemma_mod_sub_absorb(sum, term.v as int, p as int);
                        assert(mobius_term(us, mu, y)(b as int) == -(term.v as int));
                    }
                    s = s.sub(term);
                }
            } else {
                proof {
                    assert(mobius_term(us, mu, y)(b as int) == 0);
                }
            }
            b += 1;
        }
        proof {
            assert(mobius_spec(us, m, p)[y as int] == s);
        }
        lambda.push(s);
        y += 1;
    }
    proof {
        assert(lambda@ =~= mobius_spec(us, m, p));
    }
    lambda
}

/// Fast O(N log N) Moebius inversion by the inverse butterfly schedule.
pub fn mobius_fast(u: &[F], m: u32, p: u64) -> (h: Vec<F>)
    requires
        m < usize::BITS,
        p > 0,
        u@.len() >= pow2(m as nat),
        forall|i: int| 0 <= i < pow2(m as nat) ==> (#[trigger] u@[i]).p == p && u@[i].v < p,
    ensures
        h@ == mobius_spec(u@, m, p),
{
    let ghost us = u@;
    let ghost mu = m as usize;
    let n = 1usize << m;
    proof {
        lemma_shift_amount(0, m);
        lemma_shl_pow2(mu);
    }
    let mut h: Vec<F> = Vec::new();
    let mut c: usize = 0;
    while c < n
        invariant
            n as nat == pow2(m as nat),
            n == 1usize << mu,
            mu == m as usize,
            m < usize::BITS,
            p > 0,
            us == u@,
            us.len() >= n,
            forall|i: int| 0 <= i < n ==> (#[trigger] us[i]).p == p && us[i].v < p,
            c <= n,
            h@.len() == c,
            forall|x: int| 0 <= x < c ==> (#[trigger] h@[x]).p == p,
            forall|x: int|
                0 <= x < c ==> (#[trigger] h@[x]).v == block_mobius(us, mu, x as usize, 0) % (
                p as int),
        decreases n - c,
    {
        let cc = comp(c, m);
        proof {
            lemma_shl_pow2(mu);
            lemma_comp(c, mu);
            lemma_block_bounds(c, 0, mu);
            lemma_shl_pow2(0);
            assert((c as int) as usize == c);
            lemma_bit_identities(c, 0);
            assert(pow2(0) == 1) by {
                lemma2_to64();
            }
            assert(rsum(mobius_term(us, mu, c), c as int, c as int) == 0);
            assert(rsum(mobius_term(us, mu, c), c as int, c + 1) == mobius_term(us, mu, c)(c as int));
            lemma_small_mod(us[cc as int].v as nat, p as nat);
        }
        h.push(u[cc]);
        c += 1;
    }
    for i in 0..m
        invariant
            n as nat == pow2(m as nat),
            n == 1usize << mu,
            mu == m as usize,
            m < usize::BITS,
            p > 0,
            h@.len() == n,
            forall|x: int| 0 <= x < n ==> (#[trigger] h@[x]).p == p,
            forall|x: int|
                0 <= x < n ==> (#[trigger] h@[x]).v == block_mobius(us, mu, x as usize, i as usize)
                    % (p as int),
    {
        let ghost iu = i as usize;
        let bit = 1usize << i;
        proof {
            lemma_shift_amount(0, i);
        }
        let ghost old = h@;
        let mut mask: usize = 0;
        while mask < n
            invariant
                n as nat == pow2(m as nat),
                n == 1usize << mu,
                mu == m as usize,
                m < usize::BITS,
                p > 0,
                i < m,
                iu == i as usize,
                bit == 1usize << iu,
                mask <= n,
                h@.len() == n,
                old.len() == n,
                forall|x: int| 0 <= x < n ==> (#[trigger] h@[x]).p == p,
                forall|x: int| 0 <= x < n ==> (#[trigger] old[x]).p == p,
                forall|x: int|
                    0 <= x < n ==> (#[trigger] old[x]).v == block_mobius(us, mu, x as usize, iu) % (
                    p as int),
                forall|x: int|
                    0 <= x < mask ==> (#[trigger] h@[x]).v == block_mobius(
                        us,
                        mu,
                        x as usize,
                        (iu + 1) as usize,
                    ) % (p as int),
                forall|x: int| mask <= x < n ==> (#[trigger] h@[x]) == old[x],
            decreases n - mask,
        {
            proof {
                lemma_block_mobius_step(us, mask, iu, mu);
                assert((mask as int) as usize == mask);
            }
            if mask & bit == 0 {
                let hi_idx = mask | bit;
                proof {
                    lemma_set_bit_below(mask, iu, mu);
                    assert((hi_idx as int) as usize == hi_idx);
                    let a = block_mobius(us, mu, mask, iu);
                    let bb = block_mobius(us, mu, hi_idx, iu);
                    lemma_sub_residue_reduced(old[mask as int].v, old[hi_idx as int].v, p);
                    lemma_mod_sub_absorb(a, bb % (p as int), p as int);
                    lemma_sub_mod_noop(a, bb, p as int);
                    lemma_mod_twice(a, p as int);
                    lemma_mod_twice(bb, p as int);
                    lemma_sub_mod_noop(a % (p as int), bb % (p as int), p as int);
                }
                let hi = h[hi_idx];
                let cur = h[mask];
                h.set(mask, cur.sub(hi));
            }
            mask += 1;
        }
    }
    proof {
        assert forall|x: int| 0 <= x < n implies #[trigger] block_mobius(us, mu, x as usize, mu)
            == rsum(mobius_term(us, mu, x as usize), 0, pow2(m as nat) as int) by {
            lemma_block_bounds(x as usize, mu, mu);
        }
        assert(h@ =~= mobius_spec(us, m, p));
    }
    h
}

} // verus!
