use crate::bits::{
    comp_spec, lemma_bit_identities, has_bit, is_superset, lemma_block_bounds, lemma_block_halves_clear,
    lemma_block_halves_set, lemma_comp, lemma_low_ones_step, lemma_low_ones_top, low_ones,
    lemma_popcount_bound, lemma_popcount_concat, lemma_popcount_set_bit, lemma_same_block_bit, lemma_shl_pow2, lemma_superset_add_bit,
    lemma_superset_bit, lo_of, mask, parity_sign, popcount,
};
use crate::character::{
    char_condition_spec, char_holds, char_index, char_odd, char_signed, char_table_spec,
    lemma_char_index,
};
use crate::field::{F, f_neg, lemma_mod_of_negation};
use crate::sums::{
    lemma_rsum_add, lemma_rsum_ext, lemma_rsum_mod, lemma_rsum_scale, lemma_rsum_shift,
    lemma_rsum_split, lemma_rsum_zero, rsum,
};
use crate::character::{char_table_entry, lemma_index_parts};
use crate::transforms::{
    block_mobius, block_sum, block_zeta, lemma_block_mobius_step, lemma_block_sum_single,
    lemma_block_sum_step, lemma_block_zeta_single, lemma_block_zeta_step,
    mobius_spec, mobius_term, sup_term, zeta_fast_spec, zeta_naive_spec, zeta_sum, zeta_term,
};
use vstd::arithmetic::div_mod::*;
use vstd::arithmetic::power2::*;
use vstd::prelude::*;

verus! {

/// The butterfly zeta transform computes what the naive one computes, on
/// every vector of exactly `2^m` entries whose last entry is a reduced
/// element of GF(p) (that entry is the one the butterflies pass through).
pub proof fn law_zeta_fast_matches_naive(lam: Seq<F>, m: u32, p: u64)
    requires
        m < usize::BITS,
        p > 0,
        lam.len() == pow2(m as nat),
        lam[pow2(m as nat) - 1].p == p,
        lam[pow2(m as nat) - 1].v < p,
    ensures
        zeta_fast_spec(lam, m, p) == zeta_naive_spec(lam, m, p),
{
    let mu = m as usize;
    lemma_shl_pow2(mu);
    let top = mask(mu);
    lemma_comp(0, mu);
    lemma_block_bounds(top, mu, mu);
    lemma_low_ones_top(top, mu);
    lemma_block_zeta_single(lam, top, mu, mu);
    lemma_small_mod(lam[top as int].v as nat, p as nat);
    assert(zeta_fast_spec(lam, m, p) =~= zeta_naive_spec(lam, m, p));
}

/// The signed superset sum of the level-`i` block sums, over the block of
/// `y` at level `i`: the composition of the two transforms restricted to
/// the `i` low bits.
spec fn rt_term(lam: Seq<F>, y: usize, i: usize) -> spec_fn(int) -> int {
    |b: int|
        if is_superset(b as usize, y) {
            parity_sign(b as usize, y) * block_zeta(lam, b as usize, i)
        } else {
            0
        }
}

spec fn rt_block(lam: Seq<F>, y: usize, i: usize) -> int {
    rsum(rt_term(lam, y, i), lo_of(y, i) as int, lo_of(y, i) + pow2(i as nat))
}

/// Moebius inversion undoes the superset sums on every block, at every
/// level, over the integers.
proof fn lemma_round_trip_level(lam: Seq<F>, y: usize, i: usize, m: usize)
    requires
        i <= m,
        m < usize::BITS,
        (y as nat) < pow2(m as nat),
    ensures
        rt_block(lam, y, i) == lam[y as int].v,
    decreases i,
{
    lemma_block_bounds(y, i, m);
    lemma_shl_pow2(m);
    if i == 0 {
        assert(pow2(0) == 1) by {
            lemma2_to64();
        }
        let f = rt_term(lam, y, 0);
        assert(rsum(f, y as int, y as int) == 0);
        assert(rsum(f, y as int, y + 1) == f(y as int));
        lemma_bit_identities(y, 0);
        assert((y as int) as usize == y);
        lemma_low_ones_step(y, 0);
        lemma_block_zeta_single(lam, y, 0, m);
    } else {
        let i0 = (i - 1) as usize;
        lemma_round_trip_level(lam, y, i0, m);
        lemma_shl_pow2(i0);
        lemma_shl_pow2(i);
        let bb = 1usize << i0;
        let fj = rt_term(lam, y, i);
        let fi = rt_term(lam, y, i0);
        if !has_bit(y, i0) {
            lemma_block_halves_clear(y, i0, 0);
            let lo = lo_of(y, i0) as int;
            lemma_rsum_split(fj, lo, lo + bb, lo + 2 * bb);
            let g = |b: int| fj(b + bb);
            lemma_rsum_shift(fj, g, lo, lo + bb, bb as int);
            assert forall|b: int| lo <= b < lo + bb implies #[trigger] fi(b) == fj(b) + g(b) by {
                let bu = b as usize;
                assert((b as usize) as int == b);
                lemma_block_halves_clear(y, i0, bu);
                lemma_superset_bit(0, bu, i0);
                let bh = bu | bb;
                assert(((b + bb) as usize) == bh);
                lemma_superset_add_bit(bu, y, i0);
                lemma_popcount_set_bit(bu, i0);
                lemma_block_zeta_step(lam, bu, i0, m);
                lemma_block_zeta_step(lam, bh, i0, m);
                let s = parity_sign(bu, y);
                let w = block_zeta(lam, bu, i0);
                let w2 = block_zeta(lam, bh, i0);
                assert(parity_sign(bh, y) == -s);
                assert(s * w == s * (w + w2) + (-s) * w2) by (nonlinear_arith);
            }
            lemma_rsum_add(fi, fj, g, lo, lo + bb);
        } else {
            lemma_block_halves_set(y, i0, 0);
            let lo1 = lo_of(y, i) as int;
            let lo = lo_of(y, i0) as int;
            lemma_rsum_split(fj, lo1, lo, lo1 + 2 * bb);
            assert forall|b: int| lo1 <= b < lo implies #[trigger] fj(b) == 0 by {
                lemma_block_halves_set(y, i0, b as usize);
                lemma_superset_bit(b as usize, y, i0);
            }
            lemma_rsum_zero(fj, lo1, lo);
            assert forall|b: int| lo <= b < lo + bb implies #[trigger] fj(b) == fi(b) by {
                let bu = b as usize;
                lemma_same_block_bit(y, bu, i0);
                lemma_block_zeta_step(lam, bu, i0, m);
            }
            lemma_rsum_ext(fj, fi, lo, lo + bb);
        }
    }
}

/// Moebius inversion undoes the zeta transform: for every vector of `2^m`
/// reduced elements of GF(p), the butterfly zeta transform gives reduced
/// elements again, and inverting them gives the vector back.
pub proof fn law_mobius_inverts_zeta(lam: Seq<F>, m: u32, p: u64)
    requires
        m < usize::BITS,
        p > 0,
        lam.len() == pow2(m as nat),
        forall|i: int| 0 <= i < lam.len() ==> (#[trigger] lam[i]).p == p && lam[i].v < p,
    ensures
        forall|a: int|
            0 <= a < pow2(m as nat) ==> (#[trigger] zeta_fast_spec(lam, m, p)[a]).p == p
                && zeta_fast_spec(lam, m, p)[a].v < p,
        mobius_spec(zeta_fast_spec(lam, m, p), m, p) == lam,
{
    let mu = m as usize;
    let n = pow2(m as nat) as int;
    let z = zeta_fast_spec(lam, m, p);
    lemma_shl_pow2(mu);
    assert forall|a: int| 0 <= a < n implies (#[trigger] z[a]).p == p && z[a].v < p by {
        if a == 0 {
            assert(lam[n - 1].p == p);
        }
    }
    assert forall|y: int| 0 <= y < n implies #[trigger] mobius_spec(z, m, p)[y] == lam[y] by {
        let yu = y as usize;
        assert((yu as int) == y);
        lemma_round_trip_level(lam, yu, mu, mu);
        lemma_block_bounds(yu, mu, mu);
        let f = mobius_term(z, mu, yu);
        let g = rt_term(lam, yu, mu);
        assert forall|b: int| 0 <= b < n implies #[trigger] f(b) % (p as int) == g(b) % (
        p as int) by {
            let bu = b as usize;
            assert((bu as int) == b);
            lemma_comp(bu, mu);
            let c = comp_spec(bu, mu);
            lemma_block_bounds(bu, mu, mu);
            let w = block_zeta(lam, bu, mu);
            assert(w == zeta_sum(lam, bu, n));
            assert((c as int) as usize == c);
            lemma_bit_identities(0, mu);
            if c == 0 {
                assert(bu == mask(mu));
                lemma_low_ones_top(bu, mu);
                lemma_block_zeta_single(lam, bu, mu, mu);
                assert(z[c as int] == lam[n - 1]);
            } else {
                assert(z[c as int].v == (zeta_sum(lam, bu, n) % (p as int)) as u64);
                lemma_mod_twice(w, p as int);
            }
            assert((z[c as int].v as int) % (p as int) == w % (p as int));
            let s = parity_sign(bu, yu);
            lemma_mul_mod_noop_right(s, z[c as int].v as int, p as int);
            lemma_mul_mod_noop_right(s, w, p as int);
        }
        lemma_rsum_mod(f, g, p as int, 0, n);
        lemma_small_mod(lam[y].v as nat, p as nat);
    }
    assert(mobius_spec(z, m, p) =~= lam);
}

/// The signed block sums of `u` at level `i`, as a function of the index.
spec fn mob_val(u: Seq<F>, m: usize, i: usize) -> spec_fn(int) -> int {
    |y: int| block_mobius(u, m, y as usize, i)
}

/// The superset sums undo Moebius inversion on every block, at every level,
/// over the integers.
proof fn lemma_inverse_round_trip_level(u: Seq<F>, t: usize, i: usize, m: usize)
    requires
        i <= m,
        m < usize::BITS,
        (t as nat) < pow2(m as nat),
    ensures
        block_sum(mob_val(u, m, i), t, i) == u[comp_spec(t, m) as int].v,
    decreases i,
{
    lemma_block_bounds(t, i, m);
    lemma_shl_pow2(m);
    if i == 0 {
        assert(pow2(0) == 1) by {
            lemma2_to64();
        }
        let f = sup_term(mob_val(u, m, 0), t);
        assert(rsum(f, t as int, t as int) == 0);
        assert(rsum(f, t as int, t + 1) == f(t as int));
        let g = mobius_term(u, m, t);
        assert(rsum(g, t as int, t as int) == 0);
        assert(rsum(g, t as int, t + 1) == g(t as int));
        lemma_bit_identities(t, 0);
        assert((t as int) as usize == t);
    } else {
        let i0 = (i - 1) as usize;
        lemma_inverse_round_trip_level(u, t, i0, m);
        lemma_shl_pow2(i0);
        lemma_shl_pow2(i);
        let bb = 1usize << i0;
        let fj = sup_term(mob_val(u, m, i), t);
        let fi = sup_term(mob_val(u, m, i0), t);
        if !has_bit(t, i0) {
            lemma_block_halves_clear(t, i0, 0);
            let lo = lo_of(t, i0) as int;
            lemma_rsum_split(fj, lo, lo + bb, lo + 2 * bb);
            let g = |y: int| fj(y + bb);
            lemma_rsum_shift(fj, g, lo, lo + bb, bb as int);
            assert forall|y: int| lo <= y < lo + bb implies #[trigger] fi(y) == fj(y) + g(y) by {
                let yu = y as usize;
                assert((y as usize) as int == y);
                lemma_block_halves_clear(t, i0, yu);
                lemma_superset_bit(0, yu, i0);
                let yh = yu | bb;
                assert(((y + bb) as usize) == yh);
                lemma_superset_add_bit(yu, t, i0);
                lemma_block_mobius_step(u, yu, i0, m);
                lemma_block_mobius_step(u, yh, i0, m);
            }
            lemma_rsum_add(fi, fj, g, lo, lo + bb);
        } else {
            lemma_block_halves_set(t, i0, 0);
            let lo1 = lo_of(t, i) as int;
            let lo = lo_of(t, i0) as int;
            lemma_rsum_split(fj, lo1, lo, lo1 + 2 * bb);
            assert forall|y: int| lo1 <= y < lo implies #[trigger] fj(y) == 0 by {
                lemma_block_halves_set(t, i0, y as usize);
                lemma_superset_bit(y as usize, t, i0);
            }
            lemma_rsum_zero(fj, lo1, lo);
            assert forall|y: int| lo <= y < lo + bb implies #[trigger] fj(y) == fi(y) by {
                let yu = y as usize;
                lemma_same_block_bit(t, yu, i0);
                lemma_block_mobius_step(u, yu, i0, m);
            }
            lemma_rsum_ext(fj, fi, lo, lo + bb);
        }
    }
}

/// The zeta transform undoes Moebius inversion: for every vector of `2^m`
/// reduced elements of GF(p), transforming its Moebius inversion back gives
/// the vector again.
pub proof fn law_zeta_inverts_mobius(u: Seq<F>, m: u32, p: u64)
    requires
        m < usize::BITS,
        p > 0,
        u.len() == pow2(m as nat),
        forall|i: int| 0 <= i < u.len() ==> (#[trigger] u[i]).p == p && u[i].v < p,
    ensures
        zeta_fast_spec(mobius_spec(u, m, p), m, p) == u,
{
    let mu = m as usize;
    let n = pow2(m as nat) as int;
    let lam = mobius_spec(u, m, p);
    let mv = mob_val(u, mu, mu);
    lemma_shl_pow2(mu);
    assert forall|y: int| 0 <= y < n implies (#[trigger] lam[y]).v as int == mv(y) % (p as int) by {
        lemma_block_bounds(y as usize, mu, mu);
    }
    assert forall|a: int| 0 <= a < n implies #[trigger] zeta_fast_spec(lam, m, p)[a] == u[a] by {
        let au = a as usize;
        assert((au as int) == a);
        lemma_comp(au, mu);
        let t = comp_spec(au, mu);
        lemma_inverse_round_trip_level(u, t, mu, mu);
        lemma_block_bounds(t, mu, mu);
        lemma_small_mod(u[a].v as nat, p as nat);
        if a == 0 {
            lemma_bit_identities(0, mu);
            lemma_low_ones_top(t, mu);
            lemma_block_sum_single(mv, t, mu, mu);
            assert((t as int) == n - 1);
        } else {
            let f = zeta_term(lam, t);
            let g = sup_term(mv, t);
            assert forall|y: int| 0 <= y < n implies #[trigger] f(y) % (p as int) == g(y) % (
            p as int) by {
                lemma_mod_twice(mv(y), p as int);
            }
            lemma_rsum_mod(f, g, p as int, 0, n);
        }
    }
    assert(zeta_fast_spec(lam, m, p) =~= u);
}

/// `(-1)^(q - wt(h))` as an integer.
pub open spec fn char_sign(q: u32, h: usize) -> int {
    if char_odd(q, h) {
        -1
    } else {
        1
    }
}

/// Parity bookkeeping for the sign `(-1)^(a - x - h)` against
/// `(-1)^(q - h) (-1)^(a - x - q)`.
proof fn lemma_sign_parity(a: int, x: int, h: int, q: int)
    ensures
        (if a % 2 == (x + h) % 2 {
            1int
        } else {
            -1int
        }) == (if (q - h) % 2 == 1 {
            -1int
        } else {
            1int
        }) * (if a % 2 == (x + q) % 2 {
            1int
        } else {
            -1int
        }),
{
    let aa = a % 2;
    let b = (x + h) % 2;
    let c = (x + q) % 2;
    lemma_mod_bound(a, 2);
    lemma_mod_bound(x + h, 2);
    lemma_mod_bound(x + q, 2);
    lemma_sub_mod_noop(x + q, x + h, 2);
    assert((x + q) - (x + h) == q - h);
    let d = (q - h) % 2;
    assert(d == (c - b) % 2);
    let lhs: int = if aa == b {
        1
    } else {
        -1
    };
    let s: int = if d == 1 {
        -1
    } else {
        1
    };
    let r: int = if aa == c {
        1
    } else {
        -1
    };
    if c == b {
        assert((c - b) % 2 == 0);
        assert(d == 0);
        assert(lhs == s * r);
    } else if c == 1 {
        assert(b == 0);
        assert((c - b) % 2 == 1);
        assert(d == 1);
        assert(lhs == s * r);
    } else {
        assert(c == 0 && b == 1);
        assert((0int - 1) % 2 == 1);
        assert(d == 1);
        assert(lhs == s * r);
    }
}

/// Where an index lies relative to the top block `{b : b >> k == 2^q - 1}`:
/// below it the complement is at least `2^k`; inside it, being above
/// `(x, h)` and being above `(x, 1_q)` are the same.
proof fn lemma_top_block(b: usize, x: usize, h: usize, k: usize, q: usize, m: usize)
    requires
        k + q == m,
        m < usize::BITS,
        x < (1usize << k),
        h < (1usize << q),
        b < (1usize << m),
    ensures
        b < (mask(q) << k) ==> (mask(m) ^ b) >= (1usize << k),
        b >= (mask(q) << k) ==> (is_superset(b, x | (h << k)) == is_superset(
            b,
            x | (mask(q) << k),
        )),
        (mask(q) << k) <= (1usize << m),
        (mask(q) << k) >> k == mask(q),
        mask(q) < (1usize << q),
{
    assert((b < (mask(q) << k) ==> (mask(m) ^ b) >= (1usize << k)) && (b >= (mask(q) << k) ==> ((
    b & (x | (h << k)) == (x | (h << k))) == (b & (x | (mask(q) << k)) == (x | (mask(q) << k)))))
        && (mask(q) << k) <= (1usize << m) && (mask(q) << k) >> k == mask(q) && mask(q) < (1usize
        << q)) by (bit_vector)
        requires
            k + q == m,
            m < usize::BITS,
            x < (1usize << k),
            h < (1usize << q),
            b < (1usize << m),
    ;
}

/// Converse direction of Theorem 5.2: when the monomial coefficients `u`
/// vanish from `2^k` on, i.e. the polynomial has degree below `2^k`, its
/// kernel coefficients `mobius(u)` (reduced elements of GF(p)) satisfy the
/// character condition for `k`.
pub proof fn law_low_degree_gives_character(u: Seq<F>, m: u32, k: u32, p: u64)
    requires
        m < usize::BITS,
        k <= m,
        p > 0,
        u.len() >= pow2(m as nat),
        forall|a: int| pow2(k as nat) <= a < pow2(m as nat) ==> (#[trigger] u[a]).v == 0,
    ensures
        forall|i: int|
            0 <= i < pow2(m as nat) ==> (#[trigger] mobius_spec(u, m, p)[i]).p == p && mobius_spec(
                u,
                m,
                p,
            )[i].v < p,
        char_condition_spec(mobius_spec(u, m, p), m, k),
{
    let mu = m as usize;
    let ku = k as usize;
    let qu = (m - k) as usize;
    let q = (m - k) as u32;
    let n = pow2(m as nat) as int;
    let lam = mobius_spec(u, m, p);
    lemma_shl_pow2(mu);
    lemma_shl_pow2(ku);
    lemma_shl_pow2(qu);
    assert forall|x: usize, h: usize|
        x < (1usize << ku) && h < (1usize << qu) implies #[trigger] char_holds(lam, m, k, x, h) by {
        let y = x | (h << ku);
        let y1 = x | (mask(qu) << ku);
        lemma_top_block(0, x, h, ku, qu, mu);
        lemma_char_index(x, h, ku, qu, mu);
        lemma_char_index(x, mask(qu), ku, qu, mu);
        let top = (mask(qu) << ku) as int;
        let f = mobius_term(u, mu, y);
        let g = mobius_term(u, mu, y1);
        // Below the top block every complement reaches past 2^k.
        assert forall|b: int| 0 <= b < top implies #[trigger] f(b) == 0 by {
            let bu = b as usize;
            lemma_top_block(bu, x, h, ku, qu, mu);
            lemma_comp(bu, mu);
            assert(u[comp_spec(bu, mu) as int].v == 0);
        }
        assert forall|b: int| 0 <= b < top implies #[trigger] g(b) == 0 by {
            let bu = b as usize;
            lemma_top_block(bu, x, h, ku, qu, mu);
            lemma_comp(bu, mu);
            assert(u[comp_spec(bu, mu) as int].v == 0);
        }
        lemma_rsum_split(f, 0, top, n);
        lemma_rsum_split(g, 0, top, n);
        lemma_rsum_zero(f, 0, top);
        lemma_rsum_zero(g, 0, top);
        // Inside it the terms for (x, h) are those for (x, 1_q) times the sign.
        lemma_popcount_concat(x, h, ku);
        lemma_popcount_concat(x, mask(qu), ku);
        lemma_popcount_bound(0, qu as nat);
        let s = char_sign(q, h);
        assert forall|b: int| top <= b < n implies #[trigger] f(b) == s * g(b) by {
            let bu = b as usize;
            lemma_top_block(bu, x, h, ku, qu, mu);
            lemma_comp(bu, mu);
            let v = u[comp_spec(bu, mu) as int].v as int;
            let sy = parity_sign(bu, y);
            let sy1 = parity_sign(bu, y1);
            lemma_sign_parity(
                popcount(bu as nat) as int,
                popcount(x as nat) as int,
                popcount(h as nat) as int,
                qu as int,
            );
            assert(sy == s * sy1);
            assert(sy * v == s * (sy1 * v)) by (nonlinear_arith)
                requires
                    sy == s * sy1,
            ;
        }
        lemma_rsum_scale(f, g, s, top, n);
        let r = rsum(g, top, n);
        assert(char_index(x, h, k) == y as int);
        assert(char_index(x, mask(qu), k) == y1 as int);
        assert((y as int) as usize == y);
        assert((y1 as int) as usize == y1);
        assert(rsum(f, 0, n) == s * r);
        assert(rsum(g, 0, n) == r);
        assert(lam[y as int] == F { v: ((s * r) % (p as int)) as u64, p });
        assert(lam[y1 as int] == F { v: (r % (p as int)) as u64, p });
        if s == -1 {
            assert(s * r == -r) by (nonlinear_arith)
                requires
                    s == -1,
            ;
            lemma_mod_of_negation(r, p as int);
            lemma_small_mod((r % (p as int)) as nat, p as nat);
            assert(char_signed(lam[y1 as int], q, h) == f_neg(lam[y1 as int]));
            assert(lam[y as int] == f_neg(lam[y1 as int]));
        } else {
            assert(s == 1);
            assert(s * r == r) by (nonlinear_arith)
                requires
                    s == 1,
            ;
        }
        assert(lam[y as int] == char_signed(lam[y1 as int], q, h));
        assert(mask(q as usize) == mask(qu));
    }
}

/// The residues of `mu` as integers, zero past its end.
spec fn mu_int(mu: Seq<F>) -> spec_fn(int) -> int {
    |x: int|
        if x < mu.len() {
            mu[x].v as int
        } else {
            0
        }
}

/// The character table over the integers: `(-1)^(q - wt(h)) mu[x]` at the
/// index `(x, h)`.
spec fn table_int(mu: Seq<F>, k: usize, q: u32) -> spec_fn(int) -> int {
    |y: int| char_sign(q, (y as usize) >> k) * mu_int(mu)(((y as usize) & mask(k)) as int)
}

/// Bits of an index from position `k` on, seen as bits of its high part.
proof fn lemma_high_bit(t: usize, k: usize, j: usize, q: usize, m: usize)
    requires
        k + q == m,
        m < usize::BITS,
        j < q,
        t < (1usize << m),
    ensures
        has_bit(t, (k + j) as usize) == has_bit(t >> k, j),
        !has_bit(t, (k + j) as usize) ==> (t | (1usize << ((k + j) as usize))) >> k == ((t >> k) | (
        1usize << j)) && (t | (1usize << ((k + j) as usize))) & mask(k) == t & mask(k) && (t | (
        1usize << ((k + j) as usize))) < (1usize << m),
        low_ones((t >> k) | (1usize << j), j) == low_ones(t >> k, j),
{
    let i = (k + j) as usize;
    assert((t & (1usize << i) != 0) == ((t >> k) & (1usize << j) != 0) && (t & (1usize << i) == 0
        ==> (t | (1usize << i)) >> k == ((t >> k) | (1usize << j)) && (t | (1usize << i)) & mask(k)
        == t & mask(k) && (t | (1usize << i)) < (1usize << m)) && ((((t >> k) | (1usize << j))
        & mask(j) == mask(j)) == ((t >> k) & mask(j) == mask(j)))) by (bit_vector)
        requires
            i == k + j,
            k + q == m,
            m < usize::BITS,
            j < q,
            t < (1usize << m),
    ;
}

/// Being above `t = tx | (th << k)` inside the block of `t` at level `k`
/// only depends on the low parts.
proof fn lemma_low_superset(xu: usize, t: usize, k: usize, q: usize, m: usize)
    requires
        k + q == m,
        m < usize::BITS,
        xu < (1usize << k),
        t < (1usize << m),
    ensures
        is_superset(xu | ((t >> k) << k), t) == is_superset(xu, t & mask(k)),
{
    assert(is_superset(xu | ((t >> k) << k), t) == is_superset(xu, t & mask(k))) by (bit_vector)
        requires
            k + q == m,
            m < usize::BITS,
            xu < (1usize << k),
            t < (1usize << m),
    ;
}

/// The block sums of the integer character table: at level `k + j` they
/// vanish unless the `j` low bits of the high part are all set, and are then
/// the sign of the high part times the superset sum of `mu` over the low part.
proof fn lemma_forward_level(mu: Seq<F>, t: usize, k: usize, q: u32, j: usize, m: usize)
    requires
        k + q == m,
        m < usize::BITS,
        j <= q,
        t < (1usize << m),
    ensures
        block_sum(table_int(mu, k, q), t, (k + j) as usize) == (if low_ones(t >> k, j) {
            char_sign(q, t >> k) * rsum(sup_term(mu_int(mu), t & mask(k)), 0, pow2(k as nat) as int)
        } else {
            0
        }),
    decreases j,
{
    let qu = q as usize;
    let val = table_int(mu, k, q);
    let th = t >> k;
    let tx = t & mask(k);
    lemma_index_parts(t, k, qu, m);
    lemma_shl_pow2(k);
    lemma_shl_pow2(m);
    if j == 0 {
        lemma_low_ones_step(th, 0);
        let lo = lo_of(t, k) as int;
        let f = sup_term(val, t);
        let g = |xl: int| f(xl + lo);
        let kk = pow2(k as nat) as int;
        lemma_rsum_shift(f, g, 0, kk, lo);
        let s = char_sign(q, th);
        let h = sup_term(mu_int(mu), tx);
        assert forall|xl: int| 0 <= xl < kk implies #[trigger] g(xl) == s * h(xl) by {
            let xu = xl as usize;
            assert((xu as int) == xl);
            lemma_char_index(xu, th, k, qu, m);
            let yy = xu | (th << k);
            assert(((xl + lo) as usize) == yy);
            lemma_low_superset(xu, t, k, qu, m);
            assert(s * 0 == 0) by (nonlinear_arith);
        }
        lemma_rsum_scale(g, h, s, 0, kk);
    } else {
        let j0 = (j - 1) as usize;
        let i = (k + j0) as usize;
        lemma_forward_level(mu, t, k, q, j0, m);
        lemma_block_sum_step(val, t, i, m);
        lemma_high_bit(t, k, j0, qu, m);
        lemma_low_ones_step(th, j0);
        if !has_bit(t, i) {
            let t2 = t | (1usize << i);
            lemma_forward_level(mu, t2, k, q, j0, m);
            lemma_popcount_set_bit(th, j0);
            lemma_index_parts(t2, k, qu, m);
            let s = char_sign(q, th);
            let s2 = char_sign(q, t2 >> k);
            lemma_flip_parity(q as int, popcount(th as nat) as int);
            assert(s2 == -s);
            let gg = rsum(sup_term(mu_int(mu), tx), 0, pow2(k as nat) as int);
            assert(s * gg + s2 * gg == 0) by (nonlinear_arith)
                requires
                    s2 == -s,
            ;
        }
    }
}

/// Removing one from the count flips the parity of `q - c`.
proof fn lemma_flip_parity(q: int, c: int)
    ensures
        ((q - (c + 1)) % 2 == 1) == !((q - c) % 2 == 1),
{
    lemma_mod_bound(q - c, 2);
    lemma_mod_bound(q - c - 1, 2);
    lemma_sub_mod_noop(q - c, 1, 2);
    assert((0int - 1) % 2 == 1);
    assert((1int - 1) % 2 == 0);
}

/// Forward direction of Theorem 5.2: for every `mu : {0,1}^k -> GF(p)` of
/// reduced elements, the table `character_table_from_mu` builds is a vector
/// of reduced elements whose zeta transform vanishes from `2^k` on, i.e. the
/// polynomial has degree below `2^k`.
pub proof fn law_character_table_low_degree(mu: Seq<F>, m: u32, k: u32, p: u64)
    requires
        m < usize::BITS,
        k <= m,
        p > 0,
        mu.len() <= pow2(k as nat),
        forall|i: int| 0 <= i < mu.len() ==> (#[trigger] mu[i]).p == p && mu[i].v < p,
    ensures
        forall|y: int|
            0 <= y < pow2(m as nat) ==> (#[trigger] char_table_spec(mu, m, k, p)[y]).p == p
                && char_table_spec(mu, m, k, p)[y].v < p,
        forall|a: int|
            pow2(k as nat) <= a < pow2(m as nat) ==> (#[trigger] zeta_fast_spec(
                char_table_spec(mu, m, k, p),
                m,
                p,
            )[a]).v == 0,
{
    let mu_ = m as usize;
    let ku = k as usize;
    let qu = (m - k) as usize;
    let q = (m - k) as u32;
    let n = pow2(m as nat) as int;
    let lam = char_table_spec(mu, m, k, p);
    lemma_shl_pow2(mu_);
    lemma_shl_pow2(ku);
    lemma_shl_pow2(qu);
    let val = table_int(mu, ku, q);
    // Each entry is reduced and congruent to its signed integer value.
    assert forall|y: int| 0 <= y < n implies (#[trigger] lam[y]).p == p && lam[y].v < p && (
    lam[y].v as int) % (p as int) == val(y) % (p as int) by {
        let yy = y as usize;
        let x = yy & mask(ku);
        let h = yy >> ku;
        assert(lam[y] == char_table_entry(mu, x, h, q, p));
        let s = char_sign(q, h);
        if x < mu.len() {
            let v = mu[x as int].v as int;
            if char_odd(q, h) {
                lemma_mod_of_negation(v, p as int);
                lemma_small_mod(v as nat, p as nat);
                assert(s * v == -v) by (nonlinear_arith)
                    requires
                        s == -1,
                ;
                lemma_small_mod(lam[y].v as nat, p as nat);
            } else {
                assert(s * v == v) by (nonlinear_arith)
                    requires
                        s == 1,
                ;
            }
        } else {
            assert(s * 0 == 0) by (nonlinear_arith);
        }
    }
    assert forall|a: int| pow2(k as nat) <= a < n implies (#[trigger] zeta_fast_spec(lam, m, p)[
    a]).v == 0 by {
        let au = a as usize;
        assert((au as int) == a);
        let t = comp_spec(au, mu_);
        lemma_comp(au, mu_);
        lemma_index_parts(t, ku, qu, mu_);
        assert((1usize << ku) <= au && au < (1usize << mu_) ==> ((mask(mu_) ^ au) >> ku) != mask(qu))
            by (bit_vector)
            requires
                ku + qu == mu_,
                mu_ < usize::BITS,
        ;
        lemma_low_ones_top(t >> ku, qu);
        lemma_forward_level(mu, t, ku, q, qu, mu_);
        lemma_block_bounds(t, mu_, mu_);
        // The integer sum vanishes, hence so does the sum in GF(p).
        let f = zeta_term(lam, t);
        let g = sup_term(val, t);
        assert forall|y: int| 0 <= y < n implies #[trigger] f(y) % (p as int) == g(y) % (p as int) by {
            assert((lam[y].v as int) % (p as int) == val(y) % (p as int));
        }
        lemma_rsum_mod(f, g, p as int, 0, n);
        assert(rsum(g, 0, n) == 0);
        assert(zeta_sum(lam, t, n) % (p as int) == 0);
    }
}

// ---------------------------------------------------------------------
// What the character condition and the character tables are
// ---------------------------------------------------------------------
/// At one `(x, h)`, with both entries reduced elements of GF(p): the
/// character condition says that entry `(x, h)` is entry `(x, 1_q)` when
/// `q - wt(h)` is even and its negation modulo `p` when it is odd.
proof fn lemma_holds_iff_signs(lambda: Seq<F>, m: u32, k: u32, p: u64, x: usize, h: usize)
    requires
        k <= m,
        p > 0,
        lambda[(x | (h << (k as usize))) as int].p == p,
        lambda[(x | (h << (k as usize))) as int].v < p,
        lambda[(x | (mask((m - k) as usize) << (k as usize))) as int].p == p,
        lambda[(x | (mask((m - k) as usize) << (k as usize))) as int].v < p,
    ensures
        char_holds(lambda, m, k, x, h) == (if ((m - k) - popcount(h as nat)) % 2 == 0 {
            lambda[(x | (h << (k as usize))) as int].v == lambda[(x | (mask((m - k) as usize) << (
            k as usize))) as int].v
        } else {
            (lambda[(x | (h << (k as usize))) as int].v + lambda[(x | (mask((m - k) as usize) << (
            k as usize))) as int].v) % (p as int) == 0
        }),
{
    let a = lambda[(x | (h << (k as usize))) as int];
    let t = lambda[(x | (mask((m - k) as usize) << (k as usize))) as int];
    let q = (m - k) as u32;
    assert(mask(q as usize) == mask((m - k) as usize));
    lemma_mod_bound((m - k) - popcount(h as nat), 2);
    if char_odd(q, h) {
        if t.v == 0 {
            lemma_small_mod(a.v as nat, p as nat);
        } else {
            if a.v + t.v < p {
                lemma_small_mod((a.v + t.v) as nat, p as nat);
            } else {
                lemma_fundamental_div_mod_converse((a.v + t.v) as int, p as int, 1, a.v + t.v - p);
            }
        }
    }
}

/// What `satisfies_character_condition` decides, in terms of the entries: on
/// a table of reduced elements of GF(p), the character condition holds
/// exactly when every entry `(x, h)` equals `(-1)^(q - wt(h))` times the
/// entry `(x, 1_q)` of its row, positive signs included and whatever the
/// entry `(x, 1_q)` is.
pub proof fn law_character_condition_means_signs(lambda: Seq<F>, m: u32, k: u32, p: u64)
    requires
        m < usize::BITS,
        k <= m,
        p > 0,
        lambda.len() >= pow2(m as nat),
        forall|i: int| 0 <= i < pow2(m as nat) ==> (#[trigger] lambda[i]).p == p && lambda[i].v < p,
    ensures
        char_condition_spec(lambda, m, k) <==> (forall|x: usize, h: usize|
            x < (1usize << (k as usize)) && h < (1usize << ((m - k) as usize)) ==> (if ((m - k)
                - popcount(h as nat)) % 2 == 0 {
                #[trigger] lambda[(x | (h << (k as usize))) as int].v == lambda[(x | (mask(
                    (m - k) as usize,
                ) << (k as usize))) as int].v
            } else {
                (lambda[(x | (h << (k as usize))) as int].v + lambda[(x | (mask((m - k) as usize)
                    << (k as usize))) as int].v) % (p as int) == 0
            })),
{
    let mu = m as usize;
    let ku = k as usize;
    let qu = (m - k) as usize;
    lemma_shl_pow2(mu);
    if char_condition_spec(lambda, m, k) {
        assert forall|x: usize, h: usize|
            x < (1usize << ku) && h < (1usize << qu) implies (if ((m - k) - popcount(h as nat)) % 2
            == 0 {
            #[trigger] lambda[(x | (h << ku)) as int].v == lambda[(x | (mask(qu) << ku)) as int].v
        } else {
            (lambda[(x | (h << ku)) as int].v + lambda[(x | (mask(qu) << ku)) as int].v) % (
            p as int) == 0
        }) by {
            lemma_char_index(x, h, ku, qu, mu);
            lemma_char_index(x, mask(qu), ku, qu, mu);
            assert(char_holds(lambda, m, k, x, h));
            lemma_holds_iff_signs(lambda, m, k, p, x, h);
        }
    }
    if forall|x: usize, h: usize|
        x < (1usize << ku) && h < (1usize << qu) ==> (if ((m - k) - popcount(h as nat)) % 2 == 0 {
            #[trigger] lambda[(x | (h << ku)) as int].v == lambda[(x | (mask(qu) << ku)) as int].v
        } else {
            (lambda[(x | (h << ku)) as int].v + lambda[(x | (mask(qu) << ku)) as int].v) % (
            p as int) == 0
        }) {
        assert forall|x: usize, h: usize|
            x < (1usize << ku) && h < (1usize << qu) implies #[trigger] char_holds(
            lambda,
            m,
            k,
            x,
            h,
        ) by {
            lemma_char_index(x, h, ku, qu, mu);
            lemma_char_index(x, mask(qu), ku, qu, mu);
            assert(lambda[(x | (h << ku)) as int].v == lambda[(x | (h << ku)) as int].v);
            lemma_holds_iff_signs(lambda, m, k, p, x, h);
        }
    }
}

/// What `character_table_from_mu` builds, in terms of `mu`: row `x` of the
/// table has `mu[x]` itself at `h = 1_q` and `(-1)^(q - wt(h)) mu[x]` (in
/// GF(p)) at every `h`; rows past the end of `mu` are zero; and the table
/// satisfies the character condition.
pub proof fn law_character_table_rows(mu: Seq<F>, m: u32, k: u32, p: u64)
    requires
        m < usize::BITS,
        k <= m,
        p > 0,
        mu.len() <= pow2(k as nat),
        forall|i: int| 0 <= i < mu.len() ==> (#[trigger] mu[i]).p == p && mu[i].v < p,
    ensures
        char_table_spec(mu, m, k, p).len() == pow2(m as nat),
        forall|x: usize|
            x < mu.len() ==> #[trigger] char_table_spec(mu, m, k, p)[(x | (mask((m - k) as usize) << (
            k as usize))) as int] == mu[x as int],
        forall|x: usize, h: usize|
            x < mu.len() && h < (1usize << ((m - k) as usize)) ==> #[trigger] char_table_spec(
                mu,
                m,
                k,
                p,
            )[(x | (h << (k as usize))) as int].p == p && (if ((m - k) - popcount(h as nat)) % 2
                == 0 {
                char_table_spec(mu, m, k, p)[(x | (h << (k as usize))) as int].v == mu[x as int].v
            } else {
                (char_table_spec(mu, m, k, p)[(x | (h << (k as usize))) as int].v + mu[x as int].v)
                    % (p as int) == 0
            }),
        forall|x: usize, h: usize|
            mu.len() <= x < (1usize << (k as usize)) && h < (1usize << ((m - k) as usize))
                ==> #[trigger] char_table_spec(mu, m, k, p)[(x | (h << (k as usize))) as int] == (F {
                v: 0,
                p,
            }),
        char_condition_spec(char_table_spec(mu, m, k, p), m, k),
{
    let mu_ = m as usize;
    let ku = k as usize;
    let qu = (m - k) as usize;
    let q = (m - k) as u32;
    let t = char_table_spec(mu, m, k, p);
    lemma_shl_pow2(mu_);
    lemma_shl_pow2(ku);
    lemma_shl_pow2(qu);
    lemma_popcount_bound(0, qu as nat);
    assert forall|x: usize, h: usize|
        x < (1usize << ku) && h < (1usize << qu) implies #[trigger] t[(x | (h << ku)) as int].p == p
        && t[(x | (h << ku)) as int].v < p && (if ((m - k) - popcount(h as nat)) % 2 == 0 {
        t[(x | (h << ku)) as int].v == (if x < mu.len() {
            mu[x as int].v
        } else {
            0
        })
    } else {
        (t[(x | (h << ku)) as int].v + (if x < mu.len() {
            mu[x as int].v
        } else {
            0
        })) % (p as int) == 0
    }) && (x >= mu.len() ==> t[(x | (h << ku)) as int] == (F { v: 0, p })) by {
        lemma_char_index(x, h, ku, qu, mu_);
        let y = x | (h << ku);
        assert((y as int) as usize == y);
        assert(t[y as int] == char_table_entry(mu, x, h, q, p));
        lemma_mod_bound((m - k) - popcount(h as nat), 2);
        lemma_small_mod(0, p as nat);
        if x < mu.len() {
            if char_odd(q, h) && mu[x as int].v != 0 {
                lemma_mod_self_0(p as int);
            }
        }
    }
    assert forall|x: usize, h: usize|
        mu.len() <= x < (1usize << ku) && h < (1usize << qu) implies #[trigger] t[(x | (h << ku))
        as int] == (F { v: 0, p }) by {
        assert(t[(x | (h << ku)) as int].p == p);
    }
    assert forall|x: usize| x < mu.len() implies #[trigger] t[(x | (mask(qu) << ku)) as int] == mu[
    x as int] by {
        lemma_char_index(x, mask(qu), ku, qu, mu_);
        let y = x | (mask(qu) << ku);
        assert((y as int) as usize == y);
        assert(t[y as int] == char_table_entry(mu, x, mask(qu), q, p));
        assert(!char_odd(q, mask(qu)));
    }
    assert forall|i: int| 0 <= i < pow2(m as nat) implies (#[trigger] t[i]).p == p && t[i].v < p by {
        let yy = i as usize;
        lemma_index_parts(yy, ku, qu, mu_);
        let x = yy & mask(ku);
        let h = yy >> ku;
        assert(t[(x | (h << ku)) as int].p == p);
    }
    law_character_condition_means_signs(t, m, k, p);
    assert forall|x: usize, h: usize|
        x < (1usize << ku) && h < (1usize << qu) implies (if ((m - k) - popcount(h as nat)) % 2
        == 0 {
        #[trigger] t[(x | (h << ku)) as int].v == t[(x | (mask(qu) << ku)) as int].v
    } else {
        (t[(x | (h << ku)) as int].v + t[(x | (mask(qu) << ku)) as int].v) % (p as int) == 0
    }) by {
        lemma_char_index(x, mask(qu), ku, qu, mu_);
        assert(mask(qu) < (1usize << qu));
        assert(t[(x | (mask(qu) << ku)) as int].p == p);
        assert(t[(x | (h << ku)) as int].p == p);
    }
}

/// Theorem 5.2 as an equivalence: a table of `2^m` reduced elements of
/// GF(p) satisfies the character condition for `k` exactly when its zeta
/// transform (the monomial coefficients of its polynomial) vanishes from
/// `2^k` on, i.e. the polynomial has degree below `2^k`.
pub proof fn law_character_iff_low_degree(lambda: Seq<F>, m: u32, k: u32, p: u64)
    requires
        m < usize::BITS,
        k <= m,
        p > 0,
        lambda.len() == pow2(m as nat),
        forall|i: int| 0 <= i < lambda.len() ==> (#[trigger] lambda[i]).p == p && lambda[i].v < p,
    ensures
        char_condition_spec(lambda, m, k) <==> (forall|a: int|
            pow2(k as nat) <= a < pow2(m as nat) ==> (#[trigger] zeta_fast_spec(lambda, m, p)[a]).v
                == 0),
{
    let mu_ = m as usize;
    let ku = k as usize;
    let qu = (m - k) as usize;
    let q = (m - k) as u32;
    lemma_shl_pow2(mu_);
    lemma_shl_pow2(ku);
    lemma_shl_pow2(qu);
    let z = zeta_fast_spec(lambda, m, p);
    law_mobius_inverts_zeta(lambda, m, p);
    if forall|a: int| pow2(k as nat) <= a < pow2(m as nat) ==> (#[trigger] z[a]).v == 0 {
        law_low_degree_gives_character(z, m, k, p);
    }
    if char_condition_spec(lambda, m, k) {
        let mu = Seq::new(
            pow2(k as nat),
            |x: int| lambda[((x as usize) | (mask(qu) << ku)) as int],
        );
        assert forall|i: int| 0 <= i < mu.len() implies (#[trigger] mu[i]).p == p && mu[i].v < p by {
            lemma_char_index(i as usize, mask(qu), ku, qu, mu_);
        }
        let t = char_table_spec(mu, m, k, p);
        assert forall|y: int| 0 <= y < pow2(m as nat) implies #[trigger] t[y] == lambda[y] by {
            let yy = y as usize;
            lemma_index_parts(yy, ku, qu, mu_);
            let x = yy & mask(ku);
            let h = yy >> ku;
            assert((x as int) as usize == x);
            assert(char_holds(lambda, m, k, x, h));
            assert(mask(q as usize) == mask(qu));
            assert(t[y] == char_table_entry(mu, x, h, q, p));
        }
        assert(t =~= lambda);
        law_character_table_low_degree(mu, m, k, p);
    }
}

} // verus!
