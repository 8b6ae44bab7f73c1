use crate::bits::{lemma_popcount_bound, lemma_shift_amount, lemma_shl_pow2, mask, popcount, wt};
use crate::field::{F, f_neg};
use crate::kernel::zeros;
use vstd::arithmetic::power2::*;
use vstd::prelude::*;

verus! {

/// The sign `(-1)^(q - wt(h))` is `-1`.
pub open spec fn char_odd(q: u32, h: usize) -> bool {
    (q - popcount(h as nat)) % 2 == 1
}

/// `(-1)^(q - wt(h)) mu` in GF(p): `mu` itself or its negation.
pub open spec fn char_signed(mu: F, q: u32, h: usize) -> F {
    if char_odd(q, h) {
        f_neg(mu)
    } else {
        mu
    }
}

/// Entry `(x, h)` of the table built from `mu`: `(-1)^(q - wt(h)) mu[x]` for
/// the `x` that `mu` covers, zero for the others.
pub open spec fn char_table_entry(mu: Seq<F>, x: usize, h: usize, q: u32, p: u64) -> F {
    if x < mu.len() {
        char_signed(mu[x as int], q, h)
    } else {
        F { v: 0, p }
    }
}

/// The table `lambda` of length `2^m` whose index `y` splits into the low
/// `k` bits `x` and the high `q = m - k` bits `h`.
pub open spec fn char_table_spec(mu: Seq<F>, m: u32, k: u32, p: u64) -> Seq<F> {
    Seq::new(
        pow2(m as nat),
        |y: int|
            char_table_entry(
                mu,
                (y as usize) & mask(k as usize),
                (y as usize) >> (k as usize),
                (m - k) as u32,
                p,
            ),
    )
}

/// The index of `(x, h)`: `x | (h << k)`.
pub open spec fn char_index(x: usize, h: usize, k: u32) -> int {
    (x | (h << (k as usize))) as int
}

/// The character condition at `(x, h)`:
/// `lambda[(x, h)] == (-1)^(q - wt(h)) lambda[(x, 1_q)]`.
pub open spec fn char_holds(lambda: Seq<F>, m: u32, k: u32, x: usize, h: usize) -> bool {
    let q = (m - k) as u32;
    lambda[char_index(x, h, k)] == char_signed(lambda[char_index(x, mask(q as usize), k)], q, h)
}

/// Theorem 5.2's character condition for this `k`: it holds at every
/// `x < 2^k` and `h < 2^(m-k)`.
pub open spec fn char_condition_spec(lambda: Seq<F>, m: u32, k: u32) -> bool {
    forall|x: usize, h: usize|
        x < (1usize << (k as usize)) && h < (1usize << ((m - k) as usize)) ==> #[trigger] char_holds(
            lambda,
            m,
            k,
            x,
            h,
        )
}

/// Composing an index from its low part `x` and high part `h`.
pub proof fn lemma_char_index(x: usize, h: usize, k: usize, q: usize, m: usize)
    requires
        k + q == m,
        m < usize::BITS,
        x < (1usize << k),
        h < (1usize << q),
    ensures
        (x | (h << k)) < (1usize << m),
        (x | (h << k)) & mask(k) == x,
        (x | (h << k)) >> k == h,
        (h << k) >> k == h,
        (x | (h << k)) == x + (h << k),
        mask(q) < (1usize << q),
{
    assert((x | (h << k)) < (1usize << m) && (x | (h << k)) & mask(k) == x && (x | (h << k)) >> k
        == h && (h << k) >> k == h && (x | (h << k)) == x + (h << k) && mask(q) < (1usize << q))
        by (bit_vector)
        requires
            k + q == m,
            m < usize::BITS,
            x < (1usize << k),
            h < (1usize << q),
    ;
}

/// Splitting an index below `2^m` into its low and high parts.
pub proof fn lemma_index_parts(y: usize, k: usize, q: usize, m: usize)
    requires
        k + q == m,
        m < usize::BITS,
        y < (1usize << m),
    ensures
        y & mask(k) < (1usize << k),
        y >> k < (1usize << q),
        y == ((y & mask(k)) | ((y >> k) << k)),
{
    assert(y & mask(k) < (1usize << k) && y >> k < (1usize << q) && y == ((y & mask(k)) | ((y
        >> k) << k))) by (bit_vector)
        requires
            k + q == m,
            m < usize::BITS,
            y < (1usize << m),
    ;
}

/// Theorem 5.2 check: does `lambda` (the full table of `2^m` kernel
/// coefficients, low `k` bits = x, high `m - k` bits = h) satisfy the
/// character condition for this `k`?
pub fn satisfies_character_condition(lambda: &[F], m: u32, k: u32, p: u64) -> (r: bool)
    requires
        k <= m,
        m < usize::BITS,
        lambda@.len() >= pow2(m as nat),
        m > k ==> forall|x: usize|
            x < (1usize << (k as usize)) ==> #[trigger] lambda@[char_index(
                x,
                mask((m - k) as usize),
                k,
            )].v <= lambda@[char_index(x, mask((m - k) as usize), k)].p,
    ensures
        r == char_condition_spec(lambda@, m, k),
{
    let _ = p;
    let ghost lam = lambda@;
    let ghost ku = k as usize;
    let ghost mu = m as usize;
    let q = m - k;
    let ghost qu = q as usize;
    let low_n = 1usize << k;
    let high_n = 1usize << q;
    proof {
        lemma_shift_amount(0, k);
        lemma_shift_amount(0, q);
        lemma_shift_amount(0, m);
        lemma_shl_pow2(mu);
        lemma_shl_pow2(qu);
    }
    let mut x: usize = 0;
    while x < low_n
        invariant
            lam == lambda@,
            k <= m,
            m < usize::BITS,
            ku == k as usize,
            qu == q as usize,
            mu == m as usize,
            q == m - k,
            low_n == 1usize << ku,
            high_n == 1usize << qu,
            high_n as nat == pow2(qu as nat),
            high_n >= 1,
            lam.len() >= pow2(m as nat),
            pow2(m as nat) == (1usize << mu) as nat,
            m > k ==> forall|x: usize|
                x < (1usize << (k as usize)) ==> #[trigger] lam[char_index(
                    x,
                    mask((m - k) as usize),
                    k,
                )].v <= lam[char_index(x, mask((m - k) as usize), k)].p,
            x <= low_n,
            forall|x0: usize, h0: usize|
                x0 < x && h0 < high_n ==> #[trigger] char_holds(lam, m, k, x0, h0),
        decreases low_n - x,
    {
        proof {
            lemma_char_index(x, (high_n - 1) as usize, ku, qu, mu);
            assert(high_n - 1 == mask(qu));
            assert(mask((m - k) as usize) == mask(qu));
            if m > k {
                assert(lam[char_index(x, mask((m - k) as usize), k)].v <= lam[char_index(
                    x,
                    mask((m - k) as usize),
                    k,
                )].p);
            }
        }
        let top = high_n - 1;
        proof {
            lemma_shift_amount(top, k);
        }
        let mu_x = lambda[x | (top << k)];
        let mut h: usize = 0;
        while h < high_n
            invariant
                lam == lambda@,
                k <= m,
                m < usize::BITS,
                ku == k as usize,
                qu == q as usize,
                mu == m as usize,
                q == m - k,
                low_n == 1usize << ku,
                high_n == 1usize << qu,
                high_n as nat == pow2(qu as nat),
                lam.len() >= pow2(m as nat),
                pow2(m as nat) == (1usize << mu) as nat,
                x < low_n,
                h <= high_n,
                mu_x == lam[char_index(x, mask(qu), k)],
                m > k ==> mu_x.v <= mu_x.p,
                forall|x0: usize, h0: usize|
                    x0 < x && h0 < high_n ==> #[trigger] char_holds(lam, m, k, x0, h0),
                forall|h0: usize| h0 < h ==> #[trigger] char_holds(lam, m, k, x, h0),
            decreases high_n - h,
        {
            proof {
                lemma_char_index(x, h, ku, qu, mu);
                lemma_popcount_bound(h as nat, qu as nat);
                lemma_shift_amount(h, k);
                if qu == 0 {
                    lemma_shl_pow2(0);
                    assert(pow2(0) == 1) by {
                        lemma2_to64();
                    }
                    assert(popcount(0) == 0);
                }
            }
            let y = x | (h << k);
            let expected = if (q - wt(h)) % 2 == 1 {
                mu_x.neg()
            } else {
                mu_x
            };
            if lambda[y] != expected {
                proof {
                    assert(!char_holds(lam, m, k, x, h));
                }
                return false;
            }
            h += 1;
        }
        x += 1;
    }
    true
}

/// Build the kernel-coefficient table satisfying the character condition for
/// the given `mu : {0,1}^k -> F` (the forward direction of Theorem 5.2):
/// `lambda[(x, h)] = (-1)^(q - wt(h)) mu[x]`, zero where `mu` has no entry.
pub fn character_table_from_mu(mu: &[F], m: u32, k: u32, p: u64) -> (lambda: Vec<F>)
    requires
        k <= m,
        m < usize::BITS,
        mu@.len() <= pow2(k as nat),
        m > k ==> forall|i: int| 0 <= i < mu@.len() ==> (#[trigger] mu@[i]).v <= mu@[i].p,
    ensures
        lambda@ == char_table_spec(mu@, m, k, p),
{
    let ghost ms = mu@;
    let ghost ku = k as usize;
    let ghost mu_ = m as usize;
    let q = m - k;
    let ghost qu = q as usize;
    let n = 1usize << m;
    let high_n = 1usize << q;
    proof {
        lemma_shift_amount(0, q);
        lemma_shift_amount(0, m);
        lemma_shl_pow2(mu_);
        lemma_shl_pow2(qu);
        lemma_shl_pow2(ku);
    }
    let mut lambda = zeros(n, p);
    let mut x: usize = 0;
    while x < mu.len()
        invariant
            ms == mu@,
            k <= m,
            m < usize::BITS,
            ku == k as usize,
            qu == q as usize,
            mu_ == m as usize,
            q == m - k,
            n == 1usize << mu_,
            n as nat == pow2(m as nat),
            high_n == 1usize << qu,
            high_n as nat == pow2(qu as nat),
            ms.len() <= pow2(k as nat),
            pow2(k as nat) == (1usize << ku) as nat,
            m > k ==> forall|i: int| 0 <= i < ms.len() ==> (#[trigger] ms[i]).v <= ms[i].p,
            x <= ms.len(),
            lambda@.len() == n,
            forall|y: int|
                0 <= y < n ==> #[trigger] lambda@[y] == (if ((y as usize) & mask(ku)) < x {
                    char_table_entry(ms, (y as usize) & mask(ku), (y as usize) >> ku, q, p)
                } else {
                    F { v: 0, p }
                }),
        decreases ms.len() - x,
    {
        let mux = mu[x];
        let mut h: usize = 0;
        while h < high_n
            invariant
                ms == mu@,
                k <= m,
                m < usize::BITS,
                ku == k as usize,
                qu == q as usize,
                mu_ == m as usize,
                q == m - k,
                n == 1usize << mu_,
                n as nat == pow2(m as nat),
                high_n == 1usize << qu,
                high_n as nat == pow2(qu as nat),
                ms.len() <= pow2(k as nat),
                pow2(k as nat) == (1usize << ku) as nat,
                m > k ==> mux.v <= mux.p,
                x < ms.len(),
                mux == ms[x as int],
                h <= high_n,
                lambda@.len() == n,
                forall|y: int|
                    0 <= y < n ==> #[trigger] lambda@[y] == (if ((y as usize) & mask(ku)) < x || (((
                    y as usize) & mask(ku)) == x && ((y as usize) >> ku) < h) {
                        char_table_entry(ms, (y as usize) & mask(ku), (y as usize) >> ku, q, p)
                    } else {
                        F { v: 0, p }
                    }),
            decreases high_n - h,
        {
            proof {
                lemma_char_index(x, h, ku, qu, mu_);
                lemma_popcount_bound(h as nat, qu as nat);
                lemma_shift_amount(h, k);
                if qu == 0 {
                    lemma_shl_pow2(0);
                    assert(pow2(0) == 1) by {
                        lemma2_to64();
                    }
                    assert(popcount(0) == 0);
                }
            }
            let y = x | (h << k);
            let val = if (q - wt(h)) % 2 == 1 {
                mux.neg()
            } else {
                mux
            };
            proof {
                assert forall|z: int| 0 <= z < n && z != y implies (#[trigger] ((z as usize) & mask(ku)) != x
                    || (z as usize) >> ku != h) by {
                    lemma_index_parts(z as usize, ku, qu, mu_);
                    assert((z as int) as usize == z);
                }
                assert((y as int) as usize == y);
            }
            lambda.set(y, val);
            h += 1;
        }
        proof {
            assert forall|y: int| 0 <= y < n implies (#[trigger] ((y as usize) >> ku)) < high_n by {
                lemma_index_parts(y as usize, ku, qu, mu_);
            }
        }
        x += 1;
    }
    proof {
        assert forall|y: int| 0 <= y < n implies #[trigger] lambda@[y] == char_table_spec(
            ms,
            m,
            k,
            p,
        )[y] by {
            lemma_index_parts(y as usize, ku, qu, mu_);
        }
        assert(lambda@ =~= char_table_spec(ms, m, k, p));
    }
    lambda
}

} // verus!
