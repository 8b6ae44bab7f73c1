use crate::bits::{
    comp, comp_spec, is_superset, lemma_low_ones_step, lemma_shift_amount, lemma_shl_pow2, low_ones,
    mask,
};
use crate::field::{F, f_add};
use vstd::arithmetic::div_mod::*;
use vstd::arithmetic::power2::*;
use vstd::prelude::*;

verus! {

/// The one of GF(p) as the contracts write it.
pub open spec fn one_spec(p: u64) -> F {
    F { v: (1int % (p as int)) as u64, p }
}

/// Proposition (complement-corrected coefficient formula):
/// `[K_y]_a = 1` exactly when `y >= comp(a)`, else `0`.
pub open spec fn kernel_coeff_spec(y: usize, a: usize, m: u32, p: u64) -> F {
    if is_superset(y, comp_spec(a, m as usize)) {
        one_spec(p)
    } else {
        F { v: 0, p }
    }
}

/// The coefficients after multiplying the first `i` factors
/// `(X^{2^0} + y_0) ... (X^{2^{i-1}} + y_{i-1})`: one at the `j < 2^i` whose
/// missing low bits are all bits of `y`, zero elsewhere.
spec fn partial_coeff(y: usize, j: usize, i: usize, p: u64) -> F {
    if j < (1usize << i) && low_ones(y | j, i) {
        one_spec(p)
    } else {
        F { v: 0, p }
    }
}

/// A vector of `n` zeros of GF(p).
pub(crate) fn zeros(n: usize, p: u64) -> (v: Vec<F>)
    ensures
        v@.len() == n,
        forall|i: int| 0 <= i < n ==> #[trigger] v@[i] == (F { v: 0, p }),
{
    let mut v: Vec<F> = Vec::new();
    let mut i: usize = 0;
    while i < n
        invariant
            i <= n,
            v@.len() == i,
            forall|j: int| 0 <= j < i ==> #[trigger] v@[j] == (F { v: 0, p }),
        decreases n - i,
    {
        v.push(F::zero(p));
        i += 1;
    }
    v
}

proof fn lemma_add_zero_01(c: F, p: u64)
    requires
        p > 0,
        c == one_spec(p) || c == (F { v: 0, p }),
    ensures
        f_add(F { v: 0, p }, c) == c,
{
    vstd::arithmetic::div_mod::lemma_mod_twice(1, p as int);
    vstd::arithmetic::div_mod::lemma_small_mod(0, p as nat);
}

/// Exact coefficient formula: `[K_y]_a` is `1` when `y >= comp(a)` and `0`
/// otherwise.
pub fn kernel_coeff_formula(y: usize, a: usize, m: u32, p: u64) -> (r: F)
    requires
        m < usize::BITS,
        is_superset(y, comp_spec(a, m as usize)) ==> p > 0,
    ensures
        r == kernel_coeff_spec(y, a, m, p),
{
    let ab = comp(a, m);
    if (y & ab) == ab {
        F::one(p)
    } else {
        F::zero(p)
    }
}

proof fn lemma_partial_step(y: usize, x: usize, i: usize)
    requires
        i + 1 < usize::BITS,
        x < (1usize << i),
    ensures
        low_ones(y | x, (i + 1) as usize) == (low_ones(y | x, i) && (y >> i) & 1 == 1),
        low_ones(y | (x + (1usize << i)) as usize, (i + 1) as usize) == low_ones(y | x, i),
        x + (1usize << i) < (1usize << ((i + 1) as usize)),
{
    let j = (i + 1) as usize;
    assert(((y | x) & mask(j) == mask(j)) == ((y | x) & mask(i) == mask(i) && (y >> i) & 1 == 1)
        && ((y | (x + (1usize << i)) as usize) & mask(j) == mask(j)) == ((y | x) & mask(i)
        == mask(i)) && x + (1usize << i) < (1usize << j)) by (bit_vector)
        requires
            j == i + 1,
            j < usize::BITS,
            x < (1usize << i),
    ;
}

/// All `m` low bits of `y | a` are set exactly when `y >= comp(a)`.
proof fn lemma_low_ones_complement(y: usize, a: usize, m: usize)
    requires
        m < usize::BITS,
        a < (1usize << m),
    ensures
        low_ones(y | a, m) == is_superset(y, comp_spec(a, m)),
{
    assert(a < (1usize << m) ==> (((y | a) & mask(m) == mask(m)) == (y & (mask(m) ^ a) == (mask(m)
        ^ a)))) by (bit_vector)
        requires
            m < usize::BITS,
    ;
}

/// Bit `i` of `y` as an integer.
pub open spec fn bit_of(y: usize, i: nat) -> int {
    ((y >> (i as usize)) & 1) as int
}

/// The coefficients of `c(X) (X^{2^i} + b)` over the integers, for a
/// coefficient vector `c` of length `2^i`.
pub open spec fn times_factor(c: Seq<int>, i: nat, b: int) -> Seq<int> {
    Seq::new(
        2 * pow2(i),
        |j: int|
            (if j < pow2(i) {
                b * c[j]
            } else {
                0
            }) + (if j >= pow2(i) {
                c[j - pow2(i)]
            } else {
                0
            }),
    )
}

/// The coefficient vector of `prod_{i < t} (X^{2^i} + y_i)` over the integers.
pub open spec fn kernel_product(y: usize, t: nat) -> Seq<int>
    decreases t,
{
    if t == 0 {
        seq![1int]
    } else {
        times_factor(kernel_product(y, (t - 1) as nat), (t - 1) as nat, bit_of(y, (t - 1) as nat))
    }
}

proof fn lemma_kernel_product_level(y: usize, t: usize)
    requires
        t < usize::BITS,
    ensures
        kernel_product(y, t as nat).len() == pow2(t as nat),
        forall|j: int|
            0 <= j < pow2(t as nat) ==> #[trigger] kernel_product(y, t as nat)[j] == (if low_ones(
                y | (j as usize),
                t,
            ) {
                1int
            } else {
                0int
            }),
    decreases t,
{
    lemma_shl_pow2(t);
    if t == 0 {
        assert(pow2(0) == 1) by {
            lemma2_to64();
        }
        assert forall|j: int| 0 <= j < pow2(0) implies #[trigger] kernel_product(y, 0)[j] == (
        if low_ones(y | (j as usize), 0) {
            1int
        } else {
            0int
        }) by {
            lemma_low_ones_step(y | (j as usize), 0);
        }
    } else {
        let t0 = (t - 1) as usize;
        lemma_kernel_product_level(y, t0);
        lemma_shl_pow2(t0);
        lemma_pow2_unfold(t as nat);
        let c = kernel_product(y, t0 as nat);
        let b = bit_of(y, t0 as nat);
        assert(b == 0 || b == 1) by {
            assert((y >> t0) & 1 == 0 || (y >> t0) & 1 == 1) by (bit_vector);
        }
        assert forall|j: int| 0 <= j < pow2(t as nat) implies #[trigger] kernel_product(
            y,
            t as nat,
        )[j] == (if low_ones(y | (j as usize), t) {
            1int
        } else {
            0int
        }) by {
            let h = pow2(t0 as nat) as int;
            if j < h {
                lemma_partial_step(y, j as usize, t0);
                assert(b * c[j] == (if low_ones(y | (j as usize), t0) && b == 1 {
                    1int
                } else {
                    0int
                })) by (nonlinear_arith)
                    requires
                        b == 0 || b == 1,
                        c[j] == (if low_ones(y | (j as usize), t0) {
                            1int
                        } else {
                            0int
                        }),
                ;
            } else {
                let j0 = j - h;
                lemma_partial_step(y, j0 as usize, t0);
                assert((j0 as usize) + (1usize << t0) == j as usize);
            }
        }
    }
}

/// Proposition 4.3 over the integers: the coefficients of the kernel
/// polynomial `K_y(X) = prod_{i < m} (X^{2^i} + y_i)` are `1` at the `a` with
/// `y >= comp(a)` and `0` elsewhere; the coefficients `kernel_poly_coeffs` and
/// `kernel_coeff_formula` return are these integers reduced modulo `p`.
pub proof fn law_kernel_coefficients(y: usize, m: u32, p: u64)
    requires
        m < usize::BITS,
        p > 0,
    ensures
        kernel_product(y, m as nat).len() == pow2(m as nat),
        forall|a: int|
            0 <= a < pow2(m as nat) ==> #[trigger] kernel_product(y, m as nat)[a] == (if is_superset(
                y,
                comp_spec(a as usize, m as usize),
            ) {
                1int
            } else {
                0int
            }),
        forall|a: int|
            0 <= a < pow2(m as nat) ==> (#[trigger] kernel_coeff_spec(y, a as usize, m, p)).v
                == kernel_product(y, m as nat)[a] % (p as int),
{
    let mu = m as usize;
    lemma_kernel_product_level(y, mu);
    lemma_shl_pow2(mu);
    assert forall|a: int| 0 <= a < pow2(m as nat) implies #[trigger] kernel_product(y, m as nat)[a]
        == (if is_superset(y, comp_spec(a as usize, mu)) {
        1int
    } else {
        0int
    }) by {
        lemma_low_ones_complement(y, a as usize, mu);
    }
    assert forall|a: int| 0 <= a < pow2(m as nat) implies (#[trigger] kernel_coeff_spec(
        y,
        a as usize,
        m,
        p,
    )).v == kernel_product(y, m as nat)[a] % (p as int) by {
        lemma_low_ones_complement(y, a as usize, mu);
        vstd::arithmetic::div_mod::lemma_small_mod(0, p as nat);
    }
}

/// Doubling a power of two below `2^m`.
proof fn lemma_doubling(i: usize, m: usize)
    requires
        i < m,
        m < usize::BITS,
    ensures
        (1usize << i) < (1usize << m),
        (1usize << i) * 2 <= (1usize << m),
        (1usize << i) * 2 == (1usize << ((i + 1) as usize)),
        (1usize << i) << 1usize == (1usize << ((i + 1) as usize)),
{
    let j = (i + 1) as usize;
    assert((1usize << i) < (1usize << m) && (1usize << i) * 2 <= (1usize << m) && (1usize << i) * 2
        == (1usize << j) && (1usize << i) << 1usize == (1usize << j)) by (bit_vector)
        requires
            j == i + 1,
            i < m,
            m < usize::BITS,
    ;
}

/// Coefficient vector (length `2^m`) of the kernel polynomial
/// `K_y(X) = prod_{i < m} (X^{2^i} + y_i)`, built factor by factor by the
/// recursive even/odd construction in O(N log N).
pub fn kernel_poly_coeffs(y: usize, m: u32, p: u64) -> (c: Vec<F>)
    requires
        m < usize::BITS,
        p > 0,
    ensures
        c@.len() == pow2(m as nat),
        forall|a: int|
            0 <= a < pow2(m as nat) ==> #[trigger] c@[a] == kernel_coeff_spec(y, a as usize, m, p),
{
    let ghost mu = m as usize;
    let n = 1usize << m;
    proof {
        lemma_shift_amount(y, m);
        lemma_shl_pow2(mu);
        lemma_mod_twice(1, p as int);
    }
    let mut c = zeros(n, p);
    c.set(0, F::one(p));
    let mut deg = 1usize;
    proof {
        lemma_shl_pow2(0);
        assert(pow2(0) == 1) by {
            lemma2_to64();
        }
        assert forall|x: int| 0 <= x < n implies #[trigger] c@[x] == partial_coeff(y, x as usize, 0, p) by {
            let xx = x as usize;
            lemma_low_ones_step(y | xx, 0);
            assert((x as int) as usize == x);
        }
    }
    for i in 0..m
        invariant
            n == 1usize << mu,
            n as nat == pow2(m as nat),
            mu == m as usize,
            m < usize::BITS,
            p > 0,
            (1int % (p as int)) % (p as int) == 1int % (p as int),
            deg == 1usize << (i as usize),
            c@.len() == n,
            forall|x: int| 0 <= x < n ==> #[trigger] c@[x] == partial_coeff(y, x as usize, i as usize, p),
    {
        let ghost iu = i as usize;
        let yi = (y >> i) & 1;
        let b = 1usize << i;
        proof {
            lemma_shift_amount(y, i);
            lemma_doubling(iu, mu);
        }
        let mut new_c = zeros(n, p);
        let mut j: usize = 0;
        while j < deg
            invariant
                n == 1usize << mu,
                mu == m as usize,
                m < usize::BITS,
                p > 0,
                (1int % (p as int)) % (p as int) == 1int % (p as int),
                iu < mu,
                deg == 1usize << iu,
                b == deg,
                deg * 2 <= n,
                yi == (y >> iu) & 1,
                j <= deg,
                c@.len() == n,
                new_c@.len() == n,
                forall|x: int| 0 <= x < n ==> #[trigger] c@[x] == partial_coeff(y, x as usize, iu, p),
                forall|x: int|
                    0 <= x < n ==> #[trigger] new_c@[x] == (if x < j {
                        if yi == 1 {
                            c@[x]
                        } else {
                            F { v: 0, p }
                        }
                    } else if b <= x < b + j {
                        c@[x - b]
                    } else {
                        F { v: 0, p }
                    }),
            decreases deg - j,
        {
            let cj = c[j];
            proof {
                assert((j as int) as usize == j);
                lemma_add_zero_01(cj, p);
            }
            if yi == 1 {
                let cur = new_c[j];
                new_c.set(j, cur.add(cj));
            }
            let cur = new_c[j + b];
            new_c.set(j + b, cur.add(cj));
            j += 1;
        }
        proof {
            assert forall|x: int| 0 <= x < n implies #[trigger] new_c@[x] == partial_coeff(
                y,
                x as usize,
                (iu + 1) as usize,
                p,
            ) by {
                let xx = x as usize;
                assert((x as int) as usize == xx);
                if x < b {
                    lemma_partial_step(y, xx, iu);
                } else if x < 2 * b {
                    let x0 = (x - b) as usize;
                    lemma_partial_step(y, x0, iu);
                    assert(((x0 as int) as usize) == x0);
                    assert(x0 + b == xx);
                    assert(!(xx < (1usize << iu)));
                }
            }
        }
        c = new_c;
        deg = deg << 1;
        proof {
            assert(deg == (1usize << iu) << 1usize);
        }
    }
    proof {
        assert forall|a: int| 0 <= a < pow2(m as nat) implies #[trigger] c@[a] == kernel_coeff_spec(
            y,
            a as usize,
            m,
            p,
        ) by {
            let aa = a as usize;
            assert((a as int) as usize == aa);
            lemma_low_ones_complement(y, aa, mu);
        }
    }
    c
}

/// Degree of a monomial-coefficient vector: the highest index with a nonzero
/// coefficient, or `None` for the zero polynomial.
pub fn degree(u: &[F]) -> (r: Option<usize>)
    ensures
        match r {
            None => forall|i: int| 0 <= i < u@.len() ==> (#[trigger] u@[i]).v == 0,
            Some(d) => d < u@.len() && u@[d as int].v != 0 && forall|i: int|
                d < i < u@.len() ==> (#[trigger] u@[i]).v == 0,
        },
{
    let mut i = u.len();
    while i > 0
        invariant
            i <= u@.len(),
            forall|j: int| i <= j < u@.len() ==> (#[trigger] u@[j]).v == 0,
        decreases i,
    {
        if !u[i - 1].is_zero() {
            return Some(i - 1);
        }
        i -= 1;
    }
    None
}

} // verus!
