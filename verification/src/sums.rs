use vstd::arithmetic::div_mod::*;
use vstd::arithmetic::mul::*;
use vstd::prelude::*;

verus! {

/// `f(lo) + f(lo + 1) + ... + f(hi - 1)`, zero on an empty range.
pub open spec fn rsum(f: spec_fn(int) -> int, lo: int, hi: int) -> int
    decreases hi - lo,
{
    if hi <= lo {
        0
    } else {
        rsum(f, lo, hi - 1) + f(hi - 1)
    }
}

/// A range sum splits at any point inside the range.
pub proof fn lemma_rsum_split(f: spec_fn(int) -> int, lo: int, mid: int, hi: int)
    requires
        lo <= mid <= hi,
    ensures
        rsum(f, lo, hi) == rsum(f, lo, mid) + rsum(f, mid, hi),
    decreases hi - mid,
{
    if hi > mid {
        lemma_rsum_split(f, lo, mid, hi - 1);
    }
}

/// Sums of functions that agree on the range are equal.
pub proof fn lemma_rsum_ext(f: spec_fn(int) -> int, g: spec_fn(int) -> int, lo: int, hi: int)
    requires
        forall|y: int| lo <= y < hi ==> #[trigger] f(y) == g(y),
    ensures
        rsum(f, lo, hi) == rsum(g, lo, hi),
    decreases hi - lo,
{
    if hi > lo {
        lemma_rsum_ext(f, g, lo, hi - 1);
    }
}

/// A sum of zeros is zero.
pub proof fn lemma_rsum_zero(f: spec_fn(int) -> int, lo: int, hi: int)
    requires
        forall|y: int| lo <= y < hi ==> #[trigger] f(y) == 0,
    ensures
        rsum(f, lo, hi) == 0,
    decreases hi - lo,
{
    if hi > lo {
        lemma_rsum_zero(f, lo, hi - 1);
    }
}

/// A constant factor comes out of the sum.
pub proof fn lemma_rsum_scale(f: spec_fn(int) -> int, g: spec_fn(int) -> int, c: int, lo: int, hi: int)
    requires
        forall|y: int| lo <= y < hi ==> #[trigger] f(y) == c * g(y),
    ensures
        rsum(f, lo, hi) == c * rsum(g, lo, hi),
    decreases hi - lo,
{
    if hi > lo {
        lemma_rsum_scale(f, g, c, lo, hi - 1);
        lemma_mul_is_distributive_add(c, rsum(g, lo, hi - 1), g(hi - 1));
    }
}

/// The sum of a pointwise sum is the sum of the sums.
pub proof fn lemma_rsum_add(f: spec_fn(int) -> int, g: spec_fn(int) -> int, h: spec_fn(int) -> int, lo: int, hi: int)
    requires
        forall|y: int| lo <= y < hi ==> #[trigger] f(y) == g(y) + h(y),
    ensures
        rsum(f, lo, hi) == rsum(g, lo, hi) + rsum(h, lo, hi),
    decreases hi - lo,
{
    if hi > lo {
        lemma_rsum_add(f, g, h, lo, hi - 1);
    }
}

/// Shifting the range by `d` and the argument by `-d` keeps the sum.
pub proof fn lemma_rsum_shift(f: spec_fn(int) -> int, g: spec_fn(int) -> int, lo: int, hi: int, d: int)
    requires
        forall|y: int| lo <= y < hi ==> #[trigger] g(y) == f(y + d),
    ensures
        rsum(g, lo, hi) == rsum(f, lo + d, hi + d),
    decreases hi - lo,
{
    if hi > lo {
        lemma_rsum_shift(f, g, lo, hi - 1, d);
    }
}

/// Sums of pointwise congruent terms are congruent.
pub proof fn lemma_rsum_mod(f: spec_fn(int) -> int, g: spec_fn(int) -> int, p: int, lo: int, hi: int)
    requires
        p > 0,
        forall|y: int| lo <= y < hi ==> #[trigger] f(y) % p == g(y) % p,
    ensures
        rsum(f, lo, hi) % p == rsum(g, lo, hi) % p,
    decreases hi - lo,
{
    if hi > lo {
        lemma_rsum_mod(f, g, p, lo, hi - 1);
        lemma_add_mod_noop(rsum(f, lo, hi - 1), f(hi - 1), p);
        lemma_add_mod_noop(rsum(g, lo, hi - 1), g(hi - 1), p);
    }
}

/// A range with a single nonzero term sums to that term.
pub proof fn lemma_rsum_single(f: spec_fn(int) -> int, lo: int, hi: int, k: int)
    requires
        lo <= k < hi,
        forall|y: int| lo <= y < hi && y != k ==> #[trigger] f(y) == 0,
    ensures
        rsum(f, lo, hi) == f(k),
{
    lemma_rsum_split(f, lo, k, hi);
    lemma_rsum_split(f, k, k + 1, hi);
    lemma_rsum_zero(f, lo, k);
    lemma_rsum_zero(f, k + 1, hi);
    assert(rsum(f, k, k + 1) == rsum(f, k, k) + f(k));
}

} // verus!
