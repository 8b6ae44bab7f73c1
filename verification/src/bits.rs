use vstd::arithmetic::power2::*;
use vstd::bits::*;
use vstd::prelude::*;

verus! {

/// The `i` low bits set: `2^i - 1`.
pub open spec fn mask(i: usize) -> usize {
    ((1usize << i) - 1) as usize
}

/// `x` with its `i` low bits cleared: the first index of the block of
/// `2^i` consecutive indices that share the bits of `x` from `i` upward.
pub open spec fn lo_of(x: usize, i: usize) -> usize {
    (x >> i) << i
}

/// The complement of `a` within `m` bits.
pub open spec fn comp_spec(a: usize, m: usize) -> usize {
    mask(m) ^ a
}

/// `y >= t` in the Boolean order: every bit of `t` is set in `y`.
pub open spec fn is_superset(y: usize, t: usize) -> bool {
    y & t == t
}

/// Bit `i` of `x` is set.
pub open spec fn has_bit(x: usize, i: usize) -> bool {
    x & (1usize << i) != 0
}

/// The `i` low bits of `x` are all set.
pub open spec fn low_ones(x: usize, i: usize) -> bool {
    x & mask(i) == mask(i)
}

/// Number of ones in the binary representation of `x`.
pub open spec fn popcount(x: nat) -> nat
    decreases x,
{
    if x == 0 {
        0
    } else {
        x % 2 + popcount(x / 2)
    }
}

/// `(-1)^(popcount(b) - popcount(y))`.
pub open spec fn parity_sign(b: usize, y: usize) -> int {
    if popcount(b as nat) % 2 == popcount(y as nat) % 2 {
        1
    } else {
        -1
    }
}

/// `u64::count_ones`: its documentation states that it returns the number
/// of ones in the binary representation of the value, which is what the
/// contract claims.
#[verifier::external_body]
fn count_ones_u64(x: u64) -> (r: u32)
    ensures
        r == popcount(x as nat),
{
    x.count_ones()
}

/// Hamming weight of `y` (every bit that is present is counted).
pub fn wt(y: usize) -> (r: u32)
    ensures
        r == popcount(y as nat),
{
    count_ones_u64(y as u64)
}

/// Boolean complement of `a` within `m` bits: `(2^m - 1) ^ a`.
pub fn comp(a: usize, m: u32) -> (r: usize)
    requires
        m < usize::BITS,
    ensures
        r == comp_spec(a, m as usize),
{
    let n = 1usize << m;
    proof {
        lemma_shift_amount(a, m);
        lemma_shl_pow2(m as usize);
    }
    (n - 1) ^ a
}

// ---------------------------------------------------------------------
// Powers of two and masks
// ---------------------------------------------------------------------
/// `1 << i` is `2^i` and `mask(i)` is `2^i - 1`.
pub proof fn lemma_shl_pow2(i: usize)
    requires
        i < usize::BITS,
    ensures
        (1usize << i) as nat == pow2(i as nat),
        mask(i) as nat + 1 == pow2(i as nat),
        mask(i) < (1usize << i),
        (1usize << i) >= 1,
{
    lemma_usize_pow2_no_overflow(i as nat);
    lemma_usize_shl_is_mul(1, i);
    lemma_pow2_pos(i as nat);
}

/// Shifts by a `u32` amount are the shifts by the same `usize` amount.
pub proof fn lemma_shift_amount(x: usize, s: u32)
    ensures
        (x << s) == (x << (s as usize)),
        (x >> s) == (x >> (s as usize)),
        (1usize << s) == (1usize << (s as usize)),
{
    assert((x << s) == (x << (s as usize)) && (x >> s) == (x >> (s as usize)) && (1usize << s) == (
    1usize << (s as usize))) by (bit_vector);
}

/// `x` is above itself, and complementing `0` within `m` bits gives all ones.
pub proof fn lemma_bit_identities(x: usize, m: usize)
    ensures
        x & x == x,
        mask(m) ^ 0usize == mask(m),
{
    assert(x & x == x && mask(m) ^ 0usize == mask(m)) by (bit_vector);
}

/// Setting a clear bit below `m` of an index below `2^m` gives a larger
/// index, still below `2^m`.
pub proof fn lemma_set_bit_below(x: usize, i: usize, m: usize)
    requires
        i < m,
        m < usize::BITS,
        x < (1usize << m),
        !has_bit(x, i),
    ensures
        (x | (1usize << i)) < (1usize << m),
        (x | (1usize << i)) > x,
{
    assert((x | (1usize << i)) < (1usize << m) && (x | (1usize << i)) > x) by (bit_vector)
        requires
            i < m,
            m < usize::BITS,
            x < (1usize << m),
            x & (1usize << i) == 0,
    ;
}

// ---------------------------------------------------------------------
// Blocks of consecutive indices
// ---------------------------------------------------------------------
/// The block of `x` at level `i` holds `x` and lies inside `0..2^m`; at
/// level 0 it is `{x}`, at level `m` it is all of `0..2^m`.
pub proof fn lemma_block_bounds(x: usize, i: usize, m: usize)
    requires
        i <= m,
        m < usize::BITS,
        (x as nat) < pow2(m as nat),
    ensures
        lo_of(x, i) <= x,
        x < lo_of(x, i) + pow2(i as nat),
        lo_of(x, i) + pow2(i as nat) <= pow2(m as nat),
        lo_of(x, 0) == x,
        lo_of(x, m) == 0,
{
    lemma_shl_pow2(i);
    lemma_shl_pow2(m);
    assert(lo_of(x, i) <= x && x < lo_of(x, i) + (1usize << i) && lo_of(x, i) + (1usize << i)
        <= (1usize << m) && lo_of(x, 0) == x && lo_of(x, m) == 0) by (bit_vector)
        requires
            i <= m,
            m < usize::BITS,
            x < (1usize << m),
    ;
}

/// Splitting the block at level `i + 1` of an `x` without bit `i`: the
/// lower half is the block of `x` at level `i`, the upper half the block of
/// `x | 2^i`; bit `i` is clear on the lower half and set on the upper one.
pub proof fn lemma_block_halves_clear(x: usize, i: usize, y: usize)
    requires
        i + 1 < usize::BITS,
        !has_bit(x, i),
    ensures
        lo_of(x, (i + 1) as usize) == lo_of(x, i),
        lo_of(x | (1usize << i), i) == lo_of(x, i) + (1usize << i),
        lo_of(x, i) <= y < lo_of(x, i) + (1usize << i) ==> !has_bit(y, i),
        lo_of(x, i) + (1usize << i) <= y < lo_of(x, i) + 2 * (1usize << i) ==> has_bit(y, i),
        (1usize << ((i + 1) as usize)) == 2 * (1usize << i),
{
    let j = (i + 1) as usize;
    assert(lo_of(x, j) == lo_of(x, i) && lo_of(x | (1usize << i), i) == lo_of(x, i) + (
    1usize << i) && (lo_of(x, i) <= y < lo_of(x, i) + (1usize << i) ==> !has_bit(y, i)) && (
    lo_of(x, i) + (1usize << i) <= y < lo_of(x, i) + 2 * (1usize << i) ==> has_bit(y, i)) && (
    1usize << j) == 2 * (1usize << i)) by (bit_vector)
        requires
            j == i + 1,
            j < usize::BITS,
            x & (1usize << i) == 0,
    ;
}

/// For an `x` with bit `i`, its block at level `i` is the upper half of
/// its block at level `i + 1`; bit `i` is clear on the lower half.
pub proof fn lemma_block_halves_set(x: usize, i: usize, y: usize)
    requires
        i + 1 < usize::BITS,
        has_bit(x, i),
    ensures
        lo_of(x, i) == lo_of(x, (i + 1) as usize) + (1usize << i),
        lo_of(x, (i + 1) as usize) <= y < lo_of(x, i) ==> !has_bit(y, i),
        (1usize << ((i + 1) as usize)) == 2 * (1usize << i),
{
    let j = (i + 1) as usize;
    assert(lo_of(x, i) == lo_of(x, j) + (1usize << i) && (lo_of(x, j) <= y < lo_of(x, i)
        ==> !has_bit(y, i)) && (1usize << j) == 2 * (1usize << i)) by (bit_vector)
        requires
            j == i + 1,
            j < usize::BITS,
            x & (1usize << i) != 0,
    ;
}

/// On indices with bit `i` set, being above `x` and being above `x | 2^i`
/// are the same; an index without bit `i` is never above an `x` with it.
pub proof fn lemma_superset_bit(y: usize, x: usize, i: usize)
    requires
        i < usize::BITS,
    ensures
        has_bit(y, i) ==> (is_superset(y, x) == is_superset(y, x | (1usize << i))),
        !has_bit(y, i) && has_bit(x, i) ==> !is_superset(y, x),
        !has_bit(x, i) ==> has_bit(x | (1usize << i), i) && (x | (1usize << i)) == x + (1usize
            << i),
{
    assert((y & (1usize << i) != 0 ==> ((y & x == x) == (y & (x | (1usize << i)) == (x | (1usize
        << i))))) && (y & (1usize << i) == 0 && x & (1usize << i) != 0 ==> y & x != x) && (x & (
    1usize << i) == 0 ==> (x | (1usize << i)) & (1usize << i) != 0 && (x | (1usize << i)) == x + (
    1usize << i))) by (bit_vector)
        requires
            i < usize::BITS,
    ;
}

/// Adding bit `i` to `b` does not change whether `b` is above a `y` that
/// lacks bit `i`.
pub proof fn lemma_superset_add_bit(b: usize, y: usize, i: usize)
    requires
        i < usize::BITS,
        !has_bit(y, i),
    ensures
        is_superset(b | (1usize << i), y) == is_superset(b, y),
{
    assert(y & (1usize << i) == 0 ==> (((b | (1usize << i)) & y == y) == (b & y == y)))
        by (bit_vector)
        requires
            i < usize::BITS,
    ;
}

/// The indices of the block of `y` at level `i` agree with `y` on bit `i`.
pub proof fn lemma_same_block_bit(y: usize, b: usize, i: usize)
    requires
        i + 1 < usize::BITS,
        lo_of(y, i) <= b < lo_of(y, i) + (1usize << i),
    ensures
        has_bit(b, i) == has_bit(y, i),
{
    assert(((y >> i) << i) <= b < ((y >> i) << i) + (1usize << i) ==> ((b & (1usize << i) != 0)
        == (y & (1usize << i) != 0))) by (bit_vector)
        requires
            i + 1 < usize::BITS,
    ;
}

/// How `low_ones` moves from level `i` to level `i + 1`.
pub proof fn lemma_low_ones_step(x: usize, i: usize)
    requires
        i + 1 < usize::BITS,
    ensures
        low_ones(x, 0),
        !has_bit(x, i) ==> !low_ones(x, (i + 1) as usize),
        has_bit(x, i) ==> (low_ones(x, (i + 1) as usize) == low_ones(x, i)),
{
    let j = (i + 1) as usize;
    assert(x & mask(0) == mask(0) && (x & (1usize << i) == 0 ==> x & mask(j) != mask(j)) && (x & (
    1usize << i) != 0 ==> ((x & mask(j) == mask(j)) == (x & mask(i) == mask(i))))) by (bit_vector)
        requires
            j == i + 1,
            j < usize::BITS,
    ;
}

/// Below `2^m`, all `m` low bits are set only at `2^m - 1`.
pub proof fn lemma_low_ones_top(x: usize, m: usize)
    requires
        m < usize::BITS,
        x <= mask(m),
    ensures
        low_ones(x, m) == (x == mask(m)),
{
    assert(x <= mask(m) ==> ((x & mask(m) == mask(m)) == (x == mask(m)))) by (bit_vector)
        requires
            m < usize::BITS,
    ;
}

/// The complement within `m` bits stays below `2^m`, is an involution, adds
/// up with its argument to `2^m - 1`, and maps `0` to `2^m - 1` and nothing
/// else there.
pub proof fn lemma_comp(a: usize, m: usize)
    requires
        m < usize::BITS,
        a <= mask(m),
    ensures
        comp_spec(a, m) <= mask(m),
        comp_spec(comp_spec(a, m), m) == a,
        (comp_spec(a, m) == mask(m)) == (a == 0),
        comp_spec(a, m) + a == mask(m),
{
    assert(a <= mask(m) ==> (mask(m) ^ a) <= mask(m) && (mask(m) ^ (mask(m) ^ a)) == a && (((
    mask(m) ^ a) == mask(m)) == (a == 0)) && (mask(m) ^ a) + a == mask(m)) by (bit_vector)
        requires
            m < usize::BITS,
    ;
}

// ---------------------------------------------------------------------
// Population count
// ---------------------------------------------------------------------
/// One step of the definition, also at zero.
pub proof fn lemma_popcount_step(x: nat)
    ensures
        popcount(x) == x % 2 + popcount(x / 2),
{
}

/// Setting a bit that was clear adds one to the population count.
pub proof fn lemma_popcount_set_bit(x: usize, i: usize)
    requires
        i < usize::BITS,
        !has_bit(x, i),
    ensures
        popcount((x | (1usize << i)) as nat) == popcount(x as nat) + 1,
    decreases i,
{
    let z = x | (1usize << i);
    lemma_popcount_step(z as nat);
    lemma_popcount_step(x as nat);
    if i == 0 {
        assert(x & (1usize << 0usize) == 0 ==> (x | (1usize << 0usize)) % 2 == 1 && x % 2 == 0
            && (x | (1usize << 0usize)) / 2 == x / 2) by (bit_vector);
    } else {
        let i1 = (i - 1) as usize;
        assert(z % 2 == x % 2 && z / 2 == ((x / 2) | (1usize << i1)) && (x / 2) & (1usize << i1)
            == 0) by (bit_vector)
            requires
                z == x | (1usize << i),
                i1 + 1 == i,
                i < usize::BITS,
                x & (1usize << i) == 0,
        ;
        lemma_popcount_set_bit(x / 2, i1);
    }
}

/// An index above `y` has at least as many ones as `y`.
pub proof fn lemma_popcount_superset(b: usize, y: usize)
    requires
        is_superset(b, y),
    ensures
        popcount(y as nat) <= popcount(b as nat),
    decreases b,
{
    lemma_popcount_step(b as nat);
    lemma_popcount_step(y as nat);
    assert(b & y == y ==> (b == 0 ==> y == 0) && y % 2 <= b % 2 && (b / 2) & (y / 2) == y / 2 && (
    b != 0 ==> b / 2 < b)) by (bit_vector);
    if b != 0 {
        lemma_popcount_superset(b / 2, y / 2);
    }
}

/// Below `2^q` there are at most `q` ones, and `2^q - 1` has exactly `q`.
pub proof fn lemma_popcount_bound(h: nat, q: nat)
    requires
        h < pow2(q),
    ensures
        popcount(h) <= q,
        popcount((pow2(q) - 1) as nat) == q,
    decreases q,
{
    lemma_pow2_pos(q);
    if q == 0 {
        assert(pow2(0) == 1) by {
            lemma2_to64();
        }
    } else {
        lemma_pow2_unfold(q);
        let q1 = (q - 1) as nat;
        lemma_popcount_step(h);
        lemma_popcount_step((pow2(q) - 1) as nat);
        lemma_popcount_bound(h / 2, q1);
        assert(((pow2(q) - 1) as nat) / 2 == (pow2(q1) - 1) as nat);
        assert(((pow2(q) - 1) as nat) % 2 == 1);
    }
}

/// Ones of `x | (h << k)` for `x < 2^k`: those of `x` plus those of `h`.
pub proof fn lemma_popcount_concat(x: usize, h: usize, k: usize)
    requires
        k < usize::BITS,
        x < (1usize << k),
        (h << k) >> k == h,
    ensures
        popcount((x | (h << k)) as nat) == popcount(x as nat) + popcount(h as nat),
    decreases k,
{
    let z = x | (h << k);
    if k == 0 {
        assert(x < (1usize << 0usize) ==> x == 0 && (x | (h << 0usize)) == h) by (bit_vector);
    } else {
        let k1 = (k - 1) as usize;
        lemma_popcount_step(z as nat);
        lemma_popcount_step(x as nat);
        assert(z % 2 == x % 2 && z / 2 == ((x / 2) | (h << k1)) && x / 2 < (1usize << k1) && (h
            << k1) >> k1 == h) by (bit_vector)
            requires
                z == x | (h << k),
                k1 + 1 == k,
                k < usize::BITS,
                x < (1usize << k),
                (h << k) >> k == h,
        ;
        lemma_popcount_concat(x / 2, h, k1);
    }
}

} // verus!
