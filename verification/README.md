# kernel_basis_bench

The Boolean kernel basis over a prime field GF(p), written in Verus.

A Boolean vector `y` in `{0,1}^m` is the integer `sum_i y_i 2^i`; the
complement of `a` within `m` bits is `(2^m - 1) ^ a`.

- `src/field.rs`: the field element `F` and its exact arithmetic.
- `src/bits.rs`: Hamming weight, complement, and the bit-level facts the
  proofs use (blocks of consecutive indices, population counts).
- `src/sums.rs`: finite sums over integer ranges and their algebra.
- `src/kernel.rs`: the kernel polynomials `K_y(X) = prod_i (X^{2^i} + y_i)`,
  their coefficient formula, and the degree of a coefficient vector.
- `src/transforms.rs`: the zeta transform composed with the complement
  permutation and its Moebius inversion, naive and butterfly.
- `src/character.rs`: the character condition of the low-degree filtration
  and the tables that satisfy it.
- `src/laws.rs`: the theorems tying these together (butterfly = naive,
  Moebius inverts zeta, both directions of the filtration theorem).
- `tests/`: executable tests; `app/main.rs`: a timing harness.
