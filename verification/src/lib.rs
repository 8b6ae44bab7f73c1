//! The Boolean kernel basis over a prime field GF(p): the kernel
//! polynomials K_y(X) = prod_i (X^{2^i} + y_i), the Boolean zeta transform
//! composed with the complement permutation and its Moebius inversion (naive
//! and butterfly forms), and the character condition that characterises the
//! low-degree filtration.
//!
//! A Boolean vector y in {0,1}^m is the integer sum_i y_i 2^i in 0..2^m;
//! the complement within m bits is `(2^m - 1) ^ a`.
pub mod bits;
pub mod character;
pub mod field;
pub mod kernel;
pub mod laws;
pub mod sums;
pub mod transforms;

pub use bits::{comp, wt};
pub use character::{character_table_from_mu, satisfies_character_condition};
pub use field::{F, GOLDILOCKS_P};
pub use kernel::{degree, kernel_coeff_formula, kernel_poly_coeffs};
pub use transforms::{mobius_fast, mobius_naive, zeta_fast, zeta_naive};
