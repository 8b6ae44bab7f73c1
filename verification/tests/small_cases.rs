use kernel_basis_bench::{
    character_table_from_mu, degree, kernel_coeff_formula, kernel_poly_coeffs, mobius_fast,
    mobius_naive, satisfies_character_condition, zeta_fast, zeta_naive, F,
};

fn fv(vals: &[u64], p: u64) -> Vec<F> {
    vals.iter().map(|&v| F { v, p }).collect()
}

#[test]
fn kernel_polynomials_of_two_variables() {
    // (X + 1)(X^2 + 1), (X + 1) X^2, X (X^2 + 1), X * X^2
    assert_eq!(kernel_poly_coeffs(0b11, 2, 7), fv(&[1, 1, 1, 1], 7));
    assert_eq!(kernel_poly_coeffs(0b01, 2, 7), fv(&[0, 0, 1, 1], 7));
    assert_eq!(kernel_poly_coeffs(0b10, 2, 7), fv(&[0, 1, 0, 1], 7));
    assert_eq!(kernel_poly_coeffs(0b00, 2, 7), fv(&[0, 0, 0, 1], 7));
    assert_eq!(kernel_poly_coeffs(0, 0, 7), fv(&[1], 7));
    assert_eq!(kernel_poly_coeffs(0b1, 1, 1), fv(&[0, 0], 1));
}

#[test]
fn coefficient_formula_values() {
    assert_eq!(kernel_coeff_formula(0b101, 0b010, 3, 7), F { v: 1, p: 7 });
    assert_eq!(kernel_coeff_formula(0b101, 0b000, 3, 7), F { v: 0, p: 7 });
    // No modulus is needed where the coefficient is zero.
    assert_eq!(kernel_coeff_formula(0b101, 0b000, 3, 0), F { v: 0, p: 0 });
}

#[test]
fn zeta_on_four_entries() {
    let lambda = fv(&[1, 2, 3, 4], 7);
    assert_eq!(zeta_naive(&lambda, 2, 7), fv(&[4, 0, 6, 3], 7));
    assert_eq!(zeta_fast(&lambda, 2, 7), fv(&[4, 0, 6, 3], 7));
}

#[test]
fn zeta_naive_sums_every_entry_fast_reads_first_two_to_the_m() {
    let lambda = fv(&[1, 2, 3], 7);
    assert_eq!(zeta_naive(&lambda, 1, 7), fv(&[2, 6], 7));
    assert_eq!(zeta_fast(&lambda, 1, 7), fv(&[2, 3], 7));
    assert_eq!(zeta_naive(&fv(&[], 7), 1, 7), fv(&[0, 0], 7));
}

#[test]
fn zeta_fast_passes_the_last_entry_through() {
    let lambda = fv(&[1, 2, 3, 9], 7);
    assert_eq!(zeta_fast(&lambda, 2, 7)[0], F { v: 9, p: 7 });
    assert_eq!(zeta_naive(&lambda, 2, 7)[0], F { v: 2, p: 7 });
    assert_eq!(zeta_fast(&lambda, 2, 7)[3], F { v: 1, p: 7 });
}

#[test]
fn mobius_on_four_entries() {
    let u = fv(&[4, 0, 6, 3], 7);
    assert_eq!(mobius_naive(&u, 2, 7), fv(&[1, 2, 3, 4], 7));
    assert_eq!(mobius_fast(&u, 2, 7), fv(&[1, 2, 3, 4], 7));
    // u[0] sits at comp(3): every y below 3 picks it up with sign (-1)^(2 - wt(y)).
    let u = fv(&[1, 0, 0, 0], 7);
    assert_eq!(mobius_fast(&u, 2, 7), fv(&[1, 6, 6, 1], 7));
    assert_eq!(mobius_naive(&u, 2, 7), fv(&[1, 6, 6, 1], 7));
    let u = fv(&[0, 0, 0, 1], 7);
    assert_eq!(mobius_naive(&u, 2, 7), fv(&[1, 0, 0, 0], 7));
}

#[test]
fn degree_of_coefficient_vectors() {
    assert_eq!(degree(&fv(&[], 7)), None);
    assert_eq!(degree(&fv(&[0, 0], 7)), None);
    assert_eq!(degree(&fv(&[1, 0, 2, 0], 7)), Some(2));
    assert_eq!(degree(&fv(&[0, 0, 0, 5], 7)), Some(3));
}

#[test]
fn character_condition_accepts_and_refuses() {
    assert!(!satisfies_character_condition(&fv(&[1, 1], 7), 1, 0, 7));
    assert!(satisfies_character_condition(&fv(&[6, 1], 7), 1, 0, 7));
    // k == m: every table satisfies it.
    assert!(satisfies_character_condition(&fv(&[3, 5], 7), 1, 1, 7));
    // Entries past 2^m are not read.
    assert!(satisfies_character_condition(&fv(&[6, 1, 2], 7), 1, 0, 7));
}

#[test]
fn character_tables_from_mu() {
    assert_eq!(character_table_from_mu(&fv(&[2], 7), 1, 0, 7), fv(&[5, 2], 7));
    assert_eq!(character_table_from_mu(&fv(&[3], 7), 2, 1, 7), fv(&[4, 0, 3, 0], 7));
    assert_eq!(character_table_from_mu(&fv(&[3, 1], 7), 2, 1, 7), fv(&[4, 6, 3, 1], 7));
    assert_eq!(character_table_from_mu(&fv(&[], 7), 2, 1, 7), fv(&[0, 0, 0, 0], 7));
}

#[test]
fn character_table_has_low_degree_small() {
    let lambda = character_table_from_mu(&fv(&[2], 7), 1, 0, 7);
    let u = zeta_fast(&lambda, 1, 7);
    assert_eq!(u, fv(&[2, 0], 7));
    assert_eq!(degree(&u), Some(0));
    let lambda = character_table_from_mu(&fv(&[3, 1], 7), 2, 1, 7);
    let u = zeta_fast(&lambda, 2, 7);
    assert_eq!(u[2].v, 0);
    assert_eq!(u[3].v, 0);
    assert!(satisfies_character_condition(&lambda, 2, 1, 7));
}

#[test]
fn low_degree_polynomial_gives_character_small() {
    let u = fv(&[3, 5, 0, 0], 7);
    let lambda = mobius_fast(&u, 2, 7);
    assert!(satisfies_character_condition(&lambda, 2, 1, 7));
    assert_eq!(zeta_fast(&lambda, 2, 7), u);
    let u = fv(&[3, 5, 1, 0], 7);
    let lambda = mobius_fast(&u, 2, 7);
    assert!(!satisfies_character_condition(&lambda, 2, 1, 7));
}

#[test]
fn zeta_inverts_mobius_small_and_random() {
    let u = fv(&[4, 0, 6, 3], 7);
    assert_eq!(zeta_fast(&mobius_fast(&u, 2, 7), 2, 7), u);
    let mut state = 12345u64;
    for m in 0..=9u32 {
        let n = 1usize << m;
        let u: Vec<F> = (0..n)
            .map(|_| {
                state = state.wrapping_mul(6364136223846793005).wrapping_add(1442695040888963407);
                F::new((state >> 1) as i128, 1_000_000_007)
            })
            .collect();
        let lambda = mobius_naive(&u, m, 1_000_000_007);
        assert_eq!(zeta_fast(&lambda, m, 1_000_000_007), u, "m={m}");
        assert_eq!(zeta_naive(&lambda, m, 1_000_000_007), u, "m={m}");
    }
}
