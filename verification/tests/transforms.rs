use kernel_basis_bench::{
    character_table_from_mu, degree, kernel_coeff_formula, kernel_poly_coeffs, mobius_fast,
    mobius_naive, satisfies_character_condition, zeta_fast, zeta_naive, F, GOLDILOCKS_P,
};

const P: u64 = GOLDILOCKS_P;

fn rand_field_vec(n: usize, seed: u64) -> Vec<F> {
    // Small deterministic LCG, good enough for test data.
    let mut state = seed ^ 0x9E3779B97F4A7C15;
    (0..n)
        .map(|_| {
            state = state.wrapping_mul(6364136223846793005).wrapping_add(1442695040888963407);
            F::new((state >> 1) as i128, P)
        })
        .collect()
}

#[test]
fn kernel_poly_matches_coeff_formula_m4() {
    let m = 4u32;
    let n = 1usize << m;
    for y in 0..n {
        let coeffs = kernel_poly_coeffs(y, m, P);
        for a in 0..n {
            assert_eq!(
                coeffs[a],
                kernel_coeff_formula(y, a, m, P),
                "mismatch at y={y}, a={a}"
            );
        }
    }
}

#[test]
fn zeta_fast_matches_naive_m_up_to_10() {
    for m in 1..=10u32 {
        let n = 1usize << m;
        let lambda = rand_field_vec(n, 12345 + m as u64);
        assert_eq!(zeta_fast(&lambda, m, P), zeta_naive(&lambda, m, P), "m={m}");
    }
}

#[test]
fn mobius_fast_matches_naive_m_up_to_10() {
    for m in 1..=10u32 {
        let n = 1usize << m;
        let u = rand_field_vec(n, 54321 + m as u64);
        assert_eq!(mobius_fast(&u, m, P), mobius_naive(&u, m, P), "m={m}");
    }
}

#[test]
fn mobius_inverts_zeta_round_trip() {
    for m in 1..=12u32 {
        let n = 1usize << m;
        let lambda = rand_field_vec(n, 999 + m as u64);
        let u = zeta_fast(&lambda, m, P);
        let back = mobius_fast(&u, m, P);
        assert_eq!(back, lambda, "round trip failed at m={m}");
    }
}

#[test]
fn theorem_5_2_forward_direction_all_k() {
    // Build lambda from a character condition for each k, verify the
    // resulting polynomial's monomial degree is < 2^k.
    for m in 1..=8u32 {
        for k in 0..=m {
            let low_n = 1usize << k;
            let mu = rand_field_vec(low_n, 7 + m as u64 * 100 + k as u64);
            let lambda = character_table_from_mu(&mu, m, k, P);
            let u = zeta_fast(&lambda, m, P);
            let deg = degree(&u);
            let bound = 1usize << k;
            match deg {
                None => {} // zero polynomial trivially has degree < bound
                Some(d) => assert!(d < bound, "m={m} k={k}: degree {d} not < {bound}"),
            }
        }
    }
}

#[test]
fn theorem_5_2_converse_direction_all_k() {
    // Build a random low-degree U directly in monomial coefficients,
    // Mobius-invert to kernel coordinates, check the character
    // condition holds exactly.
    for m in 1..=8u32 {
        for k in 0..=m {
            let n = 1usize << m;
            let bound = 1usize << k;
            let mut u = vec![F::zero(P); n];
            let rvals = rand_field_vec(bound, 55 + m as u64 * 100 + k as u64);
            u[..bound].copy_from_slice(&rvals);
            let lambda = mobius_fast(&u, m, P);
            assert!(
                satisfies_character_condition(&lambda, m, k, P),
                "m={m} k={k}: character condition failed"
            );
        }
    }
}

#[test]
fn zeta_mobius_round_trip_many_seeds() {
    let m = 6u32;
    let n = 1usize << m;
    for seed in 0u64..200 {
        let lambda = rand_field_vec(n, seed);
        let u = zeta_fast(&lambda, m, P);
        let back = mobius_fast(&u, m, P);
        assert_eq!(back, lambda, "seed={seed}");
    }
}

#[test]
fn character_condition_forward_many_seeds() {
    let m = 6u32;
    for seed in 0u64..50 {
        for k in 0..=m {
            let low_n = 1usize << k;
            let mu = rand_field_vec(low_n, seed * 1000 + k as u64);
            let lambda = character_table_from_mu(&mu, m, k, P);
            let u = zeta_fast(&lambda, m, P);
            let bound = 1usize << k;
            if let Some(d) = degree(&u) {
                assert!(d < bound, "seed={seed} k={k}: degree {d} not < {bound}");
            }
        }
    }
}
