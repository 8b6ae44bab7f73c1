use kernel_basis_bench::{comp, wt, F, GOLDILOCKS_P};

#[test]
fn new_reduces_into_range() {
    assert_eq!(F::new(10, 7), F { v: 3, p: 7 });
    assert_eq!(F::new(-1, 7), F { v: 6, p: 7 });
    assert_eq!(F::new(-14, 7), F { v: 0, p: 7 });
    assert_eq!(F::new(0, 7), F { v: 0, p: 7 });
    assert_eq!(F::new(i128::MIN, 7), F { v: 5, p: 7 });
    assert_eq!(F::new(-1, GOLDILOCKS_P), F { v: GOLDILOCKS_P - 1, p: GOLDILOCKS_P });
}

#[test]
fn zero_and_one() {
    assert_eq!(F::zero(7), F { v: 0, p: 7 });
    assert_eq!(F::one(7), F { v: 1, p: 7 });
    assert_eq!(F::one(1), F { v: 0, p: 1 });
    assert!(F::zero(7).is_zero());
    assert!(!F::one(7).is_zero());
}

#[test]
fn add_sub_mul_mod_p() {
    let a = F { v: 5, p: 7 };
    let b = F { v: 4, p: 7 };
    assert_eq!(a.add(b), F { v: 2, p: 7 });
    assert_eq!(F { v: 2, p: 7 }.sub(a), F { v: 4, p: 7 });
    assert_eq!(a.sub(F { v: 2, p: 7 }), F { v: 3, p: 7 });
    assert_eq!(F { v: 3, p: 7 }.mul(a), F { v: 1, p: 7 });
    let m1 = F { v: GOLDILOCKS_P - 1, p: GOLDILOCKS_P };
    assert_eq!(m1.mul(m1), F { v: 1, p: GOLDILOCKS_P });
    assert_eq!(m1.add(m1), F { v: GOLDILOCKS_P - 2, p: GOLDILOCKS_P });
}

#[test]
fn sub_of_unreduced_residues_wraps() {
    // (1 - 20 + 7) rem 7 = -5 in signed arithmetic, read back as a u64.
    assert_eq!(F { v: 1, p: 7 }.sub(F { v: 20, p: 7 }), F { v: 18446744073709551611, p: 7 });
    assert_eq!(F { v: 1, p: 7 }.sub(F { v: 22, p: 7 }), F { v: 0, p: 7 });
}

#[test]
fn neg_keeps_zero() {
    assert_eq!(F { v: 0, p: 7 }.neg(), F { v: 0, p: 7 });
    assert_eq!(F { v: 3, p: 7 }.neg(), F { v: 4, p: 7 });
    assert_eq!(F { v: 7, p: 7 }.neg(), F { v: 0, p: 7 });
}

#[test]
fn weight_and_complement() {
    assert_eq!(wt(0), 0);
    assert_eq!(wt(0b1011), 3);
    assert_eq!(wt(usize::MAX), usize::BITS);
    assert_eq!(comp(5, 3), 2);
    assert_eq!(comp(0, 3), 7);
    assert_eq!(comp(7, 3), 0);
    assert_eq!(comp(0, 0), 0);
}

#[test]
fn complement_is_an_involution() {
    for m in 0..6u32 {
        for a in 0..(1usize << m) {
            let c = comp(a, m);
            assert!(c < (1usize << m));
            assert_eq!(comp(c, m), a);
            assert_eq!(c + a, (1usize << m) - 1);
        }
    }
}
