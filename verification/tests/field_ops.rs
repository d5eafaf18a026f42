//! Field arithmetic checked against the pasta_curves implementation of
//! the same field.

use pasta_curves::group::ff::{Field, PrimeField};
use pasta_curves::Fp;
use range_lt::field::Fe;

fn to_fp(x: &Fe) -> Fp {
    Fp::from_raw([x.l0, x.l1, x.l2, x.l3])
}

fn from_fp(x: &Fp) -> Fe {
    let bytes = x.to_repr();
    let mut limbs = [0u64; 4];
    for (i, limb) in limbs.iter_mut().enumerate() {
        let mut eight = [0u8; 8];
        eight.copy_from_slice(&bytes[i * 8..(i + 1) * 8]);
        *limb = u64::from_le_bytes(eight);
    }
    Fe::from_limbs(limbs[0], limbs[1], limbs[2], limbs[3]).unwrap()
}

const P_MINUS_1: (u64, u64, u64, u64) =
    (0x992d30ed00000000, 0x224698fc094cf91b, 0, 0x4000000000000000);

#[test]
fn from_limbs_accepts_canonical_values() {
    assert!(Fe::from_limbs(0, 0, 0, 0).is_some());
    assert!(Fe::from_limbs(P_MINUS_1.0, P_MINUS_1.1, P_MINUS_1.2, P_MINUS_1.3).is_some());
    // the modulus itself is not canonical
    assert!(Fe::from_limbs(0x992d30ed00000001, 0x224698fc094cf91b, 0, 0x4000000000000000)
        .is_none());
    assert!(Fe::from_limbs(u64::MAX, u64::MAX, u64::MAX, u64::MAX).is_none());
}

#[test]
fn add_mod_wraps_like_pasta() {
    let pm1 = Fe::from_limbs(P_MINUS_1.0, P_MINUS_1.1, P_MINUS_1.2, P_MINUS_1.3).unwrap();
    let two = Fe::from_u64(2);
    let sum = pm1.add_mod(&two);
    assert_eq!(sum, Fe::from_u64(1));
    assert_eq!(to_fp(&pm1) + to_fp(&two), to_fp(&sum));
    let big = Fe::from_limbs(u64::MAX, u64::MAX, u64::MAX, 0x1FFFFFFFFFFFFFFF).unwrap();
    let sum2 = big.add_mod(&big);
    assert_eq!(to_fp(&big) + to_fp(&big), to_fp(&sum2));
    assert_eq!(from_fp(&(to_fp(&big) + to_fp(&big))), sum2);
}

#[test]
fn sub_mod_wraps_like_pasta() {
    let zero = Fe::zero();
    let one = Fe::one();
    let diff = zero.sub_mod(&one);
    assert_eq!(diff, Fe::from_limbs(P_MINUS_1.0, P_MINUS_1.1, P_MINUS_1.2, P_MINUS_1.3).unwrap());
    assert_eq!(to_fp(&zero) - to_fp(&one), to_fp(&diff));
    let a = Fe::from_u64(12345);
    let b = Fe::from_limbs(0, 0, 5, 0).unwrap();
    let diff2 = a.sub_mod(&b);
    assert_eq!(from_fp(&(to_fp(&a) - to_fp(&b))), diff2);
}

#[test]
fn halve_doubles_back() {
    for raw in [0u64, 1, 2, 7, 0xFFFFFFFFFFFFFFFF] {
        let x = Fe::from_u64(raw);
        let h = x.halve();
        assert_eq!(h.add_mod(&h), x);
    }
    let pm1 = Fe::from_limbs(P_MINUS_1.0, P_MINUS_1.1, P_MINUS_1.2, P_MINUS_1.3).unwrap();
    let h = pm1.halve();
    assert_eq!(h.add_mod(&h), pm1);
}

#[test]
fn pow2_mod_matches_pasta() {
    assert_eq!(Fe::pow2_mod(0), Fe::one());
    assert_eq!(Fe::pow2_mod(8), Fe::from_u64(256));
    let ours = Fe::pow2_mod(253);
    let theirs = Fp::from(2u64).pow([253, 0, 0, 0]);
    assert_eq!(to_fp(&ours), theirs);
    // beyond the field bit length the power reduces
    let ours_reduced = Fe::pow2_mod(300);
    let theirs_reduced = Fp::from(2u64).pow([300, 0, 0, 0]);
    assert_eq!(to_fp(&ours_reduced), theirs_reduced);
}

#[test]
fn below_orders_values() {
    let a = Fe::from_u64(5);
    let b = Fe::from_limbs(5, 1, 0, 0).unwrap();
    assert!(a.below(&b));
    assert!(!b.below(&a));
    assert!(!a.below(&a));
}
