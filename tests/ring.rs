use bool_fhe::arith::{mod_add, mod_mul, mod_neg, mod_sub, shoup_mul, to_shoup};
use bool_fhe::decompose::DefaultDecomposer;
use bool_fhe::error::FheError;
use bool_fhe::ring::{negacyclic_mul, poly_scalar_mul, signed_to_poly};
use bool_fhe::secret::{LweSecret, RlweSecret};
use rand::{thread_rng, Rng};

#[test]
fn modular_ops_exact() {
    let q = 97;
    assert_eq!(mod_add(90, 10, q), 3);
    assert_eq!(mod_sub(3, 10, q), 90);
    assert_eq!(mod_neg(0, q), 0);
    assert_eq!(mod_neg(1, q), 96);
    assert_eq!(mod_mul(50, 50, q), 2500 % 97);
}

#[test]
fn shoup_matches_plain_multiply() {
    let mut rng = thread_rng();
    for q in [97u64, 12289, 268369921, 1125899906842597, (1u64 << 62) + 135, (1u64 << 63) - 25] {
        for _ in 0..200 {
            let x = rng.gen_range(0..q);
            let a: u64 = rng.gen();
            let xs = to_shoup(x, q);
            assert_eq!(xs as u128, ((x as u128) << 64) / q as u128);
            assert_eq!(shoup_mul(a, x, xs, q), mod_mul(a, x, q));
        }
        let x = q - 1;
        assert_eq!(shoup_mul(u64::MAX, x, to_shoup(x, q), q), mod_mul(u64::MAX, x, q));
    }
}

#[test]
fn negacyclic_product_wraps_with_sign() {
    let q = 17;
    // X * X^3 = X^4 = -1 in Z_17[X]/(X^4 + 1)
    let a = vec![0, 1, 0, 0];
    let b = vec![0, 0, 0, 1];
    assert_eq!(negacyclic_mul(&a, &b, q), vec![16, 0, 0, 0]);
    // (1 + 2X)(3 + X^3) = 3 + 6X + X^3 + 2X^4 = 1 + 6X + X^3
    assert_eq!(negacyclic_mul(&vec![1, 2, 0, 0], &vec![3, 0, 0, 1], q), vec![1, 6, 0, 1]);
    assert_eq!(poly_scalar_mul(&vec![1, 2, 16, 0], 3, q), vec![3, 6, 14, 0]);
}

#[test]
fn signed_secret_to_ring() {
    assert_eq!(signed_to_poly(&vec![-1, 0, 1, -3], 7), vec![6, 0, 1, 4]);
}

#[test]
fn secret_has_exact_hamming_weight() {
    let mut rng = thread_rng();
    for (hw, n) in [(0usize, 5usize), (3, 3), (8, 16), (256, 512)] {
        let draws: Vec<u64> = (0..2 * hw).map(|_| rng.gen()).collect();
        let s = RlweSecret::random(hw, n, &draws).unwrap();
        assert_eq!(s.values().len(), n);
        assert!(s.values().iter().all(|v| (-1..=1).contains(v)));
        assert_eq!(s.values().iter().filter(|v| **v != 0).count(), hw);
    }
    let l = LweSecret::random(2, 4, &vec![7, 1, 0, 1]).unwrap();
    assert_eq!(l.values().iter().filter(|v| **v != 0).count(), 2);
}

#[test]
fn secret_weight_above_dimension_is_rejected() {
    assert_eq!(RlweSecret::random(5, 4, &vec![]).unwrap_err(), FheError::InvalidParameter);
    assert_eq!(LweSecret::random(9, 8, &vec![]).unwrap_err(), FheError::InvalidParameter);
}

#[test]
fn decomposer_digits_exact() {
    // q = 97 < 2^7, base 4, 3 digits: the lowest bit is rounded off
    let dec = DefaultDecomposer::new(97, 2, 3).unwrap();
    assert_eq!(dec.d(), 3);
    assert_eq!(dec.gadget_vector(), vec![2, 8, 32]);
    // 45 -> round(45 / 2) = 23 = 3 + 1*4 + 1*16 -> digits (-1, 2, 1): -1 + 8 + 16 = 23
    assert_eq!(dec.decompose(45), vec![96, 2, 1]);
    assert_eq!(dec.decompose(0), vec![0, 0, 0]);
    let exact = DefaultDecomposer::new(1125899906842597, 5, 10).unwrap();
    let v: u64 = 123456789;
    let digits = exact.decompose(v);
    let mut acc: i128 = 0;
    for (j, d) in digits.iter().enumerate() {
        let signed = if *d > 1125899906842597 / 2 { *d as i128 - 1125899906842597 } else { *d as i128 };
        assert!(signed > -16 && signed <= 16);
        acc += signed << (5 * j);
    }
    assert_eq!(acc, v as i128);
}

#[test]
fn decomposer_rejects_bad_parameters() {
    assert_eq!(DefaultDecomposer::new(97, 3, 3).unwrap_err(), FheError::InvalidParameter);
    assert_eq!(DefaultDecomposer::new(97, 0, 3).unwrap_err(), FheError::InvalidParameter);
    assert_eq!(DefaultDecomposer::new(97, 2, 0).unwrap_err(), FheError::InvalidParameter);
}

#[test]
fn secret_follows_its_draws() {
    // step 0 exchanges positions 0 and 1, step 1 keeps position 1;
    // position 1 gets +1 (even draw), position 0 gets -1 (odd draw)
    let s = RlweSecret::random(2, 4, &vec![1, 0, 0, 1]).unwrap();
    assert_eq!(s.values(), &vec![-1, 1, 0, 0]);
    let l = LweSecret::random(1, 3, &vec![5, 2]).unwrap();
    assert_eq!(l.values(), &vec![0, 0, 1]);
}

#[test]
fn decomposer_accepts_exact_fit() {
    // q = 97 takes 7 bits: 3 digits of 2 bits fit, 7 digits of 1 bit fit
    assert!(DefaultDecomposer::new(97, 2, 3).is_ok());
    assert!(DefaultDecomposer::new(97, 1, 7).is_ok());
    assert_eq!(DefaultDecomposer::new(97, 1, 8).unwrap_err(), FheError::InvalidParameter);
    assert_eq!(DefaultDecomposer::new(97, 63, 1).unwrap_err(), FheError::InvalidParameter);
}
