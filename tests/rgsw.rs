use bool_fhe::automorphism::generate_auto_map;
use bool_fhe::decompose::DefaultDecomposer;
use bool_fhe::rgsw::{
    public_key_encrypt_rgsw, galois_auto, galois_key_gen, less1_rlwe_by_rgsw, rgsw_by_rgsw_inplace, rlwe_by_rgsw,
    secret_key_encrypt_rgsw, AutoKeyEvaluationDomain, RgswCiphertextEvaluationDomain,
    SeededAutoKey, SeededRgswCiphertext,
};
use bool_fhe::ring::{negacyclic_mul, poly_scalar_mul, poly_negate, signed_to_poly};
use bool_fhe::rlwe::{
    gen_rlwe_public_key, public_key_encrypt_rlwe, RlwePublicKey, SeededRlwePublicKey, decrypt_rlwe, max_centered_noise, secret_key_encrypt_rlwe, RlweCiphertext,
    SeededRlweCiphertext,
};
use bool_fhe::secret::RlweSecret;
use rand::{thread_rng, Rng, RngCore};

/// 2^50 - 27, a prime just below 2^50.
const Q50: u64 = 1125899906842597;

fn uniform(rng: &mut impl Rng, n: usize, bound: u64) -> Vec<u64> {
    (0..n).map(|_| rng.gen_range(0..bound)).collect()
}

fn uniform_rows(rng: &mut impl Rng, rows: usize, n: usize, q: u64) -> Vec<Vec<u64>> {
    (0..rows).map(|_| uniform(rng, n, q)).collect()
}

fn small_error(rng: &mut impl Rng, n: usize, q: u64) -> Vec<u64> {
    (0..n)
        .map(|_| {
            let e: i64 = rng.gen_range(-3..=3);
            if e < 0 {
                q - (-e) as u64
            } else {
                e as u64
            }
        })
        .collect()
}

fn error_rows(rng: &mut impl Rng, rows: usize, n: usize, q: u64) -> Vec<Vec<u64>> {
    (0..rows).map(|_| small_error(rng, n, q)).collect()
}

fn random_secret(rng: &mut impl Rng, hw: usize, n: usize) -> RlweSecret {
    let draws: Vec<u64> = (0..2 * hw).map(|_| rng.gen()).collect();
    RlweSecret::random(hw, n, &draws).unwrap()
}

fn encode(m: &[u64], q: u64, p: u64) -> Vec<u64> {
    m.iter()
        .map(|v| (((*v as f64) * q as f64) / (p as f64)).round() as u64)
        .collect()
}

fn decode(m: &[u64], q: u64, p: u64) -> Vec<u64> {
    m.iter()
        .map(|v| (((*v as f64 * p as f64) / q as f64).round() as u64) % p)
        .collect()
}

/// Negacyclic product modulo `p` of plain polynomials.
fn plain_negacyclic_mul(a: &[u64], b: &[u64], p: u64) -> Vec<u64> {
    let n = a.len();
    let mut r = vec![0u64; n];
    for i in 0..n {
        for j in 0..n {
            let prod = (a[i] as u128 * b[j] as u128 % p as u128) as u64;
            let k = i + j;
            if k < n {
                r[k] = (r[k] + prod) % p;
            } else {
                r[k - n] = (r[k - n] + p - prod) % p;
            }
        }
    }
    r
}

fn flatten(rows: &[Vec<u64>]) -> Vec<u64> {
    rows.iter().flat_map(|r| r.iter().copied()).collect()
}

fn seed(rng: &mut impl RngCore) -> [u8; 32] {
    let mut s = [0u8; 32];
    rng.fill_bytes(&mut s);
    s
}

/// Secret-key RLWE encryption of `m` through the seeded form.
fn encrypt(rng: &mut (impl Rng + RngCore), m: &[u64], s: &RlweSecret, q: u64) -> RlweCiphertext {
    let n = m.len();
    let mut seeded = SeededRlweCiphertext::empty(n, seed(rng), q);
    let a = uniform(rng, n, q);
    let e = small_error(rng, n, q);
    seeded.data = secret_key_encrypt_rlwe(&m.to_vec(), &a, &e, s.values(), q);
    RlweCiphertext::from_seeded(&seeded, a)
}

/// Secret-key RGSW encryption of `m`, expanded to its `4d` rows.
fn encrypt_rgsw(
    rng: &mut (impl Rng + RngCore),
    m: &[u64],
    s: &RlweSecret,
    gadget: &Vec<u64>,
    q: u64,
) -> Vec<Vec<u64>> {
    let n = m.len();
    let d = gadget.len();
    let a_nsm = uniform_rows(rng, d, n, q);
    let e_nsm = error_rows(rng, d, n, q);
    let a_m = uniform_rows(rng, d, n, q);
    let e_m = error_rows(rng, d, n, q);
    let rows = secret_key_encrypt_rgsw(&m.to_vec(), s.values(), gadget, &a_nsm, &e_nsm, &a_m, &e_m, q);
    let seeded = SeededRgswCiphertext::from_raw(rows, seed(rng), q);
    RgswCiphertextEvaluationDomain::from_seeded(&seeded, &flatten(&a_m)).data
}

#[test]
fn rlwe_encrypt_decryption() {
    let logp = 2;
    let ring_size = 1 << 4;
    let q = Q50;
    let p = 1u64 << logp;
    let mut rng = thread_rng();
    let s = random_secret(&mut rng, ring_size >> 1, ring_size);
    let m0 = uniform(&mut rng, ring_size, p);
    let encoded_m = encode(&m0, q, p);
    let rlwe_in_ct = encrypt(&mut rng, &encoded_m, &s, q);
    let encoded_m_back = decrypt_rlwe(&rlwe_in_ct.data, s.values(), q);
    let m_back = decode(&encoded_m_back, q, p);
    assert_eq!(m0, m_back);
    let noise = max_centered_noise(&rlwe_in_ct.data, &encoded_m, s.values(), q);
    println!("Noise: {noise}");
}

#[test]
fn rlwe_by_rgsw_works() {
    let logp = 2;
    let ring_size = 1 << 9;
    let q = Q50;
    let p = 1u64 << logp;
    let d_rgsw = 10;
    let logb = 5;
    let mut rng = thread_rng();
    let s = random_secret(&mut rng, ring_size >> 1, ring_size);
    let m0 = uniform(&mut rng, ring_size, p);
    let mut m1 = vec![0u64; ring_size];
    m1[rng.gen_range(0..ring_size)] = 1;
    let decomposer = DefaultDecomposer::new(q, logb, d_rgsw).unwrap();
    let gadget_vector = decomposer.gadget_vector();
    let rgsw_ct = encrypt_rgsw(&mut rng, &m1, &s, &gadget_vector, q);
    let mut rlwe_in_ct = encrypt(&mut rng, &encode(&m0, q, p), &s, q);
    rlwe_by_rgsw(&mut rlwe_in_ct, &rgsw_ct, &decomposer, q);
    assert!(!rlwe_in_ct.is_trivial);
    let m0m1_back = decode(&decrypt_rlwe(&rlwe_in_ct.data, s.values(), q), q, p);
    let m0m1 = plain_negacyclic_mul(&m0, &m1, p);
    let noise = max_centered_noise(&rlwe_in_ct.data, &encode(&m0m1, q, p), s.values(), q);
    println!("Noise RLWE(m0m1)(= RLWE(m0)xRGSW(m1)) : {noise}");
    assert!(m0m1 == m0m1_back, "Expected {:?} \n Got {:?}", m0m1, m0m1_back);
}

#[test]
fn galois_auto_works() {
    let ring_size = 1 << 4;
    let q = Q50;
    let logp = 3;
    let p = 1u64 << logp;
    let d_rgsw = 10;
    let logb = 5;
    let mut rng = thread_rng();
    let s = random_secret(&mut rng, ring_size >> 1, ring_size);
    let m = uniform(&mut rng, ring_size, p);
    let mut rlwe_m = encrypt(&mut rng, &encode(&m, q, p), &s, q);
    let auto_k: isize = -5;
    let decomposer = DefaultDecomposer::new(q, logb, d_rgsw).unwrap();
    let gadget_vector = decomposer.gadget_vector();
    let a_rows = uniform_rows(&mut rng, d_rgsw, ring_size, q);
    let e_rows = error_rows(&mut rng, d_rgsw, ring_size, q);
    let b_rows = galois_key_gen(s.values(), auto_k, &gadget_vector, &a_rows, &e_rows, q);
    let mut seeded_auto_key = SeededAutoKey::empty(ring_size, d_rgsw, seed(&mut rng), q);
    seeded_auto_key.data = b_rows;
    let auto_key = AutoKeyEvaluationDomain::from_seeded(&seeded_auto_key, &flatten(&a_rows));
    let (auto_map_index, auto_map_sign) = generate_auto_map(ring_size, auto_k);
    galois_auto(&mut rlwe_m, &auto_key.data, &auto_map_index, &auto_map_sign, &decomposer, q);
    let m_k_back = decode(&decrypt_rlwe(&rlwe_m.data, s.values(), q), q, p);
    let mut m_k = vec![0u64; ring_size];
    for i in 0..ring_size {
        if !auto_map_sign[i] {
            m_k[auto_map_index[i]] = (p - m[i]) % p;
        } else {
            m_k[auto_map_index[i]] = m[i];
        }
    }
    let noise = max_centered_noise(&rlwe_m.data, &encode(&m_k, q, p), s.values(), q);
    println!("Ksk noise: {noise}");
    assert_eq!(m_k_back, m_k);
}

#[test]
fn external_product_of_trivial_ciphertext_decrypts() {
    let ring_size = 16;
    let q = Q50;
    let p = 4u64;
    let mut rng = thread_rng();
    let s = random_secret(&mut rng, 8, ring_size);
    let decomposer = DefaultDecomposer::new(q, 5, 10).unwrap();
    let gadget = decomposer.gadget_vector();
    let mut m1 = vec![0u64; ring_size];
    m1[3] = 1;
    let rgsw = encrypt_rgsw(&mut rng, &m1, &s, &gadget, q);
    let m0 = uniform(&mut rng, ring_size, p);
    let mut ct = RlweCiphertext::from_raw(vec![vec![0u64; ring_size], encode(&m0, q, p)], true);
    rlwe_by_rgsw(&mut ct, &rgsw, &decomposer, q);
    assert!(!ct.is_trivial);
    let back = decode(&decrypt_rlwe(&ct.data, s.values(), q), q, p);
    assert_eq!(back, plain_negacyclic_mul(&m0, &m1, p));
}

#[test]
fn skipping_no_digits_equals_full_external_product() {
    let ring_size = 16;
    let q = Q50;
    let mut rng = thread_rng();
    let s = random_secret(&mut rng, 8, ring_size);
    let decomposer = DefaultDecomposer::new(q, 5, 10).unwrap();
    let gadget = decomposer.gadget_vector();
    let mut m1 = vec![0u64; ring_size];
    m1[0] = 1;
    let rgsw = encrypt_rgsw(&mut rng, &m1, &s, &gadget, q);
    let m0 = uniform(&mut rng, ring_size, 4);
    let ct = encrypt(&mut rng, &encode(&m0, q, 4), &s, q);
    let mut full = ct.clone();
    rlwe_by_rgsw(&mut full, &rgsw, &decomposer, q);
    let mut less = ct.clone();
    less1_rlwe_by_rgsw(&mut less, &rgsw, &decomposer, 0, 0, q);
    assert_eq!(full.data, less.data);
    let mut skipped = ct.clone();
    less1_rlwe_by_rgsw(&mut skipped, &rgsw, &decomposer, 1, 1, q);
    assert_ne!(full.data, skipped.data);
}

#[test]
fn internal_product_accumulates_monomials() {
    let ring_size = 16;
    let q = Q50;
    let p = 4u64;
    let mut rng = thread_rng();
    let s = random_secret(&mut rng, 8, ring_size);
    let decomposer = DefaultDecomposer::new(q, 5, 10).unwrap();
    let gadget = decomposer.gadget_vector();
    let mut m0 = vec![0u64; ring_size];
    m0[2] = 1;
    let mut m1 = vec![0u64; ring_size];
    m1[5] = 1;
    let mut acc = encrypt_rgsw(&mut rng, &m0, &s, &gadget, q);
    let fresh = encrypt_rgsw(&mut rng, &m1, &s, &gadget, q);
    let before = acc.clone();
    rgsw_by_rgsw_inplace(&mut acc, &fresh, &decomposer, q);
    // rows t and d + t are the external product of the same rows of the input
    let d = 10;
    let mut row_ct = RlweCiphertext::from_raw(vec![before[1].clone(), before[d + 1].clone()], false);
    rlwe_by_rgsw(&mut row_ct, &fresh, &decomposer, q);
    assert_eq!(row_ct.data[0], acc[1]);
    assert_eq!(row_ct.data[1], acc[d + 1]);
    // RLWE(m) x RGSW(m0 m1) decrypts to m X^7
    let m = uniform(&mut rng, ring_size, p);
    let mut ct = encrypt(&mut rng, &encode(&m, q, p), &s, q);
    rlwe_by_rgsw(&mut ct, &acc, &decomposer, q);
    let back = decode(&decrypt_rlwe(&ct.data, s.values(), q), q, p);
    let m0m1 = plain_negacyclic_mul(&m0, &m1, p);
    assert_eq!(back, plain_negacyclic_mul(&m, &m0m1, p));
}

#[test]
fn galois_identity_leaves_trivial_ciphertext_unchanged() {
    let ring_size = 8;
    let q = Q50;
    let (index, sign) = generate_auto_map(ring_size, 1);
    assert_eq!(index, (0..ring_size).collect::<Vec<usize>>());
    assert!(sign.iter().all(|s| *s));
    let decomposer = DefaultDecomposer::new(q, 5, 10).unwrap();
    let ksk = vec![vec![0u64; ring_size]; 20];
    let b: Vec<u64> = (1..=ring_size as u64).collect();
    let mut ct = RlweCiphertext::from_raw(vec![vec![0u64; ring_size], b.clone()], true);
    galois_auto(&mut ct, &ksk, &index, &sign, &decomposer, q);
    assert_eq!(ct.data[1], b);
    assert!(ct.is_trivial);
}

#[test]
fn galois_map_exact_values() {
    // X -> X^3 on Z[X]/(X^4 + 1): X^1 -> X^3, X^2 -> X^6 = -X^2, X^3 -> X^9 = X^1
    let (index, sign) = generate_auto_map(4, 3);
    assert_eq!(index, vec![0, 3, 2, 1]);
    assert_eq!(sign, vec![true, true, false, true]);
    // k = -1 reduces to 7: X^1 -> X^7 = -X^3
    let (index, sign) = generate_auto_map(4, -1);
    assert_eq!(index, vec![0, 3, 2, 1]);
    assert_eq!(sign, vec![true, false, false, false]);
}

#[test]
fn galois_trivial_permutes_b_only() {
    let q = 97u64;
    let (index, sign) = generate_auto_map(4, 3);
    let decomposer = DefaultDecomposer::new(q, 2, 3).unwrap();
    let ksk = vec![vec![1u64; 4]; 6];
    let mut ct = RlweCiphertext::from_raw(vec![vec![0u64; 4], vec![1, 2, 3, 4]], true);
    galois_auto(&mut ct, &ksk, &index, &sign, &decomposer, q);
    assert_eq!(ct.data[1], vec![1, 4, 94, 2]);
    assert_eq!(ct.data[0], vec![0, 0, 0, 0]);
}

fn public_key(rng: &mut (impl Rng + RngCore), s: &RlweSecret, q: u64) -> RlwePublicKey {
    let n = s.values().len();
    let mut seeded = SeededRlwePublicKey::empty(n, seed(rng), q);
    let a = uniform(rng, n, q);
    seeded.data = gen_rlwe_public_key(s.values(), &a, &small_error(rng, n, q), q);
    RlwePublicKey::from_seeded(&seeded, a)
}

#[test]
fn public_key_encrypt_decrypt() {
    let n = 16;
    let q = Q50;
    let p = 4u64;
    let mut rng = thread_rng();
    let s = random_secret(&mut rng, 8, n);
    let pk = public_key(&mut rng, &s, q);
    let m = uniform(&mut rng, n, p);
    let u = random_secret(&mut rng, n / 2, n);
    let ct = public_key_encrypt_rlwe(
        &pk.data,
        &encode(&m, q, p),
        u.values(),
        &small_error(&mut rng, n, q),
        &small_error(&mut rng, n, q),
        q,
    );
    assert!(!ct.is_trivial);
    assert_eq!(decode(&decrypt_rlwe(&ct.data, s.values(), q), q, p), m);
}

#[test]
fn public_key_rgsw_external_product() {
    let n = 16;
    let q = Q50;
    let p = 4u64;
    let d = 10;
    let mut rng = thread_rng();
    let s = random_secret(&mut rng, 8, n);
    let pk = public_key(&mut rng, &s, q);
    let decomposer = DefaultDecomposer::new(q, 5, d).unwrap();
    let gadget = decomposer.gadget_vector();
    let mut m1 = vec![0u64; n];
    m1[rng.gen_range(0..n)] = 1;
    let us: Vec<Vec<i32>> = (0..2 * d).map(|_| random_secret(&mut rng, n / 2, n).values().clone()).collect();
    let e0s = error_rows(&mut rng, 2 * d, n, q);
    let e1s = error_rows(&mut rng, 2 * d, n, q);
    let rows = public_key_encrypt_rgsw(&m1, &pk.data, &gadget, &us, &e0s, &e1s, q);
    let rgsw = RgswCiphertextEvaluationDomain::from_rgsw(&bool_fhe::rgsw::RgswCiphertext { data: rows, modulus: q });
    assert_eq!(rgsw.data.len(), 4 * d);
    let m0 = uniform(&mut rng, n, p);
    let mut ct = encrypt(&mut rng, &encode(&m0, q, p), &s, q);
    rlwe_by_rgsw(&mut ct, &rgsw.data, &decomposer, q);
    let back = decode(&decrypt_rlwe(&ct.data, s.values(), q), q, p);
    assert_eq!(back, plain_negacyclic_mul(&m0, &m1, p));
}

/// 2^28 - 57, a prime just below 2^28.
const Q28: u64 = 268435399;
/// 2^60 - 93, a prime just below 2^60.
const Q60: u64 = 1152921504606846883;

/// `c * m` in `Z_q[X]/(X^N + 1)` for a monomial `m = v X^t`.
fn monomial_mul(c: &[u64], m: &[u64], q: u64) -> Vec<u64> {
    let n = c.len();
    let t = m.iter().position(|v| *v != 0).unwrap();
    let v = m[t] as u128;
    let mut r = vec![0u64; n];
    for i in 0..n {
        let prod = (c[i] as u128 * v % q as u128) as u64;
        if i + t < n {
            r[i + t] = prod;
        } else {
            r[i + t - n] = (q - prod) % q;
        }
    }
    r
}

/// Prints the noise of each RLWE ciphertext inside the RGSW rows `rgsw_ct`
/// against `beta^j (-s m)` and `beta^j m`.
fn measure_noise_rgsw(rgsw_ct: &[Vec<u64>], m: &Vec<u64>, s: &RlweSecret, gadget: &[u64], q: u64) {
    let d = gadget.len();
    let neg_s = poly_negate(&signed_to_poly(s.values(), q), q);
    let neg_sm = negacyclic_mul(&neg_s, m, q);
    for i in 0..2 {
        for j in 0..d {
            let ideal = if i == 0 {
                poly_scalar_mul(&neg_sm, gadget[j], q)
            } else {
                poly_scalar_mul(m, gadget[j], q)
            };
            let rlwe = vec![rgsw_ct[i * 2 * d + j].clone(), rgsw_ct[i * 2 * d + d + j].clone()];
            let noise = max_centered_noise(&rlwe, &ideal, s.values(), q);
            if i == 0 {
                println!(r"Noise RLWE(\beta^{j} -sm0m1): {noise}");
            } else {
                println!(r"Noise RLWE(\beta^{j} m0m1): {noise}");
            }
        }
    }
}

/// Public-key RGSW encryption of `m`, all `4d` rows.
fn pk_encrypt_rgsw(
    rng: &mut (impl Rng + RngCore),
    m: &Vec<u64>,
    pk: &RlwePublicKey,
    gadget: &Vec<u64>,
    q: u64,
) -> Vec<Vec<u64>> {
    let n = m.len();
    let d = gadget.len();
    let us: Vec<Vec<i32>> = (0..2 * d).map(|_| random_secret(rng, n / 2, n).values().clone()).collect();
    let e0s = error_rows(rng, 2 * d, n, q);
    let e1s = error_rows(rng, 2 * d, n, q);
    public_key_encrypt_rgsw(m, &pk.data, gadget, &us, &e0s, &e1s, q)
}

#[test]
fn carry_noise_stays_far_below_modulus() {
    // the loop of the noise-growth study (N = 1024, q ~ 2^28, d = 2, logB = 7),
    // run for 200 successive products by random signed monomials
    let ring_size = 1 << 10;
    let q = Q28;
    let d_rgsw = 2;
    let logb = 7;
    let mut rng = thread_rng();
    let s = random_secret(&mut rng, ring_size >> 1, ring_size);
    let decomposer = DefaultDecomposer::new(q, logb, d_rgsw).unwrap();
    let gadget_vector = decomposer.gadget_vector();
    let mut carry_m = vec![0u64; ring_size];
    carry_m[rng.gen_range(0..ring_size)] = 1;
    let mut rlwe = encrypt(&mut rng, &carry_m, &s, q);
    for i in 0..200usize {
        let mut m = vec![0u64; ring_size];
        m[rng.gen_range(0..ring_size)] = if i & 1 == 1 { 1 } else { q - 1 };
        let rgsw_ct = encrypt_rgsw(&mut rng, &m, &s, &gadget_vector, q);
        rlwe_by_rgsw(&mut rlwe, &rgsw_ct, &decomposer, q);
        carry_m = monomial_mul(&carry_m, &m, q);
        let noise = max_centered_noise(&rlwe.data, &carry_m, s.values(), q);
        println!("Noise RLWE(carry_m) after {i}^th iteration: {noise}");
        assert!(noise < q / 8);
    }
}

#[test]
fn pk_rgsw_by_rgsw() {
    let ring_size = 1 << 11;
    let q = Q60;
    let d_rgsw = 3;
    let logb = 15;
    let mut rng = thread_rng();
    let s = random_secret(&mut rng, ring_size >> 1, ring_size);
    let decomposer = DefaultDecomposer::new(q, logb, d_rgsw).unwrap();
    let gadget_vector = decomposer.gadget_vector();
    let public_key = public_key(&mut rng, &s, q);
    let mut carry_m = vec![0u64; ring_size];
    carry_m[rng.gen_range(0..ring_size)] = 1;
    let mut rgsw_carrym = pk_encrypt_rgsw(&mut rng, &carry_m, &public_key, &gadget_vector, q);
    println!("########### Noise RGSW(carrym) at start ###########");
    measure_noise_rgsw(&rgsw_carrym, &carry_m, &s, &gadget_vector, q);
    for i in 0..10 {
        let mut m = vec![0u64; ring_size];
        m[rng.gen_range(0..ring_size)] = q - 1;
        let rgsw_m = RgswCiphertextEvaluationDomain::from_rgsw(&bool_fhe::rgsw::RgswCiphertext {
            data: pk_encrypt_rgsw(&mut rng, &m, &public_key, &gadget_vector, q),
            modulus: q,
        });
        rgsw_by_rgsw_inplace(&mut rgsw_carrym, &rgsw_m.data, &decomposer, q);
        carry_m = negacyclic_mul(&carry_m, &m, q);
        println!("########### Noise RGSW(carrym) in {i}^th loop ###########");
        measure_noise_rgsw(&rgsw_carrym, &carry_m, &s, &gadget_vector, q);
    }
}

#[test]
fn sk_rgsw_by_rgsw() {
    let ring_size = 1 << 11;
    let q = Q60;
    let d_rgsw = 3;
    let logb = 15;
    let mut rng = thread_rng();
    let s = random_secret(&mut rng, ring_size >> 1, ring_size);
    let decomposer = DefaultDecomposer::new(q, logb, d_rgsw).unwrap();
    let gadget_vector = decomposer.gadget_vector();
    let mut carry_m = vec![0u64; ring_size];
    carry_m[rng.gen_range(0..ring_size)] = 1;
    let mut rgsw_carrym = encrypt_rgsw(&mut rng, &carry_m, &s, &gadget_vector, q);
    println!("########### Noise RGSW(carrym) at start ###########");
    measure_noise_rgsw(&rgsw_carrym, &carry_m, &s, &gadget_vector, q);
    for i in 0..10 {
        let mut m = vec![0u64; ring_size];
        m[rng.gen_range(0..ring_size)] = if (i & 1) == 1 { q - 1 } else { 1 };
        let rgsw_m = encrypt_rgsw(&mut rng, &m, &s, &gadget_vector, q);
        rgsw_by_rgsw_inplace(&mut rgsw_carrym, &rgsw_m, &decomposer, q);
        carry_m = negacyclic_mul(&carry_m, &m, q);
        println!("########### Noise RGSW(carrym) in {i}^th loop ###########");
        measure_noise_rgsw(&rgsw_carrym, &carry_m, &s, &gadget_vector, q);
    }
}
