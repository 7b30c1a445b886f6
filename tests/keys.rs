use std::collections::HashMap;

use bool_fhe::error::FheError;
use bool_fhe::keys::{
    BoolParameters, ClientKey, CommonReferenceSeededCollectivePublicKeyShare, SeededMultiPartyServerKey,
    NonInteractiveServerKeyEvaluationDomain, PublicKey, SeededNonInteractiveMultiPartyServerKey,
    SeededPublicKey, SeededSinglePartyServerKey, ServerKeyEvaluationDomain,
    ShoupServerKeyEvaluationDomain,
};
use bool_fhe::rlwe::{decrypt_rlwe, gen_rlwe_public_key, public_key_encrypt_rlwe};
use bool_fhe::secret::{LweSecret, RlweSecret};
use rand::{thread_rng, Rng};

const Q50: u64 = 1125899906842597;

fn params(n: usize) -> BoolParameters {
    BoolParameters {
        rlwe_q: Q50,
        lwe_q: 1 << 16,
        rlwe_n: n,
        lwe_n: 3,
        auto_d: 2,
        rlrg_d_a: 2,
        rlrg_d_b: 1,
        lwe_d: 2,
        ui_to_s_d: 2,
        g: 5,
        auto_element_dlogs: vec![0, 1, 3],
    }
}

fn uniform(rng: &mut impl Rng, n: usize, bound: u64) -> Vec<u64> {
    (0..n).map(|_| rng.gen_range(0..bound)).collect()
}

fn small_error(rng: &mut impl Rng, n: usize, q: u64) -> Vec<u64> {
    (0..n)
        .map(|_| {
            let e: i64 = rng.gen_range(-3..=3);
            if e < 0 {
                q - (-e) as u64
            } else {
                e as u64
            }
        })
        .collect()
}

fn random_secret(rng: &mut impl Rng, hw: usize, n: usize) -> RlweSecret {
    let draws: Vec<u64> = (0..2 * hw).map(|_| rng.gen()).collect();
    RlweSecret::random(hw, n, &draws).unwrap()
}

fn rows(r: usize, n: usize, start: u64) -> Vec<Vec<u64>> {
    (0..r).map(|i| (0..n).map(|j| start + (i * n + j) as u64).collect()).collect()
}

#[test]
fn three_party_public_key_decrypts_under_ideal_secret() {
    let n = 16;
    let q = Q50;
    let p = 4u64;
    let mut rng = thread_rng();
    let crs = [7u8; 32];
    let a = uniform(&mut rng, n, q);
    let secrets: Vec<RlweSecret> = (0..3).map(|_| random_secret(&mut rng, n / 2, n)).collect();
    let shares: Vec<CommonReferenceSeededCollectivePublicKeyShare> = secrets
        .iter()
        .map(|s| {
            let b = gen_rlwe_public_key(s.values(), &a, &small_error(&mut rng, n, q), q);
            CommonReferenceSeededCollectivePublicKeyShare::new(b, crs, params(n))
        })
        .collect();
    let pk = PublicKey::from_shares(&shares, &a).unwrap();
    assert_eq!(pk.key()[0], a);
    let ideal: Vec<i32> = (0..n).map(|i| secrets.iter().map(|s| s.values()[i]).sum()).collect();
    let m = uniform(&mut rng, n, p);
    let encoded: Vec<u64> = m.iter().map(|v| v * (q / p)).collect();
    let u = random_secret(&mut rng, n / 2, n);
    let ct = public_key_encrypt_rlwe(
        pk.key(),
        &encoded,
        u.values(),
        &small_error(&mut rng, n, q),
        &small_error(&mut rng, n, q),
        q,
    );
    let back: Vec<u64> = decrypt_rlwe(&ct.data, &ideal, q)
        .iter()
        .map(|v| (((*v as f64 * p as f64) / q as f64).round() as u64) % p)
        .collect();
    assert_eq!(back, m);
}

#[test]
fn public_key_aggregation_ignores_share_order() {
    let n = 4;
    let crs = [1u8; 32];
    let s0 = CommonReferenceSeededCollectivePublicKeyShare::new(vec![1, 2, 3, 4], crs, params(n));
    let s1 = CommonReferenceSeededCollectivePublicKeyShare::new(vec![Q50 - 1, 5, 0, 9], crs, params(n));
    let s2 = CommonReferenceSeededCollectivePublicKeyShare::new(vec![10, 20, 30, 40], crs, params(n));
    let draws = vec![11, 12, 13, 14];
    let k0 = PublicKey::from_shares(&vec![s0.clone(), s1.clone(), s2.clone()], &draws).unwrap();
    let k1 = PublicKey::from_shares(&vec![s2.clone(), s0.clone(), s1.clone()], &draws).unwrap();
    assert_eq!(k0.key(), k1.key());
    assert_eq!(k0.key()[1], vec![10, 27, 33, 53]);
    let seeded = SeededPublicKey::from_shares(&vec![s1, s2, s0]).unwrap();
    assert_eq!(seeded.part_b, vec![10, 27, 33, 53]);
    assert_eq!(PublicKey::from_seeded(&seeded, &draws).key(), k0.key());
}

#[test]
fn public_key_aggregation_rejects_inconsistent_shares() {
    let n = 4;
    let s0 = CommonReferenceSeededCollectivePublicKeyShare::new(vec![1, 2, 3, 4], [1u8; 32], params(n));
    let s1 = CommonReferenceSeededCollectivePublicKeyShare::new(vec![1, 2, 3, 4], [2u8; 32], params(n));
    let r = PublicKey::from_shares(&vec![s0.clone(), s1], &vec![0; 4]);
    assert_eq!(r.unwrap_err(), FheError::InconsistentShares);
    let mut other = params(n);
    other.g = 3;
    let s2 = CommonReferenceSeededCollectivePublicKeyShare::new(vec![1, 2, 3, 4], [1u8; 32], other);
    assert_eq!(SeededPublicKey::from_shares(&vec![s0.clone(), s2]).unwrap_err(), FheError::InconsistentShares);
    let short = CommonReferenceSeededCollectivePublicKeyShare::new(vec![1, 2, 3], [1u8; 32], params(n));
    let r = PublicKey::from_shares(&vec![s0.clone(), short], &vec![0; 4]);
    assert_eq!(r.unwrap_err(), FheError::InvalidParameter);
    let big = CommonReferenceSeededCollectivePublicKeyShare::new(vec![1, 2, Q50, 4], [1u8; 32], params(n));
    let r = PublicKey::from_shares(&vec![s0, big], &vec![0; 4]);
    assert_eq!(r.unwrap_err(), FheError::InvalidParameter);
}

fn single_party_key(n: usize) -> SeededSinglePartyServerKey {
    let p = params(n);
    let mut auto_keys = HashMap::new();
    for (i, k) in p.auto_element_dlogs.iter().enumerate() {
        auto_keys.insert(*k, rows(p.auto_d, n, 1000 * (i as u64 + 1)));
    }
    let rgsw_cts = vec![rows(5, n, 50), rows(5, n, 70)];
    let lwe_ksk: Vec<u64> = (0..(p.lwe_d * n) as u64).map(|v| 900 + v).collect();
    SeededSinglePartyServerKey::from_raw(auto_keys, rgsw_cts, lwe_ksk, p, [3u8; 32]).unwrap()
}

#[test]
fn single_party_expansion_follows_draw_order() {
    let n = 4;
    let key = single_party_key(n);
    // 3 auto keys * 2 rows * 4 + 2 rgsw * 1 row * 4 + 8 lwe rows * 3
    let draws: Vec<u64> = (0..(24 + 8 + 24) as u64).map(|v| 10_000 + v).collect();
    let e = ServerKeyEvaluationDomain::from_single_party(&key, &draws);
    let k1 = e.galois_key_for_auto(1).unwrap();
    assert_eq!(k1.len(), 4);
    assert_eq!(k1[0], vec![10_008, 10_009, 10_010, 10_011]);
    assert_eq!(k1[2], key.auto_keys[&1][0]);
    assert_eq!(e.galois_key_for_auto(2).unwrap_err(), FheError::MissingKey);
    let c1 = e.rgsw_ct_lwe_si(1);
    assert_eq!(c1.len(), 6);
    assert_eq!(c1[..4], key.rgsw_cts[1][..4]);
    assert_eq!(c1[4], vec![10_028, 10_029, 10_030, 10_031]);
    assert_eq!(c1[5], key.rgsw_cts[1][4]);
    assert_eq!(e.lwe_ksk().len(), 8);
    assert_eq!(e.lwe_ksk()[2], vec![902, 10_038, 10_039, 10_040]);
    let again = ServerKeyEvaluationDomain::from_single_party(&key, &draws);
    assert_eq!(again.rgsw_cts(), e.rgsw_cts());
    assert_eq!(again.lwe_ksk(), e.lwe_ksk());
    for k in [0usize, 1, 3] {
        assert_eq!(again.galois_key_for_auto(k).unwrap(), e.galois_key_for_auto(k).unwrap());
    }
    let shoup = ShoupServerKeyEvaluationDomain::from_key(e);
    let c = shoup.rgsw_ct_lwe_si(0);
    assert_eq!(c.shoup_repr()[0][0] as u128, ((c.as_ref()[0][0] as u128) << 64) / Q50 as u128);
    assert!(shoup.galois_key_for_auto(3).is_ok());
    assert_eq!(shoup.lwe_ksk().len(), 8);
}

#[test]
fn single_party_key_checks_shapes() {
    let n = 4;
    let p = params(n);
    let mut auto_keys = HashMap::new();
    auto_keys.insert(0usize, rows(2, n, 0));
    auto_keys.insert(1usize, rows(2, n, 0));
    let r = SeededSinglePartyServerKey::from_raw(auto_keys.clone(), vec![], vec![0; 8], p.clone(), [0u8; 32]);
    assert_eq!(r.unwrap_err(), FheError::MissingKey);
    auto_keys.insert(3usize, rows(3, n, 0));
    let r = SeededSinglePartyServerKey::from_raw(auto_keys.clone(), vec![], vec![0; 8], p.clone(), [0u8; 32]);
    assert_eq!(r.unwrap_err(), FheError::InvalidParameter);
    auto_keys.insert(3usize, rows(2, n, 0));
    let r = SeededSinglePartyServerKey::from_raw(auto_keys.clone(), vec![rows(4, n, 0)], vec![0; 8], p.clone(), [0u8; 32]);
    assert_eq!(r.unwrap_err(), FheError::InvalidParameter);
    let r = SeededSinglePartyServerKey::from_raw(auto_keys.clone(), vec![], vec![0; 7], p.clone(), [0u8; 32]);
    assert_eq!(r.unwrap_err(), FheError::InvalidParameter);
    assert!(SeededSinglePartyServerKey::from_raw(auto_keys, vec![rows(5, n, 0)], vec![0; 8], p, [0u8; 32]).is_ok());
}

#[test]
fn non_interactive_expansion_locates_user_keys() {
    let n = 4;
    let p = params(n);
    let mut auto_keys = HashMap::new();
    for k in [0usize, 1, 3] {
        auto_keys.insert(k, rows(2, n, 100 * k as u64));
    }
    let ksks = vec![rows(2, n, 500), rows(2, n, 600)];
    let key = SeededNonInteractiveMultiPartyServerKey::new(
        ksks.clone(),
        vec![1, 0],
        vec![rows(6, n, 7)],
        auto_keys,
        vec![5; 8],
        [9u8; 32],
        p,
    );
    let auto_draws: Vec<u64> = (0..24).collect();
    let lwe_draws: Vec<u64> = (0..24).map(|v| 50 + v).collect();
    let user_draws = vec![vec![1u64; 8], vec![2u64; 8]];
    let e = NonInteractiveServerKeyEvaluationDomain::from_seeded(&key, &auto_draws, &lwe_draws, &user_draws).unwrap();
    assert_eq!(e.ui_to_s_ksks[0][0], vec![1, 1, 1, 1]);
    assert_eq!(e.ui_to_s_ksks[0][2..], ksks[1][..]);
    assert_eq!(e.ui_to_s_ksks[1][2..], ksks[0][..]);
    assert_eq!(e.lwe_ksk[1], vec![5, 53, 54, 55]);
    assert_eq!(e.auto_keys[&3][0], vec![16, 17, 18, 19]);
    assert_eq!(e.rgsw_cts[0], rows(6, n, 7));
    let bad = SeededNonInteractiveMultiPartyServerKey::new(
        ksks,
        vec![2, 0],
        vec![],
        HashMap::new(),
        vec![5; 8],
        [9u8; 32],
        params(n),
    );
    let r = NonInteractiveServerKeyEvaluationDomain::from_seeded(&bad, &auto_draws, &lwe_draws, &user_draws);
    assert_eq!(r.unwrap_err(), FheError::MissingKey);
}

#[test]
fn client_keys_keep_their_secrets() {
    let s = RlweSecret::random(1, 2, &vec![0, 0]).unwrap();
    let u = RlweSecret::random(2, 2, &vec![0, 0, 1, 1]).unwrap();
    let l = LweSecret::random(0, 3, &vec![]).unwrap();
    let ck = ClientKey::new(s.clone(), l.clone());
    assert_eq!(ck.sk_rlwe().values(), s.values());
    assert_eq!(ck.sk_lwe().values(), l.values());
    let t = bool_fhe::keys::ThrowMeAwayKey::new(s.clone(), u.clone(), l.clone());
    assert_eq!(t.sk_u_rlwe().values(), u.values());
    assert_eq!(t.sk_rlwe().values(), s.values());
    assert_eq!(t.sk_lwe().values(), &vec![0, 0, 0]);
}

fn server_key_share(
    n: usize,
    seed: [u8; 32],
    base: u64,
) -> bool_fhe::keys::CommonReferenceSeededMultiPartyServerKeyShare {
    let p = params(n);
    let mut auto_keys = HashMap::new();
    for k in [0usize, 1, 3] {
        auto_keys.insert(k, rows(2, n, base + 10 * k as u64));
    }
    let rgsw_cts = vec![rows(6, n, base), rows(6, n, base + 1)];
    let lwe_ksk: Vec<u64> = (0..8).map(|v| base + v).collect();
    bool_fhe::keys::CommonReferenceSeededMultiPartyServerKeyShare::new(rgsw_cts, auto_keys, lwe_ksk, seed, p)
}

#[test]
fn interactive_server_key_aggregation() {
    let n = 4;
    let a = server_key_share(n, [4u8; 32], 100);
    let b = server_key_share(n, [4u8; 32], 1000);
    let key = SeededMultiPartyServerKey::from_shares(&vec![a.clone(), b.clone()]).unwrap();
    assert_eq!(key.rgsw_cts.len(), 4);
    assert_eq!(key.rgsw_cts[0], a.rgsw_cts()[0]);
    assert_eq!(key.rgsw_cts[2], b.rgsw_cts()[0]);
    assert_eq!(key.auto_keys[&1][0], vec![1120, 1122, 1124, 1126]);
    assert_eq!(key.lwe_ksk[3], 1106);
    let swapped = SeededMultiPartyServerKey::from_shares(&vec![b.clone(), a.clone()]).unwrap();
    assert_eq!(swapped.auto_keys, key.auto_keys);
    assert_eq!(swapped.lwe_ksk, key.lwe_ksk);
    assert_eq!(swapped.rgsw_cts[0], b.rgsw_cts()[0]);
    // expansion of the aggregated key: 3 auto keys * 2 rows * 4, then 8 rows * 3
    let draws: Vec<u64> = (0..48).collect();
    let e = ServerKeyEvaluationDomain::from_multi_party(&key, &draws);
    assert_eq!(e.galois_key_for_auto(0).unwrap()[1], vec![4, 5, 6, 7]);
    assert_eq!(e.galois_key_for_auto(0).unwrap()[2], key.auto_keys[&0][0]);
    assert_eq!(e.lwe_ksk()[0], vec![1100, 24, 25, 26]);
    assert_eq!(e.rgsw_cts().len(), 4);
}

#[test]
fn interactive_server_key_aggregation_errors() {
    let n = 4;
    let a = server_key_share(n, [4u8; 32], 100);
    let other_seed = server_key_share(n, [5u8; 32], 100);
    let r = SeededMultiPartyServerKey::from_shares(&vec![a.clone(), other_seed]);
    assert_eq!(r.unwrap_err(), FheError::InconsistentShares);
    let mut keys = a.auto_keys().clone();
    keys.remove(&3);
    let missing = bool_fhe::keys::CommonReferenceSeededMultiPartyServerKeyShare::new(
        a.rgsw_cts().clone(),
        keys,
        a.lwe_ksk().clone(),
        [4u8; 32],
        params(n),
    );
    let r = SeededMultiPartyServerKey::from_shares(&vec![a.clone(), missing]);
    assert_eq!(r.unwrap_err(), FheError::MissingKey);
    let short = bool_fhe::keys::CommonReferenceSeededMultiPartyServerKeyShare::new(
        a.rgsw_cts().clone(),
        a.auto_keys().clone(),
        vec![1; 7],
        [4u8; 32],
        params(n),
    );
    let r = SeededMultiPartyServerKey::from_shares(&vec![a, short]);
    assert_eq!(r.unwrap_err(), FheError::InvalidParameter);
}

#[test]
fn public_key_aggregation_merges_shares() {
    let n = 4;
    let crs = [1u8; 32];
    let s0 = CommonReferenceSeededCollectivePublicKeyShare::new(vec![1, 2, 3, 4], crs, params(n));
    let s1 = CommonReferenceSeededCollectivePublicKeyShare::new(vec![Q50 - 1, 5, 0, 9], crs, params(n));
    let s2 = CommonReferenceSeededCollectivePublicKeyShare::new(vec![10, 20, 30, 40], crs, params(n));
    let merged = CommonReferenceSeededCollectivePublicKeyShare::new(vec![0, 7, 3, 13], crs, params(n));
    let draws = vec![11, 12, 13, 14];
    let k0 = PublicKey::from_shares(&vec![s0, s1, s2.clone()], &draws).unwrap();
    let k1 = PublicKey::from_shares(&vec![merged, s2], &draws).unwrap();
    assert_eq!(k0.key(), k1.key());
}

#[test]
fn non_interactive_user_key_order_does_not_matter() {
    let n = 4;
    let mut auto_keys = HashMap::new();
    for k in [0usize, 1, 3] {
        auto_keys.insert(k, rows(2, n, 100 * k as u64));
    }
    let k0 = rows(2, n, 500);
    let k1 = rows(2, n, 600);
    let a = SeededNonInteractiveMultiPartyServerKey::new(
        vec![k0.clone(), k1.clone()], vec![0, 1], vec![], auto_keys.clone(), vec![5; 8], [9u8; 32], params(n),
    );
    let b = SeededNonInteractiveMultiPartyServerKey::new(
        vec![k1, k0], vec![1, 0], vec![], auto_keys, vec![5; 8], [9u8; 32], params(n),
    );
    let auto_draws: Vec<u64> = (0..24).collect();
    let lwe_draws: Vec<u64> = (0..24).collect();
    let user_draws = vec![vec![1u64; 8], vec![2u64; 8]];
    let ea = NonInteractiveServerKeyEvaluationDomain::from_seeded(&a, &auto_draws, &lwe_draws, &user_draws).unwrap();
    let eb = NonInteractiveServerKeyEvaluationDomain::from_seeded(&b, &auto_draws, &lwe_draws, &user_draws).unwrap();
    assert_eq!(ea.ui_to_s_ksks, eb.ui_to_s_ksks);
}
