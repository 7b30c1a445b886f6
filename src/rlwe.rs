use vstd::prelude::*;
use crate::arith::valid_modulus;
use crate::ring::{
    negacyclic_mul, poly_add, poly_add_assign, poly_mul, poly_sub, poly_sub_assign, reduced_poly,
    signed_poly, signed_to_mod, signed_to_poly,
};
use crate::secret::ternary_with_weight;

verus! {

/// Seed of a cryptographically secure generator; the pseudo-random parts of
/// seeded keys are regenerated from it.
pub type Seed = [u8; 32];

/// The rows of a matrix of coefficients, as sequences.
pub open spec fn rows(m: Seq<Vec<u64>>) -> Seq<Seq<u64>> {
    Seq::new(m.len(), |i: int| m[i]@)
}

/// A matrix of `r` rows of `n` reduced coefficients.
pub open spec fn matrix_wf(m: Seq<Seq<u64>>, r: nat, n: nat, q: u64) -> bool {
    m.len() == r && forall|i: int| 0 <= i < r ==> (#[trigger] m[i]).len() == n && reduced_poly(
        m[i],
        q,
    )
}

/// Part `b` of a secret-key RLWE encryption: `e + m + a * s`.
pub open spec fn rlwe_b(m: Seq<u64>, a: Seq<u64>, e: Seq<u64>, s: Seq<i32>, q: u64) -> Seq<u64> {
    poly_add(poly_add(e, m, q), poly_mul(a, signed_poly(s, q), q), q)
}

/// What decryption computes of `(a, b)`: `b - a * s`.
pub open spec fn rlwe_phase(a: Seq<u64>, b: Seq<u64>, s: Seq<i32>, q: u64) -> Seq<u64> {
    poly_sub(b, poly_mul(a, signed_poly(s, q), q), q)
}

/// Public-key encryption of `m` under `(p0, p1)` with ephemeral `u` and
/// errors `e0`, `e1`: `(e0 + p0 * u, e1 + p1 * u + m)`.
pub open spec fn pk_encryption(
    p0: Seq<u64>,
    p1: Seq<u64>,
    m: Seq<u64>,
    u: Seq<i32>,
    e0: Seq<u64>,
    e1: Seq<u64>,
    q: u64,
) -> Seq<Seq<u64>> {
    seq![
        poly_add(e0, poly_mul(p0, signed_poly(u, q), q), q),
        poly_add(poly_add(e1, poly_mul(p1, signed_poly(u, q), q), q), m, q),
    ]
}

/// Marks ciphertexts whose part `a` is known to be zero.
pub trait IsTrivial {
    spec fn trivial(&self) -> bool;

    fn is_trivial(&self) -> (r: bool)
        ensures
            r == self.trivial(),
    ;

    fn set_not_trivial(&mut self)
        ensures
            !final(self).trivial(),
    ;
}

/// An RLWE ciphertext `(a, b)`: row 0 holds `a`, row 1 holds `b`.
#[derive(Clone, Debug)]
pub struct RlweCiphertext {
    pub data: Vec<Vec<u64>>,
    pub is_trivial: bool,
}

impl RlweCiphertext {
    pub fn from_raw(data: Vec<Vec<u64>>, is_trivial: bool) -> (r: RlweCiphertext)
        ensures
            r.data == data,
            r.is_trivial == is_trivial,
    {
        RlweCiphertext { data, is_trivial }
    }

    /// Two rows of `n` reduced coefficients.
    pub open spec fn wf(&self, n: nat, q: u64) -> bool {
        matrix_wf(rows(self.data@), 2, n, q)
    }

    /// Rebuilds a ciphertext from its seeded form; `a` is what the generator
    /// seeded with `value.seed` yields.
    pub fn from_seeded(value: &SeededRlweCiphertext, a: Vec<u64>) -> (r: RlweCiphertext)
        ensures
            rows(r.data@) == seq![a@, value.data@],
            !r.is_trivial,
    {
        let mut data: Vec<Vec<u64>> = Vec::new();
        data.push(a);
        data.push(value.data.clone());
        assert(rows(data@) =~= seq![a@, value.data@]);
        RlweCiphertext { data, is_trivial: false }
    }
}

impl IsTrivial for RlweCiphertext {
    open spec fn trivial(&self) -> bool {
        self.is_trivial
    }

    fn is_trivial(&self) -> (r: bool) {
        self.is_trivial
    }

    fn set_not_trivial(&mut self) {
        self.is_trivial = false;
    }
}

/// An RLWE ciphertext of which only `b` is stored; `a` is regenerated from
/// `seed`.
#[derive(Clone, Debug)]
pub struct SeededRlweCiphertext {
    pub data: Vec<u64>,
    pub seed: Seed,
    pub modulus: u64,
}

impl SeededRlweCiphertext {
    pub fn empty(ring_size: usize, seed: Seed, modulus: u64) -> (r: SeededRlweCiphertext)
        ensures
            r.data@ == crate::ring::poly_zero(ring_size as nat),
            r.seed == seed,
            r.modulus == modulus,
    {
        SeededRlweCiphertext { data: crate::ring::zero_poly(ring_size), seed, modulus }
    }
}

/// An RLWE public key of which only `b` is stored.
#[derive(Clone, Debug)]
pub struct SeededRlwePublicKey {
    pub data: Vec<u64>,
    pub seed: Seed,
    pub modulus: u64,
}

impl SeededRlwePublicKey {
    pub fn empty(ring_size: usize, seed: Seed, modulus: u64) -> (r: SeededRlwePublicKey)
        ensures
            r.data@ == crate::ring::poly_zero(ring_size as nat),
            r.seed == seed,
            r.modulus == modulus,
    {
        SeededRlwePublicKey { data: crate::ring::zero_poly(ring_size), seed, modulus }
    }
}

/// An RLWE public key `(a, b = a * s + e)`: row 0 holds `a`, row 1 holds `b`.
#[derive(Clone, Debug)]
pub struct RlwePublicKey {
    pub data: Vec<Vec<u64>>,
}

impl RlwePublicKey {
    /// Rebuilds the key from its seeded form; `a` is what the generator seeded
    /// with `value.seed` yields.
    pub fn from_seeded(value: &SeededRlwePublicKey, a: Vec<u64>) -> (r: RlwePublicKey)
        ensures
            rows(r.data@) == seq![a@, value.data@],
    {
        let mut data: Vec<Vec<u64>> = Vec::new();
        data.push(a);
        data.push(value.data.clone());
        assert(rows(data@) =~= seq![a@, value.data@]);
        RlwePublicKey { data }
    }
}

/// Part `b` of the secret-key encryption of `m` under `s`, with uniform part
/// `a` and error `e`: `e + m + a * s`.
pub fn secret_key_encrypt_rlwe(
    m: &Vec<u64>,
    a: &Vec<u64>,
    e: &Vec<u64>,
    s: &Vec<i32>,
    q: u64,
) -> (b: Vec<u64>)
    requires
        valid_modulus(q),
        m@.len() == s@.len(),
        a@.len() == s@.len(),
        e@.len() == s@.len(),
        reduced_poly(m@, q),
        reduced_poly(e@, q),
    ensures
        b@ == rlwe_b(m@, a@, e@, s@, q),
        reduced_poly(b@, q),
{
    let s_q = signed_to_poly(s, q);
    let sa = negacyclic_mul(a, &s_q, q);
    let mut b = e.clone();
    poly_add_assign(&mut b, m, q);
    poly_add_assign(&mut b, &sa, q);
    b
}

/// Public-key encryption of `m` under `pk = (p0, p1)`: `(e0 + p0 * u, e1 +
/// p1 * u + m)`, with `u` a ternary vector of weight `n / 2`.
pub fn public_key_encrypt_rlwe(
    pk: &Vec<Vec<u64>>,
    m: &Vec<u64>,
    u: &Vec<i32>,
    e0: &Vec<u64>,
    e1: &Vec<u64>,
    q: u64,
) -> (r: RlweCiphertext)
    requires
        valid_modulus(q),
        matrix_wf(rows(pk@), 2, m@.len(), q),
        reduced_poly(m@, q),
        ternary_with_weight(u@, (m@.len() / 2) as nat, m@.len()),
        e0@.len() == m@.len(),
        e1@.len() == m@.len(),
        reduced_poly(e0@, q),
        reduced_poly(e1@, q),
    ensures
        rows(r.data@) == pk_encryption(rows(pk@)[0], rows(pk@)[1], m@, u@, e0@, e1@, q),
        r.wf(m@.len(), q),
        !r.is_trivial,
{
    assert(pk@[0]@ == rows(pk@)[0] && pk@[1]@ == rows(pk@)[1]);
    let u_q = signed_to_poly(u, q);
    let ua = negacyclic_mul(&pk[0], &u_q, q);
    let ub = negacyclic_mul(&pk[1], &u_q, q);
    let mut a = e0.clone();
    poly_add_assign(&mut a, &ua, q);
    let mut b = e1.clone();
    poly_add_assign(&mut b, &ub, q);
    poly_add_assign(&mut b, m, q);
    let mut data: Vec<Vec<u64>> = Vec::new();
    data.push(a);
    data.push(b);
    assert(rows(data@) =~= pk_encryption(rows(pk@)[0], rows(pk@)[1], m@, u@, e0@, e1@, q));
    RlweCiphertext { data, is_trivial: false }
}

/// Part `b` of an RLWE public key for `s`, with uniform part `a` and error
/// `e`: `e + a * s`.
pub fn gen_rlwe_public_key(s: &Vec<i32>, a: &Vec<u64>, e: &Vec<u64>, q: u64) -> (b: Vec<u64>)
    requires
        valid_modulus(q),
        a@.len() == s@.len(),
        e@.len() == s@.len(),
        reduced_poly(e@, q),
    ensures
        b@ == poly_add(e@, poly_mul(a@, signed_poly(s@, q), q), q),
        reduced_poly(b@, q),
{
    let s_q = signed_to_poly(s, q);
    let sa = negacyclic_mul(a, &s_q, q);
    let mut b = e.clone();
    poly_add_assign(&mut b, &sa, q);
    b
}

/// Decrypts `(a, b)` under `s`: returns `b - a * s`, the scaled message plus
/// noise, which the caller rounds.
pub fn decrypt_rlwe(rlwe_ct: &Vec<Vec<u64>>, s: &Vec<i32>, q: u64) -> (m: Vec<u64>)
    requires
        valid_modulus(q),
        matrix_wf(rows(rlwe_ct@), 2, s@.len(), q),
    ensures
        m@ == rlwe_phase(rows(rlwe_ct@)[0], rows(rlwe_ct@)[1], s@, q),
        reduced_poly(m@, q),
{
    assert(rlwe_ct@[0]@ == rows(rlwe_ct@)[0] && rlwe_ct@[1]@ == rows(rlwe_ct@)[1]);
    let s_q = signed_to_poly(s, q);
    let sa = negacyclic_mul(&rlwe_ct[0], &s_q, q);
    let mut m = rlwe_ct[1].clone();
    poly_sub_assign(&mut m, &sa, q);
    m
}

/// Distance of the residue `v` from zero, reading residues at or above
/// `q / 2` as negative.
pub open spec fn centered_abs(v: u64, q: u64) -> u64 {
    if v >= q / 2 {
        (q - v) as u64
    } else {
        v
    }
}

/// The largest centred absolute value in `d`.
pub open spec fn max_centered(d: Seq<u64>, q: u64) -> u64
    decreases d.len(),
{
    if d.len() == 0 {
        0
    } else {
        let rest = max_centered(d.drop_last(), q);
        let v = centered_abs(d.last(), q);
        if v > rest {
            v
        } else {
            rest
        }
    }
}

/// The noise of `rlwe_ct` against the ideal encoded message: the largest
/// centred coefficient of `b - a * s - m_ideal`.
pub fn max_centered_noise(
    rlwe_ct: &Vec<Vec<u64>>,
    encoded_m_ideal: &Vec<u64>,
    s: &Vec<i32>,
    q: u64,
) -> (r: u64)
    requires
        valid_modulus(q),
        matrix_wf(rows(rlwe_ct@), 2, s@.len(), q),
        encoded_m_ideal@.len() == s@.len(),
        reduced_poly(encoded_m_ideal@, q),
    ensures
        r == max_centered(
            poly_sub(rlwe_phase(rows(rlwe_ct@)[0], rows(rlwe_ct@)[1], s@, q), encoded_m_ideal@, q),
            q,
        ),
{
    let mut d = decrypt_rlwe(rlwe_ct, s, q);
    poly_sub_assign(&mut d, encoded_m_ideal, q);
    let mut best: u64 = 0;
    let mut i: usize = 0;
    while i < d.len()
        invariant
            i <= d@.len(),
            reduced_poly(d@, q),
            best == max_centered(d@.take(i as int), q),
        decreases d@.len() - i,
    {
        let v = d[i];
        let c = if v >= q / 2 {
            q - v
        } else {
            v
        };
        assert(d@.take(i + 1).drop_last() =~= d@.take(i as int));
        if c > best {
            best = c;
        }
        i += 1;
    }
    assert(d@.take(d@.len() as int) =~= d@);
    best
}

/// Decrypting a fresh secret-key encryption yields the message plus the
/// error, exactly: `b - a * s = e + m` when `b = e + m + a * s`.
pub proof fn lemma_secret_encrypt_decrypt(
    m: Seq<u64>,
    a: Seq<u64>,
    e: Seq<u64>,
    s: Seq<i32>,
    q: u64,
)
    requires
        valid_modulus(q),
        m.len() == s.len(),
        a.len() == s.len(),
        e.len() == s.len(),
        reduced_poly(m, q),
        reduced_poly(e, q),
    ensures
        rlwe_phase(a, rlwe_b(m, a, e, s, q), s, q) == poly_add(e, m, q),
{
    let sa = poly_mul(a, signed_poly(s, q), q);
    let em = poly_add(e, m, q);
    assert forall|i: int| 0 <= i < s.len() implies #[trigger] rlwe_phase(
        a,
        rlwe_b(m, a, e, s, q),
        s,
        q,
    )[i] == em[i] by {
        let x = em[i] as int;
        let y = sa[i] as int;
        vstd::arithmetic::div_mod::lemma_mod_bound(e[i] + m[i], q as int);
        vstd::arithmetic::div_mod::lemma_mod_bound(
            crate::ring::negacyclic_sum(a, signed_poly(s, q), i, a.len() as int),
            q as int,
        );
        vstd::arithmetic::div_mod::lemma_mod_bound(x + y, q as int);
        vstd::arithmetic::div_mod::lemma_sub_mod_noop(x + y, y, q as int);
        vstd::arithmetic::div_mod::lemma_small_mod(x as nat, q as nat);
        vstd::arithmetic::div_mod::lemma_small_mod(y as nat, q as nat);
        assert(x + y - y == x);
    }
    assert(rlwe_phase(a, rlwe_b(m, a, e, s, q), s, q) =~= em);
}

/// Rounds the residue `v` to the nearest multiple of `q / p` and reads it as
/// a message modulo `p`: `round(v * p / q) mod p`.
pub open spec fn decode(v: u64, q: u64, p: u64) -> int {
    ((v * p + q / 2) / (q as int)) % (p as int)
}

/// `|x|`.
pub open spec fn abs(x: int) -> int {
    if x < 0 {
        -x
    } else {
        x
    }
}

/// A message `m < p` scaled by `q / p`, plus an error small against
/// `q / (2p)`, rounds back to `m`.
pub proof fn lemma_decode_rounds(m: int, e: int, q: u64, p: u64)
    requires
        valid_modulus(q),
        2 <= p,
        0 <= m < p,
        2 * (abs(e) * p + p * p) < q,
    ensures
        decode(((m * (q as int / p as int) + e) % (q as int)) as u64, q, p) == m,
{
    let qi = q as int;
    let pi = p as int;
    let delta = qi / pi;
    let r = qi % pi;
    vstd::arithmetic::div_mod::lemma_fundamental_div_mod(qi, pi);
    vstd::arithmetic::div_mod::lemma_mod_bound(qi, pi);
    assert(abs(e) * pi >= 0) by (nonlinear_arith)
        requires
            pi >= 2,
    ;
    assert(abs(e) < delta) by (nonlinear_arith)
        requires
            2 * (abs(e) * pi + pi * pi) < qi,
            qi == pi * delta + r,
            0 <= r < pi,
            pi >= 2,
            abs(e) >= 0,
    ;
    let x = m * delta + e;
    assert(m * delta <= (pi - 1) * delta) by (nonlinear_arith)
        requires
            0 <= m < pi,
            delta >= 0,
    ;
    assert((pi - 1) * delta + delta <= qi) by (nonlinear_arith)
        requires
            qi == pi * delta + r,
            0 <= r,
    ;
    assert(m * delta >= 0) by (nonlinear_arith)
        requires
            0 <= m,
            delta >= 0,
    ;
    assert(m >= 1 ==> m * delta >= delta) by (nonlinear_arith)
        requires
            delta >= 0,
    ;
    assert(x < 0 ==> m == 0);
    let v: int = if x < 0 {
        x + qi
    } else {
        x
    };
    assert(0 <= v < qi);
    if x < 0 {
        vstd::arithmetic::div_mod::lemma_fundamental_div_mod_converse(x, qi, -1, v);
    } else {
        vstd::arithmetic::div_mod::lemma_fundamental_div_mod_converse(x, qi, 0, v);
    }
    assert(((x % qi) as u64) as int == v);
    let k: int = if x < 0 {
        pi
    } else {
        m
    };
    // v p + q/2 = k q + (e p - m r + q/2) with the remainder in [0, q)
    let rem = e * pi - m * r + qi / 2;
    assert(v * pi + qi / 2 == k * qi + rem) by (nonlinear_arith)
        requires
            qi == pi * delta + r,
            x == m * delta + e,
            v == (if x < 0 {
                x + qi
            } else {
                x
            }),
            k == (if x < 0 {
                pi
            } else {
                m
            }),
            rem == e * pi - m * r + qi / 2,
            x < 0 ==> m == 0,
    ;
    assert(0 <= rem < qi) by (nonlinear_arith)
        requires
            rem == e * pi - m * r + qi / 2,
            2 * (abs(e) * pi + pi * pi) < qi,
            0 <= m < pi,
            0 <= r < pi,
            abs(e) == (if e < 0 {
                -e
            } else {
                e
            }),
            pi >= 2,
    ;
    vstd::arithmetic::div_mod::lemma_fundamental_div_mod_converse(v * pi + qi / 2, qi, k, rem);
    if x < 0 {
        vstd::arithmetic::div_mod::lemma_mod_self_0(pi);
    } else {
        vstd::arithmetic::div_mod::lemma_small_mod(m as nat, pi as nat);
    }
}

/// A secret-key encryption of the message `m` (entries below `p`, scaled by
/// `q / p`) with small errors decrypts, after rounding, to `m`: coefficient
/// `i` of `b - a * s` decodes to `m[i]`.
pub proof fn lemma_secret_round_trip_decodes(
    m: Seq<u64>,
    a: Seq<u64>,
    errors: Seq<int>,
    s: Seq<i32>,
    q: u64,
    p: u64,
)
    requires
        valid_modulus(q),
        2 <= p,
        m.len() == s.len(),
        a.len() == s.len(),
        errors.len() == s.len(),
        forall|i: int| 0 <= i < m.len() ==> #[trigger] m[i] < p,
        forall|i: int| 0 <= i < errors.len() ==> 2 * (abs(#[trigger] errors[i]) * p + p * p) < q,
    ensures
        ({
            let delta = (q / p) as u64;
            let encoded = Seq::new(m.len(), |i: int| (m[i] * delta) as u64);
            let e = Seq::new(errors.len(), |i: int| signed_to_mod(errors[i], q));
            let phase = rlwe_phase(a, rlwe_b(encoded, a, e, s, q), s, q);
            forall|i: int| 0 <= i < m.len() ==> decode(#[trigger] phase[i], q, p) == m[i]
        }),
{
    let delta = (q / p) as u64;
    let encoded = Seq::new(m.len(), |i: int| (m[i] * delta) as u64);
    let e = Seq::new(errors.len(), |i: int| signed_to_mod(errors[i], q));
    assert forall|i: int| 0 <= i < m.len() implies #[trigger] encoded[i] < q && encoded[i] as int
        == m[i] * (q / p) by {
        assert(p * p >= p) by (nonlinear_arith)
            requires
                p >= 2,
        ;
        assert(abs(errors[i]) * p >= 0) by (nonlinear_arith)
            requires
                p >= 2,
        ;
        assert(m[i] * (q / p) >= 0) by (nonlinear_arith)
            requires
                q / p >= 0,
        ;
        assert(m[i] * (q / p) <= (p - 1) * (q / p)) by (nonlinear_arith)
            requires
                0 <= m[i] < p,
        ;
        vstd::arithmetic::div_mod::lemma_fundamental_div_mod(q as int, p as int);
        vstd::arithmetic::div_mod::lemma_mod_bound(q as int, p as int);
        assert((p - 1) * (q / p) < q) by (nonlinear_arith)
            requires
                q == p * (q / p) + q % p,
                0 <= q % p < p,
                q >= p,
                p >= 2,
        ;
    }
    assert forall|i: int| 0 <= i < e.len() implies #[trigger] e[i] < q by {
        vstd::arithmetic::div_mod::lemma_mod_bound(errors[i], q as int);
    }
    lemma_secret_encrypt_decrypt(encoded, a, e, s, q);
    let phase = rlwe_phase(a, rlwe_b(encoded, a, e, s, q), s, q);
    assert forall|i: int| 0 <= i < m.len() implies decode(#[trigger] phase[i], q, p) == m[i] by {
        let qi = q as int;
        vstd::arithmetic::div_mod::lemma_mod_bound(errors[i], qi);
        vstd::arithmetic::div_mod::lemma_add_mod_noop(errors[i], encoded[i] as int, qi);
        vstd::arithmetic::div_mod::lemma_small_mod(encoded[i] as nat, qi as nat);
        assert(encoded[i] as int == m[i] * (qi / p as int));
        assert(phase[i] == crate::ring::poly_add(e, encoded, q)[i]);
        assert(phase[i] as int == (m[i] * (qi / p as int) + errors[i]) % qi);
        lemma_decode_rounds(m[i] as int, errors[i], q, p);
    }
}

} // verus!
