use vstd::prelude::*;
use std::collections::HashMap;
use crate::arith::{shoup_spec, to_shoup, valid_modulus};
use crate::draws::{copy_rows, draw_row, draw_rows, drawn_rows};
use crate::error::FheError;
use crate::rgsw::rows_len;
use crate::ring::{
    lemma_mul_distributes, negacyclic_sum, poly_add, poly_add_assign, poly_mul, poly_zero,
    reduced_poly, signed_poly, signed_to_mod, zero_poly,
};
use crate::rlwe::{rows, Seed};
use crate::secret::{LweSecret, RlweSecret};

verus! {

broadcast use vstd::std_specs::hash::group_hash_axioms;

/// The parameters a key is made for.
#[derive(Clone, Debug)]
pub struct BoolParameters {
    pub rlwe_q: u64,
    pub lwe_q: u64,
    pub rlwe_n: usize,
    pub lwe_n: usize,
    /// Digits of automorphism keys.
    pub auto_d: usize,
    /// Digits of the `RLWE'(-sm)` and `RLWE'(m)` halves of RGSW ciphertexts.
    pub rlrg_d_a: usize,
    pub rlrg_d_b: usize,
    /// Digits of the LWE key-switching key.
    pub lwe_d: usize,
    /// Digits of the user-to-ideal key-switching keys.
    pub ui_to_s_d: usize,
    /// Generator of the Galois group.
    pub g: usize,
    /// Discrete logarithms of the Galois elements that need keys.
    pub auto_element_dlogs: Vec<usize>,
}

impl BoolParameters {
    /// Both hold the same values.
    pub open spec fn same(&self, o: &BoolParameters) -> bool {
        &&& self.rlwe_q == o.rlwe_q
        &&& self.lwe_q == o.lwe_q
        &&& self.rlwe_n == o.rlwe_n
        &&& self.lwe_n == o.lwe_n
        &&& self.auto_d == o.auto_d
        &&& self.rlrg_d_a == o.rlrg_d_a
        &&& self.rlrg_d_b == o.rlrg_d_b
        &&& self.lwe_d == o.lwe_d
        &&& self.ui_to_s_d == o.ui_to_s_d
        &&& self.g == o.g
        &&& self.auto_element_dlogs@ == o.auto_element_dlogs@
    }

    /// Moduli in range, non-empty rings, distinct Galois indices.
    pub open spec fn wf(&self) -> bool {
        &&& valid_modulus(self.rlwe_q)
        &&& valid_modulus(self.lwe_q)
        &&& self.rlwe_n >= 1
        &&& self.auto_element_dlogs@.no_duplicates()
    }

    /// A copy holding the same values.
    pub fn duplicate(&self) -> (r: BoolParameters)
        ensures
            r.same(self),
            self.wf() ==> r.wf(),
    {
        BoolParameters {
            rlwe_q: self.rlwe_q,
            lwe_q: self.lwe_q,
            rlwe_n: self.rlwe_n,
            lwe_n: self.lwe_n,
            auto_d: self.auto_d,
            rlrg_d_a: self.rlrg_d_a,
            rlrg_d_b: self.rlrg_d_b,
            lwe_d: self.lwe_d,
            ui_to_s_d: self.ui_to_s_d,
            g: self.g,
            auto_element_dlogs: self.auto_element_dlogs.clone(),
        }
    }

    /// Whether `self` and `o` hold the same values.
    pub fn equals(&self, o: &BoolParameters) -> (r: bool)
        ensures
            r == self.same(o),
    {
        if self.rlwe_q != o.rlwe_q || self.lwe_q != o.lwe_q || self.rlwe_n != o.rlwe_n
            || self.lwe_n != o.lwe_n || self.auto_d != o.auto_d || self.rlrg_d_a != o.rlrg_d_a
            || self.rlrg_d_b != o.rlrg_d_b || self.lwe_d != o.lwe_d || self.ui_to_s_d
            != o.ui_to_s_d || self.g != o.g {
            return false;
        }
        let a = &self.auto_element_dlogs;
        let b = &o.auto_element_dlogs;
        if a.len() != b.len() {
            assert(a@.len() != b@.len());
            assert(self.auto_element_dlogs@ != o.auto_element_dlogs@);
            return false;
        }
        let mut i: usize = 0;
        while i < a.len()
            invariant
                a@ == self.auto_element_dlogs@,
                b@ == o.auto_element_dlogs@,
                a@.len() == b@.len(),
                i <= a@.len(),
                forall|t: int| 0 <= t < i ==> a@[t] == b@[t],
            decreases a@.len() - i,
        {
            if a[i] != b[i] {
                assert(a@[i as int] != b@[i as int]);
                return false;
            }
            i += 1;
        }
        assert(a@ =~= b@);
        true
    }
}

/// Whether two seeds are equal.
pub fn seeds_equal(a: &Seed, b: &Seed) -> (r: bool)
    ensures
        r == (a@ == b@),
{
    let mut i: usize = 0;
    while i < 32
        invariant
            a@.len() == 32,
            b@.len() == 32,
            i <= 32,
            forall|t: int| 0 <= t < i ==> a@[t] == b@[t],
        decreases 32 - i,
    {
        if a[i] != b[i] {
            return false;
        }
        i += 1;
    }
    assert(a@ =~= b@);
    true
}

/// Client key with RLWE and LWE secrets.
#[derive(Clone, Debug)]
pub struct ClientKey {
    sk_rlwe: RlweSecret,
    sk_lwe: LweSecret,
}

impl ClientKey {
    pub fn new(sk_rlwe: RlweSecret, sk_lwe: LweSecret) -> (r: ClientKey)
        ensures
            r.sk_rlwe_spec() == sk_rlwe,
            r.sk_lwe_spec() == sk_lwe,
    {
        ClientKey { sk_rlwe, sk_lwe }
    }

    pub closed spec fn sk_rlwe_spec(&self) -> RlweSecret {
        self.sk_rlwe
    }

    pub closed spec fn sk_lwe_spec(&self) -> LweSecret {
        self.sk_lwe
    }

    pub fn sk_rlwe(&self) -> (r: &RlweSecret)
        ensures
            *r == self.sk_rlwe_spec(),
    {
        &self.sk_rlwe
    }

    pub fn sk_lwe(&self) -> (r: &LweSecret)
        ensures
            *r == self.sk_lwe_spec(),
    {
        &self.sk_lwe
    }
}

/// Client key of the non-interactive protocol: the RLWE secret, the user's
/// own RLWE secret `u` and the LWE secret.
#[derive(Clone, Debug)]
pub struct ThrowMeAwayKey {
    sk_rlwe: RlweSecret,
    sk_u_rlwe: RlweSecret,
    sk_lwe: LweSecret,
}

impl ThrowMeAwayKey {
    pub fn new(sk_rlwe: RlweSecret, sk_u_rlwe: RlweSecret, sk_lwe: LweSecret) -> (r:
        ThrowMeAwayKey)
        ensures
            r.sk_rlwe_spec() == sk_rlwe,
            r.sk_u_rlwe_spec() == sk_u_rlwe,
            r.sk_lwe_spec() == sk_lwe,
    {
        ThrowMeAwayKey { sk_rlwe, sk_u_rlwe, sk_lwe }
    }

    pub closed spec fn sk_rlwe_spec(&self) -> RlweSecret {
        self.sk_rlwe
    }

    pub closed spec fn sk_u_rlwe_spec(&self) -> RlweSecret {
        self.sk_u_rlwe
    }

    pub closed spec fn sk_lwe_spec(&self) -> LweSecret {
        self.sk_lwe
    }

    pub fn sk_rlwe(&self) -> (r: &RlweSecret)
        ensures
            *r == self.sk_rlwe_spec(),
    {
        &self.sk_rlwe
    }

    pub fn sk_u_rlwe(&self) -> (r: &RlweSecret)
        ensures
            *r == self.sk_u_rlwe_spec(),
    {
        &self.sk_u_rlwe
    }

    pub fn sk_lwe(&self) -> (r: &LweSecret)
        ensures
            *r == self.sk_lwe_spec(),
    {
        &self.sk_lwe
    }
}

/// One party's share of the collective public key: `b_i = a * s_i + e_i`,
/// with `a` drawn from the common reference seed.
#[derive(Clone, Debug)]
pub struct CommonReferenceSeededCollectivePublicKeyShare {
    pub share: Vec<u64>,
    pub cr_seed: Seed,
    pub parameters: BoolParameters,
}

impl CommonReferenceSeededCollectivePublicKeyShare {
    pub fn new(share: Vec<u64>, cr_seed: Seed, parameters: BoolParameters) -> (r:
        CommonReferenceSeededCollectivePublicKeyShare)
        ensures
            r.share == share,
            r.cr_seed == cr_seed,
            r.parameters == parameters,
    {
        CommonReferenceSeededCollectivePublicKeyShare { share, cr_seed, parameters }
    }
}

/// `sum_{t < i} shares[t]` modulo `q`, starting from `n` zeros.
pub open spec fn sum_shares(shares: Seq<Seq<u64>>, i: int, n: nat, q: u64) -> Seq<u64>
    decreases i,
{
    if i <= 0 {
        poly_zero(n)
    } else {
        poly_add(sum_shares(shares, i - 1, n, q), shares[i - 1], q)
    }
}

/// The `b` parts of the shares.
pub open spec fn share_polys(shares: Seq<CommonReferenceSeededCollectivePublicKeyShare>) -> Seq<
    Seq<u64>,
> {
    Seq::new(shares.len(), |i: int| shares[i].share@)
}

/// Every share names the seed and parameters of the first.
pub open spec fn shares_consistent(shares: Seq<CommonReferenceSeededCollectivePublicKeyShare>) -> bool {
    forall|i: int|
        0 <= i < shares.len() ==> (#[trigger] shares[i]).cr_seed@ == shares[0].cr_seed@
            && shares[i].parameters.same(&shares[0].parameters)
}

/// Every share is a reduced polynomial of the declared ring size.
pub open spec fn shares_fit(shares: Seq<CommonReferenceSeededCollectivePublicKeyShare>) -> bool {
    forall|i: int|
        0 <= i < shares.len() ==> (#[trigger] shares[i]).share@.len()
            == shares[0].parameters.rlwe_n && reduced_poly(
            shares[i].share@,
            shares[0].parameters.rlwe_q,
        )
}

/// Checks the shares against the first and sums their `b` parts.
fn aggregate_public_key_shares(shares: &Vec<CommonReferenceSeededCollectivePublicKeyShare>) -> (r:
    Result<Vec<u64>, FheError>)
    requires
        shares@.len() > 0,
        valid_modulus(shares@[0].parameters.rlwe_q),
    ensures
        !shares_consistent(shares@) <==> r == Err::<Vec<u64>, FheError>(
            FheError::InconsistentShares,
        ),
        shares_consistent(shares@) && shares_fit(shares@) <==> r is Ok,
        shares_consistent(shares@) && !shares_fit(shares@) <==> r == Err::<Vec<u64>, FheError>(
            FheError::InvalidParameter,
        ),
        r matches Ok(b) ==> b@ == sum_shares(
            share_polys(shares@),
            shares@.len() as int,
            shares@[0].parameters.rlwe_n as nat,
            shares@[0].parameters.rlwe_q,
        ),
{
    let first = &shares[0];
    let q = first.parameters.rlwe_q;
    let n = first.parameters.rlwe_n;
    let mut i: usize = 0;
    while i < shares.len()
        invariant
            first == &shares@[0],
            i <= shares@.len(),
            forall|t: int|
                0 <= t < i ==> (#[trigger] shares@[t]).cr_seed@ == shares@[0].cr_seed@
                    && shares@[t].parameters.same(&shares@[0].parameters),
        decreases shares@.len() - i,
    {
        if !seeds_equal(&shares[i].cr_seed, &first.cr_seed) || !shares[i].parameters.equals(
            &first.parameters,
        ) {
            return Err(FheError::InconsistentShares);
        }
        i += 1;
    }
    let mut i: usize = 0;
    while i < shares.len()
        invariant
            first == &shares@[0],
            q == shares@[0].parameters.rlwe_q,
            n == shares@[0].parameters.rlwe_n,
            shares_consistent(shares@),
            i <= shares@.len(),
            forall|t: int|
                0 <= t < i ==> (#[trigger] shares@[t]).share@.len() == n && reduced_poly(
                    shares@[t].share@,
                    q,
                ),
        decreases shares@.len() - i,
    {
        let s = &shares[i].share;
        if s.len() != n {
            return Err(FheError::InvalidParameter);
        }
        let mut j: usize = 0;
        while j < n
            invariant
                q == shares@[0].parameters.rlwe_q,
                n == shares@[0].parameters.rlwe_n,
                shares_consistent(shares@),
                i < shares@.len(),
                s == &shares@[i as int].share,
                s@.len() == n,
                j <= n,
                forall|c: int| 0 <= c < j ==> s@[c] < q,
            decreases n - j,
        {
            if s[j] >= q {
                assert(!reduced_poly(shares@[i as int].share@, q));
                return Err(FheError::InvalidParameter);
            }
            j += 1;
        }
        i += 1;
    }
    let mut b = zero_poly(n);
    let mut i: usize = 0;
    while i < shares.len()
        invariant
            valid_modulus(q),
            q == shares@[0].parameters.rlwe_q,
            n == shares@[0].parameters.rlwe_n,
            shares_fit(shares@),
            i <= shares@.len(),
            b@ == sum_shares(share_polys(shares@), i as int, n as nat, q),
            b@.len() == n,
            reduced_poly(b@, q),
        decreases shares@.len() - i,
    {
        assert(share_polys(shares@)[i as int] == shares@[i as int].share@);
        poly_add_assign(&mut b, &shares[i].share, q);
        i += 1;
    }
    Ok(b)
}

/// A public key `(a, b)`: row 0 holds `a`, row 1 holds `b`.
#[derive(Clone, Debug)]
pub struct PublicKey {
    key: Vec<Vec<u64>>,
}

impl PublicKey {
    pub closed spec fn key_spec(&self) -> Seq<Seq<u64>> {
        rows(self.key@)
    }

    /// The key's two rows.
    pub fn key(&self) -> (r: &Vec<Vec<u64>>)
        ensures
            rows(r@) == self.key_spec(),
    {
        &self.key
    }

    /// The collective public key of the parties whose shares are given: `a`
    /// is drawn from the common seed (`draws`, `n` values), `b` is the sum of
    /// the shares. Fails with `InconsistentShares` where the shares disagree
    /// on seed or parameters, and with `InvalidParameter` where a share does
    /// not fit the parameters.
    pub fn from_shares(
        shares: &Vec<CommonReferenceSeededCollectivePublicKeyShare>,
        draws: &Vec<u64>,
    ) -> (r: Result<PublicKey, FheError>)
        requires
            shares@.len() > 0,
            valid_modulus(shares@[0].parameters.rlwe_q),
            shares@[0].parameters.rlwe_n <= draws@.len(),
        ensures
            !shares_consistent(shares@) <==> r == Err::<PublicKey, FheError>(
                FheError::InconsistentShares,
            ),
            shares_consistent(shares@) && shares_fit(shares@) <==> r is Ok,
            shares_consistent(shares@) && !shares_fit(shares@) <==> r == Err::<
                PublicKey,
                FheError,
            >(FheError::InvalidParameter),
            r matches Ok(pk) ==> pk.key_spec() == seq![
                draws@.subrange(0, shares@[0].parameters.rlwe_n as int),
                sum_shares(
                    share_polys(shares@),
                    shares@.len() as int,
                    shares@[0].parameters.rlwe_n as nat,
                    shares@[0].parameters.rlwe_q,
                ),
            ],
    {
        match aggregate_public_key_shares(shares) {
            Err(e) => Err(e),
            Ok(b) => {
                let a = draw_row(draws, 0, shares[0].parameters.rlwe_n);
                let mut key: Vec<Vec<u64>> = Vec::new();
                key.push(a);
                key.push(b);
                let r = PublicKey { key };
                assert(r.key_spec() =~= seq![a@, b@]);
                Ok(r)
            },
        }
    }

    /// Rebuilds a public key from its seeded form; `draws` is what the
    /// generator seeded with `value.seed` yields.
    pub fn from_seeded(value: &SeededPublicKey, draws: &Vec<u64>) -> (r: PublicKey)
        requires
            value.part_b@.len() <= draws@.len(),
        ensures
            r.key_spec() == seq![draws@.subrange(0, value.part_b@.len() as int), value.part_b@],
    {
        let a = draw_row(draws, 0, value.part_b.len());
        let mut key: Vec<Vec<u64>> = Vec::new();
        key.push(a);
        key.push(value.part_b.clone());
        let r = PublicKey { key };
        assert(r.key_spec() =~= seq![a@, value.part_b@]);
        r
    }
}

/// The collective public key of which only `b` is kept, with the common seed.
#[derive(Clone, Debug)]
pub struct SeededPublicKey {
    pub part_b: Vec<u64>,
    pub seed: Seed,
    pub parameters: BoolParameters,
}

impl SeededPublicKey {
    /// Sums the shares' `b` parts and keeps the common seed; fails as
    /// [`PublicKey::from_shares`] does.
    pub fn from_shares(shares: &Vec<CommonReferenceSeededCollectivePublicKeyShare>) -> (r: Result<
        SeededPublicKey,
        FheError,
    >)
        requires
            shares@.len() > 0,
            valid_modulus(shares@[0].parameters.rlwe_q),
        ensures
            !shares_consistent(shares@) <==> r == Err::<SeededPublicKey, FheError>(
                FheError::InconsistentShares,
            ),
            shares_consistent(shares@) && shares_fit(shares@) <==> r is Ok,
            shares_consistent(shares@) && !shares_fit(shares@) <==> r == Err::<
                SeededPublicKey,
                FheError,
            >(FheError::InvalidParameter),
            r matches Ok(pk) ==> pk.part_b@ == sum_shares(
                share_polys(shares@),
                shares@.len() as int,
                shares@[0].parameters.rlwe_n as nat,
                shares@[0].parameters.rlwe_q,
            ) && pk.seed == shares@[0].cr_seed && pk.parameters.same(&shares@[0].parameters),
    {
        match aggregate_public_key_shares(shares) {
            Err(e) => Err(e),
            Ok(b) => Ok(
                SeededPublicKey {
                    part_b: b,
                    seed: shares[0].cr_seed,
                    parameters: shares[0].parameters.duplicate(),
                },
            ),
        }
    }
}

/// `m` has `r` rows of `n` coefficients.
pub open spec fn dims(m: Seq<Seq<u64>>, r: nat, n: nat) -> bool {
    m.len() == r && rows_len(m, n)
}

/// Whether `m` has `r` rows of `n` coefficients.
pub fn has_dims(m: &Vec<Vec<u64>>, r: usize, n: usize) -> (b: bool)
    ensures
        b == dims(rows(m@), r as nat, n as nat),
{
    if m.len() != r {
        return false;
    }
    let mut i: usize = 0;
    while i < r
        invariant
            m@.len() == r,
            i <= r,
            forall|t: int| 0 <= t < i ==> (#[trigger] rows(m@)[t]).len() == n,
        decreases r - i,
    {
        assert(rows(m@)[i as int] == m@[i as int]@);
        if m[i].len() != n {
            return false;
        }
        i += 1;
    }
    true
}

/// Automorphism keys expanded from their `b`-rows: the key for `dlogs[t]`
/// takes its `d` `a`-rows from `draws` at `start + t * d * n`.
pub open spec fn expanded_auto_keys_hold(
    out: Map<usize, Vec<Vec<u64>>>,
    seeded: Map<usize, Vec<Vec<u64>>>,
    dlogs: Seq<usize>,
    draws: Seq<u64>,
    start: int,
    d: int,
    n: int,
) -> bool {
    &&& forall|t: int|
        0 <= t < dlogs.len() ==> out.contains_key(#[trigger] dlogs[t]) && rows(out[dlogs[t]]@)
            == drawn_rows(draws, start + t * (d * n), d, n) + rows(seeded[dlogs[t]]@)
    &&& forall|k: usize| #[trigger] out.contains_key(k) ==> dlogs.contains(k)
}

/// Every index in `dlogs` has a key of `d` rows of `n` coefficients.
pub open spec fn auto_keys_present(
    keys: Map<usize, Vec<Vec<u64>>>,
    dlogs: Seq<usize>,
    d: nat,
    n: nat,
) -> bool {
    forall|t: int|
        0 <= t < dlogs.len() ==> keys.contains_key(#[trigger] dlogs[t]) && dims(
            rows(keys[dlogs[t]]@),
            d,
            n,
        )
}

/// Expands the automorphism keys named by `dlogs`, drawing their `a`-rows in
/// order from `draws` at `start`.
fn expand_auto_keys(
    seeded: &HashMap<usize, Vec<Vec<u64>>>,
    dlogs: &Vec<usize>,
    d: usize,
    n: usize,
    draws: &Vec<u64>,
    start: usize,
) -> (r: (HashMap<usize, Vec<Vec<u64>>>, usize))
    requires
        dlogs@.no_duplicates(),
        auto_keys_present(seeded@, dlogs@, d as nat, n as nat),
        start + dlogs@.len() * (d * n) <= draws@.len(),
    ensures
        expanded_auto_keys_hold(r.0@, seeded@, dlogs@, draws@, start as int, d as int, n as int),
        r.1 == start + dlogs@.len() * (d * n),
{
    let dl = draws.len();
    let mut out: HashMap<usize, Vec<Vec<u64>>> = HashMap::new();
    let mut pos: usize = start;
    let mut t: usize = 0;
    while t < dlogs.len()
        invariant
            dl == draws@.len(),
            dlogs@.no_duplicates(),
            auto_keys_present(seeded@, dlogs@, d as nat, n as nat),
            start + dlogs@.len() * (d * n) <= draws@.len(),
            t <= dlogs@.len(),
            pos == start + t * (d * n),
            forall|u: int|
                0 <= u < t ==> out@.contains_key(#[trigger] dlogs@[u]) && rows(out@[dlogs@[u]]@)
                    == drawn_rows(draws@, start + u * (d * n), d as int, n as int) + rows(
                    seeded@[dlogs@[u]]@,
                ),
            forall|k: usize| #[trigger] out@.contains_key(k) ==> dlogs@.subrange(0, t as int).contains(k),
        decreases dlogs@.len() - t,
    {
        proof {
            let tt = t as int;
            let c = dlogs@.len() as int;
            let dd = (d * n) as int;
            assert(tt * dd + dd <= c * dd) by (nonlinear_arith)
                requires
                    0 <= tt < c,
                    0 <= dd,
            ;
            assert((tt + 1) * dd == tt * dd + dd) by (nonlinear_arith);
            assert(d * n == dd);
        }
        let k = dlogs[t];
        assert(seeded@.contains_key(dlogs@[t as int]));
        let b = seeded.get(&k).unwrap();
        let mut key = draw_rows(draws, pos, d, n);
        let mut bs = copy_rows(b, 0, d);
        let ghost x = rows(key@);
        let ghost y = rows(bs@);
        key.append(&mut bs);
        assert(rows(key@) =~= x + y);
        assert(rows(b@).subrange(0, d as int) =~= rows(b@));
        let ghost before = out@;
        out.insert(k, key);
        proof {
            assert forall|u: int| 0 <= u < t + 1 implies out@.contains_key(#[trigger] dlogs@[u])
                && rows(out@[dlogs@[u]]@) == drawn_rows(
                draws@,
                start + u * (d * n),
                d as int,
                n as int,
            ) + rows(seeded@[dlogs@[u]]@) by {
                if u < t {
                    assert(dlogs@[u] != dlogs@[t as int]);
                    assert(before.contains_key(dlogs@[u]));
                }
            }
            assert forall|kk: usize| #[trigger] out@.contains_key(kk) implies dlogs@.subrange(
                0,
                t + 1,
            ).contains(kk) by {
                if kk == k {
                    assert(dlogs@.subrange(0, t + 1)[t as int] == k);
                } else {
                    assert(before.contains_key(kk));
                    let w = choose|w: int|
                        0 <= w < t && dlogs@.subrange(0, t as int)[w] == kk;
                    assert(dlogs@.subrange(0, t + 1)[w] == kk);
                }
            }
        }
        assert(pos + d * n <= dl);
        pos = pos + d * n;
        t += 1;
    }
    assert(dlogs@.subrange(0, dlogs@.len() as int) =~= dlogs@);
    (out, pos)
}

/// LWE key-switching key row `r`: its stored `b` followed by `n_lwe` drawn
/// `a` values.
pub open spec fn lwe_ksk_row(b: Seq<u64>, draws: Seq<u64>, start: int, r: int, n_lwe: int) -> Seq<
    u64,
> {
    seq![b[r]] + draws.subrange(start + r * n_lwe, start + r * n_lwe + n_lwe)
}

/// Expands the LWE key-switching key: one row per stored `b`, each drawing
/// `n_lwe` values in order from `draws` at `start`.
fn expand_lwe_ksk(b: &Vec<u64>, n_lwe: usize, draws: &Vec<u64>, start: usize) -> (r: Vec<
    Vec<u64>,
>)
    requires
        start + b@.len() * n_lwe <= draws@.len(),
    ensures
        r@.len() == b@.len(),
        forall|i: int|
            0 <= i < b@.len() ==> (#[trigger] r@[i])@ == lwe_ksk_row(
                b@,
                draws@,
                start as int,
                i,
                n_lwe as int,
            ),
{
    let dl = draws.len();
    let mut out: Vec<Vec<u64>> = Vec::new();
    let mut pos: usize = start;
    let mut t: usize = 0;
    while t < b.len()
        invariant
            dl == draws@.len(),
            start + b@.len() * n_lwe <= draws@.len(),
            t <= b@.len(),
            pos == start + t * n_lwe,
            out@.len() == t,
            forall|i: int|
                0 <= i < t ==> (#[trigger] out@[i])@ == lwe_ksk_row(
                    b@,
                    draws@,
                    start as int,
                    i,
                    n_lwe as int,
                ),
        decreases b@.len() - t,
    {
        proof {
            let tt = t as int;
            let c = b@.len() as int;
            let nn = n_lwe as int;
            assert(tt * nn + nn <= c * nn) by (nonlinear_arith)
                requires
                    0 <= tt < c,
                    0 <= nn,
            ;
            assert((tt + 1) * nn == tt * nn + nn) by (nonlinear_arith);
        }
        let a = draw_row(draws, pos, n_lwe);
        let mut row: Vec<u64> = Vec::new();
        row.push(b[t]);
        let mut a2 = a;
        row.append(&mut a2);
        assert(row@ =~= lwe_ksk_row(b@, draws@, start as int, t as int, n_lwe as int));
        out.push(row);
        assert(pos + n_lwe <= dl);
        pos = pos + n_lwe;
        t += 1;
    }
    out
}

/// A server key share of one party in the interactive protocol: RGSW
/// ciphertexts of its LWE secret, its parts `b` of the automorphism keys and
/// of the LWE key-switching key, all tied to the common seed.
#[derive(Clone, Debug)]
pub struct CommonReferenceSeededMultiPartyServerKeyShare {
    rgsw_cts: Vec<Vec<Vec<u64>>>,
    /// Key for `g^k` at `k`; the key for `-g` at 0.
    auto_keys: HashMap<usize, Vec<Vec<u64>>>,
    lwe_ksk: Vec<u64>,
    cr_seed: Seed,
    parameters: BoolParameters,
}

impl CommonReferenceSeededMultiPartyServerKeyShare {
    pub fn new(
        rgsw_cts: Vec<Vec<Vec<u64>>>,
        auto_keys: HashMap<usize, Vec<Vec<u64>>>,
        lwe_ksk: Vec<u64>,
        cr_seed: Seed,
        parameters: BoolParameters,
    ) -> (r: CommonReferenceSeededMultiPartyServerKeyShare)
        ensures
            r.rgsw_cts_spec() == rgsw_cts,
            r.auto_keys_spec() == auto_keys,
            r.lwe_ksk_spec() == lwe_ksk,
            r.cr_seed_spec() == cr_seed,
            r.parameters_spec() == parameters,
    {
        CommonReferenceSeededMultiPartyServerKeyShare {
            rgsw_cts,
            auto_keys,
            lwe_ksk,
            cr_seed,
            parameters,
        }
    }

    pub closed spec fn rgsw_cts_spec(&self) -> Vec<Vec<Vec<u64>>> {
        self.rgsw_cts
    }

    pub closed spec fn auto_keys_spec(&self) -> HashMap<usize, Vec<Vec<u64>>> {
        self.auto_keys
    }

    pub closed spec fn lwe_ksk_spec(&self) -> Vec<u64> {
        self.lwe_ksk
    }

    pub closed spec fn cr_seed_spec(&self) -> Seed {
        self.cr_seed
    }

    pub closed spec fn parameters_spec(&self) -> BoolParameters {
        self.parameters
    }

    pub fn cr_seed(&self) -> (r: &Seed)
        ensures
            *r == self.cr_seed_spec(),
    {
        &self.cr_seed
    }

    pub fn parameters(&self) -> (r: &BoolParameters)
        ensures
            *r == self.parameters_spec(),
    {
        &self.parameters
    }

    pub fn auto_keys(&self) -> (r: &HashMap<usize, Vec<Vec<u64>>>)
        ensures
            *r == self.auto_keys_spec(),
    {
        &self.auto_keys
    }

    pub fn rgsw_cts(&self) -> (r: &Vec<Vec<Vec<u64>>>)
        ensures
            *r == self.rgsw_cts_spec(),
    {
        &self.rgsw_cts
    }

    pub fn lwe_ksk(&self) -> (r: &Vec<u64>)
        ensures
            *r == self.lwe_ksk_spec(),
    {
        &self.lwe_ksk
    }
}

/// The aggregated server key of the interactive protocol, seeded by the
/// common reference seed.
#[derive(Clone, Debug)]
pub struct SeededMultiPartyServerKey {
    pub rgsw_cts: Vec<Vec<Vec<u64>>>,
    /// Key for `g^k` at `k`; the key for `-g` at 0.
    pub auto_keys: HashMap<usize, Vec<Vec<u64>>>,
    pub lwe_ksk: Vec<u64>,
    pub cr_seed: Seed,
    pub parameters: BoolParameters,
}

impl SeededMultiPartyServerKey {
    pub fn new(
        rgsw_cts: Vec<Vec<Vec<u64>>>,
        auto_keys: HashMap<usize, Vec<Vec<u64>>>,
        lwe_ksk: Vec<u64>,
        cr_seed: Seed,
        parameters: BoolParameters,
    ) -> (r: SeededMultiPartyServerKey)
        ensures
            r.rgsw_cts == rgsw_cts,
            r.auto_keys == auto_keys,
            r.lwe_ksk == lwe_ksk,
            r.cr_seed == cr_seed,
            r.parameters == parameters,
    {
        SeededMultiPartyServerKey { rgsw_cts, auto_keys, lwe_ksk, cr_seed, parameters }
    }

    pub fn rgsw_cts(&self) -> (r: &Vec<Vec<Vec<u64>>>)
        ensures
            *r == self.rgsw_cts,
    {
        &self.rgsw_cts
    }

    /// Keys of the declared shapes: automorphism keys of `auto_d` rows, RGSW
    /// ciphertexts of `2 (d_a + d_b)` rows, one LWE `b` per row of the
    /// key-switching key.
    pub open spec fn wf(&self) -> bool {
        let p = self.parameters;
        &&& p.wf()
        &&& auto_keys_present(self.auto_keys@, p.auto_element_dlogs@, p.auto_d as nat, p.rlwe_n as nat)
        &&& forall|j: int|
            0 <= j < self.rgsw_cts@.len() ==> dims(
                rows((#[trigger] self.rgsw_cts@[j])@),
                (2 * p.rlrg_d_a + 2 * p.rlrg_d_b) as nat,
                p.rlwe_n as nat,
            )
        &&& self.lwe_ksk@.len() == p.lwe_d * p.rlwe_n
    }
}

/// The server key of one party, seeded: automorphism keys and RGSW
/// ciphertexts without their regenerable rows, and the `b` column of the LWE
/// key-switching key.
#[derive(Clone, Debug)]
pub struct SeededSinglePartyServerKey {
    /// RGSW ciphertexts of the LWE secret's entries, `2 d_a + d_b` rows each.
    pub rgsw_cts: Vec<Vec<Vec<u64>>>,
    /// Key for `g^k` at `k`; the key for `-g` at 0. `auto_d` rows each.
    pub auto_keys: HashMap<usize, Vec<Vec<u64>>>,
    /// Parts `b` of the key switching LWE ciphertexts from the RLWE secret to
    /// the LWE secret.
    pub lwe_ksk: Vec<u64>,
    pub parameters: BoolParameters,
    /// Main seed.
    pub seed: Seed,
}

impl SeededSinglePartyServerKey {
    /// Keys of the declared shapes.
    pub open spec fn wf(&self) -> bool {
        let p = self.parameters;
        &&& p.wf()
        &&& auto_keys_present(self.auto_keys@, p.auto_element_dlogs@, p.auto_d as nat, p.rlwe_n as nat)
        &&& forall|j: int|
            0 <= j < self.rgsw_cts@.len() ==> dims(
                rows((#[trigger] self.rgsw_cts@[j])@),
                (2 * p.rlrg_d_a + p.rlrg_d_b) as nat,
                p.rlwe_n as nat,
            )
        &&& self.lwe_ksk@.len() == p.lwe_d * p.rlwe_n
    }

    /// Checks the parts against the parameters: `MissingKey` where an index
    /// of `auto_element_dlogs` has no automorphism key, `InvalidParameter`
    /// where a part has the wrong shape.
    pub fn from_raw(
        auto_keys: HashMap<usize, Vec<Vec<u64>>>,
        rgsw_cts: Vec<Vec<Vec<u64>>>,
        lwe_ksk: Vec<u64>,
        parameters: BoolParameters,
        seed: Seed,
    ) -> (r: Result<SeededSinglePartyServerKey, FheError>)
        requires
            parameters.wf(),
            parameters.rlwe_n <= 0x1_0000_0000,
            parameters.rlrg_d_a <= 0x1_0000,
            parameters.rlrg_d_b <= 0x1_0000,
            parameters.lwe_d <= 0x1_0000,
        ensures
            (exists|t: int|
                0 <= t < parameters.auto_element_dlogs@.len() && !auto_keys@.contains_key(
                    #[trigger] parameters.auto_element_dlogs@[t],
                )) <==> r == Err::<SeededSinglePartyServerKey, FheError>(FheError::MissingKey),
            r matches Ok(k) ==> k.wf() && k.auto_keys == auto_keys && k.rgsw_cts == rgsw_cts
                && k.lwe_ksk == lwe_ksk && k.parameters == parameters && k.seed == seed,
            r matches Err(e) ==> e == FheError::MissingKey || e == FheError::InvalidParameter,
            r is Err <==> !(SeededSinglePartyServerKey {
                rgsw_cts,
                auto_keys,
                lwe_ksk,
                parameters,
                seed,
            }).wf(),
    {
        let ghost built = SeededSinglePartyServerKey {
            rgsw_cts,
            auto_keys,
            lwe_ksk,
            parameters,
            seed,
        };
        let n = parameters.rlwe_n;
        let dlogs = &parameters.auto_element_dlogs;
        let mut t: usize = 0;
        while t < dlogs.len()
            invariant
                t <= dlogs@.len(),
                dlogs@ == parameters.auto_element_dlogs@,
                forall|u: int| 0 <= u < t ==> auto_keys@.contains_key(#[trigger] dlogs@[u]),
            decreases dlogs@.len() - t,
        {
            if !auto_keys.contains_key(&dlogs[t]) {
                return Err(FheError::MissingKey);
            }
            t += 1;
        }
        let mut t: usize = 0;
        while t < dlogs.len()
            invariant
                t <= dlogs@.len(),
                n == parameters.rlwe_n,
                dlogs@ == parameters.auto_element_dlogs@,
                forall|u: int| 0 <= u < dlogs@.len() ==> auto_keys@.contains_key(#[trigger] dlogs@[u]),
                forall|u: int|
                    0 <= u < t ==> dims(
                        rows(auto_keys@[#[trigger] dlogs@[u]]@),
                        parameters.auto_d as nat,
                        n as nat,
                    ),
            decreases dlogs@.len() - t,
        {
            assert(auto_keys@.contains_key(dlogs@[t as int]));
            let k = auto_keys.get(&dlogs[t]).unwrap();
            if !has_dims(k, parameters.auto_d, n) {
                return Err(FheError::InvalidParameter);
            }
            t += 1;
        }
        let rows_per_ct = 2 * parameters.rlrg_d_a + parameters.rlrg_d_b;
        let mut j: usize = 0;
        while j < rgsw_cts.len()
            invariant
                built == (SeededSinglePartyServerKey {
                    rgsw_cts,
                    auto_keys,
                    lwe_ksk,
                    parameters,
                    seed,
                }),
                j <= rgsw_cts@.len(),
                n == parameters.rlwe_n,
                dlogs@ == parameters.auto_element_dlogs@,
                forall|u: int| 0 <= u < dlogs@.len() ==> auto_keys@.contains_key(#[trigger] dlogs@[u]),
                auto_keys_present(auto_keys@, dlogs@, parameters.auto_d as nat, n as nat),
                rows_per_ct == 2 * parameters.rlrg_d_a + parameters.rlrg_d_b,
                forall|u: int|
                    0 <= u < j ==> dims(
                        rows((#[trigger] rgsw_cts@[u])@),
                        rows_per_ct as nat,
                        n as nat,
                    ),
            decreases rgsw_cts@.len() - j,
        {
            if !has_dims(&rgsw_cts[j], rows_per_ct, n) {
                assert(!dims(rows(rgsw_cts@[j as int]@), rows_per_ct as nat, n as nat));
                assert(!built.wf()) by {
                    assert(built.rgsw_cts@[j as int] == rgsw_cts@[j as int]);
                    if built.wf() {
                        assert(dims(
                            rows(built.rgsw_cts@[j as int]@),
                            (2 * parameters.rlrg_d_a + parameters.rlrg_d_b) as nat,
                            n as nat,
                        ));
                    }
                }
                return Err(FheError::InvalidParameter);
            }
            j += 1;
        }
        proof {
            let a = parameters.lwe_d as int;
            let b = n as int;
            assert(a * b <= 0x1_0000 * 0x1_0000_0000) by (nonlinear_arith)
                requires
                    0 <= a <= 0x1_0000,
                    0 <= b <= 0x1_0000_0000,
            ;
        }
        if lwe_ksk.len() as u128 != (parameters.lwe_d as u128) * (n as u128) {
            return Err(FheError::InvalidParameter);
        }
        Ok(SeededSinglePartyServerKey { rgsw_cts, auto_keys, lwe_ksk, parameters, seed })
    }
}

/// Rows of an RGSW ciphertext stored with `2 da + db` rows, expanded with
/// its `db` drawn `RLWE'_A(m)` rows.
pub open spec fn expanded_seeded_rgsw(
    seeded: Seq<Seq<u64>>,
    a_m: Seq<Seq<u64>>,
    da: int,
) -> Seq<Seq<u64>> {
    seeded.subrange(0, 2 * da) + a_m + seeded.subrange(2 * da, seeded.len() as int)
}

/// Expands seeded RGSW ciphertexts in order, drawing `db` rows for each from
/// `draws` at `start`; returns them with the position after the last draw.
fn expand_seeded_rgsw_cts(
    cts: &Vec<Vec<Vec<u64>>>,
    da: usize,
    db: usize,
    n: usize,
    draws: &Vec<u64>,
    start: usize,
) -> (r: (Vec<Vec<Vec<u64>>>, usize))
    requires
        forall|j: int|
            0 <= j < cts@.len() ==> dims(rows((#[trigger] cts@[j])@), (2 * da + db) as nat, n as nat),
        start + cts@.len() * (db * n) <= draws@.len(),
    ensures
        r.0@.len() == cts@.len(),
        forall|j: int|
            0 <= j < cts@.len() ==> rows((#[trigger] r.0@[j])@) == expanded_seeded_rgsw(
                rows(cts@[j]@),
                drawn_rows(draws@, start + j * (db * n), db as int, n as int),
                da as int,
            ),
        r.1 == start + cts@.len() * (db * n),
{
    let dl = draws.len();
    let mut out: Vec<Vec<Vec<u64>>> = Vec::new();
    let mut pos: usize = start;
    let mut j: usize = 0;
    while j < cts.len()
        invariant
            dl == draws@.len(),
            forall|u: int|
                0 <= u < cts@.len() ==> dims(rows((#[trigger] cts@[u])@), (2 * da + db) as nat, n as nat),
            start + cts@.len() * (db * n) <= draws@.len(),
            j <= cts@.len(),
            pos == start + j * (db * n),
            out@.len() == j,
            forall|u: int|
                0 <= u < j ==> rows((#[trigger] out@[u])@) == expanded_seeded_rgsw(
                    rows(cts@[u]@),
                    drawn_rows(draws@, start + u * (db * n), db as int, n as int),
                    da as int,
                ),
        decreases cts@.len() - j,
    {
        proof {
            let tt = j as int;
            let c = cts@.len() as int;
            let dd = (db * n) as int;
            assert(tt * dd + dd <= c * dd) by (nonlinear_arith)
                requires
                    0 <= tt < c,
                    0 <= dd,
            ;
            assert((tt + 1) * dd == tt * dd + dd) by (nonlinear_arith);
        }
        let ct = &cts[j];
        assert(dims(rows(ct@), (2 * da + db) as nat, n as nat));
        let cl = ct.len();
        assert(2 * da + db == cl);
        let mut data = copy_rows(ct, 0, 2 * da);
        let mut a_m = draw_rows(draws, pos, db, n);
        let mut b_m = copy_rows(ct, 2 * da, db);
        let ghost x = rows(data@);
        let ghost y = rows(a_m@);
        let ghost z = rows(b_m@);
        data.append(&mut a_m);
        data.append(&mut b_m);
        assert(rows(data@) =~= x + y + z);
        out.push(data);
        assert(pos + db * n <= dl);
        pos = pos + db * n;
        j += 1;
    }
    (out, pos)
}

/// Copies each matrix of `cts`.
fn copy_cts(cts: &Vec<Vec<Vec<u64>>>) -> (r: Vec<Vec<Vec<u64>>>)
    ensures
        r@.len() == cts@.len(),
        forall|j: int| 0 <= j < cts@.len() ==> rows((#[trigger] r@[j])@) == rows(cts@[j]@),
{
    let mut out: Vec<Vec<Vec<u64>>> = Vec::new();
    let mut j: usize = 0;
    while j < cts.len()
        invariant
            j <= cts@.len(),
            out@.len() == j,
            forall|u: int| 0 <= u < j ==> rows((#[trigger] out@[u])@) == rows(cts@[u]@),
        decreases cts@.len() - j,
    {
        let len = cts[j].len();
        let c = copy_rows(&cts[j], 0, len);
        assert(rows(cts@[j as int]@).subrange(0, len as int) =~= rows(cts@[j as int]@));
        out.push(c);
        j += 1;
    }
    out
}

/// How many values the expansion of a single-party key draws.
pub open spec fn single_party_draw_count(k: SeededSinglePartyServerKey) -> int {
    let p = k.parameters;
    p.auto_element_dlogs@.len() * (p.auto_d * p.rlwe_n) + k.rgsw_cts@.len() * (p.rlrg_d_b
        * p.rlwe_n) + k.lwe_ksk@.len() * p.lwe_n
}

/// `r` is the expansion of the single-party key `value` with the generator
/// output `draws`.
pub open spec fn single_party_expansion(
    value: SeededSinglePartyServerKey,
    draws: Seq<u64>,
    r: ServerKeyEvaluationDomain,
) -> bool {
    let p = value.parameters;
    let n = p.rlwe_n as int;
    let r0 = p.auto_element_dlogs@.len() * (p.auto_d * p.rlwe_n);
    let l0 = r0 + value.rgsw_cts@.len() * (p.rlrg_d_b * p.rlwe_n);
    &&& expanded_auto_keys_hold(
        r.galois_keys@,
        value.auto_keys@,
        p.auto_element_dlogs@,
        draws,
        0,
        p.auto_d as int,
        n,
    )
    &&& r.rgsw_cts@.len() == value.rgsw_cts@.len()
    &&& forall|j: int|
        0 <= j < value.rgsw_cts@.len() ==> rows((#[trigger] r.rgsw_cts@[j])@)
            == expanded_seeded_rgsw(
            rows(value.rgsw_cts@[j]@),
            drawn_rows(draws, r0 + j * (p.rlrg_d_b * p.rlwe_n), p.rlrg_d_b as int, n),
            p.rlrg_d_a as int,
        )
    &&& r.lwe_ksk@.len() == value.lwe_ksk@.len()
    &&& forall|i: int|
        0 <= i < value.lwe_ksk@.len() ==> (#[trigger] r.lwe_ksk@[i])@ == lwe_ksk_row(
            value.lwe_ksk@,
            draws,
            l0,
            i,
            p.lwe_n as int,
        )
    &&& r.parameters.same(&p)
}

/// The server key with every polynomial row in place.
#[derive(Clone, Debug)]
pub struct ServerKeyEvaluationDomain {
    /// RGSW ciphertexts of the LWE secret's entries.
    pub rgsw_cts: Vec<Vec<Vec<u64>>>,
    /// Key for `g^k` at `k`; the key for `-g` at 0.
    pub galois_keys: HashMap<usize, Vec<Vec<u64>>>,
    /// LWE ciphertexts switching from the RLWE secret to the LWE secret:
    /// `b` in column 0, then the `a` values.
    pub lwe_ksk: Vec<Vec<u64>>,
    pub parameters: BoolParameters,
}

impl ServerKeyEvaluationDomain {
    /// Expands a single-party key. `draws` is what the generator seeded with
    /// `value.seed` yields; it is consumed in this order: the `a`-rows of the
    /// automorphism keys (in the order of `auto_element_dlogs`), the
    /// `RLWE'_A(m)` rows of each RGSW ciphertext, then `n_lwe` values for
    /// each row of the LWE key-switching key.
    pub fn from_single_party(value: &SeededSinglePartyServerKey, draws: &Vec<u64>) -> (r:
        ServerKeyEvaluationDomain)
        requires
            value.wf(),
            single_party_draw_count(*value) <= draws@.len(),
        ensures
            single_party_expansion(*value, draws@, r),
    {
        let p = &value.parameters;
        let (galois_keys, pos) = expand_auto_keys(
            &value.auto_keys,
            &p.auto_element_dlogs,
            p.auto_d,
            p.rlwe_n,
            draws,
            0,
        );
        let (rgsw_cts, pos) = expand_seeded_rgsw_cts(
            &value.rgsw_cts,
            p.rlrg_d_a,
            p.rlrg_d_b,
            p.rlwe_n,
            draws,
            pos,
        );
        let lwe_ksk = expand_lwe_ksk(&value.lwe_ksk, p.lwe_n, draws, pos);
        ServerKeyEvaluationDomain { rgsw_cts, galois_keys, lwe_ksk, parameters: p.duplicate() }
    }

    /// Expands the aggregated key of the interactive protocol: the common
    /// seed's generator (`draws`) gives the `a`-rows of the automorphism keys,
    /// then the `a` values of the LWE key-switching key; the RGSW ciphertexts
    /// are complete already.
    pub fn from_multi_party(value: &SeededMultiPartyServerKey, draws: &Vec<u64>) -> (r:
        ServerKeyEvaluationDomain)
        requires
            value.wf(),
            value.parameters.auto_element_dlogs@.len() * (value.parameters.auto_d
                * value.parameters.rlwe_n) + value.lwe_ksk@.len() * value.parameters.lwe_n
                <= draws@.len(),
        ensures
            ({
                let p = value.parameters;
                let l0 = p.auto_element_dlogs@.len() * (p.auto_d * p.rlwe_n);
                &&& expanded_auto_keys_hold(
                    r.galois_keys@,
                    value.auto_keys@,
                    p.auto_element_dlogs@,
                    draws@,
                    0,
                    p.auto_d as int,
                    p.rlwe_n as int,
                )
                &&& r.rgsw_cts@.len() == value.rgsw_cts@.len()
                &&& forall|j: int|
                    0 <= j < value.rgsw_cts@.len() ==> rows((#[trigger] r.rgsw_cts@[j])@) == rows(
                        value.rgsw_cts@[j]@,
                    )
                &&& r.lwe_ksk@.len() == value.lwe_ksk@.len()
                &&& forall|i: int|
                    0 <= i < value.lwe_ksk@.len() ==> (#[trigger] r.lwe_ksk@[i])@ == lwe_ksk_row(
                        value.lwe_ksk@,
                        draws@,
                        l0,
                        i,
                        p.lwe_n as int,
                    )
                &&& r.parameters.same(&p)
            }),
    {
        let p = &value.parameters;
        let (galois_keys, pos) = expand_auto_keys(
            &value.auto_keys,
            &p.auto_element_dlogs,
            p.auto_d,
            p.rlwe_n,
            draws,
            0,
        );
        let rgsw_cts = copy_cts(&value.rgsw_cts);
        let lwe_ksk = expand_lwe_ksk(&value.lwe_ksk, p.lwe_n, draws, pos);
        ServerKeyEvaluationDomain { rgsw_cts, galois_keys, lwe_ksk, parameters: p.duplicate() }
    }

    pub fn rgsw_cts(&self) -> (r: &Vec<Vec<Vec<u64>>>)
        ensures
            *r == self.rgsw_cts,
    {
        &self.rgsw_cts
    }

    /// The automorphism key held for index `k`, or `MissingKey`.
    pub fn galois_key_for_auto(&self, k: usize) -> (r: Result<&Vec<Vec<u64>>, FheError>)
        ensures
            self.galois_keys@.contains_key(k) <==> r is Ok,
            r matches Ok(key) ==> *key == self.galois_keys@[k],
            r matches Err(e) ==> e == FheError::MissingKey,
    {
        match self.galois_keys.get(&k) {
            Some(key) => Ok(key),
            None => Err(FheError::MissingKey),
        }
    }

    /// The RGSW ciphertext of entry `si` of the LWE secret.
    pub fn rgsw_ct_lwe_si(&self, si: usize) -> (r: &Vec<Vec<u64>>)
        requires
            si < self.rgsw_cts@.len(),
        ensures
            *r == self.rgsw_cts@[si as int],
    {
        &self.rgsw_cts[si]
    }

    pub fn lwe_ksk(&self) -> (r: &Vec<Vec<u64>>)
        ensures
            *r == self.lwe_ksk,
    {
        &self.lwe_ksk
    }
}

/// The aggregated server key of the non-interactive protocol.
#[derive(Clone, Debug)]
pub struct SeededNonInteractiveMultiPartyServerKey {
    /// Parts `b` of the user-to-ideal key-switching keys, in any order.
    pub ui_to_s_ksks: Vec<Vec<Vec<u64>>>,
    /// User `j`'s key is `ui_to_s_ksks[ui_to_s_ksks_key_order[j]]`.
    pub ui_to_s_ksks_key_order: Vec<usize>,
    /// RGSW ciphertexts of the ideal LWE secret's entries.
    pub rgsw_cts: Vec<Vec<Vec<u64>>>,
    pub auto_keys: HashMap<usize, Vec<Vec<u64>>>,
    pub lwe_ksk: Vec<u64>,
    pub cr_seed: Seed,
    pub parameters: BoolParameters,
}

impl SeededNonInteractiveMultiPartyServerKey {
    pub fn new(
        ui_to_s_ksks: Vec<Vec<Vec<u64>>>,
        ui_to_s_ksks_key_order: Vec<usize>,
        rgsw_cts: Vec<Vec<Vec<u64>>>,
        auto_keys: HashMap<usize, Vec<Vec<u64>>>,
        lwe_ksk: Vec<u64>,
        cr_seed: Seed,
        parameters: BoolParameters,
    ) -> (r: SeededNonInteractiveMultiPartyServerKey)
        ensures
            r.ui_to_s_ksks == ui_to_s_ksks,
            r.ui_to_s_ksks_key_order == ui_to_s_ksks_key_order,
            r.rgsw_cts == rgsw_cts,
            r.auto_keys == auto_keys,
            r.lwe_ksk == lwe_ksk,
            r.cr_seed == cr_seed,
            r.parameters == parameters,
    {
        SeededNonInteractiveMultiPartyServerKey {
            ui_to_s_ksks,
            ui_to_s_ksks_key_order,
            rgsw_cts,
            auto_keys,
            lwe_ksk,
            cr_seed,
            parameters,
        }
    }

    /// Some index of `auto_element_dlogs` has no automorphism key.
    pub open spec fn misses_auto_key(&self) -> bool {
        exists|t: int|
            0 <= t < self.parameters.auto_element_dlogs@.len() && !self.auto_keys@.contains_key(
                #[trigger] self.parameters.auto_element_dlogs@[t],
            )
    }

    /// Parts of the declared shapes, and every user's key present.
    pub open spec fn wf(&self) -> bool {
        let p = self.parameters;
        &&& auto_keys_present(self.auto_keys@, p.auto_element_dlogs@, p.auto_d as nat, p.rlwe_n as nat)
        &&& self.lwe_ksk@.len() == p.lwe_d * p.rlwe_n
        &&& forall|j: int|
            0 <= j < self.ui_to_s_ksks_key_order@.len() ==> #[trigger] self.ui_to_s_ksks_key_order@[j]
                < self.ui_to_s_ksks@.len() && dims(
                rows(self.ui_to_s_ksks@[self.ui_to_s_ksks_key_order@[j] as int]@),
                p.ui_to_s_d as nat,
                p.rlwe_n as nat,
            )
    }
}

/// `k` is the expansion of the non-interactive key `value` with the
/// generator outputs `auto_draws`, `lwe_draws` and `user_draws`.
pub open spec fn non_interactive_expansion(
    value: SeededNonInteractiveMultiPartyServerKey,
    auto_draws: Seq<u64>,
    lwe_draws: Seq<u64>,
    user_draws: Seq<Vec<u64>>,
    k: NonInteractiveServerKeyEvaluationDomain,
) -> bool {
    let p = value.parameters;
    let n = p.rlwe_n as int;
    &&& expanded_auto_keys_hold(
        k.auto_keys@,
        value.auto_keys@,
        p.auto_element_dlogs@,
        auto_draws,
        0,
        p.auto_d as int,
        n,
    )
    &&& k.rgsw_cts@.len() == value.rgsw_cts@.len()
    &&& forall|j: int|
        0 <= j < value.rgsw_cts@.len() ==> rows((#[trigger] k.rgsw_cts@[j])@) == rows(
            value.rgsw_cts@[j]@,
        )
    &&& k.lwe_ksk@.len() == value.lwe_ksk@.len()
    &&& forall|i: int|
        0 <= i < value.lwe_ksk@.len() ==> (#[trigger] k.lwe_ksk@[i])@ == lwe_ksk_row(
            value.lwe_ksk@,
            lwe_draws,
            0,
            i,
            p.lwe_n as int,
        )
    &&& k.ui_to_s_ksks@.len() == value.ui_to_s_ksks_key_order@.len()
    &&& forall|j: int|
        0 <= j < value.ui_to_s_ksks_key_order@.len() ==> rows(
            (#[trigger] k.ui_to_s_ksks@[j])@,
        ) == drawn_rows(user_draws[j]@, 0, p.ui_to_s_d as int, n) + rows(
            value.ui_to_s_ksks@[value.ui_to_s_ksks_key_order@[j] as int]@,
        )
    &&& k.parameters.same(&p)
}

/// The non-interactive server key with every polynomial row in place.
#[derive(Clone, Debug)]
pub struct NonInteractiveServerKeyEvaluationDomain {
    /// RGSW ciphertexts of the ideal LWE secret's entries under the ideal
    /// RLWE secret.
    pub rgsw_cts: Vec<Vec<Vec<u64>>>,
    /// Automorphism keys under the ideal RLWE secret.
    pub auto_keys: HashMap<usize, Vec<Vec<u64>>>,
    /// LWE key-switching key.
    pub lwe_ksk: Vec<Vec<u64>>,
    /// User `j`'s key switching from `u_j` to the ideal secret at `j`.
    pub ui_to_s_ksks: Vec<Vec<Vec<u64>>>,
    pub parameters: BoolParameters,
}

impl NonInteractiveServerKeyEvaluationDomain {
    /// Expands a non-interactive key. The common seed yields one generator
    /// per purpose: `auto_draws` for the automorphism keys' `a`-rows (in the
    /// order of `auto_element_dlogs`), `lwe_draws` for the LWE key-switching
    /// key (`n_lwe` values per row), and `user_draws[j]` for the `a`-rows of
    /// user `j`'s key. Fails with `MissingKey` where an automorphism key is
    /// absent and with `InvalidParameter` where a part has the wrong shape or
    /// a user's key is not in `ui_to_s_ksks`.
    pub fn from_seeded(
        value: &SeededNonInteractiveMultiPartyServerKey,
        auto_draws: &Vec<u64>,
        lwe_draws: &Vec<u64>,
        user_draws: &Vec<Vec<u64>>,
    ) -> (r: Result<NonInteractiveServerKeyEvaluationDomain, FheError>)
        requires
            value.parameters.wf(),
            value.parameters.auto_element_dlogs@.len() * (value.parameters.auto_d
                * value.parameters.rlwe_n) <= auto_draws@.len(),
            value.lwe_ksk@.len() * value.parameters.lwe_n <= lwe_draws@.len(),
            user_draws@.len() == value.ui_to_s_ksks_key_order@.len(),
            forall|j: int|
                0 <= j < user_draws@.len() ==> value.parameters.ui_to_s_d * value.parameters.rlwe_n
                    <= (#[trigger] user_draws@[j])@.len(),
        ensures
            value.misses_auto_key() <==> r == Err::<
                NonInteractiveServerKeyEvaluationDomain,
                FheError,
            >(FheError::MissingKey),
            r is Err <==> !value.wf(),
            r matches Err(e) ==> e == FheError::MissingKey || e == FheError::InvalidParameter,
            r matches Ok(k) ==> non_interactive_expansion(
                *value,
                auto_draws@,
                lwe_draws@,
                user_draws@,
                k,
            ),
    {
        let n = value.parameters.rlwe_n;
        let dlogs = &value.parameters.auto_element_dlogs;
        let mut t: usize = 0;
        while t < dlogs.len()
            invariant
                t <= dlogs@.len(),
                dlogs@ == value.parameters.auto_element_dlogs@,
                forall|u: int| 0 <= u < t ==> value.auto_keys@.contains_key(#[trigger] dlogs@[u]),
            decreases dlogs@.len() - t,
        {
            if !value.auto_keys.contains_key(&dlogs[t]) {
                return Err(FheError::MissingKey);
            }
            t += 1;
        }
        let mut t: usize = 0;
        while t < dlogs.len()
            invariant
                t <= dlogs@.len(),
                n == value.parameters.rlwe_n,
                dlogs@ == value.parameters.auto_element_dlogs@,
                !value.misses_auto_key(),
                forall|u: int| 0 <= u < dlogs@.len() ==> value.auto_keys@.contains_key(#[trigger] dlogs@[u]),
                forall|u: int|
                    0 <= u < t ==> dims(
                        rows(value.auto_keys@[#[trigger] dlogs@[u]]@),
                        value.parameters.auto_d as nat,
                        n as nat,
                    ),
            decreases dlogs@.len() - t,
        {
            assert(value.auto_keys@.contains_key(dlogs@[t as int]));
            let k = value.auto_keys.get(&dlogs[t]).unwrap();
            if !has_dims(k, value.parameters.auto_d, n) {
                return Err(FheError::InvalidParameter);
            }
            t += 1;
        }
        proof {
            let a = value.parameters.lwe_d as int;
            let b = n as int;
            assert(a * b <= 0xffff_ffff_ffff_ffff * 0xffff_ffff_ffff_ffff) by (nonlinear_arith)
                requires
                    0 <= a <= 0xffff_ffff_ffff_ffff,
                    0 <= b <= 0xffff_ffff_ffff_ffff,
            ;
        }
        if value.lwe_ksk.len() as u128 != (value.parameters.lwe_d as u128) * (n as u128) {
            return Err(FheError::InvalidParameter);
        }
        let order = &value.ui_to_s_ksks_key_order;
        let mut j: usize = 0;
        while j < order.len()
            invariant
                j <= order@.len(),
                order == &value.ui_to_s_ksks_key_order,
                n == value.parameters.rlwe_n,
                !value.misses_auto_key(),
                auto_keys_present(
                    value.auto_keys@,
                    value.parameters.auto_element_dlogs@,
                    value.parameters.auto_d as nat,
                    n as nat,
                ),
                value.lwe_ksk@.len() == value.parameters.lwe_d * n,
                forall|u: int|
                    0 <= u < j ==> #[trigger] order@[u] < value.ui_to_s_ksks@.len() && dims(
                        rows(value.ui_to_s_ksks@[order@[u] as int]@),
                        value.parameters.ui_to_s_d as nat,
                        n as nat,
                    ),
            decreases order@.len() - j,
        {
            let o = order[j];
            if o >= value.ui_to_s_ksks.len() || !has_dims(&value.ui_to_s_ksks[o], value.parameters.ui_to_s_d, n) {
                assert(!value.wf()) by {
                    if value.wf() {
                        assert(order@[j as int] < value.ui_to_s_ksks@.len());
                    }
                }
                return Err(FheError::InvalidParameter);
            }
            j += 1;
        }
        assert(value.wf());
        let (auto_keys, _pos) = expand_auto_keys(&value.auto_keys, dlogs, value.parameters.auto_d, n, auto_draws, 0);
        let rgsw_cts = copy_cts(&value.rgsw_cts);
        let lwe_ksk = expand_lwe_ksk(&value.lwe_ksk, value.parameters.lwe_n, lwe_draws, 0);
        let d_ui = value.parameters.ui_to_s_d;
        let mut ui_to_s_ksks: Vec<Vec<Vec<u64>>> = Vec::new();
        let mut j: usize = 0;
        while j < order.len()
            invariant
                j <= order@.len(),
                order == &value.ui_to_s_ksks_key_order,
                n == value.parameters.rlwe_n,
                d_ui == value.parameters.ui_to_s_d,
                value.wf(),
                user_draws@.len() == order@.len(),
                forall|u: int|
                    0 <= u < user_draws@.len() ==> value.parameters.ui_to_s_d
                        * value.parameters.rlwe_n <= (#[trigger] user_draws@[u])@.len(),
                ui_to_s_ksks@.len() == j,
                forall|u: int|
                    0 <= u < j ==> rows((#[trigger] ui_to_s_ksks@[u])@) == drawn_rows(
                        user_draws@[u]@,
                        0,
                        d_ui as int,
                        n as int,
                    ) + rows(value.ui_to_s_ksks@[order@[u] as int]@),
            decreases order@.len() - j,
        {
            assert(order@[j as int] < value.ui_to_s_ksks@.len());
            let o = order[j];
            let b = &value.ui_to_s_ksks[o];
            assert(dims(rows(b@), d_ui as nat, n as nat));
            assert(d_ui * n <= user_draws@[j as int]@.len());
            let mut key = draw_rows(&user_draws[j], 0, d_ui, n);
            let mut bs = copy_rows(b, 0, d_ui);
            let ghost x = rows(key@);
            let ghost y = rows(bs@);
            key.append(&mut bs);
            assert(rows(key@) =~= x + y);
            assert(rows(b@).subrange(0, d_ui as int) =~= rows(b@));
            ui_to_s_ksks.push(key);
            j += 1;
        }
        Ok(
            NonInteractiveServerKeyEvaluationDomain {
                rgsw_cts,
                auto_keys,
                lwe_ksk,
                ui_to_s_ksks,
                parameters: value.parameters.duplicate(),
            },
        )
    }
}

/// Every coefficient of every row is reduced modulo `q`.
pub open spec fn all_reduced(m: Seq<Seq<u64>>, q: u64) -> bool {
    forall|i: int| 0 <= i < m.len() ==> reduced_poly(#[trigger] m[i], q)
}

/// The Shoup companion of every coefficient of `m`.
pub open spec fn shoup_matrix(m: Seq<Seq<u64>>, q: u64) -> Seq<Seq<u64>> {
    Seq::new(m.len(), |i: int| Seq::new(m[i].len(), |j: int| shoup_spec(m[i][j], q) as u64))
}

/// A matrix together with the Shoup companions of its coefficients.
#[derive(Clone, Debug)]
pub struct NormalAndShoup {
    pub normal: Vec<Vec<u64>>,
    pub shoup: Vec<Vec<u64>>,
}

impl NormalAndShoup {
    pub fn new_with_modulus(value: Vec<Vec<u64>>, modulus: u64) -> (r: NormalAndShoup)
        requires
            valid_modulus(modulus),
            all_reduced(rows(value@), modulus),
        ensures
            r.normal == value,
            rows(r.shoup@) == shoup_matrix(rows(value@), modulus),
    {
        let mut shoup: Vec<Vec<u64>> = Vec::new();
        let mut i: usize = 0;
        while i < value.len()
            invariant
                valid_modulus(modulus),
                all_reduced(rows(value@), modulus),
                i <= value@.len(),
                rows(shoup@) == shoup_matrix(rows(value@), modulus).take(i as int),
            decreases value@.len() - i,
        {
            let row = &value[i];
            assert(rows(value@)[i as int] == row@);
            let mut out: Vec<u64> = Vec::new();
            let mut j: usize = 0;
            while j < row.len()
                invariant
                    valid_modulus(modulus),
                    reduced_poly(row@, modulus),
                    j <= row@.len(),
                    out@ == Seq::new(row@.len(), |c: int| shoup_spec(row@[c], modulus) as u64).take(
                        j as int,
                    ),
                decreases row@.len() - j,
            {
                let v = to_shoup(row[j], modulus);
                out.push(v);
                j += 1;
                assert(out@ =~= Seq::new(
                    row@.len(),
                    |c: int| shoup_spec(row@[c], modulus) as u64,
                ).take(j as int));
            }
            assert(out@ =~= shoup_matrix(rows(value@), modulus)[i as int]);
            let ghost before = rows(shoup@);
            shoup.push(out);
            assert(rows(shoup@) =~= before.push(out@));
            i += 1;
            assert(rows(shoup@) =~= shoup_matrix(rows(value@), modulus).take(i as int));
        }
        assert(shoup_matrix(rows(value@), modulus).take(value@.len() as int) =~= shoup_matrix(
            rows(value@),
            modulus,
        ));
        NormalAndShoup { normal: value, shoup }
    }

    pub fn as_ref(&self) -> (r: &Vec<Vec<u64>>)
        ensures
            *r == self.normal,
    {
        &self.normal
    }

    pub fn shoup_repr(&self) -> (r: &Vec<Vec<u64>>)
        ensures
            *r == self.shoup,
    {
        &self.shoup
    }
}

/// Each matrix of `cts` paired with its Shoup companions.
fn shoup_all(cts: Vec<Vec<Vec<u64>>>, q: u64) -> (r: Vec<NormalAndShoup>)
    requires
        valid_modulus(q),
        forall|j: int| 0 <= j < cts@.len() ==> all_reduced(rows((#[trigger] cts@[j])@), q),
    ensures
        r@.len() == cts@.len(),
        forall|j: int|
            0 <= j < cts@.len() ==> rows((#[trigger] r@[j]).normal@) == rows(cts@[j]@) && rows(r@[j].shoup@)
                == shoup_matrix(rows(cts@[j]@), q),
{
    let mut out: Vec<NormalAndShoup> = Vec::new();
    let mut j: usize = 0;
    while j < cts.len()
        invariant
            valid_modulus(q),
            forall|u: int| 0 <= u < cts@.len() ==> all_reduced(rows((#[trigger] cts@[u])@), q),
            j <= cts@.len(),
            out@.len() == j,
            forall|u: int|
                0 <= u < j ==> rows((#[trigger] out@[u]).normal@) == rows(cts@[u]@) && rows(out@[u].shoup@)
                    == shoup_matrix(rows(cts@[u]@), q),
        decreases cts@.len() - j,
    {
        let c = cts[j].clone();
        assert(rows(c@) == rows(cts@[j as int]@)) by {
            assert(rows(c@) =~= rows(cts@[j as int]@));
        }
        let ns = NormalAndShoup::new_with_modulus(c, q);
        out.push(ns);
        j += 1;
    }
    out
}

/// The keys named by `dlogs` that `keys` holds, each paired with its Shoup
/// companions.
fn shoup_auto_keys(keys: &HashMap<usize, Vec<Vec<u64>>>, dlogs: &Vec<usize>, q: u64) -> (r:
    HashMap<usize, NormalAndShoup>)
    requires
        valid_modulus(q),
        forall|k: usize| #[trigger] keys@.contains_key(k) ==> all_reduced(rows(keys@[k]@), q),
    ensures
        forall|k: usize|
            #[trigger] r@.contains_key(k) <==> keys@.contains_key(k) && dlogs@.contains(k),
        forall|k: usize|
            #[trigger] r@.contains_key(k) ==> rows(r@[k].normal@) == rows(keys@[k]@) && rows(
                r@[k].shoup@,
            ) == shoup_matrix(rows(keys@[k]@), q),
{
    let mut out: HashMap<usize, NormalAndShoup> = HashMap::new();
    let mut t: usize = 0;
    while t < dlogs.len()
        invariant
            valid_modulus(q),
            forall|k: usize| #[trigger] keys@.contains_key(k) ==> all_reduced(rows(keys@[k]@), q),
            t <= dlogs@.len(),
            forall|k: usize|
                #[trigger] out@.contains_key(k) <==> keys@.contains_key(k) && dlogs@.subrange(
                    0,
                    t as int,
                ).contains(k),
            forall|k: usize|
                #[trigger] out@.contains_key(k) ==> rows(out@[k].normal@) == rows(keys@[k]@) && rows(
                    out@[k].shoup@,
                ) == shoup_matrix(rows(keys@[k]@), q),
        decreases dlogs@.len() - t,
    {
        let k = dlogs[t];
        let ghost before = out@;
        match keys.get(&k) {
            Some(m) => {
                let len = m.len();
                let c = copy_rows(m, 0, len);
                assert(rows(m@).subrange(0, len as int) =~= rows(m@));
                let ns = NormalAndShoup::new_with_modulus(c, q);
                out.insert(k, ns);
            },
            None => {},
        }
        proof {
            assert forall|kk: usize| #[trigger] out@.contains_key(kk) <==> keys@.contains_key(kk)
                && dlogs@.subrange(0, t + 1).contains(kk) by {
                if dlogs@.subrange(0, t + 1).contains(kk) && kk != k {
                    let w = choose|w: int| 0 <= w < t + 1 && #[trigger] dlogs@.subrange(0, t + 1)[w] == kk;
                    assert(dlogs@.subrange(0, t as int)[w] == kk);
                }
                if dlogs@.subrange(0, t as int).contains(kk) {
                    let w = choose|w: int| 0 <= w < t && #[trigger] dlogs@.subrange(0, t as int)[w] == kk;
                    assert(dlogs@.subrange(0, t + 1)[w] == kk);
                }
                if kk == k {
                    assert(dlogs@.subrange(0, t + 1)[t as int] == k);
                }
            }
        }
        t += 1;
    }
    assert(dlogs@.subrange(0, dlogs@.len() as int) =~= dlogs@);
    out
}

/// Every polynomial row of the key is reduced modulo `rlwe_q`.
pub open spec fn server_key_reduced(k: ServerKeyEvaluationDomain) -> bool {
    let q = k.parameters.rlwe_q;
    &&& forall|j: int| 0 <= j < k.rgsw_cts@.len() ==> all_reduced(rows((#[trigger] k.rgsw_cts@[j])@), q)
    &&& forall|kk: usize|
        #[trigger] k.galois_keys@.contains_key(kk) ==> all_reduced(rows(k.galois_keys@[kk]@), q)
}

/// The server key with the Shoup companions of its RGSW ciphertexts and
/// automorphism keys; the LWE key-switching key is kept as it is.
#[derive(Clone, Debug)]
pub struct ShoupServerKeyEvaluationDomain {
    pub rgsw_cts: Vec<NormalAndShoup>,
    pub galois_keys: HashMap<usize, NormalAndShoup>,
    pub lwe_ksk: Vec<Vec<u64>>,
}

impl ShoupServerKeyEvaluationDomain {
    /// Adds the Shoup companions modulo `rlwe_q` to the key's RGSW
    /// ciphertexts and to its automorphism keys for `auto_element_dlogs`.
    pub fn from_key(value: ServerKeyEvaluationDomain) -> (r: ShoupServerKeyEvaluationDomain)
        requires
            valid_modulus(value.parameters.rlwe_q),
            server_key_reduced(value),
        ensures
            r.rgsw_cts@.len() == value.rgsw_cts@.len(),
            forall|j: int|
                0 <= j < value.rgsw_cts@.len() ==> rows((#[trigger] r.rgsw_cts@[j]).normal@)
                    == rows(value.rgsw_cts@[j]@) && rows(r.rgsw_cts@[j].shoup@) == shoup_matrix(
                    rows(value.rgsw_cts@[j]@),
                    value.parameters.rlwe_q,
                ),
            forall|k: usize|
                #[trigger] r.galois_keys@.contains_key(k) <==> value.galois_keys@.contains_key(k)
                    && value.parameters.auto_element_dlogs@.contains(k),
            forall|k: usize|
                #[trigger] r.galois_keys@.contains_key(k) ==> rows(r.galois_keys@[k].normal@)
                    == rows(value.galois_keys@[k]@) && rows(r.galois_keys@[k].shoup@)
                    == shoup_matrix(rows(value.galois_keys@[k]@), value.parameters.rlwe_q),
            r.lwe_ksk == value.lwe_ksk,
    {
        let q = value.parameters.rlwe_q;
        let galois_keys = shoup_auto_keys(
            &value.galois_keys,
            &value.parameters.auto_element_dlogs,
            q,
        );
        let ServerKeyEvaluationDomain { rgsw_cts, galois_keys: _, lwe_ksk, parameters: _ } = value;
        let rgsw_cts = shoup_all(rgsw_cts, q);
        ShoupServerKeyEvaluationDomain { rgsw_cts, galois_keys, lwe_ksk }
    }

    /// The automorphism key held for index `k`, or `MissingKey`.
    pub fn galois_key_for_auto(&self, k: usize) -> (r: Result<&NormalAndShoup, FheError>)
        ensures
            self.galois_keys@.contains_key(k) <==> r is Ok,
            r matches Ok(key) ==> *key == self.galois_keys@[k],
            r matches Err(e) ==> e == FheError::MissingKey,
    {
        match self.galois_keys.get(&k) {
            Some(key) => Ok(key),
            None => Err(FheError::MissingKey),
        }
    }

    pub fn rgsw_ct_lwe_si(&self, si: usize) -> (r: &NormalAndShoup)
        requires
            si < self.rgsw_cts@.len(),
        ensures
            *r == self.rgsw_cts@[si as int],
    {
        &self.rgsw_cts[si]
    }

    pub fn lwe_ksk(&self) -> (r: &Vec<Vec<u64>>)
        ensures
            *r == self.lwe_ksk,
    {
        &self.lwe_ksk
    }
}

/// Every polynomial row of the key is reduced modulo `rlwe_q`.
pub open spec fn non_interactive_key_reduced(k: NonInteractiveServerKeyEvaluationDomain) -> bool {
    let q = k.parameters.rlwe_q;
    &&& forall|j: int| 0 <= j < k.rgsw_cts@.len() ==> all_reduced(rows((#[trigger] k.rgsw_cts@[j])@), q)
    &&& forall|j: int|
        0 <= j < k.ui_to_s_ksks@.len() ==> all_reduced(rows((#[trigger] k.ui_to_s_ksks@[j])@), q)
    &&& forall|kk: usize|
        #[trigger] k.auto_keys@.contains_key(kk) ==> all_reduced(rows(k.auto_keys@[kk]@), q)
}

/// The non-interactive server key with Shoup companions of its RGSW
/// ciphertexts, automorphism keys and user-to-ideal keys.
#[derive(Clone, Debug)]
pub struct ShoupNonInteractiveServerKeyEvaluationDomain {
    pub rgsw_cts: Vec<NormalAndShoup>,
    pub auto_keys: HashMap<usize, NormalAndShoup>,
    pub lwe_ksk: Vec<Vec<u64>>,
    pub ui_to_s_ksks: Vec<NormalAndShoup>,
}

impl ShoupNonInteractiveServerKeyEvaluationDomain {
    /// Adds the Shoup companions modulo `rlwe_q`.
    pub fn from_key(value: NonInteractiveServerKeyEvaluationDomain) -> (r:
        ShoupNonInteractiveServerKeyEvaluationDomain)
        requires
            valid_modulus(value.parameters.rlwe_q),
            non_interactive_key_reduced(value),
        ensures
            r.rgsw_cts@.len() == value.rgsw_cts@.len(),
            forall|j: int|
                0 <= j < value.rgsw_cts@.len() ==> rows((#[trigger] r.rgsw_cts@[j]).normal@)
                    == rows(value.rgsw_cts@[j]@) && rows(r.rgsw_cts@[j].shoup@) == shoup_matrix(
                    rows(value.rgsw_cts@[j]@),
                    value.parameters.rlwe_q,
                ),
            r.ui_to_s_ksks@.len() == value.ui_to_s_ksks@.len(),
            forall|j: int|
                0 <= j < value.ui_to_s_ksks@.len() ==> rows((#[trigger] r.ui_to_s_ksks@[j]).normal@)
                    == rows(value.ui_to_s_ksks@[j]@) && rows(r.ui_to_s_ksks@[j].shoup@) == shoup_matrix(
                    rows(value.ui_to_s_ksks@[j]@),
                    value.parameters.rlwe_q,
                ),
            forall|k: usize|
                #[trigger] r.auto_keys@.contains_key(k) <==> value.auto_keys@.contains_key(k)
                    && value.parameters.auto_element_dlogs@.contains(k),
            forall|k: usize|
                #[trigger] r.auto_keys@.contains_key(k) ==> rows(r.auto_keys@[k].normal@) == rows(
                    value.auto_keys@[k]@,
                ) && rows(r.auto_keys@[k].shoup@) == shoup_matrix(
                    rows(value.auto_keys@[k]@),
                    value.parameters.rlwe_q,
                ),
            r.lwe_ksk == value.lwe_ksk,
    {
        let q = value.parameters.rlwe_q;
        let auto_keys = shoup_auto_keys(&value.auto_keys, &value.parameters.auto_element_dlogs, q);
        let NonInteractiveServerKeyEvaluationDomain {
            rgsw_cts,
            auto_keys: _,
            lwe_ksk,
            ui_to_s_ksks,
            parameters: _,
        } = value;
        let rgsw_cts = shoup_all(rgsw_cts, q);
        let ui_to_s_ksks = shoup_all(ui_to_s_ksks, q);
        ShoupNonInteractiveServerKeyEvaluationDomain { rgsw_cts, auto_keys, lwe_ksk, ui_to_s_ksks }
    }

    /// The automorphism key held for index `k`, or `MissingKey`.
    pub fn galois_key_for_auto(&self, k: usize) -> (r: Result<&NormalAndShoup, FheError>)
        ensures
            self.auto_keys@.contains_key(k) <==> r is Ok,
            r matches Ok(key) ==> *key == self.auto_keys@[k],
            r matches Err(e) ==> e == FheError::MissingKey,
    {
        match self.auto_keys.get(&k) {
            Some(key) => Ok(key),
            None => Err(FheError::MissingKey),
        }
    }

    pub fn rgsw_ct_lwe_si(&self, si: usize) -> (r: &NormalAndShoup)
        requires
            si < self.rgsw_cts@.len(),
        ensures
            *r == self.rgsw_cts@[si as int],
    {
        &self.rgsw_cts[si]
    }

    pub fn lwe_ksk(&self) -> (r: &Vec<Vec<u64>>)
        ensures
            *r == self.lwe_ksk,
    {
        &self.lwe_ksk
    }
}

/// Expansion is deterministic: two expansions of the same seeded key with the
/// same generator output hold the same automorphism keys, RGSW ciphertexts
/// and LWE key-switching key, row for row.
pub proof fn lemma_expansion_deterministic(
    value: SeededSinglePartyServerKey,
    draws: Seq<u64>,
    r1: ServerKeyEvaluationDomain,
    r2: ServerKeyEvaluationDomain,
)
    requires
        single_party_expansion(value, draws, r1),
        single_party_expansion(value, draws, r2),
    ensures
        forall|k: usize|
            #[trigger] r1.galois_keys@.contains_key(k) <==> r2.galois_keys@.contains_key(k),
        forall|k: usize|
            #[trigger] r1.galois_keys@.contains_key(k) ==> rows(r1.galois_keys@[k]@) == rows(
                r2.galois_keys@[k]@,
            ),
        r1.rgsw_cts@.len() == r2.rgsw_cts@.len(),
        forall|j: int|
            0 <= j < r1.rgsw_cts@.len() ==> rows((#[trigger] r1.rgsw_cts@[j])@) == rows(
                r2.rgsw_cts@[j]@,
            ),
        r1.lwe_ksk@.len() == r2.lwe_ksk@.len(),
        forall|i: int| 0 <= i < r1.lwe_ksk@.len() ==> (#[trigger] r1.lwe_ksk@[i])@ == r2.lwe_ksk@[i]@,
{
    let dlogs = value.parameters.auto_element_dlogs@;
    assert forall|k: usize| #[trigger] r1.galois_keys@.contains_key(k) implies r2.galois_keys@.contains_key(k)
        && rows(r1.galois_keys@[k]@) == rows(r2.galois_keys@[k]@) by {
        let t = choose|t: int| 0 <= t < dlogs.len() && dlogs[t] == k;
        assert(dlogs[t] == k);
    }
    assert forall|k: usize| #[trigger] r2.galois_keys@.contains_key(k) implies r1.galois_keys@.contains_key(k) by {
        let t = choose|t: int| 0 <= t < dlogs.len() && dlogs[t] == k;
        assert(dlogs[t] == k);
    }
    assert forall|j: int| 0 <= j < r1.rgsw_cts@.len() implies rows((#[trigger] r1.rgsw_cts@[j])@)
        == rows(r2.rgsw_cts@[j]@) by {
        assert(rows(r2.rgsw_cts@[j]@) == rows(r2.rgsw_cts@[j]@));
    }
    assert forall|i: int| 0 <= i < r1.lwe_ksk@.len() implies (#[trigger] r1.lwe_ksk@[i])@
        == r2.lwe_ksk@[i]@ by {
        assert(r2.lwe_ksk@[i]@ == r2.lwe_ksk@[i]@);
    }
}

/// Summing the first `i` shares looks at nothing but the first `i` shares.
proof fn lemma_sum_prefix(s1: Seq<Seq<u64>>, s2: Seq<Seq<u64>>, i: int, n: nat, q: u64)
    requires
        0 <= i <= s1.len(),
        i <= s2.len(),
        forall|t: int| 0 <= t < i ==> #[trigger] s1[t] == s2[t],
    ensures
        sum_shares(s1, i, n, q) == sum_shares(s2, i, n, q),
    decreases i,
{
    if i > 0 {
        lemma_sum_prefix(s1, s2, i - 1, n, q);
    }
}

/// Adding `a` then `b` equals adding `b` then `a`.
proof fn lemma_add_swap(x: Seq<u64>, a: Seq<u64>, b: Seq<u64>, q: u64)
    requires
        valid_modulus(q),
        a.len() >= x.len(),
        b.len() >= x.len(),
        reduced_poly(a, q),
        reduced_poly(b, q),
    ensures
        poly_add(poly_add(x, a, q), b, q) == poly_add(poly_add(x, b, q), a, q),
{
    let l = poly_add(poly_add(x, a, q), b, q);
    let r = poly_add(poly_add(x, b, q), a, q);
    assert forall|i: int| 0 <= i < x.len() implies #[trigger] l[i] == r[i] by {
        let qi = q as int;
        vstd::arithmetic::div_mod::lemma_mod_bound(x[i] + a[i], qi);
        vstd::arithmetic::div_mod::lemma_mod_bound(x[i] + b[i], qi);
        vstd::arithmetic::div_mod::lemma_add_mod_noop(x[i] + a[i], b[i] as int, qi);
        vstd::arithmetic::div_mod::lemma_add_mod_noop(x[i] + b[i], a[i] as int, qi);
        vstd::arithmetic::div_mod::lemma_mod_twice(x[i] + a[i], qi);
        vstd::arithmetic::div_mod::lemma_mod_twice(x[i] + b[i], qi);
        vstd::arithmetic::div_mod::lemma_small_mod(a[i] as nat, qi as nat);
        vstd::arithmetic::div_mod::lemma_small_mod(b[i] as nat, qi as nat);
        assert(x[i] + a[i] + b[i] == x[i] + b[i] + a[i]);
    }
    assert(l =~= r);
}

/// Aggregation does not depend on the order of the shares: exchanging two
/// neighbouring shares leaves the sum of all shares unchanged (every
/// reordering is a sequence of such exchanges).
pub proof fn lemma_aggregation_order_invariant(shares: Seq<Seq<u64>>, k: int, n: nat, q: u64)
    requires
        valid_modulus(q),
        0 <= k,
        k + 1 < shares.len(),
        forall|t: int| 0 <= t < shares.len() ==> reduced_poly(#[trigger] shares[t], q),
        forall|t: int| 0 <= t < shares.len() ==> (#[trigger] shares[t]).len() == n,
    ensures
        sum_shares(shares.update(k, shares[k + 1]).update(k + 1, shares[k]), shares.len() as int, n, q)
            == sum_shares(shares, shares.len() as int, n, q),
{
    let sw = shares.update(k, shares[k + 1]).update(k + 1, shares[k]);
    lemma_sum_prefix(sw, shares, k, n, q);
    lemma_sum_len(shares, k, n, q);
    lemma_add_swap(sum_shares(shares, k, n, q), shares[k], shares[k + 1], q);
    assert(sw[k] == shares[k + 1] && sw[k + 1] == shares[k]);
    assert(sum_shares(sw, k + 1, n, q) == poly_add(sum_shares(shares, k, n, q), shares[k + 1], q));
    assert(sum_shares(sw, k + 2, n, q) == poly_add(sum_shares(sw, k + 1, n, q), shares[k], q));
    assert(sum_shares(shares, k + 2, n, q) == poly_add(
        sum_shares(shares, k + 1, n, q),
        shares[k + 1],
        q,
    ));
    assert(sum_shares(sw, k + 2, n, q) == sum_shares(shares, k + 2, n, q));
    lemma_sum_suffix(sw, shares, k + 2, shares.len() as int, n, q);
}

/// The sum of shares has `n` coefficients.
proof fn lemma_sum_len(shares: Seq<Seq<u64>>, i: int, n: nat, q: u64)
    requires
        0 <= i <= shares.len(),
    ensures
        sum_shares(shares, i, n, q).len() == n,
    decreases i,
{
    if i > 0 {
        lemma_sum_len(shares, i - 1, n, q);
    }
}

/// Sums that agree at `i` agree from there on where the shares agree.
proof fn lemma_sum_suffix(s1: Seq<Seq<u64>>, s2: Seq<Seq<u64>>, i: int, j: int, n: nat, q: u64)
    requires
        0 <= i <= j <= s1.len(),
        s1.len() == s2.len(),
        sum_shares(s1, i, n, q) == sum_shares(s2, i, n, q),
        forall|t: int| i <= t < j ==> #[trigger] s1[t] == s2[t],
    ensures
        sum_shares(s1, j, n, q) == sum_shares(s2, j, n, q),
    decreases j - i,
{
    if j > i {
        lemma_sum_suffix(s1, s2, i, j - 1, n, q);
    }
}

/// The rows of each matrix.
pub open spec fn cts_rows(v: Seq<Vec<Vec<u64>>>) -> Seq<Seq<Seq<u64>>> {
    Seq::new(v.len(), |j: int| rows(v[j]@))
}

/// Row-wise sum modulo `q` of the first `i` matrices, from `r` zero rows of
/// `n` coefficients.
pub open spec fn sum_matrices(ms: Seq<Seq<Seq<u64>>>, i: int, r: nat, n: nat, q: u64) -> Seq<
    Seq<u64>,
>
    decreases i,
{
    if i <= 0 {
        crate::rgsw::zero_matrix(r, n)
    } else {
        Seq::new(r, |j: int| poly_add(sum_matrices(ms, i - 1, r, n, q)[j], ms[i - 1][j], q))
    }
}

/// The RGSW ciphertexts of the first `i` shares, one share after the other.
pub open spec fn concat_cts(
    shares: Seq<CommonReferenceSeededMultiPartyServerKeyShare>,
    i: int,
) -> Seq<Seq<Seq<u64>>>
    decreases i,
{
    if i <= 0 {
        Seq::empty()
    } else {
        concat_cts(shares, i - 1) + cts_rows(shares[i - 1].rgsw_cts_spec()@)
    }
}

/// Every share names the seed and parameters of the first.
pub open spec fn server_key_shares_consistent(
    shares: Seq<CommonReferenceSeededMultiPartyServerKeyShare>,
) -> bool {
    forall|i: int|
        0 <= i < shares.len() ==> (#[trigger] shares[i]).cr_seed_spec()@ == shares[0].cr_seed_spec()@
            && shares[i].parameters_spec().same(&shares[0].parameters_spec())
}

/// Some share has no automorphism key for some index of `dlogs`.
pub open spec fn server_key_shares_miss_key(
    shares: Seq<CommonReferenceSeededMultiPartyServerKeyShare>,
    dlogs: Seq<usize>,
) -> bool {
    exists|i: int, t: int|
        0 <= i < shares.len() && 0 <= t < dlogs.len() && !(#[trigger] shares[i]).auto_keys_spec()@.contains_key(
            #[trigger] dlogs[t],
        )
}

/// Every share's parts `b` have the declared shapes and are reduced.
pub open spec fn server_key_shares_fit(
    shares: Seq<CommonReferenceSeededMultiPartyServerKeyShare>,
    p: BoolParameters,
) -> bool {
    forall|i: int|
        0 <= i < shares.len() ==> {
            &&& forall|t: int|
                0 <= t < p.auto_element_dlogs@.len() ==> dims(
                    rows((#[trigger] shares[i]).auto_keys_spec()@[p.auto_element_dlogs@[t]]@),
                    p.auto_d as nat,
                    p.rlwe_n as nat,
                ) && all_reduced(
                    rows(shares[i].auto_keys_spec()@[p.auto_element_dlogs@[t]]@),
                    p.rlwe_q,
                )
            &&& (#[trigger] shares[i]).lwe_ksk_spec()@.len() == p.lwe_d * p.rlwe_n
            &&& reduced_poly(shares[i].lwe_ksk_spec()@, p.lwe_q)
        }
}

/// Whether every row of `m` is reduced modulo `q`.
fn rows_reduced(m: &Vec<Vec<u64>>, q: u64) -> (b: bool)
    ensures
        b == all_reduced(rows(m@), q),
{
    let mut i: usize = 0;
    while i < m.len()
        invariant
            i <= m@.len(),
            forall|t: int| 0 <= t < i ==> reduced_poly(#[trigger] rows(m@)[t], q),
        decreases m@.len() - i,
    {
        assert(rows(m@)[i as int] == m@[i as int]@);
        if !poly_reduced(&m[i], q) {
            return false;
        }
        i += 1;
    }
    true
}

/// Whether every coefficient of `p` is below `q`.
fn poly_reduced(p: &Vec<u64>, q: u64) -> (b: bool)
    ensures
        b == reduced_poly(p@, q),
{
    let mut j: usize = 0;
    while j < p.len()
        invariant
            j <= p@.len(),
            forall|c: int| 0 <= c < j ==> p@[c] < q,
        decreases p@.len() - j,
    {
        if p[j] >= q {
            return false;
        }
        j += 1;
    }
    true
}

/// `acc += m` row by row.
fn add_rows_assign(acc: &mut Vec<Vec<u64>>, m: &Vec<Vec<u64>>, q: u64)
    requires
        valid_modulus(q),
        old(acc)@.len() == m@.len(),
        forall|j: int| 0 <= j < m@.len() ==> (#[trigger] rows(old(acc)@)[j]).len() == rows(m@)[j].len(),
        all_reduced(rows(old(acc)@), q),
        all_reduced(rows(m@), q),
    ensures
        rows(final(acc)@) == Seq::new(
            m@.len(),
            |j: int| poly_add(rows(old(acc)@)[j], rows(m@)[j], q),
        ),
        all_reduced(rows(final(acc)@), q),
{
    let ghost want = Seq::new(m@.len(), |j: int| poly_add(rows(old(acc)@)[j], rows(m@)[j], q));
    let mut j: usize = 0;
    while j < m.len()
        invariant
            valid_modulus(q),
            acc@.len() == m@.len(),
            want == Seq::new(m@.len(), |j: int| poly_add(rows(old(acc)@)[j], rows(m@)[j], q)),
            forall|t: int| 0 <= t < m@.len() ==> (#[trigger] rows(old(acc)@)[t]).len() == rows(m@)[t].len(),
            all_reduced(rows(old(acc)@), q),
            all_reduced(rows(m@), q),
            j <= m@.len(),
            forall|t: int| 0 <= t < j ==> #[trigger] rows(acc@)[t] == want[t],
            forall|t: int| j <= t < m@.len() ==> #[trigger] rows(acc@)[t] == rows(old(acc)@)[t],
            all_reduced(rows(acc@), q),
        decreases m@.len() - j,
    {
        assert(rows(acc@)[j as int] == rows(old(acc)@)[j as int]);
        assert(reduced_poly(rows(m@)[j as int], q));
        let mut row = acc[j].clone();
        poly_add_assign(&mut row, &m[j], q);
        let ghost before = rows(acc@);
        acc.set(j, row);
        assert(rows(acc@) =~= before.update(j as int, row@));
        j += 1;
    }
    assert(rows(acc@) =~= want);
}

impl SeededMultiPartyServerKey {
    /// Aggregates the parties' server key shares: the RGSW ciphertexts are
    /// concatenated in share order (the ideal LWE secret is the concatenation
    /// of the parties' secrets), the automorphism keys and the LWE
    /// key-switching key are summed. Fails with `InconsistentShares` where
    /// the shares disagree on seed or parameters, with `MissingKey` where a
    /// share lacks an automorphism key, and with `InvalidParameter` where a
    /// part has the wrong shape or is not reduced.
    pub fn from_shares(shares: &Vec<CommonReferenceSeededMultiPartyServerKeyShare>) -> (r: Result<
        SeededMultiPartyServerKey,
        FheError,
    >)
        requires
            shares@.len() > 0,
            shares@[0].parameters_spec().wf(),
        ensures
            !server_key_shares_consistent(shares@) <==> r == Err::<
                SeededMultiPartyServerKey,
                FheError,
            >(FheError::InconsistentShares),
            server_key_shares_consistent(shares@) && server_key_shares_miss_key(
                shares@,
                shares@[0].parameters_spec().auto_element_dlogs@,
            ) <==> r == Err::<SeededMultiPartyServerKey, FheError>(FheError::MissingKey),
            server_key_shares_consistent(shares@) && !server_key_shares_miss_key(
                shares@,
                shares@[0].parameters_spec().auto_element_dlogs@,
            ) && !server_key_shares_fit(shares@, shares@[0].parameters_spec()) <==> r == Err::<
                SeededMultiPartyServerKey,
                FheError,
            >(FheError::InvalidParameter),
            r matches Ok(k) ==> {
                let p = shares@[0].parameters_spec();
                let dl = p.auto_element_dlogs@;
                &&& cts_rows(k.rgsw_cts@) == concat_cts(shares@, shares@.len() as int)
                &&& forall|t: int|
                    0 <= t < dl.len() ==> k.auto_keys@.contains_key(#[trigger] dl[t]) && rows(
                        k.auto_keys@[dl[t]]@,
                    ) == sum_matrices(
                        Seq::new(
                            shares@.len(),
                            |i: int| rows(shares@[i].auto_keys_spec()@[dl[t]]@),
                        ),
                        shares@.len() as int,
                        p.auto_d as nat,
                        p.rlwe_n as nat,
                        p.rlwe_q,
                    )
                &&& forall|k2: usize| #[trigger] k.auto_keys@.contains_key(k2) ==> dl.contains(k2)
                &&& k.lwe_ksk@ == sum_shares(
                    Seq::new(shares@.len(), |i: int| shares@[i].lwe_ksk_spec()@),
                    shares@.len() as int,
                    (p.lwe_d * p.rlwe_n) as nat,
                    p.lwe_q,
                )
                &&& k.cr_seed == shares@[0].cr_seed_spec()
                &&& k.parameters.same(&p)
            },
    {
        let first = &shares[0];
        let p = first.parameters();
        let mut i: usize = 0;
        while i < shares.len()
            invariant
                first == &shares@[0],
                *p == shares@[0].parameters_spec(),
                i <= shares@.len(),
                forall|t: int|
                    0 <= t < i ==> (#[trigger] shares@[t]).cr_seed_spec()@
                        == shares@[0].cr_seed_spec()@ && shares@[t].parameters_spec().same(
                        &shares@[0].parameters_spec(),
                    ),
            decreases shares@.len() - i,
        {
            if !seeds_equal(shares[i].cr_seed(), first.cr_seed()) || !shares[i].parameters().equals(p) {
                return Err(FheError::InconsistentShares);
            }
            i += 1;
        }
        let dlogs = &p.auto_element_dlogs;
        let n = p.rlwe_n;
        let mut i: usize = 0;
        while i < shares.len()
            invariant
                *p == shares@[0].parameters_spec(),
                dlogs@ == p.auto_element_dlogs@,
                server_key_shares_consistent(shares@),
                i <= shares@.len(),
                forall|u: int, t: int|
                    0 <= u < i && 0 <= t < dlogs@.len() ==> (#[trigger] shares@[u]).auto_keys_spec()@.contains_key(
                        #[trigger] dlogs@[t],
                    ),
            decreases shares@.len() - i,
        {
            let keys = shares[i].auto_keys();
            let mut t: usize = 0;
            while t < dlogs.len()
                invariant
                    *p == shares@[0].parameters_spec(),
                    dlogs@ == p.auto_element_dlogs@,
                    server_key_shares_consistent(shares@),
                    i < shares@.len(),
                    *keys == shares@[i as int].auto_keys_spec(),
                    t <= dlogs@.len(),
                    forall|u: int, t2: int|
                        0 <= u < i && 0 <= t2 < dlogs@.len() ==> (#[trigger] shares@[u]).auto_keys_spec()@.contains_key(
                            #[trigger] dlogs@[t2],
                        ),
                    forall|t2: int| 0 <= t2 < t ==> keys@.contains_key(#[trigger] dlogs@[t2]),
                decreases dlogs@.len() - t,
            {
                if !keys.contains_key(&dlogs[t]) {
                    assert(server_key_shares_miss_key(shares@, dlogs@)) by {
                        assert(!shares@[i as int].auto_keys_spec()@.contains_key(dlogs@[t as int]));
                    }
                    return Err(FheError::MissingKey);
                }
                t += 1;
            }
            i += 1;
        }
        assert(!server_key_shares_miss_key(shares@, dlogs@));
        let mut i: usize = 0;
        while i < shares.len()
            invariant
                *p == shares@[0].parameters_spec(),
                dlogs@ == p.auto_element_dlogs@,
                n == p.rlwe_n,
                server_key_shares_consistent(shares@),
                !server_key_shares_miss_key(shares@, dlogs@),
                i <= shares@.len(),
                forall|u: int| 0 <= u < i ==> {
                    &&& forall|t: int|
                        0 <= t < p.auto_element_dlogs@.len() ==> dims(
                            rows((#[trigger] shares@[u]).auto_keys_spec()@[p.auto_element_dlogs@[t]]@),
                            p.auto_d as nat,
                            p.rlwe_n as nat,
                        ) && all_reduced(
                            rows(shares@[u].auto_keys_spec()@[p.auto_element_dlogs@[t]]@),
                            p.rlwe_q,
                        )
                    &&& (#[trigger] shares@[u]).lwe_ksk_spec()@.len() == p.lwe_d * p.rlwe_n
                    &&& reduced_poly(shares@[u].lwe_ksk_spec()@, p.lwe_q)
                },
            decreases shares@.len() - i,
        {
            let keys = shares[i].auto_keys();
            let mut t: usize = 0;
            while t < dlogs.len()
                invariant
                    *p == shares@[0].parameters_spec(),
                    dlogs@ == p.auto_element_dlogs@,
                    n == p.rlwe_n,
                    server_key_shares_consistent(shares@),
                    !server_key_shares_miss_key(shares@, dlogs@),
                    i < shares@.len(),
                    *keys == shares@[i as int].auto_keys_spec(),
                    t <= dlogs@.len(),
                    forall|t2: int|
                        0 <= t2 < t ==> dims(
                            rows(keys@[#[trigger] dlogs@[t2]]@),
                            p.auto_d as nat,
                            n as nat,
                        ) && all_reduced(rows(keys@[dlogs@[t2]]@), p.rlwe_q),
                decreases dlogs@.len() - t,
            {
                assert(keys@.contains_key(dlogs@[t as int]));
                let m = keys.get(&dlogs[t]).unwrap();
                if !has_dims(m, p.auto_d, n) || !rows_reduced(m, p.rlwe_q) {
                    assert(!server_key_shares_fit(shares@, shares@[0].parameters_spec())) by {
                        assert(shares@[i as int].auto_keys_spec()@[dlogs@[t as int]] == *m);
                    }
                    return Err(FheError::InvalidParameter);
                }
                t += 1;
            }
            let b = shares[i].lwe_ksk();
            proof {
                let a = p.lwe_d as int;
                let bb = n as int;
                assert(a * bb <= 0xffff_ffff_ffff_ffff * 0xffff_ffff_ffff_ffff) by (nonlinear_arith)
                    requires
                        0 <= a <= 0xffff_ffff_ffff_ffff,
                        0 <= bb <= 0xffff_ffff_ffff_ffff,
                ;
            }
            if b.len() as u128 != (p.lwe_d as u128) * (n as u128) || !poly_reduced(b, p.lwe_q) {
                assert(!server_key_shares_fit(shares@, shares@[0].parameters_spec())) by {
                    assert(shares@[i as int].lwe_ksk_spec() == *b);
                }
                return Err(FheError::InvalidParameter);
            }
            i += 1;
        }
        assert(server_key_shares_fit(shares@, shares@[0].parameters_spec()));
        // concatenate RGSW ciphertexts
        let mut rgsw_cts: Vec<Vec<Vec<u64>>> = Vec::new();
        let mut i: usize = 0;
        while i < shares.len()
            invariant
                i <= shares@.len(),
                cts_rows(rgsw_cts@) == concat_cts(shares@, i as int),
            decreases shares@.len() - i,
        {
            let cts = shares[i].rgsw_cts();
            let mut j: usize = 0;
            let ghost base = cts_rows(rgsw_cts@);
            while j < cts.len()
                invariant
                    i < shares@.len(),
                    *cts == shares@[i as int].rgsw_cts_spec(),
                    j <= cts@.len(),
                    base == concat_cts(shares@, i as int),
                    cts_rows(rgsw_cts@) == base + cts_rows(cts@).take(j as int),
                decreases cts@.len() - j,
            {
                let len = cts[j].len();
                let c = copy_rows(&cts[j], 0, len);
                assert(rows(cts@[j as int]@).subrange(0, len as int) =~= rows(cts@[j as int]@));
                let ghost before = cts_rows(rgsw_cts@);
                rgsw_cts.push(c);
                assert(cts_rows(rgsw_cts@) =~= before.push(rows(c@)));
                j += 1;
                assert(cts_rows(rgsw_cts@) =~= base + cts_rows(cts@).take(j as int));
            }
            assert(cts_rows(cts@).take(cts@.len() as int) =~= cts_rows(cts@));
            i += 1;
        }
        // sum automorphism keys
        let ghost dl = dlogs@;
        let mut auto_keys: HashMap<usize, Vec<Vec<u64>>> = HashMap::new();
        let mut t: usize = 0;
        while t < dlogs.len()
            invariant
                *p == shares@[0].parameters_spec(),
                dlogs@ == p.auto_element_dlogs@,
                dl == dlogs@,
                n == p.rlwe_n,
                p.wf(),
                shares@.len() > 0,
                !server_key_shares_miss_key(shares@, dlogs@),
                server_key_shares_fit(shares@, *p),
                t <= dlogs@.len(),
                forall|u: int|
                    0 <= u < t ==> auto_keys@.contains_key(#[trigger] dl[u]) && rows(
                        auto_keys@[dl[u]]@,
                    ) == sum_matrices(
                        Seq::new(shares@.len(), |i: int| rows(shares@[i].auto_keys_spec()@[dl[u]]@)),
                        shares@.len() as int,
                        p.auto_d as nat,
                        n as nat,
                        p.rlwe_q,
                    ),
                forall|k2: usize| #[trigger] auto_keys@.contains_key(k2) ==> dl.subrange(0, t as int).contains(k2),
            decreases dlogs@.len() - t,
        {
            let k = dlogs[t];
            let ghost ms = Seq::new(shares@.len(), |i: int| rows(shares@[i].auto_keys_spec()@[k]@));
            let mut acc = crate::rgsw::zero_rows(p.auto_d, n);
            let mut i: usize = 0;
            while i < shares.len()
                invariant
                    *p == shares@[0].parameters_spec(),
                    dlogs@ == p.auto_element_dlogs@,
                    n == p.rlwe_n,
                    p.wf(),
                    t < dlogs@.len(),
                    k == dlogs@[t as int],
                    ms == Seq::new(shares@.len(), |i: int| rows(shares@[i].auto_keys_spec()@[k]@)),
                    !server_key_shares_miss_key(shares@, dlogs@),
                    server_key_shares_fit(shares@, *p),
                    i <= shares@.len(),
                    rows(acc@) == sum_matrices(ms, i as int, p.auto_d as nat, n as nat, p.rlwe_q),
                    dims(rows(acc@), p.auto_d as nat, n as nat),
                    all_reduced(rows(acc@), p.rlwe_q),
                decreases shares@.len() - i,
            {
                let keys = shares[i].auto_keys();
                assert(shares@[i as int].auto_keys_spec()@.contains_key(dlogs@[t as int]));
                assert(dims(
                    rows(shares@[i as int].auto_keys_spec()@[p.auto_element_dlogs@[t as int]]@),
                    p.auto_d as nat,
                    p.rlwe_n as nat,
                ));
                let m = keys.get(&k).unwrap();
                assert(rows(m@) == ms[i as int]);
                add_rows_assign(&mut acc, m, p.rlwe_q);
                i += 1;
                assert(rows(acc@) =~= sum_matrices(ms, i as int, p.auto_d as nat, n as nat, p.rlwe_q));
            }
            let ghost before = auto_keys@;
            auto_keys.insert(k, acc);
            proof {
                assert forall|u: int| 0 <= u < t + 1 implies auto_keys@.contains_key(#[trigger] dl[u])
                    && rows(auto_keys@[dl[u]]@) == sum_matrices(
                    Seq::new(shares@.len(), |i: int| rows(shares@[i].auto_keys_spec()@[dl[u]]@)),
                    shares@.len() as int,
                    p.auto_d as nat,
                    n as nat,
                    p.rlwe_q,
                ) by {
                    if u < t {
                        assert(dl[u] != dl[t as int]);
                        assert(before.contains_key(dl[u]));
                    } else {
                        assert(ms =~= Seq::new(
                            shares@.len(),
                            |i: int| rows(shares@[i].auto_keys_spec()@[dl[u]]@),
                        ));
                    }
                }
                assert forall|kk: usize| #[trigger] auto_keys@.contains_key(kk) implies dl.subrange(
                    0,
                    t + 1,
                ).contains(kk) by {
                    if kk == k {
                        assert(dl.subrange(0, t + 1)[t as int] == k);
                    } else {
                        assert(before.contains_key(kk));
                        let w = choose|w: int| 0 <= w < t && #[trigger] dl.subrange(0, t as int)[w] == kk;
                        assert(dl.subrange(0, t + 1)[w] == kk);
                    }
                }
            }
            t += 1;
        }
        assert(dl.subrange(0, dl.len() as int) =~= dl);
        // sum the LWE key-switching key
        let ghost bs = Seq::new(shares@.len(), |i: int| shares@[i].lwe_ksk_spec()@);
        let len = shares[0].lwe_ksk().len();
        let mut lwe_ksk = zero_poly(len);
        let mut i: usize = 0;
        while i < shares.len()
            invariant
                *p == shares@[0].parameters_spec(),
                p.wf(),
                shares@.len() > 0,
                server_key_shares_fit(shares@, *p),
                len == p.lwe_d * p.rlwe_n,
                bs == Seq::new(shares@.len(), |i: int| shares@[i].lwe_ksk_spec()@),
                i <= shares@.len(),
                lwe_ksk@ == sum_shares(bs, i as int, len as nat, p.lwe_q),
                lwe_ksk@.len() == len,
                reduced_poly(lwe_ksk@, p.lwe_q),
            decreases shares@.len() - i,
        {
            let b = shares[i].lwe_ksk();
            assert(b@ == bs[i as int]);
            poly_add_assign(&mut lwe_ksk, b, p.lwe_q);
            i += 1;
        }
        Ok(
            SeededMultiPartyServerKey {
                rgsw_cts,
                auto_keys,
                lwe_ksk,
                cr_seed: *first.cr_seed(),
                parameters: p.duplicate(),
            },
        )
    }
}

/// Summing the first `i` matrices looks at nothing but the first `i`.
proof fn lemma_sum_matrices_prefix(
    s1: Seq<Seq<Seq<u64>>>,
    s2: Seq<Seq<Seq<u64>>>,
    i: int,
    r: nat,
    n: nat,
    q: u64,
)
    requires
        0 <= i <= s1.len(),
        i <= s2.len(),
        forall|t: int| 0 <= t < i ==> #[trigger] s1[t] == s2[t],
    ensures
        sum_matrices(s1, i, r, n, q) == sum_matrices(s2, i, r, n, q),
    decreases i,
{
    if i > 0 {
        lemma_sum_matrices_prefix(s1, s2, i - 1, r, n, q);
        assert(sum_matrices(s1, i, r, n, q) =~= sum_matrices(s2, i, r, n, q));
    }
}

/// Matrix sums that agree at `i` agree from there on where the matrices agree.
proof fn lemma_sum_matrices_suffix(
    s1: Seq<Seq<Seq<u64>>>,
    s2: Seq<Seq<Seq<u64>>>,
    i: int,
    j: int,
    r: nat,
    n: nat,
    q: u64,
)
    requires
        0 <= i <= j <= s1.len(),
        s1.len() == s2.len(),
        sum_matrices(s1, i, r, n, q) == sum_matrices(s2, i, r, n, q),
        forall|t: int| i <= t < j ==> #[trigger] s1[t] == s2[t],
    ensures
        sum_matrices(s1, j, r, n, q) == sum_matrices(s2, j, r, n, q),
    decreases j - i,
{
    if j > i {
        lemma_sum_matrices_suffix(s1, s2, i, j - 1, r, n, q);
        assert(sum_matrices(s1, j, r, n, q) =~= sum_matrices(s2, j, r, n, q));
    }
}

/// Every row of a matrix sum has `n` coefficients.
proof fn lemma_sum_matrices_rows(ms: Seq<Seq<Seq<u64>>>, i: int, r: nat, n: nat, q: u64)
    requires
        0 <= i <= ms.len(),
    ensures
        sum_matrices(ms, i, r, n, q).len() == r,
        forall|j: int| 0 <= j < r ==> (#[trigger] sum_matrices(ms, i, r, n, q)[j]).len() == n,
    decreases i,
{
    if i > 0 {
        lemma_sum_matrices_rows(ms, i - 1, r, n, q);
    }
}

/// Aggregating automorphism keys does not depend on the order of the shares:
/// exchanging two neighbouring parties' keys leaves the row-wise sum
/// unchanged (every reordering is a sequence of such exchanges).
pub proof fn lemma_key_aggregation_order_invariant(
    ms: Seq<Seq<Seq<u64>>>,
    k: int,
    r: nat,
    n: nat,
    q: u64,
)
    requires
        valid_modulus(q),
        0 <= k,
        k + 1 < ms.len(),
        forall|t: int| 0 <= t < ms.len() ==> dims(#[trigger] ms[t], r, n) && all_reduced(ms[t], q),
    ensures
        sum_matrices(ms.update(k, ms[k + 1]).update(k + 1, ms[k]), ms.len() as int, r, n, q)
            == sum_matrices(ms, ms.len() as int, r, n, q),
{
    let sw = ms.update(k, ms[k + 1]).update(k + 1, ms[k]);
    lemma_sum_matrices_prefix(sw, ms, k, r, n, q);
    lemma_sum_matrices_rows(ms, k, r, n, q);
    let base = sum_matrices(ms, k, r, n, q);
    assert(sw[k] == ms[k + 1] && sw[k + 1] == ms[k]);
    let left = sum_matrices(sw, k + 2, r, n, q);
    let right = sum_matrices(ms, k + 2, r, n, q);
    assert forall|j: int| 0 <= j < r implies #[trigger] left[j] == right[j] by {
        assert(dims(ms[k], r, n) && all_reduced(ms[k], q));
        assert(dims(ms[k + 1], r, n) && all_reduced(ms[k + 1], q));
        assert(reduced_poly(ms[k][j], q));
        assert(reduced_poly(ms[k + 1][j], q));
        assert(base[j].len() == n);
        assert(ms[k][j].len() == n && ms[k + 1][j].len() == n);
        lemma_add_swap(base[j], ms[k][j], ms[k + 1][j], q);
        assert(sum_matrices(sw, k, r, n, q) == base);
        assert(sum_matrices(sw, k + 1, r, n, q)[j] == poly_add(base[j], ms[k + 1][j], q));
        assert(left[j] == poly_add(sum_matrices(sw, k + 1, r, n, q)[j], ms[k][j], q));
        assert(sum_matrices(ms, k + 1, r, n, q)[j] == poly_add(base[j], ms[k][j], q));
        assert(right[j] == poly_add(sum_matrices(ms, k + 1, r, n, q)[j], ms[k + 1][j], q));
    }
    assert(left =~= right);
    lemma_sum_matrices_suffix(sw, ms, k + 2, ms.len() as int, r, n, q);
}

/// Coefficient `c` of the sum of the first `i` secrets, over the integers.
pub open spec fn secret_sum(ss: Seq<Seq<i32>>, i: int, c: int) -> int
    decreases i,
{
    if i <= 0 {
        0
    } else {
        secret_sum(ss, i - 1, c) + ss[i - 1][c]
    }
}

/// The sum of the first `i` secrets read as a ring element.
pub open spec fn summed_secret_poly(ss: Seq<Seq<i32>>, i: int, n: nat, q: u64) -> Seq<u64> {
    Seq::new(n, |c: int| signed_to_mod(secret_sum(ss, i, c), q))
}

/// The product with the zero polynomial is zero.
proof fn lemma_mul_zero_right(a: Seq<u64>, q: u64)
    requires
        valid_modulus(q),
    ensures
        poly_mul(a, poly_zero(a.len()), q) == poly_zero(a.len()),
{
    let z = poly_zero(a.len());
    assert forall|k: int| 0 <= k < a.len() implies #[trigger] poly_mul(a, z, q)[k] == 0u64 by {
        lemma_sum_zero_right(a, z, k, a.len() as int);
        vstd::arithmetic::div_mod::lemma_small_mod(0, q as nat);
    }
    assert(poly_mul(a, z, q) =~= z);
}

/// The partial sums of the product with a zero polynomial are zero.
proof fn lemma_sum_zero_right(a: Seq<u64>, z: Seq<u64>, k: int, i: int)
    requires
        z.len() == a.len(),
        forall|t: int| 0 <= t < z.len() ==> #[trigger] z[t] == 0,
        0 <= i <= a.len(),
        0 <= k < a.len(),
    ensures
        negacyclic_sum(a, z, k, i) == 0,
    decreases i,
{
    if i > 0 {
        lemma_sum_zero_right(a, z, k, i - 1);
        let j = if i - 1 <= k {
            k - (i - 1)
        } else {
            k - (i - 1) + a.len()
        };
        assert(z[j] == 0);
        assert(a[i - 1] * 0 == 0);
    }
}

/// `(E + M) + (e + X) = (E + e) + (M + X)` for reduced polynomials.
proof fn lemma_add_rearrange(
    big_e: Seq<u64>,
    m: Seq<u64>,
    e: Seq<u64>,
    x: Seq<u64>,
    q: u64,
)
    requires
        valid_modulus(q),
        m.len() == big_e.len(),
        e.len() == big_e.len(),
        x.len() == big_e.len(),
        reduced_poly(big_e, q),
        reduced_poly(m, q),
        reduced_poly(e, q),
        reduced_poly(x, q),
    ensures
        poly_add(poly_add(big_e, m, q), poly_add(e, x, q), q) == poly_add(
            poly_add(big_e, e, q),
            poly_add(m, x, q),
            q,
        ),
{
    let l = poly_add(poly_add(big_e, m, q), poly_add(e, x, q), q);
    let r = poly_add(poly_add(big_e, e, q), poly_add(m, x, q), q);
    assert forall|i: int| 0 <= i < big_e.len() implies #[trigger] l[i] == r[i] by {
        let qi = q as int;
        let (a1, b1, c1, d1) = (big_e[i] as int, m[i] as int, e[i] as int, x[i] as int);
        vstd::arithmetic::div_mod::lemma_mod_bound(a1 + b1, qi);
        vstd::arithmetic::div_mod::lemma_mod_bound(c1 + d1, qi);
        vstd::arithmetic::div_mod::lemma_mod_bound(a1 + c1, qi);
        vstd::arithmetic::div_mod::lemma_mod_bound(b1 + d1, qi);
        vstd::arithmetic::div_mod::lemma_add_mod_noop(a1 + b1, c1 + d1, qi);
        vstd::arithmetic::div_mod::lemma_add_mod_noop(a1 + c1, b1 + d1, qi);
        assert(a1 + b1 + (c1 + d1) == a1 + c1 + (b1 + d1));
    }
    assert(l =~= r);
}

/// The first `i` parties' shares sum to the first `i` errors plus `a` times
/// the first `i` secrets.
proof fn lemma_collective_prefix(
    a: Seq<u64>,
    secrets: Seq<Seq<i32>>,
    errors: Seq<Seq<u64>>,
    i: int,
    q: u64,
)
    requires
        valid_modulus(q),
        secrets.len() == errors.len(),
        0 <= i <= secrets.len(),
        forall|j: int| 0 <= j < secrets.len() ==> (#[trigger] secrets[j]).len() == a.len(),
        forall|j: int|
            0 <= j < errors.len() ==> (#[trigger] errors[j]).len() == a.len() && reduced_poly(
                errors[j],
                q,
            ),
    ensures
        sum_shares(
            Seq::new(
                secrets.len(),
                |j: int| poly_add(errors[j], poly_mul(a, signed_poly(secrets[j], q), q), q),
            ),
            i,
            a.len(),
            q,
        ) == poly_add(
            sum_shares(errors, i, a.len(), q),
            poly_mul(a, summed_secret_poly(secrets, i, a.len(), q), q),
            q,
        ),
        sum_shares(errors, i, a.len(), q).len() == a.len(),
        reduced_poly(sum_shares(errors, i, a.len(), q), q),
    decreases i,
{
    let n = a.len();
    let qi = q as int;
    let bs = Seq::new(
        secrets.len(),
        |j: int| poly_add(errors[j], poly_mul(a, signed_poly(secrets[j], q), q), q),
    );
    if i == 0 {
        assert(summed_secret_poly(secrets, 0, n, q) =~= poly_zero(n)) by {
            assert forall|c: int| 0 <= c < n implies #[trigger] summed_secret_poly(
                secrets,
                0,
                n,
                q,
            )[c] == 0u64 by {
                vstd::arithmetic::div_mod::lemma_small_mod(0, q as nat);
            }
        }
        lemma_mul_zero_right(a, q);
        let z = poly_zero(n);
        assert forall|c: int| 0 <= c < n implies #[trigger] poly_add(z, z, q)[c] == 0u64 by {
            vstd::arithmetic::div_mod::lemma_small_mod(0, q as nat);
        }
        assert(poly_add(z, z, q) =~= z);
    } else {
        lemma_collective_prefix(a, secrets, errors, i - 1, q);
        let big_e = sum_shares(errors, i - 1, n, q);
        let prev = summed_secret_poly(secrets, i - 1, n, q);
        let si = signed_poly(secrets[i - 1], q);
        let m = poly_mul(a, prev, q);
        let x = poly_mul(a, si, q);
        // the summed secret grows by the party's secret
        assert(summed_secret_poly(secrets, i, n, q) =~= poly_add(prev, si, q)) by {
            assert forall|c: int| 0 <= c < n implies #[trigger] summed_secret_poly(
                secrets,
                i,
                n,
                q,
            )[c] == poly_add(prev, si, q)[c] by {
                vstd::arithmetic::div_mod::lemma_add_mod_noop(
                    secret_sum(secrets, i - 1, c),
                    secrets[i - 1][c] as int,
                    qi,
                );
                vstd::arithmetic::div_mod::lemma_mod_bound(secret_sum(secrets, i - 1, c), qi);
                vstd::arithmetic::div_mod::lemma_mod_bound(secrets[i - 1][c] as int, qi);
                vstd::arithmetic::div_mod::lemma_mod_bound(secret_sum(secrets, i, c), qi);
            }
        }
        lemma_mul_distributes(a, prev, si, q);
        assert(bs[i - 1] == poly_add(errors[i - 1], x, q));
        assert forall|c: int| 0 <= c < n implies #[trigger] m[c] < q by {
            vstd::arithmetic::div_mod::lemma_mod_bound(negacyclic_sum(a, prev, c, n as int), qi);
        }
        assert forall|c: int| 0 <= c < n implies #[trigger] x[c] < q by {
            vstd::arithmetic::div_mod::lemma_mod_bound(negacyclic_sum(a, si, c, n as int), qi);
        }
        lemma_add_rearrange(big_e, m, errors[i - 1], x, q);
        let ne = sum_shares(errors, i, n, q);
        assert forall|c: int| 0 <= c < n implies #[trigger] ne[c] < q by {
            vstd::arithmetic::div_mod::lemma_mod_bound(big_e[c] + errors[i - 1][c], qi);
        }
    }
}

/// The collective public key is an RLWE public key of the ideal secret:
/// where party `j` publishes `b_j = e_j + a * s_j`, the sum of the `b_j` is
/// `(sum of the e_j) + a * s` with `s` the coefficient-wise sum of the `s_j`.
pub proof fn lemma_collective_public_key(
    a: Seq<u64>,
    secrets: Seq<Seq<i32>>,
    errors: Seq<Seq<u64>>,
    ideal: Seq<i32>,
    q: u64,
)
    requires
        valid_modulus(q),
        secrets.len() == errors.len(),
        forall|j: int| 0 <= j < secrets.len() ==> (#[trigger] secrets[j]).len() == a.len(),
        forall|j: int|
            0 <= j < errors.len() ==> (#[trigger] errors[j]).len() == a.len() && reduced_poly(
                errors[j],
                q,
            ),
        ideal.len() == a.len(),
        forall|c: int|
            0 <= c < ideal.len() ==> #[trigger] ideal[c] == secret_sum(
                secrets,
                secrets.len() as int,
                c,
            ),
    ensures
        sum_shares(
            Seq::new(
                secrets.len(),
                |j: int| poly_add(errors[j], poly_mul(a, signed_poly(secrets[j], q), q), q),
            ),
            secrets.len() as int,
            a.len(),
            q,
        ) == poly_add(
            sum_shares(errors, secrets.len() as int, a.len(), q),
            poly_mul(a, signed_poly(ideal, q), q),
            q,
        ),
{
    lemma_collective_prefix(a, secrets, errors, secrets.len() as int, q);
    assert(summed_secret_poly(secrets, secrets.len() as int, a.len(), q) =~= signed_poly(ideal, q));
}

/// Aggregation is associative in the shares: replacing two neighbouring
/// shares by their sum leaves the sum of all shares unchanged.
pub proof fn lemma_aggregation_merge_invariant(shares: Seq<Seq<u64>>, k: int, n: nat, q: u64)
    requires
        valid_modulus(q),
        0 <= k,
        k + 1 < shares.len(),
        forall|t: int| 0 <= t < shares.len() ==> reduced_poly(#[trigger] shares[t], q),
        forall|t: int| 0 <= t < shares.len() ==> (#[trigger] shares[t]).len() == n,
    ensures
        sum_shares(
            shares.subrange(0, k).push(poly_add(shares[k], shares[k + 1], q)) + shares.subrange(
                k + 2,
                shares.len() as int,
            ),
            shares.len() - 1,
            n,
            q,
        ) == sum_shares(shares, shares.len() as int, n, q),
{
    let merged = shares.subrange(0, k).push(poly_add(shares[k], shares[k + 1], q))
        + shares.subrange(k + 2, shares.len() as int);
    lemma_sum_prefix(merged, shares, k, n, q);
    lemma_sum_len(shares, k, n, q);
    let base = sum_shares(shares, k, n, q);
    let a = shares[k];
    let b = shares[k + 1];
    assert(merged[k] == poly_add(a, b, q));
    let l = poly_add(base, poly_add(a, b, q), q);
    let r = poly_add(poly_add(base, a, q), b, q);
    assert forall|i: int| 0 <= i < n implies #[trigger] l[i] == r[i] by {
        let qi = q as int;
        vstd::arithmetic::div_mod::lemma_mod_bound(a[i] + b[i], qi);
        vstd::arithmetic::div_mod::lemma_mod_bound(base[i] + a[i], qi);
        vstd::arithmetic::div_mod::lemma_add_mod_noop_right(base[i] as int, a[i] + b[i], qi);
        vstd::arithmetic::div_mod::lemma_add_mod_noop(base[i] + a[i], b[i] as int, qi);
        vstd::arithmetic::div_mod::lemma_small_mod(b[i] as nat, qi as nat);
        vstd::arithmetic::div_mod::lemma_mod_twice(base[i] + a[i], qi);
        assert(base[i] + (a[i] + b[i]) == base[i] + a[i] + b[i]);
    }
    assert(l =~= r);
    assert(sum_shares(merged, k + 1, n, q) == l);
    assert(sum_shares(shares, k + 1, n, q) == poly_add(base, a, q));
    assert(sum_shares(shares, k + 2, n, q) == r);
    assert forall|t: int| k + 1 <= t < shares.len() - 1 implies #[trigger] merged[t] == shares[t + 1] by {
    }
    lemma_sum_shifted(merged, shares, k + 1, shares.len() - 1, n, q);
}

/// Sums that agree at `i` (against `j + 1` shares of the other) agree from
/// there on where `s1[t] == s2[t + 1]`.
proof fn lemma_sum_shifted(s1: Seq<Seq<u64>>, s2: Seq<Seq<u64>>, i: int, j: int, n: nat, q: u64)
    requires
        0 <= i <= j <= s1.len(),
        s1.len() + 1 == s2.len(),
        sum_shares(s1, i, n, q) == sum_shares(s2, i + 1, n, q),
        forall|t: int| i <= t < j ==> #[trigger] s1[t] == s2[t + 1],
    ensures
        sum_shares(s1, j, n, q) == sum_shares(s2, j + 1, n, q),
    decreases j - i,
{
    if j > i {
        lemma_sum_shifted(s1, s2, i, j - 1, n, q);
    }
}

/// The order in which the users' key-switching keys are stored does not
/// matter: two seeded keys that locate, through `ui_to_s_ksks_key_order`, the
/// same rows for every user expand to the same user keys.
pub proof fn lemma_user_key_order_invariant(
    v1: SeededNonInteractiveMultiPartyServerKey,
    v2: SeededNonInteractiveMultiPartyServerKey,
    auto_draws: Seq<u64>,
    lwe_draws: Seq<u64>,
    user_draws: Seq<Vec<u64>>,
    k1: NonInteractiveServerKeyEvaluationDomain,
    k2: NonInteractiveServerKeyEvaluationDomain,
)
    requires
        v1.parameters.ui_to_s_d == v2.parameters.ui_to_s_d,
        v1.parameters.rlwe_n == v2.parameters.rlwe_n,
        v1.ui_to_s_ksks_key_order@.len() == v2.ui_to_s_ksks_key_order@.len(),
        forall|j: int|
            0 <= j < v1.ui_to_s_ksks_key_order@.len() ==> rows(
                v1.ui_to_s_ksks@[#[trigger] v1.ui_to_s_ksks_key_order@[j] as int]@,
            ) == rows(v2.ui_to_s_ksks@[v2.ui_to_s_ksks_key_order@[j] as int]@),
        non_interactive_expansion(v1, auto_draws, lwe_draws, user_draws, k1),
        non_interactive_expansion(v2, auto_draws, lwe_draws, user_draws, k2),
    ensures
        k1.ui_to_s_ksks@.len() == k2.ui_to_s_ksks@.len(),
        forall|j: int|
            0 <= j < k1.ui_to_s_ksks@.len() ==> rows((#[trigger] k1.ui_to_s_ksks@[j])@) == rows(
                k2.ui_to_s_ksks@[j]@,
            ),
{
    assert forall|j: int| 0 <= j < k1.ui_to_s_ksks@.len() implies rows(
        (#[trigger] k1.ui_to_s_ksks@[j])@,
    ) == rows(k2.ui_to_s_ksks@[j]@) by {
        assert(rows(v1.ui_to_s_ksks@[v1.ui_to_s_ksks_key_order@[j] as int]@) == rows(
            v2.ui_to_s_ksks@[v2.ui_to_s_ksks_key_order@[j] as int]@,
        ));
        assert(rows(k2.ui_to_s_ksks@[j]@) == rows(k2.ui_to_s_ksks@[j]@));
    }
}

} // verus!
