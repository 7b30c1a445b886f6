use vstd::prelude::*;
use crate::arith::valid_modulus;
use crate::error::FheError;
use crate::ring::{reduced_poly, signed_to_mod, signed_to_residue};

verus! {

/// `2^e`.
pub open spec fn two_pow(e: nat) -> nat
    decreases e,
{
    if e == 0 {
        1
    } else {
        2 * two_pow((e - 1) as nat)
    }
}

/// Balanced base-`base` digits of `v`, least significant first: each digit
/// lies in `(-base/2, base/2]` and a digit above `base/2` carries one into
/// the next position.
pub open spec fn signed_digits(v: int, base: int, d: nat) -> Seq<int>
    decreases d,
{
    if d == 0 {
        Seq::empty()
    } else {
        let r = v % base;
        if r > base / 2 {
            seq![r - base] + signed_digits(v / base + 1, base, (d - 1) as nat)
        } else {
            seq![r] + signed_digits(v / base, base, (d - 1) as nat)
        }
    }
}

/// `2^a <= 2^b` when `a <= b`.
pub proof fn lemma_two_pow_monotone(a: nat, b: nat)
    requires
        a <= b,
    ensures
        two_pow(a) <= two_pow(b),
        two_pow(a) >= 1,
    decreases b,
{
    if b > a {
        lemma_two_pow_monotone(a, (b - 1) as nat);
    } else if a > 0 {
        lemma_two_pow_monotone((a - 1) as nat, (a - 1) as nat);
    }
}

/// `q` takes `k` bits: `2^(k-1) < q <= 2^k`.
pub open spec fn is_bit_length(q: u64, k: nat) -> bool {
    (q as nat) <= two_pow(k) && (k == 0 || two_pow((k - 1) as nat) < q)
}

/// A modulus has one bit length.
pub proof fn lemma_bit_length_unique(q: u64, k1: nat, k2: nat)
    requires
        is_bit_length(q, k1),
        is_bit_length(q, k2),
    ensures
        k1 == k2,
{
    if k1 < k2 {
        lemma_two_pow_monotone(k1, (k2 - 1) as nat);
    } else if k2 < k1 {
        lemma_two_pow_monotone(k2, (k1 - 1) as nat);
    }
}

/// `2^63`, the largest power of two held by `u64`.
pub proof fn lemma_two_pow_63()
    ensures
        two_pow(63) == 0x8000_0000_0000_0000,
{
    reveal_with_fuel(two_pow, 64);
}

/// `2^e` for `e <= 63`.
pub fn pow2_u64(e: u64) -> (r: u64)
    requires
        e <= 63,
    ensures
        r as nat == two_pow(e as nat),
{
    let mut p: u64 = 1;
    let mut k: u64 = 0;
    while k < e
        invariant
            k <= e <= 63,
            p as nat == two_pow(k as nat),
        decreases e - k,
    {
        proof {
            lemma_two_pow_monotone((k + 1) as nat, 63);
            lemma_two_pow_63();
        }
        p = p * 2;
        k = k + 1;
    }
    p
}

/// Digits of `v` as residues modulo `q`.
pub open spec fn residues(ds: Seq<int>, q: u64) -> Seq<u64> {
    Seq::new(ds.len(), |j: int| signed_to_mod(ds[j], q))
}

/// The `d`-row matrix whose row `j` holds digit `j` of every coefficient of `r`.
pub open spec fn decomposed(r: Seq<u64>, dec: DefaultDecomposer) -> Seq<Seq<u64>> {
    Seq::new(dec.d as nat, |j: int| Seq::new(r.len(), |i: int| dec.digits(r[i])[j]))
}

/// `x` rounded to a multiple of `2^ignore` and divided by it.
pub open spec fn rounded_top(x: u64, ignore: nat) -> int {
    if ignore == 0 {
        x as int
    } else {
        (x + two_pow((ignore - 1) as nat)) / (two_pow(ignore) as int)
    }
}

/// Gadget decomposition in base `2^logb` of the top `d * logb` of the
/// `logq` bits of residues modulo `q`; the lower bits are rounded off.
#[derive(Clone, Copy, Debug)]
pub struct DefaultDecomposer {
    pub q: u64,
    pub logq: u64,
    pub logb: u64,
    pub d: usize,
}

impl DefaultDecomposer {
    /// Sound parameters: `q < 2^logq`, `1 <= d`, `d * logb <= logq`.
    pub open spec fn wf(&self) -> bool {
        &&& valid_modulus(self.q)
        &&& 1 <= self.logb <= 62
        &&& 1 <= self.d
        &&& self.logq <= 63
        &&& (self.q as nat) <= two_pow(self.logq as nat)
        &&& self.d * self.logb <= self.logq
    }

    /// Bits below the kept digits.
    pub open spec fn ignore(&self) -> nat {
        (self.logq - self.d * self.logb) as nat
    }

    /// The digits of `x`, each as a residue modulo `q`.
    pub open spec fn digits(&self, x: u64) -> Seq<u64> {
        let ds = signed_digits(
            rounded_top(x, self.ignore()),
            two_pow(self.logb as nat) as int,
            self.d as nat,
        );
        Seq::new(self.d as nat, |j: int| signed_to_mod(ds[j], self.q))
    }

    /// `(beta^j * 2^ignore) mod q` for `j < d`.
    pub open spec fn gadget(&self) -> Seq<u64> {
        Seq::new(
            self.d as nat,
            |j: int|
                (two_pow((self.ignore() + j * self.logb) as nat) % (self.q as nat)) as u64,
        )
    }

    /// A decomposer for modulus `q`, base `2^logb` and `d` digits.
    pub fn new(q: u64, logb: u64, d: usize) -> (r: Result<DefaultDecomposer, FheError>)
        requires
            valid_modulus(q),
        ensures
            r matches Ok(dec) ==> dec.wf() && dec.q == q && dec.logb == logb && dec.d == d
                && is_bit_length(q, dec.logq as nat),
            r is Ok <==> 1 <= logb <= 62 && 1 <= d && exists|k: nat|
                is_bit_length(q, k) && d * logb <= k,
            r.is_err() ==> r == Err::<DefaultDecomposer, FheError>(FheError::InvalidParameter),
    {
        let mut logq: u64 = 0;
        let mut p: u64 = 1;
        while p < q && logq < 63
            invariant
                p as nat == two_pow(logq as nat),
                logq <= 63,
                valid_modulus(q),
                logq > 0 ==> two_pow((logq - 1) as nat) < q,
            decreases 63 - logq,
        {
            p = p * 2;
            logq = logq + 1;
        }
        proof {
            lemma_two_pow_63();
            assert(p >= q);
            assert(is_bit_length(q, logq as nat));
            assert forall|k: nat| is_bit_length(q, k) implies k == logq by {
                lemma_bit_length_unique(q, k, logq as nat);
            }
        }
        if logb < 1 || logb > 62 || d < 1 || d as u64 > logq {
            proof {
                if 1 <= logb && 1 <= d {
                    let dd = d as int;
                    let lb = logb as int;
                    assert(dd * lb >= dd) by (nonlinear_arith)
                        requires
                            lb >= 1,
                            dd >= 1,
                    ;
                }
            }
            return Err(FheError::InvalidParameter);
        }
        proof {
            let dd = d as int;
            let lb = logb as int;
            assert(dd * lb <= 63 * 62) by (nonlinear_arith)
                requires
                    0 <= dd <= 63,
                    0 <= lb <= 62,
            ;
        }
        if (d as u64) * logb > logq {
            return Err(FheError::InvalidParameter);
        }
        assert(is_bit_length(q, logq as nat) && d * logb <= logq as nat);
        Ok(DefaultDecomposer { q, logq, logb, d })
    }

    /// The digits of `x`, least significant first, each as a residue modulo `q`.
    pub fn decompose(&self, x: u64) -> (r: Vec<u64>)
        requires
            self.wf(),
            x < self.q,
        ensures
            r@ == self.digits(x),
    {
        let ignore = self.logq - (self.d as u64) * self.logb;
        let mut v: u64 = x;
        if ignore > 0 {
            let den = pow2_u64(ignore);
            let half = pow2_u64(ignore - 1);
            proof {
                lemma_two_pow_monotone((ignore - 1) as nat, 62);
                lemma_two_pow_monotone(62, 62);
                lemma_two_pow_63();
                assert(two_pow(63) == 2 * two_pow(62));
                lemma_two_pow_monotone(1, ignore as nat);
                reveal_with_fuel(two_pow, 2);
                vstd::arithmetic::div_mod::lemma_div_is_ordered_by_denominator(
                    (x + half) as int,
                    2,
                    den as int,
                );
            }
            v = (x + half) / den;
        }
        assert(v as int == rounded_top(x, self.ignore()));
        let base = pow2_u64(self.logb);
        proof {
            lemma_two_pow_monotone(1, self.logb as nat);
            lemma_two_pow_monotone(self.logb as nat, 62);
            lemma_two_pow_63();
            reveal_with_fuel(two_pow, 2);
            assert(two_pow(63) == 2 * two_pow(62));
        }
        let half_base = base / 2;
        let ghost v0 = v as int;
        let ghost b = base as int;
        let ghost mut done: Seq<int> = Seq::empty();
        let mut out: Vec<u64> = Vec::new();
        let mut j: usize = 0;
        while j < self.d
            invariant
                self.wf(),
                j <= self.d,
                2 <= base <= 0x4000_0000_0000_0000,
                b == base as int,
                half_base == base / 2,
                v <= 0x8000_0000_0000_0000,
                done.len() == j,
                done + signed_digits(v as int, b, (self.d - j) as nat) == signed_digits(
                    v0,
                    b,
                    self.d as nat,
                ),
                out@ == residues(done, self.q),
            decreases self.d - j,
        {
            let r = v % base;
            proof {
                vstd::arithmetic::div_mod::lemma_div_is_ordered_by_denominator(v as int, 2, b);
            }
            let ghost rest = signed_digits(v as int, b, (self.d - j) as nat);
            let digit: i64;
            if r > half_base {
                digit = (r as i64) - (base as i64);
                v = v / base + 1;
            } else {
                digit = r as i64;
                v = v / base;
            }
            assert(rest == seq![digit as int] + signed_digits(v as int, b, (self.d - j - 1) as nat));
            let e = signed_to_residue(digit, self.q);
            out.push(e);
            proof {
                let nd = done.push(digit as int);
                assert(nd + signed_digits(v as int, b, (self.d - j - 1) as nat) =~= done + rest);
                done = nd;
            }
            j += 1;
            assert(out@ =~= residues(done, self.q));
        }
        assert(out@ =~= self.digits(x));
        out
    }

    /// The gadget vector `(2^ignore * beta^j) mod q` for `j < d`.
    pub fn gadget_vector(&self) -> (r: Vec<u64>)
        requires
            self.wf(),
        ensures
            r@ == self.gadget(),
    {
        let ignore = self.logq - (self.d as u64) * self.logb;
        let mut out: Vec<u64> = Vec::new();
        let mut j: usize = 0;
        while j < self.d
            invariant
                self.wf(),
                ignore == self.ignore(),
                j <= self.d,
                out@ == self.gadget().take(j as int),
            decreases self.d - j,
        {
            proof {
                let jj = j as int;
                let dd = self.d as int;
                let lb = self.logb as int;
                assert(jj * lb <= dd * lb) by (nonlinear_arith)
                    requires
                        0 <= jj <= dd,
                        0 <= lb,
                ;
            }
            let e = ignore + (j as u64) * self.logb;
            let p = pow2_u64(e);
            out.push(p % self.q);
            j += 1;
            assert(out@ =~= self.gadget().take(j as int));
        }
        assert(out@ =~= self.gadget());
        out
    }

    /// Number of digits.
    pub fn d(&self) -> (r: usize)
        ensures
            r == self.d,
    {
        self.d
    }
}

/// Decomposes every coefficient of `r`: row `j` of the result holds digit
/// `j` of each coefficient.
pub fn decompose_r(r: &Vec<u64>, decomposer: &DefaultDecomposer) -> (out: Vec<Vec<u64>>)
    requires
        decomposer.wf(),
        reduced_poly(r@, decomposer.q),
    ensures
        crate::rlwe::rows(out@) == decomposed(r@, *decomposer),
{
    let n = r.len();
    let d = decomposer.d;
    let mut per_coeff: Vec<Vec<u64>> = Vec::new();
    let mut i: usize = 0;
    while i < n
        invariant
            decomposer.wf(),
            d == decomposer.d,
            n == r@.len(),
            reduced_poly(r@, decomposer.q),
            i <= n,
            per_coeff@.len() == i,
            forall|t: int| 0 <= t < i ==> #[trigger] per_coeff@[t]@ == decomposer.digits(r@[t]),
        decreases n - i,
    {
        let ds = decomposer.decompose(r[i]);
        per_coeff.push(ds);
        i += 1;
    }
    let mut out: Vec<Vec<u64>> = Vec::new();
    let mut j: usize = 0;
    while j < d
        invariant
            d == decomposer.d,
            n == r@.len(),
            per_coeff@.len() == n,
            forall|t: int| 0 <= t < n ==> #[trigger] per_coeff@[t]@ == decomposer.digits(r@[t]),
            j <= d,
            out@.len() == j,
            forall|t: int| 0 <= t < j ==> #[trigger] out@[t]@ == decomposed(r@, *decomposer)[t],
        decreases d - j,
    {
        let mut row: Vec<u64> = Vec::new();
        let mut i: usize = 0;
        while i < n
            invariant
                d == decomposer.d,
                j < d,
                n == r@.len(),
                per_coeff@.len() == n,
                forall|t: int| 0 <= t < n ==> #[trigger] per_coeff@[t]@ == decomposer.digits(r@[t]),
                i <= n,
                row@ == decomposed(r@, *decomposer)[j as int].take(i as int),
            decreases n - i,
        {
            assert(per_coeff@[i as int]@.len() == d);
            row.push(per_coeff[i][j]);
            i += 1;
            assert(row@ =~= decomposed(r@, *decomposer)[j as int].take(i as int));
        }
        assert(row@ =~= decomposed(r@, *decomposer)[j as int]);
        out.push(row);
        j += 1;
    }
    assert(crate::rlwe::rows(out@) =~= decomposed(r@, *decomposer));
    out
}

} // verus!
