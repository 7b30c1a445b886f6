use vstd::prelude::*;
use crate::arith::{
    add_spec, mod_add, mod_mul, mod_neg, mod_sub, mul_spec, neg_spec, sub_spec, valid_modulus,
};

verus! {

/// Every coefficient of `p` is reduced modulo `q`.
pub open spec fn reduced_poly(p: Seq<u64>, q: u64) -> bool {
    forall|i: int| 0 <= i < p.len() ==> #[trigger] p[i] < q
}

/// Coefficient-wise sum.
pub open spec fn poly_add(a: Seq<u64>, b: Seq<u64>, q: u64) -> Seq<u64> {
    Seq::new(a.len(), |i: int| add_spec(a[i], b[i], q))
}

/// Coefficient-wise difference.
pub open spec fn poly_sub(a: Seq<u64>, b: Seq<u64>, q: u64) -> Seq<u64> {
    Seq::new(a.len(), |i: int| sub_spec(a[i], b[i], q))
}

/// Coefficient-wise negation.
pub open spec fn poly_neg(a: Seq<u64>, q: u64) -> Seq<u64> {
    Seq::new(a.len(), |i: int| neg_spec(a[i], q))
}

/// Multiplication of every coefficient by the scalar `c`.
pub open spec fn poly_scale(a: Seq<u64>, c: u64, q: u64) -> Seq<u64> {
    Seq::new(a.len(), |i: int| mul_spec(a[i], c, q))
}

/// The zero polynomial of `n` coefficients.
pub open spec fn poly_zero(n: nat) -> Seq<u64> {
    Seq::new(n, |i: int| 0u64)
}

/// The contribution of `a_i * X^i` times `b` to the coefficient of `X^k` in
/// `Z[X]/(X^n + 1)`: positive when `i <= k`, negated when the product wraps.
pub open spec fn negacyclic_term(a: Seq<u64>, b: Seq<u64>, k: int, i: int) -> int {
    if i <= k {
        a[i] * b[k - i]
    } else {
        -(a[i] * b[k - i + a.len()])
    }
}

/// Sum of the first `i` terms of the coefficient of `X^k` in `a * b`.
pub open spec fn negacyclic_sum(a: Seq<u64>, b: Seq<u64>, k: int, i: int) -> int
    decreases i,
{
    if i <= 0 {
        0
    } else {
        negacyclic_sum(a, b, k, i - 1) + negacyclic_term(a, b, k, i - 1)
    }
}

/// The negacyclic product `a * b mod (X^n + 1, q)`.
pub open spec fn poly_mul(a: Seq<u64>, b: Seq<u64>, q: u64) -> Seq<u64> {
    Seq::new(a.len(), |k: int| (negacyclic_sum(a, b, k, a.len() as int) % (q as int)) as u64)
}

/// A signed integer read as a residue modulo `q`.
pub open spec fn signed_to_mod(v: int, q: u64) -> u64 {
    (v % (q as int)) as u64
}

/// A vector of small signed values (a secret) read as a ring element.
pub open spec fn signed_poly(s: Seq<i32>, q: u64) -> Seq<u64> {
    Seq::new(s.len(), |i: int| signed_to_mod(s[i] as int, q))
}

/// The residue of the signed value `v` modulo `q`.
pub fn signed_to_residue(v: i64, q: u64) -> (r: u64)
    requires
        valid_modulus(q),
        v > i64::MIN,
    ensures
        r == signed_to_mod(v as int, q),
        r < q,
{
    if v >= 0 {
        let r = (v as u64) % q;
        r
    } else {
        let m = ((-v) as u64) % q;
        proof {
            let x = -(v as int);
            vstd::arithmetic::div_mod::lemma_fundamental_div_mod(x, q as int);
            vstd::arithmetic::div_mod::lemma_mod_pos_bound(x, q as int);
            let d = x / (q as int);
            assert(m == x % (q as int));
            if m == 0 {
                assert(v as int == (q as int) * (-d) + 0) by (nonlinear_arith)
                    requires
                        x == (q as int) * d + x % (q as int),
                        x % (q as int) == 0,
                        v as int == -x,
                ;
                vstd::arithmetic::div_mod::lemma_fundamental_div_mod_converse(v as int, q as int, -d, 0);
            } else {
                assert(v as int == (q as int) * (-d - 1) + (q - m)) by (nonlinear_arith)
                    requires
                        x == (q as int) * d + m,
                        v as int == -x,
                ;
                vstd::arithmetic::div_mod::lemma_fundamental_div_mod_converse(
                    v as int,
                    q as int,
                    -d - 1,
                    q - m,
                );
            }
        }
        if m == 0 {
            0
        } else {
            q - m
        }
    }
}

/// The secret `s` as a ring element modulo `q`.
pub fn signed_to_poly(s: &Vec<i32>, q: u64) -> (r: Vec<u64>)
    requires
        valid_modulus(q),
    ensures
        r@ == signed_poly(s@, q),
        reduced_poly(r@, q),
{
    let mut r: Vec<u64> = Vec::new();
    let mut i: usize = 0;
    while i < s.len()
        invariant
            valid_modulus(q),
            i <= s.len(),
            r@ == signed_poly(s@.take(i as int), q),
        decreases s.len() - i,
    {
        let v = signed_to_residue(s[i] as i64, q);
        r.push(v);
        i += 1;
        assert(r@ =~= signed_poly(s@.take(i as int), q));
    }
    assert(s@.take(s.len() as int) =~= s@);
    r
}

/// `a += b` coefficient-wise.
pub fn poly_add_assign(a: &mut Vec<u64>, b: &Vec<u64>, q: u64)
    requires
        valid_modulus(q),
        old(a)@.len() == b@.len(),
        reduced_poly(old(a)@, q),
        reduced_poly(b@, q),
    ensures
        final(a)@ == poly_add(old(a)@, b@, q),
        reduced_poly(final(a)@, q),
{
    let n = a.len();
    let mut i: usize = 0;
    while i < n
        invariant
            valid_modulus(q),
            i <= n,
            n == a@.len(),
            n == b@.len(),
            reduced_poly(b@, q),
            forall|j: int| 0 <= j < i ==> a@[j] == add_spec(old(a)@[j], b@[j], q),
            forall|j: int| i <= j < n ==> a@[j] == old(a)@[j],
            reduced_poly(old(a)@, q),
            reduced_poly(a@, q),
            old(a)@.len() == n,
        decreases n - i,
    {
        let v = mod_add(a[i], b[i], q);
        a.set(i, v);
        i += 1;
    }
    assert(a@ =~= poly_add(old(a)@, b@, q));
}

/// `a -= b` coefficient-wise.
pub fn poly_sub_assign(a: &mut Vec<u64>, b: &Vec<u64>, q: u64)
    requires
        valid_modulus(q),
        old(a)@.len() == b@.len(),
        reduced_poly(old(a)@, q),
        reduced_poly(b@, q),
    ensures
        final(a)@ == poly_sub(old(a)@, b@, q),
        reduced_poly(final(a)@, q),
{
    let n = a.len();
    let mut i: usize = 0;
    while i < n
        invariant
            valid_modulus(q),
            i <= n,
            n == a@.len(),
            n == b@.len(),
            reduced_poly(b@, q),
            forall|j: int| 0 <= j < i ==> a@[j] == sub_spec(old(a)@[j], b@[j], q),
            forall|j: int| i <= j < n ==> a@[j] == old(a)@[j],
            reduced_poly(old(a)@, q),
            reduced_poly(a@, q),
            old(a)@.len() == n,
        decreases n - i,
    {
        let v = mod_sub(a[i], b[i], q);
        a.set(i, v);
        i += 1;
    }
    assert(a@ =~= poly_sub(old(a)@, b@, q));
}

/// `-a` coefficient-wise.
pub fn poly_negate(a: &Vec<u64>, q: u64) -> (r: Vec<u64>)
    requires
        valid_modulus(q),
        reduced_poly(a@, q),
    ensures
        r@ == poly_neg(a@, q),
        reduced_poly(r@, q),
{
    let mut r: Vec<u64> = Vec::new();
    let mut i: usize = 0;
    while i < a.len()
        invariant
            valid_modulus(q),
            i <= a.len(),
            reduced_poly(a@, q),
            r@ == poly_neg(a@.take(i as int), q),
        decreases a.len() - i,
    {
        let v = mod_neg(a[i], q);
        r.push(v);
        i += 1;
        assert(r@ =~= poly_neg(a@.take(i as int), q));
    }
    assert(a@.take(a.len() as int) =~= a@);
    r
}

/// `c * a` coefficient-wise.
pub fn poly_scalar_mul(a: &Vec<u64>, c: u64, q: u64) -> (r: Vec<u64>)
    requires
        valid_modulus(q),
    ensures
        r@ == poly_scale(a@, c, q),
        reduced_poly(r@, q),
{
    let mut r: Vec<u64> = Vec::new();
    let mut i: usize = 0;
    while i < a.len()
        invariant
            valid_modulus(q),
            i <= a.len(),
            r@ == poly_scale(a@.take(i as int), c, q),
        decreases a.len() - i,
    {
        let v = mod_mul(a[i], c, q);
        r.push(v);
        i += 1;
        assert(r@ =~= poly_scale(a@.take(i as int), c, q));
    }
    assert(a@.take(a.len() as int) =~= a@);
    r
}

/// The polynomial of `n` zero coefficients.
pub fn zero_poly(n: usize) -> (r: Vec<u64>)
    ensures
        r@ == poly_zero(n as nat),
{
    let mut r: Vec<u64> = Vec::new();
    let mut i: usize = 0;
    while i < n
        invariant
            i <= n,
            r@ == poly_zero(i as nat),
        decreases n - i,
    {
        r.push(0);
        i += 1;
        assert(r@ =~= poly_zero(i as nat));
    }
    r
}

/// Every coefficient of `a` reduced modulo `q`.
pub open spec fn poly_reduce(a: Seq<u64>, q: u64) -> Seq<u64> {
    Seq::new(a.len(), |i: int| (a[i] % q) as u64)
}

/// Reduces every coefficient of `a` modulo `q`.
fn reduce_all(a: &Vec<u64>, q: u64) -> (r: Vec<u64>)
    requires
        valid_modulus(q),
    ensures
        r@ == poly_reduce(a@, q),
        reduced_poly(r@, q),
{
    let mut r: Vec<u64> = Vec::new();
    let mut i: usize = 0;
    while i < a.len()
        invariant
            valid_modulus(q),
            i <= a@.len(),
            r@ == poly_reduce(a@, q).take(i as int),
        decreases a@.len() - i,
    {
        r.push(a[i] % q);
        i += 1;
        assert(r@ =~= poly_reduce(a@, q).take(i as int));
    }
    assert(poly_reduce(a@, q).take(a@.len() as int) =~= poly_reduce(a@, q));
    r
}

/// A term of the product of the reduced operands agrees modulo `q` with the
/// term of the product of the operands.
proof fn lemma_term_congruent(a: Seq<u64>, b: Seq<u64>, k: int, i: int, q: u64)
    requires
        valid_modulus(q),
        a.len() == b.len(),
        0 <= i < a.len(),
        0 <= k < a.len(),
    ensures
        negacyclic_term(poly_reduce(a, q), poly_reduce(b, q), k, i) % (q as int)
            == negacyclic_term(a, b, k, i) % (q as int),
{
    let n = a.len() as int;
    let qi = q as int;
    let j = if i <= k {
        k - i
    } else {
        k - i + n
    };
    let x = a[i] as int;
    let y = b[j] as int;
    vstd::arithmetic::div_mod::lemma_mod_bound(x, qi);
    vstd::arithmetic::div_mod::lemma_mod_bound(y, qi);
    vstd::arithmetic::div_mod::lemma_mul_mod_noop(x, y, qi);
    if i > k {
        lemma_neg_mod_congruent((x % qi) * (y % qi), x * y, qi);
    }
}

/// Partial sums of the product of the reduced operands agree modulo `q` with
/// those of the product of the operands.
proof fn lemma_sum_congruent(a: Seq<u64>, b: Seq<u64>, k: int, i: int, q: u64)
    requires
        valid_modulus(q),
        a.len() == b.len(),
        0 <= i <= a.len(),
        0 <= k < a.len(),
    ensures
        negacyclic_sum(poly_reduce(a, q), poly_reduce(b, q), k, i) % (q as int) == negacyclic_sum(
            a,
            b,
            k,
            i,
        ) % (q as int),
    decreases i,
{
    if i > 0 {
        lemma_sum_congruent(a, b, k, i - 1, q);
        lemma_term_congruent(a, b, k, i - 1, q);
        let qi = q as int;
        let s1 = negacyclic_sum(poly_reduce(a, q), poly_reduce(b, q), k, i - 1);
        let s2 = negacyclic_sum(a, b, k, i - 1);
        let t1 = negacyclic_term(poly_reduce(a, q), poly_reduce(b, q), k, i - 1);
        let t2 = negacyclic_term(a, b, k, i - 1);
        vstd::arithmetic::div_mod::lemma_add_mod_noop(s1, t1, qi);
        vstd::arithmetic::div_mod::lemma_add_mod_noop(s2, t2, qi);
    }
}

/// Largest value a lazy accumulator holds before it is reduced.
const LAZY_BOUND: u128 = 0x8000_0000_0000_0000_0000_0000_0000_0000;

/// Coefficient `k` of the negacyclic product of reduced operands. Positive
/// and negative terms are summed apart and reduced only when large.
fn negacyclic_coeff(a: &Vec<u64>, b: &Vec<u64>, k: usize, q: u64) -> (r: u64)
    requires
        valid_modulus(q),
        a@.len() == b@.len(),
        k < a@.len(),
        reduced_poly(a@, q),
        reduced_poly(b@, q),
    ensures
        r == (negacyclic_sum(a@, b@, k as int, a@.len() as int) % (q as int)) as u64,
        r < q,
{
    let n = a.len();
    let qi: Ghost<int> = Ghost(q as int);
    let mut pos: u128 = 0;
    let mut neg: u128 = 0;
    let mut i: usize = 0;
    while i <= k
        invariant
            valid_modulus(q),
            qi@ == q as int,
            n == a@.len(),
            n == b@.len(),
            k < n,
            i <= k + 1,
            reduced_poly(a@, q),
            reduced_poly(b@, q),
            pos < LAZY_BOUND,
            neg == 0,
            (pos - neg) % qi@ == negacyclic_sum(a@, b@, k as int, i as int) % qi@,
        decreases k + 1 - i,
    {
        let x = a[i];
        let y = b[k - i];
        proof {
            let m: int = 0x8000_0000_0000_0000;
            assert((x as int) * (y as int) < m * m) by (nonlinear_arith)
                requires
                    0 <= x < m,
                    0 <= y < m,
            ;
        }
        let prod = (x as u128) * (y as u128);
        let ghost s = negacyclic_sum(a@, b@, k as int, i as int);
        let ghost old_pos = pos;
        pos = pos + prod;
        proof {
            vstd::arithmetic::div_mod::lemma_add_mod_noop(old_pos - neg, prod as int, qi@);
            vstd::arithmetic::div_mod::lemma_add_mod_noop(s, prod as int, qi@);
            assert(pos - neg == (old_pos - neg) + prod);
        }
        if pos >= LAZY_BOUND {
            let ghost big = pos;
            pos = pos % (q as u128);
            proof {
                lemma_reduce_left(big as int, neg as int, qi@);
            }
        }
        i += 1;
    }
    while i < n
        invariant
            valid_modulus(q),
            qi@ == q as int,
            n == a@.len(),
            n == b@.len(),
            k < n,
            k < i <= n,
            reduced_poly(a@, q),
            reduced_poly(b@, q),
            pos < LAZY_BOUND,
            neg < LAZY_BOUND,
            (pos - neg) % qi@ == negacyclic_sum(a@, b@, k as int, i as int) % qi@,
        decreases n - i,
    {
        let x = a[i];
        let y = b[k + (n - i)];
        proof {
            let m: int = 0x8000_0000_0000_0000;
            assert((x as int) * (y as int) < m * m) by (nonlinear_arith)
                requires
                    0 <= x < m,
                    0 <= y < m,
            ;
        }
        let prod = (x as u128) * (y as u128);
        let ghost s = negacyclic_sum(a@, b@, k as int, i as int);
        let ghost old_neg = neg;
        neg = neg + prod;
        proof {
            vstd::arithmetic::div_mod::lemma_add_mod_noop(pos - old_neg, -(prod as int), qi@);
            vstd::arithmetic::div_mod::lemma_add_mod_noop(s, -(prod as int), qi@);
            assert(pos - neg == (pos - old_neg) + -(prod as int));
        }
        if neg >= LAZY_BOUND {
            let ghost big = neg;
            neg = neg % (q as u128);
            proof {
                lemma_reduce_right(pos as int, big as int, qi@);
            }
        }
        i += 1;
    }
    let pr = pos % (q as u128);
    let nr = neg % (q as u128);
    proof {
        lemma_reduce_left(pos as int, neg as int, qi@);
        lemma_reduce_right(pr as int, neg as int, qi@);
        vstd::arithmetic::div_mod::lemma_mod_bound(
            negacyclic_sum(a@, b@, k as int, n as int),
            qi@,
        );
    }
    if pr >= nr {
        proof {
            vstd::arithmetic::div_mod::lemma_small_mod((pr - nr) as nat, q as nat);
        }
        (pr - nr) as u64
    } else {
        proof {
            vstd::arithmetic::div_mod::lemma_fundamental_div_mod_converse(
                pr - nr,
                qi@,
                -1,
                q + pr - nr,
            );
        }
        (q as u128 + pr - nr) as u64
    }
}

/// Reducing the left operand of a difference keeps it modulo `m`.
proof fn lemma_reduce_left(x: int, y: int, m: int)
    requires
        m > 0,
    ensures
        (x % m - y) % m == (x - y) % m,
{
    vstd::arithmetic::div_mod::lemma_sub_mod_noop(x % m, y, m);
    vstd::arithmetic::div_mod::lemma_sub_mod_noop(x, y, m);
    vstd::arithmetic::div_mod::lemma_mod_twice(x, m);
}

/// Reducing the right operand of a difference keeps it modulo `m`.
proof fn lemma_reduce_right(x: int, y: int, m: int)
    requires
        m > 0,
    ensures
        (x - y % m) % m == (x - y) % m,
{
    vstd::arithmetic::div_mod::lemma_sub_mod_noop(x, y % m, m);
    vstd::arithmetic::div_mod::lemma_sub_mod_noop(x, y, m);
    vstd::arithmetic::div_mod::lemma_mod_twice(y, m);
}

/// The negacyclic product `a * b` in `Z_q[X]/(X^n + 1)`, by schoolbook
/// multiplication of the reduced operands.
pub fn negacyclic_mul(a: &Vec<u64>, b: &Vec<u64>, q: u64) -> (r: Vec<u64>)
    requires
        valid_modulus(q),
        a@.len() == b@.len(),
    ensures
        r@ == poly_mul(a@, b@, q),
        reduced_poly(r@, q),
{
    let n = a.len();
    let ar = reduce_all(a, q);
    let br = reduce_all(b, q);
    let mut r: Vec<u64> = Vec::new();
    let mut k: usize = 0;
    while k < n
        invariant
            valid_modulus(q),
            n == a@.len(),
            n == b@.len(),
            ar@ == poly_reduce(a@, q),
            br@ == poly_reduce(b@, q),
            reduced_poly(ar@, q),
            reduced_poly(br@, q),
            k <= n,
            r@.len() == k,
            forall|j: int| 0 <= j < k ==> #[trigger] r@[j] == poly_mul(a@, b@, q)[j],
            reduced_poly(r@, q),
        decreases n - k,
    {
        let c = negacyclic_coeff(&ar, &br, k, q);
        proof {
            lemma_sum_congruent(a@, b@, k as int, n as int, q);
        }
        r.push(c);
        k += 1;
    }
    assert(r@ =~= poly_mul(a@, b@, q));
    r
}

/// `acc += a * b` in the ring.
pub fn poly_mul_add_assign(acc: &mut Vec<u64>, a: &Vec<u64>, b: &Vec<u64>, q: u64)
    requires
        valid_modulus(q),
        a@.len() == b@.len(),
        old(acc)@.len() == a@.len(),
        reduced_poly(old(acc)@, q),
    ensures
        final(acc)@ == poly_add(old(acc)@, poly_mul(a@, b@, q), q),
        reduced_poly(final(acc)@, q),
{
    let p = negacyclic_mul(a, b, q);
    poly_add_assign(acc, &p, q);
}

/// Negating values that agree modulo `q` gives values that agree modulo `q`.
proof fn lemma_neg_mod_congruent(u1: int, u2: int, q: int)
    requires
        q > 0,
        u1 % q == u2 % q,
    ensures
        (-u1) % q == (-u2) % q,
{
    vstd::arithmetic::div_mod::lemma_sub_mod_noop(0, u1, q);
    vstd::arithmetic::div_mod::lemma_sub_mod_noop(0, u2, q);
}

/// One term of the product with `b + c` is, modulo `q`, the sum of the terms
/// of the products with `b` and with `c`.
proof fn lemma_term_distributes(a: Seq<u64>, b: Seq<u64>, c: Seq<u64>, k: int, i: int, q: u64)
    requires
        valid_modulus(q),
        a.len() == b.len(),
        b.len() == c.len(),
        0 <= i < a.len(),
        0 <= k < a.len(),
    ensures
        negacyclic_term(a, poly_add(b, c, q), k, i) % (q as int) == (negacyclic_term(a, b, k, i)
            + negacyclic_term(a, c, k, i)) % (q as int),
{
    let n = a.len() as int;
    let qi = q as int;
    let j = if i <= k {
        k - i
    } else {
        k - i + n
    };
    let bc = poly_add(b, c, q);
    let x = a[i] as int;
    let y = b[j] as int;
    let z = c[j] as int;
    vstd::arithmetic::div_mod::lemma_mod_bound(y + z, qi);
    assert(bc[j] as int == (y + z) % qi);
    vstd::arithmetic::div_mod::lemma_mul_mod_noop_right(x, y + z, qi);
    vstd::arithmetic::mul::lemma_mul_is_distributive_add(x, y, z);
    if i <= k {
    } else {
        lemma_neg_mod_congruent(x * ((y + z) % qi), x * y + x * z, qi);
        assert(-(x * y) + -(x * z) == -(x * y + x * z));
    }
}

/// The partial sums of the product with `b + c` agree modulo `q` with the
/// sums of the partial sums of the products with `b` and with `c`.
proof fn lemma_sum_distributes(a: Seq<u64>, b: Seq<u64>, c: Seq<u64>, k: int, i: int, q: u64)
    requires
        valid_modulus(q),
        a.len() == b.len(),
        b.len() == c.len(),
        0 <= i <= a.len(),
        0 <= k < a.len(),
    ensures
        negacyclic_sum(a, poly_add(b, c, q), k, i) % (q as int) == (negacyclic_sum(a, b, k, i)
            + negacyclic_sum(a, c, k, i)) % (q as int),
    decreases i,
{
    let qi = q as int;
    if i > 0 {
        lemma_sum_distributes(a, b, c, k, i - 1, q);
        lemma_term_distributes(a, b, c, k, i - 1, q);
        let sbc = negacyclic_sum(a, poly_add(b, c, q), k, i - 1);
        let sb = negacyclic_sum(a, b, k, i - 1);
        let sc = negacyclic_sum(a, c, k, i - 1);
        let tbc = negacyclic_term(a, poly_add(b, c, q), k, i - 1);
        let tb = negacyclic_term(a, b, k, i - 1);
        let tc = negacyclic_term(a, c, k, i - 1);
        vstd::arithmetic::div_mod::lemma_add_mod_noop(sbc, tbc, qi);
        vstd::arithmetic::div_mod::lemma_add_mod_noop(sb + sc, tb + tc, qi);
        assert(sb + sc + (tb + tc) == (sb + tb) + (sc + tc));
    } else {
        vstd::arithmetic::div_mod::lemma_small_mod(0, q as nat);
    }
}

/// The negacyclic product distributes over addition:
/// `a * (b + c) = a * b + a * c`.
pub proof fn lemma_mul_distributes(a: Seq<u64>, b: Seq<u64>, c: Seq<u64>, q: u64)
    requires
        valid_modulus(q),
        a.len() == b.len(),
        b.len() == c.len(),
    ensures
        poly_mul(a, poly_add(b, c, q), q) == poly_add(poly_mul(a, b, q), poly_mul(a, c, q), q),
{
    let n = a.len() as int;
    let qi = q as int;
    let l = poly_mul(a, poly_add(b, c, q), q);
    let r = poly_add(poly_mul(a, b, q), poly_mul(a, c, q), q);
    assert forall|k: int| 0 <= k < n implies #[trigger] l[k] == r[k] by {
        lemma_sum_distributes(a, b, c, k, n, q);
        let sb = negacyclic_sum(a, b, k, n);
        let sc = negacyclic_sum(a, c, k, n);
        vstd::arithmetic::div_mod::lemma_mod_bound(sb, qi);
        vstd::arithmetic::div_mod::lemma_mod_bound(sc, qi);
        vstd::arithmetic::div_mod::lemma_mod_bound(negacyclic_sum(a, poly_add(b, c, q), k, n), qi);
        vstd::arithmetic::div_mod::lemma_add_mod_noop(sb, sc, qi);
    }
    assert(l =~= r);
}

} // verus!
