use vstd::prelude::*;

verus! {

/// Largest modulus this library works with: sums of two reduced values fit in `u64`.
pub const MAX_MODULUS: u64 = 0x8000_0000_0000_0000;

/// A modulus the arithmetic of this library accepts.
pub open spec fn valid_modulus(q: u64) -> bool {
    1 < q && q < MAX_MODULUS
}

/// `x` is a reduced residue modulo `q`.
pub open spec fn reduced(x: u64, q: u64) -> bool {
    x < q
}

pub open spec fn add_spec(a: u64, b: u64, q: u64) -> u64 {
    ((a + b) % (q as int)) as u64
}

pub open spec fn sub_spec(a: u64, b: u64, q: u64) -> u64 {
    ((a - b) % (q as int)) as u64
}

pub open spec fn neg_spec(a: u64, q: u64) -> u64 {
    ((-a) % (q as int)) as u64
}

pub open spec fn mul_spec(a: u64, b: u64, q: u64) -> u64 {
    ((a * b) % (q as int)) as u64
}

/// `(a + b) mod q`.
pub fn mod_add(a: u64, b: u64, q: u64) -> (r: u64)
    requires
        valid_modulus(q),
        reduced(a, q),
        reduced(b, q),
    ensures
        r == add_spec(a, b, q),
        reduced(r, q),
{
    let s = a + b;
    if s >= q {
        proof {
            vstd::arithmetic::div_mod::lemma_fundamental_div_mod_converse(s as int, q as int, 1, s - q);
        }
        s - q
    } else {
        proof {
            vstd::arithmetic::div_mod::lemma_small_mod(s as nat, q as nat);
        }
        s
    }
}

/// `(a - b) mod q`.
pub fn mod_sub(a: u64, b: u64, q: u64) -> (r: u64)
    requires
        valid_modulus(q),
        reduced(a, q),
        reduced(b, q),
    ensures
        r == sub_spec(a, b, q),
        reduced(r, q),
{
    if a >= b {
        proof {
            vstd::arithmetic::div_mod::lemma_small_mod((a - b) as nat, q as nat);
        }
        a - b
    } else {
        proof {
            vstd::arithmetic::div_mod::lemma_fundamental_div_mod_converse(a - b, q as int, -1, q + a - b);
        }
        q - b + a
    }
}

/// `(-a) mod q`.
pub fn mod_neg(a: u64, q: u64) -> (r: u64)
    requires
        valid_modulus(q),
        reduced(a, q),
    ensures
        r == neg_spec(a, q),
        reduced(r, q),
{
    if a == 0 {
        0
    } else {
        proof {
            vstd::arithmetic::div_mod::lemma_fundamental_div_mod_converse(-a, q as int, -1, q - a);
        }
        q - a
    }
}

/// `(a * b) mod q`.
pub fn mod_mul(a: u64, b: u64, q: u64) -> (r: u64)
    requires
        valid_modulus(q),
    ensures
        r == mul_spec(a, b, q),
        reduced(r, q),
{
    proof {
        let m: int = 0xffff_ffff_ffff_ffff;
        assert(a * b <= m * m) by (nonlinear_arith)
            requires
                0 <= a <= m,
                0 <= b <= m,
        ;
    }
    let p = (a as u128) * (b as u128);
    proof {
        vstd::arithmetic::div_mod::lemma_mod_pos_bound(p as int, q as int);
    }
    (p % (q as u128)) as u64
}

/// `2^64`, the word size of the Shoup representation.
pub open spec fn word() -> int {
    0x1_0000_0000_0000_0000
}

/// The Shoup companion of `x` modulo `q`: `floor(x * 2^64 / q)`.
pub open spec fn shoup_spec(x: u64, q: u64) -> int {
    (x * word()) / (q as int)
}

/// What Shoup's multiplication computes from `a`, `x` and the companion `y`
/// of `x`: `t = floor(a y / 2^64)`, `r = a x - t q`, less `q` once if needed.
pub open spec fn shoup_mul_spec(a: u64, x: u64, y: int, q: u64) -> int {
    let t = (a * y) / word();
    let r = a * x - t * q;
    if r >= q {
        r - q
    } else {
        r
    }
}

/// The Shoup companion `floor(x * 2^64 / q)` of a reduced `x`.
pub fn to_shoup(x: u64, q: u64) -> (r: u64)
    requires
        valid_modulus(q),
        reduced(x, q),
    ensures
        r as int == shoup_spec(x, q),
{
    proof {
        let xi = x as int;
        let qi = q as int;
        assert(xi * word() < qi * word()) by (nonlinear_arith)
            requires
                0 <= xi < qi,
        ;
        vstd::arithmetic::div_mod::lemma_div_is_ordered(xi * word(), qi * word(), qi);
        vstd::arithmetic::div_mod::lemma_div_multiples_vanish(word(), qi);
        assert(xi * word() / qi < word()) by {
            vstd::arithmetic::div_mod::lemma_div_by_multiple_is_strongly_ordered(
                xi * word(),
                qi * word(),
                word(),
                qi,
            );
        }
        assert(xi * word() <= 0x7fff_ffff_ffff_ffff * word()) by (nonlinear_arith)
            requires
                0 <= xi <= 0x7fff_ffff_ffff_ffff,
        ;
    }
    (((x as u128) * 0x1_0000_0000_0000_0000u128) / (q as u128)) as u64
}

/// Shoup's multiplication modulo `q` of `a` by a reduced `x`, given the
/// companion `x_shoup` of `x`.
pub fn shoup_mul(a: u64, x: u64, x_shoup: u64, q: u64) -> (r: u64)
    requires
        valid_modulus(q),
        reduced(x, q),
        x_shoup as int == shoup_spec(x, q),
    ensures
        r as int == shoup_mul_spec(a, x, x_shoup as int, q),
        r == mul_spec(a, x, q),
{
    proof {
        lemma_shoup_mul_matches(a, x, q);
        let m: int = 0xffff_ffff_ffff_ffff;
        assert(a * x_shoup <= m * m) by (nonlinear_arith)
            requires
                0 <= a <= m,
                0 <= x_shoup <= m,
        ;
        assert(a * x <= m * m) by (nonlinear_arith)
            requires
                0 <= a <= m,
                0 <= x <= m,
        ;
        lemma_shoup_quotient_bounds(a, x, q);
    }
    let t = ((a as u128) * (x_shoup as u128)) / 0x1_0000_0000_0000_0000u128;
    let ax = (a as u128) * (x as u128);
    let tq = t * (q as u128);
    let r = ax - tq;
    if r >= q as u128 {
        (r - q as u128) as u64
    } else {
        r as u64
    }
}

/// With `y` the companion of `x` and `t = floor(a y / 2^64)`:
/// `0 <= a x - t q < 2q`.
pub proof fn lemma_shoup_quotient_bounds(a: u64, x: u64, q: u64)
    requires
        valid_modulus(q),
        reduced(x, q),
    ensures
        ({
            let y = shoup_spec(x, q);
            let t = (a * y) / word();
            0 <= t * q <= a * x && a * x - t * q < 2 * q && 0 <= y < word() && 0 <= t
        }),
{
    let w = word();
    let qi = q as int;
    let xi = x as int;
    let ai = a as int;
    let y = shoup_spec(x, q);
    vstd::arithmetic::div_mod::lemma_fundamental_div_mod(xi * w, qi);
    vstd::arithmetic::div_mod::lemma_mod_bound(xi * w, qi);
    assert(0 <= xi * w) by (nonlinear_arith)
        requires
            0 <= xi,
            w > 0,
    ;
    vstd::arithmetic::div_mod::lemma_div_pos_is_pos(xi * w, qi);
    // y q <= x w < y q + q
    assert(y * qi <= xi * w && xi * w < y * qi + qi) by (nonlinear_arith)
        requires
            xi * w == qi * y + (xi * w) % qi,
            0 <= (xi * w) % qi < qi,
    ;
    assert(y < w) by (nonlinear_arith)
        requires
            y * qi <= xi * w,
            0 <= xi < qi,
            w > 0,
            y >= 0,
    ;
    assert(0 <= ai * y) by (nonlinear_arith)
        requires
            0 <= ai,
            0 <= y,
    ;
    let t = (ai * y) / w;
    vstd::arithmetic::div_mod::lemma_fundamental_div_mod(ai * y, w);
    vstd::arithmetic::div_mod::lemma_mod_bound(ai * y, w);
    vstd::arithmetic::div_mod::lemma_div_pos_is_pos(ai * y, w);
    assert(t * w <= ai * y && ai * y < t * w + w) by (nonlinear_arith)
        requires
            ai * y == w * t + (ai * y) % w,
            0 <= (ai * y) % w < w,
    ;
    // t q <= a x
    assert(t * qi <= ai * xi) by (nonlinear_arith)
        requires
            t * w <= ai * y,
            y * qi <= xi * w,
            0 <= ai,
            0 < qi,
            w > 0,
    ;
    // a x < t q + 2 q
    assert(ai * xi < t * qi + 2 * qi) by (nonlinear_arith)
        requires
            xi * w < y * qi + qi,
            ai * y < t * w + w,
            0 <= ai < w,
            0 < qi,
            w > 0,
            t >= 0,
    ;
    assert(0 <= t * qi) by (nonlinear_arith)
        requires
            0 <= t,
            0 < qi,
    ;
}

/// Shoup's multiplication agrees with the plain product modulo `q` for every
/// multiplier `a` and every reduced `x`.
pub proof fn lemma_shoup_mul_matches(a: u64, x: u64, q: u64)
    requires
        valid_modulus(q),
        reduced(x, q),
    ensures
        shoup_mul_spec(a, x, shoup_spec(x, q), q) == mul_spec(a, x, q) as int,
{
    lemma_shoup_quotient_bounds(a, x, q);
    let y = shoup_spec(x, q);
    let t = (a * y) / word();
    let r = a * x - t * q;
    let qi = q as int;
    let m: int = 0xffff_ffff_ffff_ffff;
    assert(a * x <= m * m) by (nonlinear_arith)
        requires
            0 <= a <= m,
            0 <= x <= m,
    ;
    if r >= qi {
        assert((t + 1) * qi + (r - qi) == a * x) by (nonlinear_arith)
            requires
                r == a * x - t * qi,
        ;
        vstd::arithmetic::div_mod::lemma_fundamental_div_mod_converse(a * x, qi, t + 1, r - qi);
    } else {
        vstd::arithmetic::div_mod::lemma_fundamental_div_mod_converse(a * x, qi, t, r);
    }
}

} // verus!
