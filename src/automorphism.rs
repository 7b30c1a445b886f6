use vstd::prelude::*;
use crate::ring::{signed_to_mod, signed_to_residue};

verus! {

/// The exponent `k` of `X -> X^k` reduced into `[0, 2n)`.
pub open spec fn auto_power(n: nat, k: int) -> nat {
    signed_to_mod(k, (2 * n) as u64) as nat
}

/// `i * k mod 2n`: where `X^i` goes before folding by `X^n = -1`.
pub open spec fn auto_raw(n: nat, k: int, i: int) -> nat {
    ((i * auto_power(n, k)) % (2 * n as int)) as nat
}

/// Position of the image of `X^i` under `X -> X^k` in `Z[X]/(X^n + 1)`.
pub open spec fn auto_index(n: nat, k: int, i: int) -> nat {
    if auto_raw(n, k, i) >= n {
        (auto_raw(n, k, i) - n) as nat
    } else {
        auto_raw(n, k, i)
    }
}

/// Sign of the image of `X^i` under `X -> X^k`: `true` for `+`.
pub open spec fn auto_sign(n: nat, k: int, i: int) -> bool {
    auto_raw(n, k, i) < n
}

/// The tables of `X -> X^k` on a ring of `ring_size` coefficients:
/// `X^i` goes to `sign[i] * X^index[i]`. `k` must be odd and may be negative.
pub fn generate_auto_map(ring_size: usize, k: isize) -> (r: (Vec<usize>, Vec<bool>))
    requires
        1 <= ring_size < 0x4000_0000_0000_0000,
        k % 2 == 1,
    ensures
        r.0@.len() == ring_size,
        r.1@.len() == ring_size,
        forall|i: int|
            0 <= i < ring_size ==> #[trigger] r.0@[i] == auto_index(ring_size as nat, k as int, i)
                && r.1@[i] == auto_sign(ring_size as nat, k as int, i),
{
    let two_n = 2 * (ring_size as u64);
    let kk = signed_to_residue(k as i64, two_n);
    let mut index: Vec<usize> = Vec::new();
    let mut sign: Vec<bool> = Vec::new();
    let mut i: usize = 0;
    while i < ring_size
        invariant
            two_n == 2 * ring_size,
            1 <= ring_size < 0x4000_0000_0000_0000,
            kk as nat == auto_power(ring_size as nat, k as int),
            kk < two_n,
            i <= ring_size,
            index@.len() == i,
            sign@.len() == i,
            forall|t: int|
                0 <= t < i ==> #[trigger] index@[t] == auto_index(ring_size as nat, k as int, t)
                    && sign@[t] == auto_sign(ring_size as nat, k as int, t),
        decreases ring_size - i,
    {
        proof {
            let a = i as int;
            let b = kk as int;
            assert(a * b < 0x4000_0000_0000_0000 * 0x8000_0000_0000_0000) by (nonlinear_arith)
                requires
                    0 <= a < 0x4000_0000_0000_0000,
                    0 <= b < 0x8000_0000_0000_0000,
            ;
        }
        let t = (((i as u128) * (kk as u128)) % (two_n as u128)) as u64;
        proof {
            vstd::arithmetic::div_mod::lemma_mod_bound((i as int) * (kk as int), two_n as int);
        }
        assert(t as nat == auto_raw(ring_size as nat, k as int, i as int));
        if t >= ring_size as u64 {
            index.push((t - ring_size as u64) as usize);
            sign.push(false);
        } else {
            index.push(t as usize);
            sign.push(true);
        }
        i += 1;
    }
    (index, sign)
}

} // verus!
