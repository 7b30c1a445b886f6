use vstd::prelude::*;
use crate::error::FheError;

verus! {

/// Number of non-zero entries.
pub open spec fn hamming_weight(s: Seq<i32>) -> nat
    decreases s.len(),
{
    if s.len() == 0 {
        0
    } else {
        hamming_weight(s.drop_last()) + if s.last() != 0 { 1nat } else { 0nat }
    }
}

/// Every entry is `-1`, `0` or `1`.
pub open spec fn is_ternary(s: Seq<i32>) -> bool {
    forall|i: int| 0 <= i < s.len() ==> -1 <= #[trigger] s[i] <= 1
}

/// A ternary vector of length `n` with exactly `h` non-zero entries.
pub open spec fn ternary_with_weight(s: Seq<i32>, h: nat, n: nat) -> bool {
    s.len() == n && is_ternary(s) && hamming_weight(s) == h
}

/// Setting a zero entry to a non-zero value raises the weight by one.
pub proof fn lemma_weight_update(s: Seq<i32>, k: int, v: i32)
    requires
        0 <= k < s.len(),
        s[k] == 0,
        v != 0,
    ensures
        hamming_weight(s.update(k, v)) == hamming_weight(s) + 1,
    decreases s.len(),
{
    let t = s.update(k, v);
    if k == s.len() - 1 {
        assert(t.drop_last() =~= s.drop_last());
    } else {
        lemma_weight_update(s.drop_last(), k, v);
        assert(t.drop_last() =~= s.drop_last().update(k, v));
    }
}

/// The all-zero vector has weight zero.
pub proof fn lemma_weight_zero(s: Seq<i32>)
    requires
        forall|i: int| 0 <= i < s.len() ==> s[i] == 0,
    ensures
        hamming_weight(s) == 0,
    decreases s.len(),
{
    if s.len() > 0 {
        lemma_weight_zero(s.drop_last());
    }
}

/// A ternary RLWE secret: `n` entries in `{-1, 0, 1}`.
#[derive(Clone, Debug)]
pub struct RlweSecret {
    pub values: Vec<i32>,
}

/// A ternary LWE secret.
#[derive(Clone, Debug)]
pub struct LweSecret {
    pub values: Vec<i32>,
}

/// The positions `0..n` after the first `i` steps of a partial Fisher-Yates
/// shuffle: step `s` exchanges position `s` with `s + draws[s] mod (n - s)`.
pub open spec fn shuffled(draws: Seq<u64>, n: nat, i: nat) -> Seq<usize>
    decreases i,
{
    if i == 0 {
        Seq::new(n, |t: int| t as usize)
    } else {
        let p = shuffled(draws, n, (i - 1) as nat);
        let s = i - 1;
        let j = s + (draws[s] % ((n - s) as u64)) as int;
        p.update(s, p[j]).update(j, p[s])
    }
}

/// The sign a draw gives: `+1` for an even draw, `-1` for an odd one.
pub open spec fn sign_of(draw: u64) -> i32 {
    if draw % 2 == 0 {
        1i32
    } else {
        -1i32
    }
}

/// `n` zeros with the first `i` shuffled positions set to the signs of
/// `draws[hw ..]`.
pub open spec fn placed(draws: Seq<u64>, hw: nat, n: nat, i: nat) -> Seq<i32>
    decreases i,
{
    if i == 0 {
        Seq::new(n, |t: int| 0i32)
    } else {
        placed(draws, hw, n, (i - 1) as nat).update(
            shuffled(draws, n, hw)[i - 1] as int,
            sign_of(draws[hw + i - 1]),
        )
    }
}

/// The ternary vector that `draws` selects: `hw` shuffled positions of `n`,
/// each with the sign of its draw.
pub open spec fn ternary_from_draws(hw: nat, n: nat, draws: Seq<u64>) -> Seq<i32> {
    placed(draws, hw, n, hw)
}

/// Fills a vector of length `n` with `hw` entries of `+1` or `-1` at positions
/// chosen by a partial Fisher-Yates shuffle. `draws[i]` picks the `i`-th
/// position among those still free and the low bit of `draws[hw + i]` its sign
/// (`0` is `+1`).
pub fn ternary_with_hamming_weight(hw: usize, n: usize, draws: &Vec<u64>) -> (r: Result<
    Vec<i32>,
    FheError,
>)
    requires
        hw <= n ==> draws@.len() >= 2 * hw,
    ensures
        r.is_err() <==> hw > n,
        r matches Err(e) ==> e == FheError::InvalidParameter,
        r matches Ok(v) ==> ternary_with_weight(v@, hw as nat, n as nat) && v@
            == ternary_from_draws(hw as nat, n as nat, draws@),
{
    if hw > n {
        return Err(FheError::InvalidParameter);
    }
    let mut idx: Vec<usize> = Vec::new();
    let mut i: usize = 0;
    while i < n
        invariant
            i <= n,
            idx@.len() == i,
            forall|t: int| 0 <= t < i ==> idx@[t] == t,
        decreases n - i,
    {
        idx.push(i);
        i += 1;
    }
    assert(idx@ =~= shuffled(draws@, n as nat, 0));
    let mut i: usize = 0;
    while i < hw
        invariant
            hw <= n,
            i <= hw,
            idx@.len() == n,
            draws@.len() >= 2 * hw,
            forall|t: int| 0 <= t < n ==> #[trigger] idx@[t] < n,
            forall|a: int, b: int| 0 <= a < n && 0 <= b < n && a != b ==> idx@[a] != idx@[b],
            idx@ == shuffled(draws@, n as nat, i as nat),
        decreases hw - i,
    {
        let j = i + (draws[i] % ((n - i) as u64)) as usize;
        let x = idx[i];
        let y = idx[j];
        idx.set(i, y);
        idx.set(j, x);
        i += 1;
        assert(idx@ =~= shuffled(draws@, n as nat, i as nat));
    }
    let mut out: Vec<i32> = Vec::new();
    let mut t: usize = 0;
    while t < n
        invariant
            t <= n,
            out@.len() == t,
            forall|u: int| 0 <= u < t ==> out@[u] == 0,
        decreases n - t,
    {
        out.push(0);
        t += 1;
    }
    proof {
        lemma_weight_zero(out@);
        assert(out@ =~= placed(draws@, hw as nat, n as nat, 0));
    }
    let mut i: usize = 0;
    while i < hw
        invariant
            hw <= n,
            i <= hw,
            idx@.len() == n,
            out@.len() == n,
            draws@.len() >= 2 * hw,
            forall|t: int| 0 <= t < n ==> #[trigger] idx@[t] < n,
            forall|a: int, b: int| 0 <= a < n && 0 <= b < n && a != b ==> idx@[a] != idx@[b],
            forall|t: int| i <= t < n ==> out@[#[trigger] idx@[t] as int] == 0,
            is_ternary(out@),
            hamming_weight(out@) == i,
            idx@ == shuffled(draws@, n as nat, hw as nat),
            out@ == placed(draws@, hw as nat, n as nat, i as nat),
        decreases hw - i,
    {
        let len = draws.len();
        assert(hw + i < len);
        let sign: i32 = if draws[hw + i] % 2 == 0 {
            1
        } else {
            -1
        };
        let p = idx[i];
        proof {
            lemma_weight_update(out@, p as int, sign);
        }
        out.set(p, sign);
        proof {
            assert forall|t: int| i + 1 <= t < n implies out@[#[trigger] idx@[t] as int] == 0 by {
                assert(idx@[t] != idx@[i as int]);
            }
        }
        i += 1;
    }
    Ok(out)
}

impl RlweSecret {
    /// A secret of `n` ternary entries with exactly `hw` non-zero entries,
    /// placed by `draws` as [`ternary_with_hamming_weight`] describes.
    pub fn random(hw: usize, n: usize, draws: &Vec<u64>) -> (r: Result<RlweSecret, FheError>)
        requires
            hw <= n ==> draws@.len() >= 2 * hw,
        ensures
            r.is_err() <==> hw > n,
            r matches Err(e) ==> e == FheError::InvalidParameter,
            r matches Ok(s) ==> ternary_with_weight(s.values@, hw as nat, n as nat) && s.values@
                == ternary_from_draws(hw as nat, n as nat, draws@),
    {
        match ternary_with_hamming_weight(hw, n, draws) {
            Ok(values) => Ok(RlweSecret { values }),
            Err(e) => Err(e),
        }
    }

    /// The secret's entries.
    pub fn values(&self) -> (r: &Vec<i32>)
        ensures
            r == &self.values,
    {
        &self.values
    }
}

impl LweSecret {
    /// A secret of `n` ternary entries with exactly `hw` non-zero entries.
    pub fn random(hw: usize, n: usize, draws: &Vec<u64>) -> (r: Result<LweSecret, FheError>)
        requires
            hw <= n ==> draws@.len() >= 2 * hw,
        ensures
            r.is_err() <==> hw > n,
            r matches Err(e) ==> e == FheError::InvalidParameter,
            r matches Ok(s) ==> ternary_with_weight(s.values@, hw as nat, n as nat) && s.values@
                == ternary_from_draws(hw as nat, n as nat, draws@),
    {
        match ternary_with_hamming_weight(hw, n, draws) {
            Ok(values) => Ok(LweSecret { values }),
            Err(e) => Err(e),
        }
    }

    /// The secret's entries.
    pub fn values(&self) -> (r: &Vec<i32>)
        ensures
            r == &self.values,
    {
        &self.values
    }
}

} // verus!
