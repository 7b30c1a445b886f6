use vstd::prelude::*;
use crate::arith::{mod_neg, neg_spec, valid_modulus};
use crate::decompose::{decompose_r, decomposed, DefaultDecomposer};
use crate::automorphism::{auto_index, auto_sign, generate_auto_map};
use crate::draws::{copy_rows, draw_rows, drawn_rows};
use crate::ring::{
    negacyclic_mul, poly_add, poly_add_assign, poly_mul, poly_mul_add_assign, poly_neg,
    poly_negate, poly_scalar_mul, poly_scale, poly_zero, reduced_poly, signed_poly,
    signed_to_poly, zero_poly,
};
use crate::rlwe::{matrix_wf, rows, RlweCiphertext, Seed};
use crate::secret::ternary_with_weight;

verus! {

/// Every row has `n` coefficients.
pub open spec fn rows_len(m: Seq<Seq<u64>>, n: nat) -> bool {
    forall|i: int| 0 <= i < m.len() ==> (#[trigger] m[i]).len() == n
}

/// `acc + sum_{t < j} xs[t] * ys[t]` in the ring.
pub open spec fn mac(acc: Seq<u64>, xs: Seq<Seq<u64>>, ys: Seq<Seq<u64>>, j: int, q: u64) -> Seq<
    u64,
>
    decreases j,
{
    if j <= 0 {
        acc
    } else {
        poly_add(mac(acc, xs, ys, j - 1, q), poly_mul(xs[j - 1], ys[j - 1], q), q)
    }
}

/// The external product of `(a, b)` with the RGSW rows `r` (`4d` rows:
/// `RLWE'_A(-sm)`, `RLWE'_B(-sm)`, `RLWE'_A(m)`, `RLWE'_B(m)`), leaving out
/// the first `skip0` digits of `a` and the first `skip1` digits of `b`. A
/// trivial input contributes nothing through `a`.
pub open spec fn ext_product(
    a: Seq<u64>,
    b: Seq<u64>,
    trivial: bool,
    r: Seq<Seq<u64>>,
    dec: DefaultDecomposer,
    skip0: int,
    skip1: int,
    q: u64,
) -> Seq<Seq<u64>> {
    let n = b.len();
    let d = dec.d as int;
    let da = decomposed(a, dec);
    let db = decomposed(b, dec);
    let a0 = if trivial {
        poly_zero(n)
    } else {
        mac(poly_zero(n), da.subrange(skip0, d), r.subrange(skip0, d), d - skip0, q)
    };
    let b0 = if trivial {
        poly_zero(n)
    } else {
        mac(poly_zero(n), da.subrange(skip0, d), r.subrange(d + skip0, 2 * d), d - skip0, q)
    };
    seq![
        mac(a0, db.subrange(skip1, d), r.subrange(2 * d + skip1, 3 * d), d - skip1, q),
        mac(b0, db.subrange(skip1, d), r.subrange(3 * d + skip1, 4 * d), d - skip1, q),
    ]
}

/// `acc += sum_{t < count} xs[x0 + t] * ys[y0 + t]`.
pub fn routine(
    acc: &mut Vec<u64>,
    xs: &Vec<Vec<u64>>,
    x0: usize,
    ys: &Vec<Vec<u64>>,
    y0: usize,
    count: usize,
    q: u64,
)
    requires
        valid_modulus(q),
        x0 + count <= xs@.len(),
        y0 + count <= ys@.len(),
        rows_len(rows(xs@), old(acc)@.len()),
        rows_len(rows(ys@), old(acc)@.len()),
        reduced_poly(old(acc)@, q),
    ensures
        final(acc)@ == mac(
            old(acc)@,
            rows(xs@).subrange(x0 as int, x0 + count),
            rows(ys@).subrange(y0 as int, y0 + count),
            count as int,
            q,
        ),
        reduced_poly(final(acc)@, q),
        final(acc)@.len() == old(acc)@.len(),
{
    let ghost xr = rows(xs@).subrange(x0 as int, x0 + count);
    let ghost yr = rows(ys@).subrange(y0 as int, y0 + count);
    let mut t: usize = 0;
    while t < count
        invariant
            valid_modulus(q),
            x0 + count <= xs@.len(),
            y0 + count <= ys@.len(),
            xr == rows(xs@).subrange(x0 as int, x0 + count),
            yr == rows(ys@).subrange(y0 as int, y0 + count),
            rows_len(rows(xs@), old(acc)@.len()),
            rows_len(rows(ys@), old(acc)@.len()),
            acc@.len() == old(acc)@.len(),
            t <= count,
            acc@ == mac(old(acc)@, xr, yr, t as int, q),
            reduced_poly(acc@, q),
        decreases count - t,
    {
        let xl = xs.len();
        let yl = ys.len();
        assert(x0 + t < xl && y0 + t < yl);
        assert(rows(xs@)[x0 + t] == xs@[x0 + t]@);
        assert(rows(ys@)[y0 + t] == ys@[y0 + t]@);
        poly_mul_add_assign(acc, &xs[x0 + t], &ys[y0 + t], q);
        t += 1;
    }
}

/// The two rows of the external product of `(a, b)` with `rgsw`.
fn external_product_rows(
    a: &Vec<u64>,
    b: &Vec<u64>,
    trivial: bool,
    rgsw: &Vec<Vec<u64>>,
    decomposer: &DefaultDecomposer,
    skip0: usize,
    skip1: usize,
    q: u64,
) -> (r: (Vec<u64>, Vec<u64>))
    requires
        decomposer.wf(),
        decomposer.q == q,
        a@.len() == b@.len(),
        reduced_poly(a@, q),
        reduced_poly(b@, q),
        rgsw@.len() == 4 * decomposer.d,
        rows_len(rows(rgsw@), b@.len()),
        skip0 <= decomposer.d,
        skip1 <= decomposer.d,
    ensures
        seq![r.0@, r.1@] == ext_product(
            a@,
            b@,
            trivial,
            rows(rgsw@),
            *decomposer,
            skip0 as int,
            skip1 as int,
            q,
        ),
        r.0@.len() == b@.len(),
        r.1@.len() == b@.len(),
        reduced_poly(r.0@, q),
        reduced_poly(r.1@, q),
{
    let d = decomposer.d;
    let n = b.len();
    let rl = rgsw.len();
    assert(rl == 4 * d);
    let mut a_out = zero_poly(n);
    let mut b_out = zero_poly(n);
    if !trivial {
        let da = decompose_r(a, decomposer);
        assert(rows(da@).len() == d);
        routine(&mut a_out, &da, skip0, rgsw, skip0, d - skip0, q);
        routine(&mut b_out, &da, skip0, rgsw, d + skip0, d - skip0, q);
    }
    let db = decompose_r(b, decomposer);
    assert(rows(db@).len() == d);
    routine(&mut a_out, &db, skip1, rgsw, 2 * d + skip1, d - skip1, q);
    routine(&mut b_out, &db, skip1, rgsw, 3 * d + skip1, d - skip1, q);
    proof {
        let ghost e = ext_product(
            a@,
            b@,
            trivial,
            rows(rgsw@),
            *decomposer,
            skip0 as int,
            skip1 as int,
            q,
        );
        assert(seq![a_out@, b_out@] =~= e);
    }
    (a_out, b_out)
}

/// `RLWE(m0) x RGSW(m1)`, leaving out the first `skip0` digits of the product
/// with `RLWE'(-s m1)` and the first `skip1` of the product with `RLWE'(m1)`.
/// Overwrites `rlwe_in` and clears its trivial flag.
pub fn less1_rlwe_by_rgsw(
    rlwe_in: &mut RlweCiphertext,
    rgsw_in: &Vec<Vec<u64>>,
    decomposer: &DefaultDecomposer,
    skip0: usize,
    skip1: usize,
    q: u64,
)
    requires
        decomposer.wf(),
        decomposer.q == q,
        old(rlwe_in).wf(old(rlwe_in).data@[1]@.len(), q),
        rgsw_in@.len() == 4 * decomposer.d,
        rows_len(rows(rgsw_in@), old(rlwe_in).data@[1]@.len()),
        skip0 <= decomposer.d,
        skip1 <= decomposer.d,
    ensures
        rows(final(rlwe_in).data@) == ext_product(
            rows(old(rlwe_in).data@)[0],
            rows(old(rlwe_in).data@)[1],
            old(rlwe_in).is_trivial,
            rows(rgsw_in@),
            *decomposer,
            skip0 as int,
            skip1 as int,
            q,
        ),
        !final(rlwe_in).is_trivial,
        final(rlwe_in).wf(old(rlwe_in).data@[1]@.len(), q),
{
    assert(rows(rlwe_in.data@)[0] == rlwe_in.data@[0]@);
    assert(rows(rlwe_in.data@)[1] == rlwe_in.data@[1]@);
    let (a_out, b_out) = external_product_rows(
        &rlwe_in.data[0],
        &rlwe_in.data[1],
        rlwe_in.is_trivial,
        rgsw_in,
        decomposer,
        skip0,
        skip1,
        q,
    );
    let mut data: Vec<Vec<u64>> = Vec::new();
    data.push(a_out);
    data.push(b_out);
    assert(rows(data@) =~= seq![a_out@, b_out@]);
    rlwe_in.data = data;
    rlwe_in.is_trivial = false;
}

/// `RLWE(m0) x RGSW(m1)`: overwrites `rlwe_in` with `RLWE(m0 * m1)` and clears
/// its trivial flag. `rgsw_in` holds `4d` rows.
pub fn rlwe_by_rgsw(
    rlwe_in: &mut RlweCiphertext,
    rgsw_in: &Vec<Vec<u64>>,
    decomposer: &DefaultDecomposer,
    q: u64,
)
    requires
        decomposer.wf(),
        decomposer.q == q,
        old(rlwe_in).wf(old(rlwe_in).data@[1]@.len(), q),
        rgsw_in@.len() == 4 * decomposer.d,
        rows_len(rows(rgsw_in@), old(rlwe_in).data@[1]@.len()),
    ensures
        rows(final(rlwe_in).data@) == ext_product(
            rows(old(rlwe_in).data@)[0],
            rows(old(rlwe_in).data@)[1],
            old(rlwe_in).is_trivial,
            rows(rgsw_in@),
            *decomposer,
            0,
            0,
            q,
        ),
        !final(rlwe_in).is_trivial,
        final(rlwe_in).wf(old(rlwe_in).data@[1]@.len(), q),
{
    less1_rlwe_by_rgsw(rlwe_in, rgsw_in, decomposer, 0, 0, q);
}

/// The rows of the internal product of the RGSW rows `o` with `r1`: the RLWE
/// ciphertext in rows `(t, d + t)` and the one in rows `(2d + t, 3d + t)`
/// are each replaced by their external product with `r1`.
#[verifier::opaque]
pub open spec fn internal_product(
    o: Seq<Seq<u64>>,
    r1: Seq<Seq<u64>>,
    dec: DefaultDecomposer,
    q: u64,
) -> Seq<Seq<u64>> {
    let d = dec.d as int;
    Seq::new(
        (4 * d) as nat,
        |i: int|
            if i < d {
                ext_product(o[i], o[d + i], false, r1, dec, 0, 0, q)[0]
            } else if i < 2 * d {
                ext_product(o[i - d], o[i], false, r1, dec, 0, 0, q)[1]
            } else if i < 3 * d {
                ext_product(o[i], o[d + i], false, r1, dec, 0, 0, q)[0]
            } else {
                ext_product(o[i - d], o[i], false, r1, dec, 0, 0, q)[1]
            },
    )
}

/// The internal product `RGSW(m0) x RGSW(m1)`: each of the `2d` RLWE
/// ciphertexts of `rgsw_0` (rows `t, d + t` and rows `2d + t, 3d + t`) is
/// replaced by its external product with `rgsw_1_eval`, which should be the
/// fresh, low-noise operand.
#[verifier::rlimit(100)]
pub fn rgsw_by_rgsw_inplace(
    rgsw_0: &mut Vec<Vec<u64>>,
    rgsw_1_eval: &Vec<Vec<u64>>,
    decomposer: &DefaultDecomposer,
    q: u64,
)
    requires
        decomposer.wf(),
        decomposer.q == q,
        old(rgsw_0)@.len() == 4 * decomposer.d,
        matrix_wf(rows(old(rgsw_0)@), 4 * decomposer.d as nat, old(rgsw_0)@[0]@.len(), q),
        rgsw_1_eval@.len() == 4 * decomposer.d,
        rows_len(rows(rgsw_1_eval@), old(rgsw_0)@[0]@.len()),
    ensures
        matrix_wf(rows(final(rgsw_0)@), 4 * decomposer.d as nat, old(rgsw_0)@[0]@.len(), q),
        rows(final(rgsw_0)@) == internal_product(
            rows(old(rgsw_0)@),
            rows(rgsw_1_eval@),
            *decomposer,
            q,
        ),
        forall|t: int|
            0 <= t < decomposer.d ==> seq![
                #[trigger] rows(final(rgsw_0)@)[t],
                rows(final(rgsw_0)@)[decomposer.d + t],
            ] == ext_product(
                rows(old(rgsw_0)@)[t],
                rows(old(rgsw_0)@)[decomposer.d + t],
                false,
                rows(rgsw_1_eval@),
                *decomposer,
                0,
                0,
                q,
            ) && seq![
                rows(final(rgsw_0)@)[2 * decomposer.d + t],
                rows(final(rgsw_0)@)[3 * decomposer.d + t],
            ] == ext_product(
                rows(old(rgsw_0)@)[2 * decomposer.d + t],
                rows(old(rgsw_0)@)[3 * decomposer.d + t],
                false,
                rows(rgsw_1_eval@),
                *decomposer,
                0,
                0,
                q,
            ),
{
    let d = decomposer.d;
    let ghost n = old(rgsw_0)@[0]@.len();
    let ghost o = rows(old(rgsw_0)@);
    let ghost r1 = rows(rgsw_1_eval@);
    let len = rgsw_0.len();
    assert(len == 4 * d);
    let mut t: usize = 0;
    while t < d
        invariant
            decomposer.wf(),
            decomposer.q == q,
            d == decomposer.d,
            len == 4 * d,
            o == rows(old(rgsw_0)@),
            r1 == rows(rgsw_1_eval@),
            rgsw_1_eval@.len() == 4 * d,
            rows_len(r1, n),
            matrix_wf(rows(rgsw_0@), 4 * d as nat, n, q),
            t <= d,
            forall|u: int|
                t <= u < d ==> #[trigger] rgsw_0@[u]@ == o[u] && rgsw_0@[d + u]@ == o[d + u]
                    && rgsw_0@[2 * d + u]@ == o[2 * d + u] && rgsw_0@[3 * d + u]@ == o[3 * d + u],
            forall|u: int|
                0 <= u < t ==> seq![#[trigger] rows(rgsw_0@)[u], rows(rgsw_0@)[d + u]]
                    == ext_product(o[u], o[d + u], false, r1, *decomposer, 0, 0, q) && seq![
                    rows(rgsw_0@)[2 * d + u],
                    rows(rgsw_0@)[3 * d + u],
                ] == ext_product(o[2 * d + u], o[3 * d + u], false, r1, *decomposer, 0, 0, q),
        decreases d - t,
    {
        let ghost prev = rows(rgsw_0@);
        assert(rows(rgsw_0@)[t as int] == rgsw_0@[t as int]@);
        assert(rows(rgsw_0@)[d + t] == rgsw_0@[d + t]@);
        assert(rows(rgsw_0@)[2 * d + t] == rgsw_0@[2 * d + t]@);
        assert(rows(rgsw_0@)[3 * d + t] == rgsw_0@[3 * d + t]@);
        let (x, y) = external_product_rows(
            &rgsw_0[t],
            &rgsw_0[d + t],
            false,
            rgsw_1_eval,
            decomposer,
            0,
            0,
            q,
        );
        assert(rgsw_0@[2 * d + t]@ == o[2 * d + t]);
        assert(rgsw_0@[3 * d + t]@ == o[3 * d + t]);
        rgsw_0.set(t, x);
        rgsw_0.set(d + t, y);
        assert(rgsw_0@[2 * d + t]@ == o[2 * d + t]);
        assert(rgsw_0@[3 * d + t]@ == o[3 * d + t]);
        assert(rows(rgsw_0@)[2 * d + t] == rgsw_0@[2 * d + t]@);
        assert(rows(rgsw_0@)[3 * d + t] == rgsw_0@[3 * d + t]@);
        let (x2, y2) = external_product_rows(
            &rgsw_0[2 * d + t],
            &rgsw_0[3 * d + t],
            false,
            rgsw_1_eval,
            decomposer,
            0,
            0,
            q,
        );
        rgsw_0.set(2 * d + t, x2);
        rgsw_0.set(3 * d + t, y2);
        proof {
            let nr = prev.update(t as int, x@).update(d + t, y@).update(2 * d + t, x2@).update(
                3 * d + t,
                y2@,
            );
            assert(rows(rgsw_0@) =~= nr);
            assert forall|i: int| 0 <= i < 4 * d implies (#[trigger] rows(rgsw_0@)[i]).len() == n
                && reduced_poly(rows(rgsw_0@)[i], q) by {
                if i != t as int && i != d + t && i != 2 * d + t && i != 3 * d + t {
                    assert(nr[i] == prev[i]);
                }
            }
            assert forall|u: int|
                0 <= u < t + 1 implies seq![#[trigger] rows(rgsw_0@)[u], rows(rgsw_0@)[d + u]]
                == ext_product(o[u], o[d + u], false, r1, *decomposer, 0, 0, q) && seq![
                rows(rgsw_0@)[2 * d + u],
                rows(rgsw_0@)[3 * d + u],
            ] == ext_product(o[2 * d + u], o[3 * d + u], false, r1, *decomposer, 0, 0, q) by {
                if u == t {
                    assert(rows(rgsw_0@)[u] == x@);
                    assert(rows(rgsw_0@)[d + u] == y@);
                    assert(rows(rgsw_0@)[2 * d + u] == x2@);
                    assert(rows(rgsw_0@)[3 * d + u] == y2@);
                    assert(seq![rows(rgsw_0@)[u], rows(rgsw_0@)[d + u]] =~= seq![x@, y@]);
                    assert(seq![rows(rgsw_0@)[2 * d + u], rows(rgsw_0@)[3 * d + u]] =~= seq![
                        x2@,
                        y2@,
                    ]);
                } else {
                    assert(rows(rgsw_0@)[u] == prev[u]);
                    assert(rows(rgsw_0@)[d + u] == prev[d + u]);
                    assert(rows(rgsw_0@)[2 * d + u] == prev[2 * d + u]);
                    assert(rows(rgsw_0@)[3 * d + u] == prev[3 * d + u]);
                }
            }
            assert forall|u: int| t + 1 <= u < d implies #[trigger] rgsw_0@[u]@ == o[u]
                && rgsw_0@[d + u]@ == o[d + u] && rgsw_0@[2 * d + u]@ == o[2 * d + u]
                && rgsw_0@[3 * d + u]@ == o[3 * d + u] by {
                assert(rows(rgsw_0@)[u] == prev[u]);
                assert(rows(rgsw_0@)[d + u] == prev[d + u]);
                assert(rows(rgsw_0@)[2 * d + u] == prev[2 * d + u]);
                assert(rows(rgsw_0@)[3 * d + u] == prev[3 * d + u]);
                assert(prev[u] == o[u]);
                assert(prev[d + u] == o[d + u]);
                assert(prev[2 * d + u] == o[2 * d + u]);
                assert(prev[3 * d + u] == o[3 * d + u]);
            }
        }
        t += 1;
    }
    proof {
        lemma_pairs_form_internal_product(rows(rgsw_0@), o, r1, *decomposer, q);
    }
}

/// A matrix whose row pairs are the external products of the row pairs of
/// `o` is the internal product of `o` with `r1`.
proof fn lemma_pairs_form_internal_product(
    res: Seq<Seq<u64>>,
    o: Seq<Seq<u64>>,
    r1: Seq<Seq<u64>>,
    dec: DefaultDecomposer,
    q: u64,
)
    requires
        res.len() == 4 * dec.d,
        forall|u: int|
            0 <= u < dec.d ==> seq![#[trigger] res[u], res[dec.d + u]] == ext_product(
                o[u],
                o[dec.d + u],
                false,
                r1,
                dec,
                0,
                0,
                q,
            ) && seq![res[2 * dec.d + u], res[3 * dec.d + u]] == ext_product(
                o[2 * dec.d + u],
                o[3 * dec.d + u],
                false,
                r1,
                dec,
                0,
                0,
                q,
            ),
    ensures
        res == internal_product(o, r1, dec, q),
{
    reveal(internal_product);
    let d = dec.d as int;
    let ip = internal_product(o, r1, dec, q);
    assert forall|i: int| 0 <= i < 4 * d implies #[trigger] res[i] == ip[i] by {
        if i < d {
            let e = ext_product(o[i], o[d + i], false, r1, dec, 0, 0, q);
            assert(seq![res[i], res[d + i]] == e);
            assert(seq![res[i], res[d + i]][0] == res[i]);
            assert(ip[i] == e[0]);
        } else if i < 2 * d {
            let u = i - d;
            let e = ext_product(o[u], o[d + u], false, r1, dec, 0, 0, q);
            assert(seq![res[u], res[d + u]] == e);
            assert(seq![res[u], res[d + u]][1] == res[i]);
            assert(ip[i] == e[1]);
        } else if i < 3 * d {
            let u = i - 2 * d;
            let e = ext_product(o[2 * d + u], o[3 * d + u], false, r1, dec, 0, 0, q);
            assert(seq![res[u], res[d + u]] == ext_product(o[u], o[d + u], false, r1, dec, 0, 0, q));
            assert(seq![res[2 * d + u], res[3 * d + u]] == e);
            assert(seq![res[2 * d + u], res[3 * d + u]][0] == res[i]);
            assert(ip[i] == e[0]);
        } else {
            let u = i - 3 * d;
            let e = ext_product(o[2 * d + u], o[3 * d + u], false, r1, dec, 0, 0, q);
            assert(seq![res[u], res[d + u]] == ext_product(o[u], o[d + u], false, r1, dec, 0, 0, q));
            assert(seq![res[2 * d + u], res[3 * d + u]] == e);
            assert(seq![res[2 * d + u], res[3 * d + u]][1] == res[i]);
            assert(ip[i] == e[1]);
        }
    }
    assert(res =~= ip);
}

/// Value written for coefficient `i` by `X -> X^k`: `x[i]`, negated where the
/// sign table says so.
pub open spec fn auto_entry(x: Seq<u64>, sign: Seq<bool>, i: int, q: u64) -> u64 {
    if sign[i] {
        x[i]
    } else {
        neg_spec(x[i], q)
    }
}

/// `base` with the first `i` coefficients of `x` written, signed, at their
/// images under the map `(index, sign)`.
pub open spec fn scatter(
    base: Seq<u64>,
    x: Seq<u64>,
    index: Seq<usize>,
    sign: Seq<bool>,
    q: u64,
    i: int,
) -> Seq<u64>
    decreases i,
{
    if i <= 0 {
        base
    } else {
        scatter(base, x, index, sign, q, i - 1).update(
            index[i - 1] as int,
            auto_entry(x, sign, i - 1, q),
        )
    }
}

/// `x(X) -> x(X^k)` for the map `(index, sign)` of `X -> X^k`.
pub open spec fn automorph(x: Seq<u64>, index: Seq<usize>, sign: Seq<bool>, q: u64) -> Seq<u64> {
    scatter(poly_zero(x.len()), x, index, sign, q, x.len() as int)
}

/// A table of `n` positions below `n` and `n` signs.
pub open spec fn auto_map_wf(index: Seq<usize>, sign: Seq<bool>, n: nat) -> bool {
    index.len() == n && sign.len() == n && forall|i: int| 0 <= i < n ==> #[trigger] index[i] < n
}

/// Applies the map `(index, sign)` to the coefficients of `x`.
pub fn apply_auto(x: &Vec<u64>, index: &Vec<usize>, sign: &Vec<bool>, q: u64) -> (r: Vec<u64>)
    requires
        valid_modulus(q),
        reduced_poly(x@, q),
        auto_map_wf(index@, sign@, x@.len()),
    ensures
        r@ == automorph(x@, index@, sign@, q),
        r@.len() == x@.len(),
        reduced_poly(r@, q),
{
    let n = x.len();
    let mut out = zero_poly(n);
    let mut i: usize = 0;
    while i < n
        invariant
            valid_modulus(q),
            n == x@.len(),
            reduced_poly(x@, q),
            auto_map_wf(index@, sign@, n as nat),
            i <= n,
            out@ == scatter(poly_zero(n as nat), x@, index@, sign@, q, i as int),
            out@.len() == n,
            reduced_poly(out@, q),
        decreases n - i,
    {
        let v = if sign[i] {
            x[i]
        } else {
            mod_neg(x[i], q)
        };
        out.set(index[i], v);
        i += 1;
    }
    out
}

/// What `galois_auto` makes of `(a, b)` with the key-switching key `ksk`
/// (`2d` rows: `RLWE'_A(-s(X^k))`, `RLWE'_B(-s(X^k))`).
pub open spec fn galois_result(
    a: Seq<u64>,
    b: Seq<u64>,
    trivial: bool,
    ksk: Seq<Seq<u64>>,
    index: Seq<usize>,
    sign: Seq<bool>,
    dec: DefaultDecomposer,
    q: u64,
) -> Seq<Seq<u64>> {
    let n = b.len();
    let d = dec.d as int;
    let bk = automorph(b, index, sign, q);
    if trivial {
        seq![a, bk]
    } else {
        let da = decomposed(automorph(a, index, sign, q), dec);
        seq![
            mac(poly_zero(n), da, ksk.subrange(0, d), d, q),
            mac(bk, da, ksk.subrange(d, 2 * d), d, q),
        ]
    }
}

/// Sends `RLWE_s(m(X))` to `RLWE_s(m(X^k))`: applies the automorphism to both
/// parts and key-switches `a(X^k)` back to `s` with `ksk`. A trivial input
/// only has `b` permuted.
pub fn galois_auto(
    rlwe_in: &mut RlweCiphertext,
    ksk: &Vec<Vec<u64>>,
    auto_map_index: &Vec<usize>,
    auto_map_sign: &Vec<bool>,
    decomposer: &DefaultDecomposer,
    q: u64,
)
    requires
        decomposer.wf(),
        decomposer.q == q,
        old(rlwe_in).wf(old(rlwe_in).data@[1]@.len(), q),
        ksk@.len() == 2 * decomposer.d,
        rows_len(rows(ksk@), old(rlwe_in).data@[1]@.len()),
        auto_map_wf(auto_map_index@, auto_map_sign@, old(rlwe_in).data@[1]@.len()),
    ensures
        rows(final(rlwe_in).data@) == galois_result(
            rows(old(rlwe_in).data@)[0],
            rows(old(rlwe_in).data@)[1],
            old(rlwe_in).is_trivial,
            rows(ksk@),
            auto_map_index@,
            auto_map_sign@,
            *decomposer,
            q,
        ),
        final(rlwe_in).is_trivial == old(rlwe_in).is_trivial,
        final(rlwe_in).wf(old(rlwe_in).data@[1]@.len(), q),
{
    let d = decomposer.d;
    let kl = ksk.len();
    assert(kl == 2 * d);
    assert(rows(rlwe_in.data@)[0] == rlwe_in.data@[0]@);
    assert(rows(rlwe_in.data@)[1] == rlwe_in.data@[1]@);
    let bk = apply_auto(&rlwe_in.data[1], auto_map_index, auto_map_sign, q);
    let mut data: Vec<Vec<u64>> = Vec::new();
    if rlwe_in.is_trivial {
        data.push(rlwe_in.data[0].clone());
        data.push(bk);
    } else {
        let ak = apply_auto(&rlwe_in.data[0], auto_map_index, auto_map_sign, q);
        let da = decompose_r(&ak, decomposer);
        assert(rows(da@).len() == d);
        let mut a_out = zero_poly(bk.len());
        routine(&mut a_out, &da, 0, ksk, 0, d, q);
        let mut b_out = bk;
        routine(&mut b_out, &da, 0, ksk, d, d, q);
        assert(rows(da@).subrange(0, d as int) =~= rows(da@));
        data.push(a_out);
        data.push(b_out);
    }
    let ghost g = galois_result(
        rows(rlwe_in.data@)[0],
        rows(rlwe_in.data@)[1],
        rlwe_in.is_trivial,
        rows(ksk@),
        auto_map_index@,
        auto_map_sign@,
        *decomposer,
        q,
    );
    assert(rows(data@) =~= g);
    rlwe_in.data = data;
}

/// Row `t` of an RLWE' encryption: `e + a * s + g * m` as `b`-row.
pub open spec fn gadget_b_row(
    e: Seq<u64>,
    a: Seq<u64>,
    s: Seq<u64>,
    m: Seq<u64>,
    g: u64,
    q: u64,
) -> Seq<u64> {
    poly_add(poly_add(e, poly_scale(m, g, q), q), poly_mul(a, s, q), q)
}

/// The `3d` rows of a seeded secret-key RGSW encryption of `m` under `s`:
/// `RLWE'_A(-sm)` (`a_t + g_t m`), `RLWE'_B(-sm)` (`e_t + a_t s`) and
/// `RLWE'_B(m)` (`e'_t + g_t m + a'_t s`), whose `a'_t` the seed regenerates.
pub open spec fn sk_rgsw_rows(
    m: Seq<u64>,
    s: Seq<i32>,
    g: Seq<u64>,
    a_nsm: Seq<Seq<u64>>,
    e_nsm: Seq<Seq<u64>>,
    a_m: Seq<Seq<u64>>,
    e_m: Seq<Seq<u64>>,
    q: u64,
) -> Seq<Seq<u64>> {
    let d = g.len() as int;
    let sq = signed_poly(s, q);
    Seq::new(
        (3 * d) as nat,
        |r: int|
            if r < d {
                poly_add(a_nsm[r], poly_scale(m, g[r], q), q)
            } else if r < 2 * d {
                poly_add(e_nsm[r - d], poly_mul(a_nsm[r - d], sq, q), q)
            } else {
                gadget_b_row(e_m[r - 2 * d], a_m[r - 2 * d], sq, m, g[r - 2 * d], q)
            },
    )
}

/// Seeded secret-key RGSW encryption of `m` under `s` with gadget `g`.
/// `a_nsm` and `e_nsm` are the uniform and error draws for `RLWE'(-sm)`,
/// `a_m` the seeded uniform draws and `e_m` the errors for `RLWE'(m)`.
pub fn secret_key_encrypt_rgsw(
    m: &Vec<u64>,
    s: &Vec<i32>,
    gadget_vector: &Vec<u64>,
    a_nsm: &Vec<Vec<u64>>,
    e_nsm: &Vec<Vec<u64>>,
    a_m: &Vec<Vec<u64>>,
    e_m: &Vec<Vec<u64>>,
    q: u64,
) -> (r: Vec<Vec<u64>>)
    requires
        valid_modulus(q),
        m@.len() == s@.len(),
        reduced_poly(m@, q),
        matrix_wf(rows(a_nsm@), gadget_vector@.len() as nat, s@.len(), q),
        matrix_wf(rows(e_nsm@), gadget_vector@.len() as nat, s@.len(), q),
        matrix_wf(rows(a_m@), gadget_vector@.len() as nat, s@.len(), q),
        matrix_wf(rows(e_m@), gadget_vector@.len() as nat, s@.len(), q),
    ensures
        rows(r@) == sk_rgsw_rows(
            m@,
            s@,
            gadget_vector@,
            rows(a_nsm@),
            rows(e_nsm@),
            rows(a_m@),
            rows(e_m@),
            q,
        ),
        matrix_wf(rows(r@), 3 * gadget_vector@.len() as nat, s@.len(), q),
{
    let d = gadget_vector.len();
    let ghost want = sk_rgsw_rows(
        m@,
        s@,
        gadget_vector@,
        rows(a_nsm@),
        rows(e_nsm@),
        rows(a_m@),
        rows(e_m@),
        q,
    );
    let s_q = signed_to_poly(s, q);
    let mut out: Vec<Vec<u64>> = Vec::new();
    let mut t: usize = 0;
    while t < d
        invariant
            valid_modulus(q),
            d == gadget_vector@.len(),
            s_q@ == signed_poly(s@, q),
            reduced_poly(m@, q),
            m@.len() == s@.len(),
            matrix_wf(rows(a_nsm@), d as nat, s@.len(), q),
            t <= d,
            rows(out@) == want.take(t as int),
            want == sk_rgsw_rows(
                m@,
                s@,
                gadget_vector@,
                rows(a_nsm@),
                rows(e_nsm@),
                rows(a_m@),
                rows(e_m@),
                q,
            ),
            matrix_wf(rows(out@), t as nat, s@.len(), q),
        decreases d - t,
    {
        assert(rows(a_nsm@)[t as int] == a_nsm@[t as int]@);
        let mut row = a_nsm[t].clone();
        let gm = poly_scalar_mul(m, gadget_vector[t], q);
        poly_add_assign(&mut row, &gm, q);
        out.push(row);
        t += 1;
        assert(rows(out@) =~= want.take(t as int));
    }
    let mut t: usize = 0;
    while t < d
        invariant
            valid_modulus(q),
            d == gadget_vector@.len(),
            s_q@ == signed_poly(s@, q),
            s_q@.len() == s@.len(),
            matrix_wf(rows(a_nsm@), d as nat, s@.len(), q),
            matrix_wf(rows(e_nsm@), d as nat, s@.len(), q),
            t <= d,
            rows(out@) == want.take(d + t),
            want == sk_rgsw_rows(
                m@,
                s@,
                gadget_vector@,
                rows(a_nsm@),
                rows(e_nsm@),
                rows(a_m@),
                rows(e_m@),
                q,
            ),
            matrix_wf(rows(out@), (d + t) as nat, s@.len(), q),
        decreases d - t,
    {
        assert(rows(a_nsm@)[t as int] == a_nsm@[t as int]@);
        assert(rows(e_nsm@)[t as int] == e_nsm@[t as int]@);
        let sa = negacyclic_mul(&a_nsm[t], &s_q, q);
        let mut row = e_nsm[t].clone();
        poly_add_assign(&mut row, &sa, q);
        out.push(row);
        t += 1;
        assert(rows(out@) =~= want.take(d + t));
    }
    let mut t: usize = 0;
    while t < d
        invariant
            valid_modulus(q),
            d == gadget_vector@.len(),
            s_q@ == signed_poly(s@, q),
            s_q@.len() == s@.len(),
            reduced_poly(m@, q),
            m@.len() == s@.len(),
            matrix_wf(rows(a_m@), d as nat, s@.len(), q),
            matrix_wf(rows(e_m@), d as nat, s@.len(), q),
            t <= d,
            rows(out@) == want.take(2 * d + t),
            want == sk_rgsw_rows(
                m@,
                s@,
                gadget_vector@,
                rows(a_nsm@),
                rows(e_nsm@),
                rows(a_m@),
                rows(e_m@),
                q,
            ),
            matrix_wf(rows(out@), (2 * d + t) as nat, s@.len(), q),
        decreases d - t,
    {
        assert(rows(a_m@)[t as int] == a_m@[t as int]@);
        assert(rows(e_m@)[t as int] == e_m@[t as int]@);
        let gm = poly_scalar_mul(m, gadget_vector[t], q);
        let sa = negacyclic_mul(&a_m[t], &s_q, q);
        let mut row = e_m[t].clone();
        poly_add_assign(&mut row, &gm, q);
        poly_add_assign(&mut row, &sa, q);
        out.push(row);
        t += 1;
        assert(rows(out@) =~= want.take(2 * d + t));
    }
    assert(want.take(3 * d) =~= want);
    out
}

/// One RLWE encryption under the public key `(p0, p1)` with ephemeral `u` and
/// errors `e0`, `e1`: `(e0 + p0 u, e1 + p1 u)`.
pub open spec fn pk_pair(
    p0: Seq<u64>,
    p1: Seq<u64>,
    u: Seq<i32>,
    e0: Seq<u64>,
    e1: Seq<u64>,
    q: u64,
) -> (Seq<u64>, Seq<u64>) {
    (
        poly_add(e0, poly_mul(p0, signed_poly(u, q), q), q),
        poly_add(e1, poly_mul(p1, signed_poly(u, q), q), q),
    )
}

/// The `4d` rows of a public-key RGSW encryption of `m`: for `t < d`, the
/// ciphertext drawn with `us[t]` carries `g_t m` in its `a`-row
/// (`RLWE'(-sm)`), the one drawn with `us[d + t]` in its `b`-row (`RLWE'(m)`).
pub open spec fn pk_rgsw_rows(
    m: Seq<u64>,
    p0: Seq<u64>,
    p1: Seq<u64>,
    g: Seq<u64>,
    us: Seq<Seq<i32>>,
    e0s: Seq<Seq<u64>>,
    e1s: Seq<Seq<u64>>,
    q: u64,
) -> Seq<Seq<u64>> {
    let d = g.len() as int;
    Seq::new(
        (4 * d) as nat,
        |r: int|
            if r < d {
                poly_add(pk_pair(p0, p1, us[r], e0s[r], e1s[r], q).0, poly_scale(m, g[r], q), q)
            } else if r < 2 * d {
                pk_pair(p0, p1, us[r - d], e0s[r - d], e1s[r - d], q).1
            } else if r < 3 * d {
                pk_pair(p0, p1, us[r - d], e0s[r - d], e1s[r - d], q).0
            } else {
                poly_add(
                    pk_pair(p0, p1, us[r - 2 * d], e0s[r - 2 * d], e1s[r - 2 * d], q).1,
                    poly_scale(m, g[r - 3 * d], q),
                    q,
                )
            },
    )
}

/// Public-key RGSW encryption of `m` under `public_key = (p0, p1)`. `us` holds
/// `2d` ephemeral ternary secrets of weight `n / 2`, `e0s` and `e1s` the `2d`
/// error pairs, in the order the ciphertexts are produced.
pub fn public_key_encrypt_rgsw(
    m: &Vec<u64>,
    public_key: &Vec<Vec<u64>>,
    gadget_vector: &Vec<u64>,
    us: &Vec<Vec<i32>>,
    e0s: &Vec<Vec<u64>>,
    e1s: &Vec<Vec<u64>>,
    q: u64,
) -> (r: Vec<Vec<u64>>)
    requires
        valid_modulus(q),
        matrix_wf(rows(public_key@), 2, m@.len(), q),
        reduced_poly(m@, q),
        us@.len() == 2 * gadget_vector@.len(),
        forall|i: int|
            0 <= i < us@.len() ==> ternary_with_weight(
                (#[trigger] us@[i])@,
                (m@.len() / 2) as nat,
                m@.len(),
            ),
        matrix_wf(rows(e0s@), 2 * gadget_vector@.len() as nat, m@.len(), q),
        matrix_wf(rows(e1s@), 2 * gadget_vector@.len() as nat, m@.len(), q),
    ensures
        rows(r@) == pk_rgsw_rows(
            m@,
            rows(public_key@)[0],
            rows(public_key@)[1],
            gadget_vector@,
            Seq::new(us@.len(), |i: int| us@[i]@),
            rows(e0s@),
            rows(e1s@),
            q,
        ),
        matrix_wf(rows(r@), 4 * gadget_vector@.len() as nat, m@.len(), q),
{
    let d = gadget_vector.len();
    let ghost uss = Seq::new(us@.len(), |i: int| us@[i]@);
    let ghost p0 = rows(public_key@)[0];
    let ghost p1 = rows(public_key@)[1];
    let ghost want = pk_rgsw_rows(m@, p0, p1, gadget_vector@, uss, rows(e0s@), rows(e1s@), q);
    assert(public_key@[0]@ == p0 && public_key@[1]@ == p1);
    let mut a_nsm: Vec<Vec<u64>> = Vec::new();
    let mut b_nsm: Vec<Vec<u64>> = Vec::new();
    let mut a_m: Vec<Vec<u64>> = Vec::new();
    let mut b_m: Vec<Vec<u64>> = Vec::new();
    let ul = us.len();
    let mut t: usize = 0;
    while t < ul
        invariant
            ul == 2 * d,
            forall|i: int|
                0 <= i < us@.len() ==> ternary_with_weight(
                    (#[trigger] us@[i])@,
                    (m@.len() / 2) as nat,
                    m@.len(),
                ),
            valid_modulus(q),
            d == gadget_vector@.len(),
            us@.len() == 2 * d,
            uss == Seq::new(us@.len(), |i: int| us@[i]@),
            public_key@.len() == 2,
            public_key@[0]@ == p0,
            public_key@[1]@ == p1,
            p0.len() == m@.len(),
            p1.len() == m@.len(),
            reduced_poly(m@, q),
            matrix_wf(rows(e0s@), 2 * d as nat, m@.len(), q),
            matrix_wf(rows(e1s@), 2 * d as nat, m@.len(), q),
            want == pk_rgsw_rows(m@, p0, p1, gadget_vector@, uss, rows(e0s@), rows(e1s@), q),
            t <= 2 * d,
            a_nsm@.len() == if t < d { t } else { d },
            b_nsm@.len() == if t < d { t } else { d },
            a_m@.len() == if t < d { 0 } else { t - d },
            b_m@.len() == if t < d { 0 } else { t - d },
            forall|i: int| 0 <= i < a_nsm@.len() ==> #[trigger] a_nsm@[i]@ == want[i],
            forall|i: int| 0 <= i < b_nsm@.len() ==> #[trigger] b_nsm@[i]@ == want[d + i],
            forall|i: int| 0 <= i < a_m@.len() ==> #[trigger] a_m@[i]@ == want[2 * d + i],
            forall|i: int| 0 <= i < b_m@.len() ==> #[trigger] b_m@[i]@ == want[3 * d + i],
            forall|i: int| 0 <= i < 4 * d ==> (#[trigger] want[i]).len() == m@.len() && reduced_poly(want[i], q),
        decreases ul - t,
    {
        assert(ternary_with_weight(us@[t as int]@, (m@.len() / 2) as nat, m@.len()));
        assert(rows(e0s@)[t as int] == e0s@[t as int]@);
        assert(rows(e1s@)[t as int] == e1s@[t as int]@);
        let u_q = signed_to_poly(&us[t], q);
        let ua = negacyclic_mul(&public_key[0], &u_q, q);
        let ub = negacyclic_mul(&public_key[1], &u_q, q);
        let mut a = e0s[t].clone();
        poly_add_assign(&mut a, &ua, q);
        let mut b = e1s[t].clone();
        poly_add_assign(&mut b, &ub, q);
        if t < d {
            let gm = poly_scalar_mul(m, gadget_vector[t], q);
            poly_add_assign(&mut a, &gm, q);
            a_nsm.push(a);
            b_nsm.push(b);
        } else {
            let gm = poly_scalar_mul(m, gadget_vector[t - d], q);
            poly_add_assign(&mut b, &gm, q);
            a_m.push(a);
            b_m.push(b);
        }
        t += 1;
    }
    let mut out = a_nsm;
    out.append(&mut b_nsm);
    out.append(&mut a_m);
    out.append(&mut b_m);
    assert(rows(out@) =~= want);
    out
}

/// The `d` rows `b_t = e_t + a_t * to_s + g_t * neg_from_s` of the key that
/// switches from `from_s` to `to_s`.
pub open spec fn ksk_rows(
    neg_from_s: Seq<u64>,
    to_s: Seq<u64>,
    g: Seq<u64>,
    a: Seq<Seq<u64>>,
    e: Seq<Seq<u64>>,
    q: u64,
) -> Seq<Seq<u64>> {
    Seq::new(
        g.len(),
        |t: int|
            poly_add(
                poly_add(e[t], poly_mul(a[t], to_s, q), q),
                poly_scale(neg_from_s, g[t], q),
                q,
            ),
    )
}

/// Part `b` of the key-switching key `RLWE'_{to_s}(-from_s)`: row `t`
/// encrypts `g_t * neg_from_s` under `to_s` with the seeded uniform row `a[t]`
/// and error `e[t]`.
pub fn rlwe_ksk_gen(
    neg_from_s: &Vec<u64>,
    to_s: &Vec<u64>,
    gadget_vector: &Vec<u64>,
    a: &Vec<Vec<u64>>,
    e: &Vec<Vec<u64>>,
    q: u64,
) -> (r: Vec<Vec<u64>>)
    requires
        valid_modulus(q),
        neg_from_s@.len() == to_s@.len(),
        matrix_wf(rows(a@), gadget_vector@.len() as nat, to_s@.len(), q),
        matrix_wf(rows(e@), gadget_vector@.len() as nat, to_s@.len(), q),
    ensures
        rows(r@) == ksk_rows(neg_from_s@, to_s@, gadget_vector@, rows(a@), rows(e@), q),
        matrix_wf(rows(r@), gadget_vector@.len() as nat, to_s@.len(), q),
{
    let d = gadget_vector.len();
    let ghost want = ksk_rows(neg_from_s@, to_s@, gadget_vector@, rows(a@), rows(e@), q);
    let mut out: Vec<Vec<u64>> = Vec::new();
    let mut t: usize = 0;
    while t < d
        invariant
            valid_modulus(q),
            d == gadget_vector@.len(),
            neg_from_s@.len() == to_s@.len(),
            matrix_wf(rows(a@), d as nat, to_s@.len(), q),
            matrix_wf(rows(e@), d as nat, to_s@.len(), q),
            want == ksk_rows(neg_from_s@, to_s@, gadget_vector@, rows(a@), rows(e@), q),
            t <= d,
            rows(out@) == want.take(t as int),
            matrix_wf(rows(out@), t as nat, to_s@.len(), q),
        decreases d - t,
    {
        assert(rows(a@)[t as int] == a@[t as int]@);
        assert(rows(e@)[t as int] == e@[t as int]@);
        let sa = negacyclic_mul(&a[t], to_s, q);
        let mut row = e[t].clone();
        poly_add_assign(&mut row, &sa, q);
        let gs = poly_scalar_mul(neg_from_s, gadget_vector[t], q);
        poly_add_assign(&mut row, &gs, q);
        out.push(row);
        t += 1;
        assert(rows(out@) =~= want.take(t as int));
    }
    assert(want.take(d as int) =~= want);
    out
}

/// Part `b` of the automorphism key for `X -> X^auto_k`: the key that switches
/// from `s(X^k)` back to `s`, i.e. `RLWE'_s(-s(X^k))`.
pub fn galois_key_gen(
    s: &Vec<i32>,
    auto_k: isize,
    gadget_vector: &Vec<u64>,
    a: &Vec<Vec<u64>>,
    e: &Vec<Vec<u64>>,
    q: u64,
) -> (r: Vec<Vec<u64>>)
    requires
        valid_modulus(q),
        1 <= s@.len() < 0x4000_0000_0000_0000,
        auto_k % 2 == 1,
        matrix_wf(rows(a@), gadget_vector@.len() as nat, s@.len(), q),
        matrix_wf(rows(e@), gadget_vector@.len() as nat, s@.len(), q),
    ensures
        exists|index: Seq<usize>, sign: Seq<bool>|
            {
                &&& index.len() == s@.len()
                &&& sign.len() == s@.len()
                &&& forall|i: int|
                    0 <= i < s@.len() ==> #[trigger] index[i] == auto_index(
                        s@.len() as nat,
                        auto_k as int,
                        i,
                    ) && sign[i] == auto_sign(s@.len() as nat, auto_k as int, i)
                &&& rows(r@) == ksk_rows(
                    automorph(poly_neg(signed_poly(s@, q), q), index, sign, q),
                    signed_poly(s@, q),
                    gadget_vector@,
                    rows(a@),
                    rows(e@),
                    q,
                )
            },
        matrix_wf(rows(r@), gadget_vector@.len() as nat, s@.len(), q),
{
    let (index, sign) = generate_auto_map(s.len(), auto_k);
    let s_q = signed_to_poly(s, q);
    let neg_s = poly_negate(&s_q, q);
    assert forall|i: int| 0 <= i < s@.len() implies #[trigger] index@[i] < s@.len() by {
        assert(index@[i] == auto_index(s@.len() as nat, auto_k as int, i));
    }
    let neg_s_auto = apply_auto(&neg_s, &index, &sign, q);
    let r = rlwe_ksk_gen(&neg_s_auto, &s_q, gadget_vector, a, e, q);
    r
}

/// `r` rows of `n` zeros.
pub open spec fn zero_matrix(r: nat, n: nat) -> Seq<Seq<u64>> {
    Seq::new(r, |i: int| poly_zero(n))
}

/// A matrix of `r` zero rows of `n` coefficients.
pub fn zero_rows(r: usize, n: usize) -> (m: Vec<Vec<u64>>)
    ensures
        rows(m@) == zero_matrix(r as nat, n as nat),
{
    let mut m: Vec<Vec<u64>> = Vec::new();
    let mut i: usize = 0;
    while i < r
        invariant
            i <= r,
            rows(m@) == zero_matrix(i as nat, n as nat),
        decreases r - i,
    {
        let z = zero_poly(n);
        let ghost before = rows(m@);
        m.push(z);
        assert(rows(m@) =~= before.push(z@));
        i += 1;
        assert(rows(m@) =~= zero_matrix(i as nat, n as nat));
    }
    m
}

/// Every row of `m` has as many coefficients as the first.
pub open spec fn uniform_rows(m: Seq<Seq<u64>>) -> bool {
    m.len() >= 1 && rows_len(m, m[0].len())
}

/// An automorphism key of which only the `d` rows `RLWE'_B(-s(X^k))` are
/// stored; the `a`-rows are regenerated from `seed`.
#[derive(Clone, Debug)]
pub struct SeededAutoKey {
    pub data: Vec<Vec<u64>>,
    pub seed: Seed,
    pub modulus: u64,
}

impl SeededAutoKey {
    pub fn from_raw(data: Vec<Vec<u64>>, seed: Seed, modulus: u64) -> (r: SeededAutoKey)
        ensures
            r.data == data,
            r.seed == seed,
            r.modulus == modulus,
    {
        SeededAutoKey { data, seed, modulus }
    }

    /// `d_rgsw` zero rows of `ring_size` coefficients.
    pub fn empty(ring_size: usize, d_rgsw: usize, seed: Seed, modulus: u64) -> (r: SeededAutoKey)
        ensures
            rows(r.data@) == zero_matrix(d_rgsw as nat, ring_size as nat),
            r.seed == seed,
            r.modulus == modulus,
    {
        SeededAutoKey { data: zero_rows(d_rgsw, ring_size), seed, modulus }
    }
}

/// An automorphism key with its `2d` rows: `RLWE'_A(-s(X^k))` then
/// `RLWE'_B(-s(X^k))`.
#[derive(Clone, Debug)]
pub struct AutoKeyEvaluationDomain {
    pub data: Vec<Vec<u64>>,
}

impl AutoKeyEvaluationDomain {
    /// Expands a seeded key: the `d` `a`-rows are the first `d * n` values
    /// that the generator seeded with `value.seed` yields (`draws`), the
    /// stored rows follow.
    pub fn from_seeded(value: &SeededAutoKey, draws: &Vec<u64>) -> (r: AutoKeyEvaluationDomain)
        requires
            uniform_rows(rows(value.data@)),
            value.data@.len() * value.data@[0]@.len() <= draws@.len(),
        ensures
            rows(r.data@) == drawn_rows(
                draws@,
                0,
                value.data@.len() as int,
                value.data@[0]@.len() as int,
            ) + rows(value.data@),
    {
        let d = value.data.len();
        let n = value.data[0].len();
        let mut data = draw_rows(draws, 0, d, n);
        let mut b = copy_rows(&value.data, 0, d);
        let ghost a_rows = rows(data@);
        let ghost b_rows = rows(b@);
        data.append(&mut b);
        assert(rows(value.data@).subrange(0, d as int) =~= rows(value.data@));
        assert(rows(data@) =~= a_rows + b_rows);
        AutoKeyEvaluationDomain { data }
    }
}

/// An RGSW ciphertext of `4d` rows: `RLWE'(-sm)` (`a`- then `b`-rows) and
/// `RLWE'(m)` (`a`- then `b`-rows).
#[derive(Clone, Debug)]
pub struct RgswCiphertext {
    pub data: Vec<Vec<u64>>,
    pub modulus: u64,
}

/// An RGSW ciphertext of which the `3d` rows `RLWE'_A(-sm)`, `RLWE'_B(-sm)`
/// and `RLWE'_B(m)` are stored; `RLWE'_A(m)` is regenerated from `seed`.
#[derive(Clone, Debug)]
pub struct SeededRgswCiphertext {
    pub data: Vec<Vec<u64>>,
    pub seed: Seed,
    pub modulus: u64,
}

impl SeededRgswCiphertext {
    pub fn from_raw(data: Vec<Vec<u64>>, seed: Seed, modulus: u64) -> (r: SeededRgswCiphertext)
        requires
            data@.len() % 3 == 0,
        ensures
            r.data == data,
            r.seed == seed,
            r.modulus == modulus,
    {
        SeededRgswCiphertext { data, seed, modulus }
    }

    /// `3 * d_rgsw` zero rows of `ring_size` coefficients.
    pub fn empty(ring_size: usize, d_rgsw: usize, seed: Seed, modulus: u64) -> (r:
        SeededRgswCiphertext)
        requires
            3 * d_rgsw <= usize::MAX,
        ensures
            rows(r.data@) == zero_matrix(3 * d_rgsw as nat, ring_size as nat),
            r.seed == seed,
            r.modulus == modulus,
    {
        SeededRgswCiphertext { data: zero_rows(d_rgsw * 3, ring_size), seed, modulus }
    }
}

/// The rows of an RGSW ciphertext expanded from its seeded form.
pub open spec fn expanded_rgsw(seeded: Seq<Seq<u64>>, a_m: Seq<Seq<u64>>) -> Seq<Seq<u64>> {
    let d = (seeded.len() / 3) as int;
    seeded.subrange(0, 2 * d) + a_m + seeded.subrange(2 * d, 3 * d)
}

/// An RGSW ciphertext with all `4d` rows, as the products consume it.
#[derive(Clone, Debug)]
pub struct RgswCiphertextEvaluationDomain {
    pub data: Vec<Vec<u64>>,
}

impl RgswCiphertextEvaluationDomain {
    /// Expands a seeded ciphertext: `RLWE'_A(m)` is the first `d * n` values
    /// that the generator seeded with `value.seed` yields (`draws`).
    pub fn from_seeded(value: &SeededRgswCiphertext, draws: &Vec<u64>) -> (r:
        RgswCiphertextEvaluationDomain)
        requires
            value.data@.len() % 3 == 0,
            uniform_rows(rows(value.data@)),
            (value.data@.len() / 3) * value.data@[0]@.len() <= draws@.len(),
        ensures
            rows(r.data@) == expanded_rgsw(
                rows(value.data@),
                drawn_rows(
                    draws@,
                    0,
                    (value.data@.len() / 3) as int,
                    value.data@[0]@.len() as int,
                ),
            ),
    {
        let d = value.data.len() / 3;
        let n = value.data[0].len();
        let mut data = copy_rows(&value.data, 0, 2 * d);
        let mut a_m = draw_rows(draws, 0, d, n);
        let mut b_m = copy_rows(&value.data, 2 * d, d);
        let ghost x = rows(data@);
        let ghost y = rows(a_m@);
        let ghost z = rows(b_m@);
        data.append(&mut a_m);
        data.append(&mut b_m);
        assert(rows(data@) =~= x + y + z);
        RgswCiphertextEvaluationDomain { data }
    }

    /// Takes over the `4d` rows of a full RGSW ciphertext.
    pub fn from_rgsw(value: &RgswCiphertext) -> (r: RgswCiphertextEvaluationDomain)
        requires
            value.data@.len() % 4 == 0,
        ensures
            rows(r.data@) == rows(value.data@),
    {
        let len = value.data.len();
        let data = copy_rows(&value.data, 0, len);
        assert(rows(value.data@).subrange(0, len as int) =~= rows(value.data@));
        RgswCiphertextEvaluationDomain { data }
    }
}

/// The internal product is a sequence of external products on the rows of its
/// left operand: for every `t < d`, rows `(t, d + t)` and rows
/// `(2d + t, 3d + t)` of the result are what the external product makes of
/// the non-trivial RLWE ciphertext in the same rows of `rgsw_0` with
/// `rgsw_1`.
pub proof fn lemma_internal_product_is_external_products(
    rgsw_0: Seq<Seq<u64>>,
    rgsw_1: Seq<Seq<u64>>,
    dec: DefaultDecomposer,
    q: u64,
    t: int,
)
    requires
        0 <= t < dec.d,
    ensures
        ({
            let d = dec.d as int;
            let ip = internal_product(rgsw_0, rgsw_1, dec, q);
            &&& seq![ip[t], ip[d + t]] == ext_product(
                rgsw_0[t],
                rgsw_0[d + t],
                false,
                rgsw_1,
                dec,
                0,
                0,
                q,
            )
            &&& seq![ip[2 * d + t], ip[3 * d + t]] == ext_product(
                rgsw_0[2 * d + t],
                rgsw_0[3 * d + t],
                false,
                rgsw_1,
                dec,
                0,
                0,
                q,
            )
        }),
{
    reveal(internal_product);
    let d = dec.d as int;
    let ip = internal_product(rgsw_0, rgsw_1, dec, q);
    assert(seq![ip[t], ip[d + t]] =~= ext_product(
        rgsw_0[t],
        rgsw_0[d + t],
        false,
        rgsw_1,
        dec,
        0,
        0,
        q,
    ));
    assert(seq![ip[2 * d + t], ip[3 * d + t]] =~= ext_product(
        rgsw_0[2 * d + t],
        rgsw_0[3 * d + t],
        false,
        rgsw_1,
        dec,
        0,
        0,
        q,
    ));
}

/// Writing the first `i` coefficients of `x` at their own positions with a
/// positive sign leaves them as they are.
proof fn lemma_scatter_identity(x: Seq<u64>, index: Seq<usize>, sign: Seq<bool>, q: u64, i: int)
    requires
        0 <= i <= x.len(),
        index.len() == x.len(),
        sign.len() == x.len(),
        forall|j: int| 0 <= j < x.len() ==> #[trigger] index[j] == j && sign[j],
    ensures
        scatter(poly_zero(x.len()), x, index, sign, q, i) == x.take(i) + poly_zero(x.len()).skip(i),
    decreases i,
{
    if i > 0 {
        lemma_scatter_identity(x, index, sign, q, i - 1);
        assert(scatter(poly_zero(x.len()), x, index, sign, q, i) =~= x.take(i) + poly_zero(
            x.len(),
        ).skip(i));
    } else {
        assert(x.take(0) + poly_zero(x.len()).skip(0) =~= poly_zero(x.len()));
    }
}

/// `X -> X^1` is the identity: its table maps every `X^i` to `+X^i`, and the
/// automorphism operator leaves a trivial ciphertext exactly as it was.
pub proof fn lemma_galois_identity(
    a: Seq<u64>,
    b: Seq<u64>,
    ksk: Seq<Seq<u64>>,
    index: Seq<usize>,
    sign: Seq<bool>,
    dec: DefaultDecomposer,
    q: u64,
)
    requires
        1 <= b.len() < 0x4000_0000_0000_0000,
        index.len() == b.len(),
        sign.len() == b.len(),
        forall|i: int|
            0 <= i < b.len() ==> #[trigger] index[i] == auto_index(b.len(), 1, i) && sign[i]
                == auto_sign(b.len(), 1, i),
    ensures
        forall|i: int| 0 <= i < b.len() ==> #[trigger] index[i] == i && sign[i],
        automorph(b, index, sign, q) == b,
        galois_result(a, b, true, ksk, index, sign, dec, q) == seq![a, b],
{
    let n = b.len();
    assert(((2 * n) as u64) as int == 2 * n);
    assert(crate::automorphism::auto_power(n, 1) == 1) by {
        vstd::arithmetic::div_mod::lemma_small_mod(1, (2 * n) as nat);
    }
    assert forall|i: int| 0 <= i < n implies #[trigger] index[i] == i && sign[i] by {
        vstd::arithmetic::div_mod::lemma_small_mod(i as nat, (2 * n) as nat);
        assert(i * 1 == i);
        assert(crate::automorphism::auto_raw(n, 1, i) == i);
    }
    lemma_scatter_identity(b, index, sign, q, n as int);
    assert(b.take(n as int) + poly_zero(n).skip(n as int) =~= b);
    assert(galois_result(a, b, true, ksk, index, sign, dec, q) =~= seq![a, b]);
}

/// `mac` over rows that are all zero leaves a zero accumulator zero.
proof fn lemma_mac_zero(xs: Seq<Seq<u64>>, ys: Seq<Seq<u64>>, j: int, n: nat, q: u64)
    requires
        valid_modulus(q),
        0 <= j <= xs.len(),
        j <= ys.len(),
        forall|t: int| 0 <= t < j ==> #[trigger] xs[t] == poly_zero(n),
        forall|t: int| 0 <= t < j ==> (#[trigger] ys[t]).len() == n,
    ensures
        mac(poly_zero(n), xs, ys, j, q) == poly_zero(n),
    decreases j,
{
    if j > 0 {
        lemma_mac_zero(xs, ys, j - 1, n, q);
        let z = poly_zero(n);
        let p = poly_mul(xs[j - 1], ys[j - 1], q);
        assert forall|k: int| 0 <= k < n implies #[trigger] p[k] == 0 by {
            lemma_negacyclic_sum_zero(xs[j - 1], ys[j - 1], k, n as int);
            vstd::arithmetic::div_mod::lemma_small_mod(0, q as nat);
        }
        assert forall|k: int| 0 <= k < n implies #[trigger] poly_add(z, p, q)[k] == 0 by {
            vstd::arithmetic::div_mod::lemma_small_mod(0, q as nat);
        }
        assert(poly_add(z, p, q) =~= z);
    }
}

/// The coefficients of the product with the zero polynomial are zero.
proof fn lemma_negacyclic_sum_zero(a: Seq<u64>, b: Seq<u64>, k: int, i: int)
    requires
        forall|t: int| 0 <= t < a.len() ==> #[trigger] a[t] == 0,
        0 <= i <= a.len(),
    ensures
        crate::ring::negacyclic_sum(a, b, k, i) == 0,
    decreases i,
{
    if i > 0 {
        lemma_negacyclic_sum_zero(a, b, k, i - 1);
    }
}

/// `2^(e - 1) < 2^e` for `e >= 1`.
proof fn lemma_half_below(e: nat)
    requires
        e >= 1,
    ensures
        crate::decompose::two_pow((e - 1) as nat) < crate::decompose::two_pow(e),
{
    crate::decompose::lemma_two_pow_monotone((e - 1) as nat, (e - 1) as nat);
}

/// Every digit of zero is zero.
proof fn lemma_digits_of_zero(dec: DefaultDecomposer)
    requires
        dec.wf(),
    ensures
        forall|j: int| 0 <= j < dec.d ==> #[trigger] dec.digits(0)[j] == 0,
{
    let ig = dec.ignore();
    if ig > 0 {
        lemma_half_below(ig);
        vstd::arithmetic::div_mod::lemma_basic_div(
            crate::decompose::two_pow((ig - 1) as nat) as int,
            crate::decompose::two_pow(ig) as int,
        );
    }
    assert(crate::decompose::rounded_top(0, ig) == 0);
    let b = crate::decompose::two_pow(dec.logb as nat) as int;
    crate::decompose::lemma_two_pow_monotone(1, dec.logb as nat);
    reveal_with_fuel(crate::decompose::two_pow, 2);
    lemma_signed_digits_zero(b, dec.d as nat);
    assert forall|j: int| 0 <= j < dec.d implies #[trigger] dec.digits(0)[j] == 0 by {
        vstd::arithmetic::div_mod::lemma_small_mod(0, dec.q as nat);
    }
}

/// The balanced digits of zero are zero.
proof fn lemma_signed_digits_zero(base: int, d: nat)
    requires
        base >= 2,
    ensures
        forall|j: int|
            0 <= j < d ==> #[trigger] crate::decompose::signed_digits(0, base, d)[j] == 0,
        crate::decompose::signed_digits(0, base, d).len() == d,
    decreases d,
{
    if d > 0 {
        lemma_signed_digits_zero(base, (d - 1) as nat);
        vstd::arithmetic::div_mod::lemma_small_mod(0, base as nat);
        assert(0int / base == 0);
    }
}

/// Skipping the `a` half of the external product for a trivial ciphertext is
/// exact: when `a` is zero, the product of the ciphertext flagged trivial
/// equals the product of the same ciphertext flagged non-trivial.
pub proof fn lemma_trivial_external_product_exact(
    b: Seq<u64>,
    r: Seq<Seq<u64>>,
    dec: DefaultDecomposer,
    skip0: int,
    skip1: int,
    q: u64,
)
    requires
        dec.wf(),
        dec.q == q,
        r.len() == 4 * dec.d,
        rows_len(r, b.len()),
        0 <= skip0 <= dec.d,
        0 <= skip1 <= dec.d,
    ensures
        ext_product(poly_zero(b.len()), b, true, r, dec, skip0, skip1, q) == ext_product(
            poly_zero(b.len()),
            b,
            false,
            r,
            dec,
            skip0,
            skip1,
            q,
        ),
{
    let n = b.len();
    let d = dec.d as int;
    let da = decomposed(poly_zero(n), dec);
    lemma_digits_of_zero(dec);
    let xs = da.subrange(skip0, d);
    assert forall|t: int| 0 <= t < d - skip0 implies #[trigger] xs[t] == poly_zero(n) by {
        assert(xs[t] =~= poly_zero(n));
    }
    let ya = r.subrange(skip0, d);
    let yb = r.subrange(d + skip0, 2 * d);
    assert forall|t: int| 0 <= t < d - skip0 implies (#[trigger] ya[t]).len() == n by {
        assert(ya[t] == r[skip0 + t]);
    }
    assert forall|t: int| 0 <= t < d - skip0 implies (#[trigger] yb[t]).len() == n by {
        assert(yb[t] == r[d + skip0 + t]);
    }
    lemma_mac_zero(xs, ya, d - skip0, n, q);
    lemma_mac_zero(xs, yb, d - skip0, n, q);
}

} // verus!
