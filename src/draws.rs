use vstd::prelude::*;
use crate::rlwe::rows;

verus! {

/// `count` consecutive rows of `n` values taken from `draws` at `start`.
pub open spec fn drawn_rows(draws: Seq<u64>, start: int, count: int, n: int) -> Seq<Seq<u64>> {
    Seq::new(count as nat, |r: int| draws.subrange(start + r * n, start + r * n + n))
}

/// The values `draws[start .. start + n]` as a row.
pub fn draw_row(draws: &Vec<u64>, start: usize, n: usize) -> (r: Vec<u64>)
    requires
        start + n <= draws@.len(),
    ensures
        r@ == draws@.subrange(start as int, start + n),
{
    let len = draws.len();
    let mut row: Vec<u64> = Vec::new();
    let mut i: usize = 0;
    while i < n
        invariant
            len == draws@.len(),
            start + n <= draws@.len(),
            i <= n,
            row@ == draws@.subrange(start as int, start + i),
        decreases n - i,
    {
        row.push(draws[start + i]);
        i += 1;
        assert(row@ =~= draws@.subrange(start as int, start + i));
    }
    row
}

/// Takes `count` rows of `n` values from `draws`, in order, starting at
/// `start`.
pub fn draw_rows(draws: &Vec<u64>, start: usize, count: usize, n: usize) -> (r: Vec<Vec<u64>>)
    requires
        start + count * n <= draws@.len(),
    ensures
        rows(r@) == drawn_rows(draws@, start as int, count as int, n as int),
{
    let len = draws.len();
    let mut out: Vec<Vec<u64>> = Vec::new();
    let mut pos: usize = start;
    let mut t: usize = 0;
    while t < count
        invariant
            len == draws@.len(),
            start + count * n <= draws@.len(),
            t <= count,
            pos == start + t * n,
            rows(out@) == drawn_rows(draws@, start as int, t as int, n as int),
        decreases count - t,
    {
        proof {
            let tt = t as int;
            let c = count as int;
            let nn = n as int;
            assert(tt * nn + nn <= c * nn) by (nonlinear_arith)
                requires
                    0 <= tt < c,
                    0 <= nn,
            ;
            assert((tt + 1) * nn == tt * nn + nn) by (nonlinear_arith);
        }
        let row = draw_row(draws, pos, n);
        let ghost before = rows(out@);
        out.push(row);
        assert(rows(out@) =~= before.push(row@));
        pos = pos + n;
        t += 1;
        assert(rows(out@) =~= drawn_rows(draws@, start as int, t as int, n as int));
    }
    out
}

/// Copies rows `from .. from + count` of `src`.
pub fn copy_rows(src: &Vec<Vec<u64>>, from: usize, count: usize) -> (r: Vec<Vec<u64>>)
    requires
        from + count <= src@.len(),
    ensures
        rows(r@) == rows(src@).subrange(from as int, from + count),
{
    let len = src.len();
    let mut out: Vec<Vec<u64>> = Vec::new();
    let mut t: usize = 0;
    while t < count
        invariant
            len == src@.len(),
            from + count <= src@.len(),
            t <= count,
            rows(out@) == rows(src@).subrange(from as int, from + t),
        decreases count - t,
    {
        let row = src[from + t].clone();
        assert(row@ == src@[from + t]@);
        let ghost before = rows(out@);
        out.push(row);
        assert(rows(out@) =~= before.push(row@));
        t += 1;
        assert(rows(out@) =~= rows(src@).subrange(from as int, from + t));
    }
    out
}

} // verus!
