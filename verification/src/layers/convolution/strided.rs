//! Evaluation points of strided outputs and of the outputs that they are taken from.
use crate::arith::{flog2, floor_log2, lemma_grid_bound};
use crate::fft::{all_canon, fes};
use crate::field::{canon, fzero, Fe, GoldilocksExt2};
use crate::mle::{
    lemma_mle_append, lemma_mle_canon, lemma_mle_eq, lemma_mle_high_zeros, lemma_mle_low_zeros, mle_eval,
    row_evals, table_row, zeros,
};
use crate::tensor::access::idx3;
use vstd::arithmetic::power2::{lemma_pow2_adds, lemma_pow2_pos, pow2};
use vstd::prelude::*;

verus! {

/// The coordinates `r` of a number, as the coordinates of its multiple by `2^low`: zeros below and
/// zeros above, `n` coordinates in all.
pub open spec fn spread(r: Seq<Fe>, low: nat, n: nat) -> Seq<Fe> {
    zeros(low) + r + zeros((n - low - r.len()) as nat)
}

/// The point of the whole output for a point of the strided output: the coordinates of the column, of
/// the line and of the channel. The first two are spread.
pub open spec fn expanded(r: Seq<Fe>, lw: nat, lh: nat, low: nat, n: nat) -> Seq<Fe> {
    spread(r.take(lw as int), low, n) + (spread(r.subrange(lw as int, (lw + lh) as int), low, n) + r.skip(
        (lw + lh) as int,
    ))
}

/// Appends `n` zeros.
fn push_zeros(v: &mut Vec<GoldilocksExt2>, n: usize)
    ensures
        fes(final(v)@) == fes(old(v)@) + zeros(n as nat),
{
    let ghost start = fes(v@);
    let mut i: usize = 0;
    proof {
        assert(start + zeros(0) =~= start);
    }
    while i < n
        invariant
            i <= n,
            fes(v@) == start + zeros(i as nat),
        decreases n - i,
    {
        let ghost before = v@;
        v.push(GoldilocksExt2::zero());
        i = i + 1;
        proof {
            assert(fes(v@) =~= fes(before).push(fzero()));
            assert(fes(v@) =~= start + zeros(i as nat));
        }
    }
}

/// Appends the entries of `s` from `a` up to `b`.
fn push_part(v: &mut Vec<GoldilocksExt2>, s: &[GoldilocksExt2], a: usize, b: usize)
    requires
        a <= b <= s@.len(),
    ensures
        fes(final(v)@) == fes(old(v)@) + fes(s@).subrange(a as int, b as int),
{
    let ghost start = fes(v@);
    let mut i: usize = a;
    proof {
        assert(start + fes(s@).subrange(a as int, a as int) =~= start);
    }
    while i < b
        invariant
            a <= i <= b,
            b <= s@.len(),
            fes(v@) == start + fes(s@).subrange(a as int, i as int),
        decreases b - i,
    {
        let ghost before = v@;
        v.push(s[i]);
        i = i + 1;
        proof {
            assert(fes(v@) =~= fes(before).push(fes(s@)[i - 1]));
            assert(fes(v@) =~= start + fes(s@).subrange(a as int, i as int));
        }
    }
}

/// The point of the whole output, of side `n_x`, for a point of the strided output.
pub fn expand_strided_point(
    r_strided: &[GoldilocksExt2],
    c_pot: usize,
    h_s_pot: usize,
    w_s_pot: usize,
    n_x: usize,
    stride: usize,
) -> (r: Vec<GoldilocksExt2>)
    requires
        c_pot >= 1,
        h_s_pot >= 1,
        w_s_pot >= 1,
        n_x >= 1,
        stride >= 1,
        flog2(h_s_pot as nat) + flog2(stride as nat) <= flog2(n_x as nat),
        flog2(w_s_pot as nat) + flog2(stride as nat) <= flog2(n_x as nat),
        r_strided@.len() == flog2(w_s_pot as nat) + flog2(h_s_pot as nat) + flog2(c_pot as nat),
    ensures
        fes(r@) == expanded(
            fes(r_strided@),
            flog2(w_s_pot as nat),
            flog2(h_s_pot as nat),
            flog2(stride as nat),
            flog2(n_x as nat),
        ),
{
    let log_ws = floor_log2(w_s_pot);
    let log_hs = floor_log2(h_s_pot);
    let log_nx = floor_log2(n_x);
    let stride_bits = floor_log2(stride);
    let overflow_bits_h: usize = log_nx - log_hs - stride_bits;
    let overflow_bits_w: usize = log_nx - log_ws - stride_bits;
    let len: usize = r_strided.len();
    let mut r: Vec<GoldilocksExt2> = Vec::new();
    push_zeros(&mut r, stride_bits);
    push_part(&mut r, r_strided, 0, log_ws);
    push_zeros(&mut r, overflow_bits_w);
    push_zeros(&mut r, stride_bits);
    push_part(&mut r, r_strided, log_ws, log_ws + log_hs);
    push_zeros(&mut r, overflow_bits_h);
    push_part(&mut r, r_strided, log_ws + log_hs, len);
    proof {
        let s = fes(r_strided@);
        let (lw, lh) = (log_ws as int, log_hs as int);
        assert(s.subrange(0, lw) =~= s.take(lw));
        assert(s.subrange(lw + lh, len as int) =~= s.skip(lw + lh));
        assert(fes(r@) =~= expanded(s, log_ws as nat, log_hs as nat, stride_bits as nat, log_nx as nat));
    }
    r
}

/// The extension at spread coordinates reads the entries at multiples of `2^low`.
proof fn lemma_mle_spread(e: Seq<Fe>, r: Seq<Fe>, low: nat, n: nat)
    requires
        e.len() == pow2(n),
        low + r.len() <= n,
        all_canon(e),
    ensures
        mle_eval(e, spread(r, low, n)) == mle_eval(Seq::new(pow2(r.len()), |j: int| e[j * pow2(low)]), r),
{
    let k = (n - low - r.len()) as nat;
    let q = r + zeros(k);
    assert(spread(r, low, n) =~= zeros(low) + q);
    lemma_mle_low_zeros(e, low, q);
    let d = Seq::new(pow2(q.len()), |j: int| e[j * pow2(low)]);
    lemma_mle_high_zeros(d, r, k);
    lemma_pow2_adds(r.len(), k);
    lemma_pow2_pos(k);
    let m = pow2(r.len());
    assert(m <= m * pow2(k)) by (nonlinear_arith)
        requires
            pow2(k) >= 1,
            m >= 0,
    ;
    assert(d.take(m as int) =~= Seq::new(m, |j: int| e[j * pow2(low)]));
}

/// The coordinates of the line and of the column of one entry of the strided output.
proof fn lemma_strided_index(hs: int, ws: int, n: int, s: int, c: int, h: int, w: int)
    ensures
        idx3(hs, ws, c, h, w) == (c * hs + h) * ws + w,
        idx3(n, n, c, h * s, w * s) == (c * n + h * s) * n + w * s,
{
    let y = h * s;
    assert(c * (hs * ws) + (h * ws + w) == (c * hs + h) * ws + w) by (nonlinear_arith);
    assert(c * (n * n) + y * n == (c * n + y) * n) by (nonlinear_arith);
}

/// The extension of the strided output at a point is the extension of the whole output at the expanded
/// point, whatever stands at the places that the stride does not hit.
#[verifier::spinoff_prover]
pub proof fn law_expand_strided_point(
    compact: Seq<Fe>,
    full: Seq<Fe>,
    r: Seq<Fe>,
    lc: nat,
    lh: nat,
    lw: nat,
    low: nat,
    n: nat,
)
    requires
        lh + low <= n,
        lw + low <= n,
        r.len() == lw + lh + lc,
        compact.len() == pow2(lc) * (pow2(lh) * pow2(lw)),
        full.len() == pow2(lc) * (pow2(n) * pow2(n)),
        all_canon(full),
        forall|c: int, h: int, w: int|
            0 <= c < pow2(lc) && 0 <= h < pow2(lh) && 0 <= w < pow2(lw) ==> #[trigger] compact[idx3(
                pow2(lh) as int,
                pow2(lw) as int,
                c,
                h,
                w,
            )] == full[idx3(pow2(n) as int, pow2(n) as int, c, h * pow2(low), w * pow2(low))],
    ensures
        mle_eval(compact, r) == mle_eval(full, expanded(r, lw, lh, low, n)),
{
    let (cs, hs, ws, nx, s) = (pow2(lc), pow2(lh), pow2(lw), pow2(n), pow2(low));
    let rw = r.take(lw as int);
    let rh = r.subrange(lw as int, (lw + lh) as int);
    let rc = r.skip((lw + lh) as int);
    let bw = spread(rw, low, n);
    let bh = spread(rh, low, n);
    assert(r =~= rw + (rh + rc));
    lemma_pow2_adds(lh, lc);
    lemma_pow2_adds(lw, lh + lc);
    lemma_pow2_adds(n, lc);
    lemma_pow2_adds(n, n + lc);
    assert(ws * (hs * cs) == cs * (hs * ws)) by (nonlinear_arith);
    assert(nx * (nx * cs) == cs * (nx * nx)) by (nonlinear_arith);
    lemma_mle_append(compact, rw, rh + rc);
    lemma_mle_append(full, bw, bh + rc);
    let a1 = row_evals(compact, rw, pow2(lh + lc));
    let a2 = row_evals(full, bw, pow2(n + lc));
    lemma_mle_append(a1, rh, rc);
    lemma_mle_append(a2, bh, rc);
    let b1 = row_evals(a1, rh, cs);
    let b2 = row_evals(a2, bh, cs);
    lemma_pow2_pos(lc);
    lemma_pow2_pos(lh);
    lemma_pow2_pos(lw);
    lemma_pow2_pos(n);
    lemma_pow2_pos(low);
    lemma_pow2_adds(lh, low);
    lemma_pow2_adds(lw, low);
    assert(hs * s <= nx) by {
        lemma_pow2_adds(lh + low, (n - lh - low) as nat);
        lemma_pow2_pos((n - lh - low) as nat);
        let (x, y) = (pow2(lh + low), pow2((n - lh - low) as nat));
        assert(x <= x * y) by (nonlinear_arith)
            requires
                x >= 0,
                y >= 1,
        ;
    }
    assert(ws * s <= nx) by {
        lemma_pow2_adds(lw + low, (n - lw - low) as nat);
        lemma_pow2_pos((n - lw - low) as nat);
        let (x, y) = (pow2(lw + low), pow2((n - lw - low) as nat));
        assert(x <= x * y) by (nonlinear_arith)
            requires
                x >= 0,
                y >= 1,
        ;
    }
    assert forall|c: int| 0 <= c < cs implies #[trigger] b1[c] == b2[c] by {
        let row1 = table_row(a1, c, hs);
        let row2 = table_row(a2, c, nx);
        assert forall|i: int| 0 <= i < row2.len() implies canon(#[trigger] row2[i]) by {
            lemma_grid_bound(c, cs as int, i, nx as int);
            assert(cs * nx == nx * cs) by (nonlinear_arith);
            lemma_mle_canon(table_row(full, c * nx + i, nx), bw);
        }
        lemma_mle_spread(row2, rh, low, n);
        let every = Seq::new(hs, |j: int| row2[j * s]);
        assert forall|h: int| 0 <= h < hs implies #[trigger] row1[h] == every[h] by {
            let y = h * s;
            assert(0 <= y < nx) by (nonlinear_arith)
                requires
                    0 <= h <= hs - 1,
                    y == h * s,
                    s >= 1,
                    hs * s <= nx,
            ;
            lemma_grid_bound(c, cs as int, h, hs as int);
            lemma_grid_bound(c, cs as int, y, nx as int);
            assert(cs * nx == nx * cs && cs * hs == hs * cs) by (nonlinear_arith);
            let k1 = c * hs + h;
            let k2 = c * nx + y;
            assert(row1[h] == a1[k1] && every[h] == a2[k2]);
            let t1 = table_row(compact, k1, ws);
            let t2 = table_row(full, k2, nx);
            assert forall|i: int| 0 <= i < t2.len() implies canon(#[trigger] t2[i]) by {
                lemma_grid_bound(k2, (nx * cs) as int, i, nx as int);
                assert((nx * cs) * nx == nx * (nx * cs)) by (nonlinear_arith);
                assert(canon(full[k2 * nx + i]));
            }
            lemma_mle_spread(t2, rw, low, n);
            let picked = Seq::new(ws, |j: int| t2[j * s]);
            assert forall|w: int| 0 <= w < ws implies #[trigger] t1[w] == picked[w] by {
                let x = w * s;
                assert(0 <= x < nx) by (nonlinear_arith)
                    requires
                        0 <= w <= ws - 1,
                        x == w * s,
                        s >= 1,
                        ws * s <= nx,
                ;
                lemma_strided_index(hs as int, ws as int, nx as int, s as int, c, h, w);
                assert(compact[idx3(hs as int, ws as int, c, h, w)] == full[idx3(
                    nx as int,
                    nx as int,
                    c,
                    h * s,
                    w * s,
                )]);
            }
            lemma_mle_eq(t1, picked, rw);
        }
        lemma_mle_eq(row1, every, rh);
    }
    lemma_mle_eq(b1, b2, rc);
}

} // verus!
