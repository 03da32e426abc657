//! The sums that the proof of a convolution layer shows, and the claims that it leaves behind, hold of the values of the
//! tables.
use crate::algebra::{
    lemma_fsum_canon, lemma_fsum_eq, lemma_fsum_scale, lemma_fsum_swap, lemma_fsum_zero, lemma_root_of_unity,
    root_of_unity,
};
use crate::arith::{clog2, flog2, is_pow2, lemma_flog2_pow2, lemma_grid_bound, lemma_grid_digits, lemma_grid_split};
use crate::fft::{all_canon, dft, fes, idft, inverse_of_pow2, lemma_fes_canon, lemma_inverse_of_pow2};
use crate::fft_laws::cyclic;
use crate::field::{
    canon, centered, fadd, fint, fmul, fone, fpow, fsub, fsum, fzero, lemma_fint_hom, lemma_fmul_assoc, lemma_fmul_comm,
    lemma_fmul_one, lemma_fmul_zero, lemma_fsub_fadd, lemma_ops_canon, Fe, P,
};
use crate::iop::batch::{
    extended, law_batch_inverse_transform, law_batch_transform, law_half_row_is_enough, lemma_mixed_product,
    lemma_stacked_mle, mixed, stacked, sum_of_products,
};
use crate::iop::delegation::{
    betas, half_table, law_delegation_step, law_first_delegation_step, step_factor, step_sum, step_table,
};
use crate::iop::fourier::{lemma_phase, level, level_table, phase};
use crate::iop::Claim;
use crate::layers::convolution::acceptance::{evaluates_steps, evaluates_tables};
use crate::layers::convolution::apply::{biased_at, raw_output};
use crate::layers::convolution::claims::{
    is_quotient, law_input_claim, law_output_claim, lemma_cancel, opposite, poly_point,
};
use crate::layers::convolution::prove::{
    channel_kernel, channel_transforms, filter_ok, laid_out, law_hadamard_sum, lemma_transform_len, mixed_kernel,
    mixed_kernel_at, repeated, transform_len,
};
use crate::layers::convolution::verify::{claim_before, point_before, ConvProofValues, DelegationValues};
use crate::layers::convolution::Convolution;
use crate::mle::{chi, lemma_chi_append, lemma_fsum_grid, lemma_mle_canon, lemma_mle_eq, mle_eval, mle_term, zeros};
use crate::number::Element;
use crate::tensor::extension::field_table;
use crate::tensor::fft_conv::{
    conv_poly, filter_of, lemma_concat_rows, lemma_conv_row, padded_filter, read_poly, reversed_chunk,
    zero_extended,
};
use crate::tensor::{concat_rows, Tensor};
use vstd::arithmetic::power2::{lemma2_to64, lemma_pow2_adds, lemma_pow2_pos, lemma_pow2_unfold, pow2};
use vstd::prelude::*;

verus! {

/// The sum of the products of three tables.
pub open spec fn sum_of_three(a: Seq<Fe>, b: Seq<Fe>, c: Seq<Fe>) -> Fe {
    fsum(a.len(), |i: int| fmul(fmul(a[i], b[i]), c[i]))
}

/// The extension of mixed vectors is that of the vectors one behind the other.
pub proof fn law_mixed_extension(rows: Seq<Seq<Fe>>, p: Seq<Fe>, q: Seq<Fe>)
    requires
        rows.len() == pow2(q.len()),
        forall|j: int| 0 <= j < rows.len() ==> (#[trigger] rows[j]).len() == pow2(p.len()),
    ensures
        mle_eval(mixed(rows, q, pow2(p.len())), p) == mle_eval(stacked(rows, pow2(p.len())), p + q),
{
    let len = pow2(p.len());
    let m = mixed(rows, q, len);
    lemma_mixed_product(rows, q, len, betas(p));
    lemma_fsum_eq(len, mle_term(m, p), |i: int| fmul(m[i], betas(p)[i]));
    lemma_stacked_mle(rows, p, q);
    let a = Seq::new(rows.len(), |j: int| mle_eval(rows[j], p));
    let b = Seq::new(rows.len(), |j: int| fsum(len, |i: int| fmul(rows[j][i], betas(p)[i])));
    assert forall|j: int| 0 <= j < pow2(q.len()) implies #[trigger] a[j] == b[j] by {
        lemma_fsum_eq(len, mle_term(rows[j], p), |i: int| fmul(rows[j][i], betas(p)[i]));
    }
    lemma_mle_eq(a, b, q);
}

/// Vectors that are zero from some place on are still so when they are mixed.
proof fn lemma_mixed_zero(rows: Seq<Seq<Fe>>, q: Seq<Fe>, len: nat, i: int)
    requires
        rows.len() == pow2(q.len()),
        0 <= i < len,
        forall|j: int| 0 <= j < rows.len() ==> (#[trigger] rows[j])[i] == fzero(),
    ensures
        mixed(rows, q, len)[i] == fzero(),
{
    let c = Seq::new(rows.len(), |j: int| rows[j][i]);
    let t = mle_term(c, q);
    assert forall|j: int| 0 <= j < pow2(q.len()) implies #[trigger] t(j) == fzero() by {
        assert(rows[j][i] == fzero());
        lemma_fmul_zero(chi(j, q));
    }
    lemma_fsum_zero(pow2(q.len()), t);
}

/// Vectors whose second half is zero: the extension of their transforms is the sum of products of the mixed vectors
/// and the first half of the row.
pub proof fn law_transform_sum(rows: Seq<Seq<Fe>>, p: Seq<Fe>, q: Seq<Fe>)
    requires
        1 <= p.len() <= 32,
        rows.len() == pow2(q.len()),
        forall|j: int| 0 <= j < rows.len() ==> (#[trigger] rows[j]).len() == pow2(p.len()),
        forall|j: int, i: int|
            0 <= j < rows.len() && pow2((p.len() - 1) as nat) <= i < pow2(p.len()) ==> #[trigger] rows[j][i] == fzero(),
    ensures
        mle_eval(stacked(rows.map_values(|v: Seq<Fe>| dft(v, phase(p.len(), false))), pow2(p.len())), p + q)
            == sum_of_products(
            mixed(rows, q, pow2(p.len())),
            half_table(p, phase(p.len(), false), fone(), p.len()),
        ),
{
    let n = p.len();
    let phi = phase(n, false);
    let m = mixed(rows, q, pow2(n));
    lemma_phase(n, false);
    law_batch_transform(rows, p, q, phi);
    assert forall|i: int| pow2((n - 1) as nat) <= i < m.len() implies #[trigger] m[i] == fzero() by {
        assert forall|j: int| 0 <= j < rows.len() implies (#[trigger] rows[j])[i] == fzero() by {}
        lemma_mixed_zero(rows, q, pow2(n), i);
    }
    law_half_row_is_enough(m, p, phi, fone());
}

/// The value that a step of a delegation starts from is the sum of the products of its three tables, where `claim` is
/// the value of the extension of the row at `start`.
pub proof fn law_delegation_sums(
    points: Seq<Seq<Fe>>,
    claims: Seq<Seq<Fe>>,
    start: Seq<Fe>,
    rx: Seq<Fe>,
    scale: Fe,
    inverse: bool,
    claim: Fe,
    i: int,
)
    requires
        0 <= i < points.len() <= 31,
        evaluates_steps(points, claims, start, rx, scale, inverse),
        all_canon(rx),
        all_canon(start),
        forall|j: int| 0 <= j < points.len() ==> all_canon(#[trigger] points[j]),
        canon(scale),
        claim == mle_eval(
            if inverse {
                level_table(rx, phase(rx.len(), true), scale, rx.len(), rx.len())
            } else {
                half_table(rx, phase(rx.len(), false), scale, rx.len())
            },
            start,
        ),
    ensures
        ({
            let n = rx.len();
            let before = point_before(points, start, i);
            let m = (points.len() - i) as nat;
            let phi = phase(n, inverse);
            claim_before(claims, claim, i) == sum_of_three(
                betas(before.drop_last()),
                step_table(rx[i], before.last(), fpow(phi, pow2(i as nat)), !inverse && i == 0, m),
                level_table(rx, phi, scale, n, m),
            )
        }),
{
    let n = rx.len();
    let k = points.len();
    let before = point_before(points, start, i);
    let m = (k - i) as nat;
    let phi = phase(n, inverse);
    let first = !inverse && i == 0;
    if i > 0 {
        assert(points[i - 1].len() == k - (i - 1));
        assert(all_canon(points[i - 1]));
        assert(claims[i - 1][2] == mle_eval(level_table(rx, phi, scale, n, (k - (i - 1)) as nat), points[i - 1]));
    }
    assert(before.len() == m + 1);
    let (p, y) = (before.drop_last(), before.last());
    assert(canon(before[m as int]));
    assert(before =~= p.push(y));
    lemma_phase(n, inverse);
    if first {
        law_first_delegation_step(rx, phi, scale, n, p, y);
    } else {
        law_delegation_step(rx, phi, scale, n, m + 1, p, y);
    }
    let z = fpow(phi, pow2(i as nat));
    let (a, b, c) = (betas(p), step_table(rx[i], y, z, first, m), level_table(rx, phi, scale, n, m));
    let f = |t: int|
        fmul(
            chi(t, p),
            fmul(
                step_factor(rx[i], y, fpow(z, t as nat), first),
                level(rx, phi, scale, n, m, t),
            ),
        );
    let g = |t: int| fmul(fmul(a[t], b[t]), c[t]);
    assert forall|t: int| 0 <= t < pow2(m) implies #[trigger] f(t) == g(t) by {
        lemma_fmul_assoc(a[t], b[t], c[t]);
    }
    lemma_fsum_eq(pow2(m), f, g);
    assert((n - (m + 1)) as nat == i);
    assert(step_sum(rx, phi, scale, n, m + 1, p, y, first) == fsum(pow2(m), f));
}

/// The claim on the output, less that on the bias, is the sum of products that shows the inverse transforms: `out`
/// holds the channels, each the lower half of an inverse transform read backwards, plus the bias of the channel.
pub proof fn law_inverse_transform_sum(out: Seq<Fe>, prod: Seq<Seq<Fe>>, bias: Seq<Fe>, p: Seq<Fe>, n: nat)
    requires
        1 <= n <= 32,
        n - 1 <= p.len(),
        all_canon(p),
        all_canon(bias),
        prod.len() == pow2((p.len() - (n - 1)) as nat),
        bias.len() == prod.len(),
        out.len() == prod.len() * pow2((n - 1) as nat),
        forall|i: int| 0 <= i < prod.len() ==> (#[trigger] prod[i]).len() == pow2(n),
        forall|i: int, k: int|
            0 <= i < prod.len() && 0 <= k < pow2((n - 1) as nat) ==> #[trigger] out[i * pow2((n - 1) as nat) + k] == fadd(
                idft(prod[i], root_of_unity(n))[pow2((n - 1) as nat) - 1 - k],
                bias[i],
            ),
    ensures
        fsub(mle_eval(out, p), mle_eval(bias, p.skip(n - 1))) == sum_of_products(
            mixed(prod, p.skip(n - 1), pow2(n)),
            level_table(
                opposite(p).take(n - 1).push(fzero()),
                phase(n, true),
                inverse_of_pow2(n),
                n,
                n,
            ),
        ),
{
    let e = (n - 1) as nat;
    let w = root_of_unity(n);
    let polys = prod.map_values(|v: Seq<Fe>| idft(v, w));
    lemma_pow2_unfold(n);
    assert forall|i: int| 0 <= i < polys.len() implies (#[trigger] polys[i]).len() == 2 * pow2(e) by {
        assert(prod[i].len() == pow2(n));
    }
    assert forall|i: int| 0 <= i < polys.len() implies all_canon(#[trigger] polys[i]) by {
        let back = dft(prod[i], fpow(w, (prod[i].len() - 1) as nat));
        assert forall|k: int| 0 <= k < polys[i].len() implies canon(#[trigger] polys[i][k]) by {
            lemma_ops_canon(back[k], inverse_of_pow2(clog2(prod[i].len())));
        }
    }
    assert forall|i: int, k: int| 0 <= i < polys.len() && 0 <= k < pow2(e) implies #[trigger] out[i * pow2(e) + k] == fadd(
        polys[i][pow2(e) - 1 - k],
        bias[i],
    ) by {
        assert(polys[i] == idft(prod[i], w));
    }
    law_output_claim(out, polys, bias, p, e);
    let row = opposite(p).take(n - 1).push(fzero());
    let high = p.skip(n - 1);
    assert(poly_point(p, e) =~= row + high) by {
        assert(opposite(p.take(e as int)) =~= opposite(p).take(n - 1));
        assert(zeros(1) =~= seq![fzero()]);
    }
    lemma_phase(n, false);
    law_batch_inverse_transform(prod, row, high, w);
    let s = mle_eval(stacked(polys, pow2(n)), row + high);
    lemma_mle_canon(stacked(polys, pow2(n)), row + high);
    lemma_fsub_fadd(s, mle_eval(bias, high));
}

/// Mixing the kernels along the output channels first and along the input channels then is mixing all of them.
proof fn lemma_mixed_twice(filter: &Tensor<Element>, high: Seq<Fe>, mid: Seq<Fe>, k: int)
    requires
        filter.shape@[1] == pow2(mid.len()),
        filter.shape@.len() == 4,
    ensures
        ({
            let (kw, kx) = (filter.shape@[0] as nat, filter.shape@[1] as nat);
            let a = filter.og_shape@[2] * filter.og_shape@[2];
            mle_eval(
                Seq::new(kx, |j: int| mixed_kernel_at(filter.data@, |i: int| chi(i, high), kw, j, kx as int, a, k)),
                mid,
            ) == mixed_kernel_at(filter.data@, |i: int| chi(i, mid + high), kw * kx, 0, 1, a, k)
        }),
{
    let (kw, kx) = (filter.shape@[0] as nat, filter.shape@[1] as nat);
    let a = filter.og_shape@[2] * filter.og_shape@[2];
    let d = filter.data@;
    let b1 = |i: int| chi(i, high);
    let b2 = |i: int| chi(i, mid + high);
    let x = |t: int| fint(d[t * a + k] as int);
    // the sum over all kernels, output channel by output channel
    let all = |t: int| fmul(b2(t), fint(d[(0 + t * 1) * a + k] as int));
    lemma_fsum_grid(kw, kx, all);
    let f = |i: int, j: int| fmul(fmul(chi(j, mid), chi(i, high)), x(i * kx + j));
    let rows = |i: int| fsum(kx, |j: int| all(i * kx + j));
    let frows = |i: int| fsum(kx, |j: int| f(i, j));
    assert forall|i: int| 0 <= i < kw implies #[trigger] rows(i) == frows(i) by {
        let u = |j: int| all(i * kx + j);
        let v = |j: int| f(i, j);
        assert forall|j: int| 0 <= j < kx implies #[trigger] u(j) == v(j) by {
            lemma_grid_digits(i, j, kx as int);
            assert(i * kx >= 0) by (nonlinear_arith)
                requires
                    i >= 0,
                    kx >= 0,
            ;
            lemma_chi_append(i * kx + j, mid, high);
            let t = i * kx + j;
            assert((0 + t * 1) * a == t * a) by (nonlinear_arith);
        }
        lemma_fsum_eq(kx, u, v);
    }
    lemma_fsum_eq(kw, rows, frows);
    lemma_fsum_swap(kw, kx, f);
    // the sum over the input channels
    let c = Seq::new(kx, |j: int| mixed_kernel_at(d, b1, kw, j, kx as int, a, k));
    let t = mle_term(c, mid);
    let cols = |j: int| fsum(kw, |i: int| f(i, j));
    assert forall|j: int| 0 <= j < kx implies #[trigger] t(j) == cols(j) by {
        let g = |i: int| fmul(b1(i), fint(d[(j + i * kx) * a + k] as int));
        let z = chi(j, mid);
        lemma_fsum_scale(kw, z, g);
        lemma_fmul_comm(z, fsum(kw, g));
        let u = |i: int| fmul(z, g(i));
        let v = |i: int| f(i, j);
        assert forall|i: int| 0 <= i < kw implies #[trigger] u(i) == v(i) by {
            assert((j + i * kx) * a == (i * kx + j) * a);
            lemma_fmul_assoc(z, chi(i, high), x(i * kx + j));
        }
        lemma_fsum_eq(kw, u, v);
    }
    lemma_fsum_eq(kx, t, cols);
}

/// The extension of the transforms of the mixed kernels at `low + mid` is the sum of products of the kernels, mixed
/// along all channels, and the first half of the row.
pub proof fn law_kernel_sum(filter: &Tensor<Element>, high: Seq<Fe>, low: Seq<Fe>, mid: Seq<Fe>)
    requires
        filter_ok(filter),
        low.len() == flog2(transform_len(filter)),
        filter.shape@[1] == pow2(mid.len()),
    ensures
        ({
            let len = transform_len(filter);
            let n = low.len();
            let f = filter.og_shape@[2] as int;
            let kernels = (filter.shape@[0] * filter.shape@[1]) as nat;
            let mix = mixed_kernel(filter.data@, |i: int| chi(i, mid + high), kernels, 0, 1, (f * f) as nat);
            mle_eval(stacked(channel_transforms(filter, high), len), low + mid) == sum_of_products(
                laid_out(mix, f, filter.shape@[2] as int, len),
                half_table(low, phase(n, false), fone(), n),
            )
        }),
{
    let len = transform_len(filter);
    let n = low.len();
    let f = filter.og_shape@[2] as int;
    let side = filter.shape@[2] as int;
    let (kw, kx) = (filter.shape@[0] as nat, filter.shape@[1] as nat);
    let a = (f * f) as nat;
    lemma_transform_len(filter);
    lemma_pow2_unfold(n);
    assert(f * f >= 0) by (nonlinear_arith);
    assert(kw * kx >= 0) by (nonlinear_arith);
    let mix = mixed_kernel(filter.data@, |i: int| chi(i, mid + high), kw * kx, 0, 1, a);
    let rows = Seq::new(kx, |j: int| channel_kernel(filter, high, j));
    assert forall|j: int, b: int| 0 <= j < kx && len / 2 <= b < len implies #[trigger] rows[j][b] == fzero() by {
        vstd::arithmetic::div_mod::lemma_fundamental_div_mod(b, side);
        vstd::arithmetic::div_mod::lemma_mod_bound(b, side);
        let d = b / side;
        if d < f {
            assert(side * d + side <= side * side) by (nonlinear_arith)
                requires
                    d <= side - 1,
                    side > 0,
            ;
        }
    }
    law_transform_sum(rows, low, mid);
    assert(rows.map_values(|v: Seq<Fe>| dft(v, phase(n, false))) =~= channel_transforms(filter, high));
    let m = mixed(rows, mid, len);
    let l = laid_out(mix, f, side, len);
    assert forall|b: int| 0 <= b < len implies #[trigger] m[b] == l[b] by {
        let c = Seq::new(kx, |j: int| rows[j][b]);
        vstd::arithmetic::div_mod::lemma_div_pos_is_pos(b, side);
        vstd::arithmetic::div_mod::lemma_mod_bound(b, side);
        if b / side < f && b % side < f {
            let k = (b / side) * f + b % side;
            lemma_grid_bound(b / side, f, b % side, f);
            assert(0 <= (b / side) * f) by (nonlinear_arith)
                requires
                    0 <= b / side,
                    0 <= f,
            ;
            let d = Seq::new(
                kx,
                |j: int| mixed_kernel_at(filter.data@, |i: int| chi(i, high), kw, j, kx as int, a as int, k),
            );
            assert(c =~= d);
            lemma_mixed_twice(filter, high, mid, k);
        } else {
            lemma_mixed_zero(rows, mid, len, b);
        }
    }
    assert(m =~= l);
}

/// The claim on the filter: the extension of the mixed kernels at `r` is that of the filter at `r` and the point that
/// the kernels were mixed at.
pub proof fn law_filter_claim(filter: &Tensor<Element>, r: Seq<Fe>, q: Seq<Fe>)
    requires
        filter.data@.len() == pow2(q.len()) * pow2(r.len()),
    ensures
        mle_eval(
            mixed_kernel(filter.data@, |i: int| chi(i, q), pow2(q.len()), 0, 1, pow2(r.len())),
            r,
        ) == mle_eval(field_table(filter), r + q),
{
    let (count, a) = (pow2(q.len()), pow2(r.len()));
    let d = filter.data@;
    let table = field_table(filter);
    let rows = Seq::new(count, |j: int| Seq::new(a, |k: int| table[j * a + k]));
    lemma_pow2_pos(r.len());
    assert(table =~= stacked(rows, a)) by {
        assert forall|t: int| 0 <= t < table.len() implies table[t] == stacked(rows, a)[t] by {
            lemma_grid_split(t, count as int, a as int);
        }
    }
    law_mixed_extension(rows, r, q);
    let beta = |i: int| chi(i, q);
    let mix = mixed_kernel(d, beta, count, 0, 1, a);
    let m = mixed(rows, q, a);
    assert forall|k: int| 0 <= k < a implies #[trigger] mix[k] == m[k] by {
        let c = Seq::new(rows.len(), |j: int| rows[j][k]);
        let f = |j: int| fmul(beta(j), fint(d[(0 + j * 1) * a + k] as int));
        let t = mle_term(c, q);
        assert forall|j: int| 0 <= j < count implies #[trigger] f(j) == t(j) by {
            lemma_grid_bound(j, count as int, k, a as int);
            assert((0 + j * 1) * a == j * a) by (nonlinear_arith);
            assert(0 <= j * a) by (nonlinear_arith)
                requires
                    j >= 0,
                    a >= 0,
            ;
            lemma_fmul_comm(beta(j), table[j * a + k]);
        }
        lemma_fsum_eq(count, f, t);
    }
    assert(mix =~= m);
}

/// Every step of a delegation starts from the sum of the products of its three tables.
pub open spec fn steps_add_up(
    points: Seq<Seq<Fe>>,
    claims: Seq<Seq<Fe>>,
    start: Seq<Fe>,
    rx: Seq<Fe>,
    scale: Fe,
    inverse: bool,
    claim: Fe,
) -> bool {
    forall|i: int|
        0 <= i < points.len() ==> #[trigger] claim_before(claims, claim, i) == sum_of_three(
            betas(point_before(points, start, i).drop_last()),
            step_table(
                rx[i],
                point_before(points, start, i).last(),
                fpow(phase(rx.len(), inverse), pow2(i as nat)),
                !inverse && i == 0,
                (points.len() - i) as nat,
            ),
            level_table(rx, phase(rx.len(), inverse), scale, rx.len(), (points.len() - i) as nat),
        )
}

/// What the layer computes: the transforms of the channels of the input, the sums of their products with the transforms
/// of the kernels, and the output, which holds the lower halves of the inverse transforms read backwards, plus the bias.
pub open spec fn computes(
    conv: &Convolution<Element>,
    input: Seq<Seq<Fe>>,
    input_fft: Seq<Seq<Fe>>,
    prod: Seq<Seq<Fe>>,
    out: Seq<Fe>,
) -> bool {
    let filter = &conv.filter;
    let len = transform_len(filter);
    let n = flog2(len);
    let half = pow2((n - 1) as nat);
    let root = root_of_unity(n);
    let (f, side, kx) = (filter.og_shape@[2] as int, filter.shape@[2] as int, filter.shape@[1] as int);
    &&& input.len() == kx
    &&& forall|j: int| 0 <= j < input.len() ==> (#[trigger] input[j]).len() == half
    &&& input_fft == extended(input, len).map_values(|v: Seq<Fe>| dft(v, root))
    &&& prod.len() == filter.shape@[0]
    &&& forall|i: int| 0 <= i < prod.len() ==> (#[trigger] prod[i]).len() == len
    &&& forall|i: int, m: int|
        0 <= i < prod.len() && 0 <= m < len ==> #[trigger] prod[i][m] == fsum(
            kx as nat,
            |j: int|
                fmul(
                    input_fft[j][m],
                    dft(padded_filter(filter_of(filter.data@, f, kx, i, j), f, side, len), root)[m],
                ),
        )
    &&& out.len() == prod.len() * half
    &&& forall|i: int, k: int|
        0 <= i < prod.len() && 0 <= k < half ==> #[trigger] out[i * half + k] == fadd(
            idft(prod[i], root)[half - 1 - k],
            field_table(&conv.bias)[i],
        )
}

/// The element is an integer.
spec fn is_base(x: Fe) -> bool {
    x.1 == 0
}

proof fn lemma_base_sum(n: nat, f: spec_fn(int) -> Fe)
    requires
        forall|i: int| 0 <= i < n ==> is_base(#[trigger] f(i)),
    ensures
        is_base(fsum(n, f)),
    decreases n,
{
    if n > 0 {
        lemma_base_sum((n - 1) as nat, f);
        assert(is_base(f(n - 1)));
        reveal(fadd);
    }
}

proof fn lemma_base_product(x: Fe, y: Fe)
    requires
        is_base(x),
        is_base(y),
    ensures
        is_base(fmul(x, y)),
{
    reveal(fmul);
    assert(x.0 * 0 + 0 * y.0 == 0);
}

/// The polynomials of a convolution have integer coefficients, which the quantised values stand for.
proof fn lemma_poly_base(x: Seq<Element>, w: Seq<Element>, f: int, kx: int, n: int, i: int, m: int)
    requires
        0 <= kx,
        0 <= m < 2 * (n * n),
    ensures
        is_base(conv_poly(x, w, f, kx, n, i)[m]),
        canon(conv_poly(x, w, f, kx, n, i)[m]),
{
    let len = (2 * (n * n)) as nat;
    let a = |j: int| zero_extended(reversed_chunk(x, n * n, j), len);
    let b = |j: int| padded_filter(filter_of(w, f, kx, i, j), f, n, len);
    let g = |j: int| cyclic(a(j), b(j))[m];
    assert forall|j: int| 0 <= j < kx implies is_base(#[trigger] g(j)) by {
        let (u, v) = (a(j), b(j));
        let h = |t: int| fmul(u[t], v[(m - t) % (len as int)]);
        assert forall|t: int| 0 <= t < len implies is_base(#[trigger] h(t)) by {
            vstd::arithmetic::div_mod::lemma_mod_bound(m - t, len as int);
            lemma_base_product(u[t], v[(m - t) % (len as int)]);
        }
        lemma_base_sum(len, h);
        lemma_fsum_eq(len, h, |t: int| fmul(u[t], v[(m - t) % (u.len() as int)]));
    }
    lemma_base_sum(kx as nat, g);
    lemma_fsum_canon(kx as nat, g);
    lemma_fsum_eq(
        kx as nat,
        g,
        |j: int|
            cyclic(
                zero_extended(reversed_chunk(x, n * n, j), len),
                padded_filter(filter_of(w, f, kx, i, j), f, n, len),
            )[m],
    );
}

/// What applying a layer to `x` keeps for the proof is what the layer computes, see `computes`: the channels of `x`
/// backwards, their transforms, the transforms of the polynomials of the output, and the output with the bias.
pub proof fn law_op_computes(
    conv: &Convolution<Element>,
    x: Seq<Element>,
    input: Seq<Seq<Fe>>,
    input_fft: Seq<Seq<Fe>>,
    prod: Seq<Seq<Fe>>,
    elements: Seq<Element>,
)
    requires
        filter_ok(&conv.filter),
        conv.bias.data@.len() >= conv.filter.shape@[0],
        ({
            let filter = &conv.filter;
            let len = transform_len(filter);
            let root = root_of_unity(clog2(len));
            let (f, n, kx) = (filter.og_shape@[2] as int, filter.shape@[2] as int, filter.shape@[1] as int);
            &&& x.len() == kx * (n * n)
            &&& input.len() == kx
            &&& input_fft.len() == kx
            &&& prod.len() == filter.shape@[0]
            &&& elements.len() == filter.shape@[0] * (n * n)
            &&& forall|j: int| 0 <= j < kx ==> #[trigger] input[j] == reversed_chunk(x, n * n, j)
            &&& forall|j: int|
                0 <= j < kx ==> #[trigger] input_fft[j] == dft(zero_extended(reversed_chunk(x, n * n, j), len), root)
            &&& forall|i: int|
                0 <= i < prod.len() ==> #[trigger] prod[i] == dft(conv_poly(x, filter.data@, f, kx, n, i), root)
            &&& forall|p: int| 0 <= p < elements.len() ==> #[trigger] elements[p] == biased_at(conv, x, p)
        }),
    ensures
        computes(conv, input, input_fft, prod, elements.map_values(|e: Element| fint(e as int))),
{
    let filter = &conv.filter;
    let len = transform_len(filter);
    let k = flog2(len);
    let root = root_of_unity(k);
    let (f, n, kx, kw) = (
        filter.og_shape@[2] as int,
        filter.shape@[2] as int,
        filter.shape@[1] as int,
        filter.shape@[0] as int,
    );
    let n2 = n * n;
    lemma_transform_len(filter);
    lemma_pow2_unfold(k);
    lemma_root_of_unity(k);
    assert(n2 == pow2((k - 1) as nat));
    assert forall|j: int| 0 <= j < kx implies (#[trigger] input[j]).len() == n2 by {
        lemma_grid_bound(j, kx, n2 - 1, n2);
        assert((j + 1) * n2 == j * n2 + n2) by (nonlinear_arith);
        assert(0 <= j * n2) by (nonlinear_arith)
            requires
                j >= 0,
                n2 >= 0,
        ;
    }
    let ext = extended(input, len);
    assert(input_fft =~= ext.map_values(|v: Seq<Fe>| dft(v, root))) by {
        assert forall|j: int| 0 <= j < kx implies input_fft[j] == dft(ext[j], root) by {
            assert(input[j] == reversed_chunk(x, n2, j));
        }
    }
    let out = elements.map_values(|e: Element| fint(e as int));
    let polys = Seq::new(kw as nat, |i: int| conv_poly(x, filter.data@, f, kx, n, i));
    let xs = |j: int| zero_extended(reversed_chunk(x, n2, j), len);
    assert forall|i: int| 0 <= i < kw implies {
        &&& #[trigger] prod[i] == products(conv, input_fft, i)
        &&& idft(prod[i], root) == polys[i]
    } by {
        let ws = |j: int| padded_filter(filter_of(filter.data@, f, kx, i, j), f, n, len);
        let p = products(conv, input_fft, i);
        assert forall|q: int| 0 <= q < len implies #[trigger] p[q] == fsum(
            kx as nat,
            |j: int| fmul(dft(xs(j), root)[q], dft(ws(j), root)[q]),
        ) by {
            let u = |j: int| fmul(input_fft[j][q], dft(ws(j), root)[q]);
            let t = |j: int| fmul(dft(xs(j), root)[q], dft(ws(j), root)[q]);
            assert forall|j: int| 0 <= j < kx implies #[trigger] u(j) == t(j) by {
                assert(input_fft[j] == dft(xs(j), root));
            }
            lemma_fsum_eq(kx as nat, u, t);
            lemma_fsum_eq(
                kx as nat,
                u,
                |j: int|
                    fmul(
                        input_fft[j][q],
                        dft(padded_filter(filter_of(filter.data@, f, kx, i, j), f, n, len), root)[q],
                    ),
            );
        }
        lemma_conv_row(xs, ws, kx as nat, k, root, p);
        let c = Seq::new(pow2(k), |m: int| fsum(kx as nat, |j: int| cyclic(xs(j), ws(j))[m]));
        assert(c =~= polys[i]) by {
            assert forall|m: int| 0 <= m < len implies c[m] == polys[i][m] by {
                lemma_fsum_eq(
                    kx as nat,
                    |j: int| cyclic(xs(j), ws(j))[m],
                    |j: int|
                        cyclic(
                            zero_extended(reversed_chunk(x, n * n, j), len),
                            padded_filter(filter_of(filter.data@, f, kx, i, j), f, n, len),
                        )[m],
                );
            }
        }
    }
    let reads = polys.map_values(|u: Seq<Fe>| read_poly(u, n));
    assert forall|i: int| 0 <= i < reads.len() implies (#[trigger] reads[i]).len() == n2 by {
        assert(polys[i].len() == 2 * n2);
    }
    lemma_concat_rows(reads, n2 as nat);
    assert forall|i: int, t: int| 0 <= i < kw && 0 <= t < n2 implies #[trigger] out[i * n2 + t] == fadd(
        idft(prod[i], root)[n2 - 1 - t],
        field_table(&conv.bias)[i],
    ) by {
        let p = i * n2 + t;
        lemma_grid_bound(i, kw, t, n2);
        lemma_grid_digits(i, t, n2);
        assert(0 <= i * n2) by (nonlinear_arith)
            requires
                i >= 0,
                n2 >= 0,
        ;
        assert(prod[i] == products(conv, input_fft, i));
        let u = polys[i][n2 - 1 - t];
        lemma_poly_base(x, filter.data@, f, kx, n, i, n2 - 1 - t);
        assert(reads[i][t] == centered(u.0) as Element);
        assert(raw_output(filter, x) =~= concat_rows(reads)) by {
            assert(Seq::new(
                kw as nat,
                |i: int| conv_poly(x, filter.data@, filter.og_shape@[2] as int, filter.shape@[1] as int, n, i),
            ) =~= polys);
        }
        assert(elements[p] == biased_at(conv, x, p));
        let (a, b) = (centered(u.0), conv.bias.data@[i] as int);
        assert(elements[p] == a + b);
        lemma_fint_hom(a, b);
        assert(fint(a) == u) by {
            if u.0 <= P / 2 {
                vstd::arithmetic::div_mod::lemma_small_mod(u.0 as nat, P as nat);
            } else {
                vstd::arithmetic::div_mod::lemma_mod_add_multiples_vanish(u.0 - P, P as int);
                vstd::arithmetic::div_mod::lemma_small_mod(u.0 as nat, P as nat);
            }
        }
    }
    assert forall|i: int, m: int| 0 <= i < kw && 0 <= m < len implies #[trigger] prod[i][m] == fsum(
        kx as nat,
        |j: int|
            fmul(
                input_fft[j][m],
                dft(padded_filter(filter_of(filter.data@, f, kx, i, j), f, n, len), root)[m],
            ),
    ) by {
        assert(prod[i] == products(conv, input_fft, i));
    }
}

/// The sums of the products of the transforms of output channel `i`.
spec fn products(conv: &Convolution<Element>, input_fft: Seq<Seq<Fe>>, i: int) -> Seq<Fe> {
    let filter = &conv.filter;
    let len = transform_len(filter);
    let (f, n, kx) = (filter.og_shape@[2] as int, filter.shape@[2] as int, filter.shape@[1] as int);
    Seq::new(
        len,
        |m: int|
            fsum(
                kx as nat,
                |j: int|
                    fmul(
                        input_fft[j][m],
                        dft(
                            padded_filter(filter_of(filter.data@, f, kx, i, j), f, n, len),
                            root_of_unity(flog2(len)),
                        )[m],
                    ),
            ),
    )
}

/// The numbers of channels are powers of two, and there is a bias for every output channel.
pub open spec fn padded_layer(conv: &Convolution<Element>, last: &Claim) -> bool {
    let n = flog2(transform_len(&conv.filter));
    &&& filter_ok(&conv.filter)
    &&& conv.filter.shape@[2] >= 2
    &&& is_pow2(conv.filter.shape@[1] as int)
    &&& last.point@.len() >= n - 1
    &&& conv.filter.shape@[0] == pow2((last.point@.len() - (n - 1)) as nat)
    &&& conv.bias.data@.len() == conv.filter.shape@[0]
}

/// For a layer that was computed, the sums that the proof shows are those of the products of the tables, where the claim
/// on the output holds and the values are those of the tables.
pub proof fn law_convolution_sums(
    conv: &Convolution<Element>,
    input: Seq<Seq<Fe>>,
    input_fft: Seq<Seq<Fe>>,
    prod: Seq<Seq<Fe>>,
    out: Seq<Fe>,
    last: &Claim,
    v: &ConvProofValues,
)
    requires
        padded_layer(conv, last),
        computes(conv, input, input_fft, prod, out),
        last.eval.fe() == mle_eval(out, last.at()),
        evaluates_tables(conv, input, input_fft, prod, last, v),
    ensures
        ({
            let filter = &conv.filter;
            let len = transform_len(filter);
            let n = flog2(len);
            let kx = filter.shape@[1] as nat;
            let f = filter.og_shape@[2] as int;
            let high = last.at().skip(n - 1);
            let row = opposite(last.at()).take(n - 1).push(fzero());
            let (ip, hp, fp, wp) = (
                fes(v.ifft_point@),
                fes(v.hadamard_point@),
                fes(v.fft_point@),
                fes(v.weights_point@),
            );
            let (low, mid) = (hp.take(n as int), hp.skip(n as int));
            let kernels = (filter.shape@[0] * filter.shape@[1]) as nat;
            let mix = mixed_kernel(filter.data@, |i: int| chi(i, mid + high), kernels, 0, 1, (f * f) as nat);
            let half_row = half_table(low, phase(n, false), fone(), n);
            let (di, df, dw) = (&v.ifft_delegation, &v.fft_delegation, &v.weights_delegation);
            &&& fsub(last.eval.fe(), v.bias_claim.fe()) == sum_of_products(
                mixed(prod, high, len),
                level_table(row, phase(n, true), inverse_of_pow2(n), n, n),
            )
            &&& steps_add_up(di.at(), di.values(), ip, row, inverse_of_pow2(n), true, v.ifft_claims@[1].fe())
            &&& v.ifft_claims@[0].fe() == sum_of_three(
                stacked(channel_transforms(filter, high), len),
                stacked(input_fft, len),
                stacked(repeated(betas(ip), kx), len),
            )
            &&& v.hadamard_claims@[1].fe() == sum_of_products(mixed(extended(input, len), mid, len), half_row)
            &&& steps_add_up(df.at(), df.values(), fp, low, fone(), false, v.fft_claims@[1].fe())
            &&& v.hadamard_claims@[0].fe() == sum_of_products(
                laid_out(mix, f, filter.shape@[2] as int, len),
                half_row,
            )
            &&& steps_add_up(dw.at(), dw.values(), wp, low, fone(), false, v.fft_weight_claims@[1].fe())
        }),
{
    let filter = &conv.filter;
    let len = transform_len(filter);
    let n = flog2(len);
    let e = (n - 1) as nat;
    let kx = filter.shape@[1] as nat;
    let at = last.at();
    let high = at.skip(n - 1);
    let row = opposite(at).take(n - 1).push(fzero());
    let (ip, hp, fp, wp) = (fes(v.ifft_point@), fes(v.hadamard_point@), fes(v.fft_point@), fes(v.weights_point@));
    let (low, mid) = (hp.take(n as int), hp.skip(n as int));
    let root = root_of_unity(n);
    let bias = field_table(&conv.bias);
    lemma_transform_len(filter);
    lemma_pow2_unfold(n);
    let c = choose|c: nat| #[trigger] pow2(c) == kx;
    lemma_flog2_pow2(c);
    assert(hp =~= low + mid);
    assert(fes(v.ifft_claims@).len() == v.ifft_claims@.len());
    assert(fes(v.hadamard_claims@).len() == v.hadamard_claims@.len());
    assert(fes(v.fft_claims@).len() == v.fft_claims@.len());
    assert(fes(v.fft_weight_claims@).len() == v.fft_weight_claims@.len());
    // the inverse transforms
    lemma_fes_canon(last.point@);
    assert forall|i: int| 0 <= i < bias.len() implies canon(#[trigger] bias[i]) by {
        lemma_fint_hom(conv.bias.data@[i] as int, 0);
    }
    law_inverse_transform_sum(out, prod, bias, at, n);
    assert(v.bias_claim.fe() == mle_eval(bias, high)) by {
        lemma2_to64();
    }
    // the products
    law_hadamard_sum(filter, input_fft, prod, ip, high);
    law_mixed_extension(prod, ip, high);
    assert(fes(v.ifft_claims@)[0] == v.ifft_claims@[0].fe());
    let (f1, f2, f3) = (
        stacked(channel_transforms(filter, high), len),
        stacked(input_fft, len),
        stacked(repeated(betas(ip), kx), len),
    );
    lemma_fsum_eq(kx * len, |t: int| fmul(fmul(f1[t], f2[t]), f3[t]), |i: int| fmul(fmul(f1[i], f2[i]), f3[i]));
    // the transforms of the input
    let rows = extended(input, len);
    assert forall|j: int, i: int| 0 <= j < rows.len() && pow2(e) <= i < len implies #[trigger] rows[j][i] == fzero() by {
        assert(input[j].len() == pow2(e));
    }
    law_transform_sum(rows, low, mid);
    assert(fes(v.hadamard_claims@)[1] == v.hadamard_claims@[1].fe());
    assert(rows.map_values(|v: Seq<Fe>| dft(v, phase(n, false))) =~= input_fft);
    // the transforms of the kernels
    law_kernel_sum(filter, high, low, mid);
    assert(fes(v.hadamard_claims@)[0] == v.hadamard_claims@[0].fe());
    // the delegations
    lemma_inverse_of_pow2(n);
    lemma_fes_canon(v.ifft_point@);
    lemma_fes_canon(v.fft_point@);
    lemma_fes_canon(v.weights_point@);
    lemma_fes_canon(v.hadamard_point@);
    assert forall|i: int| 0 <= i < row.len() implies canon(#[trigger] row[i]) by {
        if i < e {
            lemma_ops_canon(fone(), at[i]);
        }
    }
    assert forall|i: int| 0 <= i < low.len() implies canon(#[trigger] low[i]) by {
        assert(canon(hp[i]));
    }
    lemma_ops_canon(fone(), fzero());
    lemma_fmul_one(fone());
    lemma_steps_add_up(&v.ifft_delegation, ip, row, inverse_of_pow2(n), true, v.ifft_claims@[1].fe());
    lemma_steps_add_up(&v.fft_delegation, fp, low, fone(), false, v.fft_claims@[1].fe());
    lemma_steps_add_up(&v.weights_delegation, wp, low, fone(), false, v.fft_weight_claims@[1].fe());
}

proof fn lemma_steps_add_up(d: &DelegationValues, start: Seq<Fe>, rx: Seq<Fe>, scale: Fe, inverse: bool, claim: Fe)
    requires
        d.points@.len() <= 31,
        evaluates_steps(d.at(), d.values(), start, rx, scale, inverse),
        all_canon(rx),
        all_canon(start),
        canon(scale),
        claim == mle_eval(
            if inverse {
                level_table(rx, phase(rx.len(), true), scale, rx.len(), rx.len())
            } else {
                half_table(rx, phase(rx.len(), false), scale, rx.len())
            },
            start,
        ),
    ensures
        steps_add_up(d.at(), d.values(), start, rx, scale, inverse, claim),
{
    assert forall|j: int| 0 <= j < d.at().len() implies all_canon(#[trigger] d.at()[j]) by {
        lemma_fes_canon(d.points@[j]@);
    }
    assert forall|i: int| 0 <= i < d.at().len() implies #[trigger] claim_before(d.values(), claim, i) == sum_of_three(
        betas(point_before(d.at(), start, i).drop_last()),
        step_table(
            rx[i],
            point_before(d.at(), start, i).last(),
            fpow(phase(rx.len(), inverse), pow2(i as nat)),
            !inverse && i == 0,
            (d.at().len() - i) as nat,
        ),
        level_table(rx, phase(rx.len(), inverse), scale, rx.len(), (d.at().len() - i) as nat),
    ) by {
        law_delegation_sums(d.at(), d.values(), start, rx, scale, inverse, claim, i);
    }
}

/// The claims that the checks leave behind hold: that on the filter at the challenges `r`, that on the bias, and that on
/// the input `x`, whose channels are transformed backwards.
pub proof fn law_convolution_claims(
    conv: &Convolution<Element>,
    x: Seq<Fe>,
    input: Seq<Seq<Fe>>,
    input_fft: Seq<Seq<Fe>>,
    prod: Seq<Seq<Fe>>,
    last: &Claim,
    v: &ConvProofValues,
    r: Seq<Fe>,
    input_eval: Fe,
)
    requires
        padded_layer(conv, last),
        conv.filter.data@.len() == (conv.filter.shape@[0] * conv.filter.shape@[1]) * (conv.filter.og_shape@[2]
            * conv.filter.og_shape@[2]),
        conv.filter.og_shape@[2] * conv.filter.og_shape@[2] == pow2(r.len()),
        evaluates_tables(conv, input, input_fft, prod, last, v),
        ({
            let half = pow2((flog2(transform_len(&conv.filter)) - 1) as nat);
            &&& input.len() == conv.filter.shape@[1]
            &&& x.len() == input.len() * half
            &&& all_canon(x)
            &&& forall|j: int| 0 <= j < input.len() ==> (#[trigger] input[j]).len() == half
            &&& forall|j: int, a: int|
                0 <= j < input.len() && 0 <= a < half ==> #[trigger] input[j][a] == x[j * half + (half - 1 - a)]
        }),
        canon(input_eval),
        is_quotient(input_eval, v.fft_claims@[0].fe(), fsub(fone(), v.fft_point@.last().fe())),
    ensures
        ({
            let n = flog2(transform_len(&conv.filter));
            let high = last.at().skip(n - 1);
            let (hp, fp) = (fes(v.hadamard_point@), fes(v.fft_point@));
            let mid = hp.skip(n as int);
            &&& mle_eval(fes(v.partial_evals@), r) == mle_eval(field_table(&conv.filter), r + (mid + high))
            &&& v.bias_claim.fe() == mle_eval(field_table(&conv.bias), high)
            &&& input_eval == mle_eval(x, opposite(fp.drop_last()) + mid)
        }),
{
    let filter = &conv.filter;
    let len = transform_len(filter);
    let n = flog2(len);
    let kx = filter.shape@[1] as nat;
    let f = filter.og_shape@[2] as int;
    let high = last.at().skip(n - 1);
    let (hp, fp) = (fes(v.hadamard_point@), fes(v.fft_point@));
    let mid = hp.skip(n as int);
    lemma_transform_len(filter);
    lemma_pow2_unfold(n);
    lemma2_to64();
    let c = choose|c: nat| #[trigger] pow2(c) == kx;
    lemma_flog2_pow2(c);
    // the filter
    lemma_pow2_adds(mid.len(), high.len());
    let q = mid + high;
    let (kw, count) = (filter.shape@[0] as nat, pow2(q.len()));
    assert(count == kw * kx) by (nonlinear_arith)
        requires
            count == kx * kw,
    ;
    law_filter_claim(filter, r, q);
    // the input
    lemma_fes_canon(v.fft_point@);
    let (p, y) = (fp.drop_last(), fp.last());
    assert(canon(fp[n - 1]));
    assert(fp =~= p.push(y));
    assert forall|i: int| 0 <= i < p.len() implies canon(#[trigger] p[i]) by {
        assert(canon(fp[i]));
    }
    law_input_claim(x, input, p, y, mid);
    assert(fes(v.fft_claims@).len() == v.fft_claims@.len());
    assert(fes(v.fft_claims@)[0] == v.fft_claims@[0].fe());
    let m = mle_eval(x, opposite(p) + mid);
    lemma_mle_canon(x, opposite(p) + mid);
    lemma_cancel(input_eval, m, fsub(fone(), y));
}

} // verus!
