//! The checks of the proof of a convolution layer accept the values of a prover who evaluates the tables.
use crate::arith::{flog2, is_pow2, lemma_flog2_pow2};
use crate::fft::{all_canon, fes, inverse_of_pow2, lemma_fes_canon, lemma_inverse_of_pow2};
use crate::field::{
    canon, fint, fone, fpow, fsub, fzero, lemma_fadd_zero, lemma_fmul_comm, lemma_fmul_one, lemma_fmul_zero,
    lemma_fsub_fadd, lemma_ops_canon, Fe,
};
use crate::iop::batch::{extended, lemma_stacked_mle, mixed, stacked};
use crate::iop::delegation::{
    betas, half_table, law_betas_extension, law_last_delegation_step, law_phi_extension, lemma_share, step_table,
};
use crate::iop::fourier::{lemma_phase, level_table, phase};
use crate::iop::Claim;
use crate::layers::convolution::claims::{bias_value, law_laid_out_extension, opposite};
use crate::layers::convolution::context::{is_ctx_of, ConvCtx};
use crate::layers::convolution::prove::{
    channel_transforms, filter_ok, laid_out, lemma_transform_len, mixed_kernel, repeated, transform_len,
};
use crate::layers::convolution::verify::{
    beta_holds, delegation_holds, input_delegation_ok, inverse_delegation_holds, inverse_delegation_ok,
    point_before, step_holds, step_roots, weight_delegation_ok, weights_hold, ConvProofValues, DelegationValues,
};
use crate::layers::convolution::Convolution;
use crate::mle::{
    chi, identity_at, lemma_identity_ext, lemma_identity_swap, lemma_mle_canon, lemma_mle_constant, mle_eval,
};
use crate::number::Element;
use vstd::arithmetic::power2::{lemma2_to64, lemma_pow2_unfold, pow2};
use vstd::prelude::*;

verus! {

/// The values of a delegation are those of the tables of its steps, for the row at `rx`, whose extension was
/// reduced to the point `start`.
pub open spec fn evaluates_steps(
    points: Seq<Seq<Fe>>,
    claims: Seq<Seq<Fe>>,
    start: Seq<Fe>,
    rx: Seq<Fe>,
    scale: Fe,
    inverse: bool,
) -> bool {
    let n = rx.len();
    let k = points.len();
    let phi = phase(n, inverse);
    &&& n == k + 1
    &&& start.len() == n
    &&& claims.len() == k
    &&& forall|i: int| 0 <= i < k ==> (#[trigger] points[i]).len() == k - i
    &&& forall|i: int|
        0 <= i < k ==> {
            let before = point_before(points, start, i);
            let q = points[i];
            let m = (k - i) as nat;
            &&& (#[trigger] claims[i])[0] == mle_eval(betas(before.drop_last()), q)
            &&& claims[i][1] == mle_eval(
                step_table(rx[i], before.last(), fpow(phi, pow2(i as nat)), !inverse && i == 0, m),
                q,
            )
            &&& claims[i][2] == mle_eval(level_table(rx, phi, scale, n, m), q)
        }
}

/// The values of a step pass the check.
proof fn lemma_step_passes(
    points: Seq<Seq<Fe>>,
    claims: Seq<Seq<Fe>>,
    start: Seq<Fe>,
    rx: Seq<Fe>,
    scale: Fe,
    inverse: bool,
    rands: Seq<Fe>,
    i: int,
)
    requires
        evaluates_steps(points, claims, start, rx, scale, inverse),
        0 <= i < points.len() <= 31,
        rands.len() >= points.len(),
        rands[i] == rx[i],
    ensures
        step_holds(points, claims, start, rands, step_roots(points.len(), inverse), !inverse, i),
{
    let k = points.len();
    let before = point_before(points, start, i);
    let q = points[i];
    let e = step_roots(k, inverse);
    let phi = phase(k + 1, inverse);
    assert(q.len() == k - i);
    assert(before.len() == k - i + 1) by {
        if i > 0 {
            assert(points[i - 1].len() == k - (i - 1));
        }
    }
    assert(claims[i][0] == mle_eval(betas(before.drop_last()), q));
    law_betas_extension(before.drop_last(), q);
    lemma_identity_ext(q, before.drop_last(), q, before, q.len());
    lemma_phase(k + 1, inverse);
    law_phi_extension(q, rands[i], before.last(), phi, e, !inverse && i == 0);
}

/// Values that are those of the tables of a delegation pass its checks. `rands` starts with the coordinates of the
/// row.
pub proof fn law_delegation_is_accepted(
    d: &DelegationValues,
    claim: Fe,
    start: Seq<Fe>,
    rands: Seq<Fe>,
)
    requires
        1 <= d.points@.len() <= 31,
        rands.len() > d.points@.len(),
        all_canon(rands),
        evaluates_steps(d.at(), d.values(), start, rands.take((d.points@.len() + 1) as int), fone(), false),
        all_canon(d.at().last()),
    ensures
        delegation_holds(d, claim, start, rands, step_roots(d.points@.len(), false)),
{
    let k = d.points@.len() as int;
    let rx = rands.take(k + 1);
    assert(d.at().len() == k);
    assert forall|i: int| 0 <= i < k implies #[trigger] step_holds(
        d.at(),
        d.values(),
        start,
        rands,
        step_roots(k as nat, false),
        true,
        i,
    ) by {
        lemma_step_passes(d.at(), d.values(), start, rx, fone(), false, rands, i);
    }
    let last = d.at()[k - 1];
    let n = (k + 1) as nat;
    assert(last.len() == 1);
    assert(last =~= seq![last[0]]);
    assert(canon(last[0]));
    assert forall|i: int| 0 <= i < rx.len() implies canon(#[trigger] rx[i]) by {
        assert(canon(rands[i]));
    }
    lemma_phase(n, false);
    lemma_ops_canon(fone(), fzero());
    lemma_fadd_zero(fone());
    assert(canon(fone()));
    law_last_delegation_step(rx, phase(n, false), fone(), n, last[0]);
    assert(d.values()[k - 1][2] == mle_eval(level_table(rx, phase(n, false), fone(), n, 1), last));
}

/// Values that are those of the tables of the delegation of an inverse transform pass its checks, likewise; the last
/// coordinate of the row is zero.
pub proof fn law_inverse_delegation_is_accepted(
    d: &DelegationValues,
    claim: Fe,
    start: Seq<Fe>,
    rands: Seq<Fe>,
)
    requires
        1 <= d.points@.len() <= 31,
        rands.len() >= d.points@.len(),
        all_canon(rands),
        evaluates_steps(
            d.at(),
            d.values(),
            start,
            rands.take(d.points@.len() as int).push(fzero()),
            inverse_of_pow2(d.points@.len() + 1),
            true,
        ),
        all_canon(d.at().last()),
    ensures
        inverse_delegation_holds(d, claim, start, rands, step_roots(d.points@.len(), true)),
{
    let k = d.points@.len() as int;
    let n = (k + 1) as nat;
    let rx = rands.take(k).push(fzero());
    let scale = inverse_of_pow2(n);
    assert(d.at().len() == k);
    assert forall|i: int| 0 <= i < k implies #[trigger] step_holds(
        d.at(),
        d.values(),
        start,
        rands,
        step_roots(k as nat, true),
        false,
        i,
    ) by {
        lemma_step_passes(d.at(), d.values(), start, rx, scale, true, rands, i);
    }
    let last = d.at()[k - 1];
    let y = last[0];
    assert(last.len() == 1);
    assert(last =~= seq![y]);
    assert(canon(y));
    assert forall|i: int| 0 <= i < rx.len() implies canon(#[trigger] rx[i]) by {
        if i < k {
            assert(canon(rands[i]));
        }
    }
    lemma_phase(n, true);
    lemma_inverse_of_pow2(n);
    law_last_delegation_step(rx, phase(n, true), scale, n, y);
    assert(d.values()[k - 1][2] == mle_eval(level_table(rx, phase(n, true), scale, n, 1), last));
    // scale * (1 - y) + (scale * (1 - 2 * 0)) * y == scale
    lemma_fmul_zero(fint(2));
    lemma_fmul_comm(fint(2), fzero());
    lemma_fsub_fadd(fone(), fzero());
    lemma_ops_canon(fone(), fzero());
    lemma_fadd_zero(fsub(fone(), fzero()));
    lemma_fmul_one(scale);
    lemma_share(scale, y);
}

/// The extension of the corner polynomials of `p`, repeated for every channel, is the identity polynomial along the
/// entries.
pub proof fn law_repeated_betas(p: Seq<Fe>, hp: Seq<Fe>, channels: nat)
    requires
        p.len() <= hp.len(),
        channels == pow2((hp.len() - p.len()) as nat),
    ensures
        mle_eval(stacked(repeated(betas(p), channels), pow2(p.len())), hp) == identity_at(p, hp, p.len()),
{
    let n = p.len();
    let (low, high) = (hp.take(n as int), hp.skip(n as int));
    let rows = repeated(betas(p), channels);
    assert(hp =~= low + high);
    lemma_stacked_mle(rows, low, high);
    let evals = Seq::new(rows.len(), |j: int| mle_eval(rows[j], low));
    law_betas_extension(p, low);
    let x = identity_at(low, p, n);
    lemma_mle_canon(betas(p), low);
    lemma_mle_constant(evals, high, x);
    lemma_identity_swap(low, p, n);
    lemma_identity_ext(p, low, p, hp, n);
}

/// The values are those of the tables that a layer gives for the claim `last` on its output: `input` holds the
/// channels of the input as they are transformed, `input_fft` their transforms, and `prod` the sums of the products.
pub open spec fn evaluates_tables(
    conv: &Convolution<Element>,
    input: Seq<Seq<Fe>>,
    input_fft: Seq<Seq<Fe>>,
    prod: Seq<Seq<Fe>>,
    last: &Claim,
    v: &ConvProofValues,
) -> bool {
    let filter = &conv.filter;
    let len = transform_len(filter);
    let n = flog2(len);
    let kx = filter.shape@[1] as nat;
    let f = filter.og_shape@[2] as int;
    let high = last.at().skip(n - 1);
    let row = opposite(last.at()).take(n - 1).push(fzero());
    let (ip, hp, fp, wp) = (fes(v.ifft_point@), fes(v.hadamard_point@), fes(v.fft_point@), fes(v.weights_point@));
    let (low, mid) = (hp.take(n as int), hp.skip(n as int));
    let kernels = (filter.shape@[0] * filter.shape@[1]) as nat;
    let mix = mixed_kernel(filter.data@, |i: int| chi(i, mid + high), kernels, 0, 1, (f * f) as nat);
    &&& ip.len() == n
    &&& fp.len() == n
    &&& wp.len() == n
    &&& hp.len() == n + flog2(kx)
    &&& v.bias_claim.fe() == bias_value(conv, high)
    &&& fes(v.ifft_claims@) == seq![
        mle_eval(mixed(prod, high, len), ip),
        mle_eval(level_table(row, phase(n, true), inverse_of_pow2(n), n, n), ip),
    ]
    &&& evaluates_steps(v.ifft_delegation.at(), v.ifft_delegation.values(), ip, row, inverse_of_pow2(n), true)
    &&& fes(v.hadamard_claims@) == seq![
        mle_eval(stacked(channel_transforms(filter, high), len), hp),
        mle_eval(stacked(input_fft, len), hp),
        mle_eval(stacked(repeated(betas(ip), kx), len), hp),
    ]
    &&& fes(v.fft_claims@) == seq![
        mle_eval(mixed(extended(input, len), mid, len), fp),
        mle_eval(half_table(low, phase(n, false), fone(), n), fp),
    ]
    &&& evaluates_steps(v.fft_delegation.at(), v.fft_delegation.values(), fp, low, fone(), false)
    &&& fes(v.partial_evals@) == mix
    &&& fes(v.fft_weight_claims@) == seq![
        mle_eval(laid_out(mix, f, filter.shape@[2] as int, len), wp),
        mle_eval(half_table(low, phase(n, false), fone(), n), wp),
    ]
    &&& evaluates_steps(v.weights_delegation.at(), v.weights_delegation.values(), wp, low, fone(), false)
}

/// The checks of the proof of a layer accept the values of the tables that the layer gives.
pub proof fn law_convolution_proof_is_accepted(
    conv: &Convolution<Element>,
    ctx: &ConvCtx,
    id: usize,
    us: Seq<usize>,
    input: Seq<Seq<Fe>>,
    input_fft: Seq<Seq<Fe>>,
    prod: Seq<Seq<Fe>>,
    last: &Claim,
    v: &ConvProofValues,
)
    requires
        filter_ok(&conv.filter),
        conv.filter.shape@[2] >= 2,
        is_pow2(conv.filter.shape@[1] as int),
        is_ctx_of(ctx, conv, id, us),
        last.point@.len() >= flog2(transform_len(&conv.filter)) - 1,
        evaluates_tables(conv, input, input_fft, prod, last, v),
    ensures
        v.ifft_delegation.points@.len() == ctx.delegation_ifft@.len(),
        inverse_delegation_ok(ctx, v, last),
        beta_holds(v),
        v.fft_delegation.points@.len() == ctx.delegation_fft@.len(),
        input_delegation_ok(v),
        weight_delegation_ok(v),
        weights_hold(ctx, v),
{
    let filter = &conv.filter;
    let len = transform_len(filter);
    let n = flog2(len);
    let side = filter.shape@[2] as int;
    let kx = filter.shape@[1] as nat;
    let f = filter.og_shape@[2] as int;
    let (ip, hp, wp) = (fes(v.ifft_point@), fes(v.hadamard_point@), fes(v.weights_point@));
    lemma_transform_len(filter);
    // the side is a power of two, and at least two
    let k = (n - 1) as nat;
    lemma_pow2_unfold(n);
    lemma2_to64();
    assert(side * side == pow2(k));
    assert(side * side >= 4) by (nonlinear_arith)
        requires
            side >= 2,
    ;
    assert(k >= 1);
    lemma_flog2_pow2(k);
    // the delegations
    lemma_fes_canon(v.hadamard_point@);
    lemma_last_canon(&v.ifft_delegation);
    lemma_last_canon(&v.fft_delegation);
    lemma_last_canon(&v.weights_delegation);
    let rands = opposite(last.at());
    assert forall|i: int| 0 <= i < rands.len() implies canon(#[trigger] rands[i]) by {
        lemma_ops_canon(fone(), last.at()[i]);
    }
    law_inverse_delegation_is_accepted(&v.ifft_delegation, v.ifft_claims@[1].fe(), ip, rands);
    law_delegation_is_accepted(&v.fft_delegation, v.fft_claims@[1].fe(), fes(v.fft_point@), hp);
    law_delegation_is_accepted(&v.weights_delegation, v.fft_weight_claims@[1].fe(), wp, hp);
    // the corner polynomials
    let c = choose|c: nat| #[trigger] pow2(c) == kx;
    lemma_flog2_pow2(c);
    law_repeated_betas(ip, hp, kx);
    assert(fes(v.hadamard_claims@).len() == v.hadamard_claims@.len());
    assert(fes(v.hadamard_claims@)[2] == v.hadamard_claims@[2].fe());
    // the weights
    let w = fes(v.partial_evals@);
    lemma_fes_canon(v.partial_evals@);
    lemma_fes_canon(v.weights_point@);
    assert(canon(wp.last()));
    assert(wp =~= wp.drop_last().push(wp.last()));
    assert(f * f >= 0) by (nonlinear_arith);
    law_laid_out_extension(w, f, side, wp.drop_last(), wp.last());
    assert(fes(v.fft_weight_claims@).len() == v.fft_weight_claims@.len());
    assert(fes(v.fft_weight_claims@)[0] == v.fft_weight_claims@[0].fe());
}

/// The coordinates of points are those of field elements.
proof fn lemma_last_canon(d: &DelegationValues)
    ensures
        d.points@.len() > 0 ==> all_canon(d.at().last()),
{
    if d.points@.len() > 0 {
        lemma_fes_canon(d.points@.last()@);
        assert(d.at().last() == fes(d.points@.last()@));
    }
}

} // verus!
