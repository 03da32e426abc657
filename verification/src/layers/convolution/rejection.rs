//! What the checks of a convolution layer leave no choice in, and the clearing that both sides agree on.
use crate::arith::{flog2, is_pow2, lemma_flog2_pow2, lemma_npot, npot};
use crate::fft::fes;
use crate::field::{fint, fzero, Fe, GoldilocksExt2};
use crate::iop::delegation::{phi_product, step_factor};
use crate::iop::Claim;
use crate::layers::convolution::claims::{clearing_inputs_ok, is_clearing_inputs, output_side, ClearingInputs};
use crate::layers::convolution::clearing::lemma_idx3_split;
use crate::layers::convolution::apply::{is_op, op_ok, transform_input};
use crate::layers::convolution::context::{is_ctx_of, ConvCtx};
use crate::layers::convolution::input::framed_dims;
use crate::layers::convolution::Convolution;
use crate::tensor::access::lemma_idx3;
use crate::tensor::fft_conv::ConvData;
use crate::tensor::Tensor;
use crate::layers::convolution::handed_on::is_least_power;
use crate::layers::convolution::shapes::law_strided_outputs;
use crate::layers::convolution::verify::{
    claimed_shape, clearing_ok, delegation_holds, full_shape, inverse_delegation_holds, is_checked,
    is_clearing_claim, point_before, step_holds, step_roots, valid_shape, values_fit, ClearingClaim, ConvClaims,
    ConvProofValues, DelegationValues, ShapeStep,
};
use crate::mle::{identity_at, mle_eval};
use crate::number::Element;
use crate::shape::{lemma_prod_of_rank, prod};
use crate::tensor::access::idx3;
use vstd::arithmetic::power2::{lemma_pow2_adds, pow2};
use vstd::prelude::*;

verus! {

/// The two delegations were reduced to the same points.
pub open spec fn same_points(a: &DelegationValues, b: &DelegationValues) -> bool {
    a.at() == b.at()
}

/// The values of step `i` of both delegations that the points determine are the same.
pub open spec fn same_step_values(a: &DelegationValues, b: &DelegationValues, i: int) -> bool {
    a.values()[i][0] == b.values()[i][0] && a.values()[i][1] == b.values()[i][1]
}

proof fn lemma_same_delegation(
    a: &DelegationValues,
    b: &DelegationValues,
    s: Fe,
    t: Fe,
    start: Seq<Fe>,
    rands: Seq<Fe>,
    roots: Seq<Fe>,
    forward: bool,
)
    requires
        same_points(a, b),
        a.fits(),
        b.fits(),
        forward ==> delegation_holds(a, s, start, rands, roots) && delegation_holds(b, t, start, rands, roots),
        !forward ==> inverse_delegation_holds(a, s, start, rands, roots) && inverse_delegation_holds(
            b,
            t,
            start,
            rands,
            roots,
        ),
    ensures
        a.points@.len() == b.points@.len(),
        forall|i: int| 0 <= i < a.points@.len() ==> #[trigger] same_step_values(a, b, i),
        a.values().last()[2] == b.values().last()[2],
{
    let k = a.points@.len() as int;
    assert(a.at().len() == k && b.at().len() == b.points@.len());
    assert(a.values().len() == a.claims@.len() && b.values().len() == b.claims@.len());
    assert forall|i: int| 0 <= i < k implies #[trigger] same_step_values(a, b, i) by {
        assert(step_holds(a.at(), a.values(), start, rands, roots, forward, i));
        assert(step_holds(b.at(), b.values(), start, rands, roots, forward, i));
    }
    assert(a.values().last() == a.values()[k - 1]);
    assert(b.values().last() == b.values()[k - 1]);
}

/// The points leave no choice in what is claimed of the known polynomials: two proofs that are both accepted, and whose
/// sums were reduced to the same points, claim the same values of the corner polynomials, of the factors of the steps of
/// all three delegations and of the ends of these, and the same value of the weights where the weights are the same. So
/// a proof with another value is rejected.
pub proof fn law_accepted_values_are_determined(
    c: ConvClaims,
    d: ConvClaims,
    ctx: &ConvCtx,
    last: &Claim,
    v: &ConvProofValues,
    u: &ConvProofValues,
    rand: Seq<GoldilocksExt2>,
)
    requires
        values_fit(ctx, v, last, rand.len()),
        values_fit(ctx, u, last, rand.len()),
        is_checked(Ok(c), ctx, last, v, rand),
        is_checked(Ok(d), ctx, last, u, rand),
        v.fft_point@ == u.fft_point@,
        v.weights_point@ == u.weights_point@,
        v.ifft_point@ == u.ifft_point@,
        v.hadamard_point@ == u.hadamard_point@,
        same_points(&v.fft_delegation, &u.fft_delegation),
        same_points(&v.weights_delegation, &u.weights_delegation),
        same_points(&v.ifft_delegation, &u.ifft_delegation),
    ensures
        v.hadamard_claims@[2].fe() == u.hadamard_claims@[2].fe(),
        forall|i: int|
            0 <= i < v.fft_delegation.points@.len() ==> #[trigger] same_step_values(
                &v.fft_delegation,
                &u.fft_delegation,
                i,
            ),
        forall|i: int|
            0 <= i < v.weights_delegation.points@.len() ==> #[trigger] same_step_values(
                &v.weights_delegation,
                &u.weights_delegation,
                i,
            ),
        forall|i: int|
            0 <= i < v.ifft_delegation.points@.len() ==> #[trigger] same_step_values(
                &v.ifft_delegation,
                &u.ifft_delegation,
                i,
            ),
        v.fft_delegation.values().last()[2] == u.fft_delegation.values().last()[2],
        v.weights_delegation.values().last()[2] == u.weights_delegation.values().last()[2],
        v.ifft_delegation.values().last()[2] == u.ifft_delegation.values().last()[2],
        v.partial_evals@ == u.partial_evals@ ==> v.fft_weight_claims@[0].fe() == u.fft_weight_claims@[0].fe(),
        v.partial_evals@ == u.partial_evals@ ==> c.filter.eval.fe() == d.filter.eval.fe(),
        v.bias_claim == u.bias_claim ==> c.bias.eval == d.bias.eval,
        c.filter.at() == d.filter.at(),
        c.bias.at() == d.bias.at(),
        c.input.at() == d.input.at(),
{
    let (hp, op) = (fes(v.hadamard_point@), crate::layers::convolution::claims::opposite(last.at()));
    assert(v.fft_delegation.at().len() == v.fft_delegation.points@.len());
    assert(u.fft_delegation.at().len() == u.fft_delegation.points@.len());
    assert(v.weights_delegation.at().len() == v.weights_delegation.points@.len());
    assert(u.weights_delegation.at().len() == u.weights_delegation.points@.len());
    assert(v.ifft_delegation.at().len() == v.ifft_delegation.points@.len());
    assert(u.ifft_delegation.at().len() == u.ifft_delegation.points@.len());
    lemma_same_delegation(
        &v.fft_delegation,
        &u.fft_delegation,
        v.fft_claims@[1].fe(),
        u.fft_claims@[1].fe(),
        fes(v.fft_point@),
        hp,
        step_roots(v.fft_delegation.points@.len(), false),
        true,
    );
    lemma_same_delegation(
        &v.weights_delegation,
        &u.weights_delegation,
        v.fft_weight_claims@[1].fe(),
        u.fft_weight_claims@[1].fe(),
        fes(v.weights_point@),
        hp,
        step_roots(v.weights_delegation.points@.len(), false),
        true,
    );
    lemma_same_delegation(
        &v.ifft_delegation,
        &u.ifft_delegation,
        v.ifft_claims@[1].fe(),
        u.ifft_claims@[1].fe(),
        fes(v.ifft_point@),
        op,
        step_roots(v.ifft_delegation.points@.len(), true),
        false,
    );
}

/// A proof that is accepted has as many steps in its delegations as the context says, and each step claims of the
/// corner polynomials and of the factor what they are at the point that the step was reduced to.
pub proof fn law_accepted_steps(
    c: ConvClaims,
    ctx: &ConvCtx,
    last: &Claim,
    v: &ConvProofValues,
    rand: Seq<GoldilocksExt2>,
    i: int,
)
    requires
        values_fit(ctx, v, last, rand.len()),
        is_checked(Ok(c), ctx, last, v, rand),
        0 <= i < ctx.delegation_fft@.len(),
        ctx.delegation_fft@.len() == v.fft_point@.len() - 1,
        forall|k: int|
            0 <= k < v.fft_delegation.points@.len() ==> (#[trigger] v.fft_delegation.points@[k])@.len()
                == v.fft_delegation.points@.len() - k,
    ensures
        v.fft_delegation.points@.len() == ctx.delegation_fft@.len(),
        v.ifft_delegation.points@.len() == ctx.delegation_ifft@.len(),
        ({
            let q = fes(v.fft_delegation.points@[i]@);
            let before = if i == 0 {
                fes(v.fft_point@)
            } else {
                fes(v.fft_delegation.points@[i - 1]@)
            };
            let roots = step_roots(v.fft_delegation.points@.len(), false);
            &&& v.fft_delegation.values()[i][0] == identity_at(q, before, q.len())
            &&& v.fft_delegation.values()[i][1] == step_factor(
                v.hadamard_point@[i].fe(),
                before.last(),
                phi_product(q, roots, roots.len() - q.len(), q.len()),
                i == 0,
            )
        }),
{
    let d = &v.fft_delegation;
    if i > 0 {
        assert(d.points@[i - 1]@.len() == d.points@.len() - (i - 1));
    }
    assert(d.points@[i]@.len() == d.points@.len() - i);
    assert(d.at()[i] == fes(d.points@[i]@));
    let (q, before) = (fes(d.points@[i]@), point_before(d.at(), fes(v.fft_point@), i));
    assert(q.len() == d.points@.len() - i);
    assert(before == (if i == 0 {
        fes(v.fft_point@)
    } else {
        fes(d.points@[i - 1]@)
    }));
    assert(before.len() == d.points@.len() - i + 1);
    assert(fes(v.hadamard_point@)[i] == v.hadamard_point@[i].fe());
    assert(step_holds(
        d.at(),
        d.values(),
        fes(v.fft_point@),
        fes(v.hadamard_point@),
        step_roots(d.points@.len(), false),
        true,
        i,
    ));
}

/// The shapes that clearing goes by: there is a line `j` of the output where the kernel that starts there ends within
/// the framed input; the claim speaks of such an output rounded up to powers of two, and with a stride the output of
/// the transform has the side of the framed input, rounded up.
pub proof fn law_clearing_shapes(ctx: &ConvCtx, us: Seq<usize>, ps: Seq<usize>, last: &Claim, j: int)
    requires
        clearing_ok(ctx, us, ps, last),
        us.len() == 3,
        ps.len() == 3,
        ctx.unpadded_filter_shape@.len() == 4,
        ctx.padded_filter_shape@.len() == 4,
        ctx.padded_filter_shape@[0] >= 1,
        us[1] + 2 * ctx.frame().0 >= 1,
        0 <= j,
    ensures
        ({
            let (f, g) = (ctx.unpadded_filter_shape@, ctx.padded_filter_shape@);
            let (ph, pw) = ctx.frame();
            let (s, t) = (ctx.stride@[0] as int, ctx.stride@[1] as int);
            let valid = valid_shape(ctx, us);
            let claimed = claimed_shape(ctx, ps);
            let full = full_shape(ctx, us, ps);
            &&& valid.len() == 3 && valid[0] == f[0]
            &&& j < valid[1] <==> j * s + f[2] <= us[1] + 2 * ph
            &&& j < valid[2] <==> j * t + f[3] <= us[2] + 2 * pw
            &&& claimed.len() == 3 && is_least_power(claimed[0] as int, g[0] as int)
            &&& is_pow2(claimed[1] as int) && is_pow2(claimed[2] as int)
            &&& j < claimed[1] <== j * s + g[2] <= ps[1] + 2 * ph
            &&& j < claimed[2] <== j * t + g[3] <= ps[2] + 2 * pw
            &&& is_least_power(claimed[1] as int, (ps[1] + 2 * ph - g[2]) / s + 1)
            &&& is_least_power(claimed[2] as int, (ps[2] + 2 * pw - g[3]) / t + 1)
            &&& s == 1 ==> full == claimed
            &&& s > 1 ==> full.len() == 3 && full[0] == claimed[0] && full[1] == full[2] && is_least_power(
                full[1] as int,
                us[1] + 2 * ph,
            )
        }),
{
    let (f, g) = (ctx.unpadded_filter_shape@, ctx.padded_filter_shape@);
    let (ph, pw) = ctx.frame();
    let (s, t) = ctx.steps();
    law_strided_outputs(us[1] as int, f[2] as int, ph, s, j);
    law_strided_outputs(us[2] as int, f[3] as int, pw, t, j);
    law_strided_outputs(ps[1] as int, g[2] as int, ph, s, j);
    law_strided_outputs(ps[2] as int, g[3] as int, pw, t, j);
    assert((us[1] + 2 * ph - f[2]) / 1 == us[1] + 2 * ph - f[2]);
    assert((us[2] + 2 * pw - f[3]) / 1 == us[2] + 2 * pw - f[3]);
    assert((ps[1] + 2 * ph - g[2]) / 1 == ps[1] + 2 * ph - g[2]);
    assert((ps[2] + 2 * pw - g[3]) / 1 == ps[2] + 2 * pw - g[3]);
    let (a, b) = ((ps[1] + 2 * ph - g[2]) / s + 1, (ps[2] + 2 * pw - g[3]) / t + 1);
    vstd::arithmetic::div_mod::lemma_div_pos_is_pos(ps[1] + 2 * ph - g[2], s);
    vstd::arithmetic::div_mod::lemma_div_pos_is_pos(ps[2] + 2 * pw - g[3], t);
    vstd::arithmetic::div_mod::lemma_div_pos_is_pos(us[1] + 2 * ph - f[2], s);
    vstd::arithmetic::div_mod::lemma_div_pos_is_pos(us[2] + 2 * pw - f[3], t);
    lemma_npot(a as nat);
    lemma_npot(b as nat);
    lemma_npot(g[0] as nat);
    lemma_npot((us[1] + 2 * ph) as nat);
}

proof fn lemma_side(len: nat, channels: nat, n: nat)
    requires
        is_pow2(n as int),
        channels > 0,
        len == channels * (n * n),
    ensures
        output_side(len, channels) == n,
{
    let e = choose|e: nat| pow2(e) == n;
    lemma_pow2_adds(e, e);
    lemma_flog2_pow2(e + e);
    let sq = (n * n) as int;
    vstd::arithmetic::div_mod::lemma_div_multiples_vanish(sq, channels as int);
    assert(len / channels == sq);
}

/// Both sides clear alike: where the prover is given the shapes that the verifier computes, and the output of the
/// transform has the side of the framed input, they carry the claim over to the same point, with the same value, use
/// the same tensor for clearing, and agree on the number of entries.
pub proof fn law_both_sides_clear_alike(
    p: &ClearingInputs,
    c: ClearingClaim,
    ctx: &ConvCtx,
    last: &Claim,
    step: &ShapeStep,
    data: Seq<Element>,
)
    requires
        step.unpadded_input_shape@.len() == 1,
        step.padded_input_shape@.len() == 1,
        ({
            let us = step.unpadded_input_shape@[0]@;
            let ps = step.padded_input_shape@[0]@;
            let s = claimed_shape(ctx, ps);
            &&& clearing_ok(ctx, us, ps, last)
            &&& clearing_inputs_ok(ctx.steps().0, last, s, valid_shape(ctx, us), data.len())
            &&& is_clearing_inputs(p, ctx.steps().0, last, s, valid_shape(ctx, us), data)
            &&& ctx.steps().0 > 1 ==> {
                let n = npot((us[1] + 2 * ctx.frame().0) as nat);
                data.len() == s[0] * (n * n)
            }
        }),
        is_clearing_claim(Ok(c), ctx, last, step),
    ensures
        p.claim.at() == c.claim.at(),
        p.claim.eval == c.claim.eval,
        p.clearing_tensor.data@ == c.clearing_tensor.data@,
        c.len == data.len(),
{
    let us = step.unpadded_input_shape@[0]@;
    let ps = step.padded_input_shape@[0]@;
    let s = claimed_shape(ctx, ps);
    let full = full_shape(ctx, us, ps);
    let valid = valid_shape(ctx, us);
    let shape = p.conv_after_bias.shape@;
    if ctx.steps().0 > 1 {
        let n = npot((us[1] + 2 * ctx.frame().0) as nat);
        lemma_npot((us[1] + 2 * ctx.frame().0) as nat);
        lemma_npot(ctx.padded_filter_shape@[0] as nat);
        assert(s[0] > 0);
        lemma_side(data.len(), s[0] as nat, n);
        assert(shape =~= full);
    }
    assert(shape == full);
    assert(full.len() == 3);
    lemma_prod_of_rank(full);
    assert(p.conv_after_bias.data@.len() == prod(full));
    let (a, b) = (p.clearing_tensor, c.clearing_tensor);
    let len = prod(full);
    crate::shape::lemma_prod1(len as usize);
    assert(a.data@.len() == len && b.data@.len() == len);
    assert forall|i: int| 0 <= i < len implies a.data@[i] == b.data@[i] by {
        let (cs, hs, ws) = (full[0] as int, full[1] as int, full[2] as int);
        lemma_idx3_split(cs, hs, ws, i);
        let (x, y, z) = (i / (hs * ws), (i % (hs * ws)) / ws, (i % (hs * ws)) % ws);
        assert(a.data@[idx3(hs, ws, x, y, z)] == b.data@[idx3(hs, ws, x, y, z)]);
    }
    assert(a.data@ =~= b.data@);
}

/// The claim on an input speaks of what the layer transformed: the table that is checked is the input of the transform,
/// with and without a frame.
pub proof fn law_claims_speak_of_what_was_transformed(
    out: &Tensor<Element>,
    data: &ConvData,
    conv: &Convolution<Element>,
    input: &Tensor<Element>,
    given: &Tensor<GoldilocksExt2>,
    ctx: &ConvCtx,
    id: usize,
    us: Seq<usize>,
    claim: &Claim,
)
    requires
        op_ok(conv, input, us),
        is_op(out, data, conv, input, us),
        is_ctx_of(ctx, conv, id, us),
        given.shape@ == input.shape@,
        fes(given.data@) == input.data@.map_values(|e: Element| fint(e as int)),
    ensures
        ctx.claimed_table(given) == fes(data.real_input@),
        ctx.claim_holds(given, claim) == (claim.eval.fe() == mle_eval(fes(data.real_input@), claim.at())),
{
    let (ph, pw) = conv.frame();
    let to = |e: Element| fint(e as int);
    let x = transform_input(input.data@, input.shape@, us, ph, pw);
    let (a, b) = (ctx.claimed_table(given), fes(data.real_input@));
    assert(b == x.map_values(to));
    if ph != 0 || pw != 0 {
        let s = input.shape@;
        let (cs, hs, ws) = framed_dims(us, ph, pw);
        let d = input.data@;
        lemma_prod_of_rank(s);
        assert forall|p: int| 0 <= p < a.len() implies a[p] == b[p] by {
            lemma_idx3_split(cs, hs, ws, p);
            let (c, y, z) = (p / (hs * ws), (p % (hs * ws)) / ws, (p % (hs * ws)) % ws);
            if c < us[0] && ph <= y < ph + us[1] && pw <= z < pw + us[2] {
                lemma_idx3(s[0] as int, s[1] as int, s[2] as int, c, y - ph, z - pw);
                let k = idx3(s[1] as int, s[2] as int, c, y - ph, z - pw);
                assert(x[p] == d[k]);
                assert(fes(given.data@)[k] == to(d[k]));
                assert(a[p] == fes(given.data@)[k]);
            } else {
                assert(x[p] == 0);
                assert(fint(0) == fzero());
            }
            assert(b[p] == to(x[p]));
        }
        assert(a =~= b);
    }
}

/// Without a stride the claim on the output is the one on the output of the transform; with one, its value stays the
/// same and its point has a coordinate for each variable of the output of the transform.
pub proof fn law_carried_claim(c: ClearingClaim, ctx: &ConvCtx, last: &Claim, step: &ShapeStep)
    requires
        is_clearing_claim(Ok(c), ctx, last, step),
        clearing_ok(ctx, step.unpadded_input_shape@[0]@, step.padded_input_shape@[0]@, last),
    ensures
        c.claim.eval == last.eval,
        ctx.stride@[0] == 1 ==> c.claim.at() == last.at(),
        c.clearing_tensor.data@.len() == c.len,
        ctx.stride@[0] > 1 ==> pow2(c.claim.at().len()) == c.len,
{
    let us = step.unpadded_input_shape@[0]@;
    let ps = step.padded_input_shape@[0]@;
    let s = claimed_shape(ctx, ps);
    let full = full_shape(ctx, us, ps);
    crate::shape::lemma_prod1(prod(full) as usize);
    if ctx.stride@[0] > 1 {
        let n = full[1];
        lemma_npot((us[1] + 2 * ctx.frame().0) as nat);
        lemma_npot(ctx.padded_filter_shape@[0] as nat);
        let e = choose|e: nat| pow2(e) == n;
        let k = choose|e: nat| pow2(e) == s[0];
        lemma_flog2_pow2(e);
        lemma_flog2_pow2(k);
        lemma_prod_of_rank(full);
        lemma_pow2_adds(e, e);
        lemma_pow2_adds(k, e + e);
        let (lw, lh, low) = (flog2(s[2] as nat), flog2(s[1] as nat), flog2(ctx.steps().0 as nat));
        let r = last.at();
        assert(r.len() == last.point@.len());
        assert(c.claim.at().len() == e + (e + k));
        assert(pow2(k) * (pow2(e) * pow2(e)) == pow2((k + (e + e)) as nat));
        assert(k + (e + e) == e + (e + k));
    }
}

} // verus!
