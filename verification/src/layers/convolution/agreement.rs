//! The prover and the checks of the proof of a convolution layer end with the same claims, and these hold.
use crate::algebra::root_of_unity;
use crate::arith::{clog2, flog2, is_pow2, lemma_flog2_pow2, lemma_grid_bound};
use crate::fft::{dft, fes, lemma_fes_canon};
use crate::field::{fint, fone, fsub, fzero, lemma_fe_canon, GoldilocksExt2};
use crate::iop::Claim;
use crate::layers::convolution::apply::is_conv_data;
use crate::layers::convolution::claims::{bias_value, lemma_cancel};
use crate::layers::convolution::completeness::{law_computed_layer_can_be_proved, was_computed};
use crate::layers::convolution::context::{is_ctx_of, ConvCtx};
use crate::layers::convolution::prove::transform_len;
use crate::layers::convolution::stages::{
    can_prove, evaluates_so_far, has_values, high_part, law_honest_proof_is_accepted,
    law_proved_values_are_those_of_the_tables, lemma_log_len, log_len, mixed_weights, num_steps, Stage,
};
use crate::layers::convolution::sums::{law_convolution_claims, law_op_computes, padded_layer};
use crate::layers::convolution::verify::{are_left, is_checked, ConvClaims, ConvError, ConvProofValues};
use crate::layers::convolution::Convolution;
use crate::mle::mle_eval;
use crate::number::Element;
use crate::tensor::extension::field_table;
use crate::tensor::fft_conv::{chunks, conv_poly, fes2, reversed_chunk, zero_extended, ConvData};
use vstd::arithmetic::div_mod::{
    lemma_fundamental_div_mod, lemma_fundamental_div_mod_converse, lemma_mod_bound,
};
use vstd::arithmetic::power2::{lemma_pow2_unfold, pow2};
use vstd::prelude::*;

verus! {

/// The claims are those of the prover at the challenges `rand`, see `ConvProver::finish`.
pub open spec fn are_proved(
    c: &ConvClaims,
    conv: &Convolution<Element>,
    last: &Claim,
    v: &ConvProofValues,
    rand: Seq<GoldilocksExt2>,
) -> bool {
    let mid = fes(v.hadamard_point@).skip(log_len(conv) as int);
    let high = high_part(conv, last);
    are_left(c, v, rand, mid + high, high, mid)
}

/// The claims have the same point and the same value.
pub open spec fn same_claim(a: &Claim, b: &Claim) -> bool {
    a.at() == b.at() && a.eval.fe() == b.eval.fe()
}

/// The prover and the checks end with the same claims on the filter, the bias and the input: a proof whose sums were all
/// shown with the values of their tables passes the checks, which give the claims `c` of the prover.
pub proof fn law_prover_and_checks_agree(
    conv: &Convolution<Element>,
    data: &ConvData,
    last: &Claim,
    ctx: &ConvCtx,
    id: usize,
    us: Seq<usize>,
    v: &ConvProofValues,
    rand: Seq<GoldilocksExt2>,
    c: &ConvClaims,
    r: Result<ConvClaims, ConvError>,
)
    requires
        can_prove(conv, data, last),
        conv.filter.shape@[2] >= 2,
        is_pow2(conv.filter.shape@[2] as int),
        is_ctx_of(ctx, conv, id, us),
        has_values(conv, Stage::Done, v),
        evaluates_so_far(conv, data, last, Stage::Done, v),
        v.bias_claim.fe() == bias_value(conv, high_part(conv, last)),
        fes(v.partial_evals@) == mixed_weights(conv, last, v),
        conv.filter.og_shape@[2] * conv.filter.og_shape@[2] == pow2(rand.len()),
        fsub(fone(), v.fft_point@.last().fe()) != fzero(),
        fsub(fone(), v.weights_point@.last().fe()) != fzero(),
        are_proved(c, conv, last, v, rand),
        is_checked(r, ctx, last, v, rand),
    ensures
        r matches Ok(d) && same_claim(&d.filter, &c.filter) && same_claim(&d.bias, &c.bias) && same_claim(
            &d.input,
            &c.input,
        ),
{
    law_honest_proof_is_accepted(conv, data, last, ctx, id, us, v, rand.len());
    lemma_log_len(conv);
    let d = r->Ok_0;
    let n = conv.filter.shape@[2] as int;
    let hp = fes(v.hadamard_point@);
    assert(hp.len() == v.hadamard_point@.len());
    assert((2 * (n * n)) as nat == transform_len(&conv.filter));
    assert(flog2((n * n) as nat) == num_steps(conv));
    assert((hp + last.at().skip(num_steps(conv))).skip(log_len(conv) as int) =~= hp.skip(log_len(conv) as int)
        + high_part(conv, last));
    lemma_fe_canon(d.input.eval);
    lemma_fe_canon(c.input.eval);
    lemma_cancel(d.input.eval.fe(), c.input.eval.fe(), fsub(fone(), v.fft_point@.last().fe()));
}

/// The claims of the prover hold: that on the filter and that on the bias are values of the weights, and that on the
/// input is the value of what the layer transforms.
pub proof fn law_proved_claims_hold(
    conv: &Convolution<Element>,
    data: &ConvData,
    x: Seq<Element>,
    last: &Claim,
    v: &ConvProofValues,
    rand: Seq<GoldilocksExt2>,
    c: &ConvClaims,
)
    requires
        can_prove(conv, data, last),
        conv.filter.shape@[2] >= 2,
        conv.bias.data@.len() == conv.filter.shape@[0],
        conv.filter.data@.len() == (conv.filter.shape@[0] * conv.filter.shape@[1]) * (conv.filter.og_shape@[2]
            * conv.filter.og_shape@[2]),
        is_conv_data(data, conv, x),
        has_values(conv, Stage::Done, v),
        evaluates_so_far(conv, data, last, Stage::Done, v),
        v.bias_claim.fe() == bias_value(conv, high_part(conv, last)),
        fes(v.partial_evals@) == mixed_weights(conv, last, v),
        conv.filter.og_shape@[2] * conv.filter.og_shape@[2] == pow2(rand.len()),
        are_proved(c, conv, last, v, rand),
    ensures
        c.filter.eval.fe() == mle_eval(field_table(&conv.filter), c.filter.at()),
        c.bias.eval.fe() == mle_eval(field_table(&conv.bias), c.bias.at()),
        c.input.eval.fe() == mle_eval(fes(data.real_input@), c.input.at()),
{
    lemma_log_len(conv);
    law_proved_values_are_those_of_the_tables(conv, data, last, v);
    let filter = &conv.filter;
    let kx = filter.shape@[1] as int;
    let n2 = filter.shape@[2] * filter.shape@[2];
    let half = pow2((log_len(conv) - 1) as nat);
    lemma_pow2_unfold(log_len(conv));
    assert(half == n2);
    let e = choose|e: nat| #[trigger] pow2(e) == filter.shape@[0];
    lemma_flog2_pow2(e);
    let input = fes2(data.input@);
    let xs = fes(data.real_input@);
    assert(input.len() == kx);
    assert forall|j: int| 0 <= j < kx implies (#[trigger] input[j]).len() == half by {
        assert(2 * data.input@[j]@.len() == transform_len(filter));
    }
    assert forall|j: int| 0 <= j < kx implies (#[trigger] reversed_chunk(x, n2, j)).len() == n2 by {
        assert(fes(data.input@[j]@) == reversed_chunk(x, n2, j));
        assert(input[j].len() == half);
    }
    lemma_whole_chunks(x, n2, kx);
    assert(xs.len() == kx * half);
    assert forall|j: int, a: int| 0 <= j < input.len() && 0 <= a < half implies #[trigger] input[j][a] == xs[j * half
        + (half - 1 - a)] by {
        assert(fes(data.input@[j]@) == reversed_chunk(x, n2, j));
        assert(reversed_chunk(x, n2, j).len() == n2);
        lemma_grid_bound(j, kx, half - 1 - a, half as int);
        lemma_grid_bound(j, kx, half - 1, half as int);
        assert(j * half >= 0 && (j + 1) * half == j * half + half) by (nonlinear_arith)
            requires
                j >= 0,
                half >= 0,
        ;
    }
    lemma_fes_canon(data.real_input@);
    lemma_fe_canon(c.input.eval);
    law_convolution_claims(
        conv,
        xs,
        input,
        fes2(data.input_fft@),
        fes2(data.prod@),
        last,
        v,
        fes(rand),
        c.input.eval.fe(),
    );
}

/// What applying the layer keeps for the proof was computed for the output with the bias, and the claim on that output
/// can be proved, where the tables can be held: `law_stages_add_up` then says that the sums hold.
pub proof fn law_applied_layer_can_be_proved(
    conv: &Convolution<Element>,
    data: &ConvData,
    x: Seq<Element>,
    last: &Claim,
)
    requires
        padded_layer(conv, last),
        is_conv_data(data, conv, x),
        x.len() == conv.filter.shape@[1] * (conv.filter.shape@[2] * conv.filter.shape@[2]),
        conv.filter.shape@[0] * transform_len(&conv.filter) <= usize::MAX,
        conv.filter.shape@[1] * transform_len(&conv.filter) <= usize::MAX,
    ensures
        was_computed(conv, data, data.output_as_element@.map_values(|e: Element| fint(e as int))),
        can_prove(conv, data, last),
{
    let (n2, kx) = (conv.filter.shape@[2] * conv.filter.shape@[2], conv.filter.shape@[1] as int);
    assert(n2 > 0) by (nonlinear_arith)
        requires
            n2 == conv.filter.shape@[2] * conv.filter.shape@[2],
            conv.filter.shape@[2] >= 2,
    ;
    assert(kx * n2 + (n2 - 1) == x.len() + n2 - 1);
    lemma_fundamental_div_mod_converse(x.len() + n2 - 1, n2, kx, n2 - 1);
    let (a, b, c) = (fes2(data.input@), fes2(data.input_fft@), fes2(data.prod@));
    assert forall|j: int| 0 <= j < kx implies #[trigger] a[j] == reversed_chunk(x, n2, j) by {
        assert(a[j] == fes(data.input@[j]@));
    }
    assert forall|j: int| 0 <= j < kx implies #[trigger] b[j] == dft(
        zero_extended(reversed_chunk(x, n2, j), transform_len(&conv.filter)),
        root_of_unity(clog2(transform_len(&conv.filter))),
    ) by {
        assert(b[j] == fes(data.input_fft@[j]@));
    }
    assert forall|i: int| 0 <= i < c.len() implies #[trigger] c[i] == dft(
        conv_poly(
            x,
            conv.filter.data@,
            conv.filter.og_shape@[2] as int,
            kx,
            conv.filter.shape@[2] as int,
            i,
        ),
        root_of_unity(clog2(transform_len(&conv.filter))),
    ) by {
        assert(c[i] == fes(data.prod@[i]@));
    }
    law_op_computes(conv, x, a, b, c, data.output_as_element@);
    law_computed_layer_can_be_proved(
        conv,
        data,
        last,
        data.output_as_element@.map_values(|e: Element| fint(e as int)),
    );
}

/// Chunks of which none is cut short are as many as the entries allow.
proof fn lemma_whole_chunks(x: Seq<Element>, n: int, k: int)
    requires
        n > 0,
        k > 0,
        chunks(x.len() as int, n) == k,
        forall|j: int| 0 <= j < k ==> (#[trigger] reversed_chunk(x, n, j)).len() == n,
    ensures
        x.len() == k * n,
{
    let len = x.len() as int;
    lemma_fundamental_div_mod(len + n - 1, n);
    lemma_mod_bound(len + n - 1, n);
    assert((k - 1) * n == k * n - n && (k - 1) * n >= 0 && n * k == k * n) by (nonlinear_arith)
        requires
            k >= 1,
            n > 0,
    ;
    assert(reversed_chunk(x, n, k - 1).len() == n);
    assert((k - 1 + 1) * n == k * n);
}

} // verus!
