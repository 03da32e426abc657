//! A proof of a layer that was computed: every sum is the one that the checks of the proof start it from.
use crate::arith::{flog2, is_pow2, lemma_flog2_pow2};
use crate::fft::fes;
use crate::field::{fsub, Fe};
use crate::iop::batch::sum_of_products;
use crate::iop::Claim;
use crate::layers::convolution::claims::{bias_value, channel_vars};
use crate::layers::convolution::context::{is_ctx_of, ConvCtx};
use crate::layers::convolution::prove::{filter_ok, transform_len};
use crate::layers::convolution::sizes::sizes_of_sums;
use crate::layers::convolution::stages::{
    can_prove, evaluates_so_far, has_values, high_part, law_proved_values_are_those_of_the_tables, lemma_log_len,
    mixed_weights, next_stage, num_steps, records, stage_tables, stage_vars, Stage,
};
use crate::layers::convolution::sums::{computes, law_convolution_sums, padded_layer, sum_of_three};
use crate::layers::convolution::verify::{claim_before, shown_sums, ConvProofValues};
use crate::layers::convolution::Convolution;
use crate::mle::mle_eval;
use crate::number::Element;
use crate::tensor::fft_conv::{fes2, ConvData};
use vstd::arithmetic::power2::{lemma_pow2_adds, lemma_pow2_unfold, pow2};
use vstd::prelude::*;

verus! {

/// What was computed, for the output `out`.
pub open spec fn was_computed(conv: &Convolution<Element>, data: &ConvData, out: Seq<Fe>) -> bool {
    computes(conv, fes2(data.input@), fes2(data.input_fft@), fes2(data.prod@), out)
}

/// What was computed by a padded layer can be proved, where the tables can be held.
pub proof fn law_computed_layer_can_be_proved(conv: &Convolution<Element>, data: &ConvData, last: &Claim, out: Seq<Fe>)
    requires
        padded_layer(conv, last),
        was_computed(conv, data, out),
        conv.filter.shape@[0] * transform_len(&conv.filter) <= usize::MAX,
        conv.filter.shape@[1] * transform_len(&conv.filter) <= usize::MAX,
    ensures
        can_prove(conv, data, last),
{
    lemma_log_len(conv);
    let n = num_steps(conv);
    lemma_pow2_unfold((n + 1) as nat);
    let len = transform_len(&conv.filter);
    let (xs, ts, ps) = (fes2(data.input@), fes2(data.input_fft@), fes2(data.prod@));
    assert(xs.len() == data.input@.len() && ts.len() == data.input_fft@.len() && ps.len() == data.prod@.len());
    assert forall|i: int| 0 <= i < ps.len() implies (#[trigger] data.prod@[i])@.len() == len by {
        assert(ps[i] == fes(data.prod@[i]@));
        assert(fes(data.prod@[i]@).len() == data.prod@[i]@.len());
    }
    assert forall|j: int| 0 <= j < xs.len() implies 2 * (#[trigger] data.input@[j])@.len() == len by {
        assert(xs[j] == fes(data.input@[j]@));
        assert(fes(data.input@[j]@).len() == data.input@[j]@.len());
    }
    assert forall|j: int| 0 <= j < ts.len() implies (#[trigger] data.input_fft@[j])@.len() == len by {
        assert(ts[j] == fes(data.input_fft@[j]@));
        assert(fes(data.input_fft@[j]@).len() == data.input_fft@[j]@.len());
    }
    let c = (last.point@.len() - n) as nat;
    lemma_flog2_pow2(c);
    assert(is_pow2(conv.filter.shape@[0] as int)) by {
        assert(pow2(c) == conv.filter.shape@[0]);
    }
    assert(channel_vars(conv) == c);
}

/// The sum over all corners of the products of two or three tables.
pub open spec fn sum_of_tables(tables: Seq<Seq<Fe>>) -> Fe {
    if tables.len() == 2 {
        sum_of_products(tables[0], tables[1])
    } else {
        sum_of_three(tables[0], tables[1], tables[2])
    }
}

/// The value that the checks start the sum of the stage from.
pub open spec fn claimed_sum(last: &Claim, stage: Stage, v: &ConvProofValues) -> Fe {
    match stage {
        Stage::Inverse => fsub(last.eval.fe(), v.bias_claim.fe()),
        Stage::InverseStep(i) => claim_before(v.ifft_delegation.values(), v.ifft_claims@[1].fe(), i as int),
        Stage::Products => v.ifft_claims@[0].fe(),
        Stage::Input => v.hadamard_claims@[1].fe(),
        Stage::InputStep(i) => claim_before(v.fft_delegation.values(), v.fft_claims@[1].fe(), i as int),
        Stage::Weights => v.hadamard_claims@[0].fe(),
        Stage::WeightStep(i) => claim_before(v.weights_delegation.values(), v.fft_weight_claims@[1].fe(), i as int),
        Stage::Done => last.eval.fe(),
    }
}

/// A stage of a proof whose delegations have `k` steps.
pub open spec fn is_stage(stage: Stage, k: int) -> bool {
    match stage {
        Stage::InverseStep(i) => i < k,
        Stage::InputStep(i) => i < k,
        Stage::WeightStep(i) => i < k,
        Stage::Done => false,
        _ => true,
    }
}

/// Where the layer was computed, the claim on its output holds, and every sum was reduced to the values of its tables,
/// the tables of every stage add up to the value that the checks start its sum from.
pub proof fn law_stages_add_up(
    conv: &Convolution<Element>,
    data: &ConvData,
    last: &Claim,
    out: Seq<Fe>,
    v: &ConvProofValues,
    stage: Stage,
)
    requires
        padded_layer(conv, last),
        can_prove(conv, data, last),
        was_computed(conv, data, out),
        last.eval.fe() == mle_eval(out, last.at()),
        has_values(conv, Stage::Done, v),
        evaluates_so_far(conv, data, last, Stage::Done, v),
        v.bias_claim.fe() == bias_value(conv, high_part(conv, last)),
        fes(v.partial_evals@) == mixed_weights(conv, last, v),
        is_stage(stage, num_steps(conv)),
    ensures
        sum_of_tables(stage_tables(conv, data, last, stage, v)) == claimed_sum(last, stage, v),
{
    lemma_log_len(conv);
    law_proved_values_are_those_of_the_tables(conv, data, last, v);
    law_convolution_sums(conv, fes2(data.input@), fes2(data.input_fft@), fes2(data.prod@), out, last, v);
}

/// The stage of the sum at place `j`, where every delegation has `k` steps.
pub open spec fn stage_at(k: int, j: int) -> Stage {
    if j == 0 {
        Stage::Inverse
    } else if j <= k {
        Stage::InverseStep((j - 1) as usize)
    } else if j == k + 1 {
        Stage::Products
    } else if j == k + 2 {
        Stage::Input
    } else if j <= 2 * k + 2 {
        Stage::InputStep((j - k - 3) as usize)
    } else if j == 2 * k + 3 {
        Stage::Weights
    } else if j <= 3 * k + 3 {
        Stage::WeightStep((j - 2 * k - 4) as usize)
    } else {
        Stage::Done
    }
}

/// The stages follow each other, and the sums that the checks speak of are those of the stages in that order.
pub proof fn law_order_of_sums(conv: &Convolution<Element>, last: &Claim, v: &ConvProofValues, j: int)
    requires
        filter_ok(&conv.filter),
        has_values(conv, Stage::Done, v),
        0 <= j < 3 * num_steps(conv) + 4,
    ensures
        shown_sums(v, last.eval.fe()).len() == 3 * num_steps(conv) + 4,
        shown_sums(v, last.eval.fe())[j] == claimed_sum(last, stage_at(num_steps(conv), j), v),
        is_stage(stage_at(num_steps(conv), j), num_steps(conv)),
        next_stage(stage_at(num_steps(conv), j), num_steps(conv)) == stage_at(num_steps(conv), j + 1),
{
    lemma_log_len(conv);
    assert(v.ifft_delegation.points@.len() == num_steps(conv));
}

/// A reply is recorded once: what the sum of a stage was reduced to is what was given, each further step of a delegation
/// is put behind those before it, and what earlier stages recorded stays, the value for the bias included.
pub proof fn law_recorded_replies(
    conv: &Convolution<Element>,
    last: &Claim,
    stage: Stage,
    a: &ConvProofValues,
    point: Seq<Fe>,
    evals: Seq<Fe>,
    b: &ConvProofValues,
)
    requires
        records(conv, last, stage, a, point, evals, b),
    ensures
        stage is Inverse ==> fes(b.ifft_point@) == point && fes(b.ifft_claims@) == evals,
        stage is Products ==> fes(b.hadamard_point@) == point && fes(b.hadamard_claims@) == evals,
        stage is Input ==> fes(b.fft_point@) == point && fes(b.fft_claims@) == evals,
        stage is Weights ==> fes(b.weights_point@) == point && fes(b.fft_weight_claims@) == evals,
        stage is InverseStep ==> b.ifft_delegation.at() == a.ifft_delegation.at().push(point)
            && b.ifft_delegation.values() == a.ifft_delegation.values().push(evals),
        stage is InputStep ==> b.fft_delegation.at() == a.fft_delegation.at().push(point)
            && b.fft_delegation.values() == a.fft_delegation.values().push(evals),
        stage is WeightStep ==> b.weights_delegation.at() == a.weights_delegation.at().push(point)
            && b.weights_delegation.values() == a.weights_delegation.values().push(evals),
        !(stage is Inverse) ==> b.ifft_point == a.ifft_point && b.ifft_claims == a.ifft_claims,
        !(stage is Products) ==> b.hadamard_point == a.hadamard_point && b.hadamard_claims == a.hadamard_claims,
        !(stage is Input) ==> b.fft_point == a.fft_point && b.fft_claims == a.fft_claims,
        !(stage is Weights) ==> b.weights_point == a.weights_point && b.fft_weight_claims == a.fft_weight_claims,
        !(stage is InverseStep) ==> b.ifft_delegation == a.ifft_delegation,
        !(stage is InputStep) ==> b.fft_delegation == a.fft_delegation,
        !(stage is WeightStep) ==> b.weights_delegation == a.weights_delegation,
        stage is Inverse || stage is InverseStep || stage is Products || stage is Weights || stage is WeightStep
            ==> b.partial_evals == a.partial_evals,
        b.bias_claim == a.bias_claim,
{
}

/// The number of tables of the sum of a stage.
pub open spec fn num_tables(stage: Stage) -> nat {
    match stage {
        Stage::Inverse | Stage::Input | Stage::Weights => 2,
        Stage::Done => 0,
        _ => 3,
    }
}

/// The sizes that the context of a layer gives for the sums are those of the tables of the stages.
pub proof fn law_sizes_of_sums(conv: &Convolution<Element>, ctx: &ConvCtx, id: usize, us: Seq<usize>, j: int)
    requires
        filter_ok(&conv.filter),
        is_pow2(conv.filter.shape@[1] as int),
        is_ctx_of(ctx, conv, id, us),
        0 <= j < 3 * num_steps(conv) + 4,
    ensures
        sizes_of_sums(ctx).len() == 3 * num_steps(conv) + 4,
        ({
            let stage = stage_at(num_steps(conv), j);
            sizes_of_sums(ctx)[j] == Seq::new(num_tables(stage), |i: int| stage_vars(conv, stage) as usize)
        }),
{
    lemma_log_len(conv);
    let k = num_steps(conv);
    let n2 = (conv.filter.shape@[2] * conv.filter.shape@[2]) as nat;
    let kx = conv.filter.shape@[1] as nat;
    let c = choose|c: nat| #[trigger] pow2(c) == kx;
    assert(flog2(n2) == k);
    lemma_pow2_unfold((k + 1) as nat);
    assert(n2 == pow2(k as nat));
    lemma_pow2_adds(c, k as nat);
    lemma_flog2_pow2(c);
    lemma_flog2_pow2((c + k) as nat);
    let stage = stage_at(k, j);
    let want = Seq::new(num_tables(stage), |i: int| stage_vars(conv, stage) as usize);
    assert(sizes_of_sums(ctx)[j] =~= want);
}

} // verus!
