//! The sums of the proof of a convolution layer: their order, their tables, and the values that they are reduced to.
use crate::arith::{flog2, is_pow2, lemma_flog2_pow2};
use crate::fft::{fes, inverse_of_pow2};
use crate::field::{fone, fpow, fsub, fzero, Fe};
use crate::iop::batch::{extended, mixed, stacked};
use crate::iop::delegation::{betas, half_table, step_table};
use crate::iop::fourier::{level_table, phase};
use crate::iop::Claim;
use crate::layers::convolution::acceptance::{
    evaluates_steps, evaluates_tables, law_convolution_proof_is_accepted,
};
use crate::layers::convolution::claims::{bias_value, channel_vars, entry_vars, opposite};
use crate::layers::convolution::context::{is_ctx_of, ConvCtx};
use crate::layers::convolution::prove::{
    channel_transforms, filter_ok, laid_out, lemma_transform_len, mixed_kernel, repeated, transform_len,
};
use crate::layers::convolution::verify::{
    beta_holds, input_delegation_ok, inverse_delegation_ok, point_before, values_fit, weight_delegation_ok,
    weights_hold, ConvProofValues, DelegationValues,
};
use crate::layers::convolution::Convolution;
use crate::mle::{chi, mle_eval};
use crate::number::Element;
use crate::tensor::fft_conv::{fes2, ConvData};
use vstd::arithmetic::power2::{lemma2_to64, lemma_pow2_adds, lemma_pow2_unfold, pow2};
use vstd::prelude::*;

verus! {

/// The sum that comes next: that of the inverse transform and the steps of its delegation, that of the products of
/// transforms, and those of the transforms of the input and of the weights, with the steps of their delegations.
#[derive(Debug, Clone, Copy, PartialEq, Eq, Structural)]
pub enum Stage {
    Inverse,
    InverseStep(usize),
    Products,
    Input,
    InputStep(usize),
    Weights,
    WeightStep(usize),
    Done,
}

/// The number of coordinates of the entries of a transform.
pub open spec fn log_len(conv: &Convolution<Element>) -> nat {
    flog2(transform_len(&conv.filter))
}

/// The number of steps of each delegation.
pub open spec fn num_steps(conv: &Convolution<Element>) -> int {
    log_len(conv) - 1
}

/// The layer, what it computed, and the claim on its output fit together.
pub open spec fn can_prove(conv: &Convolution<Element>, data: &ConvData, last: &Claim) -> bool {
    let len = transform_len(&conv.filter);
    let (kw, kx) = (conv.filter.shape@[0], conv.filter.shape@[1]);
    &&& filter_ok(&conv.filter)
    &&& is_pow2(kw as int)
    &&& is_pow2(kx as int)
    &&& kw * len <= usize::MAX
    &&& kx * len <= usize::MAX
    &&& last.point@.len() == entry_vars(conv) + channel_vars(conv)
    &&& channel_vars(conv) > 0 ==> conv.bias.data@.len() == kw
    &&& data.prod@.len() == kw
    &&& forall|i: int| 0 <= i < kw ==> (#[trigger] data.prod@[i])@.len() == len
    &&& data.input@.len() == kx
    &&& forall|j: int| 0 <= j < kx ==> 2 * (#[trigger] data.input@[j])@.len() == len
    &&& data.input_fft@.len() == kx
    &&& forall|j: int| 0 <= j < kx ==> (#[trigger] data.input_fft@[j])@.len() == len
}

/// The coordinates of the claim that address the channels of the output.
pub open spec fn high_part(conv: &Convolution<Element>, last: &Claim) -> Seq<Fe> {
    last.at().skip(num_steps(conv))
}

/// The point that the row of the inverse transform is taken at.
pub open spec fn inverse_row(conv: &Convolution<Element>, last: &Claim) -> Seq<Fe> {
    opposite(last.at()).take(num_steps(conv)).push(fzero())
}

/// The point that the row of the transforms is taken at.
pub open spec fn row(conv: &Convolution<Element>, v: &ConvProofValues) -> Seq<Fe> {
    fes(v.hadamard_point@).take(log_len(conv) as int)
}

/// The mixed weights.
pub open spec fn mixed_weights(conv: &Convolution<Element>, last: &Claim, v: &ConvProofValues) -> Seq<Fe> {
    let filter = &conv.filter;
    let f = filter.og_shape@[2] as int;
    let mid = fes(v.hadamard_point@).skip(log_len(conv) as int);
    mixed_kernel(
        filter.data@,
        |i: int| chi(i, mid + high_part(conv, last)),
        (filter.shape@[0] * filter.shape@[1]) as nat,
        0,
        1,
        (f * f) as nat,
    )
}

/// The tables of step `i` of a delegation, from the point that the sum before it was reduced to.
pub open spec fn step_tables(rx: Seq<Fe>, scale: Fe, inverse: bool, before: Seq<Fe>, i: int) -> Seq<Seq<Fe>> {
    let n = rx.len();
    let phi = phase(n, inverse);
    let m = (n - 1 - i) as nat;
    seq![
        betas(before.drop_last()),
        step_table(rx[i], before.last(), fpow(phi, pow2(i as nat)), !inverse && i == 0, m),
        level_table(rx, phi, scale, n, m),
    ]
}

/// The tables of the sum that comes next, from the values of the sums before it.
pub open spec fn stage_tables(
    conv: &Convolution<Element>,
    data: &ConvData,
    last: &Claim,
    stage: Stage,
    v: &ConvProofValues,
) -> Seq<Seq<Fe>> {
    let filter = &conv.filter;
    let len = transform_len(filter);
    let n = log_len(conv);
    let kx = filter.shape@[1] as nat;
    let high = high_part(conv, last);
    let mid = fes(v.hadamard_point@).skip(n as int);
    let half_row = half_table(row(conv, v), phase(n, false), fone(), n);
    match stage {
        Stage::Inverse => seq![
            mixed(fes2(data.prod@), high, len),
            level_table(inverse_row(conv, last), phase(n, true), inverse_of_pow2(n), n, n),
        ],
        Stage::InverseStep(i) => step_tables(
            inverse_row(conv, last),
            inverse_of_pow2(n),
            true,
            point_before(v.ifft_delegation.at(), fes(v.ifft_point@), i as int),
            i as int,
        ),
        Stage::Products => seq![
            stacked(channel_transforms(filter, high), len),
            stacked(fes2(data.input_fft@), len),
            stacked(repeated(betas(fes(v.ifft_point@)), kx), len),
        ],
        Stage::Input => seq![mixed(extended(fes2(data.input@), len), mid, len), half_row],
        Stage::InputStep(i) => step_tables(
            row(conv, v),
            fone(),
            false,
            point_before(v.fft_delegation.at(), fes(v.fft_point@), i as int),
            i as int,
        ),
        Stage::Weights => seq![
            laid_out(
                mixed_weights(conv, last, v),
                filter.og_shape@[2] as int,
                filter.shape@[2] as int,
                len,
            ),
            half_row,
        ],
        Stage::WeightStep(i) => step_tables(
            row(conv, v),
            fone(),
            false,
            point_before(v.weights_delegation.at(), fes(v.weights_point@), i as int),
            i as int,
        ),
        Stage::Done => seq![],
    }
}

/// The number of coordinates of the point that the next sum is reduced to.
pub open spec fn stage_vars(conv: &Convolution<Element>, stage: Stage) -> int {
    match stage {
        Stage::Inverse | Stage::Input | Stage::Weights => log_len(conv) as int,
        Stage::Products => (log_len(conv) + flog2(conv.filter.shape@[1] as nat)) as int,
        Stage::InverseStep(i) => num_steps(conv) - i,
        Stage::InputStep(i) => num_steps(conv) - i,
        Stage::WeightStep(i) => num_steps(conv) - i,
        Stage::Done => 0,
    }
}

/// The sum after this one, where every delegation has `k` steps.
pub open spec fn next_stage(stage: Stage, k: int) -> Stage {
    match stage {
        Stage::Inverse => if k > 0 {
            Stage::InverseStep(0)
        } else {
            Stage::Products
        },
        Stage::InverseStep(i) => if i + 1 < k {
            Stage::InverseStep((i + 1) as usize)
        } else {
            Stage::Products
        },
        Stage::Products => Stage::Input,
        Stage::Input => if k > 0 {
            Stage::InputStep(0)
        } else {
            Stage::Weights
        },
        Stage::InputStep(i) => if i + 1 < k {
            Stage::InputStep((i + 1) as usize)
        } else {
            Stage::Weights
        },
        Stage::Weights => if k > 0 {
            Stage::WeightStep(0)
        } else {
            Stage::Done
        },
        Stage::WeightStep(i) => if i + 1 < k {
            Stage::WeightStep((i + 1) as usize)
        } else {
            Stage::Done
        },
        Stage::Done => Stage::Done,
    }
}

/// `b` holds the values of `a` and those of one more step.
pub open spec fn has_one_more(a: &DelegationValues, b: &DelegationValues, point: Seq<Fe>, evals: Seq<Fe>) -> bool {
    &&& b.at() == a.at().push(point)
    &&& b.values() == a.values().push(evals)
}

/// `b` holds the values of `a` and those that the sum of the stage was reduced to; nothing else changes but the mixed
/// weights, which are known once the transform of the input is shown.
pub open spec fn records(
    conv: &Convolution<Element>,
    last: &Claim,
    stage: Stage,
    a: &ConvProofValues,
    point: Seq<Fe>,
    evals: Seq<Fe>,
    b: &ConvProofValues,
) -> bool {
    &&& if stage is Inverse {
        fes(b.ifft_point@) == point && fes(b.ifft_claims@) == evals
    } else {
        b.ifft_point == a.ifft_point && b.ifft_claims == a.ifft_claims
    }
    &&& if stage is InverseStep {
        has_one_more(&a.ifft_delegation, &b.ifft_delegation, point, evals)
    } else {
        b.ifft_delegation == a.ifft_delegation
    }
    &&& if stage is Products {
        fes(b.hadamard_point@) == point && fes(b.hadamard_claims@) == evals
    } else {
        b.hadamard_point == a.hadamard_point && b.hadamard_claims == a.hadamard_claims
    }
    &&& if stage is Input {
        fes(b.fft_point@) == point && fes(b.fft_claims@) == evals
    } else {
        b.fft_point == a.fft_point && b.fft_claims == a.fft_claims
    }
    &&& if stage is InputStep {
        has_one_more(&a.fft_delegation, &b.fft_delegation, point, evals)
    } else {
        b.fft_delegation == a.fft_delegation
    }
    &&& if stage is Weights {
        fes(b.weights_point@) == point && fes(b.fft_weight_claims@) == evals
    } else {
        b.weights_point == a.weights_point && b.fft_weight_claims == a.fft_weight_claims
    }
    &&& if stage is WeightStep {
        has_one_more(&a.weights_delegation, &b.weights_delegation, point, evals)
    } else {
        b.weights_delegation == a.weights_delegation
    }
    &&& if next_stage(stage, num_steps(conv)) is Weights {
        fes(b.partial_evals@) == mixed_weights(conv, last, b)
    } else {
        b.partial_evals == a.partial_evals
    }
    &&& b.bias_claim == a.bias_claim
}

/// The numbers of coordinates, where the filter can be transformed.
pub proof fn lemma_log_len(conv: &Convolution<Element>)
    requires
        filter_ok(&conv.filter),
    ensures
        entry_vars(conv) == num_steps(conv),
        pow2(log_len(conv)) == transform_len(&conv.filter),
        1 <= log_len(conv) <= 32,
{
    lemma_transform_len(&conv.filter);
    let n2 = conv.filter.shape@[2] * conv.filter.shape@[2];
    assert(transform_len(&conv.filter) == 2 * n2);
    assert((2 * n2) / 2 == n2);
}

/// The inverse transform is shown.
pub open spec fn past_inverse(stage: Stage) -> bool {
    !(stage is Inverse)
}

/// The products of transforms are shown.
pub open spec fn past_products(stage: Stage) -> bool {
    !(stage is Inverse || stage is InverseStep || stage is Products)
}

/// The transform of the input is shown.
pub open spec fn past_input(stage: Stage) -> bool {
    past_products(stage) && !(stage is Input)
}

/// The delegation of the transform of the input is shown.
pub open spec fn past_input_steps(stage: Stage) -> bool {
    past_input(stage) && !(stage is InputStep)
}

/// The transform of the weights is shown.
pub open spec fn past_weights(stage: Stage) -> bool {
    past_input_steps(stage) && !(stage is Weights)
}

/// The numbers of steps of the three delegations that are shown, where each has `k`.
pub open spec fn steps_shown(stage: Stage, k: int) -> (int, int, int) {
    match stage {
        Stage::Inverse => (0, 0, 0),
        Stage::InverseStep(i) => (i as int, 0, 0),
        Stage::Products | Stage::Input => (k, 0, 0),
        Stage::InputStep(i) => (k, i as int, 0),
        Stage::Weights => (k, k, 0),
        Stage::WeightStep(i) => (k, k, i as int),
        Stage::Done => (k, k, k),
    }
}

/// The delegation holds the points and values of `m` of `k` steps.
pub open spec fn has_steps(d: &DelegationValues, m: int, k: int) -> bool {
    &&& d.points@.len() == m
    &&& d.claims@.len() == m
    &&& 0 <= m <= k
    &&& forall|i: int| 0 <= i < m ==> (#[trigger] d.at()[i]).len() == k - i
    &&& forall|i: int| 0 <= i < m ==> (#[trigger] d.values()[i]).len() == 3
}

/// The values of the sums before the stage are there, for as many coordinates as they have.
pub open spec fn has_values(conv: &Convolution<Element>, stage: Stage, v: &ConvProofValues) -> bool {
    let n = log_len(conv);
    let k = num_steps(conv);
    let (a, b, c) = steps_shown(stage, k);
    &&& match stage {
        Stage::InverseStep(i) => i < k,
        Stage::InputStep(i) => i < k,
        Stage::WeightStep(i) => i < k,
        _ => true,
    }
    &&& has_steps(&v.ifft_delegation, a, k)
    &&& has_steps(&v.fft_delegation, b, k)
    &&& has_steps(&v.weights_delegation, c, k)
    &&& past_inverse(stage) ==> v.ifft_point@.len() == n && v.ifft_claims@.len() == 2
    &&& past_products(stage) ==> {
        &&& v.hadamard_point@.len() == stage_vars(conv, Stage::Products)
        &&& v.hadamard_claims@.len() == 3
    }
    &&& past_input(stage) ==> v.fft_point@.len() == n && v.fft_claims@.len() == 2
    &&& past_weights(stage) ==> v.weights_point@.len() == n && v.fft_weight_claims@.len() == 2
}

/// The values of the tables at a point.
pub open spec fn evaluations(tables: Seq<Seq<Fe>>, p: Seq<Fe>) -> Seq<Fe> {
    tables.map_values(|t: Seq<Fe>| mle_eval(t, p))
}

/// The values of the steps of a delegation that are shown are those of their tables.
pub open spec fn evaluates_first_steps(
    d: &DelegationValues,
    start: Seq<Fe>,
    rx: Seq<Fe>,
    scale: Fe,
    inverse: bool,
) -> bool {
    forall|i: int|
        0 <= i < d.points@.len() ==> #[trigger] d.values()[i] == evaluations(
            step_tables(rx, scale, inverse, point_before(d.at(), start, i), i),
            d.at()[i],
        )
}

/// The values of the sums before the stage are those of their tables.
pub open spec fn evaluates_so_far(
    conv: &Convolution<Element>,
    data: &ConvData,
    last: &Claim,
    stage: Stage,
    v: &ConvProofValues,
) -> bool {
    let (ip, hp, fp, wp) = (fes(v.ifft_point@), fes(v.hadamard_point@), fes(v.fft_point@), fes(v.weights_point@));
    let scale = inverse_of_pow2(log_len(conv));
    &&& past_inverse(stage) ==> {
        &&& fes(v.ifft_claims@) == evaluations(stage_tables(conv, data, last, Stage::Inverse, v), ip)
        &&& evaluates_first_steps(&v.ifft_delegation, ip, inverse_row(conv, last), scale, true)
    }
    &&& past_products(stage) ==> fes(v.hadamard_claims@) == evaluations(
        stage_tables(conv, data, last, Stage::Products, v),
        hp,
    )
    &&& past_input(stage) ==> {
        &&& fes(v.fft_claims@) == evaluations(stage_tables(conv, data, last, Stage::Input, v), fp)
        &&& evaluates_first_steps(&v.fft_delegation, fp, row(conv, v), fone(), false)
    }
    &&& past_weights(stage) ==> {
        &&& fes(v.fft_weight_claims@) == evaluations(stage_tables(conv, data, last, Stage::Weights, v), wp)
        &&& evaluates_first_steps(&v.weights_delegation, wp, row(conv, v), fone(), false)
    }
}

/// The delegation of one more step.
proof fn lemma_one_more_step(
    a: &DelegationValues,
    b: &DelegationValues,
    start: Seq<Fe>,
    rx: Seq<Fe>,
    scale: Fe,
    inverse: bool,
    point: Seq<Fe>,
    evals: Seq<Fe>,
    m: int,
    k: int,
)
    requires
        has_steps(a, m, k),
        m < k,
        point.len() == k - m,
        evals.len() == 3,
        has_one_more(a, b, point, evals),
    ensures
        has_steps(b, m + 1, k),
        evaluates_first_steps(a, start, rx, scale, inverse) && evals == evaluations(
            step_tables(rx, scale, inverse, point_before(a.at(), start, m), m),
            point,
        ) ==> evaluates_first_steps(b, start, rx, scale, inverse),
{
    assert(a.at().len() == m && a.values().len() == m);
    assert(b.at().len() == b.points@.len() && b.values().len() == b.claims@.len());
    assert forall|i: int| 0 <= i < m + 1 implies (#[trigger] b.at()[i]).len() == k - i by {
        if i < m {
            assert(a.at()[i].len() == k - i);
        }
    }
    assert forall|i: int| 0 <= i < m + 1 implies (#[trigger] b.values()[i]).len() == 3 by {
        if i < m {
            assert(a.values()[i].len() == 3);
        }
    }
    if evaluates_first_steps(a, start, rx, scale, inverse) && evals == evaluations(
        step_tables(rx, scale, inverse, point_before(a.at(), start, m), m),
        point,
    ) {
        assert forall|i: int| 0 <= i < b.points@.len() implies #[trigger] b.values()[i] == evaluations(
            step_tables(rx, scale, inverse, point_before(b.at(), start, i), i),
            b.at()[i],
        ) by {
            assert(point_before(b.at(), start, i) == point_before(a.at(), start, i));
            if i < m {
                assert(a.values()[i] == evaluations(
                    step_tables(rx, scale, inverse, point_before(a.at(), start, i), i),
                    a.at()[i],
                ));
            }
        }
    }
}

/// Where the values are those of the tables, they still are with the values of one more sum.
pub proof fn lemma_one_more_sum(
    conv: &Convolution<Element>,
    data: &ConvData,
    last: &Claim,
    stage: Stage,
    a: &ConvProofValues,
    point: Seq<Fe>,
    evals: Seq<Fe>,
    b: &ConvProofValues,
)
    requires
        can_prove(conv, data, last),
        !(stage is Done),
        has_values(conv, stage, a),
        point.len() == stage_vars(conv, stage),
        evals.len() == stage_tables(conv, data, last, stage, a).len(),
        records(conv, last, stage, a, point, evals, b),
    ensures
        has_values(conv, next_stage(stage, num_steps(conv)), b),
        evaluates_so_far(conv, data, last, stage, a) && evals == evaluations(
            stage_tables(conv, data, last, stage, a),
            point,
        ) ==> evaluates_so_far(conv, data, last, next_stage(stage, num_steps(conv)), b),
{
    let k = num_steps(conv);
    let scale = inverse_of_pow2(log_len(conv));
    let next = next_stage(stage, k);
    lemma_log_len(conv);
    assert(fes(b.ifft_point@).len() == b.ifft_point@.len());
    assert(fes(b.hadamard_point@).len() == b.hadamard_point@.len());
    assert(fes(b.fft_point@).len() == b.fft_point@.len());
    assert(fes(b.weights_point@).len() == b.weights_point@.len());
    assert(fes(b.ifft_claims@).len() == b.ifft_claims@.len());
    assert(fes(b.hadamard_claims@).len() == b.hadamard_claims@.len());
    assert(fes(b.fft_claims@).len() == b.fft_claims@.len());
    assert(fes(b.fft_weight_claims@).len() == b.fft_weight_claims@.len());
    match stage {
        Stage::InverseStep(i) => {
            lemma_one_more_step(
                &a.ifft_delegation,
                &b.ifft_delegation,
                fes(a.ifft_point@),
                inverse_row(conv, last),
                scale,
                true,
                point,
                evals,
                i as int,
                k,
            );
        },
        Stage::InputStep(i) => {
            lemma_one_more_step(
                &a.fft_delegation,
                &b.fft_delegation,
                fes(a.fft_point@),
                row(conv, a),
                fone(),
                false,
                point,
                evals,
                i as int,
                k,
            );
        },
        Stage::WeightStep(i) => {
            lemma_one_more_step(
                &a.weights_delegation,
                &b.weights_delegation,
                fes(a.weights_point@),
                row(conv, a),
                fone(),
                false,
                point,
                evals,
                i as int,
                k,
            );
        },
        _ => {},
    }
}

/// The steps of a delegation, all of which are shown.
proof fn lemma_all_steps(d: &DelegationValues, start: Seq<Fe>, rx: Seq<Fe>, scale: Fe, inverse: bool)
    requires
        rx.len() >= 1,
        start.len() == rx.len(),
        has_steps(d, rx.len() - 1, rx.len() - 1),
        evaluates_first_steps(d, start, rx, scale, inverse),
    ensures
        evaluates_steps(d.at(), d.values(), start, rx, scale, inverse),
{
    let n = rx.len();
    let k = d.at().len();
    let phi = phase(n, inverse);
    assert(k == d.points@.len() && d.values().len() == d.claims@.len());
    assert forall|i: int| 0 <= i < k implies {
        let before = point_before(d.at(), start, i);
        let q = d.at()[i];
        let m = (k - i) as nat;
        &&& (#[trigger] d.values()[i])[0] == mle_eval(betas(before.drop_last()), q)
        &&& d.values()[i][1] == mle_eval(
            step_table(rx[i], before.last(), fpow(phi, pow2(i as nat)), !inverse && i == 0, m),
            q,
        )
        &&& d.values()[i][2] == mle_eval(level_table(rx, phi, scale, n, m), q)
    } by {
        let tables = step_tables(rx, scale, inverse, point_before(d.at(), start, i), i);
        assert(d.values()[i] == evaluations(tables, d.at()[i]));
        assert(tables.len() == 3);
    }
}

/// Once every sum is shown with the values of its tables, the values are those that the checks of the proof accept.
pub proof fn law_proved_values_are_those_of_the_tables(
    conv: &Convolution<Element>,
    data: &ConvData,
    last: &Claim,
    v: &ConvProofValues,
)
    requires
        can_prove(conv, data, last),
        has_values(conv, Stage::Done, v),
        evaluates_so_far(conv, data, last, Stage::Done, v),
        v.bias_claim.fe() == bias_value(conv, high_part(conv, last)),
        fes(v.partial_evals@) == mixed_weights(conv, last, v),
    ensures
        evaluates_tables(conv, fes2(data.input@), fes2(data.input_fft@), fes2(data.prod@), last, v),
{
    let scale = inverse_of_pow2(log_len(conv));
    let (ip, hp, fp, wp) = (fes(v.ifft_point@), fes(v.hadamard_point@), fes(v.fft_point@), fes(v.weights_point@));
    lemma_log_len(conv);
    assert(ip.len() == v.ifft_point@.len());
    assert(hp.len() == v.hadamard_point@.len());
    assert(fp.len() == v.fft_point@.len());
    assert(wp.len() == v.weights_point@.len());
    lemma_all_steps(&v.ifft_delegation, ip, inverse_row(conv, last), scale, true);
    lemma_all_steps(&v.fft_delegation, fp, row(conv, v), fone(), false);
    lemma_all_steps(&v.weights_delegation, wp, row(conv, v), fone(), false);
    let t = |stage: Stage| stage_tables(conv, data, last, stage, v);
    let i = t(Stage::Inverse);
    assert(fes(v.ifft_claims@) =~= seq![mle_eval(i[0], ip), mle_eval(i[1], ip)]);
    let h = t(Stage::Products);
    assert(fes(v.hadamard_claims@) =~= seq![mle_eval(h[0], hp), mle_eval(h[1], hp), mle_eval(h[2], hp)]);
    let f = t(Stage::Input);
    assert(fes(v.fft_claims@) =~= seq![mle_eval(f[0], fp), mle_eval(f[1], fp)]);
    let w = t(Stage::Weights);
    assert(fes(v.fft_weight_claims@) =~= seq![mle_eval(w[0], wp), mle_eval(w[1], wp)]);
}

/// A proof whose sums were all shown with the values of their tables holds as many values as the checks read, and passes
/// them.
pub proof fn law_honest_proof_is_accepted(
    conv: &Convolution<Element>,
    data: &ConvData,
    last: &Claim,
    ctx: &ConvCtx,
    id: usize,
    us: Seq<usize>,
    v: &ConvProofValues,
    challenges: nat,
)
    requires
        can_prove(conv, data, last),
        conv.filter.shape@[2] >= 2,
        is_pow2(conv.filter.shape@[2] as int),
        is_ctx_of(ctx, conv, id, us),
        has_values(conv, Stage::Done, v),
        evaluates_so_far(conv, data, last, Stage::Done, v),
        v.bias_claim.fe() == bias_value(conv, high_part(conv, last)),
        fes(v.partial_evals@) == mixed_weights(conv, last, v),
        conv.filter.og_shape@[2] * conv.filter.og_shape@[2] == pow2(challenges),
        fsub(fone(), v.fft_point@.last().fe()) != fzero(),
        fsub(fone(), v.weights_point@.last().fe()) != fzero(),
    ensures
        values_fit(ctx, v, last, challenges),
        v.ifft_delegation.points@.len() == ctx.delegation_ifft@.len(),
        inverse_delegation_ok(ctx, v, last),
        beta_holds(v),
        v.fft_delegation.points@.len() == ctx.delegation_fft@.len(),
        input_delegation_ok(v),
        weight_delegation_ok(v),
        weights_hold(ctx, v),
{
    lemma_log_len(conv);
    law_proved_values_are_those_of_the_tables(conv, data, last, v);
    law_convolution_proof_is_accepted(
        conv,
        ctx,
        id,
        us,
        fes2(data.input@),
        fes2(data.input_fft@),
        fes2(data.prod@),
        last,
        v,
    );
    let k = num_steps(conv);
    let side = conv.filter.shape@[2] as int;
    let e = choose|e: nat| #[trigger] pow2(e) == side;
    lemma_flog2_pow2(e);
    lemma_pow2_adds(e, e);
    lemma_pow2_unfold(2 * e + 1);
    lemma_flog2_pow2(2 * e + 1);
    lemma_flog2_pow2(2 * e);
    lemma2_to64();
    assert(transform_len(&conv.filter) == pow2(2 * e + 1));
    assert(e >= 1);
    lemma_fitting_steps(&v.ifft_delegation, k);
    lemma_fitting_steps(&v.fft_delegation, k);
    lemma_fitting_steps(&v.weights_delegation, k);
    assert(fes(v.partial_evals@).len() == v.partial_evals@.len());
    assert(side * side > 0) by (nonlinear_arith)
        requires
            side >= 2,
    ;
}

/// The steps of a whole delegation are as many as the checks read.
proof fn lemma_fitting_steps(d: &DelegationValues, k: int)
    requires
        has_steps(d, k, k),
        1 <= k <= 31,
    ensures
        d.fits(),
{
    assert forall|i: int| 0 <= i < d.points@.len() implies 1 <= (#[trigger] d.points@[i])@.len()
        <= d.points@.len() by {
        assert(d.at()[i] == fes(d.points@[i]@));
        assert(fes(d.points@[i]@).len() == d.points@[i]@.len());
    }
    assert forall|i: int| 0 <= i < d.claims@.len() implies (#[trigger] d.claims@[i])@.len() >= 3 by {
        assert(d.values()[i] == fes(d.claims@[i]@));
        assert(fes(d.claims@[i]@).len() == d.claims@[i]@.len());
    }
}

} // verus!
