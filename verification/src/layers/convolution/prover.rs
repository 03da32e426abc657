//! The proof of a convolution layer, sum by sum: the tables that come next, and the claims that are left at the end.
use crate::arith::{flog2, floor_log2, is_power_of_two, lemma_flog2_pow2};
use crate::fft::{fes, inverse_of_pow2};
use crate::field::{fone, fsub, fzero, Fe, GoldilocksExt2};
use crate::iop::batch::{batch_fft_tables, batch_ifft_tables, BatchTables};
use crate::iop::delegation::Delegation;
use crate::iop::fourier::{level_table, phase};
use crate::iop::Claim;
use crate::layers::convolution::agreement::are_proved;
use crate::layers::convolution::claims::{bias_value, channel_vars, entry_vars, filter_claim, input_claim, poly_point};
use crate::layers::convolution::prove::transform_len;
use crate::layers::convolution::sizes::last_is_invertible;
use crate::layers::convolution::stages::{
    can_prove, evaluates_so_far, evaluations, has_one_more, has_values, high_part, inverse_row, lemma_log_len,
    lemma_one_more_sum, log_len, mixed_weights, next_stage, num_steps, past_input_steps, records, row, stage_tables,
    stage_vars, step_tables, Stage,
};
use crate::layers::convolution::verify::{point_before, ConvClaims, ConvProofValues, DelegationValues};
use crate::layers::convolution::Convolution;
use crate::number::Element;
use crate::tensor::copy_slice;
use crate::tensor::fft_conv::{fes2, ConvData};
use vstd::arithmetic::power2::{lemma_pow2_adds, lemma_pow2_pos, pow2};
use vstd::prelude::*;
use vstd::slice::slice_subrange;

verus! {

/// Levels of the row at `rx`.
spec fn are_levels(levels: Seq<Vec<GoldilocksExt2>>, rx: Seq<Fe>, scale: Fe, inverse: bool) -> bool {
    let n = rx.len();
    &&& levels.len() == n - 1
    &&& forall|i: int|
        0 <= i < n - 1 ==> fes(#[trigger] levels[i]@) == level_table(rx, phase(n, inverse), scale, n, (i + 1) as nat)
}

/// The tables are those of a batch of transforms, for the row at `rx`.
spec fn is_batch(t: &BatchTables, rx: Seq<Fe>, scale: Fe, inverse: bool, tables: Seq<Seq<Fe>>) -> bool {
    &&& fes(t.r1@) == rx
    &&& are_levels(t.f_middle@, rx, scale, inverse)
    &&& seq![fes(t.f_m@), fes(t.f_red@)] == tables
}

/// The delegation of the row at `rx` stands before step `i`, and the last sum was reduced to `before`.
spec fn delegates(d: Delegation, rx: Seq<Fe>, scale: Fe, inverse: bool, before: Seq<Fe>, i: int) -> bool {
    &&& d.wf()
    &&& are_levels(d.levels(), rx, scale, inverse)
    &&& d.row_point() == rx
    &&& d.inverse() == inverse
    &&& d.steps_left() == rx.len() - 1 - i
    &&& d.current_point() == before
}

/// The delegation of the row at `row`, whose extension was reduced to the point.
fn delegate(
    levels: Vec<Vec<GoldilocksExt2>>,
    row: Vec<GoldilocksExt2>,
    point: &Vec<GoldilocksExt2>,
    inverse: bool,
    Ghost(scale): Ghost<Fe>,
) -> (r: Delegation)
    requires
        are_levels(levels@, fes(row@), scale, inverse),
        1 <= row@.len() <= 32,
        pow2(row@.len()) <= usize::MAX,
        point@.len() == row@.len(),
    ensures
        delegates(r, fes(row@), scale, inverse, fes(point@), 0),
{
    proof {
        assert forall|l: int| 0 <= l < levels@.len() implies (#[trigger] levels@[l])@.len() == pow2((l + 1) as nat) by {
            assert(fes(levels@[l]@).len() == levels@[l]@.len());
        }
    }
    Delegation::new(levels, row, copy_slice(point), inverse)
}

/// The tables of the next step of a delegation.
fn delegation_tables(
    d: &Delegation,
    Ghost(rx): Ghost<Seq<Fe>>,
    Ghost(scale): Ghost<Fe>,
    Ghost(before): Ghost<Seq<Fe>>,
    Ghost(i): Ghost<int>,
) -> (r: Vec<Vec<GoldilocksExt2>>)
    requires
        delegates(*d, rx, scale, d.inverse(), before, i),
        0 <= i < rx.len() - 1,
    ensures
        fes2(r@) == step_tables(rx, scale, d.inverse(), before, i),
{
    let step = d.step().unwrap();
    let ghost (a, b, c) = (step.beta@, step.phi@, step.level@);
    let r = vec![step.beta, step.phi, step.level];
    proof {
        assert(fes2(r@) =~= seq![fes(a), fes(b), fes(c)]);
    }
    r
}

/// The tables of the inverse transform.
fn inverse_batch(
    conv: &Convolution<Element>,
    data: &ConvData,
    r: &[GoldilocksExt2],
    last: &Claim,
    v: &ConvProofValues,
) -> (t: BatchTables)
    requires
        can_prove(conv, data, last),
        fes(r@) == poly_point(last.at(), entry_vars(conv)),
    ensures
        is_batch(
            &t,
            inverse_row(conv, last),
            inverse_of_pow2(log_len(conv)),
            true,
            stage_tables(conv, data, last, Stage::Inverse, v),
        ),
{
    let ghost n = log_len(conv) as int;
    let ghost c = channel_vars(conv) as int;
    proof {
        lemma_log_len(conv);
        assert(data.prod@[0]@.len() == transform_len(&conv.filter));
        assert(fes(r@).len() == r@.len());
        assert(r@[n - 1].fe() == fes(r@)[n - 1]);
        assert(fes(r@).take(n) =~= inverse_row(conv, last));
        assert(fes(r@).subrange(n, n + c) =~= high_part(conv, last));
    }
    batch_ifft_tables(r, &data.prod)
}

/// The tables of the products of transforms.
fn product_tables(
    conv: &Convolution<Element>,
    data: &ConvData,
    bias_point: &Vec<GoldilocksExt2>,
    last: &Claim,
    v: &ConvProofValues,
) -> (r: Vec<Vec<GoldilocksExt2>>)
    requires
        can_prove(conv, data, last),
        fes(bias_point@) == high_part(conv, last),
        v.ifft_point@.len() == log_len(conv),
    ensures
        fes2(r@) == stage_tables(conv, data, last, Stage::Products, v),
{
    proof {
        lemma_log_len(conv);
        let e = choose|e: nat| #[trigger] pow2(e) == conv.filter.shape@[0];
        lemma_flog2_pow2(e);
        assert(fes(bias_point@).len() == bias_point@.len());
    }
    let t = conv.hadamard_tables(&data.input_fft, bias_point, &v.ifft_point);
    let ghost (a, b, c) = (t.f1@, t.f2@, t.f3@);
    let r = vec![t.f1, t.f2, t.f3];
    proof {
        assert(fes2(r@) =~= seq![fes(a), fes(b), fes(c)]);
    }
    r
}

/// The tables of the transform of the input.
fn input_batch(conv: &Convolution<Element>, data: &ConvData, last: &Claim, v: &ConvProofValues) -> (t: BatchTables)
    requires
        can_prove(conv, data, last),
        v.hadamard_point@.len() == stage_vars(conv, Stage::Products),
    ensures
        is_batch(&t, row(conv, v), fone(), false, stage_tables(conv, data, last, Stage::Input, v)),
{
    let ghost n = log_len(conv) as int;
    let ghost c = flog2(conv.filter.shape@[1] as nat) as int;
    proof {
        lemma_log_len(conv);
        assert(2 * data.input@[0]@.len() == transform_len(&conv.filter));
        assert(fes(v.hadamard_point@).len() == v.hadamard_point@.len());
        assert(fes(v.hadamard_point@).subrange(n, n + c) =~= fes(v.hadamard_point@).skip(n));
    }
    batch_fft_tables(&v.hadamard_point, &data.input)
}

/// The point of the kernels: that of the products of transforms, and the one of the channels of the output.
fn kernel_point(hadamard_point: &Vec<GoldilocksExt2>, bias_point: &Vec<GoldilocksExt2>) -> (r: Vec<GoldilocksExt2>)
    ensures
        fes(r@) == fes(hadamard_point@) + fes(bias_point@),
        r@.len() == hadamard_point@.len() + bias_point@.len(),
{
    let mut r = copy_slice(hadamard_point);
    let ghost low = r@;
    let mut rest = copy_slice(bias_point);
    let ghost high = rest@;
    r.append(&mut rest);
    proof {
        assert(fes(r@) =~= fes(low) + fes(high));
    }
    r
}

/// The tables of the transform of the weights, and the mixed weights.
fn weight_batch(
    conv: &Convolution<Element>,
    data: &ConvData,
    bias_point: &Vec<GoldilocksExt2>,
    last: &Claim,
    v: &ConvProofValues,
) -> (r: (BatchTables, Vec<GoldilocksExt2>))
    requires
        can_prove(conv, data, last),
        fes(bias_point@) == high_part(conv, last),
        v.hadamard_point@.len() == stage_vars(conv, Stage::Products),
    ensures
        is_batch(&r.0, row(conv, v), fone(), false, stage_tables(conv, data, last, Stage::Weights, v)),
        fes(r.1@) == mixed_weights(conv, last, v),
{
    let point = kernel_point(&v.hadamard_point, bias_point);
    let ghost n = log_len(conv) as int;
    let ghost (kw, kx) = (conv.filter.shape@[0] as int, conv.filter.shape@[1] as int);
    proof {
        lemma_log_len(conv);
        let a = choose|e: nat| #[trigger] pow2(e) == kw;
        let b = choose|e: nat| #[trigger] pow2(e) == kx;
        lemma_flog2_pow2(a);
        lemma_flog2_pow2(b);
        lemma_pow2_adds(b, a);
        assert(fes(bias_point@).len() == bias_point@.len());
        assert(pow2(b) * pow2(a) == kw * kx) by (nonlinear_arith)
            requires
                pow2(a) == kw,
                pow2(b) == kx,
        ;
        let f = conv.filter.og_shape@[2] as int;
        assert(kw * kx <= (kw * kx) * (f * f)) by (nonlinear_arith)
            requires
                f >= 1,
                kw > 0,
                kx > 0,
        ;
        assert(conv.filter.data@.len() == conv.filter.data.len());
        let hp = fes(v.hadamard_point@);
        assert(fes(point@).take(n) =~= row(conv, v));
        assert(fes(point@).skip(n) =~= hp.skip(n) + high_part(conv, last));
    }
    let t = conv.batch_fft_weights_tables(&point);
    (t.tables, t.partial_evals)
}

/// The levels of a row whose delegation has not begun, and the point that the row was taken at.
struct Pending {
    levels: Vec<Vec<GoldilocksExt2>>,
    row: Vec<GoldilocksExt2>,
}

/// The tables of the sum of a batch, and what its delegation starts from.
fn unpack(t: BatchTables) -> (r: (Vec<Vec<GoldilocksExt2>>, Pending))
    ensures
        fes2(r.0@) == seq![fes(t.f_m@), fes(t.f_red@)],
        r.1.levels == t.f_middle,
        r.1.row == t.r1,
{
    let ghost (a, b) = (t.f_m@, t.f_red@);
    let tables = vec![t.f_m, t.f_red];
    proof {
        assert(fes2(tables@) =~= seq![fes(a), fes(b)]);
    }
    (tables, Pending { levels: t.f_middle, row: t.r1 })
}

/// Adds the point and the values of one more step.
fn push_step(d: &mut DelegationValues, point: Vec<GoldilocksExt2>, evals: Vec<GoldilocksExt2>)
    ensures
        has_one_more(old(d), final(d), fes(point@), fes(evals@)),
{
    let ghost start = *d;
    d.points.push(point);
    d.claims.push(evals);
    proof {
        assert(d.at() =~= start.at().push(fes(point@)));
        assert(d.values() =~= start.values().push(fes(evals@)));
    }
}

/// A proof of a convolution layer that is under way.
pub struct ConvProver<'a> {
    conv: &'a Convolution<Element>,
    data: &'a ConvData,
    last: &'a Claim,
    bias_point: Vec<GoldilocksExt2>,
    stage: Stage,
    values: ConvProofValues,
    tables: Vec<Vec<GoldilocksExt2>>,
    pending: Option<Pending>,
    delegation: Option<Delegation>,
}

/// What a proof of a convolution layer leaves behind.
#[derive(Debug)]
pub struct ProvedConv {
    pub values: ConvProofValues,
    pub claims: ConvClaims,
}

impl<'a> ConvProver<'a> {
    /// The layer.
    pub closed spec fn layer(self) -> &'a Convolution<Element> {
        self.conv
    }

    /// What the layer computed.
    pub closed spec fn computed(self) -> &'a ConvData {
        self.data
    }

    /// The claim on the output of the layer.
    pub closed spec fn claim(self) -> &'a Claim {
        self.last
    }

    /// The sum that comes next.
    pub closed spec fn stage(self) -> Stage {
        self.stage
    }

    /// The values of the sums that are shown.
    pub closed spec fn values(self) -> ConvProofValues {
        self.values
    }

    /// The tables are those of the stage, and what the steps to come need is there.
    pub closed spec fn wf(self) -> bool {
        let (conv, last, v) = (self.conv, self.last, &self.values);
        let scale = inverse_of_pow2(log_len(conv));
        &&& can_prove(conv, self.data, last)
        &&& has_values(conv, self.stage, v)
        &&& fes(self.bias_point@) == high_part(conv, last)
        &&& v.bias_claim.fe() == bias_value(conv, high_part(conv, last))
        &&& fes2(self.tables@) == stage_tables(conv, self.data, last, self.stage, v)
        &&& past_input_steps(self.stage) ==> fes(v.partial_evals@) == mixed_weights(conv, last, v)
        &&& match self.stage {
            Stage::Inverse => {
                &&& self.pending matches Some(p)
                &&& fes(p.row@) == inverse_row(conv, last)
                &&& are_levels(p.levels@, inverse_row(conv, last), scale, true)
            },
            Stage::InverseStep(i) => {
                &&& self.delegation matches Some(d)
                &&& delegates(
                    d,
                    inverse_row(conv, last),
                    scale,
                    true,
                    point_before(v.ifft_delegation.at(), fes(v.ifft_point@), i as int),
                    i as int,
                )
            },
            Stage::Input | Stage::Weights => {
                &&& self.pending matches Some(p)
                &&& fes(p.row@) == row(conv, v)
                &&& are_levels(p.levels@, row(conv, v), fone(), false)
            },
            Stage::InputStep(i) => {
                &&& self.delegation matches Some(d)
                &&& delegates(
                    d,
                    row(conv, v),
                    fone(),
                    false,
                    point_before(v.fft_delegation.at(), fes(v.fft_point@), i as int),
                    i as int,
                )
            },
            Stage::WeightStep(i) => {
                &&& self.delegation matches Some(d)
                &&& delegates(
                    d,
                    row(conv, v),
                    fone(),
                    false,
                    point_before(v.weights_delegation.at(), fes(v.weights_point@), i as int),
                    i as int,
                )
            },
            Stage::Products | Stage::Done => true,
        }
    }

    /// The tables whose products add up to the sum that comes next; none where every sum is shown.
    pub fn tables(&self) -> (r: &Vec<Vec<GoldilocksExt2>>)
        requires
            self.wf(),
        ensures
            fes2(r@) == stage_tables(self.layer(), self.computed(), self.claim(), self.stage(), &self.values()),
    {
        &self.tables
    }

    /// Is every sum shown?
    pub fn is_done(&self) -> (r: bool)
        ensures
            r == (self.stage() is Done),
    {
        match self.stage {
            Stage::Done => true,
            _ => false,
        }
    }

    /// Does the point have as many coordinates as the tables of the next sum have variables, and is there a value for
    /// each of them?
    pub fn accepts(&self, point: &Vec<GoldilocksExt2>, evals: &Vec<GoldilocksExt2>) -> (r: bool)
        requires
            self.wf(),
        ensures
            r == {
                &&& !(self.stage() is Done)
                &&& point@.len() == stage_vars(self.layer(), self.stage())
                &&& evals@.len() == stage_tables(
                    self.layer(),
                    self.computed(),
                    self.claim(),
                    self.stage(),
                    &self.values(),
                ).len()
            },
    {
        proof {
            lemma_log_len(self.conv);
            assert(fes2(self.tables@).len() == self.tables@.len());
        }
        let n: usize = floor_log2(2 * (self.conv.filter.nw() * self.conv.filter.nw()));
        let vars: usize = match self.stage {
            Stage::Inverse => n,
            Stage::InverseStep(i) => n - 1 - i,
            Stage::Products => n + floor_log2(self.conv.filter.kx()),
            Stage::Input => n,
            Stage::InputStep(i) => n - 1 - i,
            Stage::Weights => n,
            Stage::WeightStep(i) => n - 1 - i,
            Stage::Done => {
                return false;
            },
        };
        point.len() == vars && evals.len() == self.tables.len()
    }

    /// Is every sum shown, is there a mixed weight for each corner of as many challenges, and does one minus the last
    /// coordinate of the point of the input have an inverse?
    pub fn can_finish(&self, challenges: usize) -> (r: bool)
        requires
            self.wf(),
        ensures
            r == {
                &&& self.stage() is Done
                &&& self.values().partial_evals@.len() == pow2(challenges as nat)
                &&& fsub(fone(), self.values().fft_point@.last().fe()) != fzero()
            },
    {
        if !self.is_done() {
            return false;
        }
        let weights: usize = self.values.partial_evals.len();
        proof {
            lemma_pow2_pos(challenges as nat);
        }
        if weights == 0 || !is_power_of_two(weights) || floor_log2(weights) != challenges {
            proof {
                if weights == pow2(challenges as nat) {
                    lemma_flog2_pow2(challenges as nat);
                }
            }
            return false;
        }
        proof {
            let e = choose|e: nat| #[trigger] pow2(e) == weights;
            lemma_flog2_pow2(e);
            lemma_log_len(self.conv);
        }
        last_is_invertible(&self.values.fft_point)
    }

    /// The stage after the steps of the delegation of the inverse transform.
    fn begin_products(&mut self)
        requires
            can_prove(old(self).conv, old(self).data, old(self).last),
            fes(old(self).bias_point@) == high_part(old(self).conv, old(self).last),
            old(self).values.ifft_point@.len() == log_len(old(self).conv),
        ensures
            *final(self) == (ConvProver { stage: Stage::Products, tables: final(self).tables, ..*old(self) }),
            fes2(final(self).tables@) == stage_tables(
                old(self).conv,
                old(self).data,
                old(self).last,
                Stage::Products,
                &old(self).values,
            ),
    {
        self.stage = Stage::Products;
        self.tables = product_tables(self.conv, self.data, &self.bias_point, self.last, &self.values);
    }

    /// The stage after the steps of the delegation of the transform of the input.
    fn begin_weights(&mut self)
        requires
            can_prove(old(self).conv, old(self).data, old(self).last),
            fes(old(self).bias_point@) == high_part(old(self).conv, old(self).last),
            old(self).values.hadamard_point@.len() == stage_vars(old(self).conv, Stage::Products),
        ensures
            ({
                let (a, b) = (*old(self), *final(self));
                let v = &b.values;
                &&& b.conv == a.conv
                &&& b.data == a.data
                &&& b.last == a.last
                &&& b.bias_point == a.bias_point
                &&& b.stage is Weights
                &&& *v == (ConvProofValues { partial_evals: v.partial_evals, ..a.values })
                &&& fes(v.partial_evals@) == mixed_weights(b.conv, b.last, v)
                &&& fes2(b.tables@) == stage_tables(b.conv, b.data, b.last, Stage::Weights, v)
                &&& b.pending matches Some(p)
                &&& fes(p.row@) == row(b.conv, v)
                &&& are_levels(p.levels@, row(b.conv, v), fone(), false)
            }),
    {
        let (t, partial_evals) = weight_batch(self.conv, self.data, &self.bias_point, self.last, &self.values);
        let (tables, pending) = unpack(t);
        self.stage = Stage::Weights;
        self.values.partial_evals = partial_evals;
        self.tables = tables;
        self.pending = Some(pending);
    }

    /// Goes on with the point that the sum was reduced to, and the values of its tables there.
    pub fn reply(self, point: Vec<GoldilocksExt2>, evals: Vec<GoldilocksExt2>) -> (r: Self)
        requires
            self.wf(),
            !(self.stage() is Done),
            point@.len() == stage_vars(self.layer(), self.stage()),
            evals@.len() == stage_tables(
                self.layer(),
                self.computed(),
                self.claim(),
                self.stage(),
                &self.values(),
            ).len(),
        ensures
            r.wf(),
            r.layer() == self.layer(),
            r.computed() == self.computed(),
            r.claim() == self.claim(),
            r.stage() == next_stage(self.stage(), num_steps(self.layer())),
            records(
                self.layer(),
                self.claim(),
                self.stage(),
                &self.values(),
                fes(point@),
                fes(evals@),
                &r.values(),
            ),
            evaluates_so_far(self.layer(), self.computed(), self.claim(), self.stage(), &self.values()) && fes(evals@)
                == evaluations(
                stage_tables(self.layer(), self.computed(), self.claim(), self.stage(), &self.values()),
                fes(point@),
            ) ==> evaluates_so_far(r.layer(), r.computed(), r.claim(), r.stage(), &r.values()),
    {
        let ghost start = self;
        let ghost (p, e) = (fes(point@), fes(evals@));
        let mut s = self;
        let (conv, data, last) = (s.conv, s.data, s.last);
        let ghost scale = inverse_of_pow2(log_len(conv));
        let ghost irow = inverse_row(conv, last);
        proof {
            lemma_log_len(conv);
            assert(p.len() == point@.len());
            assert(e.len() == evals@.len());
        }
        let n: usize = floor_log2(2 * (conv.filter.nw() * conv.filter.nw()));
        let k: usize = n - 1;
        match s.stage {
            Stage::Inverse => {
                let pending = s.pending.take().unwrap();
                let d = delegate(pending.levels, pending.row, &point, true, Ghost(scale));
                s.values.ifft_point = point;
                s.values.ifft_claims = evals;
                if k > 0 {
                    s.stage = Stage::InverseStep(0);
                    s.tables = delegation_tables(&d, Ghost(irow), Ghost(scale), Ghost(p), Ghost(0));
                    s.delegation = Some(d);
                } else {
                    s.begin_products();
                }
            },
            Stage::InverseStep(i) => {
                let mut d = s.delegation.take().unwrap();
                d.advance(copy_slice(&point));
                push_step(&mut s.values.ifft_delegation, point, evals);
                if i + 1 < k {
                    s.stage = Stage::InverseStep(i + 1);
                    s.tables = delegation_tables(&d, Ghost(irow), Ghost(scale), Ghost(p), Ghost(i + 1));
                    s.delegation = Some(d);
                } else {
                    s.begin_products();
                }
            },
            Stage::Products => {
                s.values.hadamard_point = point;
                s.values.hadamard_claims = evals;
                let (tables, pending) = unpack(input_batch(conv, data, last, &s.values));
                s.stage = Stage::Input;
                s.tables = tables;
                s.pending = Some(pending);
            },
            Stage::Input => {
                let ghost rx = row(conv, &s.values);
                let pending = s.pending.take().unwrap();
                let d = delegate(pending.levels, pending.row, &point, false, Ghost(fone()));
                s.values.fft_point = point;
                s.values.fft_claims = evals;
                if k > 0 {
                    s.stage = Stage::InputStep(0);
                    s.tables = delegation_tables(&d, Ghost(rx), Ghost(fone()), Ghost(p), Ghost(0));
                    s.delegation = Some(d);
                } else {
                    s.begin_weights();
                }
            },
            Stage::InputStep(i) => {
                let ghost rx = row(conv, &s.values);
                let mut d = s.delegation.take().unwrap();
                d.advance(copy_slice(&point));
                push_step(&mut s.values.fft_delegation, point, evals);
                if i + 1 < k {
                    s.stage = Stage::InputStep(i + 1);
                    s.tables = delegation_tables(&d, Ghost(rx), Ghost(fone()), Ghost(p), Ghost(i + 1));
                    s.delegation = Some(d);
                } else {
                    s.begin_weights();
                }
            },
            Stage::Weights => {
                let ghost rx = row(conv, &s.values);
                let pending = s.pending.take().unwrap();
                let d = delegate(pending.levels, pending.row, &point, false, Ghost(fone()));
                s.values.weights_point = point;
                s.values.fft_weight_claims = evals;
                if k > 0 {
                    s.stage = Stage::WeightStep(0);
                    s.tables = delegation_tables(&d, Ghost(rx), Ghost(fone()), Ghost(p), Ghost(0));
                    s.delegation = Some(d);
                } else {
                    s.stage = Stage::Done;
                    s.tables = Vec::new();
                }
            },
            Stage::WeightStep(i) => {
                let ghost rx = row(conv, &s.values);
                let mut d = s.delegation.take().unwrap();
                d.advance(copy_slice(&point));
                push_step(&mut s.values.weights_delegation, point, evals);
                if i + 1 < k {
                    s.stage = Stage::WeightStep(i + 1);
                    s.tables = delegation_tables(&d, Ghost(rx), Ghost(fone()), Ghost(p), Ghost(i + 1));
                    s.delegation = Some(d);
                } else {
                    s.stage = Stage::Done;
                    s.tables = Vec::new();
                }
            },
            Stage::Done => {},
        }
        proof {
            assert(records(conv, last, start.stage, &start.values, p, e, &s.values));
            lemma_one_more_sum(conv, data, last, start.stage, &start.values, p, e, &s.values);
            assert(s.stage == next_stage(start.stage, k as int));
            assert(fes2(s.tables@) =~= stage_tables(conv, data, last, s.stage, &s.values));
        }
        s
    }

    /// The values of all sums, and the claims that are left: that on the filter at the challenges, that on the bias and
    /// that on the input.
    pub fn finish(self, weights_rand: &[GoldilocksExt2]) -> (r: ProvedConv)
        requires
            self.wf(),
            self.stage() is Done,
            self.values().partial_evals@.len() == pow2(weights_rand@.len()),
            fsub(fone(), self.values().fft_point@.last().fe()) != fzero(),
        ensures
            r.values == self.values(),
            ({
                let v = &r.values;
                &&& can_prove(self.layer(), self.computed(), self.claim())
                &&& has_values(self.layer(), Stage::Done, v)
                &&& v.bias_claim.fe() == bias_value(self.layer(), high_part(self.layer(), self.claim()))
                &&& fes(v.partial_evals@) == mixed_weights(self.layer(), self.claim(), v)
                &&& are_proved(&r.claims, self.layer(), self.claim(), v, weights_rand@)
            }),
    {
        let conv = self.conv;
        let values = self.values;
        proof {
            lemma_log_len(conv);
        }
        let n: usize = floor_log2(2 * (conv.filter.nw() * conv.filter.nw()));
        let point = kernel_point(&values.hadamard_point, &self.bias_point);
        let total: usize = point.len();
        let kernels = slice_subrange(point.as_slice(), n, total);
        proof {
            assert(fes(values.hadamard_point@).len() == values.hadamard_point@.len());
            assert(fes(kernels@) =~= fes(point@).skip(n as int));
            assert(fes(point@).skip(n as int) =~= fes(values.hadamard_point@).skip(n as int) + fes(self.bias_point@));
        }
        let filter = filter_claim(&values.partial_evals, weights_rand, kernels);
        let bias = Claim::new(self.bias_point, values.bias_claim);
        let input = input_claim(&values.fft_point, &values.hadamard_point, &values.fft_claims[0], n);
        ProvedConv { values, claims: ConvClaims { filter, bias, input } }
    }
}

impl Convolution<Element> {
    /// A proof of the claim on the output of the transforms with the bias, none of whose sums is shown.
    pub fn prove_convolution_step<'a>(&'a self, data: &'a ConvData, last: &'a Claim) -> (r: ConvProver<'a>)
        requires
            can_prove(self, data, last),
        ensures
            r.wf(),
            r.layer() == self,
            r.computed() == data,
            r.claim() == last,
            r.stage() is Inverse,
            evaluates_so_far(self, data, last, r.stage(), &r.values()),
    {
        proof {
            lemma_log_len(self);
            let e = choose|e: nat| #[trigger] pow2(e) == self.filter.shape@[0];
            lemma_flog2_pow2(e);
        }
        let split = self.split_output_claim(last);
        let values = ConvProofValues {
            fft_point: Vec::new(),
            fft_claims: Vec::new(),
            fft_delegation: DelegationValues { points: Vec::new(), claims: Vec::new() },
            weights_point: Vec::new(),
            fft_weight_claims: Vec::new(),
            weights_delegation: DelegationValues { points: Vec::new(), claims: Vec::new() },
            ifft_point: Vec::new(),
            ifft_claims: Vec::new(),
            ifft_delegation: DelegationValues { points: Vec::new(), claims: Vec::new() },
            hadamard_point: Vec::new(),
            hadamard_claims: Vec::new(),
            partial_evals: Vec::new(),
            bias_claim: split.bias_eval,
        };
        let (tables, pending) = unpack(inverse_batch(self, data, &split.r, last, &values));
        ConvProver {
            conv: self,
            data,
            last,
            bias_point: split.bias_point,
            stage: Stage::Inverse,
            values,
            tables,
            pending: Some(pending),
            delegation: None,
        }
    }
}

} // verus!
