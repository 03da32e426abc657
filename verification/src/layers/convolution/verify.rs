//! The checks of the proof of a convolution layer, apart from those of the sums.
use crate::arith::{self, flog2, floor_log2, lemma_npot, npot};
use crate::fft::{fes, inverse_of_pow2, lemma_fes_canon, lemma_inverse_of_pow2, lemma_inverse_unique};
use crate::field::{
    fint, fmul, fone, fpow, fsub, fsum, fzero, lemma_fe_canon, lemma_fmul_assoc, lemma_fmul_comm, lemma_fmul_one,
    Fe, GoldilocksExt2, P,
};
use crate::iop::delegation::{
    last_value, lemma_share, phi_eval, phi_product, pow_two_omegas, step_factor,
};
use crate::iop::fourier::phase;
use crate::iop::Claim;
use crate::layers::convolution::claims::{filter_claim, input_claim, is_quotient, laid_out_sum, opposite};
use crate::layers::convolution::clearing::{
    is_clearing_tensor, new_clearing_tensor, new_clearing_tensor_strided, no_batch,
};
use crate::layers::convolution::context::ConvCtx;
use crate::layers::convolution::shapes::{
    conv2d_shape_with_padding, conv2d_shape_with_padding_and_stride, conv_shape_ok, conv_shape_pads, out_height,
    out_width, padded_conv2d_shape_with_padding, padded_conv2d_shape_with_padding_and_stride,
};
use crate::layers::convolution::strided::{expand_strided_point, expanded};
use crate::mle::{
    chi, complement, identity_at, identity_eval, law_identity_at_corner, lemma_bits_len, mle_eval, to_bits,
};
use crate::number::Element;
use crate::shape::{prod, Shape};
use crate::tensor::fft_conv::fes2;
use crate::tensor::{copy_slice, Tensor};
use vstd::arithmetic::power2::{lemma2_to64, lemma_pow2_pos, lemma_pow2_strictly_increases, pow2};
use vstd::prelude::*;
use vstd::slice::slice_subrange;

verus! {

/// The shapes of the inputs and outputs of a step of the inference, before and after padding.
#[derive(Debug)]
pub struct ShapeStep {
    pub unpadded_input_shape: Vec<Shape>,
    pub unpadded_output_shape: Vec<Shape>,
    pub padded_input_shape: Vec<Shape>,
    pub padded_output_shape: Vec<Shape>,
}

/// Why the proof of a convolution layer is rejected.
#[derive(Debug, Clone, Copy, PartialEq, Eq, Structural)]
pub enum ConvError {
    /// There is not one unpadded input shape.
    UnpaddedInputs,
    /// There is not one padded input shape.
    PaddedInputs,
    /// The delegation of the inverse transform has not as many steps as it should.
    InverseDelegationSteps,
    /// A step of that delegation, or its end, does not hold.
    InverseDelegation,
    /// The corner polynomials of the point of the inverse transform have another value.
    Beta,
    /// The delegation of the transform of the input has not as many steps as it should.
    DelegationSteps,
    /// A step of that delegation, or its end, does not hold.
    Delegation,
    /// A step of the delegation of the transform of the weights, or its end, does not hold.
    WeightDelegation,
    /// The mixed weights do not have the value that was claimed.
    Weights,
}

/// The points that the sums of a delegation were reduced to, and the values of its tables there.
#[derive(Debug)]
pub struct DelegationValues {
    pub points: Vec<Vec<GoldilocksExt2>>,
    pub claims: Vec<Vec<GoldilocksExt2>>,
}

/// The point before step `i`.
pub open spec fn point_before(points: Seq<Seq<Fe>>, start: Seq<Fe>, i: int) -> Seq<Fe> {
    if i == 0 {
        start
    } else {
        points[i - 1]
    }
}

/// The value that is claimed of the level that step `i` starts from.
pub open spec fn claim_before(claims: Seq<Seq<Fe>>, start: Fe, i: int) -> Fe {
    if i == 0 {
        start
    } else {
        claims[i - 1][2]
    }
}

/// The shorter of two lengths.
pub open spec fn common_len(a: Seq<Fe>, b: Seq<Fe>) -> nat {
    if a.len() <= b.len() {
        a.len()
    } else {
        b.len()
    }
}

/// The values of step `i` are those that its point gives.
pub open spec fn step_holds(
    points: Seq<Seq<Fe>>,
    claims: Seq<Seq<Fe>>,
    start: Seq<Fe>,
    rands: Seq<Fe>,
    exponents: Seq<Fe>,
    forward: bool,
    i: int,
) -> bool {
    let before = point_before(points, start, i);
    let q = points[i];
    &&& identity_at(q, before, common_len(q, before)) == claims[i][0]
    &&& step_factor(
        rands[i],
        before.last(),
        phi_product(q, exponents, exponents.len() - q.len(), q.len()),
        forward && i == 0,
    ) == claims[i][1]
}

impl DelegationValues {
    /// The points as field elements.
    pub open spec fn at(self) -> Seq<Seq<Fe>> {
        fes2(self.points@)
    }

    /// The values as field elements.
    pub open spec fn values(self) -> Seq<Seq<Fe>> {
        fes2(self.claims@)
    }

    /// There are three values for each of the points, each of which has a coordinate and not too many.
    pub open spec fn fits(self) -> bool {
        &&& self.points@.len() == self.claims@.len()
        &&& forall|i: int|
            0 <= i < self.points@.len() ==> 1 <= (#[trigger] self.points@[i])@.len() <= self.points@.len()
        &&& forall|i: int| 0 <= i < self.claims@.len() ==> (#[trigger] self.claims@[i])@.len() >= 3
        &&& 1 <= self.points@.len() <= 31
    }

    /// Checks the steps.
    fn check_steps(
        &self,
        start: &Vec<GoldilocksExt2>,
        rands: &Vec<GoldilocksExt2>,
        exponents: &Vec<GoldilocksExt2>,
        forward: bool,
    ) -> (r: bool)
        requires
            self.fits(),
            start@.len() > 0,
            rands@.len() >= self.points@.len(),
            exponents@.len() == self.points@.len(),
        ensures
            r == forall|i: int|
                0 <= i < self.points@.len() ==> #[trigger] step_holds(
                    self.at(),
                    self.values(),
                    fes(start@),
                    fes(rands@),
                    fes(exponents@),
                    forward,
                    i,
                ),
    {
        let mut i: usize = 0;
        let ghost (pts, vals, st, rd, ex) = (
            self.at(),
            self.values(),
            fes(start@),
            fes(rands@),
            fes(exponents@),
        );
        while i < self.points.len()
            invariant
                i <= self.points@.len(),
                self.fits(),
                start@.len() > 0,
                rands@.len() >= self.points@.len(),
                exponents@.len() == self.points@.len(),
                pts == self.at(),
                vals == self.values(),
                st == fes(start@),
                rd == fes(rands@),
                ex == fes(exponents@),
                forall|j: int| 0 <= j < i ==> #[trigger] step_holds(pts, vals, st, rd, ex, forward, j),
            decreases self.points@.len() - i,
        {
            let q = &self.points[i];
            let before = if i == 0 {
                start
            } else {
                &self.points[i - 1]
            };
            proof {
                assert(1 <= self.points@[i as int]@.len() <= self.points@.len());
                if i > 0 {
                    assert(1 <= self.points@[i - 1]@.len());
                }
                assert(self.claims@[i as int]@.len() >= 3);
                assert(pts[i as int] == fes(q@));
                assert(fes(before@) == point_before(pts, st, i as int));
                assert(vals[i as int] == fes(self.claims@[i as int]@));
            }
            let same = identity_eval(q, before);
            let last: usize = before.len() - 1;
            let phi = phi_eval(q, &rands[i], &before[last], exponents, forward && i == 0);
            if !same.same(&self.claims[i][0]) || !phi.same(&self.claims[i][1]) {
                assert(!step_holds(pts, vals, st, rd, ex, forward, i as int));
                return false;
            }
            i = i + 1;
        }
        true
    }

    /// The values of the levels that the steps start from, and the one that the last step leaves.
    pub fn level_claims(&self, start: &GoldilocksExt2) -> (r: Vec<GoldilocksExt2>)
        requires
            self.fits(),
        ensures
            r@.len() == self.points@.len() + 1,
            forall|i: int| 0 <= i < r@.len() ==> (#[trigger] r@[i]).fe() == claim_before(self.values(), start.fe(), i),
    {
        let mut r: Vec<GoldilocksExt2> = vec![*start];
        let mut i: usize = 0;
        while i < self.claims.len()
            invariant
                i <= self.claims@.len(),
                self.fits(),
                r@.len() == i + 1,
                forall|j: int| 0 <= j < r@.len() ==> (#[trigger] r@[j]).fe() == claim_before(self.values(), start.fe(), j),
            decreases self.claims@.len() - i,
        {
            assert(self.claims@[i as int]@.len() >= 3);
            r.push(self.claims[i][2]);
            i = i + 1;
        }
        r
    }
}

/// The delegation of a transform holds: its steps do, and the last level has the value that it should, where
/// the row was taken at `rands` and the first sum was reduced to `start`.
pub open spec fn delegation_holds(
    d: &DelegationValues,
    claim: Fe,
    start: Seq<Fe>,
    rands: Seq<Fe>,
    exponents: Seq<Fe>,
) -> bool {
    let k = d.points@.len() as int;
    &&& forall|i: int|
        0 <= i < k ==> #[trigger] step_holds(d.at(), d.values(), start, rands, exponents, true, i)
    &&& claim_before(d.values(), claim, k) == last_value(rands[k], point_before(d.at(), start, k)[0], fone())
}

/// The delegation of an inverse transform holds, likewise; the row was taken at a point whose last coordinate
/// is zero.
pub open spec fn inverse_delegation_holds(
    d: &DelegationValues,
    claim: Fe,
    start: Seq<Fe>,
    rands: Seq<Fe>,
    exponents: Seq<Fe>,
) -> bool {
    let k = d.points@.len() as int;
    &&& forall|i: int|
        0 <= i < k ==> #[trigger] step_holds(d.at(), d.values(), start, rands, exponents, false, i)
    &&& claim_before(d.values(), claim, k) == inverse_of_pow2((k + 1) as nat)
}

/// The roots of unity that the steps of a delegation with `k` steps use.
pub open spec fn step_roots(k: nat, inverse: bool) -> Seq<Fe> {
    Seq::new(k, |i: int| fpow(phase(k + 1, inverse), pow2(i as nat)))
}

/// Checks the delegation of a transform.
pub fn verify_fft_delegation(
    d: &DelegationValues,
    claim: &GoldilocksExt2,
    start: &Vec<GoldilocksExt2>,
    hadamard_point: &Vec<GoldilocksExt2>,
) -> (r: bool)
    requires
        d.fits(),
        start@.len() > 0,
        hadamard_point@.len() > d.points@.len(),
    ensures
        r == delegation_holds(
            d,
            claim.fe(),
            fes(start@),
            fes(hadamard_point@),
            step_roots(d.points@.len(), false),
        ),
{
    let k: usize = d.points.len();
    let exponents = pow_two_omegas(k + 1, false);
    proof {
        assert(fes(exponents@) =~= step_roots(k as nat, false));
    }
    if !d.check_steps(start, hadamard_point, &exponents, true) {
        return false;
    }
    let levels = d.level_claims(claim);
    let end = levels[k];
    let y = if k == 0 {
        start[0]
    } else {
        d.points[k - 1][0]
    };
    let two = GoldilocksExt2::from_canonical_u64(2);
    let one = GoldilocksExt2::one();
    let x = hadamard_point[k];
    let value = one.times(&complement(&y)).plus(&one.times(&complement(&two.times(&x))).times(&y));
    proof {
        assert(d.at()[k - 1] == fes(d.points@[k - 1]@));
    }
    end.same(&value)
}

/// Checks the delegation of an inverse transform; the coordinates of the row are the opposite of those of
/// `last_point`.
fn verify_ifft_delegation(
    d: &DelegationValues,
    claim: &GoldilocksExt2,
    start: &Vec<GoldilocksExt2>,
    rands: &Vec<GoldilocksExt2>,
) -> (r: bool)
    requires
        d.fits(),
        start@.len() > 0,
        rands@.len() >= d.points@.len(),
    ensures
        r == inverse_delegation_holds(
            d,
            claim.fe(),
            fes(start@),
            fes(rands@),
            step_roots(d.points@.len(), true),
        ),
{
    let k: usize = d.points.len();
    let exponents = pow_two_omegas(k + 1, true);
    proof {
        assert(fes(exponents@) =~= step_roots(k as nat, true));
    }
    if !d.check_steps(start, rands, &exponents, false) {
        return false;
    }
    let levels = d.level_claims(claim);
    let end = levels[k];
    proof {
        lemma2_to64();
        lemma_pow2_pos((k + 1) as nat);
        if k + 1 < 32 {
            lemma_pow2_strictly_increases((k + 1) as nat, 32);
        }
        lemma_inverse_of_pow2((k + 1) as nat);
    }
    let mut len: u64 = 1;
    let mut i: usize = 0;
    while i < k + 1
        invariant
            i <= k + 1,
            k <= 31,
            len == pow2(i as nat),
            pow2(32) == 0x1_0000_0000,
        decreases k + 1 - i,
    {
        proof {
            vstd::arithmetic::power2::lemma_pow2_unfold((i + 1) as nat);
            if i + 1 < 32 {
                lemma_pow2_strictly_increases((i + 1) as nat, 32);
            }
        }
        len = len * 2;
        i = i + 1;
    }
    proof {
        vstd::arithmetic::div_mod::lemma_small_mod(len as nat, P as nat);
    }
    let scale = GoldilocksExt2::from_canonical_u64(len).inverse();
    proof {
        lemma_fe_canon(scale);
        lemma_inverse_unique(fint(len as int), scale.fe(), inverse_of_pow2((k + 1) as nat));
    }
    let y = if k == 0 {
        start[0]
    } else {
        d.points[k - 1][0]
    };
    let value = scale.times(&complement(&y)).plus(&scale.times(&y));
    proof {
        lemma_share(scale.fe(), y.fe());
    }
    end.same(&value)
}

/// The points that the sums of the proof of a convolution layer were reduced to, and the values claimed there.
#[derive(Debug)]
pub struct ConvProofValues {
    pub fft_point: Vec<GoldilocksExt2>,
    pub fft_claims: Vec<GoldilocksExt2>,
    pub fft_delegation: DelegationValues,
    pub weights_point: Vec<GoldilocksExt2>,
    pub fft_weight_claims: Vec<GoldilocksExt2>,
    pub weights_delegation: DelegationValues,
    pub ifft_point: Vec<GoldilocksExt2>,
    pub ifft_claims: Vec<GoldilocksExt2>,
    pub ifft_delegation: DelegationValues,
    pub hadamard_point: Vec<GoldilocksExt2>,
    pub hadamard_claims: Vec<GoldilocksExt2>,
    pub partial_evals: Vec<GoldilocksExt2>,
    pub bias_claim: GoldilocksExt2,
}

/// The claims that the proof of a convolution layer leaves behind.
#[derive(Debug)]
pub struct ConvClaims {
    pub filter: Claim,
    pub bias: Claim,
    pub input: Claim,
}

/// The claims that the values leave behind at the challenges `rand`: that on the filter is the mixed weights at the
/// challenges, that on the bias the value for it, and that on the input the value of its channels divided by what their
/// padding multiplies it by. `kernels`, `high` and `mid` address the kernels and the channels of the output and the input.
pub open spec fn are_left(
    c: &ConvClaims,
    v: &ConvProofValues,
    rand: Seq<GoldilocksExt2>,
    kernels: Seq<Fe>,
    high: Seq<Fe>,
    mid: Seq<Fe>,
) -> bool {
    &&& c.filter.at() == fes(rand) + kernels
    &&& c.filter.eval.fe() == mle_eval(fes(v.partial_evals@), fes(rand))
    &&& c.bias.at() == high
    &&& c.bias.eval == v.bias_claim
    &&& c.input.at() == opposite(fes(v.fft_point@).drop_last()) + mid
    &&& is_quotient(c.input.eval.fe(), v.fft_claims@[0].fe(), fsub(fone(), v.fft_point@.last().fe()))
}

/// `r` is what the checks of the proof give, but for those of the sums: the claims that it leaves behind, or the first
/// check that fails.
pub open spec fn is_checked(
    r: Result<ConvClaims, ConvError>,
    ctx: &ConvCtx,
    last: &Claim,
    v: &ConvProofValues,
    rand: Seq<GoldilocksExt2>,
) -> bool {
    let n2 = (ctx.nw * ctx.nw) as nat;
    let hp = fes(v.hadamard_point@);
    let steps = v.ifft_delegation.points@.len() == ctx.delegation_ifft@.len();
    let a = steps && inverse_delegation_ok(ctx, v, last);
    let b = a && beta_holds(v);
    let c = b && v.fft_delegation.points@.len() == ctx.delegation_fft@.len();
    let d = c && input_delegation_ok(v);
    let w = d && weight_delegation_ok(v);
    match r {
        Ok(claims) => {
            &&& w
            &&& weights_hold(ctx, v)
            &&& are_left(
                &claims,
                v,
                rand,
                (hp + last.at().skip(flog2(n2) as int)).skip(flog2(2 * n2) as int),
                last.at().skip(v.ifft_delegation.points@.len() as int),
                hp.skip(flog2(2 * n2) as int),
            )
        },
        Err(e) => {
            ||| e == ConvError::InverseDelegationSteps && !steps
            ||| e == ConvError::InverseDelegation && steps && !a
            ||| e == ConvError::Beta && a && !b
            ||| e == ConvError::DelegationSteps && b && !c
            ||| e == ConvError::Delegation && c && !d
            ||| e == ConvError::WeightDelegation && d && !w
            ||| e == ConvError::Weights && w && !weights_hold(ctx, v)
        },
    }
}

/// The values have the numbers of entries that the checks read, where there are `challenges` challenges of the weights.
pub open spec fn values_fit(ctx: &ConvCtx, v: &ConvProofValues, last: &Claim, challenges: nat) -> bool {
    let n = ctx.nw as int;
    &&& v.fft_delegation.fits()
    &&& v.weights_delegation.fits()
    &&& v.ifft_delegation.fits()
    &&& v.fft_claims@.len() >= 2
    &&& v.fft_weight_claims@.len() >= 2
    &&& v.ifft_claims@.len() >= 2
    &&& v.hadamard_claims@.len() >= 3
    &&& v.fft_point@.len() > 0
    &&& v.ifft_point@.len() > 0
    &&& v.hadamard_point@.len() > v.fft_delegation.points@.len()
    &&& v.hadamard_point@.len() > v.weights_delegation.points@.len()
    &&& last.point@.len() >= v.ifft_delegation.points@.len()
    &&& fsub(fone(), v.fft_point@.last().fe()) != fzero()
    &&& fsub(fone(), v.weights_point@.last().fe()) != fzero()
    &&& 0 < n * n
    &&& 2 * (n * n) <= usize::MAX
    &&& ctx.filter_size == n * n
    &&& 1 <= ctx.real_nw <= n
    &&& v.weights_point@.len() == 2 * flog2(n as nat) + 1
    &&& v.partial_evals@.len() == ctx.real_nw * ctx.real_nw
    &&& v.partial_evals@.len() == pow2(challenges)
    &&& last.point@.len() >= flog2((n * n) as nat)
    &&& v.hadamard_point@.len() >= flog2((2 * (n * n)) as nat)
}

/// The claim of the mixed weights is the sum of their products with the corner polynomials of their places.
pub open spec fn weights_hold(ctx: &ConvCtx, v: &ConvProofValues) -> bool {
    let p = fes(v.weights_point@);
    v.fft_weight_claims@[0].fe() == fmul(
        laid_out_sum(fes(v.partial_evals@), ctx.real_nw as int, ctx.nw as int, p.drop_last()),
        fsub(fone(), p.last()),
    )
}

/// The value of the corner polynomials is that of the identity polynomial of the two points.
pub open spec fn beta_holds(v: &ConvProofValues) -> bool {
    let (a, b) = (fes(v.ifft_point@), fes(v.hadamard_point@));
    v.hadamard_claims@[2].fe() == identity_at(a, b, common_len(a, b))
}

/// The checks before the given one hold.
pub open spec fn inverse_delegation_ok(ctx: &ConvCtx, v: &ConvProofValues, last: &Claim) -> bool {
    inverse_delegation_holds(
        &v.ifft_delegation,
        v.ifft_claims@[1].fe(),
        fes(v.ifft_point@),
        opposite(last.at()),
        step_roots(v.ifft_delegation.points@.len(), true),
    )
}

pub open spec fn input_delegation_ok(v: &ConvProofValues) -> bool {
    delegation_holds(
        &v.fft_delegation,
        v.fft_claims@[1].fe(),
        fes(v.fft_point@),
        fes(v.hadamard_point@),
        step_roots(v.fft_delegation.points@.len(), false),
    )
}

pub open spec fn weight_delegation_ok(v: &ConvProofValues) -> bool {
    delegation_holds(
        &v.weights_delegation,
        v.fft_weight_claims@[1].fe(),
        fes(v.weights_point@),
        fes(v.hadamard_point@),
        step_roots(v.weights_delegation.points@.len(), false),
    )
}

/// The claim on the cleared output, carried over to the output of the transform, and the tensor that clears it.
#[derive(Debug)]
pub struct ClearingClaim {
    pub claim: Claim,
    pub clearing_tensor: Tensor<Element>,
    /// The number of entries of the output of the transform.
    pub len: usize,
}

/// The shape of the output before padding.
pub open spec fn valid_shape(ctx: &ConvCtx, us: Seq<usize>) -> Seq<usize> {
    let f = ctx.unpadded_filter_shape@;
    let (ph, pw) = ctx.frame();
    let (sh, sw) = ctx.steps();
    seq![f[0], out_height(us, f, ph, sh) as usize, out_width(us, f, pw, sw) as usize]
}

/// The shape of the output that the claim speaks of.
pub open spec fn claimed_shape(ctx: &ConvCtx, ps: Seq<usize>) -> Seq<usize> {
    let f = ctx.padded_filter_shape@;
    let (ph, pw) = ctx.frame();
    let (sh, sw) = ctx.steps();
    seq![
        npot(f[0] as nat) as usize,
        npot(out_height(ps, f, ph, sh) as nat) as usize,
        npot(out_width(ps, f, pw, sw) as nat) as usize,
    ]
}

/// The shape of the output of the transform.
pub open spec fn full_shape(ctx: &ConvCtx, us: Seq<usize>, ps: Seq<usize>) -> Seq<usize> {
    let s = claimed_shape(ctx, ps);
    if ctx.steps().0 == 1 {
        s
    } else {
        let n = npot((us[1] + 2 * ctx.frame().0) as nat) as usize;
        seq![s[0], n, n]
    }
}

/// What `clearing_claim` asks of the shapes and the claim.
pub open spec fn clearing_ok(ctx: &ConvCtx, us: Seq<usize>, ps: Seq<usize>, last: &Claim) -> bool {
    let (ph, pw) = ctx.frame();
    let (sh, sw) = ctx.steps();
    let s = claimed_shape(ctx, ps);
    let full = full_shape(ctx, us, ps);
    &&& sh == sw
    &&& sh > 0
    &&& conv_shape_ok(us, ctx.unpadded_filter_shape@, ph, pw, sh, sw)
    &&& conv_shape_ok(ps, ctx.padded_filter_shape@, ph, pw, sh, sw)
    &&& conv_shape_pads(ps, ctx.padded_filter_shape@, ph, pw, sh, sw)
    &&& prod(full) <= usize::MAX
    &&& sh > 1 ==> {
        &&& us[1] + 2 * ph <= usize::MAX
        &&& npot((us[1] + 2 * ph) as nat) <= usize::MAX
        &&& flog2(s[1] as nat) + flog2(sh as nat) <= flog2(full[1] as nat)
        &&& flog2(s[2] as nat) + flog2(sh as nat) <= flog2(full[1] as nat)
        &&& last.point@.len() == flog2(s[2] as nat) + flog2(s[1] as nat) + flog2(s[0] as nat)
    }
}

/// `r` is the claim on the output carried over to the output of the transform, with the tensor that clears it; it fails
/// where there is not one input.
pub open spec fn is_clearing_claim(
    r: Result<ClearingClaim, ConvError>,
    ctx: &ConvCtx,
    last: &Claim,
    step: &ShapeStep,
) -> bool {
    match r {
        Err(e) => {
            ||| e == ConvError::UnpaddedInputs && step.unpadded_input_shape@.len() != 1
            ||| {
                &&& e == ConvError::PaddedInputs
                &&& step.unpadded_input_shape@.len() == 1
                &&& step.padded_input_shape@.len() != 1
            }
        },
        Ok(c) => {
            let us = step.unpadded_input_shape@[0]@;
            let ps = step.padded_input_shape@[0]@;
            let s = claimed_shape(ctx, ps);
            let full = full_shape(ctx, us, ps);
            &&& step.unpadded_input_shape@.len() == 1
            &&& step.padded_input_shape@.len() == 1
            &&& is_clearing_tensor(&c.clearing_tensor, full, valid_shape(ctx, us), ctx.steps().0)
            &&& c.len == prod(full)
            &&& c.claim.eval == last.eval
            &&& c.claim.at() == (if ctx.steps().0 == 1 {
                last.at()
            } else {
                expanded(
                    last.at(),
                    flog2(s[2] as nat),
                    flog2(s[1] as nat),
                    flog2(ctx.steps().0 as nat),
                    flog2(full[1] as nat),
                )
            })
        },
    }
}

/// The values of the levels that the steps of a delegation start from.
pub open spec fn step_claims(d: &DelegationValues, start: Fe) -> Seq<Fe> {
    Seq::new(d.points@.len(), |i: int| claim_before(d.values(), start, i))
}

/// The sums that the proof shows, in the order in which they are shown: that of the inverse transform and its
/// delegation, that of the products of transforms, that of the transform of the input and its delegation, and
/// that of the transform of the weights and its delegation.
pub open spec fn shown_sums(v: &ConvProofValues, last: Fe) -> Seq<Fe> {
    seq![fsub(last, v.bias_claim.fe())] + step_claims(&v.ifft_delegation, v.ifft_claims@[1].fe()) + seq![
        v.ifft_claims@[0].fe(),
        v.hadamard_claims@[1].fe(),
    ] + step_claims(&v.fft_delegation, v.fft_claims@[1].fe()) + seq![v.hadamard_claims@[0].fe()] + step_claims(
        &v.weights_delegation,
        v.fft_weight_claims@[1].fe(),
    )
}

/// Appends the values of the levels that the steps of a delegation start from.
fn push_step_claims(r: &mut Vec<GoldilocksExt2>, d: &DelegationValues, start: &GoldilocksExt2)
    requires
        d.fits(),
    ensures
        fes(final(r)@) == fes(old(r)@) + step_claims(d, start.fe()),
{
    let mut levels = d.level_claims(start);
    let ghost before = r@;
    let _ = levels.pop();
    let ghost lv = levels@;
    r.append(&mut levels);
    proof {
        assert(fes(lv) =~= step_claims(d, start.fe()));
        assert(fes(r@) =~= fes(before) + fes(lv));
    }
}

/// The sums that the proof shows, in the order in which they are shown.
pub fn sumcheck_claims(proof: &ConvProofValues, last_eval: &GoldilocksExt2) -> (r: Vec<GoldilocksExt2>)
    requires
        proof.ifft_delegation.fits(),
        proof.fft_delegation.fits(),
        proof.weights_delegation.fits(),
        proof.ifft_claims@.len() >= 2,
        proof.fft_claims@.len() >= 2,
        proof.fft_weight_claims@.len() >= 2,
        proof.hadamard_claims@.len() >= 2,
    ensures
        fes(r@) == shown_sums(proof, last_eval.fe()),
{
    let mut r: Vec<GoldilocksExt2> = vec![last_eval.minus(&proof.bias_claim)];
    let ghost s0 = fes(r@);
    push_step_claims(&mut r, &proof.ifft_delegation, &proof.ifft_claims[1]);
    let ghost s1 = fes(r@);
    r.push(proof.ifft_claims[0]);
    r.push(proof.hadamard_claims[1]);
    let ghost s2 = fes(r@);
    push_step_claims(&mut r, &proof.fft_delegation, &proof.fft_claims[1]);
    let ghost s3 = fes(r@);
    r.push(proof.hadamard_claims[0]);
    let ghost s4 = fes(r@);
    push_step_claims(&mut r, &proof.weights_delegation, &proof.fft_weight_claims[1]);
    proof {
        assert(s0 =~= seq![fsub(last_eval.fe(), proof.bias_claim.fe())]);
        assert(s2 =~= s1 + seq![proof.ifft_claims@[0].fe(), proof.hadamard_claims@[1].fe()]);
        assert(s4 =~= s3 + seq![proof.hadamard_claims@[0].fe()]);
    }
    r
}

impl ConvCtx {
    /// Carries the claim on the output over to the output of the transform, and gives the tensor that clears it.
    pub fn clearing_claim(&self, last_claim: &Claim, shape_step: &ShapeStep) -> (r: Result<ClearingClaim, ConvError>)
        requires
            shape_step.unpadded_input_shape@.len() == 1 && shape_step.padded_input_shape@.len() == 1 ==> clearing_ok(
                self,
                shape_step.unpadded_input_shape@[0]@,
                shape_step.padded_input_shape@[0]@,
                last_claim,
            ),
        ensures
            is_clearing_claim(r, self, last_claim, shape_step),
    {
        if shape_step.unpadded_input_shape.len() != 1 {
            return Err(ConvError::UnpaddedInputs);
        }
        if shape_step.padded_input_shape.len() != 1 {
            return Err(ConvError::PaddedInputs);
        }
        let unpadded = &shape_step.unpadded_input_shape[0];
        let padded = &shape_step.padded_input_shape[0];
        let (ph, pw) = (self.input_padding[0], self.input_padding[1]);
        let (sh, sw) = (self.stride[0], self.stride[1]);
        let ghost us = unpadded@;
        let ghost ps = padded@;
        let ghost s = claimed_shape(self, ps);
        let ghost full = full_shape(self, us, ps);
        if sh == 1 {
            let unpadded_output_shape = conv2d_shape_with_padding(unpadded, &self.unpadded_filter_shape, ph, pw);
            let real_output_shape = padded_conv2d_shape_with_padding(padded, &self.padded_filter_shape, ph, pw);
            proof {
                assert(unpadded_output_shape@ =~= valid_shape(self, us));
                assert(real_output_shape@ =~= full);
                assert(no_batch(unpadded_output_shape@) == unpadded_output_shape@);
            }
            let clearing_tensor = new_clearing_tensor(&unpadded_output_shape, &real_output_shape);
            let len = real_output_shape.product();
            Ok(ClearingClaim { claim: last_claim.clone(), clearing_tensor, len })
        } else {
            let strided_valid_shape = conv2d_shape_with_padding_and_stride(
                unpadded,
                &self.unpadded_filter_shape,
                ph,
                pw,
                sh,
                sw,
            );
            let strided_pot_shape = padded_conv2d_shape_with_padding_and_stride(
                padded,
                &self.padded_filter_shape,
                ph,
                pw,
                sh,
                sw,
            );
            let (c_pot, h_s_pot, w_s_pot) = (
                strided_pot_shape.0[0],
                strided_pot_shape.0[1],
                strided_pot_shape.0[2],
            );
            let n_x = arith::next_power_of_two(unpadded.0[1] + 2 * ph);
            let dims: Vec<usize> = vec![c_pot, n_x, n_x];
            proof {
                assert(strided_valid_shape@ =~= valid_shape(self, us));
                assert(strided_pot_shape@ =~= s);
                assert(dims@ =~= full);
                assert(no_batch(strided_valid_shape@) == strided_valid_shape@);
                lemma_npot(self.padded_filter_shape@[0] as nat);
                lemma_npot(out_height(ps, self.padded_filter_shape@, ph as int, sh as int) as nat);
                lemma_npot(
                    out_width(ps, self.padded_filter_shape@, pw as int, sw as int) as nat,
                );
            }
            let full_padded_shape = Shape::new(dims);
            let r_full = expand_strided_point(&last_claim.point, c_pot, h_s_pot, w_s_pot, n_x, sh);
            let clearing_tensor = new_clearing_tensor_strided(&strided_valid_shape, &full_padded_shape, sh);
            let len = full_padded_shape.product();
            Ok(ClearingClaim { claim: Claim::new(r_full, last_claim.eval), clearing_tensor, len })
        }
    }

    /// The sum of the products of the mixed weights with the corner polynomials of their places.
    fn weights_sum(&self, partial_evals: &Vec<GoldilocksExt2>, point: &[GoldilocksExt2]) -> (r: GoldilocksExt2)
        requires
            1 <= self.real_nw <= self.nw,
            self.nw * self.nw <= usize::MAX,
            partial_evals@.len() == self.real_nw * self.real_nw,
            point@.len() == 2 * flog2(self.nw as nat),
        ensures
            r.fe() == laid_out_sum(fes(partial_evals@), self.real_nw as int, self.nw as int, fes(point@)),
    {
        let ghost p = fes(point@);
        let ghost w = fes(partial_evals@);
        let (f, n) = (self.real_nw, self.nw);
        let size: usize = partial_evals.len();
        let ghost g = |k: int| fmul(w[k], chi((k / (f as int)) * n + k % (f as int), p));
        let bitlen: usize = floor_log2(n) * 2;
        let mut acc = GoldilocksExt2::zero();
        let mut k: usize = 0;
        while k < size
            invariant
                k <= size,
                size == partial_evals@.len(),
                size == f * f,
                1 <= f <= n,
                n * n <= usize::MAX,
                bitlen == point@.len(),
                p == fes(point@),
                w == fes(partial_evals@),
                g == (|k: int| fmul(w[k], chi((k / (f as int)) * n + k % (f as int), p))),
                acc.fe() == fsum(k as nat, g),
            decreases size - k,
        {
            proof {
                arith::lemma_grid_split(k as int, f as int, f as int);
                arith::lemma_grid_bound(k as int / (f as int), n as int, k as int % (f as int), n as int);
                assert(0 <= (k as int / (f as int)) * n) by (nonlinear_arith)
                    requires
                        k as int / (f as int) >= 0,
                        n >= 0,
                ;
            }
            let i: usize = k / f;
            let j: usize = k % f;
            let b = to_bits(i * n + j, bitlen);
            let e = identity_eval(&b, point);
            proof {
                lemma_bits_len(i * n + j, bitlen as nat);
                assert(fes(b@).len() == b@.len());
                lemma_fes_canon(point@);
                law_identity_at_corner(i * n + j, p);
            }
            acc = acc.plus(&partial_evals[k].times(&e));
            k = k + 1;
        }
        acc
    }

    /// Checks everything of the proof but the sums, and gives the claims that it leaves behind. `last_claim` is
    /// the claim on the output of the transform with the bias.
    pub fn check_convolution(
        &self,
        last_claim: &Claim,
        proof: &ConvProofValues,
        weights_rand: &Vec<GoldilocksExt2>,
    ) -> (r: Result<ConvClaims, ConvError>)
        requires
            values_fit(self, proof, last_claim, weights_rand@.len()),
        ensures
            is_checked(r, self, last_claim, proof, weights_rand@),
    {
        if self.delegation_ifft.len() != proof.ifft_delegation.points.len() {
            return Err(ConvError::InverseDelegationSteps);
        }
        let rands = opposite_of(&last_claim.point);
        if !verify_ifft_delegation(&proof.ifft_delegation, &proof.ifft_claims[1], &proof.ifft_point, &rands) {
            return Err(ConvError::InverseDelegation);
        }
        let beta = identity_eval(&proof.ifft_point, &proof.hadamard_point);
        if !proof.hadamard_claims[2].same(&beta) {
            return Err(ConvError::Beta);
        }
        if self.delegation_fft.len() != proof.fft_delegation.points.len() {
            return Err(ConvError::DelegationSteps);
        }
        if !verify_fft_delegation(
            &proof.fft_delegation,
            &proof.fft_claims[1],
            &proof.fft_point,
            &proof.hadamard_point,
        ) {
            return Err(ConvError::Delegation);
        }
        if !verify_fft_delegation(
            &proof.weights_delegation,
            &proof.fft_weight_claims[1],
            &proof.weights_point,
            &proof.hadamard_point,
        ) {
            return Err(ConvError::WeightDelegation);
        }
        let last: usize = proof.weights_point.len() - 1;
        let wp = slice_subrange(proof.weights_point.as_slice(), 0, last);
        let c = complement(&proof.weights_point[last]);
        let v = c.inverse();
        let y_weights = self.weights_sum(&proof.partial_evals, wp);
        let claimed = proof.fft_weight_claims[0].times(&v);
        proof {
            let p = fes(proof.weights_point@);
            assert(fes(wp@) =~= p.drop_last());
            let (a, b, z) = (proof.fft_weight_claims@[0].fe(), y_weights.fe(), v.fe());
            lemma_fe_canon(proof.fft_weight_claims@[0]);
            lemma_fe_canon(y_weights);
            // a * z == b exactly where a == b * c, because c * z is one
            lemma_fmul_assoc(a, z, c.fe());
            lemma_fmul_assoc(b, c.fe(), z);
            lemma_fmul_comm(z, c.fe());
            lemma_fmul_one(a);
            lemma_fmul_one(b);
        }
        if !claimed.same(&y_weights) {
            return Err(ConvError::Weights);
        }
        let log_fs = floor_log2(self.filter_size);
        let log_len = floor_log2(2 * (self.nw * self.nw));
        let total: usize = last_claim.point.len();
        let mut point = copy_slice(&proof.hadamard_point);
        let ghost pt = point@;
        let mut rest = copy_slice(slice_subrange(last_claim.point.as_slice(), log_fs, total));
        let ghost hi = rest@;
        point.append(&mut rest);
        let end: usize = point.len();
        let kernel_point = slice_subrange(point.as_slice(), log_len, end);
        proof {
            assert(fes(hi) =~= last_claim.at().skip(log_fs as int));
            assert(fes(point@) =~= fes(pt) + fes(hi));
            assert(fes(kernel_point@) =~= fes(point@).skip(log_len as int));
        }
        let steps: usize = proof.ifft_delegation.points.len();
        let bias_point = copy_slice(slice_subrange(last_claim.point.as_slice(), steps, total));
        proof {
            assert(fes(bias_point@) =~= last_claim.at().skip(steps as int));
        }
        let filter = filter_claim(&proof.partial_evals, weights_rand, kernel_point);
        let bias = Claim::new(bias_point, proof.bias_claim);
        let input = input_claim(&proof.fft_point, &proof.hadamard_point, &proof.fft_claims[0], log_len);
        Ok(ConvClaims { filter, bias, input })
    }
}

/// One minus each coordinate.
fn opposite_of(p: &Vec<GoldilocksExt2>) -> (r: Vec<GoldilocksExt2>)
    ensures
        r@.len() == p@.len(),
        fes(r@) == opposite(fes(p@)),
{
    let mut r: Vec<GoldilocksExt2> = Vec::with_capacity(p.len());
    let mut i: usize = 0;
    while i < p.len()
        invariant
            i <= p@.len(),
            r@.len() == i,
            forall|j: int| 0 <= j < i ==> (#[trigger] r@[j]).fe() == fsub(fone(), p@[j].fe()),
        decreases p@.len() - i,
    {
        r.push(complement(&p[i]));
        i = i + 1;
    }
    proof {
        assert(fes(r@) =~= opposite(fes(p@)));
    }
    r
}

} // verus!
