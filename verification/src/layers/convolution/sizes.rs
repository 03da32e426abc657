//! Whether a proof of a convolution layer holds as many values as its checks read, and the sizes of its sums.
use crate::arith::{floor_log2, is_power_of_two, lemma_flog2_pow2};
use crate::field::{fone, fsub, fzero, GoldilocksExt2};
use crate::iop::Claim;
use crate::layers::convolution::context::ConvCtx;
use crate::layers::convolution::prove::filter_ok;
use crate::layers::convolution::stages::can_prove;
use crate::layers::convolution::verify::{values_fit, ConvProofValues, DelegationValues};
use crate::layers::convolution::Convolution;
use crate::mle::complement;
use crate::number::Element;
use crate::tensor::copy_slice;
use crate::tensor::fft_conv::ConvData;
use vstd::arithmetic::power2::pow2;
use vstd::prelude::*;

verus! {

impl DelegationValues {
    /// Are there three values for each of the points, each of which has a coordinate and not too many?
    pub fn has_sizes(&self) -> (r: bool)
        ensures
            r == self.fits(),
    {
        let k: usize = self.points.len();
        if k != self.claims.len() || k < 1 || k > 31 {
            return false;
        }
        let mut i: usize = 0;
        while i < k
            invariant
                i <= k,
                k == self.points@.len(),
                k == self.claims@.len(),
                forall|j: int| 0 <= j < i ==> 1 <= (#[trigger] self.points@[j])@.len() <= k,
                forall|j: int| 0 <= j < i ==> (#[trigger] self.claims@[j])@.len() >= 3,
            decreases k - i,
        {
            if self.points[i].len() < 1 || self.points[i].len() > k || self.claims[i].len() < 3 {
                proof {
                    let (p, c) = (self.points@[i as int], self.claims@[i as int]);
                    assert(p@.len() == p.len() && c@.len() == c.len());
                    assert(!self.fits());
                }
                return false;
            }
            i = i + 1;
        }
        true
    }
}

/// Does one minus the last coordinate have an inverse?
pub(crate) fn last_is_invertible(p: &Vec<GoldilocksExt2>) -> (r: bool)
    requires
        p@.len() > 0,
    ensures
        r == (fsub(fone(), p@.last().fe()) != fzero()),
{
    let last: usize = p.len() - 1;
    !complement(&p[last]).same(&GoldilocksExt2::zero())
}

impl ConvCtx {
    /// Does the proof hold as many values as its checks read, for the claim on the output of the transform and as
    /// many challenges of the weights, and can the checks divide by what they divide by?
    pub fn proof_fits(&self, proof: &ConvProofValues, last_claim: &Claim, challenges: usize) -> (r: bool)
        ensures
            r == values_fit(self, proof, last_claim, challenges as nat),
    {
        let n: usize = self.nw;
        let n2: usize = match n.checked_mul(n) {
            Some(x) => x,
            None => {
                return false;
            },
        };
        if n2 == 0 || n2 > usize::MAX / 2 || self.filter_size != n2 {
            return false;
        }
        if !(1 <= self.real_nw && self.real_nw <= n) {
            return false;
        }
        proof {
            let f = self.real_nw as int;
            assert(1 <= f * f <= n * n) by (nonlinear_arith)
                requires
                    1 <= f <= n,
            ;
        }
        let weights: usize = self.real_nw * self.real_nw;
        if proof.partial_evals.len() != weights || !is_power_of_two(weights) || floor_log2(weights)
            != challenges {
            proof {
                if weights == pow2(challenges as nat) {
                    lemma_flog2_pow2(challenges as nat);
                }
            }
            return false;
        }
        proof {
            let e = choose|e: nat| #[trigger] pow2(e) == weights;
            lemma_flog2_pow2(e);
            assert(n >= 1);
        }
        if !(proof.fft_delegation.has_sizes() && proof.weights_delegation.has_sizes()
            && proof.ifft_delegation.has_sizes()) {
            return false;
        }
        if proof.fft_claims.len() < 2 || proof.fft_weight_claims.len() < 2 || proof.ifft_claims.len() < 2
            || proof.hadamard_claims.len() < 3 {
            return false;
        }
        if proof.fft_point.len() == 0 || proof.ifft_point.len() == 0 || proof.weights_point.len() != 2 * floor_log2(n)
            + 1 {
            return false;
        }
        proof.hadamard_point.len() > proof.fft_delegation.points.len() && proof.hadamard_point.len()
            > proof.weights_delegation.points.len() && last_claim.point.len() >= proof.ifft_delegation.points.len()
            && last_claim.point.len() >= floor_log2(n2) && proof.hadamard_point.len() >= floor_log2(2 * n2)
            && last_is_invertible(&proof.fft_point) && last_is_invertible(&proof.weights_point)
    }

    /// The numbers of variables of the tables of every sum, in the order in which they are shown.
    pub fn sum_sizes(&self) -> (r: Vec<Vec<usize>>)
        ensures
            sizes(r@) == sizes_of_sums(self),
    {
        let mut r: Vec<Vec<usize>> = vec![copy_slice(&self.ifft_aux)];
        let ghost s0 = sizes(r@);
        push_sizes(&mut r, &self.delegation_ifft);
        let ghost s1 = sizes(r@);
        r.push(copy_slice(&self.hadamard));
        r.push(copy_slice(&self.fft_aux));
        let ghost s2 = sizes(r@);
        push_sizes(&mut r, &self.delegation_fft);
        let ghost s3 = sizes(r@);
        r.push(copy_slice(&self.fft_weights_aux));
        let ghost s4 = sizes(r@);
        push_sizes(&mut r, &self.delegation_fft_weights);
        proof {
            assert(s0 =~= seq![self.ifft_aux@]);
            assert(s2 =~= s1 + seq![self.hadamard@, self.fft_aux@]);
            assert(s4 =~= s3 + seq![self.fft_weights_aux@]);
        }
        r
    }
}

/// Have all rows the given length?
fn rows_have_len(v: &Vec<Vec<GoldilocksExt2>>, len: usize) -> (r: bool)
    ensures
        r == forall|i: int| 0 <= i < v@.len() ==> (#[trigger] v@[i])@.len() == len,
{
    let mut i: usize = 0;
    while i < v.len()
        invariant
            i <= v@.len(),
            forall|j: int| 0 <= j < i ==> (#[trigger] v@[j])@.len() == len,
        decreases v@.len() - i,
    {
        if v[i].len() != len {
            assert(v@[i as int]@.len() != len);
            return false;
        }
        i = i + 1;
    }
    true
}

impl Convolution<Element> {
    /// Can the filter be transformed?
    fn has_filter(&self) -> (r: bool)
        ensures
            r == filter_ok(&self.filter),
    {
        let filter = &self.filter;
        if filter.shape.0.len() != 4 || filter.og_shape.0.len() <= 2 {
            return false;
        }
        let (kw, kx, n, f) = (filter.shape.0[0], filter.shape.0[1], filter.shape.0[2], filter.og_shape.0[2]);
        if kw == 0 || kx == 0 || f < 1 || f > n {
            return false;
        }
        let n2: usize = match n.checked_mul(n) {
            Some(x) => x,
            None => {
                return false;
            },
        };
        if n2 > usize::MAX / 2 || 2 * n2 < 2 || (2 * n2) as u64 > 0x1_0000_0000u64 || !is_power_of_two(2 * n2) {
            return false;
        }
        proof {
            assert(1 <= f * f <= n * n) by (nonlinear_arith)
                requires
                    1 <= f <= n,
            ;
            assert(filter.data@.len() == filter.data.len());
            let (m, a) = (kw * kx, f * f);
            assert(m <= m * a) by (nonlinear_arith)
                requires
                    m >= 0,
                    a >= 1,
            ;
            assert(m >= 0) by (nonlinear_arith)
                requires
                    m == kw * kx,
                    kw > 0,
                    kx > 0,
            ;
        }
        let kernels: usize = match kw.checked_mul(kx) {
            Some(x) => x,
            None => {
                return false;
            },
        };
        let weights: usize = match kernels.checked_mul(f * f) {
            Some(x) => x,
            None => {
                return false;
            },
        };
        weights <= filter.data.len()
    }

    /// Do the layer, what it computed, and the claim on its output fit together?
    pub fn can_be_proved(&self, data: &ConvData, last: &Claim) -> (r: bool)
        ensures
            r == can_prove(self, data, last),
    {
        if !self.has_filter() {
            return false;
        }
        let (kw, kx, n) = (self.filter.shape.0[0], self.filter.shape.0[1], self.filter.shape.0[2]);
        if !is_power_of_two(kw) || !is_power_of_two(kx) {
            return false;
        }
        let n2: usize = n * n;
        let len: usize = 2 * n2;
        if kw.checked_mul(len).is_none() || kx.checked_mul(len).is_none() {
            return false;
        }
        let channels: usize = floor_log2(kw);
        proof {
            let e = choose|e: nat| #[trigger] pow2(e) == kw;
            lemma_flog2_pow2(e);
        }
        if last.point.len() != floor_log2(n2) + channels || (channels > 0 && self.bias.data.len() != kw) {
            return false;
        }
        data.prod.len() == kw && data.input.len() == kx && data.input_fft.len() == kx && rows_have_len(&data.prod, len)
            && rows_have_len(&data.input, n2) && rows_have_len(&data.input_fft, len)
    }
}

/// The sizes as sequences.
pub open spec fn sizes(v: Seq<Vec<usize>>) -> Seq<Seq<usize>> {
    v.map_values(|x: Vec<usize>| x@)
}

/// The numbers of variables of the tables of every sum, in the order in which they are shown.
pub open spec fn sizes_of_sums(ctx: &ConvCtx) -> Seq<Seq<usize>> {
    seq![ctx.ifft_aux@] + sizes(ctx.delegation_ifft@) + seq![ctx.hadamard@, ctx.fft_aux@] + sizes(ctx.delegation_fft@)
        + seq![ctx.fft_weights_aux@] + sizes(ctx.delegation_fft_weights@)
}

/// Appends sizes.
fn push_sizes(r: &mut Vec<Vec<usize>>, v: &Vec<Vec<usize>>)
    ensures
        sizes(final(r)@) == sizes(old(r)@) + sizes(v@),
{
    let ghost start = sizes(r@);
    let mut i: usize = 0;
    while i < v.len()
        invariant
            i <= v@.len(),
            sizes(r@) =~= start + sizes(v@).take(i as int),
        decreases v@.len() - i,
    {
        let ghost before = r@;
        r.push(copy_slice(&v[i]));
        proof {
            assert(sizes(r@) =~= sizes(before).push(v@[i as int]@));
            assert(sizes(v@).take(i + 1) =~= sizes(v@).take(i as int).push(v@[i as int]@));
        }
        i = i + 1;
    }
    proof {
        assert(sizes(v@).take(v@.len() as int) =~= sizes(v@));
    }
}

} // verus!
