//! What the proof of a convolution layer knows of it beforehand.
use crate::arith::{self, flog2, floor_log2, lemma_npot, npot};
use crate::fft::fes;
use crate::field::{fzero, Fe, GoldilocksExt2};
use crate::iop::context::{ContextAux, PolyId};
use crate::iop::Claim;
use crate::layers::convolution::clearing::lemma_idx3_split;
use crate::layers::convolution::input::{framed_dims, framed_entry, framed_input, framing_ok};
use crate::layers::convolution::shapes::{
    conv2d_shape_with_padding_and_stride, conv_shape_ok, conv_shape_pads, has_dims, out_height, out_width,
    padded_conv2d_shape_with_padding_and_stride,
};
use crate::layers::convolution::Convolution;
use crate::mle::{evaluate, mle_eval};
use crate::number::Element;
use crate::padding::PaddingMode;
use crate::shape::{lemma_prod_of_rank, Shape};
use crate::tensor::access::lemma_idx3;
use crate::tensor::pad::{all_pow2, npots, paddable, padded};
use crate::tensor::Tensor;
use vstd::arithmetic::power2::pow2;
use vstd::prelude::*;

verus! {

/// The context of a convolution layer. The sums that the proof shows are described by the numbers of
/// variables of their tables.
#[derive(Debug)]
pub struct ConvCtx {
    pub node_id: usize,
    pub fft_aux: Vec<usize>,
    pub fft_weights_aux: Vec<usize>,
    pub ifft_aux: Vec<usize>,
    pub delegation_fft: Vec<Vec<usize>>,
    pub delegation_fft_weights: Vec<Vec<usize>>,
    pub delegation_ifft: Vec<Vec<usize>>,
    pub hadamard: Vec<usize>,
    pub kw: usize,
    pub kx: usize,
    pub real_nw: usize,
    pub nw: usize,
    pub filter_size: usize,
    pub unpadded_filter_shape: Shape,
    pub padded_filter_shape: Shape,
    pub input_padding: [usize; 2],
    pub stride: [usize; 2],
    /// The shape of the input before padding; empty where it is not known.
    pub unpadded_input_shape: Shape,
}

/// The context of a convolution by its definition, of which nothing is proved.
#[derive(Debug, Clone, Copy, PartialEq, Eq, Structural)]
pub struct SchoolBookConvCtx;

/// The numbers of variables of the tables of the delegation of a row with `2^(n + 1)` entries: `n` steps,
/// with three tables each.
pub open spec fn is_delegation_aux(v: Seq<Vec<usize>>, n: nat) -> bool {
    &&& v.len() == n
    &&& forall|t: int| 0 <= t < n ==> (#[trigger] v[t])@ == seq![(n - t) as usize, (n - t) as usize, (n - t) as usize]
}

fn delegation_aux(n: usize) -> (r: Vec<Vec<usize>>)
    ensures
        is_delegation_aux(r@, n as nat),
{
    let mut r: Vec<Vec<usize>> = Vec::with_capacity(n);
    let mut t: usize = 0;
    while t < n
        invariant
            t <= n,
            r@.len() == t,
            forall|s: int|
                0 <= s < t ==> (#[trigger] r@[s])@ == seq![(n - s) as usize, (n - s) as usize, (n - s) as usize],
        decreases n - t,
    {
        let k: usize = n - t;
        let row: Vec<usize> = vec![k, k, k];
        proof {
            assert(row@ =~= seq![k, k, k]);
        }
        r.push(row);
        t = t + 1;
    }
    r
}

/// The shape of the input that the layer sees, where it is known.
pub open spec fn input_shape_of(aux: &ContextAux) -> Seq<usize> {
    if aux.last_unpadded_output_shape@.len() > 0 {
        aux.last_unpadded_output_shape@[0]@
    } else {
        Seq::empty()
    }
}

/// The side of the output that the next layer receives.
pub open spec fn handed_on_side(conv: &Convolution<Element>, us: Seq<usize>) -> nat {
    let s = conv.steps().0;
    let n = conv.filter.shape@[2] as int;
    if s <= 1 {
        n as nat
    } else if us.len() > 0 {
        npot(out_height(us, conv.unpadded_shape@, conv.frame().0, s) as nat)
    } else {
        npot((n / s) as nat)
    }
}

/// What `step_info` asks of the layer and the shapes.
pub open spec fn step_info_ok(conv: &Convolution<Element>, us: Seq<usize>) -> bool {
    let n = conv.filter.shape@[2] as int;
    let (s, t) = conv.steps();
    &&& conv.filter.shape@.len() == 4
    &&& 0 < n * n <= usize::MAX
    &&& 0 < conv.filter.shape@[1] * (n * n) <= usize::MAX
    &&& conv.filter.og_shape@.len() > 2
    &&& s == t
    &&& s > 0
    &&& handed_on_side(conv, us) <= usize::MAX
    &&& us.len() > 0 ==> conv_shape_ok(us, conv.unpadded_shape@, conv.frame().0, conv.frame().1, s, t)
    &&& all_pow2(conv.filter.shape@) || paddable(&conv.filter)
    &&& conv.bias.shape@.len() > 0
    &&& all_pow2(conv.bias.shape@) || paddable(&conv.bias)
}

/// The context belongs to the layer.
pub open spec fn is_ctx_of(ctx: &ConvCtx, conv: &Convolution<Element>, id: usize, us: Seq<usize>) -> bool {
    let n = conv.filter.shape@[2] as int;
    let l = flog2((n * n) as nat);
    let m = flog2((conv.filter.shape@[1] * (n * n)) as nat);
    &&& ctx.node_id == id
    &&& ctx.ifft_aux@ == seq![(l + 1) as usize, (l + 1) as usize]
    &&& ctx.fft_aux@ == seq![(l + 1) as usize, (l + 1) as usize]
    &&& ctx.fft_weights_aux@ == seq![(l + 1) as usize, (l + 1) as usize]
    &&& ctx.hadamard@ == seq![(m + 1) as usize, (m + 1) as usize, (m + 1) as usize]
    &&& is_delegation_aux(ctx.delegation_fft@, l)
    &&& is_delegation_aux(ctx.delegation_fft_weights@, l)
    &&& is_delegation_aux(ctx.delegation_ifft@, l)
    &&& ctx.kw == conv.filter.shape@[0]
    &&& ctx.kx == conv.filter.shape@[1]
    &&& ctx.nw == n
    &&& ctx.real_nw == conv.filter.og_shape@[2]
    &&& ctx.filter_size == n * n
    &&& ctx.unpadded_filter_shape@ == conv.unpadded_shape@
    &&& ctx.padded_filter_shape@ == conv.filter.og_shape@
    &&& ctx.input_padding == conv.input_padding
    &&& ctx.stride == conv.stride
    &&& ctx.unpadded_input_shape@ == us
}

/// What the layer hands on after `aux`: its context `ctx`, and in `next` the padded shape of its outputs, the shape before
/// padding where that of the input is known, and its filter and bias as polynomials.
pub open spec fn is_step_info(
    ctx: &ConvCtx,
    next: &ContextAux,
    conv: &Convolution<Element>,
    id: usize,
    aux: &ContextAux,
) -> bool {
    let us = input_shape_of(aux);
    let side = handed_on_side(conv, us) as int;
    let (ph, pw) = conv.frame();
    let (sh, sw) = conv.steps();
    &&& is_ctx_of(ctx, conv, id, us)
    &&& next.last_output_shape@.len() == aux.last_output_shape@.len()
    &&& forall|i: int|
        0 <= i < next.last_output_shape@.len() ==> has_dims(
            (#[trigger] next.last_output_shape@[i])@,
            conv.filter.shape@[0] as int,
            side,
            side,
        )
    &&& next.tables@ == aux.tables@
    &&& next.max_poly_len == aux.max_poly_len
    &&& us.len() == 0 ==> next.last_unpadded_output_shape@ == aux.last_unpadded_output_shape@
    &&& us.len() > 0 ==> {
        &&& next.last_unpadded_output_shape@.len() == 1
        &&& has_dims(
            next.last_unpadded_output_shape@[0]@,
            conv.unpadded_shape@[0] as int,
            out_height(us, conv.unpadded_shape@, ph, sh),
            out_width(us, conv.unpadded_shape@, pw, sw),
        )
    }
    &&& next.model_polys matches Some(polys) && {
        &&& polys@.len() == 2
        &&& polys@[0].0 == PolyId::ConvFilter
        &&& polys@[1].0 == PolyId::ConvBias
        &&& all_pow2(conv.filter.shape@) ==> polys@[0].1@ == conv.filter.data@
        &&& conv.filter.wf() ==> polys@[0].1@ == padded(
            conv.filter.data@,
            conv.filter.shape@,
            npots(conv.filter.shape@),
            0,
        )
        &&& all_pow2(conv.bias.shape@) ==> polys@[1].1@ == conv.bias.data@
        &&& conv.bias.wf() ==> polys@[1].1@ == padded(
            conv.bias.data@,
            conv.bias.shape@,
            npots(conv.bias.shape@),
            0,
        )
    }
}

impl Convolution<Element> {
    /// The context of the layer, and the shapes and polynomials that it hands on.
    pub fn step_info(&self, id: usize, aux: ContextAux) -> (r: (ConvCtx, ContextAux))
        requires
            step_info_ok(self, input_shape_of(&aux)),
        ensures
            is_step_info(&r.0, &r.1, self, id, &aux),
    {
        let ghost us = input_shape_of(&aux);
        let unpadded_input_shape: Shape = if aux.last_unpadded_output_shape.len() > 0 {
            aux.last_unpadded_output_shape[0].clone()
        } else {
            Shape(Vec::new())
        };
        proof {
            assert(unpadded_input_shape@ =~= us);
        }
        let (sh, sw) = (self.stride[0], self.stride[1]);
        let (ph, pw) = (self.input_padding[0], self.input_padding[1]);
        let known: bool = unpadded_input_shape.0.len() > 0;
        let mut unpadded_output_shape: Vec<Shape> = Vec::new();
        let mut side: usize = self.nw();
        if known {
            let strided_valid = conv2d_shape_with_padding_and_stride(
                &unpadded_input_shape,
                &self.unpadded_shape,
                ph,
                pw,
                sh,
                sw,
            );
            if sh > 1 {
                side = arith::next_power_of_two(strided_valid.0[1]);
            }
            unpadded_output_shape.push(strided_valid);
        } else {
            if sh > 1 {
                side = arith::next_power_of_two(side / sh);
            }
            unpadded_output_shape = aux.last_unpadded_output_shape;
        }
        let kw = self.kw();
        let count: usize = aux.last_output_shape.len();
        let mut last_output_shape: Vec<Shape> = Vec::with_capacity(count);
        let mut i: usize = 0;
        while i < count
            invariant
                i <= count,
                last_output_shape@.len() == i,
                forall|j: int|
                    0 <= j < i ==> has_dims(
                        (#[trigger] last_output_shape@[j])@,
                        kw as int,
                        side as int,
                        side as int,
                    ),
            decreases count - i,
        {
            last_output_shape.push(Shape::new(vec![kw, side, side]));
            i = i + 1;
        }
        let filter_size = self.filter_size();
        let l = floor_log2(filter_size);
        let kx = self.kx();
        let m = floor_log2(kx * filter_size);
        let two: usize = l + 1;
        let three: usize = m + 1;
        let ifft_aux: Vec<usize> = vec![two, two];
        let fft_aux: Vec<usize> = vec![two, two];
        let fft_weights_aux: Vec<usize> = vec![two, two];
        let hadamard: Vec<usize> = vec![three, three, three];
        proof {
            assert(ifft_aux@ =~= seq![two, two]);
            assert(fft_aux@ =~= seq![two, two]);
            assert(fft_weights_aux@ =~= seq![two, two]);
            assert(hadamard@ =~= seq![three, three, three]);
        }
        let ctx = ConvCtx {
            node_id: id,
            fft_aux,
            fft_weights_aux,
            ifft_aux,
            delegation_fft: delegation_aux(l),
            delegation_fft_weights: delegation_aux(l),
            delegation_ifft: delegation_aux(l),
            hadamard,
            kw,
            kx,
            real_nw: self.filter.real_nw(),
            nw: self.filter.nw(),
            filter_size,
            unpadded_filter_shape: self.unpadded_shape.clone(),
            padded_filter_shape: self.filter.real_shape(),
            input_padding: self.input_padding,
            stride: self.stride,
            unpadded_input_shape,
        };
        let filter_poly = self.filter.pad_next_power_of_two().get_data_into();
        let bias_poly = self.bias.pad_next_power_of_two().get_data_into();
        let mut polys: Vec<(PolyId, Vec<Element>)> = Vec::with_capacity(2);
        polys.push((PolyId::ConvFilter, filter_poly));
        polys.push((PolyId::ConvBias, bias_poly));
        (
            ctx,
            ContextAux {
                last_output_shape,
                last_unpadded_output_shape: unpadded_output_shape,
                model_polys: Some(polys),
                tables: aux.tables,
                max_poly_len: aux.max_poly_len,
            },
        )
    }
}

/// Why the claims on the inputs of a layer are rejected.
#[derive(Debug, Clone, Copy, PartialEq, Eq, Structural)]
pub enum InputClaimError {
    /// There are not as many claims as inputs.
    Count,
    /// The input is framed, but its shape before padding is not known.
    UnknownShape,
    /// The given input is not of rank three.
    Rank(usize),
    /// The given claim does not hold.
    Incorrect(usize),
}

impl ConvCtx {
    /// The number of lines and of columns that frame the input.
    pub open spec fn frame(self) -> (int, int) {
        (self.input_padding@[0] as int, self.input_padding@[1] as int)
    }

    /// The vertical and the horizontal stride.
    pub open spec fn steps(self) -> (int, int) {
        (self.stride@[0] as int, self.stride@[1] as int)
    }

    /// The shape of the filter that counts for the output: the one before padding, or the padded one.
    pub open spec fn counted_shape(self, padding_mode: PaddingMode) -> Seq<usize> {
        match padding_mode {
            PaddingMode::NoPadding => self.unpadded_filter_shape@,
            PaddingMode::Padding => self.padded_filter_shape@,
        }
    }

    /// The shape of the output for an input of the given shape.
    pub fn output_shape(&self, input_shape: &Shape, padding_mode: PaddingMode) -> (r: Shape)
        requires
            conv_shape_ok(
                input_shape@,
                self.counted_shape(padding_mode),
                self.frame().0,
                self.frame().1,
                self.steps().0,
                self.steps().1,
            ),
            padding_mode == PaddingMode::Padding ==> conv_shape_pads(
                input_shape@,
                self.counted_shape(padding_mode),
                self.frame().0,
                self.frame().1,
                self.steps().0,
                self.steps().1,
            ),
        ensures
            ({
                let f = self.counted_shape(padding_mode);
                let (ph, pw) = self.frame();
                let (sh, sw) = self.steps();
                let h = out_height(input_shape@, f, ph, sh);
                let w = out_width(input_shape@, f, pw, sw);
                match padding_mode {
                    PaddingMode::NoPadding => has_dims(r@, f[0] as int, h, w),
                    PaddingMode::Padding => has_dims(
                        r@,
                        npot(f[0] as nat) as int,
                        npot(h as nat) as int,
                        npot(w as nat) as int,
                    ),
                }
            }),
    {
        let (ph, pw) = (self.input_padding[0], self.input_padding[1]);
        let (sh, sw) = (self.stride[0], self.stride[1]);
        match padding_mode {
            PaddingMode::NoPadding => conv2d_shape_with_padding_and_stride(
                input_shape,
                &self.unpadded_filter_shape,
                ph,
                pw,
                sh,
                sw,
            ),
            PaddingMode::Padding => padded_conv2d_shape_with_padding_and_stride(
                input_shape,
                &self.padded_filter_shape,
                ph,
                pw,
                sh,
                sw,
            ),
        }
    }

    /// The table that a claim on an input speaks of: the input, or the input cut, framed and padded again.
    pub open spec fn claimed_table(self, input: &Tensor<GoldilocksExt2>) -> Seq<Fe> {
        let (ph, pw) = self.frame();
        if ph == 0 && pw == 0 {
            fes(input.data@)
        } else {
            framed_input(fes(input.data@), input.shape@, self.unpadded_input_shape@, ph, pw, fzero())
        }
    }

    /// The claim holds of the input.
    pub open spec fn claim_holds(self, input: &Tensor<GoldilocksExt2>, claim: &Claim) -> bool {
        claim.eval.fe() == mle_eval(self.claimed_table(input), claim.at())
    }

    /// The point of the claim has a coordinate for each variable of the table, and the input can be framed.
    pub open spec fn claim_fits(self, input: &Tensor<GoldilocksExt2>, claim: &Claim) -> bool {
        let (ph, pw) = self.frame();
        if ph == 0 && pw == 0 {
            input.data@.len() == pow2(claim.point@.len())
        } else if self.unpadded_input_shape@.len() > 0 && input.shape@.len() == 3 {
            &&& input.wf()
            &&& framing_ok(input.shape@, self.unpadded_input_shape@, ph, pw)
            &&& self.claimed_table(input).len() == pow2(claim.point@.len())
        } else {
            true
        }
    }

    /// The framed input.
    fn framed(&self, input: &Tensor<GoldilocksExt2>) -> (r: Vec<GoldilocksExt2>)
        requires
            input.wf(),
            framing_ok(input.shape@, self.unpadded_input_shape@, self.frame().0, self.frame().1),
        ensures
            fes(r@) == framed_input(
                fes(input.data@),
                input.shape@,
                self.unpadded_input_shape@,
                self.frame().0,
                self.frame().1,
                fzero(),
            ),
    {
        let (ph, pw) = (self.input_padding[0], self.input_padding[1]);
        let (c, h, w) = (
            self.unpadded_input_shape.0[0],
            self.unpadded_input_shape.0[1],
            self.unpadded_input_shape.0[2],
        );
        let (h_pot, w_pot) = (input.shape.0[1], input.shape.0[2]);
        let ghost us = self.unpadded_input_shape@;
        let ghost d = fes(input.data@);
        let ghost (cs, hs, ws) = framed_dims(us, ph as int, pw as int);
        proof {
            lemma_npot((h + 2 * ph) as nat);
            lemma_npot((w + 2 * pw) as nat);
            lemma_prod_of_rank(input.shape@);
        }
        let h_eff: usize = h + 2 * ph;
        let w_eff: usize = w + 2 * pw;
        let c_fft = arith::next_power_of_two(c);
        let h_fft = arith::next_power_of_two(h_eff);
        let w_fft = arith::next_power_of_two(w_eff);
        let plane: usize = h_fft * w_fft;
        let fft_len: usize = c_fft * plane;
        let total: usize = input.data.len();
        let mut data: Vec<GoldilocksExt2> = Vec::with_capacity(fft_len);
        let mut p: usize = 0;
        while p < fft_len
            invariant
                p <= fft_len,
                fft_len == c_fft * plane,
                plane == h_fft * w_fft,
                c_fft == cs,
                h_fft == hs,
                w_fft == ws,
                us == self.unpadded_input_shape@,
                us.len() == 3,
                c == us[0],
                h == us[1],
                w == us[2],
                h + 2 * ph == h_eff,
                w + 2 * pw == w_eff,
                input.shape@.len() == 3,
                h_pot == input.shape@[1],
                w_pot == input.shape@[2],
                c <= input.shape@[0],
                h <= h_pot,
                w <= w_pot,
                total == input.data@.len(),
                total == input.shape@[0] * (h_pot * w_pot),
                d == fes(input.data@),
                data@.len() == p,
                forall|q: int|
                    0 <= q < p ==> (#[trigger] data@[q]).fe() == framed_entry(
                        d,
                        input.shape@,
                        us,
                        ph as int,
                        pw as int,
                        fzero(),
                        q / (hs * ws),
                        (q % (hs * ws)) / ws,
                        (q % (hs * ws)) % ws,
                    ),
            decreases fft_len - p,
        {
            proof {
                lemma_idx3_split(cs, hs, ws, p as int);
            }
            let ci: usize = p / plane;
            let rest: usize = p % plane;
            let y: usize = rest / w_fft;
            let x: usize = rest % w_fft;
            if ci < c && ph <= y && y - ph < h && pw <= x && x - pw < w {
                let (hi, wi) = (y - ph, x - pw);
                proof {
                    lemma_idx3(
                        input.shape@[0] as int,
                        h_pot as int,
                        w_pot as int,
                        ci as int,
                        hi as int,
                        wi as int,
                    );
                    let (a, b, e) = (ci as int, h_pot * w_pot, input.shape@[0] as int);
                    assert(b <= e * b && 0 <= a * b <= e * b) by (nonlinear_arith)
                        requires
                            0 <= a < e,
                            b >= 0,
                    ;
                    assert(0 <= hi * w_pot) by (nonlinear_arith);
                }
                let src: usize = ci * (h_pot * w_pot) + (hi * w_pot + wi);
                data.push(input.data[src]);
            } else {
                data.push(GoldilocksExt2::zero());
            }
            p = p + 1;
        }
        proof {
            assert(fes(data@) =~= framed_input(d, input.shape@, us, ph as int, pw as int, fzero()));
        }
        data
    }

    /// Checks the claims on the inputs of the layer. The claim of a framed layer speaks of the framed input.
    pub fn verify_input_claim(&self, inputs: &Vec<Tensor<GoldilocksExt2>>, claims: &Vec<Claim>) -> (r: Result<
        (),
        InputClaimError,
    >)
        requires
            self.unpadded_input_shape@.len() == 0 || self.unpadded_input_shape@.len() == 3,
            forall|i: int|
                0 <= i < inputs@.len() && i < claims@.len() ==> self.claim_fits(
                    #[trigger] &inputs@[i],
                    &claims@[i],
                ),
        ensures
            ({
                let framed = self.frame() != (0int, 0int);
                let ok = |i: int|
                    {
                        &&& framed ==> inputs@[i].shape@.len() == 3
                        &&& self.claim_holds(&inputs@[i], &claims@[i])
                    };
                match r {
                    Ok(_) => {
                        &&& inputs@.len() == claims@.len()
                        &&& framed ==> self.unpadded_input_shape@.len() > 0
                        &&& forall|i: int| 0 <= i < inputs@.len() ==> #[trigger] ok(i)
                    },
                    Err(InputClaimError::Count) => inputs@.len() != claims@.len(),
                    Err(InputClaimError::UnknownShape) => {
                        &&& inputs@.len() == claims@.len()
                        &&& framed
                        &&& self.unpadded_input_shape@.len() == 0
                    },
                    Err(InputClaimError::Rank(i)) => {
                        &&& inputs@.len() == claims@.len()
                        &&& framed
                        &&& self.unpadded_input_shape@.len() > 0
                        &&& i < inputs@.len()
                        &&& inputs@[i as int].shape@.len() != 3
                        &&& forall|j: int| 0 <= j < i ==> #[trigger] ok(j)
                    },
                    Err(InputClaimError::Incorrect(i)) => {
                        &&& inputs@.len() == claims@.len()
                        &&& framed ==> self.unpadded_input_shape@.len() > 0
                        &&& i < inputs@.len()
                        &&& framed ==> inputs@[i as int].shape@.len() == 3
                        &&& !self.claim_holds(&inputs@[i as int], &claims@[i as int])
                        &&& forall|j: int| 0 <= j < i ==> #[trigger] ok(j)
                    },
                }
            }),
    {
        let (ph, pw) = (self.input_padding[0], self.input_padding[1]);
        let is_framed: bool = !(ph == 0 && pw == 0);
        let ghost framed = self.frame() != (0int, 0int);
        proof {
            assert(is_framed == framed);
        }
        if inputs.len() != claims.len() {
            return Err(InputClaimError::Count);
        }
        if is_framed && self.unpadded_input_shape.0.len() == 0 {
            return Err(InputClaimError::UnknownShape);
        }
        let ghost ok = |i: int|
            {
                &&& framed ==> inputs@[i].shape@.len() == 3
                &&& self.claim_holds(&inputs@[i], &claims@[i])
            };
        let mut i: usize = 0;
        while i < inputs.len()
            invariant
                i <= inputs@.len(),
                inputs@.len() == claims@.len(),
                is_framed == framed,
                framed == (self.frame() != (0int, 0int)),
                framed ==> self.unpadded_input_shape@.len() > 0,
                forall|i: int|
                    0 <= i < inputs@.len() && i < claims@.len() ==> self.claim_fits(
                        #[trigger] &inputs@[i],
                        &claims@[i],
                    ),
                ok == (|i: int|
                    {
                        &&& framed ==> inputs@[i].shape@.len() == 3
                        &&& self.claim_holds(&inputs@[i], &claims@[i])
                    }),
                forall|j: int| 0 <= j < i ==> #[trigger] ok(j),
            decreases inputs@.len() - i,
        {
            let input = &inputs[i];
            let claim = &claims[i];
            assert(self.claim_fits(&inputs@[i as int], &claims@[i as int]));
            let computed: GoldilocksExt2 = if is_framed {
                if input.shape.0.len() != 3 {
                    return Err(InputClaimError::Rank(i));
                }
                let data = self.framed(input);
                evaluate(&data, &claim.point)
            } else {
                evaluate(&input.data, &claim.point)
            };
            if !computed.same(&claim.eval) {
                return Err(InputClaimError::Incorrect(i));
            }
            proof {
                assert(ok(i as int));
            }
            i = i + 1;
        }
        Ok(())
    }
}

} // verus!
