//! Padding a convolution layer and applying it to quantised values.
use crate::algebra::root_of_unity;
use crate::arith::{self, clog2, lemma_npot, npot};
use crate::fft::{dft, fes};
use crate::field::fint;
use crate::layers::convolution::clearing::{
    clear_garbage, clear_garbage_strided, compact_ok, compact_strided, kept, lemma_strides_below, no_batch,
    strides_below,
};
use crate::layers::convolution::input::{frame_input, framed_dims, framed_input, framing_ok};
use crate::layers::convolution::shapes::{conv2d_shape, conv_shape_ok, has_dims, out_height, out_width};
use crate::layers::convolution::Convolution;
use crate::padding::conv::is_padded_conv;
use crate::number::Element;
use crate::shape::{lemma_prod_of_rank, nonzero, prod, Shape};
use crate::tensor::access::{dims4, idx3, lemma_idx3};
use crate::tensor::fft_conv::{
    chunks, conv_poly, fes2, fft_conv_fits, read_polys, reversed_chunk, zero_extended, ConvData,
};
use crate::tensor::pad::{npots, npots_fit};
use crate::tensor::Tensor;
use vstd::arithmetic::power2::{lemma2_to64, lemma2_to64_rest, lemma_pow2_strictly_increases, lemma_pow2_unfold, pow2};
use vstd::prelude::*;

verus! {

/// The shape of an input framed by `ph` lines and `pw` columns on each side.
pub open spec fn framed_shape(s: Seq<usize>, ph: int, pw: int) -> Seq<usize> {
    if ph == 0 && pw == 0 {
        s
    } else {
        seq![s[0], (s[1] + 2 * ph) as usize, (s[2] + 2 * pw) as usize]
    }
}

/// The framed shape stays within the machine's range.
pub open spec fn frame_fits(s: Seq<usize>, ph: int, pw: int) -> bool {
    ph == 0 && pw == 0 || {
        &&& s.len() == 3
        &&& s[1] + 2 * ph <= usize::MAX
        &&& s[2] + 2 * pw <= usize::MAX
    }
}

/// The input of the transform: the input as it is, or cut, framed and padded again.
pub open spec fn transform_input(
    d: Seq<Element>,
    s: Seq<usize>,
    us: Seq<usize>,
    ph: int,
    pw: int,
) -> Seq<Element> {
    if ph == 0 && pw == 0 {
        d
    } else {
        framed_input(d, s, us, ph, pw, 0)
    }
}

/// The number of rows of the input of the transform.
pub open spec fn transform_rows(s: Seq<usize>, us: Seq<usize>, ph: int, pw: int) -> int {
    if ph == 0 && pw == 0 {
        s[1] as int
    } else {
        framed_dims(us, ph, pw).1
    }
}

/// The convolution of `x` with the filter, as the transform gives it.
pub open spec fn raw_output(filter: &Tensor<Element>, x: Seq<Element>) -> Seq<Element> {
    let n = filter.shape@[2] as int;
    read_polys(
        Seq::new(
            filter.shape@[0] as nat,
            |i: int| conv_poly(x, filter.data@, filter.og_shape@[2] as int, filter.shape@[1] as int, n, i),
        ),
        n,
    )
}

/// Entry `p` of the convolution, with the bias of its channel.
pub open spec fn biased_at(conv: &Convolution<Element>, x: Seq<Element>, p: int) -> int {
    let n = conv.filter.shape@[2] as int;
    raw_output(&conv.filter, x)[p] + conv.bias.data@[p / (n * n)]
}

/// The number of lines and columns of the output of an input of shape `us`, without stride.
pub open spec fn full_sides(conv: &Convolution<Element>, us: Seq<usize>) -> (int, int) {
    let e = framed_shape(us, conv.frame().0, conv.frame().1);
    (out_height(e, conv.unpadded_shape@, 0, 1), out_width(e, conv.unpadded_shape@, 0, 1))
}

/// The number of lines and columns of the output of an input of shape `us`, with the stride.
pub open spec fn strided_sides(conv: &Convolution<Element>, us: Seq<usize>) -> (int, int) {
    let (h, w) = full_sides(conv, us);
    (strides_below(h, conv.steps().0), strides_below(w, conv.steps().0))
}

/// What `op` asks of the layer, the input and its shape before padding.
pub open spec fn op_ok(conv: &Convolution<Element>, input: &Tensor<Element>, us: Seq<usize>) -> bool {
    let (ph, pw) = conv.frame();
    let s = conv.steps().0;
    let x = transform_input(input.data@, input.shape@, us, ph, pw);
    let n = conv.filter.shape@[2] as int;
    let (h, w) = full_sides(conv, us);
    let (hs, ws) = strided_sides(conv, us);
    &&& s > 0
    &&& s == conv.steps().1
    &&& input.wf()
    &&& input.shape@.len() >= 2
    &&& frame_fits(us, ph, pw)
    &&& !(ph == 0 && pw == 0) ==> framing_ok(input.shape@, us, ph, pw)
    &&& fft_conv_fits(&conv.filter, transform_rows(input.shape@, us, ph, pw) as nat, x.len())
    &&& conv_shape_ok(framed_shape(us, ph, pw), conv.unpadded_shape@, 0, 0, 1, 1)
    &&& conv.bias.data@.len() >= conv.filter.shape@[0]
    &&& forall|p: int|
        0 <= p < conv.filter.shape@[0] * (n * n) ==> i64::MIN <= #[trigger] biased_at(conv, x, p) <= i64::MAX
    &&& s > 1 ==> {
        &&& conv.unpadded_shape@[0] <= conv.filter.shape@[0]
        &&& h <= n
        &&& w <= n
        &&& h + s <= usize::MAX
        &&& w + s <= usize::MAX
        &&& npot(conv.unpadded_shape@[0] as nat) <= usize::MAX
        &&& npot(hs as nat) * npot(ws as nat) <= usize::MAX
        &&& npot(conv.unpadded_shape@[0] as nat) * (npot(hs as nat) * npot(ws as nat)) <= usize::MAX
    }
}

/// Entry `(c, h, w)` of the output: that of the convolution at the place that the stride moves it to, where
/// there is an output, and zero elsewhere.
pub open spec fn op_at(
    conv: &Convolution<Element>,
    x: Seq<Element>,
    us: Seq<usize>,
    c: int,
    h: int,
    w: int,
) -> int {
    let s = conv.steps().0;
    let n = conv.filter.shape@[2] as int;
    let (hs, ws) = strided_sides(conv, us);
    if c < conv.unpadded_shape@[0] && h < hs && w < ws {
        biased_at(conv, x, idx3(n, n, c, h * s, w * s))
    } else {
        0
    }
}

/// The shape of the output: that of the convolution without stride, or the strided one, each dimension
/// rounded up to a power of two.
pub open spec fn op_dims(conv: &Convolution<Element>, us: Seq<usize>) -> (int, int, int) {
    let s = conv.steps().0;
    let n = conv.filter.shape@[2] as int;
    let (hs, ws) = strided_sides(conv, us);
    if s == 1 {
        (conv.filter.shape@[0] as int, n, n)
    } else {
        (npot(conv.unpadded_shape@[0] as nat) as int, npot(hs as nat) as int, npot(ws as nat) as int)
    }
}

/// `out` is the output of the layer for an input of the shape `us` before padding, and `data` is what its proof needs.
pub open spec fn is_op(
    out: &Tensor<Element>,
    data: &ConvData,
    conv: &Convolution<Element>,
    input: &Tensor<Element>,
    us: Seq<usize>,
) -> bool {
    let x = transform_input(input.data@, input.shape@, us, conv.frame().0, conv.frame().1);
    let d = op_dims(conv, us);
    &&& out.wf()
    &&& has_dims(out.shape@, d.0, d.1, d.2)
    &&& out.og_shape@ == seq![0usize]
    &&& forall|c: int, h: int, w: int|
        0 <= c < d.0 && 0 <= h < d.1 && 0 <= w < d.2 ==> #[trigger] out.data@[idx3(d.1, d.2, c, h, w)] == op_at(
            conv,
            x,
            us,
            c,
            h,
            w,
        )
    &&& is_conv_data(data, conv, x)
}

/// `data` holds what the layer computes from the input `x` of the transform: the input and its reversed channels, their
/// transforms, the sums of products, the polynomials of the output, and the output with the bias.
pub open spec fn is_conv_data(data: &ConvData, conv: &Convolution<Element>, x: Seq<Element>) -> bool {
    let filter = &conv.filter;
    let n = filter.shape@[2] as int;
    let len = (2 * (n * n)) as nat;
    let root = root_of_unity(clog2(len));
    let polys = Seq::new(
        filter.shape@[0] as nat,
        |i: int| conv_poly(x, filter.data@, filter.og_shape@[2] as int, filter.shape@[1] as int, n, i),
    );
    &&& data.output_as_element@.len() == filter.shape@[0] * (n * n)
    &&& forall|p: int|
        0 <= p < data.output_as_element@.len() ==> #[trigger] data.output_as_element@[p] == biased_at(conv, x, p)
    &&& fes2(data.output@) == polys
    &&& fes(data.real_input@) == x.map_values(|e: Element| fint(e as int))
    &&& data.input@.len() == chunks(x.len() as int, n * n)
    &&& data.input_fft@.len() == data.input@.len()
    &&& forall|j: int| 0 <= j < data.input@.len() ==> fes(#[trigger] data.input@[j]@) == reversed_chunk(x, n * n, j)
    &&& forall|j: int|
        0 <= j < data.input_fft@.len() ==> fes(#[trigger] data.input_fft@[j]@) == dft(
            zero_extended(reversed_chunk(x, n * n, j), len),
            root,
        )
    &&& data.prod@.len() == filter.shape@[0]
    &&& forall|i: int| 0 <= i < filter.shape@[0] ==> fes(#[trigger] data.prod@[i]@) == dft(polys[i], root)
}

/// The number of products that an output sums up.
pub open spec fn kernel_size(filter: &Tensor<Element>) -> int {
    let d = dims4(filter.shape@);
    d.2 * d.3 * d.1
}

/// The kernel is not too large to count its bits.
pub open spec fn range_ok(filter: &Tensor<Element>, bit_len: int) -> bool {
    &&& 0 < filter.shape@.len() <= 4
    &&& bit_len <= 64
    &&& dims4(filter.shape@).1 > 0
    &&& kernel_size(filter) < usize::MAX
}

proof fn lemma_kernel_size(h: int, w: int, c: int)
    requires
        0 <= h,
        0 <= w,
        0 < c,
    ensures
        0 <= h * w <= h * w * c,
{
    assert(0 <= h * w) by (nonlinear_arith)
        requires
            h >= 0,
            w >= 0,
    ;
    let a = h * w;
    assert(a <= a * c) by (nonlinear_arith)
        requires
            a >= 0,
            c >= 1,
    ;
}

impl Convolution<Element> {
    /// The shape of the framed input.
    pub fn effective_input_shape(&self, unpadded_input_shape: &Shape) -> (r: Shape)
        requires
            frame_fits(unpadded_input_shape@, self.frame().0, self.frame().1),
        ensures
            r@ == framed_shape(unpadded_input_shape@, self.frame().0, self.frame().1),
    {
        let (ph, pw) = (self.input_padding[0], self.input_padding[1]);
        if ph == 0 && pw == 0 {
            return unpadded_input_shape.clone();
        }
        let c: usize = unpadded_input_shape.0[0];
        let h: usize = unpadded_input_shape.0[1] + 2 * ph;
        let w: usize = unpadded_input_shape.0[2] + 2 * pw;
        let dims: Vec<usize> = vec![c, h, w];
        proof {
            assert(dims@ =~= framed_shape(unpadded_input_shape@, ph as int, pw as int));
        }
        Shape::new(dims)
    }

    /// Pads the filter and the bias with zeros until every dimension is a power of two, and prepares the
    /// filter for the Fourier transform.
    pub fn into_padded_and_ffted(self, unpadded_input_shape: &Shape) -> (r: Self)
        requires
            self.filter.wf(),
            self.filter.shape@.len() == 4,
            nonzero(self.filter.shape@),
            npots_fit(self.filter.shape@),
            prod(npots(self.filter.shape@)) <= usize::MAX,
            self.bias.wf(),
            self.bias.shape@.len() == 1,
            npots_fit(self.bias.shape@),
            frame_fits(unpadded_input_shape@, self.frame().0, self.frame().1),
            ({
                let e = framed_shape(unpadded_input_shape@, self.frame().0, self.frame().1);
                &&& e.len() > 1
                &&& npots_fit(e)
                &&& npot(self.filter.shape@[2] as nat) <= npot(e[1] as nat)
            }),
        ensures
            is_padded_conv(&r, &self, unpadded_input_shape@),
    {
        let ghost fs = self.filter.shape@;
        let ghost e = framed_shape(unpadded_input_shape@, self.frame().0, self.frame().1);
        proof {
            assert(npot(self.bias.shape@[0] as nat) <= usize::MAX);
            lemma_prod_of_rank(npots(self.bias.shape@));
        }
        let filter = self.filter.pad_next_power_of_two();
        let bias = self.bias.pad_next_power_of_two();
        let effective_shape = self.effective_input_shape(unpadded_input_shape);
        let padded_input_shape = effective_shape.next_power_of_two();
        proof {
            lemma_npot(fs[2] as nat);
            assert(npots(fs)[2] == npot(fs[2] as nat));
            assert(npot(e[1] as nat) <= usize::MAX);
            let d = (npot(e[1] as nat) - npot(fs[2] as nat) + 1) as nat;
            lemma_npot(e[1] as nat);
            arith::lemma_npot_monotone(d, npot(e[1] as nat));
            lemma_npot(npot(e[1] as nat));
        }
        let filter = filter.into_fft_conv(&padded_input_shape);
        Convolution {
            filter,
            bias,
            unpadded_shape: self.unpadded_shape,
            input_padding: self.input_padding,
            stride: self.stride,
        }
    }

    /// The least and the greatest value of an output, for values of `bit_len` bits.
    pub fn output_range(&self, _min_input: Element, _max_input: Element, bit_len: usize) -> (r: (Element, Element))
        requires
            range_ok(&self.filter, bit_len as int),
            2 * bit_len + clog2((kernel_size(&self.filter) + 1) as nat) <= 62,
        ensures
            r.1 == pow2((2 * bit_len + clog2((kernel_size(&self.filter) + 1) as nat)) as nat),
            r.0 == -r.1,
    {
        let (_k_n, k_c, k_h, k_w) = self.filter.get4d();
        proof {
            lemma_kernel_size(k_h as int, k_w as int, k_c as int);
        }
        let exp: usize = 2 * bit_len + arith::ceil_log2(k_h * k_w * k_c + 1);
        proof {
            lemma2_to64_rest();
            if exp < 62 {
                lemma_pow2_strictly_increases(exp as nat, 62);
            }
            assert(pow2(0) == 1) by {
                lemma2_to64();
            }
        }
        let mut max: Element = 1;
        let mut i: usize = 0;
        while i < exp
            invariant
                i <= exp,
                exp <= 62,
                pow2(62) == 0x4000000000000000,
                max == pow2(i as nat),
            decreases exp - i,
        {
            proof {
                lemma_pow2_unfold((i + 1) as nat);
                if i + 1 < 62 {
                    lemma_pow2_strictly_increases((i + 1) as nat, 62);
                }
            }
            max = max * 2;
            i = i + 1;
        }
        (-max, max)
    }

    /// The number of bits of an output, for values of `bit_len` bits.
    pub fn output_bitsize(&self, bit_len: usize) -> (r: usize)
        requires
            range_ok(&self.filter, bit_len as int),
            bit_len >= 1,
        ensures
            r == 2 * (bit_len - 1) + clog2((kernel_size(&self.filter) + 1) as nat),
    {
        let (_k_n, k_c, k_h, k_w) = self.filter.get4d();
        proof {
            lemma_kernel_size(k_h as int, k_w as int, k_c as int);
        }
        2 * (bit_len - 1) + arith::ceil_log2(k_h * k_w * k_c + 1)
    }

    /// Applies the layer to an input that is padded to powers of two, by Fourier transform, and clears or
    /// drops the entries that belong to no output. Gives the output and what its proof needs.
    #[verifier::spinoff_prover]
    #[verifier::rlimit(40)]
    pub fn op(&self, input: &Tensor<Element>, unpadded_input_shape: &Shape) -> (r: (Tensor<Element>, ConvData))
        requires
            op_ok(self, input, unpadded_input_shape@),
        ensures
            is_op(&r.0, &r.1, self, input, unpadded_input_shape@),
    {
        let (ph, pw) = (self.input_padding[0], self.input_padding[1]);
        let stride: usize = self.stride[0];
        let ghost us = unpadded_input_shape@;
        let ghost x = transform_input(input.data@, input.shape@, us, ph as int, pw as int);
        let ghost n = self.filter.shape@[2] as int;
        let fft_input: Tensor<Element> = if ph == 0 && pw == 0 {
            input.clone()
        } else {
            frame_input(input, unpadded_input_shape, ph, pw)
        };
        proof {
            assert(fft_input.data@ == x);
            assert(fft_input.shape@[1] == transform_rows(input.shape@, us, ph as int, pw as int));
        }
        let (output, mut proving_data) = self.filter.fft_conv(&fft_input);
        proof {
            lemma_prod_of_rank(output.shape@);
            assert(output.data@ == raw_output(&self.filter, x));
            assert forall|p: int| 0 <= p < output.data@.len() implies i64::MIN <= (#[trigger] output.data@[p])
                + self.bias.data@[p / (output.shape@[2] * output.shape@[2])] <= i64::MAX by {
                assert(i64::MIN <= biased_at(self, x, p) <= i64::MAX);
            }
        }
        let conv_output = self.add_bias(&output);
        proving_data.set_output(conv_output.get_data());
        let effective_unpadded_input = self.effective_input_shape(unpadded_input_shape);
        let full_unpadded_output_shape = conv2d_shape(&effective_unpadded_input, &self.unpadded_shape);
        let ghost fu = full_unpadded_output_shape@;
        let ghost (fh, fw) = full_sides(self, us);
        let ghost kw = self.filter.shape@[0] as int;
        proof {
            assert(fu[0] == self.unpadded_shape@[0] && fu[1] == fh && fu[2] == fw);
            assert(no_batch(fu) == fu);
            lemma_strides_below(fh, stride as int);
            lemma_strides_below(fw, stride as int);
            assert forall|p: int| 0 <= p < conv_output.data@.len() implies #[trigger] conv_output.data@[p]
                == biased_at(self, x, p) by {}
        }
        if stride == 1 {
            let cleared_tensor = clear_garbage(&conv_output, &full_unpadded_output_shape);
            proof {
                assert(strides_below(fh, 1) == fh && strides_below(fw, 1) == fw);
                assert forall|c: int, h: int, w: int| 0 <= c < kw && 0 <= h < n && 0 <= w < n implies
                    #[trigger] cleared_tensor.data@[idx3(n, n, c, h, w)] == op_at(self, x, us, c, h, w) by {
                    lemma_idx3(kw, n, n, c, h, w);
                    assert(h * 1 == h && w * 1 == w);
                    assert(h % 1 == 0 && w % 1 == 0);
                }
            }
            (cleared_tensor, proving_data)
        } else {
            let cleared_tensor = clear_garbage_strided(&conv_output, &full_unpadded_output_shape, stride);
            proof {
                let (hs, ws) = strided_sides(self, us);
                lemma_npot(hs as nat);
                lemma_npot(ws as nat);
                let (a, b) = (npot(hs as nat), npot(ws as nat));
                assert(a <= a * b && b <= a * b) by (nonlinear_arith)
                    requires
                        a >= 1,
                        b >= 1,
                ;
                assert(compact_ok(&cleared_tensor, fu, stride as int));
            }
            let strided_compact = compact_strided(&cleared_tensor, &full_unpadded_output_shape, stride);
            proof {
                let d = op_dims(self, us);
                let s = stride as int;
                let (hs, ws) = strided_sides(self, us);
                assert forall|c: int, h: int, w: int| 0 <= c < d.0 && 0 <= h < d.1 && 0 <= w < d.2 implies
                    #[trigger] strided_compact.data@[idx3(d.1, d.2, c, h, w)] == op_at(self, x, us, c, h, w) by {
                    if c < fu[0] && h < hs && w < ws {
                        assert(0 <= h * s < fh && 0 <= w * s < fw);
                        lemma_idx3(kw, n, n, c, h * s, w * s);
                        vstd::arithmetic::div_mod::lemma_mod_multiples_basic(h, s);
                        vstd::arithmetic::div_mod::lemma_mod_multiples_basic(w, s);
                        assert(kept(fu, s, c, h * s, w * s));
                        assert(cleared_tensor.data@[idx3(n, n, c, h * s, w * s)] == conv_output.data@[idx3(
                            n,
                            n,
                            c,
                            h * s,
                            w * s,
                        )]);
                    }
                }
            }
            (strided_compact, proving_data)
        }
    }
}

} // verus!
