//! What a convolution layer hands on to the next layer, held against what it computes.
use crate::arith::{flog2, is_pow2, lemma_flog2_pow2, lemma_npot, npot};
use crate::fft::fes;
use crate::iop::context::{ContextAux, PolyId};
use crate::layers::convolution::apply::{framed_shape, is_op, op_ok};
use crate::layers::convolution::clearing::lemma_strides_below;
use crate::layers::convolution::context::{input_shape_of, is_ctx_of, is_step_info, step_info_ok, ConvCtx};
use crate::layers::convolution::shapes::{height, kernel_width, law_strided_outputs, out_height, out_width, width};
use crate::layers::convolution::Convolution;
use crate::number::Element;
use crate::tensor::fft_conv::ConvData;
use crate::tensor::pad::all_pow2;
use crate::tensor::Tensor;
use vstd::arithmetic::power2::{lemma_pow2_adds, lemma_pow2_unfold, pow2};
use vstd::prelude::*;

verus! {

/// `p` is the least power of two that is at least `n`.
pub open spec fn is_least_power(p: int, n: int) -> bool {
    is_pow2(p) && n <= p < 2 * n
}

/// The number of outputs that keep their place with a stride is that of a frame and a stride at once.
proof fn lemma_sides(conv: &Convolution<Element>, input: &Tensor<Element>, us: Seq<usize>)
    requires
        op_ok(conv, input, us),
        us.len() >= 3,
    ensures
        crate::layers::convolution::apply::strided_sides(conv, us).0 == (height(us) + 2 * conv.frame().0
            - conv.unpadded_shape@[2]) / conv.steps().0 + 1,
        crate::layers::convolution::apply::strided_sides(conv, us).1 == (width(us) + 2 * conv.frame().1 - kernel_width(
            conv.unpadded_shape@,
        )) / conv.steps().0 + 1,
{
    let (ph, pw) = conv.frame();
    let s = conv.steps().0;
    let e = framed_shape(us, ph, pw);
    let f = conv.unpadded_shape@;
    let (h, w) = (out_height(e, f, 0, 1), out_width(e, f, 0, 1));
    assert(height(e) == height(us) + 2 * ph);
    assert(width(e) == width(us) + 2 * pw);
    assert((height(e) - f[2]) / 1 == height(e) - f[2]);
    assert((width(e) - kernel_width(f)) / 1 == width(e) - kernel_width(f));
    lemma_strides_below(h, s);
    lemma_strides_below(w, s);
}

/// The next layer is told the shape of what it receives: where the shape of the input before padding is known, every
/// shape that is handed on is that of the output of the layer. With a stride the layer is a padded one, and the two
/// sides of its output are the same after padding.
pub proof fn law_handed_on_shape_is_that_of_the_output(
    out: &Tensor<Element>,
    data: &ConvData,
    conv: &Convolution<Element>,
    input: &Tensor<Element>,
    ctx: &ConvCtx,
    next: &ContextAux,
    id: usize,
    aux: &ContextAux,
    i: int,
)
    requires
        step_info_ok(conv, input_shape_of(aux)),
        is_step_info(ctx, next, conv, id, aux),
        op_ok(conv, input, input_shape_of(aux)),
        is_op(out, data, conv, input, input_shape_of(aux)),
        aux.last_unpadded_output_shape@.len() > 0,
        input_shape_of(aux).len() > 0,
        0 <= i < aux.last_output_shape@.len(),
        conv.steps().0 > 1 ==> {
            let us = input_shape_of(aux);
            let f = conv.unpadded_shape@;
            &&& conv.filter.shape@[0] == npot(f[0] as nat)
            &&& npot(out_height(us, f, conv.frame().0, conv.steps().0) as nat) == npot(
                out_width(us, f, conv.frame().1, conv.steps().1) as nat,
            )
        },
    ensures
        next.last_output_shape@.len() == aux.last_output_shape@.len(),
        next.last_output_shape@[i]@ == out.shape@,
{
    let us = input_shape_of(aux);
    lemma_sides(conv, input, us);
    assert(next.last_output_shape@[i]@ =~= out.shape@);
}

/// The channels and the lines that are handed on are those of the output, whatever its columns are.
pub proof fn law_handed_on_lines_are_those_of_the_output(
    out: &Tensor<Element>,
    data: &ConvData,
    conv: &Convolution<Element>,
    input: &Tensor<Element>,
    ctx: &ConvCtx,
    next: &ContextAux,
    id: usize,
    aux: &ContextAux,
    i: int,
)
    requires
        step_info_ok(conv, input_shape_of(aux)),
        is_step_info(ctx, next, conv, id, aux),
        op_ok(conv, input, input_shape_of(aux)),
        is_op(out, data, conv, input, input_shape_of(aux)),
        input_shape_of(aux).len() > 0,
        0 <= i < aux.last_output_shape@.len(),
        conv.steps().0 > 1 ==> conv.filter.shape@[0] == npot(conv.unpadded_shape@[0] as nat),
    ensures
        next.last_output_shape@[i]@.len() == 3,
        out.shape@.len() == 3,
        next.last_output_shape@[i]@[0] == out.shape@[0],
        next.last_output_shape@[i]@[1] == out.shape@[1],
{
    lemma_sides(conv, input, input_shape_of(aux));
}

/// With a stride, each side that is handed on is the least power of two that reaches the number of places of the
/// kernel on the framed input.
pub proof fn law_handed_on_side(
    conv: &Convolution<Element>,
    ctx: &ConvCtx,
    next: &ContextAux,
    id: usize,
    aux: &ContextAux,
    i: int,
)
    requires
        step_info_ok(conv, input_shape_of(aux)),
        is_step_info(ctx, next, conv, id, aux),
        input_shape_of(aux).len() == 3,
        conv.steps().0 > 1,
        0 <= i < aux.last_output_shape@.len(),
    ensures
        ({
            let us = input_shape_of(aux);
            let places = (us[1] + 2 * conv.input_padding@[0] - conv.unpadded_shape@[2]) / (conv.stride@[0] as int) + 1;
            &&& next.last_output_shape@[i]@.len() == 3
            &&& is_least_power(next.last_output_shape@[i]@[1] as int, places)
            &&& is_least_power(next.last_output_shape@[i]@[2] as int, places)
        }),
{
    let us = input_shape_of(aux);
    let m = us[1] + 2 * conv.input_padding@[0] - conv.unpadded_shape@[2];
    let s = conv.stride@[0] as int;
    assert(m / s >= 0) by {
        vstd::arithmetic::div_mod::lemma_div_pos_is_pos(m, s);
    }
    lemma_npot((m / s + 1) as nat);
}

/// The shape before padding counts the places of the kernel: there is a line `j` of the output exactly where the kernel
/// that starts at line `j * stride` ends within the framed input, and the same holds of the columns; there is a channel
/// for each filter.
pub proof fn law_handed_on_places(
    conv: &Convolution<Element>,
    ctx: &ConvCtx,
    next: &ContextAux,
    id: usize,
    aux: &ContextAux,
    j: int,
)
    requires
        step_info_ok(conv, input_shape_of(aux)),
        is_step_info(ctx, next, conv, id, aux),
        input_shape_of(aux).len() == 3,
        conv.unpadded_shape@.len() == 4,
        0 <= j,
    ensures
        ({
            let us = input_shape_of(aux);
            let r = next.last_unpadded_output_shape@[0]@;
            &&& next.last_unpadded_output_shape@.len() == 1
            &&& r.len() == 3
            &&& r[0] == conv.unpadded_shape@[0]
            &&& j < r[1] <==> j * conv.stride@[0] + conv.unpadded_shape@[2] <= us[1] + 2 * conv.input_padding@[0]
            &&& j < r[2] <==> j * conv.stride@[1] + conv.unpadded_shape@[3] <= us[2] + 2 * conv.input_padding@[1]
        }),
{
    let us = input_shape_of(aux);
    let f = conv.unpadded_shape@;
    let (ph, pw) = conv.frame();
    let (sh, sw) = conv.steps();
    law_strided_outputs(us[1] as int, f[2] as int, ph, sh, j);
    law_strided_outputs(us[2] as int, f[3] as int, pw, sw, j);
    assert((us[1] + 2 * ph - f[2]) / 1 == us[1] + 2 * ph - f[2]);
    assert((us[2] + 2 * pw - f[3]) / 1 == us[2] + 2 * pw - f[3]);
}

/// With a stride, the shape that is handed on is the one before padding, rounded up to powers of two, for a padded
/// layer whose output has sides of the same padded length.
pub proof fn law_handed_on_shapes_agree(
    conv: &Convolution<Element>,
    ctx: &ConvCtx,
    next: &ContextAux,
    id: usize,
    aux: &ContextAux,
    i: int,
    k: int,
)
    requires
        step_info_ok(conv, input_shape_of(aux)),
        is_step_info(ctx, next, conv, id, aux),
        input_shape_of(aux).len() > 0,
        conv.steps().0 > 1,
        conv.unpadded_shape@[0] >= 1,
        is_least_power(conv.filter.shape@[0] as int, conv.unpadded_shape@[0] as int),
        0 <= i < aux.last_output_shape@.len(),
        0 <= k < 2,
    ensures
        is_least_power(next.last_output_shape@[i]@[k] as int, next.last_unpadded_output_shape@[0]@[k] as int),
{
    let us = input_shape_of(aux);
    let m = height(us) + 2 * conv.frame().0 - conv.unpadded_shape@[2];
    vstd::arithmetic::div_mod::lemma_div_pos_is_pos(m, conv.steps().0);
    lemma_npot(next.last_unpadded_output_shape@[0]@[1] as nat);
}

/// The filter and the bias of a padded layer are committed to as they are, each under a name of its own, and nothing
/// else is; the tables and the length of the longest polynomial are those of the layers before.
pub proof fn law_handed_on_polynomials(
    conv: &Convolution<Element>,
    ctx: &ConvCtx,
    next: &ContextAux,
    id: usize,
    aux: &ContextAux,
)
    requires
        is_step_info(ctx, next, conv, id, aux),
        all_pow2(conv.filter.shape@),
        all_pow2(conv.bias.shape@),
    ensures
        next.model_polys matches Some(polys) && {
            &&& polys@.len() == 2
            &&& polys@[0].0 == PolyId::ConvFilter && polys@[0].1@ == conv.filter.data@
            &&& polys@[1].0 == PolyId::ConvBias && polys@[1].1@ == conv.bias.data@
        },
        next.tables@ == aux.tables@,
        next.max_poly_len == aux.max_poly_len,
        ctx.node_id == id,
{
}

/// Without a stride, and where the shape of the input is not known, the side that is handed on depends on the padded
/// side alone: it is that side, or the least power of two that reaches its part.
pub proof fn law_handed_on_side_of_the_padded_layer(
    conv: &Convolution<Element>,
    ctx: &ConvCtx,
    next: &ContextAux,
    id: usize,
    aux: &ContextAux,
    i: int,
)
    requires
        step_info_ok(conv, input_shape_of(aux)),
        is_step_info(ctx, next, conv, id, aux),
        0 <= i < aux.last_output_shape@.len(),
    ensures
        next.last_output_shape@[i]@.len() == 3,
        next.last_output_shape@[i]@[0] == conv.filter.shape@[0],
        next.last_output_shape@[i]@[1] == next.last_output_shape@[i]@[2],
        conv.steps().0 == 1 ==> next.last_output_shape@[i]@[1] == conv.filter.shape@[2],
        conv.steps().0 > 1 && input_shape_of(aux).len() == 0 && conv.filter.shape@[2] >= conv.steps().0
            ==> is_least_power(next.last_output_shape@[i]@[1] as int, conv.filter.shape@[2] as int / conv.steps().0),
{
    let (n, s) = (conv.filter.shape@[2] as int, conv.steps().0);
    if s > 1 && n >= s {
        assert(n / s >= 1) by {
            vstd::arithmetic::div_mod::lemma_div_non_zero(n, s);
        }
        lemma_npot((n / s) as nat);
    }
}

/// The logarithm of a number is less than the number.
proof fn lemma_flog2_below(n: nat)
    requires
        n >= 1,
    ensures
        flog2(n) < n,
    decreases n,
{
    if n > 1 {
        lemma_flog2_below(n / 2);
    }
}

/// The sums that are shown of the transforms go over all entries of a row, which is twice as long as a padded plane,
/// and that of the products over the rows of all channels; what is delegated of a row takes a step for each of its
/// variables but one.
pub proof fn law_context_counts_variables(
    data: &ConvData,
    conv: &Convolution<Element>,
    input: &Tensor<Element>,
    out: &Tensor<Element>,
    ctx: &ConvCtx,
    id: usize,
    us: Seq<usize>,
    j: int,
)
    requires
        step_info_ok(conv, us),
        is_ctx_of(ctx, conv, id, us),
        is_op(out, data, conv, input, us),
        is_pow2(conv.filter.shape@[1] as int),
        is_pow2(conv.filter.shape@[2] as int),
        0 <= j < data.input_fft@.len(),
    ensures
        pow2(ctx.fft_aux@[0] as nat) == data.input_fft@[j]@.len(),
        pow2(ctx.ifft_aux@[0] as nat) == data.input_fft@[j]@.len(),
        pow2(ctx.fft_weights_aux@[0] as nat) == data.input_fft@[j]@.len(),
        pow2(ctx.hadamard@[0] as nat) == conv.filter.shape@[1] * data.input_fft@[j]@.len(),
        ctx.delegation_fft@.len() + 1 == ctx.fft_aux@[0],
        ctx.delegation_fft_weights@.len() + 1 == ctx.fft_weights_aux@[0],
        ctx.delegation_ifft@.len() + 1 == ctx.ifft_aux@[0],
        ctx.nw * ctx.nw == ctx.filter_size,
        data.output_as_element@.len() == ctx.kw * ctx.filter_size,
{
    let n = conv.filter.shape@[2] as int;
    let c = conv.filter.shape@[1] as int;
    let (a, b) = (choose|e: nat| pow2(e) == n, choose|e: nat| pow2(e) == c);
    let len = (n * n) as nat;
    let all = (c * (n * n)) as nat;
    lemma_flog2_below(len);
    lemma_flog2_below(all);
    lemma_pow2_adds(a, a);
    lemma_pow2_adds(b, a + a);
    lemma_flog2_pow2(a + a);
    lemma_flog2_pow2(b + (a + a));
    lemma_pow2_unfold((a + a + 1) as nat);
    lemma_pow2_unfold((b + (a + a) + 1) as nat);
    assert(fes(data.input_fft@[j]@).len() == data.input_fft@[j]@.len());
    assert(data.input_fft@[j]@.len() == 2 * len);
    assert(flog2(len) == a + a);
    assert(ctx.fft_aux@[0] == a + a + 1);
    assert(flog2(all) == b + (a + a));
    assert(ctx.hadamard@[0] == b + (a + a) + 1);
    assert(c * (2 * (n * n)) == 2 * (c * (n * n))) by (nonlinear_arith);
}

} // verus!
