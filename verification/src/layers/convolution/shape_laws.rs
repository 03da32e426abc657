//! What the shapes of a convolution layer count, and what its input and its direct evaluation depend on.
use crate::arith::lemma_npot;
use crate::layers::convolution::clearing::lemma_idx3_split;
use crate::layers::convolution::context::{is_ctx_of, ConvCtx};
use crate::layers::convolution::handed_on::is_least_power;
use crate::layers::convolution::input::{framed_dims, framed_input, framing_ok};
use crate::layers::convolution::schoolbook::{is_direct, is_output_shape, output_shape_ok};
use crate::layers::convolution::shapes::law_strided_outputs;
use crate::layers::convolution::Convolution;
use crate::number::{Element, Number};
use crate::padding::PaddingMode;
use crate::tensor::access::{dims4, idx3, is_framed};
use crate::tensor::conv::is_conv2d;
use crate::tensor::Tensor;
use vstd::prelude::*;

verus! {

/// The framed input does not depend on what the padded input holds beyond the input: two padded inputs that agree on
/// the input are framed alike.
pub proof fn law_framing_ignores_garbage<T>(
    d: Seq<T>,
    e: Seq<T>,
    s: Seq<usize>,
    us: Seq<usize>,
    ph: int,
    pw: int,
    fill: T,
)
    requires
        framing_ok(s, us, ph, pw),
        0 <= ph,
        0 <= pw,
        forall|c: int, h: int, w: int|
            0 <= c < us[0] && 0 <= h < us[1] && 0 <= w < us[2] ==> #[trigger] d[idx3(s[1] as int, s[2] as int, c, h, w)]
                == e[idx3(s[1] as int, s[2] as int, c, h, w)],
    ensures
        framed_input(d, s, us, ph, pw, fill) == framed_input(e, s, us, ph, pw, fill),
{
    let (a, b) = (framed_input(d, s, us, ph, pw, fill), framed_input(e, s, us, ph, pw, fill));
    let (cs, hs, ws) = framed_dims(us, ph, pw);
    assert forall|p: int| 0 <= p < a.len() implies a[p] == b[p] by {
        lemma_idx3_split(cs, hs, ws, p);
        let (c, y, x) = (p / (hs * ws), (p % (hs * ws)) / ws, (p % (hs * ws)) % ws);
        if c < us[0] && ph <= y < ph + us[1] && pw <= x < pw + us[2] {
            let k = idx3(s[1] as int, s[2] as int, c, y - ph, x - pw);
            assert(d[k] == e[k]);
        }
    }
    assert(a =~= b);
}

/// Every entry of the input stands in the framed input, moved by the frame; everything else there is the filling.
pub proof fn law_framed_entries<T>(
    d: Seq<T>,
    s: Seq<usize>,
    us: Seq<usize>,
    ph: int,
    pw: int,
    fill: T,
    c: int,
    h: int,
    w: int,
)
    requires
        framing_ok(s, us, ph, pw),
        0 <= ph,
        0 <= pw,
        0 <= c < framed_dims(us, ph, pw).0,
        -ph <= h < framed_dims(us, ph, pw).1 - ph,
        -pw <= w < framed_dims(us, ph, pw).2 - pw,
    ensures
        ({
            let (cs, hs, ws) = framed_dims(us, ph, pw);
            let framed = framed_input(d, s, us, ph, pw, fill);
            &&& framed.len() == cs * (hs * ws)
            &&& framed[idx3(hs, ws, c, h + ph, w + pw)] == (if c < us[0] && 0 <= h < us[1] && 0 <= w < us[2] {
                d[idx3(s[1] as int, s[2] as int, c, h, w)]
            } else {
                fill
            })
        }),
{
    let (cs, hs, ws) = framed_dims(us, ph, pw);
    crate::tensor::access::lemma_idx3(cs, hs, ws, c, h + ph, w + pw);
    crate::layers::convolution::clearing::lemma_idx3_digits(hs, ws, c, h + ph, w + pw);
}

/// A convolution by its definition has a line for each place of the kernel on the lines of the framed input, a column
/// for each place on its columns, and a channel for each filter.
pub proof fn law_direct_output_shape<T: Number>(
    r: &Tensor<T>,
    conv: &Convolution<T>,
    input: &Tensor<T>,
    stride: int,
    j: int,
)
    requires
        is_direct(r, conv, input, stride),
        input.shape@.len() == 3,
        conv.filter.shape@.len() == 4,
        stride > 0,
        input.shape@[1] + 2 * conv.frame().0 <= usize::MAX,
        input.shape@[2] + 2 * conv.frame().1 <= usize::MAX,
        conv.filter.shape@[2] <= input.shape@[1] + 2 * conv.frame().0,
        conv.filter.shape@[3] <= input.shape@[2] + 2 * conv.frame().1,
        (input.shape@[1] + 2 * conv.frame().0 - conv.filter.shape@[2]) / stride + 1 <= usize::MAX,
        (input.shape@[2] + 2 * conv.frame().1 - conv.filter.shape@[3]) / stride + 1 <= usize::MAX,
        0 <= j,
    ensures
        r.shape@.len() == 4,
        r.shape@[0] == 1,
        r.shape@[1] == conv.filter.shape@[0],
        j < r.shape@[2] <==> j * stride + conv.filter.shape@[2] <= input.shape@[1] + 2 * conv.input_padding@[0],
        j < r.shape@[3] <==> j * stride + conv.filter.shape@[3] <= input.shape@[2] + 2 * conv.input_padding@[1],
{
    let (ph, pw) = conv.frame();
    let z = choose|z: Tensor<T>|
        #[trigger] is_framed(&z, input, ph, pw) && is_conv2d(r, &z, &conv.filter, &conv.bias, stride);
    let (s, f) = (input.shape@, conv.filter.shape@);
    assert(dims4(z.shape@).2 == s[1] + 2 * ph);
    assert(dims4(z.shape@).3 == s[2] + 2 * pw);
    law_strided_outputs(s[1] as int, f[2] as int, ph, stride, j);
    law_strided_outputs(s[2] as int, f[3] as int, pw, stride, j);
    assert((s[1] + 2 * ph - f[2]) / 1 == s[1] + 2 * ph - f[2]);
    assert((s[2] + 2 * pw - f[3]) / 1 == s[2] + 2 * pw - f[3]);
    vstd::arithmetic::div_mod::lemma_div_pos_is_pos(s[1] + 2 * ph - f[2], stride);
    vstd::arithmetic::div_mod::lemma_div_pos_is_pos(s[2] + 2 * pw - f[3], stride);
}

/// The output shape before padding counts the places of the kernel before padding; after padding it is rounded up from
/// the places of the padded kernel.
pub proof fn law_output_shape_counts_places<T: Number>(
    r: Seq<usize>,
    conv: &Convolution<T>,
    input: Seq<usize>,
    mode: PaddingMode,
    j: int,
)
    requires
        output_shape_ok(conv, input, mode),
        is_output_shape(r, conv, input, mode),
        input.len() == 3,
        mode == PaddingMode::NoPadding ==> conv.unpadded_shape@.len() == 4,
        mode == PaddingMode::Padding ==> conv.filter.og_shape@.len() == 4,
        0 <= j,
    ensures
        r.len() == 3,
        conv.is_output_shape(r, input, mode),
        mode == PaddingMode::NoPadding ==> {
            let f = conv.unpadded_shape@;
            &&& r[0] == f[0]
            &&& j < r[1] <==> j * conv.stride@[0] + f[2] <= input[1] + 2 * conv.input_padding@[0]
            &&& j < r[2] <==> j * conv.stride@[1] + f[3] <= input[2] + 2 * conv.input_padding@[1]
        },
        mode == PaddingMode::Padding ==> {
            let f = conv.filter.og_shape@;
            &&& f[0] >= 1 ==> is_least_power(r[0] as int, f[0] as int)
            &&& is_least_power(
                r[1] as int,
                (input[1] + 2 * conv.input_padding@[0] - f[2]) / (conv.stride@[0] as int) + 1,
            )
            &&& is_least_power(
                r[2] as int,
                (input[2] + 2 * conv.input_padding@[1] - f[3]) / (conv.stride@[1] as int) + 1,
            )
        },
{
    let f = conv.counted_shape(mode);
    let (ph, pw) = conv.frame();
    let (sh, sw) = conv.steps();
    law_strided_outputs(input[1] as int, f[2] as int, ph, sh, j);
    law_strided_outputs(input[2] as int, f[3] as int, pw, sw, j);
    let (a, b) = (input[1] + 2 * ph - f[2], input[2] + 2 * pw - f[3]);
    assert(a / 1 == a && b / 1 == b);
    vstd::arithmetic::div_mod::lemma_div_pos_is_pos(a, sh);
    vstd::arithmetic::div_mod::lemma_div_pos_is_pos(b, sw);
    lemma_npot((a / sh + 1) as nat);
    lemma_npot((b / sw + 1) as nat);
    lemma_npot(f[0] as nat);
}

/// The context counts the shapes of the output as the layer does, before and after padding.
pub proof fn law_context_counts_as_the_layer(
    ctx: &ConvCtx,
    conv: &Convolution<Element>,
    id: usize,
    us: Seq<usize>,
    mode: PaddingMode,
)
    requires
        is_ctx_of(ctx, conv, id, us),
    ensures
        ctx.counted_shape(mode) == conv.counted_shape(mode),
        ctx.counted_shape(PaddingMode::NoPadding) == conv.unpadded_shape@,
        ctx.counted_shape(PaddingMode::Padding) == conv.filter.og_shape@,
        ctx.frame() == conv.frame(),
        ctx.steps() == conv.steps(),
{
}

} // verus!
