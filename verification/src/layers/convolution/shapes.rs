//! The shapes that convolutions give.
use crate::arith::{is_pow2, lemma_npot, npot};
use crate::padding::PaddingMode;
use crate::shape::Shape;
use vstd::prelude::*;

verus! {

/// The height in a shape of rank three, or in one with a batch dimension in front.
pub open spec fn height(s: Seq<usize>) -> int {
    if s.len() == 3 {
        s[1] as int
    } else {
        s[2] as int
    }
}

/// The width in a shape of rank three, or in one with a batch dimension in front.
pub open spec fn width(s: Seq<usize>) -> int {
    if s.len() == 3 {
        s[2] as int
    } else {
        s[3] as int
    }
}

/// The width of a kernel; a filter without one is square.
pub open spec fn kernel_width(f: Seq<usize>) -> int {
    if f.len() > 3 {
        f[3] as int
    } else {
        f[2] as int
    }
}

/// The number of places of a kernel of side `k` on `n` places, framed by `pad` more on each side.
pub open spec fn outputs(n: int, k: int, pad: int, stride: int) -> int {
    (n + 2 * pad - k) / stride + 1
}

/// The height of the output.
pub open spec fn out_height(input: Seq<usize>, filter: Seq<usize>, ph: int, sh: int) -> int {
    outputs(height(input), filter[2] as int, ph, sh)
}

/// The width of the output.
pub open spec fn out_width(input: Seq<usize>, filter: Seq<usize>, pw: int, sw: int) -> int {
    outputs(width(input), kernel_width(filter), pw, sw)
}

/// The shape has the three given dimensions.
pub open spec fn has_dims(s: Seq<usize>, c: int, h: int, w: int) -> bool {
    s.len() == 3 && s[0] == c && s[1] == h && s[2] == w
}

/// The kernel fits on the framed input, and the numbers stay within the machine's range. Without a stride, a filter for
/// an input that is not framed is not empty, and one for a framed input has a width.
pub open spec fn conv_shape_ok(
    input: Seq<usize>,
    filter: Seq<usize>,
    ph: int,
    pw: int,
    sh: int,
    sw: int,
) -> bool {
    &&& input.len() >= 3
    &&& filter.len() >= 3
    &&& sh > 0
    &&& sw > 0
    &&& filter[2] <= height(input) + 2 * ph <= usize::MAX
    &&& kernel_width(filter) <= width(input) + 2 * pw <= usize::MAX
    &&& out_height(input, filter, ph, sh) <= usize::MAX
    &&& out_width(input, filter, pw, sw) <= usize::MAX
    &&& sh == 1 && sw == 1 ==> if ph == 0 && pw == 0 {
        filter[2] >= 1
    } else {
        filter.len() >= 4
    }
}

/// The dimensions of the output can be rounded up to powers of two.
pub open spec fn conv_shape_pads(
    input: Seq<usize>,
    filter: Seq<usize>,
    ph: int,
    pw: int,
    sh: int,
    sw: int,
) -> bool {
    &&& npot(filter[0] as nat) <= usize::MAX
    &&& npot(out_height(input, filter, ph, sh) as nat) <= usize::MAX
    &&& npot(out_width(input, filter, pw, sw) as nat) <= usize::MAX
}

/// The shape of a convolution, padded or not.
pub fn conv2d_shape_mode(input_shape: &Shape, filter_shape: &Shape, padding_mode: PaddingMode) -> (r: Shape)
    requires
        conv_shape_ok(input_shape@, filter_shape@, 0, 0, 1, 1),
        padding_mode == PaddingMode::Padding ==> conv_shape_pads(input_shape@, filter_shape@, 0, 0, 1, 1),
    ensures
        ({
            let h = out_height(input_shape@, filter_shape@, 0, 1);
            let w = out_width(input_shape@, filter_shape@, 0, 1);
            match padding_mode {
                PaddingMode::NoPadding => has_dims(r@, filter_shape@[0] as int, h, w),
                PaddingMode::Padding => has_dims(
                    r@,
                    npot(filter_shape@[0] as nat) as int,
                    npot(h as nat) as int,
                    npot(w as nat) as int,
                ),
            }
        }),
{
    match padding_mode {
        PaddingMode::NoPadding => conv2d_shape(input_shape, filter_shape),
        PaddingMode::Padding => padded_conv2d_shape(input_shape, filter_shape),
    }
}

/// The height and the width in a shape of rank three, or in one with a batch dimension in front.
pub(crate) fn sides(s: &Shape) -> (r: (usize, usize))
    requires
        s@.len() >= 3,
    ensures
        r.0 == height(s@),
        r.1 == width(s@),
{
    if s.0.len() == 3 {
        (s.0[1], s.0[2])
    } else {
        (s.0[2], s.0[3])
    }
}

/// The height and the width of a kernel.
pub(crate) fn kernel_sides(f: &Shape) -> (r: (usize, usize))
    requires
        f@.len() >= 3,
    ensures
        r.0 == f@[2],
        r.1 == kernel_width(f@),
{
    if f.0.len() > 3 {
        (f.0[2], f.0[3])
    } else {
        (f.0[2], f.0[2])
    }
}

/// The shape of a convolution with stride one on an input without frame.
pub fn conv2d_shape(input_shape: &Shape, filter_shape: &Shape) -> (r: Shape)
    requires
        conv_shape_ok(input_shape@, filter_shape@, 0, 0, 1, 1),
    ensures
        has_dims(
            r@,
            filter_shape@[0] as int,
            out_height(input_shape@, filter_shape@, 0, 1),
            out_width(input_shape@, filter_shape@, 0, 1),
        ),
{
    let (h_in, w_in) = sides(input_shape);
    let (kh, kw) = kernel_sides(filter_shape);
    let h_out: usize = h_in - kh + 1;
    let w_out: usize = w_in - kw + 1;
    Shape::new(vec![filter_shape.0[0], h_out, w_out])
}

/// The shape of a convolution, each dimension rounded up to a power of two.
pub fn padded_conv2d_shape(input_shape: &Shape, filter_shape: &Shape) -> (r: Shape)
    requires
        conv_shape_ok(input_shape@, filter_shape@, 0, 0, 1, 1),
        conv_shape_pads(input_shape@, filter_shape@, 0, 0, 1, 1),
    ensures
        has_dims(
            r@,
            npot(filter_shape@[0] as nat) as int,
            npot(out_height(input_shape@, filter_shape@, 0, 1) as nat) as int,
            npot(out_width(input_shape@, filter_shape@, 0, 1) as nat) as int,
        ),
{
    conv2d_shape(input_shape, filter_shape).next_power_of_two()
}

/// The shape of a convolution on an input framed by `pad_h` lines and `pad_w` columns of zeros.
pub fn conv2d_shape_with_padding(
    input_shape: &Shape,
    filter_shape: &Shape,
    pad_h: usize,
    pad_w: usize,
) -> (r: Shape)
    requires
        conv_shape_ok(input_shape@, filter_shape@, pad_h as int, pad_w as int, 1, 1),
    ensures
        has_dims(
            r@,
            filter_shape@[0] as int,
            out_height(input_shape@, filter_shape@, pad_h as int, 1),
            out_width(input_shape@, filter_shape@, pad_w as int, 1),
        ),
{
    let (h_in, w_in) = sides(input_shape);
    let (kh, kw) = kernel_sides(filter_shape);
    let h_out: usize = h_in + 2 * pad_h - kh + 1;
    let w_out: usize = w_in + 2 * pad_w - kw + 1;
    Shape::new(vec![filter_shape.0[0], h_out, w_out])
}

/// The shape of a convolution on a framed input, each dimension rounded up to a power of two.
pub fn padded_conv2d_shape_with_padding(
    input_shape: &Shape,
    filter_shape: &Shape,
    pad_h: usize,
    pad_w: usize,
) -> (r: Shape)
    requires
        conv_shape_ok(input_shape@, filter_shape@, pad_h as int, pad_w as int, 1, 1),
        conv_shape_pads(input_shape@, filter_shape@, pad_h as int, pad_w as int, 1, 1),
    ensures
        has_dims(
            r@,
            npot(filter_shape@[0] as nat) as int,
            npot(out_height(input_shape@, filter_shape@, pad_h as int, 1) as nat) as int,
            npot(out_width(input_shape@, filter_shape@, pad_w as int, 1) as nat) as int,
        ),
{
    conv2d_shape_with_padding(input_shape, filter_shape, pad_h, pad_w).next_power_of_two()
}

/// The shape of a convolution with the given strides on a framed input.
pub fn conv2d_shape_with_padding_and_stride(
    input_shape: &Shape,
    filter_shape: &Shape,
    pad_h: usize,
    pad_w: usize,
    stride_h: usize,
    stride_w: usize,
) -> (r: Shape)
    requires
        conv_shape_ok(
            input_shape@,
            filter_shape@,
            pad_h as int,
            pad_w as int,
            stride_h as int,
            stride_w as int,
        ),
    ensures
        has_dims(
            r@,
            filter_shape@[0] as int,
            out_height(input_shape@, filter_shape@, pad_h as int, stride_h as int),
            out_width(input_shape@, filter_shape@, pad_w as int, stride_w as int),
        ),
{
    if stride_h == 1 && stride_w == 1 {
        return conv2d_shape_with_padding(input_shape, filter_shape, pad_h, pad_w);
    }
    let (h_in, w_in) = sides(input_shape);
    let (kh, kw) = kernel_sides(filter_shape);
    let h_out: usize = (h_in + 2 * pad_h - kh) / stride_h + 1;
    let w_out: usize = (w_in + 2 * pad_w - kw) / stride_w + 1;
    Shape::new(vec![filter_shape.0[0], h_out, w_out])
}

/// The shape of a convolution with the given strides on a framed input, each dimension rounded up
/// to a power of two.
pub fn padded_conv2d_shape_with_padding_and_stride(
    input_shape: &Shape,
    filter_shape: &Shape,
    pad_h: usize,
    pad_w: usize,
    stride_h: usize,
    stride_w: usize,
) -> (r: Shape)
    requires
        conv_shape_ok(
            input_shape@,
            filter_shape@,
            pad_h as int,
            pad_w as int,
            stride_h as int,
            stride_w as int,
        ),
        conv_shape_pads(
            input_shape@,
            filter_shape@,
            pad_h as int,
            pad_w as int,
            stride_h as int,
            stride_w as int,
        ),
    ensures
        has_dims(
            r@,
            npot(filter_shape@[0] as nat) as int,
            npot(out_height(input_shape@, filter_shape@, pad_h as int, stride_h as int) as nat) as int,
            npot(out_width(input_shape@, filter_shape@, pad_w as int, stride_w as int) as nat) as int,
        ),
{
    conv2d_shape_with_padding_and_stride(
        input_shape,
        filter_shape,
        pad_h,
        pad_w,
        stride_h,
        stride_w,
    ).next_power_of_two()
}

/// Each dimension of a padded output shape `r` is the least power of two that reaches that of the output shape `c`, with
/// and without frame and stride.
pub proof fn law_padded_output_shape(
    input: Seq<usize>,
    filter: Seq<usize>,
    ph: int,
    pw: int,
    sh: int,
    sw: int,
    c: Seq<usize>,
    r: Seq<usize>,
)
    requires
        conv_shape_ok(input, filter, ph, pw, sh, sw),
        conv_shape_pads(input, filter, ph, pw, sh, sw),
        has_dims(c, filter[0] as int, out_height(input, filter, ph, sh), out_width(input, filter, pw, sw)),
        has_dims(
            r,
            npot(filter[0] as nat) as int,
            npot(out_height(input, filter, ph, sh) as nat) as int,
            npot(out_width(input, filter, pw, sw) as nat) as int,
        ),
    ensures
        r.len() == c.len(),
        forall|i: int|
            0 <= i < r.len() ==> {
                &&& is_pow2(#[trigger] r[i] as int)
                &&& c[i] <= r[i]
                &&& c[i] >= 1 ==> r[i] < 2 * c[i]
            },
{
    assert forall|i: int| 0 <= i < r.len() implies {
        &&& is_pow2(#[trigger] r[i] as int)
        &&& c[i] <= r[i]
        &&& c[i] >= 1 ==> r[i] < 2 * c[i]
    } by {
        lemma_npot(c[i] as nat);
        assert(r[i] == npot(c[i] as nat));
    }
}

/// With strides of one the output shape `r` is that without strides, `q`.
pub proof fn law_unit_strides(input: Seq<usize>, filter: Seq<usize>, ph: int, pw: int, q: Seq<usize>, r: Seq<usize>)
    requires
        has_dims(q, filter[0] as int, out_height(input, filter, ph, 1), out_width(input, filter, pw, 1)),
        has_dims(r, filter[0] as int, out_height(input, filter, ph, 1), out_width(input, filter, pw, 1)),
    ensures
        r == q,
        r[0] == filter[0],
        r[1] == height(input) + 2 * ph - filter[2] + 1,
        r[2] == width(input) + 2 * pw - kernel_width(filter) + 1,
{
    assert(r =~= q);
}

/// On a square input with a square kernel the output is the square that `outputs` gives, with and
/// without frame and stride.
pub proof fn law_square_output(input: Seq<usize>, filter: Seq<usize>, pad: int, stride: int)
    requires
        height(input) == width(input),
        filter[2] == kernel_width(filter),
    ensures
        out_height(input, filter, pad, stride) == outputs(height(input), filter[2] as int, pad, stride),
        out_width(input, filter, pad, stride) == outputs(
            height(input),
            filter[2] as int,
            pad,
            stride,
        ),
{
}

/// A frame of half the kernel keeps the size of the input, where the kernel has an odd side and there is no stride.
pub proof fn law_same_convolution(input: Seq<usize>, filter: Seq<usize>, ph: int, pw: int)
    requires
        filter[2] == 2 * ph + 1,
        kernel_width(filter) == 2 * pw + 1,
    ensures
        out_height(input, filter, ph, 1) == height(input),
        out_width(input, filter, pw, 1) == width(input),
{
}

/// The strided output keeps every `stride`-th line of the output without stride.
pub proof fn law_strided_outputs(n: int, k: int, pad: int, stride: int, j: int)
    requires
        0 <= k <= n + 2 * pad,
        stride > 0,
        0 <= j,
    ensures
        j < outputs(n, k, pad, stride) <==> j * stride < outputs(n, k, pad, 1),
{
    let m = n + 2 * pad - k;
    assert(m / 1 == m);
    vstd::arithmetic::div_mod::lemma_fundamental_div_mod(m, stride);
    let q = m / stride;
    let r = m % stride;
    assert(j <= q <==> j * stride <= m) by (nonlinear_arith)
        requires
            m == stride * q + r,
            0 <= r < stride,
            0 <= j,
    ;
}

} // verus!
