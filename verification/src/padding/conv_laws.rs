//! A convolution layer that was padded computes the convolution by its definition.
use crate::arith::{lemma_npot, npot};
use crate::field::P;
use crate::layers::convolution::apply::{
    framed_shape, full_sides, is_op, op_at, op_dims, strided_sides, transform_input,
};
use crate::layers::convolution::clearing::lemma_strides_below;
use crate::layers::convolution::input::{framed_dims, framed_entry};
use crate::layers::convolution::laws::{
    holds_input, is_filter_shape, law_op_is_conv2d, law_transform_input_holds_frame,
};
use crate::layers::convolution::Convolution;
use crate::number::{msum, Element};
use crate::padding::conv::{is_padded_conv, law_padded_conv_is_a_padded_layer, paddable_for};
use crate::shape::lemma_prod_of_rank;
use crate::tensor::access::{dims4, idx3, idx4, is_framed};
use crate::tensor::conv::{conv2d_term, is_conv2d, windows};
use crate::tensor::fft_conv::ConvData;
use crate::tensor::pad::{all_pow2, npots, npots_fit, padded};
use crate::tensor::Tensor;
use vstd::prelude::*;

verus! {

/// The sides of the framed input.
pub open spec fn framed_sides(c: &Convolution<Element>, s: Seq<usize>) -> (int, int) {
    (s[1] + 2 * c.frame().0, s[2] + 2 * c.frame().1)
}

/// The number of lines and columns that the kernel of the layer gives on the framed input.
pub open spec fn window_sides(c: &Convolution<Element>, s: Seq<usize>) -> (int, int) {
    let (hs, ws) = framed_sides(c, s);
    (
        windows(hs, c.filter.shape@[2] as int, c.steps().0),
        windows(ws, c.filter.shape@[3] as int, c.steps().0),
    )
}

/// The sum that the entry at channel `o`, line `y` and column `x` of the convolution of the framed input `z` is, but
/// for the bias.
pub open spec fn window_sum(c: &Convolution<Element>, s: Seq<usize>, z: Seq<Element>, o: int, y: int, x: int) -> int {
    let f = c.filter.shape@;
    let (hs, ws) = framed_sides(c, s);
    msum::<Element>(
        (f[1] * (f[2] * f[3])) as nat,
        conv2d_term::<Element>(
            z,
            c.filter.data@,
            (1, f[1] as int, hs, ws),
            (f[0] as int, f[1] as int, f[2] as int, f[3] as int),
            c.steps().0,
            0,
            o,
            y,
            x,
        ),
    )
}

/// A layer with a square filter, and an input for it: after padding the framed input is square and larger than the
/// filter.
pub open spec fn square_layer(c: &Convolution<Element>, t: &Tensor<Element>) -> bool {
    let f = c.filter.shape@;
    let (hs, ws) = framed_sides(c, t.shape@);
    &&& is_filter_shape(f)
    &&& c.unpadded_shape@ == f
    &&& c.bias.shape@[0] == f[0]
    &&& c.steps().0 > 0
    &&& t.wf()
    &&& t.shape@.len() == 3
    &&& t.shape@[0] == f[1]
    &&& npots_fit(t.shape@)
    &&& f[2] <= hs
    &&& f[3] <= ws
    &&& npot(f[2] as nat) < npot(hs as nat)
    &&& npot(hs as nat) == npot(ws as nat)
}

/// The output of the padded layer `p` on the padded input `tp` holds the convolution `y` of the framed input `z` by its
/// definition, and zeros elsewhere, as long as the sums stay within half the prime. Its dimensions are powers of two.
pub proof fn law_padded_op_is_conv2d(
    c: &Convolution<Element>,
    p: &Convolution<Element>,
    t: &Tensor<Element>,
    tp: &Tensor<Element>,
    z: &Tensor<Element>,
    y: &Tensor<Element>,
    out: &Tensor<Element>,
    data: &ConvData,
)
    requires
        square_layer(c, t),
        paddable_for(c, t.shape@),
        is_padded_conv(p, c, t.shape@),
        tp.shape@ == npots(t.shape@),
        tp.data@ == padded(t.data@, t.shape@, npots(t.shape@), 0i64),
        is_framed(z, t, c.frame().0, c.frame().1),
        is_conv2d(y, z, &c.filter, &c.bias, c.steps().0),
        is_op(out, data, p, tp, t.shape@),
        forall|o: int, i: int, j: int|
            0 <= o < c.filter.shape@[0] && 0 <= i < window_sides(c, t.shape@).0 && 0 <= j < window_sides(
                c,
                t.shape@,
            ).1 ==> -(P / 2) <= #[trigger] window_sum(c, t.shape@, z.data@, o, i, j) <= P / 2,
    ensures
        all_pow2(out.shape@),
        ({
            let k = c.filter.shape@[0] as int;
            let (oh, ow) = window_sides(c, t.shape@);
            let d = op_dims(p, t.shape@);
            forall|o: int, i: int, j: int|
                0 <= o < d.0 && 0 <= i < d.1 && 0 <= j < d.2 ==> #[trigger] out.data@[idx3(d.1, d.2, o, i, j)] == (if o
                    < k && i < oh && j < ow {
                    y.data@[idx4(k, oh, ow, 0, o, i, j)]
                } else {
                    0
                })
        }),
{
    let us = t.shape@;
    let f = c.filter.shape@;
    let k = f[0] as int;
    let (hs, ws) = framed_sides(c, us);
    let (oh, ow) = window_sides(c, us);
    let (ph, pw) = c.frame();
    let d = op_dims(p, us);
    let n = npot(hs as nat) as int;
    let x = transform_input(tp.data@, tp.shape@, us, ph, pw);
    law_padded_conv_is_a_padded_layer(p, c, us);
    lemma_npot(hs as nat);
    lemma_npot(ws as nat);
    lemma_npot(f[0] as nat);
    // the input of the transform holds the framed input
    assert(dims4(us) == (1int, us[0] as int, us[1] as int, us[2] as int));
    assert forall|e: int, a: int, b: int| 0 <= e < us[0] && 0 <= a < hs && 0 <= b < ws implies #[trigger] z.data@[idx3(
        hs,
        ws,
        e,
        a,
        b,
    )] == framed_entry(t.data@, us, us, ph, pw, 0i64, e, a, b) by {
        assert(idx4(us[0] as int, hs, ws, 0, e, a, b) == idx3(hs, ws, e, a, b));
        if ph <= a < ph + us[1] && pw <= b < pw + us[2] {
            assert(idx4(us[0] as int, us[1] as int, us[2] as int, 0, e, a - ph, b - pw) == idx3(
                us[1] as int,
                us[2] as int,
                e,
                a - ph,
                b - pw,
            ));
        }
        if !(ph == 0 && pw == 0) {
            assert(z.data@[idx4(us[0] as int, hs, ws, 0, e, a, b)] == z.data@[idx3(hs, ws, e, a, b)]);
        }
    }
    law_transform_input_holds_frame(t.data@, us, ph, pw, z.data@, hs, ws);
    assert(holds_input(x, n, z.data@, us[0] as int, hs, ws));
    lemma_transform_input_len(c, t, tp);
    // the windows are those of the strides
    assert(framed_shape(us, ph, pw)[1] == hs && framed_shape(us, ph, pw)[2] == ws);
    assert(full_sides(p, us) == (hs - f[2] + 1, ws - f[3] + 1));
    lemma_strides_below(hs - f[2] + 1, c.steps().0);
    lemma_strides_below(ws - f[3] + 1, c.steps().0);
    assert(strided_sides(p, us) == (oh, ow));
    assert(dims4(z.shape@) == (1int, f[1] as int, hs, ws));
    assert(dims4(f) == (f[0] as int, f[1] as int, f[2] as int, f[3] as int));
    assert forall|o: int, i: int, j: int| 0 <= o < d.0 && 0 <= i < d.1 && 0 <= j < d.2 implies #[trigger] out.data@[idx3(
        d.1,
        d.2,
        o,
        i,
        j,
    )] == (if o < k && i < oh && j < ow {
        y.data@[idx4(k, oh, ow, 0, o, i, j)]
    } else {
        0
    }) by {
        assert(out.data@[idx3(d.1, d.2, o, i, j)] == op_at(p, x, us, o, i, j));
        if o < k && i < oh && j < ow {
            assert(-(P / 2) <= window_sum(c, us, z.data@, o, i, j) <= P / 2);
            law_op_is_conv2d(p, c.filter.data@, f, c.bias.data@, n, x, us, z.data@, hs, ws, o, i, j);
            assert(y.data@[idx4(k, oh, ow, 0, o, i, j)] as int == window_sum(c, us, z.data@, o, i, j) + c.bias.data@[o]);
        }
    }
    lemma_npot(oh as nat);
    lemma_npot(ow as nat);
    assert(npots(f)[0] == npot(f[0] as nat));
    assert forall|i: int| 0 <= i < out.shape@.len() implies crate::arith::is_pow2(#[trigger] out.shape@[i] as int) by {
        assert(i == 0 || i == 1 || i == 2);
    }
}

/// The input of the transform has a plane for every channel of the input.
proof fn lemma_transform_input_len(c: &Convolution<Element>, t: &Tensor<Element>, tp: &Tensor<Element>)
    requires
        square_layer(c, t),
        tp.shape@ == npots(t.shape@),
        tp.data@ == padded(t.data@, t.shape@, npots(t.shape@), 0i64),
    ensures
        ({
            let n = npot(framed_sides(c, t.shape@).0 as nat) as int;
            c.filter.shape@[1] * (n * n) <= transform_input(
                tp.data@,
                tp.shape@,
                t.shape@,
                c.frame().0,
                c.frame().1,
            ).len()
        }),
{
    let us = t.shape@;
    let (hs, ws) = framed_sides(c, us);
    let n = npot(hs as nat) as int;
    lemma_npot(us[0] as nat);
    lemma_npot(us[1] as nat);
    lemma_npot(us[2] as nat);
    lemma_npot(hs as nat);
    let cs = npot(us[0] as nat) as int;
    assert(us[0] * (n * n) <= cs * (n * n)) by (nonlinear_arith)
        requires
            us[0] <= cs,
            n >= 0,
    ;
    if c.frame().0 == 0 && c.frame().1 == 0 {
        let s = npots(us);
        lemma_prod_of_rank(s);
        assert(s[0] == cs && s[1] == n && s[2] == n);
    } else {
        assert(framed_dims(us, c.frame().0, c.frame().1) == (cs, n, n));
    }
}

} // verus!
