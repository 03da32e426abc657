//! Clearing of the entries of a convolution that belong to no output, and taking every `stride`-th.
use crate::arith::{self, lemma_grid_bound, lemma_grid_digits, lemma_grid_split, npot};
use crate::number::{Element, Number};
use crate::shape::{lemma_prod1, lemma_prod3, lemma_prod_of_rank, prod, Shape};
use crate::tensor::access::{idx3, lemma_idx3};
use crate::tensor::Tensor;
use vstd::prelude::*;

verus! {

/// The shape without its batch dimension.
pub open spec fn no_batch(s: Seq<usize>) -> Seq<usize> {
    if s.len() == 4 {
        s.skip(1)
    } else {
        s
    }
}

/// The place lies in the corner of shape `valid`, on a line and a column that the stride hits.
pub open spec fn kept(valid: Seq<usize>, stride: int, c: int, h: int, w: int) -> bool {
    &&& c < valid[0]
    &&& h < valid[1]
    &&& w < valid[2]
    &&& h % stride == 0
    &&& w % stride == 0
}

/// The place is that of an output of the shape `valid`, moved apart by the stride.
pub open spec fn marked(valid: Seq<usize>, stride: int, c: int, h: int, w: int) -> bool {
    &&& c < valid[0]
    &&& h % stride == 0
    &&& w % stride == 0
    &&& h / stride < valid[1]
    &&& w / stride < valid[2]
}

/// `r` is `t` with zeros at the places that are not kept.
pub open spec fn is_cleared<T: Number>(r: &Tensor<T>, t: &Tensor<T>, valid: Seq<usize>, stride: int) -> bool {
    &&& r.wf()
    &&& r.shape@ == t.shape@
    &&& r.og_shape@ == seq![0usize]
    &&& forall|c: int, h: int, w: int|
        0 <= c < t.shape@[0] && 0 <= h < t.shape@[1] && 0 <= w < t.shape@[2] ==> #[trigger] r.data@[idx3(
            t.shape@[1] as int,
            t.shape@[2] as int,
            c,
            h,
            w,
        )] == if kept(valid, stride, c, h, w) {
            t.data@[idx3(t.shape@[1] as int, t.shape@[2] as int, c, h, w)]
        } else {
            T::s_zero()
        }
}

/// `m` is flat and holds a one at each place of an output, moved apart by the stride, and zeros
/// elsewhere.
pub open spec fn is_clearing_tensor(m: &Tensor<Element>, shape: Seq<usize>, valid: Seq<usize>, stride: int) -> bool {
    &&& m.wf()
    &&& m.shape@ == seq![prod(shape) as usize]
    &&& m.og_shape@ == seq![0usize]
    &&& forall|c: int, h: int, w: int|
        0 <= c < shape[0] && 0 <= h < shape[1] && 0 <= w < shape[2] ==> #[trigger] m.data@[idx3(
            shape[1] as int,
            shape[2] as int,
            c,
            h,
            w,
        )] == if marked(valid, stride, c, h, w) {
            1int
        } else {
            0
        }
}

fn without_batch(s: &Shape) -> (r: Shape)
    ensures
        r@ == no_batch(s@),
{
    if s.0.len() == 4 {
        let r = s.slice(1, 4);
        proof {
            assert(r@ =~= s@.skip(1));
        }
        r
    } else {
        s.clone()
    }
}

/// The digits of a place in a tensor of rank three.
pub proof fn lemma_idx3_digits(hs: int, ws: int, c: int, h: int, w: int)
    requires
        0 <= h < hs,
        0 <= w < ws,
    ensures
        ({
            let p = idx3(hs, ws, c, h, w);
            &&& p / (hs * ws) == c
            &&& (p % (hs * ws)) / ws == h
            &&& (p % (hs * ws)) % ws == w
        }),
{
    lemma_grid_bound(h, hs, w, ws);
    lemma_grid_digits(c, h * ws + w, hs * ws);
    lemma_grid_digits(h, w, ws);
}

/// A place of a tensor of rank three is put together from its digits.
pub proof fn lemma_idx3_split(cs: int, hs: int, ws: int, p: int)
    requires
        0 <= cs,
        0 <= hs,
        0 <= ws,
        0 <= p < cs * (hs * ws),
    ensures
        hs * ws > 0,
        ws > 0,
        0 <= p / (hs * ws) < cs,
        0 <= (p % (hs * ws)) / ws < hs,
        0 <= (p % (hs * ws)) % ws < ws,
        p == idx3(hs, ws, p / (hs * ws), (p % (hs * ws)) / ws, (p % (hs * ws)) % ws),
{
    let b = hs * ws;
    assert(b >= 0) by (nonlinear_arith)
        requires
            hs >= 0,
            ws >= 0,
            b == hs * ws,
    ;
    if b == 0 {
        assert(cs * b == 0) by (nonlinear_arith)
            requires
                b == 0,
        ;
    }
    if ws == 0 {
        assert(hs * ws == 0) by (nonlinear_arith)
            requires
                ws == 0,
        ;
    }
    lemma_grid_split(p, cs, b);
    lemma_grid_split(p % b, hs, ws);
}

/// The tensor with zeros at the places that are not kept.
pub fn clear_garbage<T: Number>(output_tensor: &Tensor<T>, unpadded_output_shape: &Shape) -> (r: Tensor<T>)
    requires
        output_tensor.wf(),
        output_tensor.shape@.len() == 3,
        no_batch(unpadded_output_shape@).len() >= 3,
    ensures
        is_cleared(&r, output_tensor, no_batch(unpadded_output_shape@), 1),
{
    clear_garbage_strided(output_tensor, unpadded_output_shape, 1)
}

/// The tensor with zeros at the places that are not kept: those outside the corner of the given
/// shape, and those on lines or columns that the stride does not hit.
pub fn clear_garbage_strided<T: Number>(
    output_tensor: &Tensor<T>,
    unpadded_output_shape: &Shape,
    stride: usize,
) -> (r: Tensor<T>)
    requires
        output_tensor.wf(),
        output_tensor.shape@.len() == 3,
        no_batch(unpadded_output_shape@).len() >= 3,
        stride > 0,
    ensures
        is_cleared(&r, output_tensor, no_batch(unpadded_output_shape@), stride as int),
{
    let valid = without_batch(unpadded_output_shape);
    let padded_shape = output_tensor.get_shape();
    let (cs, hs, ws) = (padded_shape.0[0], padded_shape.0[1], padded_shape.0[2]);
    let n: usize = output_tensor.data.len();
    let ghost src = output_tensor.data@;
    proof {
        lemma_prod_of_rank(padded_shape@);
    }
    let mut data: Vec<T> = Vec::with_capacity(n);
    let mut p: usize = 0;
    while p < n
        invariant
            p <= n,
            n == output_tensor.data@.len(),
            src == output_tensor.data@,
            n == cs * (hs * ws),
            stride > 0,
            valid@.len() >= 3,
            data@.len() == p,
            forall|q: int|
                0 <= q < p ==> #[trigger] data@[q] == if kept(
                    valid@,
                    stride as int,
                    q / (hs * ws),
                    (q % (hs * ws)) / (ws as int),
                    (q % (hs * ws)) % (ws as int),
                ) {
                    src[q]
                } else {
                    T::s_zero()
                },
        decreases n - p,
    {
        proof {
            lemma_idx3_split(cs as int, hs as int, ws as int, p as int);
            let (x, y) = (cs as int, hs * ws);
            assert(y <= x * y) by (nonlinear_arith)
                requires
                    x >= 1,
                    y >= 0,
            ;
        }
        let plane: usize = hs * ws;
        let c: usize = p / plane;
        let rest: usize = p % plane;
        let h: usize = rest / ws;
        let w: usize = rest % ws;
        let in_valid: bool = c < valid.0[0] && h < valid.0[1] && w < valid.0[2];
        let is_stride_pos: bool = h % stride == 0 && w % stride == 0;
        if in_valid && is_stride_pos {
            data.push(output_tensor.data[p]);
        } else {
            data.push(T::zero());
        }
        p = p + 1;
    }
    proof {
        assert forall|c: int, h: int, w: int| 0 <= c < cs && 0 <= h < hs && 0 <= w < ws implies {
            #[trigger] data@[idx3(hs as int, ws as int, c, h, w)] == if kept(
                valid@,
                stride as int,
                c,
                h,
                w,
            ) {
                src[idx3(hs as int, ws as int, c, h, w)]
            } else {
                T::s_zero()
            }
        } by {
            lemma_idx3(cs as int, hs as int, ws as int, c, h, w);
            lemma_idx3_digits(hs as int, ws as int, c, h, w);
        }
    }
    Tensor::new(padded_shape, data)
}

/// The flat tensor with a one at each place of an output, and zeros elsewhere.
pub fn new_clearing_tensor(og_shape: &Shape, padded_shape: &Shape) -> (r: Tensor<Element>)
    requires
        padded_shape@.len() == 3,
        no_batch(og_shape@).len() == 3,
        prod(padded_shape@) <= usize::MAX,
    ensures
        is_clearing_tensor(&r, padded_shape@, no_batch(og_shape@), 1),
{
    new_clearing_tensor_strided(og_shape, padded_shape, 1)
}

/// The flat tensor with a one at each place of an output, moved apart by the stride, and zeros
/// elsewhere.
pub fn new_clearing_tensor_strided(
    strided_valid_shape: &Shape,
    full_padded_shape: &Shape,
    stride: usize,
) -> (r: Tensor<Element>)
    requires
        full_padded_shape@.len() == 3,
        no_batch(strided_valid_shape@).len() == 3,
        prod(full_padded_shape@) <= usize::MAX,
        stride > 0,
    ensures
        is_clearing_tensor(&r, full_padded_shape@, no_batch(strided_valid_shape@), stride as int),
{
    let sv = without_batch(strided_valid_shape);
    let (cs, hs, ws) = (full_padded_shape.0[0], full_padded_shape.0[1], full_padded_shape.0[2]);
    let n: usize = full_padded_shape.product();
    proof {
        lemma_prod_of_rank(full_padded_shape@);
    }
    let mut data: Vec<Element> = Vec::with_capacity(n);
    let mut p: usize = 0;
    while p < n
        invariant
            p <= n,
            n == cs * (hs * ws),
            stride > 0,
            sv@.len() == 3,
            data@.len() == p,
            forall|q: int|
                0 <= q < p ==> #[trigger] data@[q] == if marked(
                    sv@,
                    stride as int,
                    q / (hs * ws),
                    (q % (hs * ws)) / (ws as int),
                    (q % (hs * ws)) % (ws as int),
                ) {
                    1int
                } else {
                    0
                },
        decreases n - p,
    {
        proof {
            lemma_idx3_split(cs as int, hs as int, ws as int, p as int);
            let (x, y) = (cs as int, hs * ws);
            assert(y <= x * y) by (nonlinear_arith)
                requires
                    x >= 1,
                    y >= 0,
            ;
        }
        let plane: usize = hs * ws;
        let c: usize = p / plane;
        let rest: usize = p % plane;
        let h: usize = rest / ws;
        let w: usize = rest % ws;
        let mut live: bool = false;
        if c < sv.0[0] && h % stride == 0 && w % stride == 0 {
            let h_s: usize = h / stride;
            let w_s: usize = w / stride;
            if h_s < sv.0[1] && w_s < sv.0[2] {
                live = true;
            }
        }
        if live {
            data.push(1);
        } else {
            data.push(0);
        }
        p = p + 1;
    }
    proof {
        assert forall|c: int, h: int, w: int| 0 <= c < cs && 0 <= h < hs && 0 <= w < ws implies {
            #[trigger] data@[idx3(hs as int, ws as int, c, h, w)] == if marked(
                sv@,
                stride as int,
                c,
                h,
                w,
            ) {
                1int
            } else {
                0
            }
        } by {
            lemma_idx3(cs as int, hs as int, ws as int, c, h, w);
            lemma_idx3_digits(hs as int, ws as int, c, h, w);
        }
        lemma_prod1(n);
    }
    let dims: Vec<usize> = vec![n];
    proof {
        assert(dims@ =~= seq![n]);
    }
    Tensor::new(Shape::new(dims), data)
}

/// The number of multiples of `stride` below `n`.
pub open spec fn strides_below(n: int, stride: int) -> int {
    (n + stride - 1) / stride
}

/// What `compact_strided` asks of the tensor and of the corner that it reads.
pub open spec fn compact_ok<T>(t: &Tensor<T>, full_unpadded_shape: Seq<usize>, stride: int) -> bool {
    let fu = no_batch(full_unpadded_shape);
    &&& t.wf()
    &&& t.shape@.len() == 3
    &&& fu.len() >= 3
    &&& stride > 0
    &&& fu[0] <= t.shape@[0]
    &&& fu[1] <= t.shape@[1]
    &&& fu[2] <= t.shape@[2]
    &&& fu[1] + stride <= usize::MAX
    &&& fu[2] + stride <= usize::MAX
    &&& npot(fu[0] as nat) <= usize::MAX
    &&& npot(strides_below(fu[1] as int, stride) as nat) <= usize::MAX
    &&& npot(strides_below(fu[2] as int, stride) as nat) <= usize::MAX
    &&& npot(strides_below(fu[1] as int, stride) as nat) * npot(strides_below(fu[2] as int, stride) as nat)
        <= usize::MAX
    &&& npot(fu[0] as nat) * (npot(strides_below(fu[1] as int, stride) as nat) * npot(
        strides_below(fu[2] as int, stride) as nat,
    )) <= usize::MAX
}

/// The entries on the lines and columns that the stride hits, of the corner of the given shape, packed
/// and padded with zeros until every dimension is a power of two.
pub fn compact_strided<T: Number>(
    cleared_tensor: &Tensor<T>,
    full_unpadded_shape: &Shape,
    stride: usize,
) -> (r: Tensor<T>)
    requires
        compact_ok(cleared_tensor, full_unpadded_shape@, stride as int),
    ensures
        ({
            let fu = no_batch(full_unpadded_shape@);
            let hs = strides_below(fu[1] as int, stride as int);
            let ws = strides_below(fu[2] as int, stride as int);
            let (hp, wp) = (npot(hs as nat) as int, npot(ws as nat) as int);
            &&& r.wf()
            &&& r.shape@.len() == 3
            &&& r.shape@[0] == npot(fu[0] as nat)
            &&& r.shape@[1] == hp
            &&& r.shape@[2] == wp
            &&& r.og_shape@ == seq![0usize]
            &&& forall|c: int, h: int, w: int|
                0 <= c < r.shape@[0] && 0 <= h < hp && 0 <= w < wp ==> #[trigger] r.data@[idx3(hp, wp, c, h, w)]
                    == (if c < fu[0] && h < hs && w < ws {
                    cleared_tensor.data@[idx3(
                        cleared_tensor.shape@[1] as int,
                        cleared_tensor.shape@[2] as int,
                        c,
                        h * stride,
                        w * stride,
                    )]
                } else {
                    T::s_zero()
                })
        }),
{
    let fu = without_batch(full_unpadded_shape);
    let (c_valid, h_valid, w_valid) = (fu.0[0], fu.0[1], fu.0[2]);
    let h_s: usize = (h_valid + (stride - 1)) / stride;
    let w_s: usize = (w_valid + (stride - 1)) / stride;
    let h_s_pot = arith::next_power_of_two(h_s);
    let w_s_pot = arith::next_power_of_two(w_s);
    let c_pot = arith::next_power_of_two(c_valid);
    let (fp_h, fp_w) = (cleared_tensor.shape.0[1], cleared_tensor.shape.0[2]);
    let ghost src = cleared_tensor.data@;
    let plane: usize = h_s_pot * w_s_pot;
    let n: usize = c_pot * plane;
    let total: usize = cleared_tensor.data.len();
    proof {
        lemma_prod_of_rank(cleared_tensor.shape@);
        lemma_strides_below(h_valid as int, stride as int);
        lemma_strides_below(w_valid as int, stride as int);
    }
    let mut data: Vec<T> = Vec::with_capacity(n);
    let mut p: usize = 0;
    while p < n
        invariant
            p <= n,
            n == c_pot * plane,
            plane == h_s_pot * w_s_pot,
            src == cleared_tensor.data@,
            total == src.len(),
            total == cleared_tensor.shape@[0] * (fp_h * fp_w),
            c_valid <= cleared_tensor.shape@[0],
            h_valid <= fp_h,
            w_valid <= fp_w,
            forall|j: int| 0 <= j < h_s ==> 0 <= #[trigger] (j * stride) < h_valid,
            forall|j: int| 0 <= j < w_s ==> 0 <= #[trigger] (j * stride) < w_valid,
            data@.len() == p,
            forall|q: int|
                0 <= q < p ==> #[trigger] data@[q] == compact_at::<T>(
                    src,
                    fp_h as int,
                    fp_w as int,
                    (c_valid as int, h_s as int, w_s as int),
                    stride as int,
                    q / (h_s_pot * w_s_pot),
                    (q % (h_s_pot * w_s_pot)) / (w_s_pot as int),
                    (q % (h_s_pot * w_s_pot)) % (w_s_pot as int),
                ),
        decreases n - p,
    {
        proof {
            lemma_idx3_split(c_pot as int, h_s_pot as int, w_s_pot as int, p as int);
        }
        let c: usize = p / plane;
        let rest: usize = p % plane;
        let h: usize = rest / w_s_pot;
        let w: usize = rest % w_s_pot;
        if c < c_valid && h < h_s && w < w_s {
            proof {
                assert(0 <= h * stride < h_valid);
                assert(0 <= w * stride < w_valid);
                lemma_idx3(
                    cleared_tensor.shape@[0] as int,
                    fp_h as int,
                    fp_w as int,
                    c as int,
                    h * stride,
                    w * stride,
                );
                let (a, b, d) = (c as int, fp_h * fp_w, cleared_tensor.shape@[0] as int);
                assert(b <= d * b && 0 <= a * b <= d * b) by (nonlinear_arith)
                    requires
                        0 <= a < d,
                        b >= 0,
                ;
                assert(0 <= (h * stride) * fp_w) by (nonlinear_arith)
                    requires
                        h * stride >= 0,
                        fp_w >= 0,
                ;
                assert(total == cleared_tensor.data.len());
            }
            let src_idx: usize = c * (fp_h * fp_w) + ((h * stride) * fp_w + w * stride);
            data.push(cleared_tensor.data[src_idx]);
        } else {
            data.push(T::zero());
        }
        p = p + 1;
    }
    proof {
        assert forall|c: int, h: int, w: int| 0 <= c < c_pot && 0 <= h < h_s_pot && 0 <= w < w_s_pot implies {
            #[trigger] data@[idx3(h_s_pot as int, w_s_pot as int, c, h, w)] == compact_at::<T>(
                src,
                fp_h as int,
                fp_w as int,
                (c_valid as int, h_s as int, w_s as int),
                stride as int,
                c,
                h,
                w,
            )
        } by {
            lemma_idx3(c_pot as int, h_s_pot as int, w_s_pot as int, c, h, w);
            lemma_idx3_digits(h_s_pot as int, w_s_pot as int, c, h, w);
        }
        lemma_prod3(c_pot, h_s_pot, w_s_pot);
    }
    let dims: Vec<usize> = vec![c_pot, h_s_pot, w_s_pot];
    proof {
        assert(dims@ =~= seq![c_pot, h_s_pot, w_s_pot]);
    }
    Tensor::new(Shape::new(dims), data)
}

/// The entry of a compacted tensor.
spec fn compact_at<T: Number>(
    src: Seq<T>,
    fp_h: int,
    fp_w: int,
    valid: (int, int, int),
    stride: int,
    c: int,
    h: int,
    w: int,
) -> T {
    if c < valid.0 && h < valid.1 && w < valid.2 {
        src[idx3(fp_h, fp_w, c, h * stride, w * stride)]
    } else {
        T::s_zero()
    }
}

/// The multiples of the stride below `n` are those with a factor below `strides_below`.
pub proof fn lemma_strides_below(n: int, stride: int)
    requires
        n >= 0,
        stride > 0,
    ensures
        forall|j: int| 0 <= j < strides_below(n, stride) ==> 0 <= #[trigger] (j * stride) < n,
        forall|j: int| 0 <= j && #[trigger] (j * stride) < n ==> j < strides_below(n, stride),
        strides_below(n, stride) >= 0,
        n >= 1 ==> strides_below(n, stride) == (n - 1) / stride + 1,
{
    let m = n + stride - 1;
    vstd::arithmetic::div_mod::lemma_fundamental_div_mod(m, stride);
    let q = m / stride;
    let r = m % stride;
    assert forall|j: int| 0 <= j < q implies 0 <= #[trigger] (j * stride) < n by {
        assert(0 <= j * stride <= stride * q - stride) by (nonlinear_arith)
            requires
                0 <= j <= q - 1,
                stride > 0,
        ;
    }
    assert forall|j: int| 0 <= j && #[trigger] (j * stride) < n implies j < q by {
        assert(j < q) by (nonlinear_arith)
            requires
                j * stride < n,
                n + stride - 1 == stride * q + r,
                0 <= r < stride,
                stride > 0,
        ;
    }
    assert(q >= 0) by (nonlinear_arith)
        requires
            n + stride - 1 == stride * q + r,
            0 <= r < stride,
            n >= 0,
            stride > 0,
    ;
    if n >= 1 {
        assert(n - 1 == stride * (q - 1) + r && n - 1 == (q - 1) * stride + r) by (nonlinear_arith)
            requires
                n + stride - 1 == stride * q + r,
        ;
        vstd::arithmetic::div_mod::lemma_fundamental_div_mod_converse(n - 1, stride, q - 1, r);
    }
}

/// The places kept of the whole output are those of the strided output.
pub proof fn law_kept_is_marked(full: Seq<usize>, strided: Seq<usize>, stride: int, c: int, h: int, w: int)
    requires
        stride > 0,
        strided[0] == full[0],
        strided[1] == strides_below(full[1] as int, stride),
        strided[2] == strides_below(full[2] as int, stride),
        0 <= h,
        0 <= w,
    ensures
        kept(full, stride, c, h, w) == marked(strided, stride, c, h, w),
{
    lemma_strides_below(full[1] as int, stride);
    lemma_strides_below(full[2] as int, stride);
    vstd::arithmetic::div_mod::lemma_fundamental_div_mod(h, stride);
    vstd::arithmetic::div_mod::lemma_fundamental_div_mod(w, stride);
    vstd::arithmetic::div_mod::lemma_div_pos_is_pos(h, stride);
    vstd::arithmetic::div_mod::lemma_div_pos_is_pos(w, stride);
    vstd::arithmetic::mul::lemma_mul_is_commutative(h / stride, stride);
    vstd::arithmetic::mul::lemma_mul_is_commutative(w / stride, stride);
    if h % stride == 0 {
        assert((h / stride) * stride == h);
    }
    if w % stride == 0 {
        assert((w / stride) * stride == w);
    }
}

/// Clearing is the product with the clearing tensor, entry by entry.
pub proof fn law_clearing_is_a_product(
    t: &Tensor<Element>,
    cleared: &Tensor<Element>,
    mask: &Tensor<Element>,
    full: Seq<usize>,
    strided: Seq<usize>,
    stride: int,
    p: int,
)
    requires
        t.wf(),
        t.shape@.len() == 3,
        stride > 0,
        strided[0] == full[0],
        strided[1] == strides_below(full[1] as int, stride),
        strided[2] == strides_below(full[2] as int, stride),
        is_cleared(cleared, t, full, stride),
        is_clearing_tensor(mask, t.shape@, strided, stride),
        0 <= p < t.data@.len(),
    ensures
        cleared.data@[p] == t.data@[p] * mask.data@[p],
{
    let (cs, hs, ws) = (t.shape@[0] as int, t.shape@[1] as int, t.shape@[2] as int);
    lemma_prod_of_rank(t.shape@);
    lemma_idx3_split(cs, hs, ws, p);
    let (c, h, w) = (p / (hs * ws), (p % (hs * ws)) / ws, (p % (hs * ws)) % ws);
    law_kept_is_marked(full, strided, stride, c, h, w);
    assert(cleared.data@[idx3(hs, ws, c, h, w)] == if kept(full, stride, c, h, w) {
        t.data@[p]
    } else {
        0
    });
    assert(mask.data@[idx3(hs, ws, c, h, w)] == if marked(strided, stride, c, h, w) {
        1int
    } else {
        0
    });
}

} // verus!
