//! Padding of the projections of an attention layer.
use crate::arith::{lemma_npot, npot};
use crate::layers::convolution::input::lemma_padded3;
use crate::layers::transformer::mha::garbage::column_term;
use crate::number::{lemma_msum_eq, lemma_msum_truncate, msum, Element};
use crate::padding::shapes::{clean_shape_info, clean_shapes};
use crate::padding::{minimum, pad_minimum, PadError, ShapeDims, ShapeInfo};
use crate::shape::{lemma_prod1, lemma_prod2, lemma_prod3, lemma_prod_of_rank, nonzero, Shape};
use crate::tensor::access::idx3;
use crate::tensor::pad::{all_pow2, padded, padded_at};
use crate::tensor::Tensor;
use vstd::prelude::*;

verus! {

/// The projections of an input to queries, keys and values, for `num_heads` heads of width `head_dim`.
#[derive(Debug)]
pub struct QKV<T> {
    pub q: Tensor<T>,
    pub k: Tensor<T>,
    pub v: Tensor<T>,
    pub q_bias: Tensor<T>,
    pub k_bias: Tensor<T>,
    pub v_bias: Tensor<T>,
    pub num_heads: usize,
    pub head_dim: usize,
}

/// The padded sizes: rows of the weights, number of heads, width of a head.
pub open spec fn qkv_dims(qkv: &QKV<Element>, d: ShapeDims) -> (nat, nat, nat) {
    (minimum(d.padded[1] as nat), minimum(qkv.num_heads as nat), minimum(qkv.head_dim as nat))
}

/// The columns of the weights are split into heads.
pub open spec fn weight_ok(w: &Tensor<Element>, qkv: &QKV<Element>) -> bool {
    &&& w.wf()
    &&& w.shape@.len() == 2
    &&& w.shape@[0] > 0
    &&& w.shape@[1] == qkv.num_heads * qkv.head_dim
}

/// The entries of the bias are split into heads.
pub open spec fn bias_ok(b: &Tensor<Element>, qkv: &QKV<Element>) -> bool {
    &&& b.wf()
    &&& b.shape@.len() == 1
    &&& b.shape@[0] == qkv.num_heads * qkv.head_dim
}

/// `r` holds the weights with every head padded, and further rows and heads of zeros.
pub open spec fn is_padded_weight(r: &Tensor<Element>, w: &Tensor<Element>, qkv: &QKV<Element>, d: ShapeDims) -> bool {
    let (n, h, k) = qkv_dims(qkv, d);
    &&& r.wf()
    &&& r.shape@ == seq![n as usize, (h * k) as usize]
    &&& r.og_shape@ == w.og_shape@
    &&& r.data@ == padded(
        w.data@,
        seq![w.shape@[0], qkv.num_heads, qkv.head_dim],
        seq![n as usize, h as usize, k as usize],
        0,
    )
}

/// `r` holds the bias with every head padded, and further heads of zeros.
pub open spec fn is_padded_bias(r: &Tensor<Element>, b: &Tensor<Element>, qkv: &QKV<Element>) -> bool {
    let (h, k) = (minimum(qkv.num_heads as nat), minimum(qkv.head_dim as nat));
    &&& r.wf()
    &&& r.shape@ == seq![(h * k) as usize]
    &&& r.og_shape@ == b.og_shape@
    &&& r.data@ == padded(b.data@, seq![qkv.num_heads, qkv.head_dim], seq![h as usize, k as usize], 0)
}

/// `p` are the projections with their weights padded.
pub open spec fn is_padded_qkv(p: &QKV<Element>, qkv: &QKV<Element>, d: ShapeDims) -> bool {
    &&& p.num_heads == qkv.num_heads
    &&& p.head_dim == qkv.head_dim
    &&& is_padded_weight(&p.q, &qkv.q, qkv, d)
    &&& is_padded_weight(&p.k, &qkv.k, qkv, d)
    &&& is_padded_weight(&p.v, &qkv.v, qkv, d)
    &&& is_padded_bias(&p.q_bias, &qkv.q_bias, qkv)
    &&& is_padded_bias(&p.k_bias, &qkv.k_bias, qkv)
    &&& is_padded_bias(&p.v_bias, &qkv.v_bias, qkv)
}

/// What keeps the projections from being padded.
pub open spec fn qkv_error(
    qkv: &QKV<Element>,
    ds: Seq<ShapeDims>,
    num_outputs: nat,
    expected_num_outputs: nat,
) -> Option<PadError> {
    if ds.len() != 1 {
        Some(PadError::InputCount)
    } else if ds[0].og.len() != 2 || ds[0].padded.len() != 2 {
        Some(PadError::InputRank)
    } else if num_outputs != expected_num_outputs {
        Some(PadError::OutputCount)
    } else if !all_pow2(ds[0].padded) {
        Some(PadError::NotPadded)
    } else if qkv.q.shape@[0] > ds[0].padded[1] || qkv.k.shape@[0] > ds[0].padded[1] || qkv.v.shape@[0] > ds[0].padded[1] {
        Some(PadError::TooManyRows)
    } else {
        None
    }
}

/// The projections are of a form that can be padded.
pub open spec fn qkv_ok(qkv: &QKV<Element>, ds: Seq<ShapeDims>) -> bool {
    let (n, h, k) = qkv_dims(qkv, ds[0]);
    &&& qkv.num_heads > 0
    &&& qkv.head_dim > 0
    &&& weight_ok(&qkv.q, qkv)
    &&& weight_ok(&qkv.k, qkv)
    &&& weight_ok(&qkv.v, qkv)
    &&& bias_ok(&qkv.q_bias, qkv)
    &&& bias_ok(&qkv.k_bias, qkv)
    &&& bias_ok(&qkv.v_bias, qkv)
    &&& npot(qkv.num_heads as nat) <= usize::MAX
    &&& npot(qkv.head_dim as nat) <= usize::MAX
    &&& h * k <= usize::MAX
    &&& ds.len() == 1 && ds[0].padded.len() == 2 ==> {
        &&& npot(ds[0].padded[1] as nat) <= usize::MAX
        &&& n * (h * k) <= usize::MAX
    }
}

proof fn lemma_minimum(n: nat)
    ensures
        n <= minimum(n),
        4 <= minimum(n),
{
    lemma_npot(n);
}

fn pad_weight(w: Tensor<Element>, num_heads: usize, head_dim: usize, nrows: usize, heads: usize, dim: usize) -> (r: Tensor<
    Element,
>)
    requires
        w.wf(),
        w.shape@.len() == 2,
        w.shape@[1] == num_heads * head_dim,
        0 < w.shape@[0] <= nrows,
        0 < num_heads <= heads,
        0 < head_dim <= dim,
        heads * dim <= usize::MAX,
        nrows * (heads * dim) <= usize::MAX,
    ensures
        r.wf(),
        r.shape@ == seq![nrows, (heads * dim) as usize],
        r.og_shape@ == w.og_shape@,
        r.data@ == padded(w.data@, seq![w.shape@[0], num_heads, head_dim], seq![nrows, heads, dim], 0),
{
    let mut t = w;
    let rows = t.shape.0[0];
    let by_head: Vec<usize> = vec![rows, num_heads, head_dim];
    proof {
        assert(by_head@ =~= seq![rows, num_heads, head_dim]);
        lemma_prod3(rows, num_heads, head_dim);
        lemma_prod_of_rank(w.shape@);
        lemma_prod3(nrows, heads, dim);
        lemma_prod2(nrows, (heads * dim) as usize);
        assert(nonzero(by_head@));
    }
    t.reshape_in_place(Shape(by_head));
    let target: Vec<usize> = vec![nrows, heads, dim];
    proof {
        assert(target@ =~= seq![nrows, heads, dim]);
    }
    t.pad_to_shape(Shape(target));
    let flat: Vec<usize> = vec![nrows, heads * dim];
    proof {
        assert(flat@ =~= seq![nrows, (heads * dim) as usize]);
    }
    t.reshape_in_place(Shape(flat));
    t
}

fn pad_bias(b: Tensor<Element>, num_heads: usize, head_dim: usize, heads: usize, dim: usize) -> (r: Tensor<Element>)
    requires
        b.wf(),
        b.shape@.len() == 1,
        b.shape@[0] == num_heads * head_dim,
        0 < num_heads <= heads,
        0 < head_dim <= dim,
        heads * dim <= usize::MAX,
    ensures
        r.wf(),
        r.shape@ == seq![(heads * dim) as usize],
        r.og_shape@ == b.og_shape@,
        r.data@ == padded(b.data@, seq![num_heads, head_dim], seq![heads, dim], 0),
{
    let mut t = b;
    let by_head: Vec<usize> = vec![num_heads, head_dim];
    proof {
        assert(by_head@ =~= seq![num_heads, head_dim]);
        lemma_prod2(num_heads, head_dim);
        lemma_prod_of_rank(b.shape@);
        lemma_prod2(heads, dim);
        lemma_prod1((heads * dim) as usize);
        assert(nonzero(by_head@));
    }
    t.reshape_in_place(Shape(by_head));
    let target: Vec<usize> = vec![heads, dim];
    proof {
        assert(target@ =~= seq![heads, dim]);
    }
    t.pad_to_shape(Shape(target));
    let flat: Vec<usize> = vec![heads * dim];
    proof {
        assert(flat@ =~= seq![(heads * dim) as usize]);
    }
    t.reshape_in_place(Shape(flat));
    t
}

/// Padding of the projections, given the number of shapes of their outputs. The shapes are handed on by
/// `qkv_shapes`.
pub fn pad_qkv(qkv: QKV<Element>, si: &ShapeInfo, num_outputs: usize, expected_num_outputs: usize) -> (r: Result<
    QKV<Element>,
    PadError,
>)
    requires
        qkv_ok(&qkv, si@),
    ensures
        match r {
            Ok(p) => qkv_error(&qkv, si@, num_outputs as nat, expected_num_outputs as nat) is None && is_padded_qkv(
                &p,
                &qkv,
                si@[0],
            ),
            Err(e) => qkv_error(&qkv, si@, num_outputs as nat, expected_num_outputs as nat) == Some(e),
        },
{
    if si.shapes.len() != 1 {
        return Err(PadError::InputCount);
    }
    let sd = &si.shapes[0];
    assert(si@[0] == sd@);
    if sd.input_shape_og.rank() != 2 || sd.input_shape_padded.rank() != 2 {
        return Err(PadError::InputRank);
    }
    if num_outputs != expected_num_outputs {
        return Err(PadError::OutputCount);
    }
    if !sd.input_shape_padded.is_power_of_two() {
        return Err(PadError::NotPadded);
    }
    let width = sd.input_shape_padded.0[1];
    if qkv.q.shape.0[0] > width || qkv.k.shape.0[0] > width || qkv.v.shape.0[0] > width {
        return Err(PadError::TooManyRows);
    }
    let (num_heads, head_dim) = (qkv.num_heads, qkv.head_dim);
    let dim = pad_minimum(head_dim);
    let heads = pad_minimum(num_heads);
    let nrows = pad_minimum(width);
    proof {
        lemma_minimum(head_dim as nat);
        lemma_minimum(num_heads as nat);
        lemma_minimum(width as nat);
    }
    Ok(
        QKV {
            q: pad_weight(qkv.q, num_heads, head_dim, nrows, heads, dim),
            k: pad_weight(qkv.k, num_heads, head_dim, nrows, heads, dim),
            v: pad_weight(qkv.v, num_heads, head_dim, nrows, heads, dim),
            q_bias: pad_bias(qkv.q_bias, num_heads, head_dim, heads, dim),
            k_bias: pad_bias(qkv.k_bias, num_heads, head_dim, heads, dim),
            v_bias: pad_bias(qkv.v_bias, num_heads, head_dim, heads, dim),
            num_heads,
            head_dim,
        },
    )
}

/// The padded projection of a padded row holds the heads of the projection of the row, see `holds_heads`: entry `d` of
/// head `h` is the same, whatever the padded row holds beyond the entries of the row.
pub proof fn law_padded_projection(
    r: &Tensor<Element>,
    w: &Tensor<Element>,
    qkv: &QKV<Element>,
    dims: ShapeDims,
    x: Seq<Element>,
    xp: Seq<Element>,
    h: int,
    d: int,
)
    requires
        weight_ok(w, qkv),
        is_padded_weight(r, w, qkv, dims),
        w.shape@[0] <= qkv_dims(qkv, dims).0 <= usize::MAX,
        qkv_dims(qkv, dims).1 * qkv_dims(qkv, dims).2 <= usize::MAX,
        forall|t: int| 0 <= t < w.shape@[0] ==> #[trigger] xp[t] == x[t],
        0 <= h < qkv.num_heads,
        0 <= d < qkv.head_dim,
    ensures
        ({
            let (n, hs, k) = qkv_dims(qkv, dims);
            msum::<Element>(n, column_term(xp, r.data@, (hs * k) as int, h * k + d)) == msum::<Element>(
                w.shape@[0] as nat,
                column_term(x, w.data@, w.shape@[1] as int, h * qkv.head_dim + d),
            )
        }),
{
    let (n, hs, k) = qkv_dims(qkv, dims);
    let rows = w.shape@[0] as nat;
    let (a, b) = (qkv.num_heads, qkv.head_dim);
    lemma_minimum(a as nat);
    lemma_minimum(b as nat);
    assert(hs <= hs * k) by (nonlinear_arith)
        requires
            hs >= 0,
            k >= 1,
    ;
    assert(k <= hs * k) by (nonlinear_arith)
        requires
            k >= 0,
            hs >= 1,
    ;
    let s = seq![w.shape@[0], a, b];
    let t3 = seq![n as usize, hs as usize, k as usize];
    let f = column_term(xp, r.data@, (hs * k) as int, h * k + d);
    let g = column_term(x, w.data@, w.shape@[1] as int, h * b + d);
    assert forall|t: int| 0 <= t < n implies #[trigger] f(t) == (if t < rows {
        g(t)
    } else {
        0
    }) by {
        lemma_padded3(w.data@, s, t3, 0i64, t, h, d);
        let p = idx3(hs as int, k as int, t, h, d);
        assert(p == t * (hs * k) + (h * k + d));
        assert(r.data@[p] == padded_at(w.data@, s, t3, 0i64, p));
        let y = xp[t] as int;
        assert(y * 0 == 0);
    }
    lemma_msum_truncate::<Element>(n, rows, f);
    lemma_msum_eq::<Element>(rows, f, g);
}

/// `r` is what padding the projections for the shapes `ds` gives, and `after` are the shapes then: `pad_qkv` pads the
/// weights, and `qkv_shapes` hands the shapes of the outputs on.
pub open spec fn is_qkv_padding(
    r: Result<QKV<Element>, PadError>,
    after: Seq<ShapeDims>,
    qkv: &QKV<Element>,
    ds: Seq<ShapeDims>,
    og: Seq<Shape>,
    padded: Seq<Shape>,
    expected_num_outputs: nat,
) -> bool {
    let error = qkv_error(qkv, ds, og.len(), expected_num_outputs);
    match r {
        Ok(p) => {
            &&& error is None
            &&& og.len() == padded.len()
            &&& ds[0].garbage is None
            &&& is_padded_qkv(&p, qkv, ds[0])
            &&& after == clean_shapes(og, padded)
        },
        Err(e) => {
            &&& after == ds
            &&& error is Some || og.len() != padded.len() || ds[0].garbage is Some
            &&& e == (match error {
                Some(e) => e,
                None => if og.len() != padded.len() {
                    PadError::OutputCount
                } else {
                    PadError::Garbage
                },
            })
        },
    }
}

/// The shapes that the projections hand on, given those of their outputs.
pub fn qkv_shapes(si: &mut ShapeInfo, unpadded_output_shapes: Vec<Shape>, padded_output_shapes: Vec<Shape>) -> (r: Result<
    (),
    PadError,
>)
    requires
        old(si)@.len() == 1,
    ensures
        match r {
            Ok(_) => {
                &&& unpadded_output_shapes@.len() == padded_output_shapes@.len()
                &&& old(si)@[0].garbage is None
                &&& final(si)@ == clean_shapes(unpadded_output_shapes@, padded_output_shapes@)
            },
            Err(e) => {
                &&& *final(si) == *old(si)
                &&& e == (if unpadded_output_shapes@.len() != padded_output_shapes@.len() {
                    PadError::OutputCount
                } else {
                    PadError::Garbage
                })
                &&& unpadded_output_shapes@.len() != padded_output_shapes@.len() || old(si)@[0].garbage is Some
            },
        },
{
    if unpadded_output_shapes.len() != padded_output_shapes.len() {
        return Err(PadError::OutputCount);
    }
    assert(si@[0] == si.shapes@[0]@);
    if si.shapes[0].ignore_garbage_pad.is_some() {
        return Err(PadError::Garbage);
    }
    *si = clean_shape_info(unpadded_output_shapes, padded_output_shapes);
    Ok(())
}

} // verus!
