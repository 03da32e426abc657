//! What a padded layer computes, held against what the layer computes.
use crate::arith::{is_pow2, lemma_npot, lemma_npot_monotone};
use crate::layers::convolution::input::lemma_padded3;
use crate::layers::transformer::mha::garbage::column_term;
use crate::number::{lemma_msum_eq, lemma_msum_truncate, lemma_msum_zero, msum, Element};
use crate::padding::attention::{is_mha_padding, MhaShapes};
use crate::padding::model::{edge_error, model_inputs, sources, Edge};
use crate::padding::qkv::{is_padded_qkv, is_padded_weight, qkv_dims, qkv_error, weight_ok, QKV};
use crate::padding::shapes::{
    averaged, concat_error, flattened, is_average_padding, is_concat_padding, is_flattening, is_maximum_padding,
    is_reshape_padding, ConcatMatMulShapes, PooledShapes,
};
use crate::padding::weights::{
    dense_error, dense_ok, is_dense_padding, is_fitted, is_matmul_padding, law_fitted_product, matmul_error, matmul_ok,
    Dense, MatMul, OperandMatrix,
};
use crate::padding::{minimum, GarbageDims, PadError, ShapeDims, ShapeInfo};
use crate::layers::pooling::Pooling;
use crate::shape::{lemma_prod1, lemma_prod_of_rank, prod, Shape};
use crate::tensor::access::idx3;
use crate::tensor::garbage::{holds_in_corner, law_garbage_is_ignored};
use crate::tensor::linear::matvec_term;
use crate::tensor::pad::{all_pow2, padded_at};
use crate::tensor::Tensor;
use vstd::prelude::*;

verus! {

/// The padded size of a dimension is the least power of two that is at least four and at least the dimension.
pub proof fn law_least_padded_size(dim: nat, p: nat)
    ensures
        is_pow2(minimum(dim) as int),
        4 <= minimum(dim),
        dim <= minimum(dim),
        is_pow2(p as int) && 4 <= p && dim <= p ==> minimum(dim) <= p,
        minimum(minimum(dim)) == minimum(dim),
{
    lemma_npot(dim);
    lemma_npot(p);
    vstd::arithmetic::power2::lemma2_to64();
    assert(vstd::arithmetic::power2::pow2(2) == 4);
    if is_pow2(p as int) && dim <= p {
        lemma_npot_monotone(dim, p);
    }
    lemma_npot(minimum(dim));
}

/// Entry `i` of what a dense layer computes.
pub open spec fn dense_at(d: &Dense<Element>, x: Seq<Element>, i: int) -> int {
    let n = d.matrix.shape@[1];
    msum::<Element>(n as nat, matvec_term::<Element>(d.matrix.data@, x, n as int, i)) + d.bias.data@[i]
}

/// A padded dense layer computes what the layer computes, followed by zeros, whatever the padded input holds beyond the
/// entries of the input; its output has no garbage, and its shape is the one that is handed on.
pub proof fn law_padded_dense_layer(
    q: Dense<Element>,
    after: Seq<ShapeDims>,
    d: &Dense<Element>,
    ds: Seq<ShapeDims>,
    x: Seq<Element>,
    xp: Seq<Element>,
    i: int,
)
    requires
        dense_ok(d, ds),
        is_dense_padding(Ok(q), after, d, ds),
        ds[0].garbage is None,
        forall|j: int| 0 <= j < d.matrix.shape@[1] ==> #[trigger] xp[j] == x[j],
        0 <= i < q.matrix.shape@[0],
    ensures
        dense_at(&q, xp, i) == (if i < d.matrix.shape@[0] {
            dense_at(d, x, i)
        } else {
            0
        }),
        after.len() == 1,
        after[0].padded == seq![q.matrix.shape@[0]],
        after[0].padded == q.bias.shape@,
        after[0].og == seq![d.matrix.shape@[0]],
        after[0].garbage is None,
{
    lemma_npot(d.matrix.shape@[0] as nat);
    lemma_npot(crate::padding::weights::dense_width(ds[0]));
    law_fitted_product(
        &q.matrix,
        &d.matrix,
        q.matrix.shape@[0] as int,
        q.matrix.shape@[1] as int,
        x,
        xp,
        i,
    );
}

/// The sides of a padded dense layer are powers of two, at least four; its rows are as few as that allows, and it takes
/// all entries of the padded input.
pub proof fn law_sides_of_a_padded_dense_layer(
    q: Dense<Element>,
    after: Seq<ShapeDims>,
    d: &Dense<Element>,
    ds: Seq<ShapeDims>,
)
    requires
        dense_ok(d, ds),
        is_dense_padding(Ok(q), after, d, ds),
        ds[0].garbage is None || ds[0].garbage->0 is Convolution,
    ensures
        q.matrix.shape@ == seq![
            minimum(d.matrix.shape@[0] as nat) as usize,
            minimum(prod(ds[0].padded)) as usize,
        ],
        q.matrix.shape@[0] >= d.matrix.shape@[0],
        q.matrix.shape@[1] >= prod(ds[0].padded) >= d.matrix.shape@[1],
        q.bias.data@.len() == q.matrix.shape@[0],
        forall|i: int| d.matrix.shape@[0] <= i < q.matrix.shape@[0] ==> #[trigger] q.bias.data@[i] == 0,
        forall|i: int| 0 <= i < d.matrix.shape@[0] ==> #[trigger] q.bias.data@[i] == d.bias.data@[i],
{
    if ds[0].padded.len() == 1 {
        assert(ds[0].padded =~= seq![ds[0].padded[0]]);
        lemma_prod1(ds[0].padded[0]);
    }
    law_least_padded_size(d.matrix.shape@[0] as nat, 4);
    law_least_padded_size(prod(ds[0].padded), 4);
    lemma_npot(d.matrix.shape@[0] as nat);
    lemma_npot(prod(ds[0].padded));
    lemma_prod1(q.bias.shape@[0]);
    assert(q.matrix.shape@ =~= seq![
        minimum(d.matrix.shape@[0] as nat) as usize,
        minimum(prod(ds[0].padded)) as usize,
    ]);
}

/// A dense layer that follows a flattened output of a convolution computes, once both are padded, what the layer
/// computes of the output, whatever the padded output holds besides.
pub proof fn law_flattened_then_dense(
    q: Dense<Element>,
    after: Seq<ShapeDims>,
    d: &Dense<Element>,
    before: Seq<ShapeDims>,
    ds: Seq<ShapeDims>,
    x: Seq<Element>,
    xp: Seq<Element>,
    i: int,
)
    requires
        is_flattening(ds, before),
        dense_ok(d, ds),
        is_dense_padding(Ok(q), after, d, ds),
        before.len() == 1,
        before[0].og.len() == 3,
        before[0].padded.len() == 3,
        before[0].og[0] <= before[0].padded[0],
        before[0].og[1] <= before[0].padded[1],
        before[0].og[2] <= before[0].padded[2],
        prod(before[0].padded) >= 4,
        d.matrix.wf(),
        d.matrix.shape@[1] == prod(before[0].og),
        x.len() == prod(before[0].og),
        xp.len() == prod(before[0].padded),
        holds_in_corner::<Element>(xp, x, before[0].og, before[0].padded),
        0 <= i < q.matrix.shape@[0],
    ensures
        dense_at(&q, xp, i) == (if i < d.matrix.shape@[0] {
            dense_at(d, x, i)
        } else {
            0
        }),
        after[0].garbage is None,
{
    let b = before[0];
    assert(ds[0] == flattened(b));
    law_sides_of_a_padded_dense_layer(q, after, d, ds);
    assert(is_pow2(prod(b.padded) as int)) by {
        lemma_product_of_powers(b.padded);
    }
    lemma_npot(prod(b.padded));
    law_garbage_is_ignored::<Element>(d.matrix, q.matrix, x, xp, b.og, b.padded, i);
}

/// A product of powers of two is a power of two.
proof fn lemma_product_of_powers(s: Seq<usize>)
    requires
        all_pow2(s),
    ensures
        is_pow2(prod(s) as int),
    decreases s.len(),
{
    vstd::arithmetic::power2::lemma2_to64();
    if s.len() == 0 {
        assert(vstd::arithmetic::power2::pow2(0) == prod(s));
    } else {
        assert forall|i: int| 0 <= i < s.skip(1).len() implies is_pow2(#[trigger] s.skip(1)[i] as int) by {
            assert(s.skip(1)[i] == s[i + 1]);
        }
        lemma_product_of_powers(s.skip(1));
        assert(is_pow2(s[0] as int));
        let a = choose|e: nat| vstd::arithmetic::power2::pow2(e) == s[0];
        let b = choose|e: nat| vstd::arithmetic::power2::pow2(e) == prod(s.skip(1));
        vstd::arithmetic::power2::lemma_pow2_adds(a, b);
        assert(vstd::arithmetic::power2::pow2((a + b) as nat) == prod(s));
    }
}

/// A dense layer is padded exactly where it has one padded input, with at least as many entries as the matrix has
/// columns, a bias for each row, and garbage that can be removed.
pub proof fn law_paddable_dense_layers(d: &Dense<Element>, ds: Seq<ShapeDims>)
    requires
        dense_ok(d, ds),
        ds.len() == 1 ==> ds[0].garbage is None || ds[0].garbage->0 is Convolution,
    ensures
        dense_error(d, ds) is None <==> {
            &&& ds.len() == 1
            &&& d.bias.data@.len() == d.matrix.shape@[0]
            &&& forall|i: int| 0 <= i < ds[0].padded.len() ==> is_pow2(#[trigger] ds[0].padded[i] as int)
            &&& d.matrix.shape@[1] <= prod(ds[0].padded)
        },
{
    if ds.len() == 1 && ds[0].padded.len() == 1 {
        assert(ds[0].padded =~= seq![ds[0].padded[0]]);
        lemma_prod1(ds[0].padded[0]);
    }
}

/// Column `j` of a padded matrix weights a padded row as column `j` of the matrix weights the row; the further columns
/// give zero.
pub proof fn law_fitted_columns(
    r: &Tensor<Element>,
    m: &Tensor<Element>,
    rows: int,
    cols: int,
    x: Seq<Element>,
    xp: Seq<Element>,
    j: int,
)
    requires
        is_fitted(r, m, rows, cols),
        m.shape@.len() == 2,
        m.shape@[0] <= rows,
        forall|t: int| 0 <= t < m.shape@[0] ==> #[trigger] xp[t] == x[t],
        0 <= j < cols,
    ensures
        msum::<Element>(rows as nat, column_term::<Element>(xp, r.data@, cols, j)) == (if j < m.shape@[1] {
            msum::<Element>(m.shape@[0] as nat, column_term::<Element>(x, m.data@, m.shape@[1] as int, j))
        } else {
            0
        }),
{
    let n = m.shape@[0] as nat;
    let f = column_term::<Element>(xp, r.data@, cols, j);
    let g = column_term::<Element>(x, m.data@, m.shape@[1] as int, j);
    assert forall|t: int| 0 <= t < rows implies #[trigger] f(t) == (if t < n && j < m.shape@[1] {
        g(t)
    } else {
        0
    }) by {
        let y = xp[t] as int;
        assert(r.data@[t * cols + j] == (if t < n && j < m.shape@[1] {
            m.data@[t * m.shape@[1] + j]
        } else {
            0
        }));
        assert(y * 0 == 0);
    }
    if j < m.shape@[1] {
        lemma_msum_truncate::<Element>(rows as nat, n, f);
        lemma_msum_eq::<Element>(n, f, g);
    } else {
        lemma_msum_zero::<Element>(rows as nat, f);
    }
}

/// An input times padded weights without garbage to remove is the input times the weights, followed by zeros; the
/// shape that is handed on has the rows of the input and the columns of the padded weights.
pub proof fn law_padded_product_by_weights(
    q: MatMul<Element>,
    after: Seq<ShapeDims>,
    m: &MatMul<Element>,
    ds: Seq<ShapeDims>,
    outputs: Seq<Shape>,
    w: Tensor<Element>,
    wp: Tensor<Element>,
    x: Seq<Element>,
    xp: Seq<Element>,
    j: int,
)
    requires
        matmul_ok(m, ds),
        is_matmul_padding(Ok(q), after, m, ds, outputs),
        m.left_matrix is Input,
        m.right_matrix == OperandMatrix::Weight(w),
        q.right_matrix == OperandMatrix::Weight(wp),
        !m.right_transposed,
        ds[0].garbage is None,
        forall|t: int| 0 <= t < w.shape@[0] ==> #[trigger] xp[t] == x[t],
        0 <= j < wp.shape@[1],
    ensures
        msum::<Element>(wp.shape@[0] as nat, column_term::<Element>(xp, wp.data@, wp.shape@[1] as int, j)) == (if j
            < w.shape@[1] {
            msum::<Element>(w.shape@[0] as nat, column_term::<Element>(x, w.data@, w.shape@[1] as int, j))
        } else {
            0
        }),
        wp.shape@[0] == ds[0].padded[1],
        after.len() == 1,
        after[0].padded == seq![ds[0].padded[0], wp.shape@[1]],
        after[0].og == outputs[0]@,
        after[0].garbage is None,
        q.left_matrix is Input,
        !q.right_transposed,
{
    law_fitted_columns(&wp, &w, wp.shape@[0] as int, wp.shape@[1] as int, x, xp, j);
    assert(after[0].padded =~= seq![ds[0].padded[0], wp.shape@[1]]);
}

/// Padded weights times an input are the weights times the input, followed by rows of zeros.
pub proof fn law_padded_weights_by_input(
    q: MatMul<Element>,
    after: Seq<ShapeDims>,
    m: &MatMul<Element>,
    ds: Seq<ShapeDims>,
    outputs: Seq<Shape>,
    w: Tensor<Element>,
    wp: Tensor<Element>,
    x: Seq<Element>,
    xp: Seq<Element>,
    i: int,
)
    requires
        matmul_ok(m, ds),
        is_matmul_padding(Ok(q), after, m, ds, outputs),
        m.right_matrix is Input,
        m.left_matrix == OperandMatrix::Weight(w),
        q.left_matrix == OperandMatrix::Weight(wp),
        forall|t: int| 0 <= t < w.shape@[1] ==> #[trigger] xp[t] == x[t],
        0 <= i < wp.shape@[0],
    ensures
        msum::<Element>(wp.shape@[1] as nat, matvec_term::<Element>(wp.data@, xp, wp.shape@[1] as int, i)) == (if i
            < w.shape@[0] {
            msum::<Element>(w.shape@[1] as nat, matvec_term::<Element>(w.data@, x, w.shape@[1] as int, i))
        } else {
            0
        }),
        after.len() == 1,
        after[0].padded[0] == wp.shape@[0],
        after[0].garbage is None,
        q.right_matrix is Input,
{
    law_fitted_product(&wp, &w, wp.shape@[0] as int, wp.shape@[1] as int, x, xp, i);
}

/// A product of two inputs is padded where the columns of the one meet the rows of the other and neither has garbage;
/// it hands on the rows of the one and the columns of the other.
pub proof fn law_product_of_inputs(
    m: &MatMul<Element>,
    ds: Seq<ShapeDims>,
    q: MatMul<Element>,
    after: Seq<ShapeDims>,
    outputs: Seq<Shape>,
)
    requires
        m.left_matrix is Input,
        m.right_matrix is Input,
        ds.len() == 2,
        ds[0].padded.len() == 2,
        ds[1].padded.len() == 2,
        ds[0].og.len() == 2,
        ds[1].og.len() == 2,
        outputs.len() == 1,
    ensures
        matmul_error(m, ds, 1) is None <==> {
            &&& ds[0].padded[1] == (if m.right_transposed {
                ds[1].padded[1]
            } else {
                ds[1].padded[0]
            })
            &&& ds[0].garbage is None
            &&& ds[1].garbage is None
        },
        is_matmul_padding(Ok(q), after, m, ds, outputs) ==> {
            &&& after.len() == 1
            &&& after[0].padded == seq![
                ds[0].padded[0],
                if m.right_transposed {
                    ds[1].padded[0]
                } else {
                    ds[1].padded[1]
                },
            ]
            &&& q.left_matrix is Input && q.right_matrix is Input
            &&& q.bias is Some <==> m.bias is Some
            &&& q.right_transposed == m.right_transposed
        },
{
    assert(ds.last() == ds[1]);
    assert(m.left_shape(ds) == ds[0].padded);
    assert(m.right_target(ds) == ds[1].padded);
    assert(crate::padding::weights::all_matrices(ds));
    if ds[0].garbage is None && ds[1].garbage is None {
        assert(crate::padding::weights::all_clean(ds));
    }
    if is_matmul_padding(Ok(q), after, m, ds, outputs) {
        assert(after[0].padded =~= seq![
            ds[0].padded[0],
            if m.right_transposed {
                ds[1].padded[0]
            } else {
                ds[1].padded[1]
            },
        ]);
    }
}

/// Padding does not tell queries, keys and values apart: changing the roles of the weights changes the roles of the
/// padded weights, and nothing else.
pub proof fn law_projections_are_alike(
    p: QKV<Element>,
    a: QKV<Element>,
    q: QKV<Element>,
    b: QKV<Element>,
    d: ShapeDims,
    num_outputs: nat,
    expected: nat,
)
    requires
        a.num_heads == b.num_heads,
        a.head_dim == b.head_dim,
        b.q == a.k && b.k == a.v && b.v == a.q,
        b.q_bias == a.k_bias && b.k_bias == a.v_bias && b.v_bias == a.q_bias,
        is_padded_qkv(&p, &a, d),
        is_padded_qkv(&q, &b, d),
    ensures
        qkv_error(&a, seq![d], num_outputs, expected) == qkv_error(&b, seq![d], num_outputs, expected),
        q.q.data@ == p.k.data@ && q.k.data@ == p.v.data@ && q.v.data@ == p.q.data@,
        q.q.shape@ == p.k.shape@ && q.k.shape@ == p.v.shape@ && q.v.shape@ == p.q.shape@,
        q.q_bias.data@ == p.k_bias.data@ && q.k_bias.data@ == p.v_bias.data@ && q.v_bias.data@ == p.q_bias.data@,
        q.num_heads == p.num_heads && q.head_dim == p.head_dim,
{
}

/// The projections are padded exactly where there is one padded matrix as input, with as many columns as any of the
/// weights has rows, and as many outputs as are expected.
pub proof fn law_paddable_projections(a: QKV<Element>, ds: Seq<ShapeDims>, num_outputs: nat, expected: nat)
    ensures
        qkv_error(&a, ds, num_outputs, expected) is None <==> {
            &&& ds.len() == 1
            &&& ds[0].og.len() == 2
            &&& ds[0].padded.len() == 2
            &&& is_pow2(ds[0].padded[0] as int)
            &&& is_pow2(ds[0].padded[1] as int)
            &&& num_outputs == expected
            &&& a.q.shape@[0] <= ds[0].padded[1]
            &&& a.k.shape@[0] <= ds[0].padded[1]
            &&& a.v.shape@[0] <= ds[0].padded[1]
        },
{
    if ds.len() == 1 && ds[0].padded.len() == 2 {
        let s = ds[0].padded;
        if is_pow2(s[0] as int) && is_pow2(s[1] as int) {
            assert(all_pow2(s));
        }
    }
}

/// The padded projection holds nothing between the heads: an entry beyond the width of a head, or of a head beyond the
/// last one, is zero, whatever the padded row holds.
pub proof fn law_nothing_between_the_heads(
    r: &Tensor<Element>,
    w: &Tensor<Element>,
    qkv: &QKV<Element>,
    dims: ShapeDims,
    xp: Seq<Element>,
    h: int,
    d: int,
)
    requires
        weight_ok(w, qkv),
        is_padded_weight(r, w, qkv, dims),
        w.shape@[0] <= qkv_dims(qkv, dims).0 <= usize::MAX,
        qkv_dims(qkv, dims).1 * qkv_dims(qkv, dims).2 <= usize::MAX,
        0 <= h < qkv_dims(qkv, dims).1,
        0 <= d < qkv_dims(qkv, dims).2,
        h >= qkv.num_heads || d >= qkv.head_dim,
    ensures
        ({
            let (n, hs, k) = qkv_dims(qkv, dims);
            msum::<Element>(n, column_term(xp, r.data@, (hs * k) as int, h * k + d)) == 0
        }),
{
    let (n, hs, k) = qkv_dims(qkv, dims);
    let (a, b) = (qkv.num_heads, qkv.head_dim);
    assert(hs <= hs * k) by (nonlinear_arith)
        requires
            hs >= 0,
            k >= 1,
    ;
    assert(k <= hs * k) by (nonlinear_arith)
        requires
            k >= 0,
            hs >= 1,
    ;
    let s = seq![w.shape@[0], a, b];
    let t3 = seq![n as usize, hs as usize, k as usize];
    let f = column_term(xp, r.data@, (hs * k) as int, h * k + d);
    assert forall|t: int| 0 <= t < n implies #[trigger] f(t) == 0 by {
        lemma_padded3(w.data@, s, t3, 0i64, t, h, d);
        let p = idx3(hs as int, k as int, t, h, d);
        assert(p == t * (hs * k) + (h * k + d));
        assert(r.data@[p] == padded_at(w.data@, s, t3, 0i64, p));
        let y = xp[t] as int;
        assert(y * 0 == 0);
    }
    lemma_msum_zero::<Element>(n, f);
}

/// Flattening keeps the shapes and calls everything beyond the output garbage: it forgets what garbage was there before,
/// and flattening again changes nothing.
pub proof fn law_flattening(a: ShapeDims, b: ShapeDims)
    requires
        a.padded == b.padded,
        a.og == b.og,
    ensures
        flattened(a) == flattened(b),
        flattened(flattened(a)) == flattened(a),
        flattened(a).padded == a.padded,
        flattened(a).og == a.og,
        flattened(a).garbage == Some(GarbageDims::Convolution(a.og, a.padded)),
{
}

/// A maximum layer gives one output for each input; it keeps the garbage of the input, and its shapes are those of the
/// output.
pub proof fn law_padded_maximum(
    q: Pooling,
    after: Seq<ShapeDims>,
    p: Pooling,
    ds: Seq<ShapeDims>,
    outputs: Seq<PooledShapes>,
    i: int,
)
    requires
        outputs.len() == ds.len(),
        is_maximum_padding(Ok(q), after, p, ds, outputs),
        0 <= i < ds.len(),
    ensures
        q == p,
        after.len() == ds.len(),
        after[i].garbage == ds[i].garbage,
        outputs[i].padded matches Some(s) && s@ == after[i].padded,
        outputs[i].og matches Some(s) && s@ == after[i].og,
        all_pow2(ds[i].padded),
{
    assert(crate::padding::shapes::pools(ds[i], outputs[i]));
}

/// A layer that averages every plane hands on a plane of one entry for each channel, before and after padding; it keeps
/// the garbage, and averaging again changes nothing.
pub proof fn law_padded_average(q: Pooling, after: Seq<ShapeDims>, p: Pooling, ds: Seq<ShapeDims>, i: int)
    requires
        is_average_padding(Ok(q), after, p, ds),
        0 <= i < ds.len(),
    ensures
        q == p,
        after.len() == ds.len(),
        after[i].garbage == ds[i].garbage,
        after[i].padded.len() == 3,
        after[i].padded[0] == ds[i].padded[0],
        prod(after[i].padded) == ds[i].padded[0],
        after[i].og.len() == 3,
        after[i].og[0] == ds[i].og[0],
        prod(after[i].og) == ds[i].og[0],
        averaged(after[i]) == after[i],
{
    lemma_prod_of_rank(after[i].padded);
    lemma_prod_of_rank(after[i].og);
    assert(averaged(after[i]).padded =~= after[i].padded);
    assert(averaged(after[i]).og =~= after[i].og);
    let (a, b) = (ds[i].padded[0] as int, ds[i].og[0] as int);
    assert(a * 1 * 1 == a && a * (1 * 1) == a && b * 1 * 1 == b && b * (1 * 1) == b) by (nonlinear_arith);
}

/// A product of two batches treats its inputs alike: changing their order changes neither whether it is padded nor what
/// it hands on. It is padded where both are padded and neither has garbage, and hands no garbage on.
pub proof fn law_padded_batches(a: ShapeDims, b: ShapeDims, m: ConcatMatMulShapes, after: Seq<ShapeDims>, i: int)
    ensures
        concat_error(seq![a, b], m) == concat_error(seq![b, a], m),
        concat_error(seq![a, b], m) is None <==> {
            &&& m.unpadded_consistent
            &&& m.padded_consistent
            &&& m.unpadded_output_shapes@.len() == m.expected_num_outputs
            &&& m.padded_output_shapes@.len() == m.expected_num_outputs
            &&& all_pow2(a.padded) && all_pow2(b.padded)
            &&& a.garbage is None && b.garbage is None
        },
        is_concat_padding(Ok(()), after, m, seq![a, b]) == is_concat_padding(Ok(()), after, m, seq![b, a]),
        is_concat_padding(Ok(()), after, m, seq![a, b]) ==> {
            &&& after.len() == m.expected_num_outputs
            &&& 0 <= i < after.len() ==> {
                &&& after[i].garbage is None
                &&& after[i].og == m.unpadded_output_shapes@[i]@
                &&& after[i].padded == m.padded_output_shapes@[i]@
            }
        },
{
}

/// A reshape gives each input that has an output its shapes, keeps the garbage, and leaves the other inputs as they are.
pub proof fn law_padded_reshape(
    after: Seq<ShapeDims>,
    og: Seq<Shape>,
    padded: Seq<Shape>,
    ds: Seq<ShapeDims>,
    i: int,
)
    requires
        is_reshape_padding(Ok(()), after, og, padded, ds),
        0 <= i < ds.len(),
    ensures
        og.len() == padded.len(),
        after.len() == ds.len(),
        after[i].garbage == ds[i].garbage,
        i < og.len() ==> after[i].og == og[i]@ && after[i].padded == padded[i]@,
        i >= og.len() ==> after[i] == ds[i],
{
}

/// A padded attention layer hands on one output, whose garbage is what lies between the padded heads of the last
/// product; none of its inputs has garbage, nor has what the softmax hands on, and the values wait for the last
/// product.
pub proof fn law_padded_attention(
    q: crate::layers::transformer::mha::Mha,
    after: Seq<ShapeDims>,
    m: &crate::layers::transformer::mha::Mha,
    ds: Seq<ShapeDims>,
    s: MhaShapes,
    weights: ShapeInfo,
)
    requires
        ds.len() == 3,
        s.inputs.unpadded@.len() == 3,
        s.outputs.unpadded@.len() == 1,
        s.softmax == Ok::<ShapeInfo, PadError>(weights),
        weights@.len() == 1,
        is_mha_padding(Ok(q), after, m, ds, s),
    ensures
        ds[0].garbage is None,
        ds[1].garbage is None,
        ds[2].garbage is None,
        weights@[0].garbage is None,
        s.qk.unpadded_consistent && s.qk.padded_consistent,
        s.final_mul.unpadded_consistent && s.final_mul.padded_consistent,
        after.len() == 1,
        after[0].og == s.outputs.unpadded@[0]@,
        after[0].padded == s.outputs.padded@[0]@,
        after[0].garbage == Some(
            GarbageDims::MHA(
                s.final_mul.unpadded_output_shapes@[0]@,
                s.final_mul.padded_output_shapes@[0]@,
            ),
        ),
{
    let r = crate::padding::shapes::reshaped(ds, s.inputs.unpadded@, s.inputs.padded@);
    let qk = crate::padding::attention::qk_shapes(ds, s);
    assert(qk[0] == r[0] && qk[1] == r[1]);
    let last = crate::padding::attention::final_mul_shapes(ds, s);
    assert(last[0] == weights@[0] && last[1] == r[2]);
}

/// Attention is not padded where a part of it is not: what keeps the scores from being padded is reported, whatever the
/// later parts are.
pub proof fn law_scores_come_first(
    a: Result<crate::layers::transformer::mha::Mha, PadError>,
    after: Seq<ShapeDims>,
    m: &crate::layers::transformer::mha::Mha,
    ds: Seq<ShapeDims>,
    s: MhaShapes,
)
    requires
        ds.len() == 3,
        s.inputs.unpadded@.len() == 3,
        s.inputs.padded@.len() == 3,
        ds[0].garbage is Some || ds[1].garbage is Some || !s.qk.unpadded_consistent || !s.qk.padded_consistent,
        is_mha_padding(a, after, m, ds, s),
    ensures
        a is Err,
        after.len() == 2,
{
    let r = crate::padding::shapes::reshaped(ds, s.inputs.unpadded@, s.inputs.padded@);
    let qk = crate::padding::attention::qk_shapes(ds, s);
    assert(qk[0] == r[0] && qk[1] == r[1]);
    assert(qk.len() == 2);
}

/// An edge chooses an output of the node that it names, or an input of the model where it names none: the shapes of
/// other nodes do not matter.
pub proof fn law_edges_choose(
    e: Edge,
    a: Map<usize, ShapeInfo>,
    b: Map<usize, ShapeInfo>,
    inputs: Seq<ShapeDims>,
)
    requires
        e.node matches Some(n) ==> a.contains_key(n) == b.contains_key(n) && a[n] == b[n],
    ensures
        edge_error(e, a, inputs) == edge_error(e, b, inputs),
        sources(e, a, inputs) == sources(e, b, inputs),
        e.node is None ==> (edge_error(e, a, inputs) is None <==> e.index < inputs.len()) && sources(e, a, inputs)
            == Some(inputs),
        e.node matches Some(n) ==> (edge_error(e, a, inputs) is None <==> a.contains_key(n) && e.index < a[n]@.len()),
        e.node matches Some(n) ==> (edge_error(e, a, inputs) == Some(PadError::UnknownNode) <==> !a.contains_key(n)),
{
}

/// The inputs of a model have no garbage, and there are as many as both lists have shapes for.
pub proof fn law_inputs_of_a_model(unpadded: Seq<Shape>, padded: Seq<Shape>, i: int)
    requires
        0 <= i < model_inputs(unpadded, padded).len(),
    ensures
        i < unpadded.len(),
        i < padded.len(),
        model_inputs(unpadded, padded)[i].og == unpadded[i]@,
        model_inputs(unpadded, padded)[i].padded == padded[i]@,
        model_inputs(unpadded, padded)[i].garbage is None,
        model_inputs(unpadded, padded).len() == unpadded.len() || model_inputs(unpadded, padded).len() == padded.len(),
{
}

} // verus!
