//! What padding hands on from layer to layer, and where it stops.
use crate::arith::{is_pow2, lemma_npot, npot};
use crate::layers::convolution::handed_on::is_least_power;
use crate::layers::convolution::Convolution;
use crate::layers::pooling::Pooling;
use crate::layers::convolution::apply::framed_shape;
use crate::layers::transformer::mha::garbage::{column_term, holds_heads, law_mha_garbage_is_ignored};
use crate::number::{msum, Element};
use crate::padding::attention::{is_mha_padding, MhaShapes};
use crate::padding::conv::{
    conv_ok, effective_og, effective_padded, is_conv_padding, pad_conv_error,
};
use crate::padding::model::{are_chosen, edge_error, is_edge_error, known_shapes, Edge, Node};
use crate::padding::qkv::{bias_ok, is_padded_bias, is_qkv_padding, QKV};
use crate::padding::shapes::{half_pooled, is_average_padding, is_maximum_padding, PooledShapes};
use crate::padding::weights::{dense_ok, is_dense_padding, is_matmul_padding, matmul_ok, Dense, MatMul, OperandMatrix};
use crate::padding::{minimum, GarbageDims, PadError, ShapeDims, ShapeInfo};
use crate::shape::{lemma_prod1, lemma_prod2, prod, Shape};
use crate::tensor::pad::{all_pow2, npots, padded, padded_at};
use crate::tensor::Tensor;
use vstd::prelude::*;

verus! {

/// A convolution is padded exactly where it has one padded input made of planes, a supported filter with a bias for each
/// channel of the output, output shapes, and a kernel that is not larger than the padded input.
pub proof fn law_paddable_convolutions(
    c: &Convolution<Element>,
    ds: Seq<ShapeDims>,
    filter_ok: bool,
    og: Option<Shape>,
    padded: Option<Shape>,
)
    requires
        conv_ok(c, ds, filter_ok, og, padded),
    ensures
        pad_conv_error(c, ds, filter_ok, og, padded) is None <==> {
            &&& ds.len() == 1
            &&& filter_ok
            &&& c.filter.shape@[0] == c.bias.shape@[0]
            &&& ds[0].padded.len() == 3
            &&& is_pow2(ds[0].padded[0] as int)
            &&& is_pow2(ds[0].padded[1] as int)
            &&& is_pow2(ds[0].padded[2] as int)
            &&& og is Some
            &&& padded is Some
            &&& npot(c.filter.shape@[2] as nat) <= effective_padded(c, ds[0])[1]
            &&& npot(c.filter.shape@[3] as nat) <= effective_padded(c, ds[0])[2]
        },
        pad_conv_error(c, ds, filter_ok, og, padded) == Some(PadError::FilterSize) ==> npot(
            c.filter.shape@[2] as nat,
        ) > effective_padded(c, ds[0])[1] || npot(c.filter.shape@[3] as nat) > effective_padded(c, ds[0])[2],
{
    let f = c.filter.shape@;
    assert(npot(f[2] as nat) <= usize::MAX && npot(f[3] as nat) <= usize::MAX);
    assert(npots(f)[2] == npot(f[2] as nat) && npots(f)[3] == npot(f[3] as nat));
    if ds.len() == 1 && ds[0].padded.len() == 3 {
        let p = ds[0].padded;
        if is_pow2(p[0] as int) && is_pow2(p[1] as int) && is_pow2(p[2] as int) {
            assert(all_pow2(p));
        }
    }
}

/// A frame adds its lines and columns on both sides of the input before padding; without one the shapes stay as they
/// are, and with one the padded shape has the least powers of two.
pub proof fn law_effective_shapes(c: &Convolution<Element>, d: ShapeDims, i: int)
    requires
        d.og.len() == 3,
        d.og[1] + 2 * c.frame().0 <= usize::MAX,
        d.og[2] + 2 * c.frame().1 <= usize::MAX,
        crate::tensor::pad::npots_fit(effective_og(c, d)),
        0 <= i < 3,
        effective_og(c, d)[i] >= 1,
    ensures
        effective_og(c, d).len() == 3,
        effective_og(c, d)[0] == d.og[0],
        effective_og(c, d)[1] == d.og[1] + 2 * c.input_padding@[0],
        effective_og(c, d)[2] == d.og[2] + 2 * c.input_padding@[1],
        c.input_padding@[0] == 0 && c.input_padding@[1] == 0 ==> effective_padded(c, d) == d.padded,
        c.input_padding@[0] > 0 || c.input_padding@[1] > 0 ==> effective_padded(c, d).len() == 3 && is_least_power(
            effective_padded(c, d)[i] as int,
            effective_og(c, d)[i] as int,
        ),
{
    let e = effective_og(c, d);
    lemma_npot(e[i] as nat);
    assert(npot(e[i] as nat) <= usize::MAX);
}

/// A padded convolution hands on the shape of its output before padding, and the padded one rounded up to powers of
/// two; it keeps the garbage of its input. Where it fails before the output has a shape, nothing changes.
pub proof fn law_padded_convolution_hands_on(
    r: Result<Convolution<Element>, PadError>,
    after: Seq<ShapeDims>,
    c: &Convolution<Element>,
    ds: Seq<ShapeDims>,
    filter_ok: bool,
    og: Option<Shape>,
    padded: Option<Shape>,
    i: int,
)
    requires
        conv_ok(c, ds, filter_ok, og, padded),
        is_conv_padding(r, after, c, ds, filter_ok, og, padded),
    ensures
        r is Ok ==> {
            &&& after.len() == 1
            &&& after[0].og == og->0@
            &&& after[0].garbage == ds[0].garbage
            &&& after[0].padded.len() == padded->0@.len()
            &&& 0 <= i < padded->0@.len() && padded->0@[i] >= 1 ==> is_least_power(
                after[0].padded[i] as int,
                padded->0@[i] as int,
            )
        },
        r is Err && og is None ==> after == ds,
        r is Err && after != ds ==> {
            &&& after.len() == 1
            &&& after[0].og == og->0@
            &&& after[0].padded == ds[0].padded
            &&& after[0].garbage == ds[0].garbage
        },
        r == Err::<Convolution<Element>, PadError>(PadError::InputCount) ==> ds.len() != 1 && after == ds,
{
    if r is Ok && 0 <= i < padded->0@.len() {
        let s = padded->0@;
        assert(npot(s[i] as nat) <= usize::MAX);
        lemma_npot(s[i] as nat);
    }
}

/// The parts of a padded convolution: the filter and the bias stand in the corner of the padded ones, which hold zeros
/// elsewhere, and the frame, the stride and the shape before padding stay.
pub proof fn law_padded_convolution_keeps(
    q: Convolution<Element>,
    c: &Convolution<Element>,
    og: Seq<usize>,
    k: int,
)
    requires
        crate::padding::conv::paddable_for(c, og),
        crate::padding::conv::is_padded_conv(&q, c, og),
        0 <= k < q.bias.data@.len(),
    ensures
        q.bias.data@[k] == (if k < c.bias.data@.len() {
            c.bias.data@[k]
        } else {
            0
        }),
        q.bias.data@.len() == npot(c.bias.data@.len()),
        q.unpadded_shape@ == c.unpadded_shape@,
        q.input_padding == c.input_padding,
        q.stride == c.stride,
        q.filter.shape@[2] == q.filter.shape@[3],
        q.filter.og_shape@ == npots(c.filter.shape@),
        q.filter.data@.len() == prod(npots(c.filter.shape@)),
{
    let s = c.bias.shape@;
    let n = npot(s[0] as nat) as usize;
    assert(npot(s[0] as nat) <= usize::MAX);
    assert(s =~= seq![s[0]]);
    assert(npots(s) =~= seq![n]);
    lemma_prod1(s[0]);
    lemma_prod1(n);
    lemma_padded1(c.bias.data@, s[0], n, k);
    lemma_npot(s[0] as nat);
}

/// A padded vector.
proof fn lemma_padded1(d: Seq<Element>, a: usize, b: usize, k: int)
    requires
        d.len() == a,
        0 <= k < b,
    ensures
        padded(d, seq![a], seq![b], 0i64)[k] == (if k < a {
            d[k]
        } else {
            0
        }),
{
    lemma_prod1(b);
    crate::shape::lemma_flat_coords(seq![b], k);
    let c = crate::shape::coords(seq![b], k);
    assert(crate::shape::in_bounds(seq![b], c));
    reveal_with_fuel(crate::shape::flat, 3);
    reveal_with_fuel(prod, 3);
    assert(c.len() == 1);
    assert(c =~= seq![c[0]]);
    assert(seq![b].skip(1) =~= Seq::<usize>::empty());
    assert(seq![a].skip(1) =~= Seq::<usize>::empty());
    assert(c.skip(1) =~= Seq::<int>::empty());
    assert(crate::shape::flat(seq![b], c) == c[0] * 1 + 0);
    assert(c[0] == k);
    assert(crate::shape::flat(seq![a], c) == c[0] * 1 + 0);
    if k < a {
        assert(crate::shape::in_bounds(seq![a], c));
    } else {
        assert(!(c[0] < seq![a][0]));
    }
}

/// The bias of a padded product stands in the corner of the padded one, which holds zeros elsewhere, and is as long as
/// the product has columns.
pub proof fn law_padded_bias_of_a_product(
    q: MatMul<Element>,
    after: Seq<ShapeDims>,
    m: &MatMul<Element>,
    ds: Seq<ShapeDims>,
    outputs: Seq<Shape>,
    k: int,
)
    requires
        matmul_ok(m, ds),
        is_matmul_padding(Ok(q), after, m, ds, outputs),
        m.bias is Some,
        0 <= k < after[0].padded[1],
    ensures
        q.bias is Some,
        q.bias->0.data@.len() == after[0].padded[1],
        q.bias->0.data@[k] == (if k < m.bias->0.data@.len() {
            m.bias->0.data@[k]
        } else {
            0
        }),
{
    let b = m.bias->0;
    let n = after[0].padded[1];
    assert(b.shape@ =~= seq![b.shape@[0]]);
    lemma_prod1(b.shape@[0]);
    lemma_prod1(n);
    lemma_padded1(b.data@, b.shape@[0], n, k);
}

/// The weights of a padded product: those on the left take as many columns as the input has rows, those on the right as
/// many rows as the input has columns, and both have as few further rows or columns as a power of two of at least four
/// asks for.
pub proof fn law_sides_of_padded_weights(
    q: MatMul<Element>,
    after: Seq<ShapeDims>,
    m: &MatMul<Element>,
    ds: Seq<ShapeDims>,
    outputs: Seq<Shape>,
)
    requires
        matmul_ok(m, ds),
        is_matmul_padding(Ok(q), after, m, ds, outputs),
        ds[0].garbage is None,
    ensures
        q.left_matrix matches OperandMatrix::Weight(wp) ==> (m.left_matrix matches OperandMatrix::Weight(w)
            && wp.shape@ == seq![minimum(w.shape@[0] as nat) as usize, ds[0].padded[0]]),
        q.right_matrix matches OperandMatrix::Weight(wp) ==> (m.right_matrix matches OperandMatrix::Weight(w)
            && wp.shape@ == seq![ds[0].padded[1], minimum(w.shape@[1] as nat) as usize]),
        q.right_matrix matches OperandMatrix::Weight(wp) ==> after[0].padded[1] == (if m.right_transposed {
            wp.shape@[0]
        } else {
            wp.shape@[1]
        }),
        q.left_matrix matches OperandMatrix::Weight(wp) ==> after[0].padded[0] == wp.shape@[0],
        q.left_matrix is Input ==> after[0].padded[0] == ds[0].padded[0],
{
    if let OperandMatrix::Weight(w) = m.left_matrix {
        let wp = q.left_matrix->Weight_0;
        assert(wp.shape@ =~= seq![minimum(w.shape@[0] as nat) as usize, ds[0].padded[0]]);
    }
    if let OperandMatrix::Weight(w) = m.right_matrix {
        let wp = q.right_matrix->Weight_0;
        assert(wp.shape@ =~= seq![ds[0].padded[1], minimum(w.shape@[1] as nat) as usize]);
    }
}

/// A product that is not padded keeps its shapes; only the garbage that the weights on the right remove may be gone.
pub proof fn law_product_that_is_not_padded(
    e: PadError,
    after: Seq<ShapeDims>,
    m: &MatMul<Element>,
    ds: Seq<ShapeDims>,
    outputs: Seq<Shape>,
    i: int,
)
    requires
        matmul_ok(m, ds),
        is_matmul_padding(Err(e), after, m, ds, outputs),
        0 <= i < ds.len(),
    ensures
        after.len() == ds.len(),
        after[i].padded == ds[i].padded,
        after[i].og == ds[i].og,
        after[i].garbage == ds[i].garbage || (after[i].garbage is None && m.right_matrix is Weight),
        ds.len() != m.inputs() ==> e == PadError::InputCount,
        ds.len() == m.inputs() && outputs.len() != 1 ==> e == PadError::InputRank || e == PadError::OutputCount,
        m.left_matrix is Input && m.right_matrix is Input <==> m.inputs() == 2,
        m.left_matrix is Weight && m.right_matrix is Weight <==> m.inputs() == 0,
{
}

/// A dense layer that is not padded keeps the garbage of its input, and its input only changes shape: before padding it
/// is given the rows of the matrix, and after padding it is flattened once the bias and the input are found to fit.
pub proof fn law_dense_layer_that_is_not_padded(
    e: PadError,
    after: Seq<ShapeDims>,
    d: &Dense<Element>,
    ds: Seq<ShapeDims>,
)
    requires
        dense_ok(d, ds),
        is_dense_padding(Err(e), after, d, ds),
    ensures
        ds.len() != 1 <==> e == PadError::InputCount,
        ds.len() != 1 ==> after == ds,
        ds.len() == 1 ==> {
            &&& after.len() == 1
            &&& after[0].garbage == ds[0].garbage
            &&& after[0].og == seq![d.matrix.shape@[0]]
            &&& d.bias.data@.len() != d.matrix.shape@[0] <==> e == PadError::Bias
            &&& e == PadError::Bias || e == PadError::NotPadded ==> after[0].padded == ds[0].padded
            &&& e != PadError::Bias && e != PadError::NotPadded ==> after[0].padded.len() == 1
            &&& prod(after[0].padded) == prod(ds[0].padded)
        },
{
    if ds.len() == 1 {
        let p = ds[0].padded;
        if p.len() == 1 {
            assert(p =~= seq![p[0]]);
            lemma_prod1(p[0]);
        }
        lemma_prod1(prod(p) as usize);
    }
}

/// The padded bias of a projection holds the heads of the bias and nothing between them.
pub proof fn law_padded_bias_of_a_projection(
    r: &Tensor<Element>,
    b: &Tensor<Element>,
    qkv: &QKV<Element>,
    h: int,
    d: int,
)
    requires
        bias_ok(b, qkv),
        is_padded_bias(r, b, qkv),
        minimum(qkv.num_heads as nat) * minimum(qkv.head_dim as nat) <= usize::MAX,
        0 <= h < minimum(qkv.num_heads as nat),
        0 <= d < minimum(qkv.head_dim as nat),
    ensures
        r.data@[h * minimum(qkv.head_dim as nat) + d] == (if h < qkv.num_heads && d < qkv.head_dim {
            b.data@[h * qkv.head_dim + d]
        } else {
            0
        }),
{
    let (a, c) = (qkv.num_heads, qkv.head_dim);
    let (m, n) = (minimum(a as nat), minimum(c as nat));
    assert(m <= m * n && n <= m * n) by (nonlinear_arith)
        requires
            m >= 1,
            n >= 1,
    ;
    let (s, t) = (seq![a, c], seq![m as usize, n as usize]);
    let p = h * n + d;
    let pos = seq![h, d];
    assert(crate::shape::in_bounds(t, pos));
    lemma_prod2(m as usize, n as usize);
    lemma_flat2(t, pos);
    lemma_flat2(s, pos);
    crate::shape::lemma_coords_flat(t, pos);
    crate::arith::lemma_grid_bound(h, m as int, d, n as int);
    assert(r.data@[p] == padded_at(b.data@, s, t, 0i64, p));
    if h < a && d < c {
        assert(crate::shape::in_bounds(s, pos));
    } else {
        assert(pos[0] == h && pos[1] == d && s[0] == a && s[1] == c);
        assert(!crate::shape::in_bounds(s, pos));
    }
}

proof fn lemma_flat2(s: Seq<usize>, c: Seq<int>)
    requires
        s.len() == 2,
        c.len() == 2,
    ensures
        crate::shape::flat(s, c) == c[0] * s[1] + c[1],
{
    reveal_with_fuel(crate::shape::flat, 4);
    reveal_with_fuel(prod, 4);
    assert(s.skip(1) =~= seq![s[1]]);
    assert(c.skip(1) =~= seq![c[1]]);
    assert(seq![s[1]].skip(1) =~= Seq::<usize>::empty());
    assert(seq![c[1]].skip(1) =~= Seq::<int>::empty());
    lemma_prod1(s[1]);
    assert(c[1] * 1 == c[1]);
}

/// The projections hand on shapes without garbage, as many as they have outputs, and leave the shapes as they are where
/// they are not padded.
pub proof fn law_projections_hand_on(
    r: Result<QKV<Element>, PadError>,
    after: Seq<ShapeDims>,
    qkv: &QKV<Element>,
    ds: Seq<ShapeDims>,
    og: Seq<Shape>,
    padded: Seq<Shape>,
    expected: nat,
    i: int,
)
    requires
        is_qkv_padding(r, after, qkv, ds, og, padded, expected),
    ensures
        r is Ok ==> {
            &&& ds.len() == 1
            &&& ds[0].garbage is None
            &&& og.len() == expected
            &&& padded.len() == expected
            &&& after.len() == expected
            &&& 0 <= i < expected ==> after[i].og == og[i]@ && after[i].padded == padded[i]@ && after[i].garbage is None
        },
        r is Err ==> after == ds,
{
}

/// Where a maximum layer is not padded, the inputs before the one at fault have the shapes of their outputs, those
/// behind it keep theirs, and the garbage of every input stays.
pub proof fn law_maximum_that_is_not_padded(
    e: PadError,
    after: Seq<ShapeDims>,
    p: Pooling,
    ds: Seq<ShapeDims>,
    outputs: Seq<PooledShapes>,
)
    requires
        outputs.len() == ds.len(),
        is_maximum_padding(Err(e), after, p, ds, outputs),
    ensures
        after.len() == ds.len(),
        forall|i: int| 0 <= i < ds.len() ==> (#[trigger] after[i]).garbage == ds[i].garbage,
        exists|k: int|
            {
                &&& 0 <= k < ds.len()
                &&& (#[trigger] after[k]).padded == ds[k].padded
                &&& e == PadError::NotPadded ==> !all_pow2(ds[k].padded) && after[k] == ds[k]
                &&& e == PadError::OutputShape ==> all_pow2(ds[k].padded) && (outputs[k].og is None || outputs[k].padded is None)
                &&& e == PadError::OutputShape && outputs[k].og is Some ==> after[k].og == outputs[k].og->0@
                &&& e == PadError::OutputShape && outputs[k].og is None ==> after[k].og == ds[k].og
                &&& forall|i: int| k < i < ds.len() ==> #[trigger] after[i] == ds[i]
                &&& forall|i: int|
                    0 <= i < k ==> all_pow2(ds[i].padded) && outputs[i].og is Some && outputs[i].padded is Some && (
                    #[trigger] after[i]).og == outputs[i].og->0@ && after[i].padded == outputs[i].padded->0@
            },
        e == PadError::NotPadded || e == PadError::OutputShape,
{
    let k = choose|k: int|
        {
            &&& 0 <= k < outputs.len()
            &&& !crate::padding::shapes::pools(ds[k], #[trigger] outputs[k])
            &&& forall|i: int| 0 <= i < k ==> crate::padding::shapes::pools(ds[i], #[trigger] outputs[i])
            &&& e == (if !all_pow2(ds[k].padded) {
                PadError::NotPadded
            } else {
                PadError::OutputShape
            })
            &&& after == crate::padding::shapes::pooled_first(ds, outputs, k).update(
                k,
                half_pooled(ds[k], outputs[k]),
            )
        };
    assert(after[k] == half_pooled(ds[k], outputs[k]));
    assert forall|i: int| 0 <= i < k implies all_pow2(ds[i].padded) && outputs[i].og is Some && outputs[i].padded is Some
        && (#[trigger] after[i]).og == outputs[i].og->0@ && after[i].padded == outputs[i].padded->0@ by {
        assert(crate::padding::shapes::pools(ds[i], outputs[i]));
    }
}

/// Where an average is not padded, the inputs before the one that is not a padded one are averaged, and the others keep
/// their shapes.
pub proof fn law_average_that_is_not_padded(e: PadError, after: Seq<ShapeDims>, p: Pooling, ds: Seq<ShapeDims>)
    requires
        is_average_padding(Err(e), after, p, ds),
    ensures
        e == PadError::NotPadded,
        after.len() == ds.len(),
        exists|k: int|
            {
                &&& 0 <= k < ds.len()
                &&& (#[trigger] after[k]) == ds[k]
                &&& !all_pow2(ds[k].padded)
                &&& forall|i: int| k < i < ds.len() ==> #[trigger] after[i] == ds[i]
                &&& forall|i: int|
                    0 <= i < k ==> all_pow2(ds[i].padded) && (#[trigger] after[i]).padded == seq![
                        ds[i].padded[0],
                        1usize,
                        1usize,
                    ]
            },
{
    let k = choose|k: int|
        {
            &&& 0 <= k < ds.len()
            &&& e == PadError::NotPadded
            &&& !all_pow2((#[trigger] ds[k]).padded)
            &&& forall|i: int| 0 <= i < k ==> all_pow2((#[trigger] ds[i]).padded)
            &&& after == crate::padding::shapes::averaged_first(ds, k)
        };
    assert(after[k] == ds[k]);
    assert forall|i: int| 0 <= i < k implies all_pow2(ds[i].padded) && (#[trigger] after[i]).padded == seq![
        ds[i].padded[0],
        1usize,
        1usize,
    ] by {
        assert(all_pow2(ds[i].padded));
    }
}

/// What is known of the first nodes of a model with different ids are the shapes that each of them hands on.
pub proof fn law_known_shapes(nodes: Seq<(usize, Node<Element>)>, outs: Seq<ShapeInfo>, k: int, i: int, id: usize)
    requires
        0 <= i < k <= nodes.len(),
        forall|a: int, b: int| 0 <= a < b < nodes.len() ==> (#[trigger] nodes[a]).0 != (#[trigger] nodes[b]).0,
    ensures
        known_shapes(nodes, outs, k).contains_key(nodes[i].0),
        known_shapes(nodes, outs, k)[nodes[i].0] == outs[i],
        known_shapes(nodes, outs, k).contains_key(id) <==> exists|j: int| 0 <= j < k && (#[trigger] nodes[j]).0 == id,
    decreases k,
{
    lemma_known_ids(nodes, outs, k, id);
    if i < k - 1 {
        law_known_shapes(nodes, outs, k - 1, i, id);
        assert(nodes[i].0 != nodes[k - 1].0);
    }
}

proof fn lemma_known_ids(nodes: Seq<(usize, Node<Element>)>, outs: Seq<ShapeInfo>, k: int, id: usize)
    requires
        0 <= k <= nodes.len(),
    ensures
        known_shapes(nodes, outs, k).contains_key(id) <==> exists|j: int| 0 <= j < k && (#[trigger] nodes[j]).0 == id,
    decreases k,
{
    if k > 0 {
        lemma_known_ids(nodes, outs, k - 1, id);
        assert(nodes[k - 1].0 == id || nodes[k - 1].0 != id);
        if known_shapes(nodes, outs, k - 1).contains_key(id) {
            let j = choose|j: int| 0 <= j < k - 1 && (#[trigger] nodes[j]).0 == id;
            assert(nodes[j].0 == id);
        }
    }
}

/// A kernel that is as large as the framed input after padding has one place on it.
pub proof fn law_filter_as_large_as_the_input(
    q: &Convolution<Element>,
    c: &Convolution<Element>,
    og: Seq<usize>,
)
    requires
        crate::padding::conv::paddable_for(c, og),
        crate::padding::conv::is_padded_conv(q, c, og),
        npot(c.filter.shape@[2] as nat) == npot(framed_shape(og, c.frame().0, c.frame().1)[1] as nat),
    ensures
        q.filter.shape@[2] == 1,
        q.filter.shape@[3] == 1,
{
    vstd::arithmetic::power2::lemma2_to64();
    assert(vstd::arithmetic::power2::pow2(0) == 1);
    lemma_npot(1);
    assert(is_pow2(1));
}

/// Where something is wrong with an edge, there is nothing to choose, and the other way round: what is wrong is that the
/// node is not known, or that it has not that many outputs.
pub proof fn law_edges_are_wrong_or_choose(
    e: PadError,
    si: Seq<ShapeDims>,
    edges: Seq<Edge>,
    infos: Map<usize, ShapeInfo>,
    inputs: Seq<ShapeDims>,
)
    requires
        is_edge_error(e, edges, infos, inputs),
    ensures
        !are_chosen(si, edges, infos, inputs),
        e == PadError::UnknownNode || e == PadError::UnknownOutput,
        e == PadError::UnknownNode ==> exists|k: int|
            0 <= k < edges.len() && ((#[trigger] edges[k]).node matches Some(n) && !infos.contains_key(n)),
{
    let k = choose|k: int|
        {
            &&& 0 <= k < edges.len()
            &&& edge_error(#[trigger] edges[k], infos, inputs) == Some(e)
            &&& forall|i: int| 0 <= i < k ==> edge_error(#[trigger] edges[i], infos, inputs) is None
        };
    assert(edge_error(edges[k], infos, inputs) == Some(e));
}

/// A row of the padded output of an attention layer times the padded weights is the row times the weights, whatever lies
/// between the padded heads: the garbage is gone once the product is padded.
pub proof fn law_attention_then_product(
    q: MatMul<Element>,
    after: Seq<ShapeDims>,
    m: &MatMul<Element>,
    ds: Seq<ShapeDims>,
    outputs: Seq<Shape>,
    og: Seq<usize>,
    pad: Seq<usize>,
    x: Seq<Element>,
    xp: Seq<Element>,
    col: int,
)
    requires
        matmul_ok(m, ds),
        is_matmul_padding(Ok(q), after, m, ds, outputs),
        m.left_matrix is Input,
        m.right_matrix is Weight,
        q.right_matrix is Weight,
        ds[0].garbage == Some(GarbageDims::MHA(og, pad)),
        ({
            let (w, wp) = (m.right_matrix->Weight_0, q.right_matrix->Weight_0);
            &&& w.shape@[0] == og[1] * og[2]
            &&& og[1] <= pad[1]
            &&& og[2] <= pad[2]
            &&& 0 < pad[2]
            &&& x.len() == w.shape@[0]
            &&& xp.len() == wp.shape@[0]
            &&& 0 <= col < wp.shape@[1]
        }),
        holds_heads::<Element>(xp, x, og[1] as int, og[2] as int, pad[2] as int),
    ensures
        ({
            let (w, wp) = (m.right_matrix->Weight_0, q.right_matrix->Weight_0);
            msum::<Element>(wp.shape@[0] as nat, column_term::<Element>(xp, wp.data@, wp.shape@[1] as int, col)) == (if col
                < w.shape@[1] {
                msum::<Element>(w.shape@[0] as nat, column_term::<Element>(x, w.data@, w.shape@[1] as int, col))
            } else {
                0
            })
        }),
        after[0].garbage is None,
{
    let (w, wp) = (m.right_matrix->Weight_0, q.right_matrix->Weight_0);
    let (h, g, d) = (og[1] as int, pad[1] as int, pad[2] as int);
    assert(h * d <= g * d) by (nonlinear_arith)
        requires
            h <= g,
            d >= 0,
    ;
    law_mha_garbage_is_ignored::<Element>(&w, &wp, x, xp, og[1] as nat, og[2] as nat, pad[2] as nat, col);
}

/// A node receives, for each of its edges in turn, what the node that the edge names hands on under that number, or the
/// input of the model with that number.
pub proof fn law_chosen_shapes(
    si: Seq<ShapeDims>,
    edges: Seq<Edge>,
    infos: Map<usize, ShapeInfo>,
    inputs: Seq<ShapeDims>,
    i: int,
)
    requires
        are_chosen(si, edges, infos, inputs),
        0 <= i < edges.len(),
    ensures
        si.len() == edges.len(),
        edges[i].node is None ==> edges[i].index < inputs.len() && si[i] == inputs[edges[i].index as int],
        edges[i].node matches Some(n) ==> infos.contains_key(n) && edges[i].index < infos[n]@.len() && si[i]
            == infos[n]@[edges[i].index as int],
{
}

/// Each part of an attention layer that is not padded stops the padding there, with the shapes that it had received.
pub proof fn law_attention_that_is_not_padded(
    e: PadError,
    after: Seq<ShapeDims>,
    m: &crate::layers::transformer::mha::Mha,
    ds: Seq<ShapeDims>,
    s: MhaShapes,
    weights: ShapeInfo,
)
    requires
        ds.len() == 3,
        s.inputs.unpadded@.len() == 3,
        is_mha_padding(Err(e), after, m, ds, s),
    ensures
        s.inputs.padded@.len() != 3 ==> e == PadError::OutputCount && after == ds,
        s.inputs.padded@.len() == 3 && !s.qk.unpadded_consistent ==> {
            &&& e == PadError::Inconsistent
            &&& after.len() == 2
            &&& after[0].og == s.inputs.unpadded@[0]@ && after[1].og == s.inputs.unpadded@[1]@
            &&& after[0].padded == s.inputs.padded@[0]@ && after[1].padded == s.inputs.padded@[1]@
            &&& after[0].garbage == ds[0].garbage && after[1].garbage == ds[1].garbage
        },
        s.inputs.padded@.len() == 3 && crate::padding::shapes::concat_error(
            crate::padding::attention::qk_shapes(ds, s),
            s.qk,
        ) is None && s.softmax == Ok::<ShapeInfo, PadError>(weights) && weights@.len() == 1
            && !s.final_mul.unpadded_consistent ==> {
            &&& e == PadError::Inconsistent
            &&& after.len() == 2
            &&& after[0] == weights@[0]
            &&& after[1].og == s.inputs.unpadded@[2]@ && after[1].padded == s.inputs.padded@[2]@
            &&& after[1].garbage == ds[2].garbage
        },
{
    let r = crate::padding::shapes::reshaped(ds, s.inputs.unpadded@, s.inputs.padded@);
    let qk = crate::padding::attention::qk_shapes(ds, s);
    assert(qk.len() == 2 && qk[0] == r[0] && qk[1] == r[1]);
    if s.softmax == Ok::<ShapeInfo, PadError>(weights) && weights@.len() == 1 {
        let last = crate::padding::attention::final_mul_shapes(ds, s);
        assert(last.len() == 2 && last[0] == weights@[0] && last[1] == r[2]);
    }
}

} // verus!
