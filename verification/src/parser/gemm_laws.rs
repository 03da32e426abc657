//! What holds of the layers that multiply by a matrix, whatever way their nodes are written in.
use crate::arith::lemma_grid_split;
use crate::parser::gemm::{gemm_error, is_gemm, GemmNode};
use crate::parser::onnx::{OnnxError, OnnxModel, Op};
use crate::shape::{lemma_prod1, lemma_prod2, prod};
use vstd::prelude::*;

verus! {

/// Node `n` adds two inputs.
pub open spec fn adds_two<T>(model: &OnnxModel<T>, n: usize) -> bool {
    &&& model.nodes@[n as int].inputs@.len() == 2
    &&& model.nodes@[n as int].op matches Op::BinOp { add } && add
}

/// The models differ in the inputs of node `n` only, which are the other way round.
pub open spec fn differ_by_a_swap<T>(a: &OnnxModel<T>, b: &OnnxModel<T>, n: usize) -> bool {
    &&& n < a.nodes@.len()
    &&& a.nodes@.len() == b.nodes@.len()
    &&& forall|i: int|
        0 <= i < a.nodes@.len() ==> {
            &&& (#[trigger] a.nodes@[i]).op == b.nodes@[i].op
            &&& a.nodes@[i].outputs == b.nodes@[i].outputs
            &&& i != n ==> a.nodes@[i].inputs == b.nodes@[i].inputs
        }
    &&& a.nodes@[n as int].inputs@.len() == 2
    &&& b.nodes@[n as int].inputs@.len() == 2
    &&& a.nodes@[n as int].inputs@[0] == b.nodes@[n as int].inputs@[1]
    &&& a.nodes@[n as int].inputs@[1] == b.nodes@[n as int].inputs@[0]
}

/// Where the node that follows adds two inputs, and the one at place `k` is the product, it belongs to the layer, and
/// the bias is the constant at the other place, whichever of the two places that is.
pub proof fn law_bias_is_the_other_input<T>(
    g: &GemmNode<T>,
    model: &OnnxModel<T>,
    id: usize,
    n: usize,
    k: int,
    zero: T,
)
    requires
        model.wf(),
        id < model.nodes@.len(),
        n < model.nodes@.len(),
        gemm_error(model, id, Some(n)) is None,
        is_gemm(g, model, id, Some(n), zero),
        adds_two(model, n),
        0 <= k < 2,
        model.nodes@[n as int].inputs@[k].node == id,
    ensures
        g.consumed,
        g.id == n,
        model.nodes@[model.nodes@[n as int].inputs@[1 - k].node as int].op matches Op::Const(Some(data)) && g.bias.data@
            == data@,
{
}

/// A bias of another length, or one that is not a constant, is an error, whichever place it stands at.
pub proof fn law_bias_that_does_not_fit<T>(model: &OnnxModel<T>, id: usize, n: usize, k: int)
    requires
        model.wf(),
        id < model.nodes@.len(),
        n < model.nodes@.len(),
        gemm_error(model, id, None) is None,
        adds_two(model, n),
        0 <= k < 2,
        model.nodes@[n as int].inputs@[k].node == id,
        ({
            let other = model.nodes@[model.nodes@[n as int].inputs@[1 - k].node as int];
            !(other.op is Const) || (other.outputs@.len() == 1 && other.outputs@[0] is Some
                && other.outputs@[0]->0@.len() != 1 && other.outputs@[0]->0@.len() != 2)
        }),
    ensures
        gemm_error(model, id, Some(n)) is Some,
{
}

/// Swapping the two inputs of the node that follows changes nothing of what is read.
pub proof fn law_inputs_of_the_addition_commute<T>(
    g: &GemmNode<T>,
    a: &OnnxModel<T>,
    b: &OnnxModel<T>,
    id: usize,
    n: usize,
    zero: T,
)
    requires
        a.wf(),
        b.wf(),
        id < a.nodes@.len(),
        id != n,
        differ_by_a_swap(a, b, n),
        adds_two(a, n),
    ensures
        gemm_error(a, id, Some(n)) == gemm_error(b, id, Some(n)),
        gemm_error(a, id, Some(n)) is None ==> is_gemm(g, a, id, Some(n), zero) == is_gemm(g, b, id, Some(n), zero),
{
    lemma_same_sources(a, b, id, n);
    assert(a.node_wf(a.nodes@[n as int]));
    let (p, q) = (a.nodes@[n as int].inputs@[0], a.nodes@[n as int].inputs@[1]);
    assert(a.nodes@[p.node as int].op == b.nodes@[p.node as int].op);
    assert(a.nodes@[q.node as int].op == b.nodes@[q.node as int].op);
}

proof fn lemma_same_sources<T>(a: &OnnxModel<T>, b: &OnnxModel<T>, id: usize, n: usize)
    requires
        a.wf(),
        id < a.nodes@.len(),
        differ_by_a_swap(a, b, n),
    ensures
        a.nodes@[id as int].op == b.nodes@[id as int].op,
        id != n ==> a.nodes@[id as int].inputs == b.nodes@[id as int].inputs,
        forall|j: int|
            0 <= j < a.nodes@[id as int].inputs@.len() ==> {
                let l = #[trigger] a.nodes@[id as int].inputs@[j];
                &&& a.source(l).op == b.source(l).op
                &&& a.source(l).outputs == b.source(l).outputs
            },
{
    assert(a.node_wf(a.nodes@[id as int]));
    assert(a.nodes@[id as int].op == b.nodes@[id as int].op);
    assert forall|j: int| 0 <= j < a.nodes@[id as int].inputs@.len() implies {
        let l = #[trigger] a.nodes@[id as int].inputs@[j];
        &&& a.source(l).op == b.source(l).op
        &&& a.source(l).outputs == b.source(l).outputs
    } by {
        let l = a.nodes@[id as int].inputs@[j];
        assert(a.nodes@[l.node as int].op == b.nodes@[l.node as int].op);
    }
}

/// The weights may stand at either place: swapping the two inputs of the product changes nothing of what is read,
/// where one of them is constant and the other is not.
pub proof fn law_inputs_of_the_product_commute<T>(
    g: &GemmNode<T>,
    a: &OnnxModel<T>,
    b: &OnnxModel<T>,
    id: usize,
    next: Option<usize>,
    zero: T,
)
    requires
        a.wf(),
        b.wf(),
        next != Some(id),
        next matches Some(n) ==> n < a.nodes@.len(),
        differ_by_a_swap(a, b, id),
        a.source(a.nodes@[id as int].inputs@[0]).op is Const != a.source(a.nodes@[id as int].inputs@[1]).op is Const,
    ensures
        gemm_error(a, id, next) == gemm_error(b, id, next),
        gemm_error(a, id, next) is None ==> is_gemm(g, a, id, next, zero) == is_gemm(g, b, id, next, zero),
{
    lemma_same_sources(a, b, id, id);
    let (p, q) = (a.nodes@[id as int].inputs@[0], a.nodes@[id as int].inputs@[1]);
    assert(a.source(p).op == b.source(p).op && a.source(p).outputs == b.source(p).outputs);
    assert(a.source(q).op == b.source(q).op && a.source(q).outputs == b.source(q).outputs);
    assert(p.node != q.node);
    if let Some(n) = next {
        lemma_same_sources(a, b, n, id);
        assert(a.node_wf(a.nodes@[n as int]));
        if a.nodes@[n as int].inputs@.len() == 2 {
            let (c, d) = (a.nodes@[n as int].inputs@[0], a.nodes@[n as int].inputs@[1]);
            assert(a.source(c).op == b.source(c).op && a.source(c).outputs == b.source(c).outputs);
            assert(a.source(d).op == b.source(d).op && a.source(d).outputs == b.source(d).outputs);
        }
    }
}

/// The input of the layer is the input of the product that is not constant, at whichever place it stands.
pub proof fn law_input_is_not_the_weights<T>(
    g: &GemmNode<T>,
    model: &OnnxModel<T>,
    id: usize,
    next: Option<usize>,
    k: int,
    zero: T,
)
    requires
        model.wf(),
        id < model.nodes@.len(),
        gemm_error(model, id, next) is None,
        is_gemm(g, model, id, next, zero),
        0 <= k < 2,
        !(model.source(model.nodes@[id as int].inputs@[k]).op is Const),
    ensures
        g.input == model.nodes@[id as int].inputs@[k],
        model.source(model.nodes@[id as int].inputs@[1 - k]).op is Const,
{
}

/// Without an addition that follows and that has the product among its inputs, the bias is zero and the layer is known
/// by the product itself.
pub proof fn law_no_bias<T>(g: &GemmNode<T>, model: &OnnxModel<T>, id: usize, next: Option<usize>, zero: T)
    requires
        model.wf(),
        id < model.nodes@.len(),
        next matches Some(n) ==> n < model.nodes@.len(),
        gemm_error(model, id, next) is None,
        is_gemm(g, model, id, next, zero),
        next matches Some(n) ==> adds_two(model, n) ==> forall|j: int|
            0 <= j < 2 ==> (#[trigger] model.nodes@[n as int].inputs@[j]).node != id,
    ensures
        !g.consumed,
        g.id == id,
        g.bias.data@.len() == g.weight.shape@[0],
        forall|i: int| 0 <= i < g.bias.data@.len() ==> #[trigger] g.bias.data@[i] == zero,
{
    lemma_prod1(g.bias.shape@[0]);
    assert(g.bias.shape@ =~= seq![g.bias.shape@[0]]);
}

/// The columns of the weights are the entries of the input, their rows are the entries of the output, and there is
/// one entry of the bias for each of those.
pub proof fn law_weights_fit<T>(g: &GemmNode<T>, model: &OnnxModel<T>, id: usize, next: Option<usize>, zero: T)
    requires
        model.wf(),
        id < model.nodes@.len(),
        next matches Some(n) ==> n < model.nodes@.len(),
        gemm_error(model, id, next) is None,
        is_gemm(g, model, id, next, zero),
        prod(model.source(g.input).outputs@[g.input.slot as int]->0@) <= usize::MAX,
    ensures
        g.weight.shape@.len() == 2,
        g.weight.shape@[1] == prod(model.source(g.input).outputs@[g.input.slot as int]->0@),
        g.weight.data@.len() == g.weight.shape@[0] * g.weight.shape@[1],
        g.bias.shape@ == seq![g.weight.shape@[0]],
        g.bias.data@.len() == g.weight.shape@[0],
{
    let s = g.weight.shape@;
    assert(s =~= seq![s[0], s[1]]);
    lemma_prod2(s[0], s[1]);
    assert(g.bias.shape@ =~= seq![s[0]]);
    lemma_prod1(s[0]);
}

/// Input `k` of the product is a constant matrix.
pub open spec fn stores_matrix<T>(
    model: &OnnxModel<T>,
    id: usize,
    k: int,
    rows: usize,
    cols: usize,
    data: Seq<T>,
) -> bool {
    let node = model.nodes@[id as int];
    let c = model.source(node.inputs@[k]);
    &&& node.op is EinSum
    &&& node.inputs@.len() == 2
    &&& c.op matches Op::Const(Some(d)) && d@ == data
    &&& c.outputs@.len() == 1
    &&& c.outputs@[0] is Some
    &&& c.outputs@[0]->0@ == seq![rows, cols]
}

/// Input `k` of the product has the given number of entries and is not constant.
pub open spec fn takes_entries<T>(model: &OnnxModel<T>, id: usize, k: int, size: usize) -> bool {
    let l = model.nodes@[id as int].inputs@[k];
    &&& !(model.source(l).op is Const)
    &&& l.slot < model.source(l).outputs@.len()
    &&& model.source(l).outputs@[l.slot as int] is Some
    &&& prod(model.source(l).outputs@[l.slot as int]->0@) == size
}

proof fn lemma_stored_dims(rows: usize, cols: usize)
    ensures
        prod(seq![rows, cols].skip(1)) == cols,
{
    assert(seq![rows, cols].skip(1) =~= seq![cols]);
    lemma_prod1(cols);
}

/// A product of a matrix by an input is read exactly where the matrix has a side as long as the input.
pub proof fn law_readable_products<T>(
    model: &OnnxModel<T>,
    id: usize,
    k: int,
    rows: usize,
    cols: usize,
    data: Seq<T>,
    size: usize,
)
    requires
        model.wf(),
        id < model.nodes@.len(),
        0 <= k < 2,
        stores_matrix(model, id, k, rows, cols, data),
        takes_entries(model, id, 1 - k, size),
    ensures
        gemm_error(model, id, None) is None <==> rows == size || cols == size,
        gemm_error(model, id, None) is Some ==> gemm_error(model, id, None) == Some(OnnxError::Shapes),
{
    lemma_stored_dims(rows, cols);
}

/// Row `i` of the weights is what the `i`-th output is computed with: where the columns of the stored matrix meet the
/// input it is row `i` of that matrix, and otherwise it is column `i`.
pub proof fn law_rows_are_outputs<T>(
    g: &GemmNode<T>,
    model: &OnnxModel<T>,
    id: usize,
    next: Option<usize>,
    zero: T,
    k: int,
    rows: usize,
    cols: usize,
    data: Seq<T>,
    size: usize,
)
    requires
        model.wf(),
        id < model.nodes@.len(),
        gemm_error(model, id, next) is None,
        is_gemm(g, model, id, next, zero),
        0 <= k < 2,
        stores_matrix(model, id, k, rows, cols, data),
        takes_entries(model, id, 1 - k, size),
    ensures
        cols == size ==> g.weight.shape@ == seq![rows, size] && forall|i: int, j: int|
            0 <= i < rows && 0 <= j < size ==> #[trigger] g.weight.data@[i * size + j] == data[i * cols + j],
        cols != size ==> rows == size && g.weight.shape@ == seq![cols, size] && forall|i: int, j: int|
            0 <= i < cols && 0 <= j < size ==> #[trigger] g.weight.data@[i * size + j] == data[j * cols + i],
{
    lemma_stored_dims(rows, cols);
}

/// A matrix and its transpose are read as the same weights, where only one of its sides meets the input.
pub proof fn law_stored_either_way<T>(
    g: &GemmNode<T>,
    h: &GemmNode<T>,
    a: &OnnxModel<T>,
    b: &OnnxModel<T>,
    id: usize,
    next: Option<usize>,
    zero: T,
    k: int,
    rows: usize,
    cols: usize,
    data: Seq<T>,
    transposed: Seq<T>,
    size: usize,
)
    requires
        a.wf(),
        b.wf(),
        id < a.nodes@.len(),
        id < b.nodes@.len(),
        gemm_error(a, id, next) is None,
        gemm_error(b, id, next) is None,
        is_gemm(g, a, id, next, zero),
        is_gemm(h, b, id, next, zero),
        0 <= k < 2,
        rows != cols,
        stores_matrix(a, id, k, rows, cols, data),
        stores_matrix(b, id, k, cols, rows, transposed),
        takes_entries(a, id, 1 - k, size),
        takes_entries(b, id, 1 - k, size),
        forall|i: int, j: int|
            0 <= i < rows && 0 <= j < cols ==> data[i * cols + j] == #[trigger] transposed[j * rows + i],
    ensures
        g.weight.shape@ == h.weight.shape@,
        g.weight.data@ == h.weight.data@,
{
    lemma_stored_dims(rows, cols);
    lemma_stored_dims(cols, rows);
    law_rows_are_outputs(g, a, id, next, zero, k, rows, cols, data, size);
    law_rows_are_outputs(h, b, id, next, zero, k, cols, rows, transposed, size);
    let out: usize = if cols == size {
        rows
    } else {
        cols
    };
    lemma_prod2(out, size);
    assert forall|p: int| 0 <= p < g.weight.data@.len() implies g.weight.data@[p] == h.weight.data@[p] by {
        assert(size > 0) by (nonlinear_arith)
            requires
                0 <= p < out * size,
                size >= 0,
        ;
        lemma_grid_split(p, out as int, size as int);
        let (i, j) = (p / (size as int), p % (size as int));
        assert(p == i * size + j);
        assert(g.weight.data@[i * size + j] == h.weight.data@[i * size + j]) by {
            if cols == size {
                assert(data[i * cols + j] == transposed[j * rows + i]);
            } else {
                assert(data[j * cols + i] == transposed[i * rows + j]);
            }
        }
    }
    assert(g.weight.data@ =~= h.weight.data@);
}

} // verus!
