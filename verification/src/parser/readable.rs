//! Which nodes are read.
use crate::parser::dispatch::{layer_error, LayerKey};
use crate::parser::gemm::{gemm_error, gemm_fits, is_gemm, GemmNode};
use crate::parser::gemm_laws::adds_two;
use crate::parser::nodes::axes_size;
use crate::parser::onnx::{conv_error, maxpool_error, OnnxError, OnnxModel, OnnxNode, Op};
use crate::shape::prod;
use vstd::prelude::*;

verus! {

/// The node is a constant with entries of the right type and a single output of a known shape.
pub open spec fn holds_tensor<T>(node: OnnxNode<T>) -> bool {
    &&& node.op matches Op::Const(data) && data is Some
    &&& node.outputs@.len() == 1
    &&& node.outputs@[0] is Some
}

/// What a constant that holds no tensor is reported as.
pub open spec fn is_constant_error<T>(e: Option<OnnxError>, node: OnnxNode<T>) -> bool {
    &&& !(node.op is Const) ==> e == Some(OnnxError::Operation)
    &&& node.op matches Op::Const(data) ==> (data is None || node.outputs@.len() != 1) ==> e == Some(
        OnnxError::Constant,
    )
    &&& node.op matches Op::Const(data) ==> data is Some && node.outputs@.len() == 1 && node.outputs@[0] is None ==> e
        == Some(OnnxError::UnknownShape)
}

/// The place of the weights among the inputs of a product: the last one that is constant.
pub open spec fn weights_place<T>(model: &OnnxModel<T>, node: OnnxNode<T>) -> int {
    if model.source(node.inputs@[1]).op is Const {
        1
    } else {
        0
    }
}

/// The bias at the other place of an addition is a vector, or a matrix of one row, of the given length.
pub open spec fn bias_fits<T>(node: OnnxNode<T>, out: int) -> bool {
    let s = node.outputs@[0]->0@;
    &&& holds_tensor(node)
    &&& (s.len() == 1 && s[0] == out) || (s.len() == 2 && s[0] == 1 && s[1] == out)
}

/// A product is read exactly where it has two inputs, at least one of them a constant tensor with a dimension, the other
/// one of a known shape, and one side of the matrix meets the other input; and where what the next node adds to it, at
/// whichever place, is a constant vector or row with an entry for each output.
pub proof fn law_readable_products_with_bias<T>(model: &OnnxModel<T>, id: usize, next: Option<usize>)
    requires
        model.wf(),
        id < model.nodes@.len(),
        next matches Some(n) ==> n < model.nodes@.len(),
    ensures
        gemm_error(model, id, next) is None <==> {
            let node = model.nodes@[id as int];
            let k = weights_place(model, node);
            let w = model.source(node.inputs@[k]);
            let s = w.outputs@[0]->0@;
            let l = node.inputs@[1 - k];
            let size = prod(model.source(l).outputs@[l.slot as int]->0@);
            let rows = if s.len() == 1 {
                1
            } else {
                s[0] as nat
            };
            let cols = if s.len() == 1 {
                s[0] as nat
            } else {
                prod(s.skip(1))
            };
            let out = if cols == size {
                rows
            } else {
                cols
            };
            &&& node.op is EinSum
            &&& node.inputs@.len() == 2
            &&& holds_tensor(w)
            &&& s.len() >= 1
            &&& l.node != node.inputs@[k].node
            &&& l.slot < model.source(l).outputs@.len()
            &&& model.source(l).outputs@[l.slot as int] is Some
            &&& rows == size || cols == size
            &&& next matches Some(n) ==> forall|j: int|
                0 <= j < 2 && adds_two(model, n) && (#[trigger] model.nodes@[n as int].inputs@[j]).node == id
                    && (j == 1 ==> model.nodes@[n as int].inputs@[0].node != id) ==> bias_fits(
                    model.source(model.nodes@[n as int].inputs@[1 - j]),
                    out as int,
                )
        },
{
    let node = model.nodes@[id as int];
    if let Some(n) = next {
        let next_node = model.nodes@[n as int];
        if adds_two(model, n) {
            let (a, b) = (next_node.inputs@[0], next_node.inputs@[1]);
            assert(a.node == id ==> next_node.inputs@[1 - 0] == b);
            assert(b.node == id ==> next_node.inputs@[1 - 1] == a);
        }
    }
}

/// Where both inputs of a product are constant, the second one holds the weights and the first one is the input.
pub proof fn law_second_constant_is_the_weights<T>(
    g: &GemmNode<T>,
    model: &OnnxModel<T>,
    id: usize,
    next: Option<usize>,
    zero: T,
)
    requires
        model.wf(),
        id < model.nodes@.len(),
        gemm_error(model, id, next) is None,
        is_gemm(g, model, id, next, zero),
        gemm_fits(model, model.nodes@[id as int]),
        model.source(model.nodes@[id as int].inputs@[0]).op is Const,
        model.source(model.nodes@[id as int].inputs@[1]).op is Const,
    ensures
        g.input == model.nodes@[id as int].inputs@[0],
        model.source(model.nodes@[id as int].inputs@[1]).op matches Op::Const(Some(data)) && g.weight.data@.len()
            == data@.len(),
{
    let node = model.nodes@[id as int];
    assert(model.node_wf(node));
    let w = node.inputs@[1];
    assert(w.node < model.nodes@.len());
    assert(model.node_wf(model.nodes@[w.node as int]));
    let s = model.source(w).outputs@[0]->0@;
    let (rows, cols, size) = crate::parser::gemm::gemm_dims(model, node);
    let out = crate::parser::gemm::out_features(model, node);
    if s.len() == 1 {
        assert(s =~= seq![s[0]]);
        crate::shape::lemma_prod1(s[0]);
        assert(rows == 1 && cols == s[0]);
        assert(1 * cols == cols);
    }
    assert(prod(s) == rows * cols);
    assert(rows <= usize::MAX);
    assert(rows * cols == cols * rows) by (nonlinear_arith);
    crate::shape::lemma_prod2(out as usize, size as usize);
}

/// What is wrong with a product is reported in the order in which it is read: its operation, its inputs, the weights,
/// the input, their shapes.
pub proof fn law_errors_of_products<T>(model: &OnnxModel<T>, id: usize, next: Option<usize>)
    requires
        model.wf(),
        id < model.nodes@.len(),
    ensures
        ({
            let node = model.nodes@[id as int];
            let k = weights_place(model, node);
            let w = model.source(node.inputs@[k]);
            let e = gemm_error(model, id, next);
            &&& !(node.op is EinSum) ==> e == Some(OnnxError::Operation)
            &&& node.op is EinSum ==> {
                &&& node.inputs@.len() != 2 ==> e == Some(OnnxError::Inputs)
                &&& node.inputs@.len() == 2 ==> {
                    &&& !(w.op is Const) ==> e == Some(OnnxError::NoConstant)
                    &&& w.op is Const && !holds_tensor(w) ==> is_constant_error(e, w)
                    &&& holds_tensor(w) && w.outputs@[0]->0@.len() == 0 ==> e == Some(OnnxError::NotMatrix)
                    &&& holds_tensor(w) && w.outputs@[0]->0@.len() > 0 && node.inputs@[0].node == node.inputs@[1].node
                        ==> e == Some(OnnxError::NoInput)
                }
            }
        }),
{
}

/// A convolution is read exactly where its windows are supported and it has three inputs, the last two of them constant
/// tensors.
pub proof fn law_readable_convolutions<T>(model: &OnnxModel<T>, id: usize, next: Option<usize>)
    requires
        id < model.nodes@.len(),
    ensures
        ({
            let node = model.nodes@[id as int];
            let e = layer_error(model, LayerKey::Conv, id, next);
            let (filter, bias) = (model.source(node.inputs@[1]), model.source(node.inputs@[2]));
            &&& e is None <==> {
                &&& node.op matches Op::Conv(p) && conv_error(p) is None
                &&& node.inputs@.len() == 3
                &&& holds_tensor(filter)
                &&& holds_tensor(bias)
            }
            &&& !(node.op is Conv) ==> e == Some(OnnxError::Operation)
            &&& node.op matches Op::Conv(p) ==> conv_error(p) is Some ==> e == conv_error(p)
            &&& node.op matches Op::Conv(p) ==> conv_error(p) is None && node.inputs@.len() != 3 ==> e == Some(
                OnnxError::Inputs,
            )
            &&& node.op matches Op::Conv(p) ==> conv_error(p) is None && node.inputs@.len() == 3 ==> {
                &&& !holds_tensor(filter) ==> is_constant_error(e, filter)
                &&& holds_tensor(filter) && !holds_tensor(bias) ==> is_constant_error(e, bias)
            }
        }),
{
}

/// A maximum layer is read exactly where its windows are supported and it has one input.
pub proof fn law_readable_maxima<T>(model: &OnnxModel<T>, id: usize, next: Option<usize>)
    requires
        id < model.nodes@.len(),
    ensures
        ({
            let node = model.nodes@[id as int];
            let e = layer_error(model, LayerKey::Pool, id, next);
            &&& node.inputs@.len() != 1 ==> e == Some(OnnxError::Inputs)
            &&& node.inputs@.len() == 1 && !(node.op is MaxPool) ==> e == Some(OnnxError::Operation)
            &&& node.inputs@.len() == 1 ==> (node.op matches Op::MaxPool(p) ==> e == maxpool_error(p))
        }),
{
}

/// A rectifier is read exactly where it has two inputs, one of them constant; a flattening layer where it has one.
pub proof fn law_readable_rectifiers<T>(model: &OnnxModel<T>, id: usize, next: Option<usize>)
    requires
        id < model.nodes@.len(),
    ensures
        ({
            let node = model.nodes@[id as int];
            let e = layer_error(model, LayerKey::Relu, id, next);
            let (a, b) = (model.source(node.inputs@[0]), model.source(node.inputs@[1]));
            let flat = layer_error(model, LayerKey::Flatten, id, next);
            &&& node.inputs@.len() != 2 ==> e == Some(OnnxError::Inputs)
            &&& node.inputs@.len() == 2 && (a.op is Const || b.op is Const) ==> e is None
            &&& node.inputs@.len() == 2 && !(a.op is Const) && !(b.op is Const) ==> e == Some(OnnxError::NoConstant)
            &&& node.inputs@.len() == 1 <==> flat is None
            &&& node.inputs@.len() != 1 <==> flat == Some(OnnxError::Inputs)
        }),
{
}

/// A product is read the same way under both of its names, and no other layer is.
pub proof fn law_both_names_of_products<T>(
    r: &crate::parser::dispatch::ParsedNode<T>,
    model: &OnnxModel<T>,
    id: usize,
    next: Option<usize>,
    first: bool,
    zero: T,
)
    requires
        id < model.nodes@.len(),
    ensures
        layer_error(model, LayerKey::GemmAb, id, next) == layer_error(model, LayerKey::MatMul, id, next),
        crate::parser::dispatch::is_layer(r, model, LayerKey::GemmAb, id, next, first, zero)
            == crate::parser::dispatch::is_layer(r, model, LayerKey::MatMul, id, next, first, zero),
        crate::parser::dispatch::is_layer(r, model, LayerKey::MatMul, id, next, first, zero) ==> exists|g: GemmNode<T>|
            #[trigger] is_gemm(&g, model, id, next, zero) && {
                &&& r.layer matches crate::parser::dispatch::ParsedLayer::Dense { weight, bias } && weight == g.weight
                    && bias == g.bias
                &&& r.id == g.id
                &&& r.consumed == g.consumed
                &&& r.input.index == g.input.slot
                &&& first ==> r.input.node is None
                &&& !first ==> r.input.node == Some(g.input.node)
            },
{
}

/// An average is read exactly where it is a sum over axes of the planes of its one input, whose shape is known and has
/// these axes and entries along them, and a binary operation follows.
pub proof fn law_readable_averages<T>(model: &OnnxModel<T>, id: usize, next: Option<usize>)
    requires
        id < model.nodes@.len(),
        next matches Some(n) ==> n < model.nodes@.len(),
    ensures
        layer_error(model, LayerKey::ReduceSum, id, next) is None <==> {
            let node = model.nodes@[id as int];
            let l = node.inputs@[0];
            let s = model.source(l).outputs@[l.slot as int];
            &&& node.op matches Op::Reduce { sum, axes } && {
                &&& sum
                &&& axes@.len() >= 1
                &&& forall|i: int| 0 <= i < axes@.len() ==> 2 <= #[trigger] axes@[i] < s->0@.len()
                &&& forall|i: int| 0 <= i < axes@.len() ==> s->0@[#[trigger] axes@[i] as int] >= 1
            }
            &&& node.inputs@.len() == 1
            &&& s is Some
            &&& next matches Some(n) && model.nodes@[n as int].op is BinOp
        },
{
    let node = model.nodes@[id as int];
    let l = node.inputs@[0];
    let s = model.source(l).outputs@[l.slot as int]->0@;
    if let Op::Reduce { sum, axes } = node.op {
        let a = axes@;
        lemma_axes_size(s, a, a.len());
    }
}

proof fn lemma_axes_size(s: Seq<usize>, axes: Seq<usize>, n: nat)
    requires
        n <= axes.len(),
    ensures
        axes_size(s, axes, n) > 0 <==> forall|i: int| 0 <= i < n ==> s[#[trigger] axes[i] as int] >= 1,
    decreases n,
{
    if n > 0 {
        lemma_axes_size(s, axes, (n - 1) as nat);
        let (x, y) = (axes_size(s, axes, (n - 1) as nat) as int, s[axes[n - 1] as int] as int);
        assert(x * y > 0 <==> x > 0 && y > 0) by (nonlinear_arith)
            requires
                x >= 0,
                y >= 0,
        ;
        assert(s[axes[n - 1] as int] >= 1 || !(s[axes[n - 1] as int] >= 1));
    }
}

} // verus!
