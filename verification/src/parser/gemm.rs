//! Reading of layers that multiply by a matrix.
use crate::arith::{lemma_grid_bound, lemma_grid_digits, lemma_grid_split};
use crate::parser::onnx::{
    const_data, const_error, extract_const_tensor, get_node_output_shape, is_const, shape_error, Link, OnnxError, OnnxModel,
    OnnxNode, Op,
};
use crate::shape::{lemma_prod1, lemma_prod2, lemma_prod_of_rank, prod, Shape};
use crate::tensor::{filled, no_shape, Tensor};
use vstd::prelude::*;

verus! {

/// A layer that multiplies by a matrix and adds a bias.
#[derive(Debug)]
pub struct GemmNode<T> {
    /// The node that later nodes refer to: the addition of the bias where there is one.
    pub id: usize,
    pub input: Link,
    pub weight: Tensor<T>,
    pub bias: Tensor<T>,
    /// The node that follows is the addition of the bias.
    pub consumed: bool,
}

/// The input that holds the weights: the last one that is constant.
pub open spec fn weight_link<T>(model: &OnnxModel<T>, node: OnnxNode<T>) -> Option<Link> {
    let (a, b) = (node.inputs@[0], node.inputs@[1]);
    if model.source(b).op is Const {
        Some(b)
    } else if model.source(a).op is Const {
        Some(a)
    } else {
        None
    }
}

/// The input besides the weights.
pub open spec fn input_link<T>(node: OnnxNode<T>, weight: Link) -> Option<Link> {
    let (a, b) = (node.inputs@[0], node.inputs@[1]);
    if a.node != weight.node {
        Some(a)
    } else if b.node != weight.node {
        Some(b)
    } else {
        None
    }
}

/// The rows and columns of the weights: all dimensions but the first are flattened, and a vector is a row.
pub open spec fn matrix_dims(s: Seq<usize>) -> Option<(nat, nat)> {
    if s.len() == 0 {
        None
    } else if s.len() == 1 {
        Some((1, s[0] as nat))
    } else {
        Some((s[0] as nat, prod(s.skip(1))))
    }
}

/// The node with the bias: where the next node adds two inputs and one of them is the product, it is the other.
pub open spec fn bias_node<T>(model: &OnnxModel<T>, id: usize, next: Option<usize>) -> Option<usize> {
    match next {
        None => None,
        Some(n) => {
            let node = model.nodes@[n as int];
            if node.inputs@.len() == 2 && (node.op matches Op::BinOp { add } && add) {
                if node.inputs@[0].node == id {
                    Some(node.inputs@[1].node)
                } else if node.inputs@[1].node == id {
                    Some(node.inputs@[0].node)
                } else {
                    None
                }
            } else {
                None
            }
        },
    }
}

/// What keeps the weights from being read.
pub open spec fn weight_error<T>(model: &OnnxModel<T>, node: OnnxNode<T>) -> Option<OnnxError> {
    if !(node.op is EinSum) {
        Some(OnnxError::Operation)
    } else if node.inputs@.len() != 2 {
        Some(OnnxError::Inputs)
    } else {
        match weight_link(model, node) {
            None => Some(OnnxError::NoConstant),
            Some(w) => {
                let c = model.source(w);
                if const_error(c) is Some {
                    const_error(c)
                } else if matrix_dims(c.outputs@[0]->0@) is None {
                    Some(OnnxError::NotMatrix)
                } else {
                    match input_link(node, w) {
                        None => Some(OnnxError::NoInput),
                        Some(l) => shape_error(model.source(l), l.slot),
                    }
                }
            },
        }
    }
}

/// The rows and columns of the weights as they are stored, and the number of entries of the input.
pub open spec fn gemm_dims<T>(model: &OnnxModel<T>, node: OnnxNode<T>) -> (nat, nat, nat) {
    let w = weight_link(model, node)->0;
    let l = input_link(node, w)->0;
    let (rows, cols) = matrix_dims(model.source(w).outputs@[0]->0@)->0;
    (rows, cols, prod(model.source(l).outputs@[l.slot as int]->0@))
}

/// The number of outputs of the layer.
pub open spec fn out_features<T>(model: &OnnxModel<T>, node: OnnxNode<T>) -> nat {
    let (rows, cols, size) = gemm_dims(model, node);
    if cols == size {
        rows
    } else {
        cols
    }
}

/// The length of a bias of the given shape: it is a vector, or a row.
pub open spec fn bias_len(s: Seq<usize>) -> Option<usize> {
    if s.len() == 1 {
        Some(s[0])
    } else if s.len() == 2 && s[0] == 1 {
        Some(s[1])
    } else {
        None
    }
}

/// What keeps the layer from being read.
pub open spec fn gemm_error<T>(model: &OnnxModel<T>, id: usize, next: Option<usize>) -> Option<OnnxError> {
    let node = model.nodes@[id as int];
    if weight_error(model, node) is Some {
        weight_error(model, node)
    } else {
        let (rows, cols, size) = gemm_dims(model, node);
        if cols != size && rows != size {
            Some(OnnxError::Shapes)
        } else {
            match bias_node(model, id, next) {
                None => None,
                Some(b) => {
                    let c = model.nodes@[b as int];
                    if const_error(c) is Some {
                        const_error(c)
                    } else if bias_len(c.outputs@[0]->0@) is None || bias_len(c.outputs@[0]->0@)->0 != out_features(
                        model,
                        node,
                    ) {
                        Some(OnnxError::Bias)
                    } else {
                        None
                    }
                },
            }
        }
    }
}

/// The sizes can be held.
pub open spec fn gemm_fits<T>(model: &OnnxModel<T>, node: OnnxNode<T>) -> bool {
    weight_error(model, node) is None ==> {
        let (rows, cols, size) = gemm_dims(model, node);
        cols <= usize::MAX && size <= usize::MAX
    }
}

/// `r` is the layer: its weights are those of the constant, transposed where the rows meet the input, and its bias
/// is the constant that is added, or zeros.
pub open spec fn is_gemm<T>(r: &GemmNode<T>, model: &OnnxModel<T>, id: usize, next: Option<usize>, zero: T) -> bool {
    let node = model.nodes@[id as int];
    let w = weight_link(model, node)->0;
    let data = const_data(model.source(w));
    let (rows, cols, size) = gemm_dims(model, node);
    let out = out_features(model, node);
    let b = bias_node(model, id, next);
    &&& r.input == input_link(node, w)->0
    &&& r.consumed == (b is Some)
    &&& r.id == (if b is Some {
        next->0
    } else {
        id
    })
    &&& r.weight.wf()
    &&& r.weight.shape@ == seq![out as usize, size as usize]
    &&& cols == size ==> r.weight.data@ == data
    &&& cols != size ==> forall|i: int, j: int|
        0 <= i < cols && 0 <= j < rows ==> #[trigger] r.weight.data@[i * rows + j] == data[j * cols + i]
    &&& r.bias.wf()
    &&& r.bias.shape@ == seq![out as usize]
    &&& match b {
        None => forall|i: int| 0 <= i < out ==> #[trigger] r.bias.data@[i] == zero,
        Some(b) => r.bias.data@ == const_data(model.nodes@[b as int]),
    }
}

/// The product of all dimensions but the first.
fn inner_size(shape: &Shape) -> (r: usize)
    requires
        shape@.len() >= 1,
        prod(shape@.skip(1)) <= usize::MAX,
    ensures
        r == prod(shape@.skip(1)),
{
    let n: usize = shape.rank();
    let inner = shape.slice(1, n);
    proof {
        assert(inner@ =~= shape@.skip(1));
    }
    inner.product()
}

/// The entries of a matrix, column by column.
fn transposed<T: Copy>(data: &Vec<T>, rows: usize, cols: usize) -> (r: Vec<T>)
    requires
        data@.len() == rows * cols,
    ensures
        r@.len() == rows * cols,
        forall|i: int, j: int| 0 <= i < cols && 0 <= j < rows ==> #[trigger] r@[i * rows + j] == data@[j * cols + i],
{
    let len: usize = data.len();
    let mut r: Vec<T> = Vec::with_capacity(len);
    let mut p: usize = 0;
    proof {
        assert(rows * cols == cols * rows) by (nonlinear_arith);
    }
    while p < len
        invariant
            p <= len,
            len == data@.len(),
            len == rows * cols,
            len == cols * rows,
            r@.len() == p,
            forall|q: int| 0 <= q < p ==> #[trigger] r@[q] == data@[(q % (rows as int)) * cols + q / (rows as int)],
        decreases len - p,
    {
        proof {
            lemma_grid_split(p as int, cols as int, rows as int);
            lemma_grid_bound(p as int % rows as int, rows as int, p as int / rows as int, cols as int);
        }
        let i = p / rows;
        let j = p % rows;
        proof {
            assert(0 <= j * cols) by (nonlinear_arith)
                requires
                    j >= 0,
                    cols >= 0,
            ;
        }
        r.push(data[j * cols + i]);
        p = p + 1;
    }
    proof {
        assert forall|i: int, j: int| 0 <= i < cols && 0 <= j < rows implies #[trigger] r@[i * rows + j] == data@[j
            * cols + i] by {
            lemma_grid_bound(i, cols as int, j, rows as int);
            lemma_grid_digits(i, j, rows as int);
        }
    }
    r
}

/// The bias of the layer, and whether the next node adds it.
fn find_bias<T: Copy>(model: &OnnxModel<T>, id: usize, next: Option<usize>) -> (r: Option<usize>)
    requires
        model.wf(),
        next matches Some(n) ==> n < model.nodes@.len(),
    ensures
        r == bias_node(model, id, next),
        r matches Some(b) ==> b < model.nodes@.len(),
{
    match next {
        None => None,
        Some(n) => {
            let node = &model.nodes[n];
            assert(model.node_wf(model.nodes@[n as int]));
            if node.inputs.len() != 2 {
                return None;
            }
            match &node.op {
                Op::BinOp { add } => if *add {
                    let (a, b) = (node.inputs[0], node.inputs[1]);
                    assert(node.inputs@[0].node < model.nodes@.len());
                    assert(node.inputs@[1].node < model.nodes@.len());
                    if a.node == id {
                        Some(b.node)
                    } else if b.node == id {
                        Some(a.node)
                    } else {
                        None
                    }
                } else {
                    None
                },
                _ => None,
            }
        },
    }
}

/// Reads a layer that multiplies by a matrix, given the node that follows. A bias that is not there is zero.
pub fn load_gemm<T: Copy>(model: &OnnxModel<T>, node_id: usize, next: Option<usize>, zero: T) -> (r: Result<
    GemmNode<T>,
    OnnxError,
>)
    requires
        model.wf(),
        node_id < model.nodes@.len(),
        next matches Some(n) ==> n < model.nodes@.len(),
        gemm_fits(model, model.nodes@[node_id as int]),
    ensures
        match r {
            Ok(g) => gemm_error(model, node_id, next) is None && is_gemm(&g, model, node_id, next, zero),
            Err(e) => gemm_error(model, node_id, next) == Some(e),
        },
{
    let node = &model.nodes[node_id];
    let ghost nd = model.nodes@[node_id as int];
    assert(model.node_wf(nd));
    match &node.op {
        Op::EinSum => {},
        _ => {
            return Err(OnnxError::Operation);
        },
    }
    if node.inputs.len() != 2 {
        return Err(OnnxError::Inputs);
    }
    let (a, b) = (node.inputs[0], node.inputs[1]);
    assert(nd.inputs@[0].node < model.nodes@.len());
    assert(nd.inputs@[1].node < model.nodes@.len());
    let weight_link = if is_const(&model.nodes[b.node]) {
        b
    } else if is_const(&model.nodes[a.node]) {
        a
    } else {
        return Err(OnnxError::NoConstant);
    };
    let weight = match extract_const_tensor(&model.nodes[weight_link.node]) {
        Ok(t) => t,
        Err(e) => {
            return Err(e);
        },
    };
    let ghost stored = model.source(weight_link);
    assert(model.node_wf(model.nodes@[weight_link.node as int]));
    let rank: usize = weight.shape.rank();
    if rank == 0 {
        return Err(OnnxError::NotMatrix);
    }
    let input = if a.node != weight_link.node {
        a
    } else if b.node != weight_link.node {
        b
    } else {
        return Err(OnnxError::NoInput);
    };
    let input_shape = match get_node_output_shape(&model.nodes[input.node], input.slot) {
        Ok(s) => s,
        Err(e) => {
            return Err(e);
        },
    };
    assert(weight_error(model, nd) is None);
    let size = input_shape.product();
    let (rows, cols) = if rank == 1 {
        (1, weight.shape.0[0])
    } else {
        (weight.shape.0[0], inner_size(&weight.shape))
    };
    let ghost dims = gemm_dims(model, nd);
    proof {
        assert(dims == (rows as nat, cols as nat, size as nat));
        if rank == 1 {
            assert(weight.shape@ =~= seq![cols]);
            lemma_prod1(cols);
            assert(1 * cols == cols);
        }
        assert(weight.data@.len() == rows * cols);
    }
    let data = weight.data;
    let (out, arranged): (usize, Vec<T>) = if cols == size {
        (rows, data)
    } else if rows == size {
        (cols, transposed(&data, rows, cols))
    } else {
        return Err(OnnxError::Shapes);
    };
    let shape: Vec<usize> = vec![out, size];
    proof {
        assert(shape@ =~= seq![out, size]);
        lemma_prod2(out, size);
        assert(rows * cols == cols * rows) by (nonlinear_arith);
    }
    let weight = Tensor { data: arranged, shape: Shape(shape), og_shape: no_shape() };
    let found = find_bias(model, node_id, next);
    let flat: Vec<usize> = vec![out];
    proof {
        assert(flat@ =~= seq![out]);
        lemma_prod1(out);
    }
    let (id, consumed, bias): (usize, bool, Tensor<T>) = match found {
        None => (node_id, false, Tensor { data: filled(zero, out), shape: Shape(flat), og_shape: no_shape() }),
        Some(bn) => {
            let t = match extract_const_tensor(&model.nodes[bn]) {
                Ok(t) => t,
                Err(e) => {
                    return Err(e);
                },
            };
            assert(model.node_wf(model.nodes@[bn as int]));
            let k: usize = t.shape.rank();
            if k != 1 && k != 2 {
                return Err(OnnxError::Bias);
            }
            if k == 2 && t.shape.0[0] != 1 {
                return Err(OnnxError::Bias);
            }
            let len = t.shape.0[k - 1];
            if len != out {
                return Err(OnnxError::Bias);
            }
            proof {
                lemma_prod_of_rank(t.shape@);
                assert(1 * len == len);
            }
            let n = match next {
                Some(n) => n,
                None => node_id,
            };
            (n, true, Tensor { data: t.data, shape: Shape(flat), og_shape: no_shape() })
        },
    };
    Ok(GemmNode { id, input, weight, bias, consumed })
}

} // verus!
