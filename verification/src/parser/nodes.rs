//! Reading of the other layers.
use crate::layers::pooling::{GlobalAvgPool2D, Maxpool2D, Pooling, MAXPOOL2D_KERNEL_SIZE};
use crate::parser::onnx::{
    check_conv2d_attributes, check_maxpool_attributes, concrete, const_data, const_error, conv_error, dims_to_shape,
    extract_const_tensor, is_const, maxpool_error, numbers, Link, OnnxError, OnnxModel, OnnxNode, Op,
};
use crate::shape::prod;
use crate::tensor::Tensor;
use vstd::prelude::*;

verus! {

/// What keeps a flattening layer from being read.
pub open spec fn flatten_error<T>(node: OnnxNode<T>) -> Option<OnnxError> {
    if node.inputs@.len() != 1 {
        Some(OnnxError::Inputs)
    } else {
        None
    }
}

/// Reads a flattening layer: where its input comes from.
pub fn load_flatten<T>(node: &OnnxNode<T>) -> (r: Result<Link, OnnxError>)
    ensures
        match r {
            Ok(l) => flatten_error(*node) is None && l == node.inputs@[0],
            Err(e) => flatten_error(*node) == Some(e),
        },
{
    if node.inputs.len() != 1 {
        return Err(OnnxError::Inputs);
    }
    Ok(node.inputs[0])
}

/// What keeps a reshape from being read: only reshapes that flatten are supported.
pub open spec fn reshape_error<T>(node: OnnxNode<T>) -> Option<OnnxError> {
    if node.inputs@.len() != 1 {
        Some(OnnxError::Inputs)
    } else {
        match node.op {
            Op::Reshape { from, to } => if !concrete(from@) || !concrete(to@) {
                Some(OnnxError::SymbolicDimension)
            } else if prod(numbers(from@)) != prod(numbers(to@)) {
                Some(OnnxError::ReshapeSizes)
            } else if to@.len() != 1 {
                Some(OnnxError::NotFlat)
            } else {
                None
            },
            _ => Some(OnnxError::Operation),
        }
    }
}

/// The sizes of the shapes of a reshape can be held.
pub open spec fn reshape_fits<T>(node: OnnxNode<T>) -> bool {
    node.op matches Op::Reshape { from, to } ==> concrete(from@) && concrete(to@) ==> prod(numbers(from@))
        <= usize::MAX && prod(numbers(to@)) <= usize::MAX
}

/// Reads a reshape: where its input comes from.
pub fn load_reshape<T>(node: &OnnxNode<T>) -> (r: Result<Link, OnnxError>)
    requires
        reshape_fits(*node),
    ensures
        match r {
            Ok(l) => reshape_error(*node) is None && l == node.inputs@[0],
            Err(e) => reshape_error(*node) == Some(e),
        },
{
    if node.inputs.len() != 1 {
        return Err(OnnxError::Inputs);
    }
    match &node.op {
        Op::Reshape { from, to } => {
            let from_shape = match dims_to_shape(from) {
                Ok(s) => s,
                Err(e) => {
                    return Err(e);
                },
            };
            let to_shape = match dims_to_shape(to) {
                Ok(s) => s,
                Err(e) => {
                    return Err(e);
                },
            };
            if from_shape.product() != to_shape.product() {
                return Err(OnnxError::ReshapeSizes);
            }
            if to_shape.rank() != 1 {
                return Err(OnnxError::NotFlat);
            }
        },
        _ => {
            return Err(OnnxError::Operation);
        },
    }
    Ok(node.inputs[0])
}

/// What keeps a maximum layer from being read.
pub open spec fn load_maxpool_error<T>(node: OnnxNode<T>) -> Option<OnnxError> {
    if node.inputs@.len() != 1 {
        Some(OnnxError::Inputs)
    } else {
        match node.op {
            Op::MaxPool(p) => maxpool_error(p),
            _ => Some(OnnxError::Operation),
        }
    }
}

/// The layer with the supported windows.
pub open spec fn default_maxpool() -> Pooling {
    Pooling::Maxpool2D(Maxpool2D { kernel_size: MAXPOOL2D_KERNEL_SIZE, stride: MAXPOOL2D_KERNEL_SIZE })
}

/// Reads a maximum layer: where its input comes from, and the layer.
pub fn load_maxpool<T>(node: &OnnxNode<T>) -> (r: Result<(Link, Pooling), OnnxError>)
    ensures
        match r {
            Ok((l, p)) => {
                &&& load_maxpool_error(*node) is None
                &&& l == node.inputs@[0]
                &&& p == default_maxpool()
            },
            Err(e) => load_maxpool_error(*node) == Some(e),
        },
{
    if node.inputs.len() != 1 {
        return Err(OnnxError::Inputs);
    }
    match &node.op {
        Op::MaxPool(p) => {
            match check_maxpool_attributes(p) {
                Ok(_) => {},
                Err(e) => {
                    return Err(e);
                },
            }
        },
        _ => {
            return Err(OnnxError::Operation);
        },
    }
    Ok((node.inputs[0], Pooling::Maxpool2D(Maxpool2D::default())))
}

/// The product of the dimensions along the first `n` axes.
pub open spec fn axes_size(s: Seq<usize>, axes: Seq<usize>, n: nat) -> nat
    decreases n,
{
    if n == 0 {
        1
    } else {
        axes_size(s, axes, (n - 1) as nat) * s[axes[n - 1] as int] as nat
    }
}

/// All axes are those of planes.
pub open spec fn spatial(axes: Seq<usize>) -> bool {
    axes.len() > 0 && forall|i: int| 0 <= i < axes.len() ==> #[trigger] axes[i] >= 2
}

/// The first `n` axes are axes of the shape.
pub open spec fn axes_in(s: Seq<usize>, axes: Seq<usize>, n: int) -> bool {
    forall|i: int| 0 <= i < n ==> #[trigger] axes[i] < s.len()
}

/// What keeps an average layer from being read, as far as the sum is concerned.
pub open spec fn sum_error<T>(model: &OnnxModel<T>, node: OnnxNode<T>) -> Option<OnnxError> {
    match node.op {
        Op::Reduce { sum, axes } => if !sum {
            Some(OnnxError::Reducer)
        } else if !spatial(axes@) {
            Some(OnnxError::Axes)
        } else if node.inputs@.len() != 1 {
            Some(OnnxError::Inputs)
        } else {
            match model.source(node.inputs@[0]).outputs@[node.inputs@[0].slot as int] {
                None => Some(OnnxError::UnknownShape),
                Some(s) => if !axes_in(s@, axes@, axes@.len() as int) {
                    Some(OnnxError::Axes)
                } else if axes_size(s@, axes@, axes@.len()) == 0 {
                    Some(OnnxError::EmptyPlanes)
                } else {
                    None
                },
            }
        },
        _ => Some(OnnxError::Operation),
    }
}

/// What keeps an average layer from being read: the sum has to be followed by a division.
pub open spec fn average_error<T>(model: &OnnxModel<T>, id: usize, next: Option<usize>) -> Option<OnnxError> {
    let node = model.nodes@[id as int];
    if sum_error(model, node) is Some {
        sum_error(model, node)
    } else {
        match next {
            None => Some(OnnxError::Normalization),
            Some(n) => if model.nodes@[n as int].op is BinOp {
                None
            } else {
                Some(OnnxError::Normalization)
            },
        }
    }
}

/// The number of entries of a plane.
pub open spec fn plane_size<T>(model: &OnnxModel<T>, id: usize) -> nat {
    let node = model.nodes@[id as int];
    let l = node.inputs@[0];
    let axes = node.op->Reduce_axes@;
    axes_size(model.source(l).outputs@[l.slot as int]->0@, axes, axes.len())
}

/// The input is an output of its node, and the sizes can be held.
pub open spec fn average_fits<T>(model: &OnnxModel<T>, node: OnnxNode<T>) -> bool {
    node.op matches Op::Reduce { sum, axes } ==> node.inputs@.len() == 1 ==> {
        let l = node.inputs@[0];
        let s = model.source(l).outputs@[l.slot as int];
        &&& l.slot < model.source(l).outputs@.len()
        &&& s matches Some(s) ==> forall|n: nat|
            n <= axes@.len() && axes_in(s@, axes@, n as int) ==> #[trigger] axes_size(s@, axes@, n) <= usize::MAX
    }
}

/// Reads an average layer, which is a sum over the planes followed by a division: where its input comes from, the
/// layer, and the division, which is part of the layer and which later nodes refer to.
pub fn load_globalavgpool<T>(model: &OnnxModel<T>, node_id: usize, next: Option<usize>) -> (r: Result<
    (Link, Pooling, usize),
    OnnxError,
>)
    requires
        model.wf(),
        node_id < model.nodes@.len(),
        next matches Some(n) ==> n < model.nodes@.len(),
        average_fits(model, model.nodes@[node_id as int]),
    ensures
        match r {
            Ok((l, p, id)) => {
                &&& average_error(model, node_id, next) is None
                &&& l == model.nodes@[node_id as int].inputs@[0]
                &&& p == Pooling::GlobalAvgPool2D(
                    GlobalAvgPool2D { spatial_size: plane_size(model, node_id) as usize },
                )
                &&& plane_size(model, node_id) <= usize::MAX
                &&& Some(id) == next
            },
            Err(e) => average_error(model, node_id, next) == Some(e),
        },
{
    let node = &model.nodes[node_id];
    let ghost nd = model.nodes@[node_id as int];
    assert(model.node_wf(nd));
    let axes = match &node.op {
        Op::Reduce { sum, axes } => {
            if !*sum {
                return Err(OnnxError::Reducer);
            }
            axes
        },
        _ => {
            return Err(OnnxError::Operation);
        },
    };
    if axes.len() == 0 {
        return Err(OnnxError::Axes);
    }
    let mut i: usize = 0;
    while i < axes.len()
        invariant
            i <= axes@.len(),
            nd == model.nodes@[node_id as int],
            nd.op matches Op::Reduce { sum, axes: ax } && sum && ax@ == axes@,
            forall|j: int| 0 <= j < i ==> #[trigger] axes@[j] >= 2,
        decreases axes@.len() - i,
    {
        if axes[i] < 2 {
            assert(axes@[i as int] < 2);
            return Err(OnnxError::Axes);
        }
        i = i + 1;
    }
    if node.inputs.len() != 1 {
        return Err(OnnxError::Inputs);
    }
    let input = node.inputs[0];
    assert(nd.inputs@[0].node < model.nodes@.len());
    let shape = match &model.nodes[input.node].outputs[input.slot] {
        Some(s) => s,
        None => {
            return Err(OnnxError::UnknownShape);
        },
    };
    let mut size: usize = 1;
    let mut k: usize = 0;
    while k < axes.len()
        invariant
            k <= axes@.len(),
            nd == model.nodes@[node_id as int],
            nd.op matches Op::Reduce { sum, axes: ax } && sum && ax@ == axes@,
            spatial(axes@),
            nd.inputs@.len() == 1,
            nd.inputs@[0] == input,
            model.source(input).outputs@[input.slot as int] == Some(*shape),
            axes_in(shape@, axes@, k as int),
            forall|n: nat|
                n <= axes@.len() && axes_in(shape@, axes@, n as int) ==> #[trigger] axes_size(shape@, axes@, n)
                    <= usize::MAX,
            size == axes_size(shape@, axes@, k as nat),
        decreases axes@.len() - k,
    {
        let axis = axes[k];
        if axis >= shape.0.len() {
            assert(axes@[k as int] >= shape@.len());
            return Err(OnnxError::Axes);
        }
        proof {
            assert(axes_in(shape@, axes@, k + 1));
            assert(axes_size(shape@, axes@, (k + 1) as nat) <= usize::MAX);
        }
        size = size * shape.0[axis];
        k = k + 1;
    }
    if size == 0 {
        return Err(OnnxError::EmptyPlanes);
    }
    match next {
        None => Err(OnnxError::Normalization),
        Some(n) => match &model.nodes[n].op {
            Op::BinOp { .. } => Ok((input, Pooling::GlobalAvgPool2D(GlobalAvgPool2D { spatial_size: size }), n)),
            _ => Err(OnnxError::Normalization),
        },
    }
}

/// What keeps a rectifier from being read: it is the maximum of an input and a constant.
pub open spec fn relu_error<T>(model: &OnnxModel<T>, node: OnnxNode<T>) -> Option<OnnxError> {
    if node.inputs@.len() != 2 {
        Some(OnnxError::Inputs)
    } else if !(model.source(node.inputs@[0]).op is Const) && !(model.source(node.inputs@[1]).op is Const) {
        Some(OnnxError::NoConstant)
    } else {
        None
    }
}

/// Reads a rectifier: where its input comes from, which is the one that is not the constant.
pub fn load_relu<T>(model: &OnnxModel<T>, node_id: usize) -> (r: Result<Link, OnnxError>)
    requires
        model.wf(),
        node_id < model.nodes@.len(),
    ensures
        ({
            let node = model.nodes@[node_id as int];
            match r {
                Ok(l) => {
                    &&& relu_error(model, node) is None
                    &&& l == (if model.source(node.inputs@[1]).op is Const {
                        node.inputs@[0]
                    } else {
                        node.inputs@[1]
                    })
                },
                Err(e) => relu_error(model, node) == Some(e),
            }
        }),
{
    let node = &model.nodes[node_id];
    assert(model.node_wf(model.nodes@[node_id as int]));
    if node.inputs.len() != 2 {
        return Err(OnnxError::Inputs);
    }
    let (a, b) = (node.inputs[0], node.inputs[1]);
    assert(node.inputs@[0].node < model.nodes@.len());
    assert(node.inputs@[1].node < model.nodes@.len());
    if is_const(&model.nodes[b.node]) {
        Ok(a)
    } else if is_const(&model.nodes[a.node]) {
        Ok(b)
    } else {
        Err(OnnxError::NoConstant)
    }
}

/// The filter and the bias of a convolution; no bias where it has no dimension.
#[derive(Debug)]
pub struct ConvNode<T> {
    pub input: Link,
    pub filter: Tensor<T>,
    pub bias: Option<Tensor<T>>,
}

/// What keeps a convolution from being read.
pub open spec fn load_conv_error<T>(model: &OnnxModel<T>, node: OnnxNode<T>) -> Option<OnnxError> {
    match node.op {
        Op::Conv(p) => if conv_error(p) is Some {
            conv_error(p)
        } else if node.inputs@.len() != 3 {
            Some(OnnxError::Inputs)
        } else if const_error(model.source(node.inputs@[1])) is Some {
            const_error(model.source(node.inputs@[1]))
        } else {
            const_error(model.source(node.inputs@[2]))
        },
        _ => Some(OnnxError::Operation),
    }
}

/// `t` is the tensor of the constant.
pub open spec fn is_constant<T>(t: &Tensor<T>, node: OnnxNode<T>) -> bool {
    &&& t.data@ == const_data(node)
    &&& t.shape@ == node.outputs@[0]->0@
}

/// Reads a convolution: where its input comes from, its filter, and its bias.
pub fn load_conv<T: Copy>(model: &OnnxModel<T>, node_id: usize) -> (r: Result<ConvNode<T>, OnnxError>)
    requires
        model.wf(),
        node_id < model.nodes@.len(),
    ensures
        ({
            let node = model.nodes@[node_id as int];
            match r {
                Ok(c) => {
                    let b = model.source(node.inputs@[2]);
                    &&& load_conv_error(model, node) is None
                    &&& c.input == node.inputs@[0]
                    &&& is_constant(&c.filter, model.source(node.inputs@[1]))
                    &&& match c.bias {
                        Some(t) => b.outputs@[0]->0@.len() > 0 && is_constant(&t, b),
                        None => b.outputs@[0]->0@.len() == 0,
                    }
                },
                Err(e) => load_conv_error(model, node) == Some(e),
            }
        }),
{
    let node = &model.nodes[node_id];
    assert(model.node_wf(model.nodes@[node_id as int]));
    match &node.op {
        Op::Conv(p) => {
            match check_conv2d_attributes(p) {
                Ok(_) => {},
                Err(e) => {
                    return Err(e);
                },
            }
        },
        _ => {
            return Err(OnnxError::Operation);
        },
    }
    if node.inputs.len() != 3 {
        return Err(OnnxError::Inputs);
    }
    assert(node.inputs@[1].node < model.nodes@.len());
    assert(node.inputs@[2].node < model.nodes@.len());
    let filter = match extract_const_tensor(&model.nodes[node.inputs[1].node]) {
        Ok(t) => t,
        Err(e) => {
            return Err(e);
        },
    };
    let bias = match extract_const_tensor(&model.nodes[node.inputs[2].node]) {
        Ok(t) => t,
        Err(e) => {
            return Err(e);
        },
    };
    let bias = if bias.is_empty() {
        None
    } else {
        Some(bias)
    };
    Ok(ConvNode { input: node.inputs[0], filter, bias })
}

} // verus!
