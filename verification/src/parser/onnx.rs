//! The nodes of a model in the ONNX format, and the checks on their attributes.
use crate::layers::pooling::MAXPOOL2D_KERNEL_SIZE;
use crate::shape::{prod, Shape};
use crate::tensor::{copy_slice, Tensor};
use vstd::prelude::*;

verus! {

/// An output of a node.
#[derive(Debug, Clone, Copy, PartialEq, Eq, Structural)]
pub struct Link {
    pub node: usize,
    pub slot: usize,
}

/// A dimension of a shape: a number, or an expression in symbols.
#[derive(Debug, Clone, Copy, PartialEq, Eq, Structural)]
pub enum Dim {
    Val(i64),
    Symbolic,
}

/// How the input of a window operation is padded.
#[derive(Debug)]
pub enum PaddingSpec {
    Explicit(Vec<usize>, Vec<usize>),
    ExplicitOnnxPool(Vec<usize>, Vec<usize>),
    Valid,
    /// Padding that depends on the size of the input.
    Automatic,
}

/// The attributes of a window operation.
#[derive(Debug)]
pub struct PoolSpec {
    pub strides: Option<Vec<usize>>,
    pub padding: PaddingSpec,
    pub dilations: Option<Vec<usize>>,
    pub kernel_shape: Vec<usize>,
}

/// What a node computes.
#[derive(Debug)]
pub enum Op<T> {
    Conv(PoolSpec),
    MaxPool(PoolSpec),
    EinSum,
    /// A reduction along the given axes, a sum or another one.
    Reduce { sum: bool, axes: Vec<usize> },
    /// A binary operation on every entry, an addition or another one.
    BinOp { add: bool },
    /// A constant; no data where its entries are of another type.
    Const(Option<Vec<T>>),
    Reshape { from: Vec<Dim>, to: Vec<Dim> },
    Other,
}

/// A node: its name, the name of its operation, and the shapes of its outputs where they are known.
#[derive(Debug)]
pub struct OnnxNode<T> {
    pub name: Vec<u8>,
    pub op_name: Vec<u8>,
    pub op: Op<T>,
    pub inputs: Vec<Link>,
    pub outputs: Vec<Option<Shape>>,
}

/// The nodes of a model; a node is known by its place.
#[derive(Debug)]
pub struct OnnxModel<T> {
    pub nodes: Vec<OnnxNode<T>>,
}

/// Why a model cannot be read.
#[derive(Debug, Clone, Copy, PartialEq, Eq, Structural)]
pub enum OnnxError {
    /// A dimension is not a number.
    SymbolicDimension,
    /// No layer is known for a node of that name.
    UnknownNode,
    /// The operation of the node is not the one that its name says.
    Operation,
    /// The node does not have the number of inputs that it should have.
    Inputs,
    /// The two shapes of a reshape do not have the same number of entries.
    ReshapeSizes,
    /// A reshape that does not flatten.
    NotFlat,
    Strides,
    Padding,
    Kernel,
    Dilations,
    /// A reduction other than a sum.
    Reducer,
    /// Axes other than those of the planes.
    Axes,
    /// The shape of an output is not known.
    UnknownShape,
    /// The planes are empty.
    EmptyPlanes,
    /// The division by the number of entries is missing.
    Normalization,
    /// No input is constant.
    NoConstant,
    /// The constant is not one with a single output and entries of the right type.
    Constant,
    /// The weights are not a matrix.
    NotMatrix,
    /// There is no input besides the weights.
    NoInput,
    /// The node has no output of that number.
    NoOutput,
    /// The weights and the input do not fit to each other.
    Shapes,
    /// The bias is not a vector, or does not fit to the weights.
    Bias,
}

impl<T> OnnxModel<T> {
    /// Every input of a node is an output of a node, and the entries of a constant fill its shape.
    pub open spec fn wf(&self) -> bool {
        forall|i: int| 0 <= i < self.nodes@.len() ==> self.node_wf(#[trigger] self.nodes@[i])
    }

    pub open spec fn node_wf(&self, node: OnnxNode<T>) -> bool {
        &&& forall|j: int| 0 <= j < node.inputs@.len() ==> (#[trigger] node.inputs@[j]).node < self.nodes@.len()
        &&& node.op matches Op::Const(Some(data)) ==> {
            node.outputs@.len() == 1 && node.outputs@[0] is Some ==> data@.len() == prod(node.outputs@[0]->0@)
        }
    }

    /// The node that an input comes from.
    pub open spec fn source(&self, l: Link) -> OnnxNode<T> {
        self.nodes@[l.node as int]
    }
}

/// The number that a dimension is.
pub fn tdim_to_usize(tdim: &Dim) -> (r: Result<usize, OnnxError>)
    ensures
        match *tdim {
            Dim::Val(v) => r == Ok::<usize, OnnxError>(v as usize),
            Dim::Symbolic => r == Err::<usize, OnnxError>(OnnxError::SymbolicDimension),
        },
{
    match tdim {
        Dim::Val(v) => Ok(*v as usize),
        Dim::Symbolic => Err(OnnxError::SymbolicDimension),
    }
}

/// Every dimension is a number.
pub open spec fn concrete(dims: Seq<Dim>) -> bool {
    forall|i: int| 0 <= i < dims.len() ==> #[trigger] dims[i] is Val
}

/// The numbers that the dimensions are.
pub open spec fn numbers(dims: Seq<Dim>) -> Seq<usize> {
    dims.map_values(|d: Dim| d->Val_0 as usize)
}

/// The shape with the given dimensions.
pub fn dims_to_shape(dims: &[Dim]) -> (r: Result<Shape, OnnxError>)
    ensures
        match r {
            Ok(s) => concrete(dims@) && s@ == numbers(dims@),
            Err(e) => !concrete(dims@) && e == OnnxError::SymbolicDimension,
        },
{
    let mut v: Vec<usize> = Vec::with_capacity(dims.len());
    let mut i: usize = 0;
    while i < dims.len()
        invariant
            i <= dims@.len(),
            v@.len() == i,
            forall|j: int| 0 <= j < i ==> #[trigger] dims@[j] is Val,
            forall|j: int| 0 <= j < i ==> #[trigger] v@[j] == numbers(dims@)[j],
        decreases dims@.len() - i,
    {
        match tdim_to_usize(&dims[i]) {
            Ok(d) => v.push(d),
            Err(e) => {
                assert(!(dims@[i as int] is Val));
                return Err(e);
            },
        }
        i = i + 1;
    }
    proof {
        assert(v@ =~= numbers(dims@));
    }
    Ok(Shape(v))
}

/// The shape of the input of a model, without a batch dimension of one.
pub open spec fn unbatched(s: Seq<usize>) -> Seq<usize> {
    if s[0] == 1 {
        s.skip(1)
    } else {
        s
    }
}

/// The shape of the input of a model: a batch dimension of one is dropped, since there is no batching.
pub fn input_shape(dims: &[Dim]) -> (r: Result<Shape, OnnxError>)
    requires
        dims@.len() > 0,
    ensures
        match r {
            Ok(s) => concrete(dims@) && s@ == unbatched(numbers(dims@)),
            Err(e) => !concrete(dims@) && e == OnnxError::SymbolicDimension,
        },
{
    match dims_to_shape(dims) {
        Ok(s) => if s.0[0] == 1 {
            let n: usize = s.rank();
            let r = s.slice(1, n);
            proof {
                assert(r@ =~= s@.skip(1));
            }
            Ok(r)
        } else {
            Ok(s)
        },
        Err(e) => Err(e),
    }
}

/// Every entry is `x`.
pub open spec fn all_equal(v: Seq<usize>, x: usize) -> bool {
    forall|i: int| 0 <= i < v.len() ==> #[trigger] v[i] == x
}

fn are_all(v: &Vec<usize>, x: usize) -> (r: bool)
    ensures
        r == all_equal(v@, x),
{
    let mut i: usize = 0;
    while i < v.len()
        invariant
            i <= v@.len(),
            forall|j: int| 0 <= j < i ==> #[trigger] v@[j] == x,
        decreases v@.len() - i,
    {
        if v[i] != x {
            return false;
        }
        i = i + 1;
    }
    true
}

/// What is not supported about the windows of a maximum layer.
pub open spec fn maxpool_error(p: PoolSpec) -> Option<OnnxError> {
    if p.strides is Some && !all_equal(p.strides->0@, MAXPOOL2D_KERNEL_SIZE) {
        Some(OnnxError::Strides)
    } else if match p.padding {
        PaddingSpec::Explicit(a, b) => !all_equal(a@, 0) || !all_equal(b@, 0),
        PaddingSpec::ExplicitOnnxPool(a, b) => !all_equal(a@, 0) || !all_equal(b@, 0),
        PaddingSpec::Valid => false,
        PaddingSpec::Automatic => true,
    } {
        Some(OnnxError::Padding)
    } else if !all_equal(p.kernel_shape@, MAXPOOL2D_KERNEL_SIZE) {
        Some(OnnxError::Kernel)
    } else if p.dilations is Some && !all_equal(p.dilations->0@, 1) {
        Some(OnnxError::Dilations)
    } else {
        None
    }
}

/// Checks that the windows of a maximum layer are supported.
pub fn check_maxpool_attributes(p: &PoolSpec) -> (r: Result<(), OnnxError>)
    ensures
        match r {
            Ok(_) => maxpool_error(*p) is None,
            Err(e) => maxpool_error(*p) == Some(e),
        },
{
    if let Some(strides) = &p.strides {
        if !are_all(strides, MAXPOOL2D_KERNEL_SIZE) {
            return Err(OnnxError::Strides);
        }
    }
    match &p.padding {
        PaddingSpec::Explicit(a, b) => {
            if !are_all(a, 0) || !are_all(b, 0) {
                return Err(OnnxError::Padding);
            }
        },
        PaddingSpec::ExplicitOnnxPool(a, b) => {
            if !are_all(a, 0) || !are_all(b, 0) {
                return Err(OnnxError::Padding);
            }
        },
        PaddingSpec::Valid => {},
        PaddingSpec::Automatic => {
            return Err(OnnxError::Padding);
        },
    }
    if !are_all(&p.kernel_shape, MAXPOOL2D_KERNEL_SIZE) {
        return Err(OnnxError::Kernel);
    }
    if let Some(dilations) = &p.dilations {
        if !are_all(dilations, 1) {
            return Err(OnnxError::Dilations);
        }
    }
    Ok(())
}

/// Every entry is more than one.
pub open spec fn all_above_one(v: Seq<usize>) -> bool {
    forall|i: int| 0 <= i < v.len() ==> #[trigger] v[i] > 1
}

/// What is not supported about the windows of a convolution.
pub open spec fn conv_error(p: PoolSpec) -> Option<OnnxError> {
    let k = p.kernel_shape@;
    if p.strides is None || !all_equal(p.strides->0@, 1) {
        Some(OnnxError::Strides)
    } else if match p.padding {
        PaddingSpec::Explicit(a, b) => !all_equal(a@, 0) || !all_equal(b@, 0),
        _ => true,
    } {
        Some(OnnxError::Padding)
    } else if p.dilations is None || !all_equal(p.dilations->0@, 1) {
        Some(OnnxError::Dilations)
    } else if !all_above_one(k) || k.len() != 2 || k[0] != k[1] {
        Some(OnnxError::Kernel)
    } else {
        None
    }
}

/// Checks that the windows of a convolution are supported: square ones, next to each other, without padding.
pub fn check_conv2d_attributes(p: &PoolSpec) -> (r: Result<(), OnnxError>)
    ensures
        match r {
            Ok(_) => conv_error(*p) is None,
            Err(e) => conv_error(*p) == Some(e),
        },
{
    match &p.strides {
        None => {
            return Err(OnnxError::Strides);
        },
        Some(strides) => {
            if !are_all(strides, 1) {
                return Err(OnnxError::Strides);
            }
        },
    }
    match &p.padding {
        PaddingSpec::Explicit(a, b) => {
            if !are_all(a, 0) || !are_all(b, 0) {
                return Err(OnnxError::Padding);
            }
        },
        _ => {
            return Err(OnnxError::Padding);
        },
    }
    match &p.dilations {
        None => {
            return Err(OnnxError::Dilations);
        },
        Some(dilations) => {
            if !are_all(dilations, 1) {
                return Err(OnnxError::Dilations);
            }
        },
    }
    let k = &p.kernel_shape;
    let mut i: usize = 0;
    while i < k.len()
        invariant
            i <= k@.len(),
            k@ == p.kernel_shape@,
            forall|j: int| 0 <= j < i ==> #[trigger] k@[j] > 1,
            p.strides is Some && all_equal(p.strides->0@, 1),
            p.padding is Explicit,
            all_equal(p.padding->Explicit_0@, 0) && all_equal(p.padding->Explicit_1@, 0),
            p.dilations is Some && all_equal(p.dilations->0@, 1),
        decreases k@.len() - i,
    {
        if k[i] <= 1 {
            return Err(OnnxError::Kernel);
        }
        i = i + 1;
    }
    if k.len() != 2 || k[0] != k[1] {
        return Err(OnnxError::Kernel);
    }
    Ok(())
}

/// What keeps a node from being read as a constant.
pub open spec fn const_error<T>(node: OnnxNode<T>) -> Option<OnnxError> {
    match node.op {
        Op::Const(Some(_)) => if node.outputs@.len() != 1 {
            Some(OnnxError::Constant)
        } else if node.outputs@[0] is None {
            Some(OnnxError::UnknownShape)
        } else {
            None
        },
        Op::Const(None) => Some(OnnxError::Constant),
        _ => Some(OnnxError::Operation),
    }
}

/// The entries of a constant.
pub open spec fn const_data<T>(node: OnnxNode<T>) -> Seq<T> {
    node.op->Const_0->0@
}

/// The tensor that a constant is.
pub fn extract_const_tensor<T: Copy>(node: &OnnxNode<T>) -> (r: Result<Tensor<T>, OnnxError>)
    ensures
        match r {
            Ok(t) => {
                &&& const_error(*node) is None
                &&& t.data@ == const_data(*node)
                &&& t.shape@ == node.outputs@[0]->0@
                &&& t.og_shape@ == seq![0usize]
            },
            Err(e) => const_error(*node) == Some(e),
        },
{
    match &node.op {
        Op::Const(Some(data)) => {
            if node.outputs.len() != 1 {
                return Err(OnnxError::Constant);
            }
            match &node.outputs[0] {
                Some(shape) => Ok(
                    Tensor { data: copy_slice(data), shape: shape.clone(), og_shape: crate::tensor::no_shape() },
                ),
                None => Err(OnnxError::UnknownShape),
            }
        },
        Op::Const(None) => Err(OnnxError::Constant),
        _ => Err(OnnxError::Operation),
    }
}

/// Is the node a constant?
pub fn is_const<T>(node: &OnnxNode<T>) -> (r: bool)
    ensures
        r == (node.op is Const),
{
    match &node.op {
        Op::Const(_) => true,
        _ => false,
    }
}

/// What keeps an output of a node from having a shape.
pub open spec fn shape_error<T>(node: OnnxNode<T>, slot: usize) -> Option<OnnxError> {
    if slot >= node.outputs@.len() {
        Some(OnnxError::NoOutput)
    } else if node.outputs@[slot as int] is None {
        Some(OnnxError::UnknownShape)
    } else {
        None
    }
}

/// The shape of an output of a node.
pub fn get_node_output_shape<T>(node: &OnnxNode<T>, output_idx: usize) -> (r: Result<Shape, OnnxError>)
    ensures
        match r {
            Ok(s) => shape_error(*node, output_idx) is None && s@ == node.outputs@[output_idx as int]->0@,
            Err(e) => shape_error(*node, output_idx) == Some(e),
        },
{
    if output_idx >= node.outputs.len() {
        return Err(OnnxError::NoOutput);
    }
    match &node.outputs[output_idx] {
        Some(s) => Ok(s.clone()),
        None => Err(OnnxError::UnknownShape),
    }
}

} // verus!
