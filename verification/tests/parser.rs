//! Reading of the nodes of a model.
use zkml::layers::pooling::{Maxpool2D, Pooling};
use zkml::layers::Layer;
use zkml::number::Element;
use zkml::padding::model::Edge;
use zkml::parser::dispatch::{choose_layer, outputs_last, parse_node, parse_nodes, LayerKey, ParsedLayer};
use zkml::parser::gemm::load_gemm;
use zkml::parser::nodes::{load_conv, load_flatten, load_globalavgpool, load_maxpool, load_relu, load_reshape};
use zkml::parser::onnx::{
    check_conv2d_attributes, check_maxpool_attributes, dims_to_shape, extract_const_tensor, get_node_output_shape,
    input_shape, is_const, tdim_to_usize, Dim, Link, OnnxError, OnnxModel, OnnxNode, Op, PaddingSpec, PoolSpec,
};
use zkml::shape::Shape;
use zkml::tensor::Tensor;

fn node(name: &str, op_name: &str, op: Op<Element>, inputs: &[usize], shape: Option<Vec<usize>>) -> OnnxNode<Element> {
    OnnxNode {
        name: name.as_bytes().to_vec(),
        op_name: op_name.as_bytes().to_vec(),
        op,
        inputs: inputs.iter().map(|n| Link { node: *n, slot: 0 }).collect(),
        outputs: vec![shape.map(Shape::new)],
    }
}

fn constant(data: Vec<Element>, shape: Vec<usize>) -> OnnxNode<Element> {
    node("weights", "Const", Op::Const(Some(data)), &[], Some(shape))
}

fn source(shape: Vec<usize>) -> OnnxNode<Element> {
    node("input", "Source", Op::Other, &[], Some(shape))
}

fn model(nodes: Vec<OnnxNode<Element>>) -> OnnxModel<Element> {
    OnnxModel { nodes }
}

fn windows(stride: usize, kernel: usize, padding: PaddingSpec) -> PoolSpec {
    PoolSpec {
        strides: Some(vec![stride, stride]),
        padding,
        dilations: Some(vec![1, 1]),
        kernel_shape: vec![kernel, kernel],
    }
}

fn unpadded() -> PaddingSpec {
    PaddingSpec::Explicit(vec![0, 0], vec![0, 0])
}

/// An input of shape [1, 2, 4, 4] that is averaged over its planes.
#[test]
fn test_parser_load_globalavgpool() {
    let m = model(vec![
        source(vec![1, 2, 4, 4]),
        node(
            "pool.sum",
            "Reduce<Sum>",
            Op::Reduce { sum: true, axes: vec![2, 3] },
            &[0],
            Some(vec![1, 2, 1, 1]),
        ),
        node("pool.norm", "Mul", Op::BinOp { add: false }, &[1], Some(vec![1, 2, 1, 1])),
    ]);
    let dims = [Dim::Val(1), Dim::Val(2), Dim::Val(4), Dim::Val(4)];
    assert_eq!(input_shape(&dims).unwrap().0.as_slice(), &[2, 4, 4], "unexpected input shape");
    let layers = parse_nodes(&m, &[1, 2], 0).unwrap();
    assert_eq!(layers.len(), 1, "expected 1 layer");
    match &layers[0].layer {
        ParsedLayer::Pooling(Pooling::GlobalAvgPool2D(gap)) => {
            assert_eq!(gap.spatial_size, 16, "spatial_size should be 4*4=16");
        }
        other => panic!("expected GlobalAvgPool2D layer, got {:?}", other),
    }
    assert_eq!(layers[0].id, 2);
    assert!(layers[0].consumed);
    assert_eq!(layers[0].input, Edge { node: None, index: 0 });
}

#[test]
fn averages_that_are_not_supported() {
    let make = |op: Op<Element>, shape: Option<Vec<usize>>, next: Op<Element>| {
        let mut first = source(vec![1]);
        first.outputs = vec![shape.map(Shape::new)];
        model(vec![
            first,
            node("sum", "Reduce<Sum>", op, &[0], None),
            node("next", "Next", next, &[1], None),
        ])
    };
    let sum = |axes: Vec<usize>| Op::Reduce { sum: true, axes };
    let mul = || Op::BinOp { add: false };
    let shape = || Some(vec![1, 2, 4, 4]);
    let read = |m: &OnnxModel<Element>, next: Option<usize>| load_globalavgpool(m, 1, next).unwrap_err();
    assert_eq!(read(&make(Op::Other, shape(), mul()), Some(2)), OnnxError::Operation);
    let max = Op::Reduce { sum: false, axes: vec![2, 3] };
    assert_eq!(read(&make(max, shape(), mul()), Some(2)), OnnxError::Reducer);
    assert_eq!(read(&make(sum(vec![]), shape(), mul()), Some(2)), OnnxError::Axes);
    assert_eq!(read(&make(sum(vec![1, 2]), shape(), mul()), Some(2)), OnnxError::Axes);
    assert_eq!(read(&make(sum(vec![2, 4]), shape(), mul()), Some(2)), OnnxError::Axes);
    assert_eq!(read(&make(sum(vec![2, 3]), None, mul()), Some(2)), OnnxError::UnknownShape);
    assert_eq!(
        read(&make(sum(vec![2, 3]), Some(vec![1, 2, 4, 0]), mul()), Some(2)),
        OnnxError::EmptyPlanes
    );
    assert_eq!(read(&make(sum(vec![2, 3]), shape(), Op::Other), Some(2)), OnnxError::Normalization);
    assert_eq!(read(&make(sum(vec![2, 3]), shape(), mul()), None), OnnxError::Normalization);
}

#[test]
fn dimensions() {
    assert_eq!(tdim_to_usize(&Dim::Val(7)), Ok(7));
    assert_eq!(tdim_to_usize(&Dim::Symbolic), Err(OnnxError::SymbolicDimension));
    assert_eq!(dims_to_shape(&[Dim::Val(2), Dim::Val(3)]).unwrap(), Shape::new(vec![2, 3]));
    assert_eq!(
        dims_to_shape(&[Dim::Val(2), Dim::Symbolic]).unwrap_err(),
        OnnxError::SymbolicDimension
    );
    assert_eq!(input_shape(&[Dim::Val(3), Dim::Val(4)]).unwrap(), Shape::new(vec![3, 4]));
    assert_eq!(input_shape(&[Dim::Val(1), Dim::Val(4)]).unwrap(), Shape::new(vec![4]));
}

#[test]
fn windows_of_maximum_layers() {
    assert_eq!(check_maxpool_attributes(&windows(2, 2, unpadded())), Ok(()));
    assert_eq!(check_maxpool_attributes(&windows(2, 2, PaddingSpec::Valid)), Ok(()));
    assert_eq!(check_maxpool_attributes(&windows(1, 2, unpadded())), Err(OnnxError::Strides));
    assert_eq!(check_maxpool_attributes(&windows(2, 3, unpadded())), Err(OnnxError::Kernel));
    assert_eq!(
        check_maxpool_attributes(&windows(2, 2, PaddingSpec::Automatic)),
        Err(OnnxError::Padding)
    );
    assert_eq!(
        check_maxpool_attributes(&windows(2, 2, PaddingSpec::ExplicitOnnxPool(vec![0], vec![1]))),
        Err(OnnxError::Padding)
    );
    let mut spread = windows(2, 2, unpadded());
    spread.dilations = Some(vec![2, 2]);
    assert_eq!(check_maxpool_attributes(&spread), Err(OnnxError::Dilations));
    let bare = PoolSpec { strides: None, padding: unpadded(), dilations: None, kernel_shape: vec![2, 2] };
    assert_eq!(check_maxpool_attributes(&bare), Ok(()));

    let pool = node("pool", "MaxPool", Op::MaxPool(windows(2, 2, unpadded())), &[3], None);
    let (link, layer) = load_maxpool(&pool).unwrap();
    assert_eq!(link.node, 3);
    match layer {
        Pooling::Maxpool2D(p) => assert_eq!((p.kernel_size, p.stride), (2, 2)),
        Pooling::GlobalAvgPool2D(_) => panic!("an average"),
    }
    let other = node("pool", "MaxPool", Op::Other, &[3], None);
    assert_eq!(load_maxpool(&other).unwrap_err(), OnnxError::Operation);
    let none = node("pool", "MaxPool", Op::MaxPool(windows(2, 2, unpadded())), &[], None);
    assert_eq!(load_maxpool(&none).unwrap_err(), OnnxError::Inputs);
}

#[test]
fn windows_of_convolutions() {
    assert_eq!(check_conv2d_attributes(&windows(1, 3, unpadded())), Ok(()));
    assert_eq!(check_conv2d_attributes(&windows(2, 3, unpadded())), Err(OnnxError::Strides));
    assert_eq!(check_conv2d_attributes(&windows(1, 1, unpadded())), Err(OnnxError::Kernel));
    assert_eq!(check_conv2d_attributes(&windows(1, 3, PaddingSpec::Valid)), Err(OnnxError::Padding));
    let mut flat = windows(1, 3, unpadded());
    flat.kernel_shape = vec![3, 2];
    assert_eq!(check_conv2d_attributes(&flat), Err(OnnxError::Kernel));
    flat.dilations = None;
    assert_eq!(check_conv2d_attributes(&flat), Err(OnnxError::Dilations));
    flat.strides = None;
    assert_eq!(check_conv2d_attributes(&flat), Err(OnnxError::Strides));
}

#[test]
fn constants_of_a_model() {
    let c = constant(vec![1, 2, 3, 4], vec![2, 2]);
    assert!(is_const(&c));
    let t = extract_const_tensor(&c).unwrap();
    assert_eq!(t.get_shape(), Shape::new(vec![2, 2]));
    assert_eq!(t.get_data(), &[1, 2, 3, 4]);
    assert_eq!(get_node_output_shape(&c, 0).unwrap(), Shape::new(vec![2, 2]));
    assert_eq!(get_node_output_shape(&c, 1).unwrap_err(), OnnxError::NoOutput);
    let other = node("c", "Const", Op::Const(None), &[], Some(vec![1]));
    assert_eq!(extract_const_tensor(&other).unwrap_err(), OnnxError::Constant);
    let unknown = node("c", "Const", Op::Const(Some(vec![1])), &[], None);
    assert_eq!(extract_const_tensor(&unknown).unwrap_err(), OnnxError::UnknownShape);
    assert_eq!(get_node_output_shape(&unknown, 0).unwrap_err(), OnnxError::UnknownShape);
    assert_eq!(extract_const_tensor(&source(vec![1])).unwrap_err(), OnnxError::Operation);
}

#[test]
fn convolutions() {
    let filter: Vec<Element> = (0..18).collect();
    let make = |bias: OnnxNode<Element>| {
        model(vec![
            source(vec![1, 1, 5, 5]),
            constant(filter.clone(), vec![2, 1, 3, 3]),
            bias,
            node("conv1", "Conv", Op::Conv(windows(1, 3, unpadded())), &[0, 1, 2], None),
        ])
    };
    let m = make(constant(vec![5, 6], vec![2]));
    let c = load_conv(&m, 3).unwrap();
    assert_eq!(c.input.node, 0);
    assert_eq!(c.filter.get_data(), filter.as_slice());
    assert_eq!(c.filter.get_shape(), Shape::new(vec![2, 1, 3, 3]));
    assert_eq!(c.bias.unwrap().get_data(), &[5, 6]);
    assert!(load_conv(&make(constant(vec![0], vec![])), 3).unwrap().bias.is_none());
    assert_eq!(load_conv(&make(source(vec![2])), 3).unwrap_err(), OnnxError::Operation);
    let mut short = make(constant(vec![5, 6], vec![2]));
    short.nodes[3].inputs.pop();
    assert_eq!(load_conv(&short, 3).unwrap_err(), OnnxError::Inputs);
}

#[test]
fn products_with_weights() {
    let make = |weights: OnnxNode<Element>, bias: OnnxNode<Element>, add: bool| {
        model(vec![
            source(vec![1, 3]),
            weights,
            node("fc.ab", "EinSum", Op::EinSum, &[0, 1], Some(vec![1, 2])),
            bias,
            node("fc.add", "Add", Op::BinOp { add }, &[2, 3], Some(vec![1, 2])),
        ])
    };
    let (wide, tall) = (vec![1, 2, 3, 4, 5, 6], vec![1, 4, 2, 5, 3, 6]);
    // the columns of the weights meet the input
    let m = make(constant(wide.clone(), vec![2, 3]), constant(vec![7, 8], vec![2]), true);
    let g = load_gemm(&m, 2, Some(4), 0).unwrap();
    assert_eq!(g.id, 4);
    assert!(g.consumed);
    assert_eq!(g.input.node, 0);
    assert_eq!(g.weight.get_shape(), Shape::new(vec![2, 3]));
    assert_eq!(g.weight.get_data(), wide.as_slice());
    assert_eq!(g.bias.get_data(), &[7, 8]);
    // the rows meet the input: the weights are transposed
    let m = make(constant(tall, vec![3, 2]), constant(vec![7, 8], vec![1, 2]), true);
    let g = load_gemm(&m, 2, Some(4), 0).unwrap();
    assert_eq!(g.weight.get_shape(), Shape::new(vec![2, 3]));
    assert_eq!(g.weight.get_data(), wide.as_slice());
    assert_eq!(g.bias.get_shape(), Shape::new(vec![2]));
    // no bias
    let g = load_gemm(&m, 2, None, 0).unwrap();
    assert_eq!((g.id, g.consumed), (2, false));
    assert_eq!(g.bias.get_data(), &[0, 0]);
    let m = make(constant(wide.clone(), vec![2, 3]), constant(vec![7, 8], vec![2]), false);
    assert!(!load_gemm(&m, 2, Some(4), 0).unwrap().consumed);

    let bias = || constant(vec![7, 8], vec![2]);
    let error = |m: &OnnxModel<Element>| load_gemm(m, 2, Some(4), 0).unwrap_err();
    assert_eq!(error(&make(source(vec![2, 3]), bias(), true)), OnnxError::NoConstant);
    assert_eq!(error(&make(constant(vec![1], vec![]), bias(), true)), OnnxError::NotMatrix);
    assert_eq!(error(&make(constant(vec![1, 2, 3, 4], vec![2, 2]), bias(), true)), OnnxError::Shapes);
    let weights = || constant(vec![1, 2, 3, 4, 5, 6], vec![2, 3]);
    assert_eq!(error(&make(weights(), constant(vec![7], vec![1]), true)), OnnxError::Bias);
    assert_eq!(error(&make(weights(), constant(vec![7, 8], vec![2, 1]), true)), OnnxError::Bias);
    let mut m = make(weights(), bias(), true);
    m.nodes[2].inputs[0] = Link { node: 1, slot: 0 };
    assert_eq!(error(&m), OnnxError::NoInput);
    m.nodes[2].inputs.pop();
    assert_eq!(error(&m), OnnxError::Inputs);
    m.nodes[2].op = Op::Other;
    assert_eq!(error(&m), OnnxError::Operation);
}

#[test]
fn layers_without_parameters() {
    let flat = node("flatten", "Flatten", Op::Other, &[4], None);
    assert_eq!(load_flatten(&flat).unwrap().node, 4);
    assert_eq!(
        load_flatten(&node("flatten", "Flatten", Op::Other, &[], None)).unwrap_err(),
        OnnxError::Inputs
    );
    let to = |from: Vec<Dim>, to: Vec<Dim>| node("r", "Reshape", Op::Reshape { from, to }, &[1], None);
    let read = |n: OnnxNode<Element>| load_reshape(&n);
    assert_eq!(read(to(vec![Dim::Val(2), Dim::Val(3)], vec![Dim::Val(6)])).unwrap().node, 1);
    assert_eq!(
        read(to(vec![Dim::Val(2), Dim::Val(3)], vec![Dim::Val(5)])).unwrap_err(),
        OnnxError::ReshapeSizes
    );
    assert_eq!(
        read(to(vec![Dim::Val(6)], vec![Dim::Val(2), Dim::Val(3)])).unwrap_err(),
        OnnxError::NotFlat
    );
    assert_eq!(
        read(to(vec![Dim::Symbolic], vec![Dim::Val(3)])).unwrap_err(),
        OnnxError::SymbolicDimension
    );
    assert_eq!(
        read(node("r", "Reshape", Op::Other, &[1], None)).unwrap_err(),
        OnnxError::Operation
    );

    let relu = |first: OnnxNode<Element>, second: OnnxNode<Element>| {
        model(vec![first, second, node("relu", "Max", Op::Other, &[0, 1], None)])
    };
    let zero = || constant(vec![0], vec![1]);
    assert_eq!(load_relu(&relu(source(vec![3]), zero()), 2).unwrap().node, 0);
    assert_eq!(load_relu(&relu(zero(), source(vec![3])), 2).unwrap().node, 1);
    assert_eq!(
        load_relu(&relu(source(vec![3]), source(vec![3])), 2).unwrap_err(),
        OnnxError::NoConstant
    );
}

/// The longest name that a node holds decides.
#[test]
fn layers_by_name() {
    let key = |name: &str, op: &str| choose_layer(&node(name, op, Op::Other, &[], None));
    assert_eq!(key("Conv_0", "x"), Some(LayerKey::Conv));
    assert_eq!(key("x", "MaxPool"), Some(LayerKey::Pool));
    assert_eq!(key("Conv_0", "Flatten"), Some(LayerKey::Flatten));
    assert_eq!(key("layer.Gemm.ab", "EinSum"), Some(LayerKey::GemmAb));
    assert_eq!(key("MatMul", "Relu"), Some(LayerKey::MatMul));
    assert_eq!(key("Reshape", "Reduce<Sum>"), Some(LayerKey::ReduceSum));
    assert_eq!(key("con", "v"), None);
}

/// A model of a product, a bias that belongs to it, a rectifier and a layer that is not known.
#[test]
fn nodes_of_a_model() {
    let m = model(vec![
        source(vec![3]),
        constant(vec![1, 2, 3, 4, 5, 6], vec![2, 3]),
        node("Gemm.ab", "EinSum", Op::EinSum, &[0, 1], Some(vec![2])),
        constant(vec![7, 8], vec![2]),
        node("Gemm", "Add", Op::BinOp { add: true }, &[2, 3], Some(vec![2])),
        constant(vec![0], vec![1]),
        node("Relu", "Max", Op::Other, &[4, 5], Some(vec![2])),
        node("Erf", "Erf", Op::Other, &[6], Some(vec![2])),
    ]);
    let nodes = parse_nodes(&m, &[2, 4, 6], 0).unwrap();
    assert_eq!(nodes.len(), 2);
    assert_eq!(nodes[0].id, 4);
    assert_eq!(nodes[0].input, Edge { node: None, index: 0 });
    assert!(matches!(nodes[0].layer, ParsedLayer::Dense { .. }));
    assert_eq!(nodes[1].id, 6);
    assert_eq!(nodes[1].input, Edge { node: Some(4), index: 0 });
    assert!(matches!(nodes[1].layer, ParsedLayer::Relu));
    assert_eq!(parse_nodes(&m, &[2, 4, 6, 7], 0).unwrap_err(), OnnxError::UnknownNode);
    assert_eq!(parse_node(&m, &[2, 4, 6], 2, false, 0).unwrap().id, 6);
    assert!(outputs_last(&[Link { node: 6, slot: 0 }], 6));
    assert!(!outputs_last(&[Link { node: 4, slot: 0 }], 6));
}

#[test]
fn models_that_cannot_be_read() {
    let sum = |axes: Vec<usize>| Op::Reduce { sum: true, axes };
    let make = |shape: Vec<usize>, axes: Vec<usize>| {
        model(vec![source(shape), node("sum", "Reduce<Sum>", sum(axes), &[0], None)])
    };
    assert!(make(vec![1, 2, 4, 4], vec![2, 3]).can_be_read(&[1]));
    // a node that is not there
    assert!(!make(vec![1, 2, 4, 4], vec![2, 3]).can_be_read(&[1, 2]));
    // planes that are too large
    let huge = usize::MAX / 2;
    assert!(!make(vec![1, 2, huge, 4], vec![2, 3]).can_be_read(&[1]));
    assert!(make(vec![1, 2, huge, 4], vec![2, 3]).can_be_read(&[]));
    assert!(make(vec![1, 2, huge, 4], vec![2, 9, 3]).can_be_read(&[1]));
    assert!(make(vec![1, 2, huge, 0], vec![3, 2]).can_be_read(&[1]));
    // an output that is not there
    let mut m = make(vec![1, 2, 4, 4], vec![2, 3]);
    m.nodes[1].inputs[0].slot = 1;
    assert!(!m.can_be_read(&[1]));
    m.nodes[1].inputs[0].node = 7;
    assert!(!m.can_be_read(&[]));

    // constants fill their shapes
    assert!(model(vec![constant(vec![1, 2], vec![1, 2])]).can_be_read(&[0]));
    assert!(!model(vec![constant(vec![1, 2, 3], vec![1, 2])]).can_be_read(&[]));
    assert!(!model(vec![constant(vec![1], vec![huge, huge])]).can_be_read(&[]));

    // a reshape
    let reshape = |from: Vec<Dim>, to: Vec<Dim>| {
        model(vec![source(vec![4]), node("r", "Reshape", Op::Reshape { from, to }, &[0], None)])
    };
    let big = Dim::Val(1 << 62);
    assert!(reshape(vec![Dim::Val(2), Dim::Val(2)], vec![Dim::Val(4)]).can_be_read(&[1]));
    assert!(!reshape(vec![big, Dim::Val(8)], vec![Dim::Val(4)]).can_be_read(&[1]));
    assert!(reshape(vec![big, Dim::Val(8)], vec![Dim::Symbolic]).can_be_read(&[1]));

    // a product
    let gemm = |shape: Vec<usize>| {
        model(vec![
            source(shape),
            constant(vec![1, 2, 3, 4], vec![2, 2]),
            node("g", "EinSum", Op::EinSum, &[0, 1], None),
        ])
    };
    assert!(gemm(vec![1, 2]).can_be_read(&[2]));
    assert!(!gemm(vec![huge, 3]).can_be_read(&[2]));
    assert_eq!(Shape::new(vec![huge, 3]).checked_product(), None);
    assert_eq!(Shape::new(vec![huge, 3, 0]).checked_product(), Some(0));
    assert_eq!(Shape::new(vec![5, 3, 2]).checked_product(), Some(30));
}

/// The layers of a model hold the weights that were read.
#[test]
fn layers_from_what_was_read() {
    let filter = || Tensor::new(vec![2, 1, 1, 1].into(), vec![3, 4]);
    let bias = Tensor::new(vec![2].into(), vec![5, 6]);
    let conv = |filter_bias: Option<Tensor<Element>>| {
        match (ParsedLayer::Conv { filter: filter(), filter_bias }).into_layer(0) {
            Layer::Convolution(c) => c,
            other => panic!("expected a convolution, got {other:?}"),
        }
    };
    let c = conv(Some(bias.clone()));
    assert_eq!(c.filter.get_data(), &[3, 4]);
    assert_eq!(c.bias.get_data(), &[5, 6]);
    assert_eq!(c.unpadded_shape, Shape::new(vec![2, 1, 1, 1]));
    assert_eq!((c.input_padding, c.stride), ([0, 0], [1, 1]));
    let c = conv(None);
    assert_eq!(c.bias.get_shape(), Shape::new(vec![2]));
    assert_eq!(c.bias.get_data(), &[0, 0]);
    let weight = Tensor::new(vec![2, 1].into(), vec![7, 8]);
    match (ParsedLayer::Dense { weight, bias }).into_layer(0) {
        Layer::Dense(d) => {
            assert_eq!(d.matrix.get_data(), &[7, 8]);
            assert_eq!(d.bias.get_data(), &[5, 6]);
        }
        other => panic!("expected a dense layer, got {other:?}"),
    }
    assert!(matches!(ParsedLayer::Relu.into_layer(0), Layer::<Element>::Activation));
    assert!(matches!(ParsedLayer::Flatten.into_layer(0), Layer::<Element>::Flatten));
    let pool = ParsedLayer::Pooling(Pooling::Maxpool2D(Maxpool2D::default()));
    assert!(matches!(pool.into_layer(0), Layer::<Element>::Pooling(Pooling::Maxpool2D(_))));
}
