//! Padding of layers: shapes, weights, and what keeps a layer from being padded.
use std::collections::HashMap;
use zkml::layers::convolution::Convolution;
use zkml::layers::convolution::shapes::conv2d_shape;
use zkml::layers::pooling::{maxpool2d_shape, GlobalAvgPool2D, Maxpool2D, Pooling};
use zkml::layers::transformer::mha::garbage::GarbageError;
use zkml::layers::transformer::mha::Mha;
use zkml::layers::Layer;
use zkml::number::Element;
use zkml::padding::attention::{pad_mha, MhaShapes, ReshapedShapes};
use zkml::padding::conv::pad_conv;
use zkml::padding::layer::LayerShapes;
use zkml::padding::model::{model_input_shapes, node_input_shapes, pad_model, Edge, Model, Node};
use zkml::padding::qkv::{pad_qkv, qkv_shapes, QKV};
use zkml::padding::shapes::{
    pad_average, pad_concat_mat_mul, pad_reshape_layer, pooling, reshape, ConcatMatMulShapes, PooledShapes,
};
use zkml::padding::weights::{pad_dense, pad_matmul, Dense, MatMul, OperandMatrix};
use zkml::padding::{pad_minimum, GarbagePad, PadError, PaddingMode, ShapeData, ShapeInfo};
use zkml::shape::Shape;
use zkml::tensor::Tensor;

fn random(shape: Vec<usize>) -> Tensor<Element> {
    let shape: Shape = shape.into();
    let seed = shape.0.iter().fold(11u64, |s, d| s.wrapping_mul(31).wrapping_add(*d as u64));
    Tensor::random(&shape, seed, -127, 127)
}

fn info(shapes: Vec<Vec<usize>>) -> ShapeInfo {
    ShapeInfo { shapes: shapes.into_iter().map(|s| ShapeData::new(s.into())).collect() }
}

fn padded_vector(data: &[Element], len: usize, fill: Element) -> Tensor<Element> {
    let mut v = data.to_vec();
    v.resize(len, fill);
    Tensor::new(vec![len].into(), v)
}

#[test]
fn sizes_of_weights() {
    assert_eq!(pad_minimum(1), 4);
    assert_eq!(pad_minimum(4), 4);
    assert_eq!(pad_minimum(5), 8);
}

#[test]
fn shapes_of_inputs() {
    let si = info(vec![vec![3, 5], vec![6]]);
    assert!(si.is_clean());
    assert_eq!(si.unpadded_input_shapes(), vec![Shape::new(vec![3, 5]), Shape::new(vec![6])]);
    assert_eq!(si.padded_input_shapes(), vec![Shape::new(vec![4, 8]), Shape::new(vec![8])]);
    let garbage = GarbagePad::Convolution(vec![1].into(), vec![2].into());
    let data = ShapeData::new_with_garbage_pad(vec![3].into(), garbage);
    assert_eq!(data.input_shape_padded, Shape::new(vec![4]));
    assert!(!ShapeInfo::from_shapes(&[data]).is_clean());
}

/// The padded layer maps a padded vector to the padded result.
#[test]
fn dense_layer() {
    let matrix = random(vec![5, 6]);
    let bias = random(vec![5]);
    let mut si = info(vec![vec![6]]);
    let x = random(vec![6]);
    let y = matrix.matvec(&x).add(&bias);
    let d = pad_dense(Dense { matrix, bias }, &mut si).unwrap();
    assert_eq!(d.matrix.get_shape(), Shape::new(vec![8, 8]));
    let yp = d.matrix.matvec(&padded_vector(x.get_data(), 8, 55)).add(&d.bias);
    assert_eq!(yp.get_data(), padded_vector(y.get_data(), 8, 0).get_data());
    assert_eq!(si.shapes[0].input_shape_padded, Shape::new(vec![8]));
    assert_eq!(si.shapes[0].input_shape_og, Shape::new(vec![5]));
    assert!(si.is_clean());
}

/// A dense layer ignores what lies between the entries of a flattened output.
#[test]
fn dense_layer_ignores_garbage() {
    let matrix = random(vec![4, 18]);
    let bias = Tensor::zeros(vec![4].into());
    let mut si = info(vec![vec![2, 3, 3]]);
    reshape(&mut si);
    let x = random(vec![2, 3, 3]);
    let y = matrix.matvec(&x.flatten());
    let d = pad_dense(Dense { matrix, bias }, &mut si).unwrap();
    assert_eq!(d.matrix.get_shape(), Shape::new(vec![4, 32]));
    let mut xp = vec![99; 32];
    for c in 0..2 {
        for h in 0..3 {
            for w in 0..3 {
                xp[c * 16 + h * 4 + w] = x.get_data()[c * 9 + h * 3 + w];
            }
        }
    }
    let yp = d.matrix.matvec(&Tensor::new(vec![32].into(), xp));
    assert_eq!(yp.get_data(), y.get_data());
}

#[test]
fn dense_layer_errors() {
    let dense = |rows: usize, cols: usize, bias: usize| Dense {
        matrix: random(vec![rows, cols]),
        bias: random(vec![bias]),
    };
    assert_eq!(pad_dense(dense(4, 4, 4), &mut info(vec![])).unwrap_err(), PadError::InputCount);
    assert_eq!(pad_dense(dense(4, 4, 3), &mut info(vec![vec![4]])).unwrap_err(), PadError::Bias);
    assert_eq!(pad_dense(dense(4, 9, 4), &mut info(vec![vec![8]])).unwrap_err(), PadError::TooManyColumns);
    let mut si = info(vec![vec![3]]);
    si.shapes[0].input_shape_padded = vec![3].into();
    assert_eq!(pad_dense(dense(4, 3, 4), &mut si).unwrap_err(), PadError::NotPadded);
    let mut si = info(vec![vec![6]]);
    si.shapes[0].ignore_garbage_pad = Some(GarbagePad::MHA(vec![2, 3].into(), vec![1, 2, 4].into()));
    assert_eq!(
        pad_dense(dense(4, 6, 4), &mut si).unwrap_err(),
        PadError::Unremovable(GarbageError::Ranks)
    );
}

/// The product of the padded factors holds the product of the factors.
#[test]
fn product_of_matrices() {
    let w = random(vec![5, 3]);
    let bias = random(vec![3]);
    let x = random(vec![6, 5]);
    let y = x.matmul(&w);
    let mut si = info(vec![vec![6, 5]]);
    let m = MatMul {
        left_matrix: OperandMatrix::Input,
        right_matrix: OperandMatrix::Weight(w),
        bias: Some(bias.clone()),
        right_transposed: false,
    };
    let p = pad_matmul(m, &mut si, vec![vec![6, 3].into()]).unwrap();
    let wp = match &p.right_matrix {
        OperandMatrix::Weight(w) => w,
        OperandMatrix::Input => panic!("the weights are gone"),
    };
    assert_eq!(wp.get_shape(), Shape::new(vec![8, 4]));
    assert_eq!(&p.bias.as_ref().unwrap().get_data()[..3], bias.get_data());
    assert_eq!(p.bias.as_ref().unwrap().get_data()[3], 0);
    let yp = x.pad_next_power_of_two().matmul(wp);
    for i in 0..6 {
        for j in 0..3 {
            assert_eq!(yp.get(vec![i, j]), y.get(vec![i, j]));
        }
    }
    assert_eq!(si.shapes[0].input_shape_padded, Shape::new(vec![8, 4]));
    assert_eq!(si.shapes[0].input_shape_og, Shape::new(vec![6, 3]));
}

#[test]
fn product_of_matrices_errors() {
    let inputs = |right_transposed: bool| MatMul {
        left_matrix: OperandMatrix::Input,
        right_matrix: OperandMatrix::Input,
        bias: None,
        right_transposed,
    };
    let out = || vec![Shape::new(vec![4, 4])];
    assert_eq!(inputs(false).num_inputs(), 2);
    assert_eq!(
        pad_matmul(inputs(false), &mut info(vec![vec![4, 4]]), out()).unwrap_err(),
        PadError::InputCount
    );
    assert_eq!(
        pad_matmul(inputs(false), &mut info(vec![vec![4, 4], vec![4]]), out()).unwrap_err(),
        PadError::InputRank
    );
    assert_eq!(
        pad_matmul(inputs(false), &mut info(vec![vec![4, 4], vec![4, 4]]), vec![]).unwrap_err(),
        PadError::OutputCount
    );
    assert_eq!(
        pad_matmul(inputs(false), &mut info(vec![vec![4, 8], vec![4, 8]]), out()).unwrap_err(),
        PadError::Factors
    );
    let mut si = info(vec![vec![4, 8], vec![4, 8]]);
    assert!(pad_matmul(inputs(true), &mut si, out()).is_ok());
    assert_eq!(si.shapes.len(), 1);
    assert_eq!(si.shapes[0].input_shape_padded, Shape::new(vec![4, 4]));
    let mut si = info(vec![vec![4, 4], vec![4, 4]]);
    si.shapes[1].ignore_garbage_pad = Some(GarbagePad::Convolution(vec![4].into(), vec![4].into()));
    assert_eq!(pad_matmul(inputs(false), &mut si, out()).unwrap_err(), PadError::Garbage);
}

fn projections(rows: usize, heads: usize, dim: usize) -> QKV<Element> {
    QKV {
        q: random(vec![rows, heads * dim]),
        k: random(vec![rows, heads * dim]),
        v: random(vec![rows, heads * dim]),
        q_bias: random(vec![heads * dim]),
        k_bias: random(vec![heads * dim]),
        v_bias: random(vec![heads * dim]),
        num_heads: heads,
        head_dim: dim,
    }
}

/// The padded projection holds the heads of the projection, each at its padded place.
#[test]
fn projections_of_attention() {
    let qkv = projections(5, 3, 6);
    let (q, bias) = (qkv.q.clone(), qkv.q_bias.clone());
    let x = random(vec![1, 5]);
    let y = x.matmul(&q);
    let mut si = info(vec![vec![7, 5]]);
    let p = pad_qkv(qkv, &si, 3, 3).unwrap();
    assert_eq!(p.q.get_shape(), Shape::new(vec![8, 32]));
    assert_eq!(p.q_bias.get_shape(), Shape::new(vec![32]));
    let xp = Tensor::new(vec![1, 8].into(), [x.get_data(), &[1, 2, 3]].concat());
    let yp = xp.matmul(&p.q);
    for h in 0..4 {
        for d in 0..8 {
            let (expected, expected_bias) = if h < 3 && d < 6 {
                (y.get_data()[h * 6 + d], bias.get_data()[h * 6 + d])
            } else {
                (0, 0)
            };
            assert_eq!(yp.get_data()[h * 8 + d], expected);
            assert_eq!(p.q_bias.get_data()[h * 8 + d], expected_bias);
        }
    }
    let shapes = |d: Vec<usize>| vec![Shape::new(d.clone()), Shape::new(d.clone()), Shape::new(d)];
    qkv_shapes(&mut si, shapes(vec![7, 3, 6]), shapes(vec![8, 4, 8])).unwrap();
    assert_eq!(si.shapes.len(), 3);
    assert_eq!(si.shapes[2].input_shape_padded, Shape::new(vec![8, 4, 8]));
}

#[test]
fn projections_of_attention_errors() {
    let p = || projections(5, 2, 4);
    assert_eq!(pad_qkv(p(), &info(vec![]), 3, 3).unwrap_err(), PadError::InputCount);
    assert_eq!(pad_qkv(p(), &info(vec![vec![5]]), 3, 3).unwrap_err(), PadError::InputRank);
    assert_eq!(pad_qkv(p(), &info(vec![vec![2, 5]]), 1, 3).unwrap_err(), PadError::OutputCount);
    assert_eq!(pad_qkv(p(), &info(vec![vec![2, 4]]), 3, 3).unwrap_err(), PadError::TooManyRows);
    let mut si = info(vec![vec![2, 5]]);
    si.shapes[0].input_shape_padded = vec![2, 5].into();
    assert_eq!(pad_qkv(p(), &si, 3, 3).unwrap_err(), PadError::NotPadded);
    assert_eq!(qkv_shapes(&mut si, vec![], vec![vec![1].into()]).unwrap_err(), PadError::OutputCount);
    si.shapes[0].ignore_garbage_pad = Some(GarbagePad::Convolution(vec![4].into(), vec![4].into()));
    assert_eq!(qkv_shapes(&mut si, vec![], vec![]).unwrap_err(), PadError::Garbage);
}

#[test]
fn convolution_layer() {
    let conv = || Convolution::new(random(vec![3, 2, 3, 3]), random(vec![3]));
    let og: Shape = vec![3, 4, 4].into();
    let padded: Shape = vec![4, 4, 4].into();
    let mut si = info(vec![vec![2, 6, 6]]);
    let effective = conv().effective_shapes(&si, true).unwrap();
    assert_eq!(effective.og, Shape::new(vec![2, 6, 6]));
    assert_eq!(effective.padded, Shape::new(vec![2, 8, 8]));
    assert_eq!(effective.weight, Shape::new(vec![4, 2, 4, 4]));
    let c = pad_conv(conv(), &mut si, true, Some(og.clone()), Some(padded.clone())).unwrap();
    assert_eq!(c.bias.get_shape(), Shape::new(vec![4]));
    // the filter matches the padded input
    assert_eq!(c.filter.get_shape(), Shape::new(vec![4, 2, 8, 8]));
    assert_eq!(c.filter.og_shape, Shape::new(vec![4, 2, 4, 4]));
    let input = random(vec![2, 6, 6]);
    let (y, _) = c.op(&input.pad_next_power_of_two(), &vec![2, 6, 6].into());
    let direct = input.conv2d(&conv().filter, &conv().bias, 1);
    assert_eq!(y.get_shape(), Shape::new(vec![4, 8, 8]));
    for (i, x) in direct.get_data().iter().enumerate() {
        assert_eq!(y.get_data()[i / 16 * 64 + i / 4 % 4 * 8 + i % 4], *x);
    }
    assert_eq!(si.shapes[0].input_shape_og, og);
    assert_eq!(si.shapes[0].input_shape_padded, padded);

    let framed = Convolution::new_with_padding(random(vec![3, 2, 3, 3]), random(vec![3]), [1, 1]);
    let effective = framed.effective_shapes(&info(vec![vec![2, 7, 7]]), true).unwrap();
    assert_eq!(effective.og, Shape::new(vec![2, 9, 9]));
    assert_eq!(effective.padded, Shape::new(vec![2, 16, 16]));
    let mut si = info(vec![vec![2, 7, 7]]);
    let c = pad_conv(framed, &mut si, true, Some(vec![3, 7, 7].into()), Some(vec![4, 13, 13].into())).unwrap();
    assert_eq!(c.filter.get_shape(), Shape::new(vec![4, 2, 16, 16]));
    assert_eq!(si.padded_input_shapes(), vec![Shape::new(vec![4, 16, 16])]);

    let pad = |si: &mut ShapeInfo, ok: bool, o: Option<Shape>, p: Option<Shape>| {
        pad_conv(conv(), si, ok, o, p).unwrap_err()
    };
    let some = || (Some(og.clone()), Some(padded.clone()));
    let (o, p) = some();
    assert_eq!(pad(&mut info(vec![]), true, o, p), PadError::InputCount);
    let (o, p) = some();
    assert_eq!(pad(&mut info(vec![vec![2, 6, 6]]), false, o, p), PadError::Filter);
    let (o, p) = some();
    assert_eq!(pad(&mut info(vec![vec![6, 6]]), true, o, p), PadError::InputRank);
    let (o, p) = some();
    assert_eq!(pad(&mut info(vec![vec![2, 2, 2]]), true, o, p), PadError::FilterSize);
    assert_eq!(pad(&mut info(vec![vec![2, 6, 6]]), true, None, None), PadError::OutputShape);
    let mut si = info(vec![vec![2, 6, 6]]);
    assert_eq!(pad(&mut si, true, Some(og.clone()), None), PadError::OutputShape);
    let mut si = info(vec![vec![2, 6, 6]]);
    si.shapes[0].input_shape_padded = vec![2, 6, 6].into();
    let (o, p) = some();
    assert_eq!(pad(&mut si, true, o, p), PadError::NotPadded);
    let unbiased = Convolution::new(random(vec![3, 2, 3, 3]), random(vec![2]));
    let (o, p) = some();
    assert_eq!(
        pad_conv(unbiased, &mut info(vec![vec![2, 6, 6]]), true, o, p).unwrap_err(),
        PadError::Bias
    );
}

#[test]
fn pooling_layers() {
    let max = Pooling::Maxpool2D(Maxpool2D::default());
    let shapes = |og: Option<Vec<usize>>, padded: Option<Vec<usize>>| PooledShapes {
        og: og.map(Shape::new),
        padded: padded.map(Shape::new),
    };
    let mut si = info(vec![vec![3, 6, 6]]);
    let p = pooling(max, &mut si, vec![shapes(Some(vec![3, 3, 3]), Some(vec![4, 4, 4]))]).unwrap();
    assert!(matches!(p, Pooling::Maxpool2D(_)));
    assert_eq!(si.shapes[0].input_shape_og, Shape::new(vec![3, 3, 3]));
    assert_eq!(si.shapes[0].input_shape_padded, Shape::new(vec![4, 4, 4]));
    let max = Pooling::Maxpool2D(Maxpool2D::default());
    assert_eq!(
        pooling(max, &mut si, vec![shapes(None, None)]).unwrap_err(),
        PadError::OutputShape
    );

    let avg = Pooling::GlobalAvgPool2D(GlobalAvgPool2D::new(36));
    let mut si = info(vec![vec![3, 6, 6]]);
    assert!(pad_average(avg, &mut si).is_ok());
    assert_eq!(si.shapes[0].input_shape_og, Shape::new(vec![3, 1, 1]));
    assert_eq!(si.shapes[0].input_shape_padded, Shape::new(vec![4, 1, 1]));
}

#[test]
fn layers_without_weights() {
    let shapes = |unpadded: bool, padded: bool, outputs: usize| ConcatMatMulShapes {
        unpadded_consistent: unpadded,
        padded_consistent: padded,
        unpadded_output_shapes: vec![vec![3, 3].into()],
        padded_output_shapes: vec![vec![4, 4].into()],
        expected_num_outputs: outputs,
    };
    let two = || info(vec![vec![3, 3], vec![3, 3]]);
    let mut si = two();
    pad_concat_mat_mul(shapes(true, true, 1), &mut si).unwrap();
    assert_eq!(si.shapes.len(), 1);
    assert_eq!(si.shapes[0].input_shape_padded, Shape::new(vec![4, 4]));
    assert_eq!(pad_concat_mat_mul(shapes(true, true, 1), &mut si).unwrap_err(), PadError::InputCount);
    assert_eq!(pad_concat_mat_mul(shapes(false, true, 1), &mut two()).unwrap_err(), PadError::Inconsistent);
    assert_eq!(pad_concat_mat_mul(shapes(true, false, 1), &mut two()).unwrap_err(), PadError::Inconsistent);
    assert_eq!(pad_concat_mat_mul(shapes(true, true, 2), &mut two()).unwrap_err(), PadError::OutputCount);
    let mut si = two();
    reshape(&mut si);
    assert_eq!(pad_concat_mat_mul(shapes(true, true, 1), &mut si).unwrap_err(), PadError::Garbage);

    let mut si = info(vec![vec![6]]);
    pad_reshape_layer(vec![vec![2, 3].into()], vec![vec![2, 4].into()], &mut si).unwrap();
    assert_eq!(si.shapes[0].input_shape_og, Shape::new(vec![2, 3]));
    assert_eq!(si.shapes[0].input_shape_padded, Shape::new(vec![2, 4]));
}

#[test]
fn shapes_along_edges() {
    let inputs = model_input_shapes(
        &vec![vec![3].into(), vec![5].into()],
        &vec![vec![4].into(), vec![8].into()],
    );
    assert_eq!(inputs.shapes.len(), 2);
    let mut infos = HashMap::new();
    infos.insert(7, info(vec![vec![9]]));
    let si = node_input_shapes(&vec![edge(Some(7), 0), edge(None, 1)], &infos, &inputs).unwrap();
    assert_eq!(si.unpadded_input_shapes(), vec![Shape::new(vec![9]), Shape::new(vec![5])]);
    assert_eq!(si.padded_input_shapes(), vec![Shape::new(vec![16]), Shape::new(vec![8])]);
    assert_eq!(
        node_input_shapes(&vec![edge(Some(6), 0)], &infos, &inputs).unwrap_err(),
        PadError::UnknownNode
    );
    assert_eq!(
        node_input_shapes(&vec![edge(Some(7), 1)], &infos, &inputs).unwrap_err(),
        PadError::UnknownOutput
    );
}

/// What a layer is told of its shapes in these tests.
fn told(layer: &Layer<Element>, si: &ShapeInfo) -> LayerShapes {
    match layer {
        Layer::Convolution(c) => {
            let e = c.effective_shapes(si, true).unwrap();
            LayerShapes::Convolution {
                filter_ok: true,
                og: Some(conv2d_shape(&e.og, &c.filter.get_shape())),
                padded: Some(conv2d_shape(&e.padded, &e.weight)),
            }
        }
        Layer::Pooling(Pooling::Maxpool2D(_)) => LayerShapes::Maximum(
            si.shapes
                .iter()
                .map(|s| PooledShapes {
                    og: Some(maxpool2d_shape(&s.input_shape_og)),
                    padded: Some(maxpool2d_shape(&s.input_shape_padded)),
                })
                .collect(),
        ),
        Layer::Requant => LayerShapes::HandedOn(Ok(ShapeInfo::from_shapes(&si.shapes))),
        Layer::Softmax => LayerShapes::HandedOn(Err(PadError::OutputShape)),
        _ => LayerShapes::Known,
    }
}

fn edge(node: Option<usize>, index: usize) -> Edge {
    Edge { node, index }
}

fn node(operation: Layer<Element>, input: Edge, output: Edge) -> Node<Element> {
    Node { inputs: vec![input], outputs: vec![vec![output]], operation }
}

fn model(input: Vec<usize>, nodes: Vec<(usize, Node<Element>)>) -> Model<Element> {
    Model { unpadded_input_shapes: vec![input.into()], padding_mode: PaddingMode::NoPadding, nodes }
}

/// A padded model has the nodes of the model, and its layers are padded for the shapes that they receive.
#[test]
fn padding_keeps_the_nodes_of_a_model() {
    let (filter, bias) = (random(vec![3, 2, 3, 3]), random(vec![3]));
    let (matrix, offset) = (random(vec![5, 12]), random(vec![5]));
    let input = random(vec![2, 6, 6]);
    let pool = Pooling::Maxpool2D(Maxpool2D::default());
    let features = pool.op(&input.conv2d(&filter, &bias, 1));
    let expected = matrix.matvec(&features.flatten()).add(&offset);

    let nodes = vec![
        (3, node(Layer::Convolution(Convolution::new(filter, bias)), edge(None, 0), edge(Some(8), 0))),
        (8, node(Layer::Requant, edge(Some(3), 0), edge(Some(4), 0))),
        (4, node(Layer::Pooling(pool), edge(Some(8), 0), edge(Some(7), 0))),
        (7, node(Layer::Flatten, edge(Some(4), 0), edge(Some(9), 0))),
        (9, node(Layer::Dense(Dense { matrix, bias: offset }), edge(Some(7), 0), edge(None, 0))),
    ];
    let padded = pad_model(model(vec![2, 6, 6], nodes), vec![vec![2, 8, 8].into()], told).unwrap();
    assert_eq!(padded.unpadded_input_shapes, vec![Shape::new(vec![2, 6, 6])]);
    assert_eq!(padded.padding_mode, PaddingMode::Padding);
    assert_eq!(padded.nodes.iter().map(|n| n.0).collect::<Vec<_>>(), vec![3, 8, 4, 7, 9]);
    let kinds: Vec<&str> = padded.nodes.iter().map(|n| n.1.operation.as_kind_str()).collect();
    assert_eq!(kinds, vec!["convolution", "requant", "pooling", "flatten", "dense"]);
    assert_eq!(padded.nodes[4].1.inputs, vec![edge(Some(7), 0)]);
    assert_eq!(padded.nodes[4].1.outputs, vec![vec![edge(None, 0)]]);
    assert_eq!(padded.nodes[3].1.outputs, vec![vec![edge(Some(9), 0)]]);

    // the padded layers compute what the layers do
    let Layer::Convolution(conv) = &padded.nodes[0].1.operation else { panic!("a convolution comes first") };
    assert_eq!(conv.filter.get_shape(), Shape::new(vec![4, 2, 8, 8]));
    let (x, _) = conv.op(&input.pad_next_power_of_two(), &vec![2, 6, 6].into());
    assert_eq!(x.get_shape(), Shape::new(vec![4, 8, 8]));
    let Layer::Pooling(pool) = &padded.nodes[2].1.operation else { panic!("a maximum comes third") };
    let x = pool.op(&x);
    let Layer::Dense(dense) = &padded.nodes[4].1.operation else { panic!("a dense layer comes last") };
    assert_eq!(dense.matrix.get_shape(), Shape::new(vec![8, 64]));
    let y = dense.matrix.matvec(&x.flatten()).add(&dense.bias);
    assert_eq!(y.get_data(), padded_vector(expected.get_data(), 8, 0).get_data());
}

#[test]
fn models_that_cannot_be_padded() {
    let flat = |input: Edge| node(Layer::Flatten, input, edge(None, 0));
    let run = |nodes: Vec<(usize, Node<Element>)>| pad_model(model(vec![3], nodes), vec![vec![4].into()], told);
    assert_eq!(run(vec![(5, flat(edge(None, 0))), (9, flat(edge(Some(5), 0)))]).unwrap().nodes.len(), 2);
    // a node has to come after those that it reads from
    assert_eq!(
        run(vec![(9, flat(edge(Some(5), 0))), (5, flat(edge(None, 0)))]).unwrap_err(),
        PadError::UnknownNode
    );
    assert_eq!(run(vec![(5, flat(edge(None, 1)))]).unwrap_err(), PadError::UnknownOutput);
    // each of these nodes has one output
    assert_eq!(
        run(vec![(5, flat(edge(None, 0))), (6, flat(edge(Some(5), 1)))]).unwrap_err(),
        PadError::UnknownOutput
    );
    assert_eq!(
        run(vec![(5, node(Layer::Softmax, edge(None, 0), edge(None, 0)))]).unwrap_err(),
        PadError::OutputShape
    );
    // an average takes padded inputs
    let average = Layer::Pooling(Pooling::GlobalAvgPool2D(GlobalAvgPool2D::new(9)));
    let nodes = vec![(1, node(average, edge(None, 0), edge(None, 0)))];
    assert_eq!(
        pad_model(model(vec![2, 3, 3], nodes), vec![vec![2, 3, 3].into()], told).unwrap_err(),
        PadError::NotPadded
    );
}

#[test]
fn padding_of_every_kind_of_layer() {
    let shapes = |u: Vec<usize>, p: Vec<usize>| ReshapedShapes { unpadded: vec![u.into()], padded: vec![p.into()] };
    let product = |n: usize| ConcatMatMulShapes {
        unpadded_consistent: true,
        padded_consistent: true,
        unpadded_output_shapes: vec![Shape::new(vec![2, 3, n])],
        padded_output_shapes: vec![Shape::new(vec![2, 4, n.next_power_of_two()])],
        expected_num_outputs: 1,
    };

    let mat = MatMul {
        left_matrix: OperandMatrix::Input,
        right_matrix: OperandMatrix::Weight(random(vec![5, 3])),
        bias: None,
        right_transposed: false,
    };
    let mut si = info(vec![vec![2, 5]]);
    let q = Layer::MatMul(mat).pad_node(&mut si, LayerShapes::MatMul(vec![vec![2, 3].into()])).unwrap();
    assert_eq!(q.as_kind_str(), "mat-mul");
    assert_eq!(si.padded_input_shapes(), vec![Shape::new(vec![2, 4])]);

    let mut si = info(vec![vec![2, 5]]);
    let three = || (0..3).map(|_| Shape::new(vec![2, 8])).collect::<Vec<_>>();
    let outputs = ReshapedShapes { unpadded: three(), padded: three() };
    let q = Layer::QKV(projections(5, 2, 4))
        .pad_node(&mut si, LayerShapes::QKV { outputs, expected_num_outputs: 3 })
        .unwrap();
    let Layer::QKV(q) = q else { panic!("projections stay projections") };
    assert_eq!(q.q.get_shape(), Shape::new(vec![8, 16]));
    assert_eq!(si.shapes.len(), 3);
    let mut si = info(vec![vec![2, 5]]);
    let outputs = ReshapedShapes { unpadded: three(), padded: vec![] };
    assert_eq!(
        Layer::QKV(projections(5, 2, 4))
            .pad_node(&mut si, LayerShapes::QKV { outputs, expected_num_outputs: 3 })
            .unwrap_err(),
        PadError::OutputCount
    );

    let mut si = info(vec![vec![2, 3, 4], vec![2, 4, 3]]);
    let q = Layer::ConcatMatMul(Mha::new(4, 2, 4).qk)
        .pad_node(&mut si, LayerShapes::ConcatMatMul(product(3)))
        .unwrap();
    assert_eq!(q.as_kind_str(), "concat-mat-mul");
    assert_eq!(si.unpadded_input_shapes(), vec![Shape::new(vec![2, 3, 3])]);

    let mut si = info(vec![vec![6]]);
    let q = Layer::Reshape.pad_node(&mut si, LayerShapes::Reshape(shapes(vec![2, 3], vec![2, 4]))).unwrap();
    assert_eq!(q.as_kind_str(), "reshape");
    assert_eq!(si.padded_input_shapes(), vec![Shape::new(vec![2, 4])]);

    let mut si = info(vec![vec![6]]);
    let q = Layer::Logits.pad_node(&mut si, LayerShapes::HandedOn(Ok(info(vec![vec![1]])))).unwrap();
    assert_eq!(q.as_kind_str(), "logits");
    assert_eq!(si.unpadded_input_shapes(), vec![Shape::new(vec![1])]);
}

/// The parts of an attention layer are padded one after the other, and the values wait for the last product.
#[test]
fn attention_layer() {
    let product = |n: usize, ok: bool| ConcatMatMulShapes {
        unpadded_consistent: ok,
        padded_consistent: ok,
        unpadded_output_shapes: vec![Shape::new(vec![3, 5, n])],
        padded_output_shapes: vec![Shape::new(vec![4, 8, n.next_power_of_two()])],
        expected_num_outputs: 1,
    };
    let one = |u: Vec<usize>, p: Vec<usize>| ReshapedShapes { unpadded: vec![u.into()], padded: vec![p.into()] };
    let three = || ReshapedShapes {
        unpadded: (0..3).map(|_| Shape::new(vec![5, 3, 6])).collect(),
        padded: (0..3).map(|_| Shape::new(vec![8, 4, 8])).collect(),
    };
    let given = |qk_ok: bool, softmax: Result<ShapeInfo, PadError>| MhaShapes {
        inputs: three(),
        qk: product(5, qk_ok),
        softmax,
        final_mul: product(6, true),
        outputs: one(vec![5, 18], vec![8, 32]),
    };
    let weights = || Ok(info(vec![vec![3, 5, 5]]));
    let inputs = || info(vec![vec![5, 18], vec![5, 18], vec![5, 18]]);
    let mut si = inputs();
    let q = Layer::Mha(Mha::new(5, 3, 6)).pad_node(&mut si, LayerShapes::Mha(given(true, weights()))).unwrap();
    let Layer::Mha(q) = q else { panic!("attention stays attention") };
    assert_eq!((q.num_heads, q.head_dim, q.context_length), (4, 8, 5));
    assert_eq!(q.final_reshape.to_add, vec![32]);
    assert_eq!(si.unpadded_input_shapes(), vec![Shape::new(vec![5, 18])]);
    assert_eq!(si.padded_input_shapes(), vec![Shape::new(vec![8, 32])]);
    match si.shapes[0].ignore_garbage_pad.as_ref().unwrap() {
        GarbagePad::MHA(og, pad) => {
            assert_eq!(og, &Shape::new(vec![3, 5, 6]));
            assert_eq!(pad, &Shape::new(vec![4, 8, 8]));
        }
        GarbagePad::Convolution(..) => panic!("garbage of a convolution"),
    }
    let fails = |g: MhaShapes| pad_mha(Mha::new(5, 3, 6), &mut inputs(), g).unwrap_err();
    assert_eq!(fails(given(false, weights())), PadError::Inconsistent);
    assert_eq!(fails(given(true, Err(PadError::Garbage))), PadError::Garbage);
    // the last product takes two inputs
    assert_eq!(fails(given(true, Ok(info(vec![])))), PadError::InputCount);
    let mut uneven = given(true, weights());
    uneven.outputs.padded.clear();
    assert_eq!(fails(uneven), PadError::OutputCount);
    let mut uneven = given(true, weights());
    uneven.inputs.padded.clear();
    assert_eq!(fails(uneven), PadError::OutputCount);
}
