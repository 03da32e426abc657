//! Attention layers: masks, garbage, and the parts of the layer.
use zkml::field::{to_field, GoldilocksExt2};
use zkml::iop::context::ContextAux;
use zkml::iop::Claim;
use zkml::layers::transformer::mha::flow::{ClaimFlow, Inference};
use zkml::layers::transformer::mha::garbage::{pad_matrix_to_ignore_mha_garbage, GarbageError};
use zkml::layers::transformer::mha::mask::{eval_infinitizer_mle, eval_zeroifier_mle, infinitizer, zeroifier};
use zkml::layers::transformer::mha::{Mha, SubLayer};
use zkml::layers::LayerError;
use zkml::number::Element;
use zkml::padding::{GarbagePad, PadError, ShapeData, ShapeInfo};
use zkml::shape::Shape;
use zkml::tensor::Tensor;

fn random(shape: &Shape) -> Tensor<Element> {
    let seed = shape.0.iter().fold(3u64, |s, d| s.wrapping_mul(31).wrapping_add(*d as u64));
    Tensor::random(shape, seed, -127, 127)
}

fn random_field_vector(n: usize, seed: u64) -> Vec<GoldilocksExt2> {
    let mut state = seed.wrapping_mul(0x9E37_79B9_7F4A_7C15).wrapping_add(1);
    let mut next = || {
        state ^= state << 13;
        state ^= state >> 7;
        state ^= state << 17;
        state >> 1
    };
    (0..n).map(|_| GoldilocksExt2::from_bases(next(), next())).collect()
}

fn get_2d(t: &Tensor<Element>, row: usize, col: usize) -> Element {
    t.get(vec![row, col])
}

fn to_bit_sequence_le(num: usize, bit_length: usize) -> Vec<Element> {
    (0..bit_length).map(|i| ((num >> i) & 1) as Element).collect()
}

fn heads_of(t: &Tensor<Element>) -> Vec<Tensor<Element>> {
    let (slices, shape) = t.slice_on_dim(0);
    slices.iter().map(|data| Tensor::new(shape.clone(), data.to_vec())).collect()
}

#[test]
fn test_zeroifier_and_infinitizer() {
    let num_heads = 2;
    let q_len = 4;
    let seq_len = 4;
    let input = random(&vec![num_heads, q_len, seq_len].into());
    let zeros = zeroifier(num_heads, q_len, seq_len);
    let minus_infinity = infinitizer(num_heads, q_len, seq_len, Element::MIN);
    let zeroified = input.mul(&zeros);
    let infinitized = zeroified.add(&minus_infinity);
    assert_eq!(zeroified.get_shape(), input.get_shape());
    assert_eq!(infinitized.get_shape(), input.get_shape());
    let (slices, _) = infinitized.slice_on_dim(0);
    assert!(slices.iter().enumerate().all(|(head_idx, head)| {
        head.chunks(q_len).enumerate().all(|(q_idx, q)| {
            q.iter().enumerate().all(|(i, v)| {
                let input_value = input.get(vec![head_idx, q_idx, i]);
                if i <= q_idx {
                    input_value == *v
                } else {
                    *v == Element::MIN
                }
            })
        })
    }));
}

fn eval_lteq_poly(x_i: &[Element], y_i: &[Element]) -> Element {
    assert_eq!(x_i.len(), y_i.len());
    x_i.iter()
        .zip(y_i.iter())
        .fold(1, |acc, (x, y)| acc * (1 - x - y + 2 * x * y) + (1 - x) * y)
}

fn test_zeroifier_evaluation_for_num_heads(num_heads_bits: usize) {
    const NUM_BITS: usize = 4;
    let num_columns = 1 << NUM_BITS;
    let num_heads = 1 << num_heads_bits;

    let zeroifier = zeroifier::<Element>(num_heads, num_columns, num_columns);
    let zeroifier_heads = heads_of(&zeroifier);

    assert_eq!(get_2d(&zeroifier_heads[0], 0, 0), 1);
    assert_eq!(get_2d(&zeroifier_heads[0], num_columns - 1, num_columns - 1), 1);
    assert_eq!(get_2d(&zeroifier_heads[0], 0, 1), 0);
    assert_eq!(get_2d(&zeroifier_heads[0], 1, 1), 1);
    assert_eq!(get_2d(&zeroifier_heads[0], 1, 2), 0);

    let mle = zeroifier.to_mle_flat();

    for i in 0..num_columns {
        for j in 0..num_columns {
            for h in 0..num_heads {
                let x_i = to_bit_sequence_le(i, NUM_BITS);
                let y_i = to_bit_sequence_le(j, NUM_BITS);
                let h_i = to_bit_sequence_le(h, num_heads_bits);
                let cmp = eval_lteq_poly(&y_i, &x_i);
                assert_eq!(
                    get_2d(&zeroifier_heads[h], i, j),
                    cmp,
                    "Zeroifier evaluation failed for ({}, {})",
                    i,
                    j
                );
                let point: Vec<GoldilocksExt2> = y_i
                    .into_iter()
                    .chain(x_i)
                    .chain(h_i)
                    .map(|bit| GoldilocksExt2::from_canonical_u64(bit as u64))
                    .collect();
                let eval = mle.evaluate(&point);
                assert_eq!(eval, to_field(cmp));
                let quick_eval = eval_zeroifier_mle(&point[..NUM_BITS], &point[NUM_BITS..NUM_BITS * 2]);
                assert_eq!(eval, quick_eval);
            }
        }
    }

    for k in 0..10 {
        let point = random_field_vector(NUM_BITS * 2 + num_heads_bits, k);
        assert_eq!(
            mle.evaluate(&point),
            eval_zeroifier_mle(&point[..NUM_BITS], &point[NUM_BITS..NUM_BITS * 2])
        );
    }
}

#[test]
fn mha_test_zeroifier_evaluation() {
    test_zeroifier_evaluation_for_num_heads(0);
    test_zeroifier_evaluation_for_num_heads(2);
}

fn eval_gt_poly(x_i: &[Element], y_i: &[Element], minus_infinity: Element) -> Element {
    minus_infinity * (1 - eval_lteq_poly(x_i, y_i))
}

fn test_infinitizer_evaluation_for_num_heads(num_heads_bits: usize) {
    const NUM_BITS: usize = 4;
    let num_columns = 1 << NUM_BITS;
    let num_heads = 1 << num_heads_bits;

    let minus_infinity: Element = -128;

    let infinitizer = infinitizer::<Element>(num_heads, num_columns, num_columns, minus_infinity);
    let infinitizer_heads = heads_of(&infinitizer);

    assert_eq!(get_2d(&infinitizer_heads[0], 0, 0), 0);
    assert_eq!(get_2d(&infinitizer_heads[0], num_columns - 1, num_columns - 1), 0);
    assert_eq!(get_2d(&infinitizer_heads[0], 0, 1), minus_infinity);
    assert_eq!(get_2d(&infinitizer_heads[0], 1, 1), 0);
    assert_eq!(get_2d(&infinitizer_heads[0], 1, 2), minus_infinity);

    let mle = infinitizer.to_mle_flat();

    for i in 0..num_columns {
        for j in 0..num_columns {
            for h in 0..num_heads {
                let x_i = to_bit_sequence_le(i, NUM_BITS);
                let y_i = to_bit_sequence_le(j, NUM_BITS);
                let h_i = to_bit_sequence_le(h, num_heads_bits);
                let cmp = eval_gt_poly(&y_i, &x_i, minus_infinity);
                assert_eq!(
                    get_2d(&infinitizer_heads[h], i, j),
                    cmp,
                    "Zeroifier evaluation failed for ({}, {})",
                    i,
                    j
                );
                let point: Vec<GoldilocksExt2> =
                    y_i.into_iter().chain(x_i).chain(h_i).map(to_field).collect();
                let eval = mle.evaluate(&point);
                assert_eq!(eval, to_field(cmp));
                let quick_eval = eval_infinitizer_mle(
                    &point[..NUM_BITS],
                    &point[NUM_BITS..NUM_BITS * 2],
                    minus_infinity,
                );
                assert_eq!(eval, quick_eval);
            }
        }
    }

    for k in 0..10 {
        let point = random_field_vector(NUM_BITS * 2 + num_heads_bits, k + 50);
        assert_eq!(
            mle.evaluate(&point),
            eval_infinitizer_mle(&point[..NUM_BITS], &point[NUM_BITS..NUM_BITS * 2], minus_infinity)
        );
    }
}

#[test]
fn test_infinitizer_evaluation() {
    test_infinitizer_evaluation_for_num_heads(0);
    test_infinitizer_evaluation_for_num_heads(3);
}

#[test]
fn test_removing_garbage() {
    let seq_len: usize = 12;
    let num_heads: usize = 5;
    let head_dim: usize = 6;
    let hidden_size = num_heads * head_dim;

    let matmul_size = 37;

    let matrix_shape = Shape::new(vec![hidden_size, matmul_size]);
    let matrix = random(&matrix_shape);
    let padded_matrix_shape = matrix_shape.next_power_of_two();

    let unpadded_mha_shape = Shape::new(vec![seq_len, num_heads, head_dim]);
    let padded_mha_shape = unpadded_mha_shape.next_power_of_two();

    let padded_matrix =
        pad_matrix_to_ignore_mha_garbage(&matrix, &unpadded_mha_shape, &padded_mha_shape, padded_matrix_shape)
            .unwrap();

    let input_shape = Shape::new(vec![seq_len, hidden_size]);
    let input = random(&input_shape);
    let output = input.matmul(&matrix);

    let padded_num_heads = num_heads.next_power_of_two();
    let padded_head_dim = head_dim.next_power_of_two();
    let padded_input_shape = Shape::new(vec![seq_len.next_power_of_two(), padded_head_dim * padded_num_heads]);

    let mut padded_input_data = vec![0; padded_input_shape.product()];
    input.data.iter().enumerate().for_each(|(i, value)| {
        let col = i % input_shape.0[1];
        let row = i / input_shape.0[1];
        let padded_col = col / head_dim * padded_head_dim + col % head_dim;
        padded_input_data[row * padded_input_shape.0[1] + padded_col] = *value
    });
    let padded_input = Tensor::new(padded_input_shape, padded_input_data);
    let padded_output = padded_input.matmul(&padded_matrix);
    let padded_out_shape = padded_output.get_shape();

    for i in 0..padded_out_shape.0[0] {
        for j in 0..padded_out_shape.0[1] {
            if i < seq_len {
                if j < matmul_size {
                    assert_eq!(get_2d(&output, i, j), get_2d(&padded_output, i, j), "Failed for {i} {j}");
                } else {
                    assert_eq!(0, get_2d(&padded_output, i, j));
                }
            }
        }
    }
}

/// Garbage between the heads does not change the product either.
#[test]
fn garbage_between_heads_is_ignored() {
    let matrix = random(&vec![6, 3].into());
    let og = Shape::new(vec![1, 2, 3]);
    let pad = Shape::new(vec![1, 2, 4]);
    let padded = pad_matrix_to_ignore_mha_garbage(&matrix, &og, &pad, vec![8, 4].into()).unwrap();
    let x = Tensor::new(vec![1, 6].into(), vec![1, 2, 3, 4, 5, 6]);
    let xp = Tensor::new(vec![1, 8].into(), vec![1, 2, 3, 99, 4, 5, 6, -77]);
    let y = x.matmul(&matrix);
    let yp = xp.matmul(&padded);
    assert_eq!(&yp.get_data()[..3], y.get_data());
    assert_eq!(yp.get_data()[3], 0);
}

#[test]
fn garbage_errors() {
    let m = random(&vec![6, 3].into());
    let v = random(&vec![6].into());
    let (og, pad) = (Shape::new(vec![1, 2, 3]), Shape::new(vec![1, 2, 4]));
    let flat = Shape::new(vec![2, 3]);
    let target = || Shape::new(vec![8, 4]);
    assert_eq!(
        pad_matrix_to_ignore_mha_garbage(&m, &flat, &pad, target()).unwrap_err(),
        GarbageError::Ranks
    );
    assert_eq!(
        pad_matrix_to_ignore_mha_garbage(&m, &flat, &flat, target()).unwrap_err(),
        GarbageError::NotThree
    );
    assert_eq!(
        pad_matrix_to_ignore_mha_garbage(&m, &og, &pad, vec![8].into()).unwrap_err(),
        GarbageError::Target
    );
    assert_eq!(
        pad_matrix_to_ignore_mha_garbage(&v, &og, &pad, target()).unwrap_err(),
        GarbageError::Matrix
    );
}

#[test]
fn attention_layer_parts() {
    let mha = Mha::new(10, 5, 7);
    assert!(mha.is_provable());
    assert_eq!(mha.num_outputs(3), 1);
    assert_eq!(mha.inputs_reshape.to_add, vec![5, 7]);
    assert_eq!(mha.final_reshape.to_add, vec![35]);
    assert_eq!(mha.final_mul.permutation, Some(vec![1, 0, 2]));
    assert_eq!(mha.qk.max_shapes.0, Shape::new(vec![10, 5, 7]));
    assert_eq!(mha.final_mul.max_shapes.0, Shape::new(vec![5, 10, 10]));

    let text = |s: &str| -> Vec<u64> { s.bytes().map(|b| b as u64).collect() };
    assert_eq!(
        Mha::ephemeral_node_payload(9, SubLayer::Qk),
        [vec![9], text("qk")].concat()
    );
    assert_eq!(
        Mha::ephemeral_node_payload(9, SubLayer::Softmax),
        [vec![9], text("softmax")].concat()
    );
    assert_eq!(
        Mha::ephemeral_node_payload(0, SubLayer::FinalMul),
        [vec![0], text("final_mul")].concat()
    );
}

#[test]
fn attention_layer_shapes() {
    let shapes: Vec<Shape> = vec![vec![2, 3].into(), vec![4, 3].into(), vec![4, 5].into()];
    assert_eq!(Mha::qk_input_shapes(&shapes), shapes[..2].to_vec());
    let soft: Vec<Shape> = vec![vec![7].into()];
    assert_eq!(
        Mha::final_mul_input_shapes(&soft, &shapes),
        vec![Shape::new(vec![7]), Shape::new(vec![4, 5])]
    );
    let inputs: Vec<Tensor<Element>> = shapes.iter().map(random).collect();
    assert_eq!(Mha::unpadded_shapes(&inputs, vec![]).unwrap(), shapes);
    assert_eq!(Mha::unpadded_shapes(&inputs, soft.clone()).unwrap(), soft);
    assert_eq!(
        Mha::unpadded_shapes(&inputs[..2].to_vec(), vec![]).unwrap_err(),
        LayerError::InputCount
    );
}

fn aux(shapes: Vec<Shape>) -> ContextAux {
    ContextAux {
        last_output_shape: shapes.clone(),
        last_unpadded_output_shape: shapes,
        model_polys: None,
        tables: vec![],
        max_poly_len: 3,
    }
}

#[test]
fn attention_layer_contexts() {
    let shapes: Vec<Shape> = vec![vec![2].into(), vec![4].into(), vec![8].into()];
    let (qk, v) = Mha::qk_aux(aux(shapes.clone())).unwrap();
    assert_eq!(qk.last_output_shape, shapes[..2].to_vec());
    assert_eq!(qk.last_unpadded_output_shape, shapes[..2].to_vec());
    assert_eq!(qk.max_poly_len, 3);
    assert_eq!(v, shapes[2]);
    assert_eq!(Mha::qk_aux(aux(shapes[..2].to_vec())).unwrap_err(), LayerError::ShapeCount);
    let m = Mha::final_mul_aux(aux(shapes[..1].to_vec()), v).unwrap();
    assert_eq!(m.last_output_shape, vec![Shape::new(vec![2]), Shape::new(vec![8])]);
    assert_eq!(
        Mha::final_mul_aux(aux(shapes.clone()), shapes[0].clone()).unwrap_err(),
        LayerError::OutputCount
    );
}

#[test]
fn attention_layer_claims() {
    let claim = |n: u64| Claim::new(vec![], GoldilocksExt2::from_canonical_u64(n));
    let eval = |n: u64| GoldilocksExt2::from_canonical_u64(n);
    let (softmax, v) = Mha::split_final_mul_claims(vec![claim(1), claim(2)]).unwrap();
    assert_eq!(softmax.eval, eval(1));
    assert_eq!(v.eval, eval(2));
    assert_eq!(Mha::split_final_mul_claims(vec![claim(1)]).unwrap_err(), LayerError::InputCount);
    assert_eq!(Mha::softmax_input_claim(vec![claim(3)]).unwrap().eval, eval(3));
    assert_eq!(Mha::softmax_input_claim(vec![]).unwrap_err(), LayerError::InputCount);
    let all = Mha::input_claims(vec![claim(4), claim(5)], v).unwrap();
    assert_eq!(all.iter().map(|c| c.eval).collect::<Vec<_>>(), vec![eval(4), eval(5), eval(2)]);
    assert_eq!(Mha::input_claims(vec![], claim(1)).unwrap_err(), LayerError::InputCount);
}

#[test]
fn attention_layer_padding() {
    let mut mha = Mha::new(12, 5, 6);
    let mut si = ShapeInfo { shapes: vec![ShapeData::new(vec![12, 5, 6].into())] };
    mha.pad_output(&mut si).unwrap();
    assert_eq!((mha.num_heads, mha.head_dim), (8, 8));
    assert_eq!(mha.final_reshape.to_add, vec![64]);
    match si.shapes[0].ignore_garbage_pad.as_ref().unwrap() {
        GarbagePad::MHA(og, pad) => {
            assert_eq!(og, &Shape::new(vec![12, 5, 6]));
            assert_eq!(pad, &Shape::new(vec![16, 8, 8]));
        }
        GarbagePad::Convolution(..) => panic!("garbage of a convolution"),
    }
    let mut none = ShapeInfo { shapes: vec![] };
    assert_eq!(mha.pad_output(&mut none).unwrap_err(), PadError::OutputCount);
}

/// The parts of the layer follow each other, and the values wait for the last product.
#[test]
fn parts_in_the_order_of_evaluation() {
    let tensor = |x: Element| Tensor::new(vec![1].into(), vec![x]);
    let tensors = |xs: &[Element]| xs.iter().map(|x| tensor(*x)).collect::<Vec<_>>();
    let shapes = |ns: &[usize]| ns.iter().map(|n| Shape::new(vec![*n])).collect::<Vec<_>>();
    let data = |ts: &[Tensor<Element>]| ts.iter().map(|t| t.get_data()[0]).collect::<Vec<_>>();

    let start = |n: usize| Mha::evaluate_with_intermediate_outputs(tensors(&[1, 2, 3])[..n].to_vec(), vec![]);
    assert_eq!(start(2).unwrap_err(), LayerError::InputCount);
    let given = Mha::evaluate_with_intermediate_outputs(tensors(&[1, 2, 3]), shapes(&[7])).unwrap();
    assert!(matches!(given, Inference::InputsReshape { shapes: s, .. } if s == shapes(&[7])));

    let run = start(3).unwrap();
    let Inference::InputsReshape { inputs, shapes: s } = &run else { panic!("the reshape comes first") };
    assert_eq!(data(inputs), vec![1, 2, 3]);
    assert_eq!(*s, shapes(&[1, 1, 1]));
    assert!(!run.accepts(2, 3));
    assert!(!run.accepts(3, 2));
    assert!(run.accepts(3, 3));

    let run = run.go_on(tensors(&[4, 5, 6]), shapes(&[40, 50, 60])).unwrap();
    let Inference::Qk { factors, shapes: s, all_shapes, .. } = &run else { panic!("the product comes second") };
    assert_eq!(data(factors), vec![4, 5]);
    assert_eq!(*s, shapes(&[40, 50]));
    assert_eq!(*all_shapes, shapes(&[40, 50, 60]));

    let run = run.go_on(tensors(&[7]), shapes(&[70])).unwrap();
    let Inference::Softmax { qk, shapes: s, .. } = &run else { panic!("the softmax comes third") };
    assert_eq!(data(qk), vec![7]);
    assert_eq!(*s, shapes(&[70]));
    assert!(run.accepts(2, 0));
    assert!(!run.accepts(1, 0));

    let run = run.go_on(tensors(&[8]), shapes(&[80])).unwrap();
    let Inference::FinalMul { factors, shapes: s, .. } = &run else { panic!("the last product comes fourth") };
    assert_eq!(data(factors), vec![8, 6]);
    assert_eq!(*s, shapes(&[80, 60]));

    let run = run.go_on(tensors(&[9]), shapes(&[90])).unwrap();
    let Inference::FinalReshape { heads, shapes: s, .. } = &run else { panic!("the heads are joined at last") };
    assert_eq!(data(heads), vec![9]);
    assert_eq!(*s, shapes(&[90]));

    let run = run.go_on(tensors(&[10]), vec![]).unwrap();
    assert!(!run.accepts(1, 1));
    let Inference::Done { out, heads, softmax, qk } = run else { panic!("all parts are evaluated") };
    assert_eq!((data(&out), data(&heads), data(&[softmax]), data(&qk)), (vec![10], vec![9], vec![8], vec![7]));

    let softmax = start(3)
        .unwrap()
        .go_on(tensors(&[4, 5, 6]), shapes(&[40, 50, 60]))
        .unwrap()
        .go_on(tensors(&[7]), shapes(&[70]))
        .unwrap();
    assert_eq!(softmax.go_on(tensors(&[8, 8]), vec![]).unwrap_err(), LayerError::OutputCount);
}

/// The claims go from the output of the layer to its inputs.
#[test]
fn claims_in_the_order_of_the_proof() {
    let claim = |n: Element| Claim::new(vec![], to_field(n));
    let claims = |ns: &[Element]| ns.iter().map(|n| claim(*n)).collect::<Vec<_>>();
    let flow = || ClaimFlow::FinalMul { claims: claims(&[1]) };
    assert_eq!(flow().go_on(claims(&[2])).unwrap_err(), LayerError::InputCount);
    let flow = flow().go_on(claims(&[2, 3])).unwrap();
    assert!(matches!(&flow, ClaimFlow::Softmax { claim: c, .. } if c.eval == to_field(2)));
    let flow = flow.go_on(claims(&[4])).unwrap();
    assert!(matches!(&flow, ClaimFlow::Qk { claim: c, .. } if c.eval == to_field(4)));
    let flow = flow.go_on(claims(&[5, 6])).unwrap();
    let ClaimFlow::Done { claims } = flow else { panic!("all parts are proved") };
    let evals: Vec<GoldilocksExt2> = claims.iter().map(|c| c.eval).collect();
    assert_eq!(evals, vec![to_field(5), to_field(6), to_field(3)]);
}
