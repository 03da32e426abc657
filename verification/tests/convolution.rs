//! Convolution layers: shapes, clearing of garbage, strides, and the Fourier transform against the definition.
use zkml::field::{to_field, GoldilocksExt2};
use zkml::layers::convolution::clearing::{
    clear_garbage, clear_garbage_strided, compact_strided, new_clearing_tensor, new_clearing_tensor_strided,
};
use zkml::layers::convolution::schoolbook::SchoolBookConv;
use zkml::layers::convolution::shapes::{
    conv2d_shape, conv2d_shape_with_padding, conv2d_shape_with_padding_and_stride,
    padded_conv2d_shape, padded_conv2d_shape_with_padding_and_stride,
};
use zkml::layers::convolution::strided::expand_strided_point;
use zkml::layers::convolution::Convolution;
use zkml::layers::pooling::{maxpool2d_shape, Maxpool2D, Pooling};
use zkml::layers::LayerError;
use zkml::mle::evaluate;
use zkml::number::Element;
use zkml::padding::PaddingMode;
use zkml::shape::Shape;
use zkml::tensor::Tensor;

/// A tensor of pseudo-random elements of eight bits; the seed follows from the shape.
fn random(shape: &Shape) -> Tensor<Element> {
    let seed = shape.0.iter().fold(11u64, |s, d| s.wrapping_mul(31).wrapping_add(*d as u64));
    Tensor::random(shape, seed, -127, 127)
}

fn relu(t: &Tensor<Element>) -> Tensor<Element> {
    Tensor::new(t.get_shape(), t.get_data().iter().map(|x| (*x).max(0)).collect())
}

fn split_garbage(fft_output: &Tensor<Element>, not_padded_shape: &Shape) -> (Vec<Element>, Vec<Element>) {
    let mut not_padded_shape = not_padded_shape.0.clone();
    not_padded_shape.remove(0);
    let mut garbage = Vec::new();
    let mut valid = Vec::new();
    let shape = &fft_output.shape.0;
    for i in 0..shape[0] {
        for j in 0..shape[1] {
            for k in 0..shape[2] {
                let index = i * shape[1] * shape[2] + j * shape[2] + k;
                let elem = fft_output.data[index];
                if i < not_padded_shape[0] && j < not_padded_shape[1] && k < not_padded_shape[2] {
                    valid.push(elem);
                } else {
                    garbage.push(elem);
                }
            }
        }
    }
    (valid, garbage)
}

fn subtest_clearing_methods(padded_tensor: &Tensor<Element>, unpadded_shape: &Shape) {
    let clearing_tensor = new_clearing_tensor(unpadded_shape, &padded_tensor.get_shape());
    let cleared_tensor = padded_tensor.flatten().mul(&clearing_tensor);
    let auto_cleared_tensor = clear_garbage(padded_tensor, unpadded_shape);
    assert_eq!(cleared_tensor.get_data(), auto_cleared_tensor.get_data());
}

#[test]
fn test_conv_clearing_garbage() {
    let shape: Vec<usize> = vec![5, 18, 18];
    let padded_shape = Shape::new(shape.iter().map(|x| x.next_power_of_two()).collect());
    let tensor = random(&padded_shape);
    subtest_clearing_methods(&tensor, &shape.into());
}

#[test]
fn test_conv2d_shape() {
    let input_shape: Shape = vec![1, 23, 23].into();
    let conv_shape_og: Shape = vec![7, 1, 3, 3].into();
    let output_shape = conv2d_shape(&input_shape, &conv_shape_og);
    assert_eq!(output_shape, vec![7, 21, 21].into());
}

#[test]
fn test_conv_unpadded_to_padded() {
    let input_shape: Shape = vec![1, 23, 23].into();
    let conv_shape_og: Shape = vec![7, 1, 3, 3].into();
    let weight = random(&conv_shape_og);
    let bias: Tensor<Element> = Tensor::zeros(vec![conv_shape_og.0[0]].into());
    let input = random(&input_shape);
    let output = input.conv2d(&weight, &bias, 1);
    // pad the input and the filter and use the transform
    let padded_input = input.pad_next_power_of_two();
    let fft_conv = Convolution::new(weight.clone(), bias).into_padded_and_ffted(&input_shape);
    let (fft_output, conv_data) = fft_conv.op(&padded_input, &input_shape);
    let (valid, _garbage) = split_garbage(&fft_output, &output.get_shape());
    assert_eq!(valid, output.get_data().to_vec());
    // the shape follows from the unpadded shapes
    let exp_output_shape = conv2d_shape(&input_shape, &conv_shape_og);
    let mut given_output_shape = output.get_shape();
    given_output_shape.0.remove(0);
    assert_eq!(given_output_shape, exp_output_shape);

    // the output can be put together from the data for the proof
    let weight_padded_shape = weight.get_shape().next_power_of_two();
    let fft_output_shape = conv2d_shape(&padded_input.get_shape(), &weight_padded_shape).next_power_of_two();
    assert_eq!(fft_output.get_shape(), fft_output_shape);
    let fft_output_data = conv_data.output_as_element;
    let reconstructed_fft_tensor = Tensor::new(fft_output_shape.clone(), fft_output_data);
    subtest_clearing_methods(&reconstructed_fft_tensor, &output.get_shape());
    let hadamard_clearing = new_clearing_tensor(&output.get_shape(), &fft_output_shape);
    let hadamard_cleared = reconstructed_fft_tensor.flatten().mul(&hadamard_clearing);
    assert_eq!(hadamard_cleared.get_data(), fft_output.get_data());
}

#[test]
fn test_conv_padding_garbage() {
    let input_shape: Shape = vec![1, 23, 23].into();
    let conv_shape_og: Shape = vec![7, 1, 3, 3].into();

    let w1 = random(&conv_shape_og);
    let bias1: Tensor<Element> = Tensor::zeros(vec![conv_shape_og.0[0]].into());
    let fft_conv = Convolution::new(w1.clone(), bias1.clone()).into_padded_and_ffted(&input_shape);
    let input = random(&input_shape);
    let padded_input = input.pad_next_power_of_two();
    let (fft_output, _) = fft_conv.op(&padded_input, &input_shape);
    let normal_output = input.conv2d(&w1, &bias1, 1);

    let flat_fft_output = fft_output.flatten();
    let flat_normal_output = normal_output.flatten();
    let (valid, garbage) = split_garbage(&fft_output, &normal_output.get_shape());
    assert!(valid.len() == flat_normal_output.get_data().len());
    assert_eq!(valid, flat_normal_output.get_data().to_vec());
    assert!(!garbage.is_empty());
    let (valid, garbage) = split_garbage(
        &Tensor::new(fft_output.get_shape(), flat_fft_output.get_data().to_vec()),
        &normal_output.get_shape(),
    );
    assert!(garbage.iter().all(|x| *x == 0));
    assert!(valid == flat_normal_output.get_data().to_vec());

    // a dense layer takes the garbage out
    let ncols = flat_normal_output.shape.0[0];
    let nrows: usize = 10;
    let matrix = Tensor::new(vec![nrows, ncols].into(), vec![1; nrows * ncols]);
    let bias: Tensor<Element> = Tensor::zeros(vec![nrows].into());
    let conv_input_shape = conv2d_shape(&input_shape, &w1.get_shape());
    let conv_input_shape_padded = conv_input_shape.next_power_of_two();
    let dense_shape_padded = vec![nrows.next_power_of_two(), flat_fft_output.shape.0[0].next_power_of_two()];
    let padded_matrix = matrix.pad_matrix_to_ignore_garbage(
        &conv_input_shape.0,
        &conv_input_shape_padded.0,
        &dense_shape_padded.into(),
    );
    let padded_nrows = padded_matrix.nrows_2d();
    let padded_bias = bias.clone().pad_1d(padded_nrows);
    let no_garbage_fft_output = padded_matrix.matvec(&flat_fft_output).add(&padded_bias);
    let no_garbage_normal_output = matrix.matvec(&flat_normal_output).add(&bias);
    let max_rows = nrows;
    assert_eq!(
        &no_garbage_fft_output.get_data()[..max_rows],
        &no_garbage_normal_output.get_data()[..]
    );
    assert!(no_garbage_fft_output.get_data()[max_rows..].iter().all(|x| *x == 0));
}

#[test]
fn test_conv_fft_vs_naive() {
    let n_w = 1 << 2;
    let k_w = 1 << 0;
    let k_x = 1 << 0;

    let mut input_shape_og: Shape = vec![k_x, 256, 256].into();
    let mut input_shape_padded: Shape = input_shape_og.next_power_of_two();
    let filter = random(&vec![k_w, k_x, n_w, n_w].into());
    let bias = random(&vec![k_w].into());
    let input = random(&input_shape_og);

    let output = input.conv2d(&filter, &bias, 1);
    let dims = filter.get_shape();
    let fft_conv = Convolution::new(filter.clone(), bias).into_padded_and_ffted(&input_shape_padded);
    let mut fft_input = input.clone();
    fft_input.pad_to_shape(input_shape_padded.clone());
    let (fft_output, _proving_data) = fft_conv.op(&fft_input, &input_shape_og);

    input_shape_og = conv2d_shape(&input_shape_og, &filter.get_shape());
    input_shape_padded = conv2d_shape(&input_shape_padded, &dims).next_power_of_two();

    let output = relu(&output);
    let fft_output = relu(&fft_output);

    let pool = Pooling::Maxpool2D(Maxpool2D::default());
    let output = pool.op(&output);
    let fft_output = pool.op(&fft_output);
    input_shape_og = maxpool2d_shape(&input_shape_og);
    input_shape_padded = maxpool2d_shape(&input_shape_padded);

    // another convolution
    let filter = random(&vec![k_w, k_x, n_w, n_w].into());
    let bias = random(&vec![k_w].into());
    let output = output.conv2d(&filter, &bias, 1);
    let dims = filter.get_shape();
    let fft_conv = Convolution::new(filter.clone(), bias).into_padded_and_ffted(&input_shape_padded);
    let mut fft_input = fft_output;
    fft_input.pad_to_shape(input_shape_padded.clone());
    let (fft_output, _proving_data) = fft_conv.op(&fft_input, &input_shape_og);

    input_shape_og = conv2d_shape(&input_shape_og, &filter.get_shape());
    input_shape_padded = conv2d_shape(&input_shape_padded, &dims).next_power_of_two();

    let output = relu(&output);
    let fft_output = relu(&fft_output);

    let output = pool.op(&output);
    let fft_output = pool.op(&fft_output);
    input_shape_og = maxpool2d_shape(&input_shape_og);
    input_shape_padded = maxpool2d_shape(&input_shape_padded);

    // a dense layer on the flattened output
    let ignore_garbage_pad = (input_shape_og.clone(), input_shape_padded.clone());
    input_shape_og = vec![input_shape_og.product()].into();
    input_shape_padded = vec![input_shape_padded.product()].into();

    let nrows: usize = 10;
    let ncols = input_shape_og.0[0];
    let weight = random(&vec![nrows, ncols].into());
    let bias = random(&vec![nrows].into());
    let mut new_cols = ncols.next_power_of_two();
    let new_rows = nrows.next_power_of_two();
    if new_cols < input_shape_padded.0[0] {
        new_cols = input_shape_padded.0[0];
    }
    let dense_output = weight.matvec(&output.flatten()).add(&bias);

    let fft_weight = weight.pad_matrix_to_ignore_garbage(
        &ignore_garbage_pad.0 .0,
        &ignore_garbage_pad.1 .0,
        &vec![new_rows, new_cols].into(),
    );
    let fft_bias = bias.clone().pad_1d(new_rows);
    let fft_dense_output = fft_weight.matvec(&fft_output.flatten()).add(&fft_bias);
    assert_eq!(
        dense_output.get_data()[..weight.nrows_2d()],
        fft_dense_output.get_data()[..weight.nrows_2d()]
    );
}

#[test]
fn test_conv_with_padding_element() {
    let input_shape: Shape = vec![1, 6, 6].into();
    let filter_shape: Shape = vec![2, 1, 3, 3].into();

    let filter = random(&filter_shape);
    let bias: Tensor<Element> = Tensor::zeros(vec![filter_shape.0[0]].into());
    let input = random(&input_shape);

    let conv = Convolution::new_with_padding(filter.clone(), bias.clone(), [1, 1]);
    let fft_conv = conv.into_padded_and_ffted(&input_shape);

    let padded_input = input.pad_next_power_of_two();
    let (fft_output, _conv_data) = fft_conv.op(&padded_input, &input_shape);

    let padded_input_naive = input.zero_pad_spatial(1, 1);
    let expected_output = padded_input_naive.conv2d(&filter, &bias, 1);
    let expected_shape = expected_output.get_shape();

    let (valid, _garbage) = split_garbage(&fft_output, &expected_shape);
    assert_eq!(valid, expected_output.get_data().to_vec());

    // the size of the input is kept
    let out_h = if expected_shape.rank() == 4 { expected_shape.0[2] } else { expected_shape.0[1] };
    let out_w = if expected_shape.rank() == 4 { expected_shape.0[3] } else { expected_shape.0[2] };
    assert_eq!(out_h, 6, "output H must equal input H for same-conv");
    assert_eq!(out_w, 6, "output W must equal input W for same-conv");
}

#[test]
fn test_strided_shape_functions() {
    let input_shape: Shape = vec![1, 8, 8].into();
    let filter_shape: Shape = vec![4, 1, 3, 3].into();
    let out = conv2d_shape_with_padding_and_stride(&input_shape, &filter_shape, 0, 0, 2, 2);
    assert_eq!(out, Shape::new(vec![4, 3, 3]));

    let out_pot = padded_conv2d_shape_with_padding_and_stride(&input_shape, &filter_shape, 0, 0, 2, 2);
    assert_eq!(out_pot, Shape::new(vec![4, 4, 4]));

    let out1 = conv2d_shape_with_padding_and_stride(&input_shape, &filter_shape, 0, 0, 1, 1);
    let out_ns = conv2d_shape_with_padding(&input_shape, &filter_shape, 0, 0);
    assert_eq!(out1, out_ns);
}

#[test]
fn test_clear_and_compact_strided() {
    let full_padded_shape: Shape = vec![2, 8, 8].into();
    let full_valid_shape: Shape = vec![2, 6, 6].into();
    let tensor = random(&full_padded_shape);
    let stride = 2;

    let cleared = clear_garbage_strided(&tensor, &full_valid_shape, stride);

    for c in 0..2usize {
        for j in 0..8usize {
            for k in 0..8usize {
                let idx = c * 64 + j * 8 + k;
                let val = cleared.get_data()[idx];
                let should_be_nonzero = c < 2 && j < 6 && k < 6 && j % 2 == 0 && k % 2 == 0;
                if !should_be_nonzero {
                    assert_eq!(val, 0, "Expected 0 at ({c},{j},{k}) but got {val}");
                } else {
                    assert_eq!(val, tensor.get_data()[idx]);
                }
            }
        }
    }

    let compact = compact_strided(&cleared, &full_valid_shape, stride);
    assert_eq!(compact.get_shape(), Shape::new(vec![2, 4, 4]));
    for c in 0..2usize {
        for h in 0..3usize {
            for w in 0..3usize {
                let src = tensor.get_data()[c * 64 + (h * 2) * 8 + (w * 2)];
                let dst = compact.get_data()[c * 16 + h * 4 + w];
                assert_eq!(src, dst, "compact mismatch at ({c},{h},{w})");
            }
        }
    }
}

#[test]
fn test_expand_strided_point_mle_identity() {
    let full_valid: Shape = vec![2, 4, 4].into();
    let full_pot: Shape = vec![2, 4, 4].into();
    let stride = 2;

    let mut data = vec![0i64; 2 * 4 * 4];
    for c in 0..2usize {
        for h in 0..2usize {
            for w in 0..2usize {
                let val = (c * 4 + h * 2 + w + 1) as i64;
                data[c * 16 + (h * 2) * 4 + (w * 2)] = val;
            }
        }
    }
    let full_tensor: Tensor<Element> = Tensor::new(full_pot.clone(), data);

    let compact = compact_strided(&full_tensor, &full_valid, stride);

    let c_pot = compact.get_shape().0[0];
    let h_s_pot = compact.get_shape().0[1];
    let w_s_pot = compact.get_shape().0[2];
    let log_c = c_pot.ilog2() as usize;
    let log_hs = h_s_pot.ilog2() as usize;
    let log_ws = w_s_pot.ilog2() as usize;
    let total_bits = log_ws + log_hs + log_c;

    let r_s: Vec<GoldilocksExt2> = (0..total_bits)
        .map(|i| {
            GoldilocksExt2::from_canonical_u64(match i {
                0 => 3,
                1 => 7,
                2 => 2,
                _ => i as u64,
            })
        })
        .collect();

    let compact_fields = compact.to_field_tensor();
    let full_fields = full_tensor.to_field_tensor();

    let compact_eval = evaluate(compact_fields.get_data(), &r_s);

    let n_x = full_pot.0[1];
    let r_full = expand_strided_point(&r_s, c_pot, h_s_pot, w_s_pot, n_x, stride);
    let full_eval = evaluate(full_fields.get_data(), &r_full);

    assert_eq!(compact_eval, full_eval);
}

#[test]
fn test_new_clearing_tensor_strided() {
    let strided_valid: Shape = vec![2, 3, 3].into();
    let full_padded: Shape = vec![2, 8, 8].into();
    let t = new_clearing_tensor_strided(&strided_valid, &full_padded, 2);
    assert_eq!(t.get_data().len(), 2 * 8 * 8);
    let data = t.get_data();
    for c in 0..2usize {
        for j in 0..8usize {
            for k in 0..8usize {
                let idx = c * 64 + j * 8 + k;
                let expected = if c < 2 && j % 2 == 0 && k % 2 == 0 {
                    let h_s = j / 2;
                    let w_s = k / 2;
                    if h_s < 3 && w_s < 3 {
                        1
                    } else {
                        0
                    }
                } else {
                    0
                };
                assert_eq!(data[idx], expected, "Wrong value at ({c},{j},{k})");
            }
        }
    }
}

/// An odd number of valid lines keeps the last one.
#[test]
fn compact_keeps_the_last_stride_position() {
    let tensor = Tensor::new(vec![1, 4, 4].into(), (0..16).collect());
    let valid: Shape = vec![1, 3, 3].into();
    let compact = compact_strided(&clear_garbage_strided(&tensor, &valid, 2), &valid, 2);
    assert_eq!(compact.get_shape(), Shape::new(vec![1, 2, 2]));
    assert_eq!(compact.get_data(), &[0, 2, 8, 10]);
}

/// A layer with a frame, by its definition: the size of the input is kept.
#[test]
fn test_conv_with_padding() {
    let input_shape: Shape = vec![1, 8, 8].into();
    let filter_shape: Shape = vec![4, 1, 3, 3].into();
    let filter = random(&filter_shape);
    let bias: Tensor<Element> = Tensor::zeros(vec![4].into());
    let input = random(&input_shape);
    let conv = Convolution::new_with_padding(filter.clone(), bias.clone(), [1, 1]);
    let expected = input.zero_pad_spatial(1, 1).conv2d(&filter, &bias, 1);
    let actual = conv.evaluate_direct(&vec![input.clone()]).unwrap();
    assert_eq!(actual.get_shape(), expected.get_shape());
    assert_eq!(actual.get_data(), expected.get_data());
    assert_eq!(actual.get_shape(), Shape::new(vec![1, 4, 8, 8]));
    let school_book = SchoolBookConv(conv);
    assert!(!school_book.is_provable());
    let again = school_book.evaluate(&vec![input]).unwrap();
    assert_eq!(again.get_data(), expected.get_data());
}

/// A layer with a stride, by its definition: every second entry of the layer without one.
#[test]
fn test_strided_conv_f32_path() {
    let input_shape: Shape = vec![1, 8, 8].into();
    let filter_shape: Shape = vec![2, 1, 3, 3].into();
    let filter = random(&filter_shape);
    let bias: Tensor<Element> = Tensor::zeros(vec![2].into());
    let input = random(&input_shape);
    let conv = Convolution::new_with_padding_and_stride(filter.clone(), bias.clone(), [0, 0], [2, 2]);
    let strided = conv.evaluate_direct(&vec![input.clone()]).unwrap();
    let full = input.conv2d(&filter, &bias, 1);
    assert_eq!(strided.get_shape(), Shape::new(vec![1, 2, 3, 3]));
    for c in 0..2 {
        for h in 0..3 {
            for w in 0..3 {
                assert_eq!(
                    strided.get_data()[c * 9 + h * 3 + w],
                    full.get_data()[c * 36 + (h * 2) * 6 + w * 2]
                );
            }
        }
    }
}

/// A layer with a stride, by the transform: the compact output is that of the definition.
#[test]
fn strided_conv_by_transform() {
    let input_shape: Shape = vec![1, 8, 8].into();
    let filter = random(&vec![2, 1, 3, 3].into());
    let bias = random(&vec![2].into());
    let input = random(&input_shape);
    let conv = Convolution::new_with_padding_and_stride(filter.clone(), bias.clone(), [1, 1], [2, 2]);
    let direct = conv.evaluate_direct(&vec![input.clone()]).unwrap();
    let fft_conv = conv.into_padded_and_ffted(&input_shape);
    let (output, _) = fft_conv.op(&input.pad_next_power_of_two(), &input_shape);
    assert_eq!(direct.get_shape(), Shape::new(vec![1, 2, 4, 4]));
    assert_eq!(output.get_shape(), Shape::new(vec![2, 4, 4]));
    assert_eq!(output.get_data(), direct.get_data());
}

#[test]
fn convolution_rejects_wrong_counts() {
    let filter = random(&vec![2, 1, 3, 3].into());
    let bias = random(&vec![2].into());
    let input = random(&vec![1, 8, 8].into());
    let conv = Convolution::new(filter, bias);
    assert_eq!(conv.evaluate_direct(&vec![]).unwrap_err(), LayerError::InputCount);
    assert_eq!(
        conv.evaluate(&vec![], &vec![]).unwrap_err(),
        LayerError::InputCount
    );
    assert_eq!(
        conv.evaluate(&vec![input.clone()], &vec![]).unwrap_err(),
        LayerError::ShapeCount
    );
    assert_eq!(
        SchoolBookConv(conv).evaluate(&vec![input.clone(), input]).unwrap_err(),
        LayerError::InputCount
    );
}

/// Evaluating the layer gives the output and what its proof needs.
#[test]
fn evaluation_gives_the_data_of_the_proof() {
    let input_shape: Shape = vec![2, 6, 6].into();
    let input = random(&input_shape).pad_next_power_of_two();
    let conv = Convolution::new(random(&vec![3, 2, 3, 3].into()), random(&vec![3].into()));
    let conv = conv.into_padded_and_ffted(&input_shape);
    let (output, data) = conv.evaluate(&vec![input.clone()], &vec![input_shape.clone()]).unwrap();
    let (expected, expected_data) = conv.op(&input, &input_shape);
    assert_eq!(output.get_data(), expected.get_data());
    assert_eq!(data.output_as_element.len(), 4 * 8 * 8);
    assert_eq!(data.output_as_element, expected_data.output_as_element);
    assert_eq!(data.real_input, input.to_field_tensor().data);
    assert_eq!((data.input.len(), data.input_fft.len(), data.prod.len(), data.output.len()), (2, 2, 4, 4));
    assert_eq!(data.prod, expected_data.prod);
    // the channels are read backwards
    assert_eq!(data.input[1][0], data.real_input[127]);
}

#[test]
fn convolution_output_shapes() {
    let filter = random(&vec![3, 1, 3, 3].into());
    let bias = random(&vec![3].into());
    let conv = Convolution::new(filter, bias);
    let shapes = conv.output_shapes(&vec![vec![1, 10, 10].into()], PaddingMode::NoPadding);
    assert_eq!(shapes, vec![Shape::new(vec![3, 8, 8])]);
    let padded_conv = conv.into_padded_and_ffted(&vec![1, 10, 10].into());
    let padded = padded_conv.output_shapes(&vec![vec![1, 16, 16].into()], PaddingMode::Padding);
    assert_eq!(padded, vec![Shape::new(vec![4, 16, 16])]);
}

/// The extension of a matrix at a corner is the entry of that corner.
#[test]
fn extension_at_a_corner_is_the_entry() {
    let t = random(&vec![2, 4].into());
    let point = t.position_to_boolean_2d(1, 2);
    assert_eq!(t.to_2d_mle().evaluate(&point), to_field(t.get_data()[6]));
}

/// Lines and columns are counted separately, with and without a frame or a stride.
#[test]
fn outputs_that_are_not_square() {
    let input: Shape = vec![1, 5, 7].into();
    let filter: Shape = vec![4, 1, 3, 3].into();
    let expected = Shape::new(vec![4, 3, 5]);
    assert_eq!(conv2d_shape(&input, &filter), expected);
    assert_eq!(conv2d_shape_with_padding(&input, &filter, 0, 0), expected);
    assert_eq!(conv2d_shape_with_padding_and_stride(&input, &filter, 0, 0, 1, 1), expected);
    assert_eq!(conv2d_shape_with_padding(&input, &filter, 1, 1), Shape::new(vec![4, 5, 7]));
    assert_eq!(conv2d_shape_with_padding_and_stride(&input, &filter, 0, 0, 2, 2), Shape::new(vec![4, 2, 3]));
    assert_eq!(
        padded_conv2d_shape_with_padding_and_stride(&input, &filter, 0, 0, 1, 1),
        Shape::new(vec![4, 4, 8])
    );
    assert_eq!(conv2d_shape(&vec![1, 1, 5, 7].into(), &vec![4, 1, 3, 2].into()), Shape::new(vec![4, 3, 6]));
}

/// A layer on an input that is not square, whose sides are rounded up to the same power of two.
#[test]
fn convolution_of_an_input_that_is_not_square() {
    let input_shape: Shape = vec![2, 5, 7].into();
    for stride in [1, 2] {
        let filter: Tensor<Element> = Tensor::random(&vec![2, 2, 3, 3].into(), 3, -127, 127);
        let bias: Tensor<Element> = Tensor::random(&vec![2].into(), 4, -127, 127);
        let input: Tensor<Element> = Tensor::random(&input_shape, 5, -127, 127);
        let expected = input.conv2d(&filter, &bias, stride);
        let conv = Convolution::new_with_padding_and_stride(filter, bias, [0, 0], [stride, stride])
            .into_padded_and_ffted(&input_shape);
        let (output, _) = conv.op(&input.pad_next_power_of_two(), &input_shape);
        let shape = Shape::new(expected.get_shape().0[1..].to_vec());
        assert_eq!(shape, Shape::new(if stride == 1 { vec![2, 3, 5] } else { vec![2, 2, 3] }));
        assert_eq!(output.crop_to(&shape).get_data(), expected.get_data());
    }
}

/// Padded shapes are rounded up to powers of two, and strides of one change nothing.
#[test]
fn padded_shapes_and_unit_strides() {
    let (input, filter): (Shape, Shape) = (vec![1, 5, 9].into(), vec![3, 1, 3, 3].into());
    assert_eq!(conv2d_shape(&input, &filter), Shape::new(vec![3, 3, 7]));
    assert_eq!(padded_conv2d_shape(&input, &filter), Shape::new(vec![4, 4, 8]));
    assert_eq!(
        conv2d_shape_with_padding_and_stride(&input, &filter, 1, 2, 1, 1),
        conv2d_shape_with_padding(&input, &filter, 1, 2)
    );
    assert_eq!(
        conv2d_shape_with_padding_and_stride(&input, &filter, 1, 2, 2, 3),
        Shape::new(vec![3, 3, 4])
    );
}

/// The output shape is that of the convolution of the framed input, without the batch in front.
#[test]
fn output_shape_of_a_framed_and_strided_convolution() {
    let input = random(&vec![2, 6, 9].into());
    let (filter, bias) = (random(&vec![3, 2, 3, 3].into()), random(&vec![3].into()));
    let direct = input.zero_pad_spatial(1, 1).conv2d(&filter, &bias, 2);
    let conv = Convolution::new_with_padding_and_stride(filter, bias, [1, 1], [2, 2]);
    let shape = conv.output_shape(&input.get_shape(), PaddingMode::NoPadding);
    assert_eq!(shape, Shape::new(vec![3, 3, 5]));
    assert_eq!(direct.get_shape().0[0], 1);
    assert_eq!(direct.get_shape().0[1..], shape.0[..]);
}

/// A padded layer gives the convolution of the framed input, and zeros around it.
#[test]
fn padded_convolution_is_the_convolution_by_its_definition() {
    let input = random(&vec![2, 7, 7].into());
    let (filter, bias) = (random(&vec![3, 2, 3, 3].into()), random(&vec![3].into()));
    let direct = input.zero_pad_spatial(1, 1).conv2d(&filter, &bias, 1);
    let conv = Convolution::new_with_padding(filter, bias, [1, 1]).into_padded_and_ffted(&input.get_shape());
    let (out, _) = conv.op(&input.pad_next_power_of_two(), &input.get_shape());
    assert_eq!(out.get_shape(), Shape::new(vec![4, 16, 16]));
    for o in 0..4 {
        for i in 0..16 {
            for j in 0..16 {
                let expected = if o < 3 && i < 7 && j < 7 { direct.get_data()[(o * 7 + i) * 7 + j] } else { 0 };
                assert_eq!(out.get_data()[(o * 16 + i) * 16 + j], expected);
            }
        }
    }
}
