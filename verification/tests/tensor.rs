//! Tensors: element-wise and linear operations, padding, slicing and convolution.
use ndarray::{Array, Ix2, Order};
use zkml::field::{to_field, GoldilocksExt2};
use zkml::number::Element;
use zkml::shape::Shape;
use zkml::tensor::conv::check_tensor_consistency;
use zkml::tensor::Tensor;

/// A tensor of pseudo-random elements of eight bits; the seed follows from the shape.
fn random(shape: &Shape) -> Tensor<Element> {
    let seed = shape.0.iter().fold(7u64, |s, d| s.wrapping_mul(31).wrapping_add(*d as u64));
    Tensor::random(shape, seed, -127, 127)
}

#[test]
fn test_tensor_basic_ops() {
    let tensor1 = Tensor::new(vec![2, 2].into(), vec![1, 2, 3, 4]);
    let tensor2 = Tensor::new(vec![2, 2].into(), vec![5, 6, 7, 8]);

    let result_add = tensor1.add(&tensor2);
    assert_eq!(
        result_add,
        Tensor::new(vec![2, 2].into(), vec![6, 8, 10, 12]),
        "Element-wise addition failed."
    );

    let result_sub = tensor2.sub(&tensor2);
    assert_eq!(
        result_sub,
        Tensor::zeros(vec![2, 2].into()),
        "Element-wise subtraction failed."
    );

    let result_mul = tensor1.mul(&tensor2);
    assert_eq!(
        result_mul,
        Tensor::new(vec![2, 2].into(), vec![5, 12, 21, 32]),
        "Element-wise multiplication failed."
    );

    let result_scalar = tensor1.scalar_mul(&2);
    assert_eq!(
        result_scalar,
        Tensor::new(vec![2, 2].into(), vec![2, 4, 6, 8]),
        "Element-wise scalar multiplication failed."
    );
}

#[test]
fn test_tensor_matvec() {
    let shape_m = vec![3, 3];
    let tensor_m = Tensor::new(shape_m.clone().into(), vec![1, 2, 3, 4, 5, 6, 7, 8, 9]);
    let matrix = Array::from_vec(tensor_m.get_data().to_vec())
        .into_shape_with_order((shape_m, Order::RowMajor))
        .unwrap()
        .into_dimensionality::<Ix2>()
        .unwrap();
    let tensor_v = Tensor::new(vec![3].into(), vec![10, 20, 30]);
    let vector = Array::from_vec(tensor_v.get_data().to_vec());

    let result = tensor_m.matvec(&tensor_v);
    let expected_result = matrix.dot(&vector);

    assert_eq!(
        Array::from_vec(result.get_data().to_vec()),
        expected_result,
        "Matrix-vector multiplication failed."
    );
}

#[test]
fn test_tensor_matmul() {
    let shape_a = vec![4, 3];
    let tensor_a = Tensor::new(
        shape_a.clone().into(),
        vec![1, 2, 3, 4, 5, 6, 7, 8, 9, 10, 11, 12],
    );
    let matrix_a = Array::from_vec(tensor_a.get_data().to_vec())
        .into_shape_with_order((shape_a, Order::RowMajor))
        .unwrap();
    let shape_b = vec![3, 3];
    let tensor_b = Tensor::new(
        shape_b.clone().into(),
        vec![10, 20, 30, 40, 50, 60, 70, 80, 90],
    );
    let matrix_b = Array::from_vec(tensor_b.get_data().to_vec())
        .into_shape_with_order((shape_b, Order::RowMajor))
        .unwrap();

    let result = tensor_a.matmul(&tensor_b);

    let expected_result = matrix_a
        .into_dimensionality::<Ix2>()
        .unwrap()
        .dot(&matrix_b.into_dimensionality::<Ix2>().unwrap());

    assert_eq!(
        Array::from_vec(result.get_data().to_vec())
            .into_shape_with_order((expected_result.shape(), Order::RowMajor))
            .unwrap()
            .into_dimensionality::<Ix2>()
            .unwrap(),
        expected_result,
        "Matrix-matrix multiplication failed."
    );
}

#[test]
fn test_tensor_transpose() {
    let matrix_a = Tensor::new(
        vec![3, 4].into(),
        vec![1, 2, 3, 4, 5, 6, 7, 8, 9, 10, 11, 12],
    );
    let matrix_b = Tensor::new(
        vec![4, 3].into(),
        vec![1, 5, 9, 2, 6, 10, 3, 7, 11, 4, 8, 12],
    );

    let result = matrix_a.transpose();

    assert_eq!(result, matrix_b, "Matrix transpose failed.");
}

#[test]
fn test_tensor_matvec_concatenate() {
    let matrix = Tensor::new(vec![3, 3].into(), vec![1, 2, 3, 4, 5, 6, 7, 8, 9]);
    let vector = Tensor::new(vec![3].into(), vec![10, 20, 30]);

    let result = matrix.concat_matvec_col(&vector);

    assert_eq!(
        result,
        Tensor::new(
            vec![3, 4].into(),
            vec![1, 2, 3, 10, 4, 5, 6, 20, 7, 8, 9, 30]
        ),
        "Concatenate matrix vector as columns failed."
    );
}

#[test]
fn test_conv() {
    for i in 0..3 {
        for j in 2..5 {
            for l in 0..4 {
                for n in 1..(j - 1) {
                    let n_w = 1 << n;
                    let k_w = 1 << l;
                    let n_x = 1 << j;
                    let k_x = 1 << i;
                    let filter1 = random(&vec![k_w, k_x, n_w, n_w].into());
                    let filter2 = filter1.clone();
                    let filter1 = filter1.into_fft_conv(&vec![k_x, n_x, n_x].into());
                    let big_x =
                        Tensor::new(vec![k_x, n_x, n_x].into(), vec![3; n_x * n_x * k_x]); //random_vector(n_x*n_x*k_x));
                    let (out_2, _) = filter1.fft_conv(&big_x);
                    let out_1 = filter2.cnn_naive_convolution(&big_x);
                    assert!(check_tensor_consistency(out_1, out_2));
                }
            }
        }
    }
}

#[test]
fn test_tensor_ext_ops() {
    let matrix_a_data = vec![1 as Element, 2, 3, 4, 5, 6, 7, 8, 9];
    let matrix_b_data = vec![10 as Element, 20, 30, 40, 50, 60, 70, 80, 90];
    let matrix_c_data = vec![300 as Element, 360, 420, 660, 810, 960, 1020, 1260, 1500];
    let vector_a_data = vec![10 as Element, 20, 30];
    let vector_b_data = vec![140 as Element, 320, 500];

    let matrix_a_data: Vec<GoldilocksExt2> = matrix_a_data.iter().map(|x| to_field(*x)).collect();
    let matrix_b_data: Vec<GoldilocksExt2> = matrix_b_data.iter().map(|x| to_field(*x)).collect();
    let matrix_c_data: Vec<GoldilocksExt2> = matrix_c_data.iter().map(|x| to_field(*x)).collect();
    let vector_a_data: Vec<GoldilocksExt2> = vector_a_data.iter().map(|x| to_field(*x)).collect();
    let vector_b_data: Vec<GoldilocksExt2> = vector_b_data.iter().map(|x| to_field(*x)).collect();
    let matrix = Tensor::new(vec![3usize, 3].into(), matrix_a_data.clone());
    let vector = Tensor::new(vec![3usize].into(), vector_a_data);
    let vector_expected = Tensor::new(vec![3usize].into(), vector_b_data);

    let result = matrix.matvec(&vector);

    assert_eq!(
        result, vector_expected,
        "Matrix-vector multiplication failed."
    );

    let matrix_a = Tensor::new(vec![3, 3].into(), matrix_a_data);
    let matrix_b = Tensor::new(vec![3, 3].into(), matrix_b_data);
    let matrix_c = Tensor::new(vec![3, 3].into(), matrix_c_data);

    let result = matrix_a.matmul(&matrix_b);

    assert_eq!(result, matrix_c, "Matrix-matrix multiplication failed.");
}

#[test]
fn test_tensor_maxpool2d() {
    let input = Tensor::<Element>::new(
        vec![1, 3, 3, 4].into(),
        vec![
            99, -35, 18, 104, -26, -48, -80, 106, 10, 8, 79, -7, -128, -45, 24, -91, -7, 88,
            -119, -37, -38, -113, -84, 86, 116, 72, -83, 100, 83, 81, 87, 58, -109, -13, -123,
            102,
        ],
    );
    let expected =
        Tensor::<Element>::new(vec![1, 3, 1, 2].into(), vec![99, 106, 88, 24, 116, 100]);

    let result = input.maxpool2d(2, 2);
    assert_eq!(result, expected, "Maxpool (Element) failed.");
}

#[test]
fn test_tensor_pad_maxpool2d() {
    let input = Tensor::<Element>::new(
        vec![1, 3, 4, 4].into(),
        vec![
            93, 56, -3, -1, 104, -68, -71, -96, 5, -16, 3, -8, 74, -34, -16, -31, -42, -59,
            -64, 70, -77, 19, -17, -114, 79, 55, 4, -26, -7, -17, -94, 21, 59, -116, -113, 47,
            8, 112, 65, -99, 35, 3, -126, -52, 28, 69, 105, 33,
        ],
    );
    let expected = Tensor::<Element>::new(
        vec![1, 3, 2, 2].into(),
        vec![104, -1, 74, 3, 19, 70, 79, 21, 112, 65, 69, 105],
    );

    let padded_expected = Tensor::<Element>::new(
        vec![1, 3, 4, 4].into(),
        vec![
            104, 104, -1, -1, 104, 104, -1, -1, 74, 74, 3, 3, 74, 74, 3, 3, 19, 19, 70, 70, 19,
            19, 70, 70, 79, 79, 21, 21, 79, 79, 21, 21, 112, 112, 65, 65, 112, 112, 65, 65, 69,
            69, 105, 105, 69, 69, 105, 105,
        ],
    );

    let (result, padded_result) = input.padded_maxpool2d();
    assert_eq!(result, expected, "Maxpool (Element) failed.");
    assert_eq!(
        padded_result, padded_expected,
        "Padded Maxpool (Element) failed."
    );
}

#[test]
fn test_pad_tensor_for_mle() {
    let input = Tensor::<Element>::new(
        vec![1, 3, 4, 4].into(),
        vec![
            93, 56, -3, -1, 104, -68, -71, -96, 5, -16, 3, -8, 74, -34, -16, -31, -42, -59,
            -64, 70, -77, 19, -17, -114, 79, 55, 4, -26, -7, -17, -94, 21, 59, -116, -113, 47,
            8, 112, 65, -99, 35, 3, -126, -52, 28, 69, 105, 33,
        ],
    );

    let padded = input.pad_next_power_of_two();

    padded
        .get_shape()
        .0
        .iter()
        .zip(input.get_shape().0.iter())
        .for_each(|(padded_dim, input_dim)| {
            assert_eq!(*padded_dim, input_dim.next_power_of_two())
        });

    let input_data = input.get_data();
    let padded_data = padded.get_data();
    for i in 0..1 {
        for j in 0..3 {
            for k in 0..4 {
                for l in 0..4 {
                    let index = 3 * 4 * 4 * i + 4 * 4 * j + 4 * k + l;
                    assert_eq!(input_data[index], padded_data[index]);
                }
            }
        }
    }
}

#[test]
fn test_tensor_pad() {
    let shape_a = Shape::from_it(&[3, 1, 1]);
    let tensor_a = Tensor::<Element>::new(shape_a.clone(), vec![1; shape_a.product()]);

    let shape_b = vec![4, 1, 1];
    let tensor_b = Tensor::<Element>::new(shape_b.clone().into(), vec![1, 1, 1, 0]);

    let tensor_c = tensor_a.pad_next_power_of_two();
    assert_eq!(tensor_b, tensor_c);

    // Here we test the generic padding
    let tensor_b = Tensor::<Element>::new(shape_b.into(), vec![1, 1, 1, 17]);

    let tensor_c = tensor_a.generic_pad_next_power_of_two(17);
    assert_eq!(tensor_b, tensor_c);
}

#[test]
fn test_tensor_pad_to_shape() {
    let shape = Shape::from_it(&[1]);
    let mut tensor = Tensor::<Element>::new(shape, vec![1]);
    let target = Shape::from_it(&[2]);
    let res = Tensor::<Element>::new(target.clone(), vec![1, 0]);
    tensor.pad_to_shape(target.clone());
    assert_eq!(tensor, res);

    let shape = Shape::from_it(&[2]);
    let mut tensor = Tensor::<Element>::new(shape, vec![1, 2]);
    let target = Shape::from_it(&[3]);
    let res = Tensor::<Element>::new(target.clone(), vec![1, 2, 0]);
    tensor.pad_to_shape(target.clone());
    assert_eq!(tensor, res);

    let shape = Shape::from_it(&[1, 1]);
    let mut tensor = Tensor::<Element>::new(shape, vec![1]);
    let target = Shape::from_it(&[2, 1]);
    let res = Tensor::<Element>::new(target.clone(), vec![1, 0]);
    tensor.pad_to_shape(target.clone());
    assert_eq!(tensor, res);

    let shape = Shape::from_it(&[1, 1]);
    let mut tensor = Tensor::<Element>::new(shape, vec![1]);
    let target = Shape::from_it(&[1, 2]);
    let res = Tensor::<Element>::new(target.clone(), vec![1, 0]);
    tensor.pad_to_shape(target.clone());
    assert_eq!(tensor, res);

    let shape = Shape::from_it(&[2, 2]);
    let mut tensor = Tensor::<Element>::new(shape, vec![1, 2, 3, 4]);
    let target = Shape::from_it(&[3, 3]);
    let res = Tensor::<Element>::new(target.clone(), vec![1, 2, 0, 3, 4, 0, 0, 0, 0]);
    tensor.pad_to_shape(target.clone());
    assert_eq!(tensor, res);

    let shape = Shape::from_it(&[3, 1, 1]);
    let mut tensor = Tensor::<Element>::new(shape.clone(), vec![1, 1, 1]);
    let target = Shape::from_it(&[3, 4, 4]);
    let res = Tensor::<Element>::new(
        target.clone(),

        vec![
            1, 0, 0, 0, 0, 0, 0, 0, 0, 0, 0, 0, 0, 0, 0, 0,
            1, 0, 0, 0, 0, 0, 0, 0, 0, 0, 0, 0, 0, 0, 0, 0,
            1, 0, 0, 0, 0, 0, 0, 0, 0, 0, 0, 0, 0, 0, 0, 0,
        ],
    );
    tensor.pad_to_shape(target);
    assert_eq!(tensor, res);

    let shape = Shape::from_it(&[3, 1, 3]);
    let mut tensor = Tensor::<Element>::new(shape.clone(), vec![1, 1, 1, 2, 2, 2, 3, 3, 3]);
    let target = Shape::from_it(&[3, 4, 4]);
    let res = Tensor::<Element>::new(
        target.clone(),

        vec![
            1, 1, 1, 0, 0, 0, 0, 0, 0, 0, 0, 0, 0, 0, 0, 0,
            2, 2, 2, 0, 0, 0, 0, 0, 0, 0, 0, 0, 0, 0, 0, 0,
            3, 3, 3, 0, 0, 0, 0, 0, 0, 0, 0, 0, 0, 0, 0, 0,
        ],
    );
    tensor.pad_to_shape(target);
    assert_eq!(tensor, res);

    let shape = Shape::from_it(&[3, 3, 1]);
    let mut tensor = Tensor::<Element>::new(shape.clone(), vec![1, 1, 1, 2, 2, 2, 3, 3, 3]);
    let target = Shape::from_it(&[3, 4, 4]);
    let res = Tensor::<Element>::new(
        target.clone(),
        vec![
            1, 0, 0, 0, 1, 0, 0, 0, 1, 0, 0, 0, 0, 0, 0, 0,
            2, 0, 0, 0, 2, 0, 0, 0, 2, 0, 0, 0, 0, 0, 0, 0,
            3, 0, 0, 0, 3, 0, 0, 0, 3, 0, 0, 0, 0, 0, 0, 0,
        ],
    );
    tensor.pad_to_shape(target);
    assert_eq!(tensor, res);

    let shape = Shape::from_it(&[1, 2, 1, 3]);
    let mut tensor = Tensor::<Element>::new(shape.clone(), vec![1, 1, 1, 2, 2, 2]);
    let target = Shape::from_it(&[2, 3, 5, 7]);
    let res = Tensor::<Element>::new(
        target.clone(),
        vec![
            // x=0 y=0
            1, 1, 1, 0, 0, 0, 0,
            0, 0, 0, 0, 0, 0, 0,
            0, 0, 0, 0, 0, 0, 0,
            0, 0, 0, 0, 0, 0, 0,
            0, 0, 0, 0, 0, 0, 0,

            // x=0 y=1
            2, 2, 2, 0, 0, 0, 0,
            0, 0, 0, 0, 0, 0, 0,
            0, 0, 0, 0, 0, 0, 0,
            0, 0, 0, 0, 0, 0, 0,
            0, 0, 0, 0, 0, 0, 0,

            // x=0 y=2
            0, 0, 0, 0, 0, 0, 0,
            0, 0, 0, 0, 0, 0, 0,
            0, 0, 0, 0, 0, 0, 0,
            0, 0, 0, 0, 0, 0, 0,
            0, 0, 0, 0, 0, 0, 0,

            // x=1 y=0
            0, 0, 0, 0, 0, 0, 0,
            0, 0, 0, 0, 0, 0, 0,
            0, 0, 0, 0, 0, 0, 0,
            0, 0, 0, 0, 0, 0, 0,
            0, 0, 0, 0, 0, 0, 0,

            // x=1 y=1
            0, 0, 0, 0, 0, 0, 0,
            0, 0, 0, 0, 0, 0, 0,
            0, 0, 0, 0, 0, 0, 0,
            0, 0, 0, 0, 0, 0, 0,
            0, 0, 0, 0, 0, 0, 0,

            // x=1 y=2
            0, 0, 0, 0, 0, 0, 0,
            0, 0, 0, 0, 0, 0, 0,
            0, 0, 0, 0, 0, 0, 0,
            0, 0, 0, 0, 0, 0, 0,
            0, 0, 0, 0, 0, 0, 0,
        ],
    );
    tensor.pad_to_shape(target);
    assert_eq!(tensor, res);
}

#[test]
fn test_tensor_conv2d() {
    let input = Tensor::<Element>::new(
        vec![1, 3, 3, 3].into(),
        vec![
            1, 2, 3, 4, 5, 6, 7, 8, 9, 9, 8, 7, 6, 5, 4, 3, 2, 1, 1, 1, 1, 2, 2, 2, 3, 3, 3,
        ],
    );

    let weights = Tensor::<Element>::new(
        vec![2, 3, 2, 2].into(),
        vec![
            1, 0, -1, 2, 0, 1, -1, 1, 1, -1, 0, 2, -1, 1, 2, 0, 1, 0, 2, -1, 0, -1, 1, 1,
        ],
    );

    let bias = Tensor::<Element>::new(vec![2].into(), vec![3, -3]);

    let expected = Tensor::<Element>::new(
        vec![1, 2, 2, 2].into(),
        vec![21, 22, 26, 27, 25, 25, 26, 26],
    );

    let result = input.conv2d(&weights, &bias, 1);
    assert_eq!(result, expected, "Conv2D (Element) failed.");
}

#[test]
fn test_tensor_minimal_conv2d() {
    // k_n,k_c,k_h,k_w
    let conv_shape = vec![2, 3, 3, 3].into();
    let conv = random(&conv_shape);
    // minimal input shape is 1,k_c,k_h,k_w
    let input_shape = vec![1, 3, 3, 3].into();
    let input = random(&input_shape);
    // minimal bias shape is k_n
    let bias = random(&vec![2].into());
    let output = input.conv2d(&conv, &bias, 1);
    assert_eq!(output.get_shape(), vec![1, 2, 1, 1].into());
}

/// Garbage does not reach the product, and the rows that padding adds give zero.
#[test]
fn added_rows_give_zero() {
    let (og, pad): (Shape, Shape) = (vec![2, 1, 3].into(), vec![2, 2, 4].into());
    let x = random(&og);
    let m = random(&vec![3, 6].into());
    let padded = m.pad_matrix_to_ignore_garbage(&og.0, &pad.0, &vec![5, 16].into());
    let mut garbage = vec![99; 16];
    for (c, w) in [(0, 0), (0, 1), (0, 2), (1, 0), (1, 1), (1, 2)] {
        garbage[c * 8 + w] = x.get_data()[c * 3 + w];
    }
    let product = padded.matvec(&Tensor::new(vec![16].into(), garbage));
    assert_eq!(product.get_data()[..3], m.matvec(&x.flatten()).get_data()[..]);
    assert_eq!(product.get_data()[3..], [0, 0]);
}

/// Padding to powers of two is padding to the least such shape, and changes nothing the second time.
#[test]
fn padding_to_powers_of_two_twice() {
    let t = random(&vec![3, 1, 6].into());
    let padded = t.pad_next_power_of_two();
    assert_eq!(padded.get_shape(), Shape::new(vec![4, 1, 8]));
    assert_eq!(padded.pad_next_power_of_two().get_data(), padded.get_data());
    let mut u = t.clone();
    u.pad_to_shape(vec![4, 1, 8].into());
    assert_eq!(u.get_data(), padded.get_data());
    assert_eq!(padded.crop_to(&t.get_shape()).get_data(), t.get_data());
    assert_eq!(t.crop_to(&t.get_shape()).get_data(), t.get_data());
}

#[test]
fn test_tensor_pad_matrix_to_ignore_garbage() {
    let old_shape: Shape = vec![2usize, 3, 3].into();
    let orows = 10usize;
    let ocols = old_shape.product();

    let new_shape: Shape = vec![3usize, 4, 4].into();
    let nrows = 12usize;
    let ncols = new_shape.product();

    let og_t = random(&old_shape);
    let og_flat_t = og_t.flatten(); // This is equivalent to conv2d output (flattened)

    let mut pad_t = og_t.clone();
    pad_t.pad_to_shape(new_shape.clone().into());
    let pad_flat_t = pad_t.flatten();

    let og_mat = random(&vec![orows, ocols].into()); // This is equivalent to the first dense matrix
    let og_result = og_mat.matvec(&og_flat_t);

    let pad_mat =
        og_mat.pad_matrix_to_ignore_garbage(&old_shape.0, &new_shape.0, &vec![nrows, ncols].into());
    let pad_result = pad_mat.matvec(&pad_flat_t);

    assert_eq!(
        og_result.get_data()[..orows],
        pad_result.get_data()[..orows],
        "Unable to get rid of garbage values from conv fft."
    );
}

#[test]
fn test_tensor_slice_2d() {
    let tensor = Tensor::<Element>::new(vec![3, 3].into(), vec![1, 2, 3, 4, 5, 6, 7, 8, 9]);
    let sliced = tensor.slice_2d(0, 2);
    assert_eq!(sliced.get_shape(), vec![2, 3].into());
    assert_eq!(sliced.get_data(), vec![1, 2, 3, 4, 5, 6]);
    let sliced = tensor.slice_2d(2, 3);
    assert_eq!(sliced.get_shape(), vec![1, 3].into());
    assert_eq!(sliced.get_data(), vec![7, 8, 9]);
}

#[test]
fn test_tensor_add_dim2() {
    let tensor = Tensor::<Element>::new(vec![2, 3].into(), vec![1, 2, 3, 4, 5, 6]);
    let vector = Tensor::<Element>::new(vec![3].into(), vec![10, 20, 30]);
    let result = tensor.add_dim2(&vector);
    assert_eq!(result.get_shape(), vec![2, 3].into());
    assert_eq!(result.get_data(), vec![11, 22, 33, 14, 25, 36]);
}

#[test]
fn test_tensor_concat() {
    let mut tensor = Tensor::<Element>::new(vec![2, 3].into(), vec![1, 2, 3, 4, 5, 6]);
    let vector = Tensor::<Element>::new(vec![3].into(), vec![10, 20, 30]);
    tensor.concat(vector);

    assert_eq!(tensor.get_shape(), vec![3, 3].into());
    assert_eq!(tensor.get_data(), vec![1, 2, 3, 4, 5, 6, 10, 20, 30]);

    let vector = Tensor::<Element>::new(vec![1, 3].into(), vec![66, 77, 88]);
    tensor.concat(vector);
    assert_eq!(tensor.get_shape(), vec![4, 3].into());
    assert_eq!(
        tensor.get_data(),
        vec![1, 2, 3, 4, 5, 6, 10, 20, 30, 66, 77, 88]
    );
}

#[test]
fn test_tensor_get() {
    let tensor = Tensor::<Element>::new(
        vec![2, 3, 3].into(),
        vec![
            1, 2, 3, 4, 5, 6, 7, 8, 9, 10, 11, 12, 13, 14, 15, 16, 17, 18,
        ],
    );
    // 2 + 2 * 3 + 1 * 3 * 3 = 17
    assert_eq!(tensor.get(vec![1, 2, 2]), tensor.data[17]);
}

#[test]
fn test_tensor_permute3d() {
    let tensor = Tensor::<Element>::new(
        vec![2, 3, 3].into(),
        vec![
            1, 2, 3, 4, 5, 6, 7, 8, 9, 10, 11, 12, 13, 14, 15, 16, 17, 18,
        ],
    );
    // i,j,k --> j,i,k -> new shape = 3,2,3
    let permuted = tensor.permute3d(&[1, 0, 2]);
    assert_eq!(permuted.get_shape(), vec![3, 2, 3].into());
    for i in 0..2 {
        for j in 0..3 {
            for k in 0..3 {
                let [new_i, new_j, new_k] = [j, i, k];
                let expected = tensor.get(vec![i, j, k]);
                let given = permuted.get(vec![new_i, new_j, new_k]);
                assert_eq!(expected, given);
            }
        }
    }

    let tensor = random(&vec![18, 5, 27].into());
    let permuted = tensor.permute3d(&vec![1, 2, 0]);
    assert_eq!(permuted.get_shape(), vec![5, 27, 18].into())
}

#[test]
fn test_tensor_slice_3d() {
    let tensor = Tensor::<Element>::new(
        vec![3, 2, 2].into(),
        vec![1, 2, 3, 4, 5, 6, 7, 8, 9, 10, 11, 12],
    );
    let sliced = tensor.slice_3d(1, 3);
    assert_eq!(sliced.get_data(), vec![5, 6, 7, 8, 9, 10, 11, 12]);
    assert_eq!(sliced.get_shape(), vec![2, 2, 2].into());
}

#[test]
fn test_tensor_slices_last_dim() {
    let tensor = Tensor::<Element>::new(
        vec![2, 3, 3].into(),
        vec![
            1, 2, 3, 4, 5, 6, 7, 8, 9, 10, 11, 12, 13, 14, 15, 16, 17, 18,
        ],
    );

    let mut slices = tensor.slice_last_dim().into_iter();

    // First slice
    assert_eq!(slices.next().unwrap(), &[1, 2, 3]);
    // Second slice
    assert_eq!(slices.next().unwrap(), &[4, 5, 6]);
    // Third slice
    assert_eq!(slices.next().unwrap(), &[7, 8, 9]);
    // Fourth slice
    assert_eq!(slices.next().unwrap(), &[10, 11, 12]);
    // Fifth slice
    assert_eq!(slices.next().unwrap(), &[13, 14, 15]);
    // Sixth slice
    assert_eq!(slices.next().unwrap(), &[16, 17, 18]);
    // No more slices
    assert_eq!(slices.next(), None);
}

#[test]
fn test_tensor_slice_on_dim() {
    let tensor = Tensor::<Element>::new(
        vec![2, 3, 3].into(),
        vec![
            1, 2, 3, 4, 5, 6, 7, 8, 9, 10, 11, 12, 13, 14, 15, 16, 17, 18,
        ],
    );
    let (slices, shape) = tensor.slice_on_dim(1);
    let mut slices = slices.into_iter();
    assert_eq!(shape, Shape(vec![3]));
    assert_eq!(slices.next().unwrap(), &[1, 2, 3]);
    assert_eq!(slices.next().unwrap(), &[4, 5, 6]);
    assert_eq!(slices.next().unwrap(), &[7, 8, 9]);
    assert_eq!(slices.next().unwrap(), &[10, 11, 12]);
    assert_eq!(slices.next().unwrap(), &[13, 14, 15]);
    assert_eq!(slices.next().unwrap(), &[16, 17, 18]);
    assert_eq!(slices.next(), None);

    let (slices, shape) = tensor.slice_on_dim(0);
    let mut slices = slices.into_iter();
    assert_eq!(shape, Shape(vec![3, 3]));
    assert_eq!(slices.next().unwrap(), &[1, 2, 3, 4, 5, 6, 7, 8, 9]);
    assert_eq!(
        slices.next().unwrap(),
        &[10, 11, 12, 13, 14, 15, 16, 17, 18]
    );
    assert_eq!(slices.next(), None);

    let (slices, shape) = tensor.slice_on_dim(2);
    assert_eq!(shape, tensor.get_shape());
    let data = slices.into_iter().flatten().cloned().collect::<Vec<_>>();
    assert_eq!(
        data,
        vec![
            1, 2, 3, 4, 5, 6, 7, 8, 9, 10, 11, 12, 13, 14, 15, 16, 17, 18
        ]
    );
}

#[test]
fn test_shape() {
    let shape = Shape(vec![2, 3, 4]);
    let permuted = shape.permute(&[1, 0, 2]);
    assert_eq!(permuted.0, vec![3, 2, 4]);
}

#[test]
fn test_tensor_argmax() {
    let tensor = Tensor::<Element>::new(vec![3].into(), vec![1, 2, 3]);
    let argmax = tensor.argmax();
    assert_eq!(argmax, 2);
}

#[test]
fn test_tensor_stack_all() {
    let tensors = vec![
        Tensor::<Element>::new(vec![2, 3].into(), vec![1, 2, 3, 4, 5, 6]),
        Tensor::<Element>::new(vec![2, 3].into(), vec![7, 8, 9, 10, 11, 12]),
    ];
    let stacked = Tensor::<Element>::stack_all(tensors.clone()).unwrap();
    assert_eq!(stacked.get_shape(), vec![4, 3].into());
    assert_eq!(
        stacked.get_data(),
        vec![1, 2, 3, 4, 5, 6, 7, 8, 9, 10, 11, 12]
    );

    let stacked =
        Tensor::<Element>::stack_all(tensors.into_iter().map(|t| t.unsqueeze(0)).collect()).unwrap();
    assert_eq!(stacked.get_shape(), vec![2, 2, 3].into());
    assert_eq!(
        stacked.get_data(),
        vec![1, 2, 3, 4, 5, 6, 7, 8, 9, 10, 11, 12]
    );
}

#[test]
fn test_tril() {
    // Test diag = 0
    let tensor = Tensor::<Element>::tril(4, 1, 0);
    let real_value: Vec<Element> = vec![1, 0, 0, 0, 1, 1, 0, 0, 1, 1, 1, 0, 1, 1, 1, 1];
    assert_eq!(tensor.get_data(), real_value);
    // Test diag = 1
    let tensor = Tensor::<Element>::tril(4, 1, 1);
    let real_value: Vec<Element> = vec![1, 1, 0, 0, 1, 1, 1, 0, 1, 1, 1, 1, 1, 1, 1, 1];
    assert_eq!(tensor.get_data(), real_value);
    // Test diag = -1
    let tensor = Tensor::<Element>::tril(4, 1, -1);
    let real_value: Vec<Element> = vec![0, 0, 0, 0, 1, 0, 0, 0, 1, 1, 0, 0, 1, 1, 1, 0];
    assert_eq!(tensor.get_data(), real_value);
}

#[test]
fn test_expand() {
    for dim in 1usize..11 {
        let initial_shape: Shape = vec![dim].into();

        let tensor = Tensor::<f32>::new(
            initial_shape.clone(),
            random(&initial_shape).data.iter().map(|x| *x as f32 / 127.0).collect(),
        );
        let data = tensor.get_data().to_vec();
        let expanded_shape: Shape = vec![7, dim].into();

        let expanded_tensor_res = tensor.expand(&expanded_shape);

        // Check the result is OK
        assert!(
            expanded_tensor_res.is_ok(),
            "error: {:?}",
            expanded_tensor_res
        );

        // Now check that the data is correct
        let expanded_tensor = expanded_tensor_res.unwrap();
        // We expect the tensor to have repeated each element 7 times
        let correct_data = vec![data; 7].concat();

        assert_eq!(expanded_tensor.data, correct_data);
    }

    // Now we check it expands along dimensions properly
    let shape: Shape = vec![3, 1, 2].into();
    let data = vec![
        1.0, 2.0,

        3.0, 4.0,

        5.0, 6.0];

    let expansion_shape: Shape = vec![3, 3, 2].into();
    let expansion_data = vec![
        1.0, 2.0,
        1.0, 2.0,
        1.0, 2.0,

        3.0, 4.0,
        3.0, 4.0,
        3.0, 4.0,

        5.0, 6.0,
        5.0, 6.0,
        5.0, 6.0,
    ];

    let expanded_tensor = Tensor::<f64>::new(shape, data.clone())
        .expand(&expansion_shape)
        .unwrap();
    assert_eq!(expanded_tensor.data, expansion_data);
}

#[test]
fn test_tensor_next_pow_of_two() {
    let shape: Shape = vec![3usize, 3].into();
    let mat = Tensor::<Element>::random_seed(&shape, Some(213), 0, -127, 127);
    let new_shape = vec![shape.0[0].next_power_of_two(), shape.0[1].next_power_of_two()];
    let new_mat = mat.pad_next_power_of_two();
    assert_eq!(
        new_mat.get_shape(),
        new_shape.into(),
        "Matrix padding to next power of two failed."
    );
}

fn eval_lteq_poly(x_i: &[Element], y_i: &[Element]) -> Element {
    assert_eq!(x_i.len(), y_i.len());
    x_i.iter()
        .rev()
        .zip(y_i.iter().rev())
        .fold(1, |acc, (x, y)| acc * (1 - x - y + 2 * x * y) + (1 - x) * y)
}

fn eval_mle(point: &[GoldilocksExt2]) -> GoldilocksExt2 {
    let one = GoldilocksExt2::one();
    let two = one.plus(&one);
    let x_i = &point[..point.len() / 2];
    let y_i = &point[point.len() / 2..];
    x_i.iter().zip(y_i.iter()).fold(one, |acc, (x, y)| {
        let same = one.minus(x).minus(y).plus(&two.times(x).times(y));
        acc.times(&same).plus(&one.minus(x).times(y))
    })
}

fn to_be_bits<const NUM_BITS: usize>(x: Element) -> Vec<Element> {
    (0..NUM_BITS).rev().map(|i| (x >> i) & 1).collect()
}

#[test]
fn tensor_test_zeroifier_evaluation() {
    const NUM_BITS: usize = 4;
    let num_columns: usize = 1 << NUM_BITS;
    let zeroifier_data: Vec<Element> = (0..num_columns * num_columns)
        .map(|i| {
            let r = i / num_columns;
            let c = i % num_columns;
            if r >= c {
                1
            } else {
                0
            }
        })
        .collect();
    println!("Data: {zeroifier_data:?}");
    let zeroifier = Tensor::new(vec![num_columns, num_columns].into(), zeroifier_data);
    let get_2d = |i: usize, j: usize| -> Element { zeroifier.get(vec![i, j]) };
    assert_eq!(get_2d(0, 0), 1);
    assert_eq!(get_2d(num_columns - 1, num_columns - 1), 1);
    assert_eq!(get_2d(0, 1), 0);
    assert_eq!(get_2d(1, 1), 1);
    assert_eq!(get_2d(1, 2), 0);

    let mle = zeroifier.to_2d_mle();

    for i in 0..num_columns {
        for j in 0..num_columns {
            let x_i = to_be_bits::<NUM_BITS>(i as Element);
            let y_i = to_be_bits::<NUM_BITS>(j as Element);
            let cmp = eval_lteq_poly(&y_i, &x_i);
            assert_eq!(get_2d(i, j), cmp, "Zeroifier evaluation failed for ({}, {})", i, j);
            // the bits of the column, lowest first, then those of the row
            let point: Vec<GoldilocksExt2> = y_i
                .into_iter()
                .rev()
                .chain(x_i.into_iter().rev())
                .map(|bit| GoldilocksExt2::from_canonical_u64(bit as u64))
                .collect();
            let eval = mle.evaluate(&point);
            assert_eq!(eval, GoldilocksExt2::from_canonical_u64(cmp as u64));
            let quick_eval = eval_mle(&point);
            assert_eq!(eval, quick_eval);
        }
    }

    for k in 0..10u64 {
        let point: Vec<GoldilocksExt2> = (0..2 * NUM_BITS as u64)
            .map(|i| GoldilocksExt2::from_bases((k * 977 + i * 7919) << 20, (k + 3) * (i + 11) * 104_729))
            .collect();
        assert_eq!(mle.evaluate(&point), eval_mle(&point));
    }
}

#[test]
fn test_tensor_mle() {
    let mat = random(&vec![3, 5].into());
    let shape = mat.get_shape();
    let mat = mat.pad_next_power_of_two();
    println!("matrix {:?}", mat);
    for chosen_row in 0..shape.0[0] {
        for chosen_col in 0..shape.0[1] {
            let mut mle = mat.to_2d_mle();
            let elem = mat.get(vec![chosen_row, chosen_col]);
            let elem_field = to_field(elem);
            println!("(x,y) = ({},{}) ==> {:?}", chosen_row, chosen_col, elem);
            let inputs = mat.position_to_boolean_2d(chosen_row, chosen_col);
            let output = mle.evaluate(&inputs);
            assert_eq!(elem_field, output);

            // one at a time, starting with the row, whose variables are the high ones
            let row_input = mat.row_to_boolean_2d(chosen_row);
            mle.fix_high_variables_in_place(&row_input);
            let col_input = mat.col_to_boolean_2d(chosen_col);
            let output = mle.evaluate(&col_input);
            assert_eq!(elem_field, output);
        }
    }
}

/// Cropping a padded tensor, and permuting a permuted one back, give the tensor back.
#[test]
fn tensors_come_back() {
    let t: Tensor<Element> = Tensor::new(vec![2, 3, 5].into(), (0..30).collect());
    let padded = t.pad_next_power_of_two();
    assert_eq!(padded.get_shape(), Shape::new(vec![2, 4, 8]));
    assert_ne!(padded.get_data(), t.get_data());
    let cropped = padded.crop_to(&t.get_shape());
    assert_eq!(cropped.get_shape(), t.get_shape());
    assert_eq!(cropped.get_data(), t.get_data());

    let permuted = t.permute3d(&[2, 0, 1]);
    assert_eq!(permuted.get_shape(), Shape::new(vec![5, 2, 3]));
    assert_ne!(permuted.get_data(), t.get_data());
    let back = permuted.permute3d(&[1, 2, 0]);
    assert_eq!(back.get_shape(), t.get_shape());
    assert_eq!(back.get_data(), t.get_data());
}

/// From the last dimension on there is one slice, the whole tensor.
#[test]
fn slices_beyond_the_last_dimension() {
    let t: Tensor<Element> = Tensor::new(vec![2, 3].into(), (0..6).collect());
    for dim in [1, 2, 7] {
        let (slices, shape) = t.slice_on_dim(dim);
        assert_eq!(shape, t.get_shape());
        assert_eq!(slices, vec![t.get_data()]);
    }
    let (slices, shape) = t.slice_on_dim(0);
    assert_eq!(shape, Shape::new(vec![3]));
    assert_eq!(slices, vec![&[0, 1, 2], &[3, 4, 5]]);
}
