//! The field, Fourier transforms and multilinear extensions, and shapes: exact values and laws on examples.
use zkml::fft::{fft, get_root_of_unity};
use zkml::field::{to_element, to_field, GoldilocksExt2};
use zkml::layers::convolution::shapes::{conv2d_shape_mode, conv2d_shape_with_padding_and_stride};
use zkml::layers::convolution::Convolution;
use zkml::mle::{compute_betas_eval, evaluate, identity_eval, to_bits};
use zkml::number::Element;
use zkml::padding::PaddingMode;
use zkml::shape::{get_broadcasted_shape, BroadcastError, Shape};
use zkml::tensor::slicing::TensorSlice;
use zkml::tensor::{Tensor, TensorError};

const P: u64 = 0xFFFF_FFFF_0000_0001;

fn f(n: u64) -> GoldilocksExt2 {
    GoldilocksExt2::from_canonical_u64(n)
}

#[test]
fn arithmetic_of_the_field() {
    let a = GoldilocksExt2::from_bases(3, 5);
    let b = GoldilocksExt2::from_bases(P - 1, 2);
    assert_eq!(a.plus(&b).to_canonical_u64_vec(), (2, 7));
    assert_eq!(a.minus(&b).to_canonical_u64_vec(), (4, 3));
    // (3 + 5 X) (-1 + 2 X) with X * X = 7
    assert_eq!(a.times(&b).to_canonical_u64_vec(), (67, 1));
    assert_eq!(a.times(&a.inverse()), GoldilocksExt2::one());
    assert_eq!(f(2).inverse().to_canonical_u64_vec(), ((P + 1) / 2, 0));
    assert_eq!(GoldilocksExt2::two_adic_generator().to_canonical_u64_vec(), (1753635133440165772, 0));
}

/// Quantised values survive the way into the field and back.
#[test]
fn quantised_values_in_the_field() {
    for e in [0, 1, -1, 127, -128, i64::from(i32::MAX), -(1 << 62)] {
        assert_eq!(to_element(&to_field(e)), e);
    }
    assert_eq!(to_field(-1).to_canonical_u64_vec(), (P - 1, 0));
}

/// The inverse transform undoes the transform, which is the sum over the powers of the root.
#[test]
fn transforms() {
    let v: Vec<GoldilocksExt2> = (0..8).map(|i| GoldilocksExt2::from_bases(i * i + 1, 7 * i)).collect();
    let mut w = v.clone();
    fft(&mut w, false);
    let root = get_root_of_unity(3);
    let mut power = GoldilocksExt2::one();
    for k in 0..8 {
        let mut sum = GoldilocksExt2::zero();
        let mut x = GoldilocksExt2::one();
        for e in &v {
            sum = sum.plus(&e.times(&x));
            x = x.times(&power);
        }
        assert_eq!(w[k], sum);
        power = power.times(&root);
    }
    assert_eq!(power, GoldilocksExt2::one());
    fft(&mut w, true);
    assert_eq!(w, v);
}

#[test]
fn extensions() {
    let table: Vec<GoldilocksExt2> = (10..18).map(f).collect();
    for i in 0..8 {
        assert_eq!(evaluate(&table, &to_bits(i, 3)), table[i]);
    }
    // 10 + x + 2 y + 4 z
    assert_eq!(evaluate(&table, &[f(5), f(6), f(7)]), f(55));
    let p = [f(5), f(6), f(7)];
    let betas = compute_betas_eval(&p);
    for i in 0..8 {
        assert_eq!(betas[i], identity_eval(&p, &to_bits(i, 3)));
    }
    let q = [f(2), f(9), f(4)];
    assert_eq!(evaluate(&betas, &q), identity_eval(&q, &p));
    assert_eq!(identity_eval(&p, &q), identity_eval(&q, &p));
}

#[test]
fn broadcasting() {
    let shape = |d: &[usize]| Shape::new(d.to_vec());
    assert_eq!(get_broadcasted_shape(&shape(&[3, 1, 5]), &shape(&[4, 1])).unwrap(), shape(&[3, 4, 5]));
    assert_eq!(get_broadcasted_shape(&shape(&[4, 1]), &shape(&[3, 1, 5])).unwrap(), shape(&[3, 4, 5]));
    assert_eq!(get_broadcasted_shape(&shape(&[3, 4, 5]), &shape(&[4, 1])).unwrap(), shape(&[3, 4, 5]));
    assert_eq!(get_broadcasted_shape(&shape(&[2]), &shape(&[1])).unwrap(), shape(&[2]));
    let e: BroadcastError = get_broadcasted_shape(&shape(&[3, 4]), &shape(&[2, 4])).unwrap_err();
    assert_eq!((e.a, e.b, e.index), (3, 2, 0));
}

#[test]
fn shapes() {
    let s = Shape::new(vec![3, 5, 2]);
    assert_eq!(s.numel(), 30);
    assert_eq!(s.strides(), vec![10, 2, 1]);
    assert_eq!(s.permute(&[2, 0, 1]).into_vec(), vec![2, 3, 5]);
    assert_eq!(s.next_power_of_two().into_vec(), vec![4, 8, 2]);
    assert_eq!(s.unsqueeze(1).into_vec(), vec![3, 1, 5, 2]);
    assert_eq!(s.insert(0, 9).into_vec(), vec![9, 3, 5, 2]);
    assert_eq!(s.concat(&Shape::new(vec![7])).into_vec(), vec![3, 5, 2, 7]);
    let input: Shape = vec![1, 9, 9].into();
    let filter: Shape = vec![3, 1, 4, 4].into();
    assert_eq!(conv2d_shape_mode(&input, &filter, PaddingMode::NoPadding).into_vec(), vec![3, 6, 6]);
    assert_eq!(conv2d_shape_mode(&input, &filter, PaddingMode::Padding).into_vec(), vec![4, 8, 8]);
    // every second line of (9 + 2 - 4 + 1)
    assert_eq!(
        conv2d_shape_with_padding_and_stride(&input, &filter, 1, 1, 2, 2).into_vec(),
        vec![3, 4, 4]
    );
}

#[test]
fn bits_of_products() {
    let m: Tensor<Element> = Tensor::zeros(vec![3, 5].into());
    // two values of eight bits with sign, and five products
    assert_eq!(m.matmul_output_bitsize(None, None, 8), 7 + 7 + 3 + 1);
    assert_eq!(m.matmul_output_bitsize(Some(256), None, 8), 8 + 7 + 3 + 1);
    let conv = Convolution::<Element>::new_without_bias(Tensor::zeros(vec![2, 3, 3, 3].into()));
    assert_eq!(conv.bias.get_data(), &[0, 0]);
    // twenty-seven products, and the bias
    assert_eq!(conv.output_bitsize(8), 14 + 5);
    assert_eq!(conv.output_range(-128, 127, 8), (-(1 << 21), 1 << 21));
}

#[test]
fn entries_of_tensors() {
    let t: Tensor<Element> = Tensor::new(vec![2, 3].into(), vec![4, -9, 2, 7, 7, 0]);
    assert_eq!(t.max_value(), 7);
    assert_eq!(t.min_value(), -9);
    assert_eq!(t.max_abs_output(), 9);
    assert_eq!(t.argmax(), 3);
    assert!(t.is_matrix() && !t.is_vector() && !t.is_convolution());
    assert!(Tensor::<Element>::new_from_shape(vec![1, 3].into()).is_vector());
    assert_eq!(t.get_input_shape(), Shape::new(vec![0]));
    let fields: Vec<GoldilocksExt2> = t.get_data().iter().map(|x| to_field(*x)).collect();
    assert_eq!(t.evals_2d(), fields);
    assert_eq!(t.get_conv_weights(), fields);
    let slice = TensorSlice::from_tensor(&t);
    assert_eq!(slice.get_shape(), t.get_shape());
    let row = slice.slice_over_first_dim(1, 2);
    assert_eq!(row.get_data(), &[7, 7, 0]);
    assert_eq!(row.get_shape(), Shape::new(vec![1, 3]));
    let halved = t.try_map(|x| if *x == 0 { Err("zero") } else { Ok(*x / 2) });
    assert_eq!(halved.unwrap_err(), "zero");
    let negated: Result<Tensor<Element>, ()> = t.try_map(|x| Ok(-*x));
    assert_eq!(negated.unwrap().get_data(), &[-4, 9, -2, -7, -7, 0]);
}

#[test]
fn tensors_that_cannot_be_built() {
    let ragged = Tensor::matrix_from_coeffs(vec![vec![1, 2], vec![3]]);
    assert_eq!(ragged.unwrap_err(), TensorError::RaggedMatrix);
    let m: Tensor<Element> = Tensor::matrix_from_coeffs(vec![vec![1, 2], vec![3, 4]]).unwrap();
    assert_eq!(m.get_shape(), Shape::new(vec![2, 2]));
    assert_eq!(m.expand(&vec![2].into()).unwrap_err(), TensorError::RankTooSmall);
    assert_eq!(m.expand(&vec![0, 2, 2].into()).unwrap_err(), TensorError::ZeroDimension);
    assert_eq!(m.expand(&vec![2, 3].into()).unwrap_err(), TensorError::IncompatibleDimension);
    assert_eq!(
        m.expand(&vec![2, 2, 2].into()).unwrap().get_data(),
        &[1, 2, 3, 4, 1, 2, 3, 4]
    );
    assert_eq!(Tensor::<Element>::stack_all(vec![]).unwrap_err(), TensorError::NothingToStack);
}

/// Transposing twice gives the matrix back.
#[test]
fn transposing_twice() {
    let t: Tensor<Element> = Tensor::new(vec![2, 3].into(), vec![1, 2, 3, 4, 5, 6]);
    assert_eq!(t.transpose().get_data(), &[1, 4, 2, 5, 3, 6]);
    assert_eq!(t.transpose().transpose(), t);
}

/// The filter of a convolution by Fourier transform: its weights, laid out for every kernel.
#[test]
fn filters_for_the_transform() {
    let data: Vec<Element> = (1..=8).collect();
    let conv = Tensor::new_conv(vec![1, 2, 2, 2].into(), vec![2, 5, 5].into(), data.clone());
    assert_eq!(conv.get_shape(), Shape::new(vec![1, 2, 4, 4]));
    assert_eq!(conv.real_shape(), Shape::new(vec![1, 2, 2, 2]));
    let weights = conv.get_real_weights();
    assert_eq!(weights.len(), 1);
    assert_eq!(weights[0].len(), 2);
    assert_eq!(&weights[0][1][..5], &[5, 6, 7, 8, 0]);
}

/// Weights that are transforms already: with the transform of one, the input comes back.
#[test]
fn weights_that_are_transforms() {
    let x = Tensor::new(vec![1, 2, 2].into(), vec![3, -1, 4, 2]);
    let w: Tensor<Element> = Tensor::new(vec![1, 8].into(), vec![1; 8]);
    let (out, data) = w.fft_conv_old(&x);
    assert_eq!(out.get_data(), x.get_data());
    assert_eq!(out.get_shape(), Shape::new(vec![1, 2, 2]));
    assert_eq!(data.output_as_element, vec![3, -1, 4, 2]);
}
