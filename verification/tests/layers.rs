//! Layers, their contexts and proofs: names and kinds.
use zkml::field::GoldilocksExt2;
use zkml::layers::convolution::schoolbook::SchoolBookConv;
use zkml::layers::convolution::Convolution;
use zkml::layers::pooling::{GlobalAvgPool2D, Maxpool2D, PoolKind, Pooling, PoolingCtx, MAXPOOL2D_KERNEL_SIZE};
use zkml::layers::{Layer, LayerCtx, LayerError, LayerProof, LookupFractions};
use zkml::number::Element;
use zkml::layers::transformer::mha::Mha;
use zkml::padding::model::Node;
use zkml::padding::qkv::QKV;
use zkml::padding::weights::{Dense, MatMul, OperandMatrix};
use zkml::padding::PaddingMode;
use zkml::shape::Shape;
use zkml::tensor::Tensor;

fn conv() -> Convolution<Element> {
    Convolution::new(Tensor::zeros(vec![2, 1, 3, 3].into()), Tensor::zeros(vec![2].into()))
}

fn pooling_ctx() -> PoolingCtx {
    PoolingCtx { pool_kind: PoolKind::MaxPool(Maxpool2D::default()), node_id: 2, num_vars: 5 }
}

fn zeros(shape: Vec<usize>) -> Tensor<Element> {
    Tensor::zeros(shape.into())
}

fn dense() -> Dense<Element> {
    Dense { matrix: zeros(vec![2, 3]), bias: zeros(vec![2]) }
}

fn matmul() -> MatMul<Element> {
    MatMul {
        left_matrix: OperandMatrix::Input,
        right_matrix: OperandMatrix::Weight(zeros(vec![3, 2])),
        bias: None,
        right_transposed: false,
    }
}

fn qkv() -> QKV<Element> {
    let (w, b) = (|| zeros(vec![5, 8]), || zeros(vec![8]));
    QKV { q: w(), k: w(), v: w(), q_bias: b(), k_bias: b(), v_bias: b(), num_heads: 2, head_dim: 4 }
}

fn layers() -> Vec<Layer<Element>> {
    let mha = Mha::new(4, 2, 4);
    let product = Mha::new(4, 2, 4).qk;
    vec![
        Layer::Dense(dense()),
        Layer::MatMul(matmul()),
        Layer::Convolution(conv()),
        Layer::SchoolBookConvolution(SchoolBookConv(conv())),
        Layer::Activation,
        Layer::Requant,
        Layer::Pooling(Pooling::Maxpool2D(Maxpool2D::default())),
        Layer::Flatten,
        Layer::QKV(qkv()),
        Layer::Mha(mha),
        Layer::ConcatMatMul(product),
        Layer::LayerNorm,
        Layer::Softmax,
        Layer::Add,
        Layer::Reshape,
        Layer::Embeddings,
        Layer::Positional,
        Layer::Logits,
    ]
}

#[test]
fn names_of_layers() {
    let names: Vec<&str> = layers().iter().map(|l| l.as_kind_str()).collect();
    assert_eq!(
        names,
        vec![
            "dense",
            "mat-mul",
            "convolution",
            "school-book-convolution",
            "activation",
            "requant",
            "pooling",
            "flatten",
            "qkv",
            "mha-qk",
            "concat-mat-mul",
            "layer-norm",
            "softmax",
            "add",
            "reshape",
            "embeddings",
            "positional",
            "logits"
        ]
    );
    assert_eq!(LayerCtx::Pooling(pooling_ctx()).variant_name(), "Pooling");
    assert_eq!(LayerCtx::QKV.variant_name(), "QKV");
    assert_eq!(LayerProof::MatMul.variant_name(), "Matmul");
    assert_eq!(LayerProof::Dummy.variant_name(), "Dummy");
}

#[test]
fn layers_without_proof() {
    let unproved: Vec<&str> = vec!["school-book-convolution", "flatten", "reshape"];
    for l in layers() {
        let provable = !unproved.contains(&l.as_kind_str());
        assert_eq!(l.is_provable(), provable);
        let node = Node { inputs: vec![], outputs: vec![], operation: l };
        assert_eq!(node.is_provable(), provable);
    }
    assert!(!LayerCtx::Table.has_proof());
    assert!(!LayerCtx::Flatten.has_proof());
    assert!(LayerCtx::Dense.has_proof());
}

#[test]
fn layers_that_keep_the_scaling() {
    let kept: Vec<&str> = vec!["activation", "requant", "pooling", "flatten", "reshape"];
    for l in layers() {
        assert_eq!(l.keeps_scaling(), kept.contains(&l.as_kind_str()));
    }
}

/// A layer that is proved with a context is provable.
#[test]
fn contexts_of_layers() {
    let contexts = vec![
        LayerCtx::Dense,
        LayerCtx::MatMul,
        LayerCtx::Activation,
        LayerCtx::Requant,
        LayerCtx::Pooling(pooling_ctx()),
        LayerCtx::Table,
        LayerCtx::QKV,
        LayerCtx::Mha,
        LayerCtx::ConcatMatMul,
        LayerCtx::LayerNorm,
        LayerCtx::Add,
        LayerCtx::Softmax,
        LayerCtx::Reshape,
        LayerCtx::Embeddings,
        LayerCtx::Positional,
        LayerCtx::Logits,
    ];
    let mut proved = 0;
    for l in layers() {
        for c in &contexts {
            match l.check_ctx(c) {
                Ok(()) => {
                    proved += 1;
                    assert!(l.is_provable());
                }
                Err(e) => assert_eq!(e, LayerError::Incompatible),
            }
        }
    }
    assert_eq!(proved, 14);
}

#[test]
fn shapes_of_steps() {
    let s = |d: Vec<usize>| -> Vec<Shape> { vec![d.into()] };
    let first = LayerCtx::shape_step(&s(vec![3]), &s(vec![4]), s(vec![5]), s(vec![8]));
    assert_eq!(first.unpadded_input_shape, s(vec![3]));
    assert_eq!(first.padded_input_shape, s(vec![4]));
    assert_eq!(first.unpadded_output_shape, s(vec![5]));
    assert_eq!(first.padded_output_shape, s(vec![8]));
    let next = LayerCtx::next_shape_step(&first, s(vec![6]), s(vec![8]));
    assert_eq!(next.unpadded_input_shape, s(vec![5]));
    assert_eq!(next.padded_input_shape, s(vec![8]));
    assert_eq!(next.unpadded_output_shape, s(vec![6]));
}

#[test]
fn lookup_data_of_proofs() {
    let f = |n: u64| GoldilocksExt2::from_canonical_u64(n);
    let fractions = |n: u64| LookupFractions { numerators: vec![f(n)], denominators: vec![f(n + 1), f(n + 2)] };
    assert!(LayerProof::Dense.get_lookup_data().is_none());
    assert!(LayerProof::Pooling(None).get_lookup_data().is_none());
    assert_eq!(
        LayerProof::Pooling(Some(fractions(1))).get_lookup_data(),
        Some((vec![f(1)], vec![f(2), f(3)]))
    );
    assert_eq!(
        LayerProof::Softmax(fractions(7)).get_lookup_data(),
        Some((vec![f(7)], vec![f(8), f(9)]))
    );
    // the fractions of the clamping come first
    assert_eq!(
        LayerProof::Requant(fractions(1), fractions(10)).get_lookup_data(),
        Some((vec![f(1), f(10)], vec![f(2), f(3), f(11), f(12)]))
    );
}

#[test]
fn output_shapes_of_pooling() {
    assert_eq!(MAXPOOL2D_KERNEL_SIZE, 2);
    let max = Pooling::Maxpool2D(Maxpool2D::default());
    let avg = Pooling::GlobalAvgPool2D(GlobalAvgPool2D::new(48));
    let inputs: Vec<Shape> = vec![vec![3, 6, 6].into()];
    assert_eq!(max.output_shapes(&inputs, PaddingMode::NoPadding), vec![Shape::new(vec![3, 3, 3])]);
    assert_eq!(avg.output_shapes(&inputs, PaddingMode::NoPadding), vec![Shape::new(vec![3, 1, 1])]);
    // the lines and the columns are halved apart
    let wide: Vec<Shape> = vec![vec![1, 4, 6].into()];
    assert_eq!(max.output_shapes(&wide, PaddingMode::NoPadding), vec![Shape::new(vec![1, 2, 3])]);
    assert_eq!(pooling_ctx().output_shape(&wide[0]), Shape::new(vec![1, 2, 3]));
    assert_eq!(max.op(&Tensor::zeros(wide[0].clone())).get_shape(), Shape::new(vec![1, 2, 3]));
    assert!(max.is_provable() && avg.is_provable());
    assert_eq!(Pooling::num_outputs(1), 1);
    let ctx = pooling_ctx();
    assert_eq!(ctx.output_shapes(&inputs, PaddingMode::NoPadding), vec![Shape::new(vec![3, 3, 3])]);
    assert!(ctx.is_provable());
}

/// An average is rounded towards zero.
#[test]
fn average_of_planes() {
    let input = Tensor::new(vec![3, 1, 3].into(), vec![1, 2, 2, -1, -2, -2, 7, -4, 0]);
    let avg = Pooling::GlobalAvgPool2D(GlobalAvgPool2D::new(3));
    let output = avg.op(&input);
    assert_eq!(output.get_shape(), Shape::new(vec![3, 1, 1]));
    assert_eq!(output.get_data(), &[1, -1, 1]);
    assert_eq!(avg.evaluate(&vec![input.clone()]).unwrap().get_data(), &[1, -1, 1]);
    assert_eq!(avg.evaluate(&vec![input.clone(), input]).unwrap_err(), LayerError::InputCount);
}
