//! The layers of a model.
pub mod convolution;
pub mod laws;
pub mod pooling;
pub mod transformer;

use crate::field::GoldilocksExt2;
use crate::layers::convolution::context::{ConvCtx, SchoolBookConvCtx};
use crate::layers::convolution::schoolbook::SchoolBookConv;
use crate::layers::convolution::verify::ShapeStep;
use crate::layers::convolution::Convolution;
use crate::layers::pooling::{Pooling, PoolingCtx};
use crate::layers::transformer::mha::{ConcatMatMul, Mha};
use crate::padding::qkv::QKV;
use crate::padding::weights::{Dense, MatMul};
use crate::shape::{copy_shapes, same_shapes, Shape};
use crate::tensor::copy_slice;
use vstd::prelude::*;

verus! {

/// Why a layer rejects its inputs.
#[derive(Debug, Clone, Copy, PartialEq, Eq, Structural)]
pub enum LayerError {
    /// The number of inputs is not the one that the layer takes.
    InputCount,
    /// The number of outputs is not the one that the layer gives.
    OutputCount,
    /// The number of input shapes is not the one that the layer takes.
    ShapeCount,
    /// An input does not have the rank that the layer takes.
    InputRank,
    /// The outputs do not all have the same number of variables.
    NumVars,
    /// The layer and the context are not of the same kind.
    Incompatible,
}

/// A layer of a model. The parameters of the layers without a payload are held elsewhere.
#[derive(Debug)]
pub enum Layer<T> {
    Dense(Dense<T>),
    MatMul(MatMul<T>),
    Convolution(Convolution<T>),
    SchoolBookConvolution(SchoolBookConv<T>),
    Activation,
    Requant,
    Pooling(Pooling),
    Flatten,
    QKV(QKV<T>),
    Mha(Mha),
    ConcatMatMul(ConcatMatMul),
    LayerNorm,
    Softmax,
    Add,
    Reshape,
    Embeddings,
    Positional,
    Logits,
}

/// What is known of a layer before the proof.
#[derive(Debug)]
pub enum LayerCtx {
    Dense,
    MatMul,
    Convolution(ConvCtx),
    SchoolBookConvolution(SchoolBookConvCtx),
    Activation,
    Requant,
    Pooling(PoolingCtx),
    Table,
    QKV,
    Mha,
    ConcatMatMul,
    LayerNorm,
    Flatten,
    Add,
    Softmax,
    Reshape,
    Embeddings,
    Positional,
    Logits,
}

/// The numerators and denominators of the fractions that a lookup adds up.
#[derive(Debug)]
pub struct LookupFractions {
    pub numerators: Vec<GoldilocksExt2>,
    pub denominators: Vec<GoldilocksExt2>,
}

/// The proof of a layer, as far as its lookups are concerned: a requantization has one for clamping and one for
/// shifting, and a pooling layer has one only where it is a maximum.
#[derive(Debug)]
pub enum LayerProof {
    Dense,
    MatMul,
    Convolution,
    Activation(LookupFractions),
    Requant(LookupFractions, LookupFractions),
    Pooling(Option<LookupFractions>),
    QKV,
    Mha(LookupFractions),
    ConcatMatMul,
    Add,
    LayerNorm(LookupFractions),
    Softmax(LookupFractions),
    Embeddings,
    Logits(LookupFractions),
    Positional,
    Dummy,
}

impl<T> Layer<T> {
    /// The layers are of the same kind.
    pub open spec fn same_kind(self, other: Layer<T>) -> bool {
        &&& self is Dense <==> other is Dense
        &&& self is MatMul <==> other is MatMul
        &&& self is Convolution <==> other is Convolution
        &&& self is SchoolBookConvolution <==> other is SchoolBookConvolution
        &&& self is Activation <==> other is Activation
        &&& self is Requant <==> other is Requant
        &&& self is Pooling <==> other is Pooling
        &&& self is Flatten <==> other is Flatten
        &&& self is QKV <==> other is QKV
        &&& self is Mha <==> other is Mha
        &&& self is ConcatMatMul <==> other is ConcatMatMul
        &&& self is LayerNorm <==> other is LayerNorm
        &&& self is Softmax <==> other is Softmax
        &&& self is Add <==> other is Add
        &&& self is Reshape <==> other is Reshape
        &&& self is Embeddings <==> other is Embeddings
        &&& self is Positional <==> other is Positional
        &&& self is Logits <==> other is Logits
    }

    /// The name of the kind of the layer.
    pub open spec fn kind_name(self) -> Seq<char> {
        match self {
            Layer::Dense(_) => "dense"@,
            Layer::MatMul(_) => "mat-mul"@,
            Layer::Convolution(_) => "convolution"@,
            Layer::SchoolBookConvolution(_) => "school-book-convolution"@,
            Layer::Activation => "activation"@,
            Layer::Requant => "requant"@,
            Layer::Pooling(_) => "pooling"@,
            Layer::Flatten => "flatten"@,
            Layer::QKV(_) => "qkv"@,
            Layer::Mha(_) => "mha-qk"@,
            Layer::ConcatMatMul(_) => "concat-mat-mul"@,
            Layer::LayerNorm => "layer-norm"@,
            Layer::Softmax => "softmax"@,
            Layer::Add => "add"@,
            Layer::Reshape => "reshape"@,
            Layer::Embeddings => "embeddings"@,
            Layer::Positional => "positional"@,
            Layer::Logits => "logits"@,
        }
    }

    /// The name of the kind of the layer.
    pub fn as_kind_str(&self) -> (r: &'static str)
        ensures
            r@ == self.kind_name(),
    {
        match self {
            Layer::Dense(_) => "dense",
            Layer::MatMul(_) => "mat-mul",
            Layer::Convolution(_) => "convolution",
            Layer::SchoolBookConvolution(_) => "school-book-convolution",
            Layer::Activation => "activation",
            Layer::Requant => "requant",
            Layer::Pooling(_) => "pooling",
            Layer::Flatten => "flatten",
            Layer::QKV(_) => "qkv",
            Layer::Mha(_) => "mha-qk",
            Layer::ConcatMatMul(_) => "concat-mat-mul",
            Layer::LayerNorm => "layer-norm",
            Layer::Softmax => "softmax",
            Layer::Add => "add",
            Layer::Reshape => "reshape",
            Layer::Embeddings => "embeddings",
            Layer::Positional => "positional",
            Layer::Logits => "logits",
        }
    }

    /// The layer has a proof: all but those that only change shapes, and the convolution by its definition, which is
    /// there for debugging.
    pub open spec fn provable(self) -> bool {
        !(self is Flatten) && !(self is Reshape) && !(self is SchoolBookConvolution)
    }

    pub fn is_provable(&self) -> (r: bool)
        ensures
            r == self.provable(),
    {
        match self {
            Layer::Flatten => false,
            Layer::Reshape => false,
            Layer::SchoolBookConvolution(_) => false,
            _ => true,
        }
    }

    /// Quantization leaves the scaling of the inputs as it is.
    pub open spec fn scaling_kept(self) -> bool {
        ||| self is Activation
        ||| self is Requant
        ||| self is Pooling
        ||| self is Flatten
        ||| self is Reshape
    }

    /// Does quantization hand on the scaling of the inputs, and add no requantization? Every other layer hands on the
    /// scaling of its own quantization, and its requantization where there is one.
    pub fn keeps_scaling(&self) -> (r: bool)
        ensures
            r == self.scaling_kept(),
    {
        match self {
            Layer::Activation => true,
            Layer::Requant => true,
            Layer::Pooling(_) => true,
            Layer::Flatten => true,
            Layer::Reshape => true,
            _ => false,
        }
    }

    /// The layer is proved with the given context.
    pub open spec fn proved_with(self, ctx: LayerCtx) -> bool {
        match (self, ctx) {
            (Layer::Dense(_), LayerCtx::Dense) => true,
            (Layer::Convolution(_), LayerCtx::Convolution(_)) => true,
            (Layer::MatMul(_), LayerCtx::MatMul) => true,
            (Layer::QKV(_), LayerCtx::QKV) => true,
            (Layer::Mha(_), LayerCtx::Mha) => true,
            (Layer::ConcatMatMul(_), LayerCtx::ConcatMatMul) => true,
            (Layer::Embeddings, LayerCtx::Embeddings) => true,
            (Layer::Positional, LayerCtx::Positional) => true,
            (Layer::Add, LayerCtx::Add) => true,
            (Layer::Logits, LayerCtx::Logits) => true,
            (Layer::Activation, LayerCtx::Activation) => true,
            (Layer::Requant, LayerCtx::Requant) => true,
            (Layer::Pooling(_), LayerCtx::Pooling(_)) => true,
            (Layer::Softmax, LayerCtx::Softmax) => true,
            (Layer::LayerNorm, LayerCtx::LayerNorm) => true,
            _ => false,
        }
    }

    /// Checks that the layer can be proved with the context.
    pub fn check_ctx(&self, ctx: &LayerCtx) -> (r: Result<(), LayerError>)
        requires
            !(self is SchoolBookConvolution && ctx is SchoolBookConvolution),
            !(self is Flatten && ctx is Flatten),
        ensures
            match r {
                Ok(_) => self.proved_with(*ctx),
                Err(e) => e == LayerError::Incompatible && !self.proved_with(*ctx),
            },
    {
        match (self, ctx) {
            (Layer::Dense(_), LayerCtx::Dense) => Ok(()),
            (Layer::Convolution(_), LayerCtx::Convolution(_)) => Ok(()),
            (Layer::MatMul(_), LayerCtx::MatMul) => Ok(()),
            (Layer::QKV(_), LayerCtx::QKV) => Ok(()),
            (Layer::Mha(_), LayerCtx::Mha) => Ok(()),
            (Layer::ConcatMatMul(_), LayerCtx::ConcatMatMul) => Ok(()),
            (Layer::Embeddings, LayerCtx::Embeddings) => Ok(()),
            (Layer::Positional, LayerCtx::Positional) => Ok(()),
            (Layer::Add, LayerCtx::Add) => Ok(()),
            (Layer::Logits, LayerCtx::Logits) => Ok(()),
            (Layer::Activation, LayerCtx::Activation) => Ok(()),
            (Layer::Requant, LayerCtx::Requant) => Ok(()),
            (Layer::Pooling(_), LayerCtx::Pooling(_)) => Ok(()),
            (Layer::Softmax, LayerCtx::Softmax) => Ok(()),
            (Layer::LayerNorm, LayerCtx::LayerNorm) => Ok(()),
            _ => Err(LayerError::Incompatible),
        }
    }
}

/// Layers of the same kind have the same name, both have a proof or none, and both are proved with the same contexts.
pub proof fn law_same_kind<T>(a: Layer<T>, b: Layer<T>, ctx: LayerCtx)
    requires
        a.same_kind(b),
    ensures
        a.kind_name() == b.kind_name(),
        a.provable() == b.provable(),
        a.scaling_kept() == b.scaling_kept(),
        a.proved_with(ctx) == b.proved_with(ctx),
{
}

/// A layer that is proved with some context is provable.
pub proof fn law_proved_layers_are_provable<T>(layer: Layer<T>, ctx: LayerCtx)
    requires
        layer.proved_with(ctx),
    ensures
        layer.provable(),
        ctx.proof_expected(),
{
}

impl LayerCtx {
    /// The name of the kind of the layer.
    pub open spec fn name(self) -> Seq<char> {
        match self {
            LayerCtx::Dense => "Dense"@,
            LayerCtx::MatMul => "Matrix Multiplication"@,
            LayerCtx::Convolution(_) => "Convolution"@,
            LayerCtx::SchoolBookConvolution(_) => "Traditional Convolution"@,
            LayerCtx::Activation => "Activation"@,
            LayerCtx::Requant => "Requant"@,
            LayerCtx::Pooling(_) => "Pooling"@,
            LayerCtx::Table => "Table"@,
            LayerCtx::QKV => "QKV"@,
            LayerCtx::Mha => "MHA"@,
            LayerCtx::ConcatMatMul => "ConcatMatMul"@,
            LayerCtx::LayerNorm => "LayerNorm"@,
            LayerCtx::Flatten => "Reshape"@,
            LayerCtx::Add => "Add"@,
            LayerCtx::Softmax => "Softmax"@,
            LayerCtx::Reshape => "Reshape"@,
            LayerCtx::Embeddings => "Embeddings"@,
            LayerCtx::Positional => "Positional"@,
            LayerCtx::Logits => "Logits"@,
        }
    }

    /// The name of the kind of the layer.
    pub fn variant_name(&self) -> (r: String)
        ensures
            r@ == self.name(),
    {
        let name: &'static str = match self {
            LayerCtx::Dense => "Dense",
            LayerCtx::MatMul => "Matrix Multiplication",
            LayerCtx::Convolution(_) => "Convolution",
            LayerCtx::SchoolBookConvolution(_) => "Traditional Convolution",
            LayerCtx::Activation => "Activation",
            LayerCtx::Requant => "Requant",
            LayerCtx::Pooling(_) => "Pooling",
            LayerCtx::Table => "Table",
            LayerCtx::QKV => "QKV",
            LayerCtx::Mha => "MHA",
            LayerCtx::ConcatMatMul => "ConcatMatMul",
            LayerCtx::LayerNorm => "LayerNorm",
            LayerCtx::Flatten => "Reshape",
            LayerCtx::Add => "Add",
            LayerCtx::Softmax => "Softmax",
            LayerCtx::Reshape => "Reshape",
            LayerCtx::Embeddings => "Embeddings",
            LayerCtx::Positional => "Positional",
            LayerCtx::Logits => "Logits",
        };
        name.to_string()
    }

    /// The shapes of a step with the given inputs, given its outputs.
    pub fn shape_step(
        unpadded_input: &[Shape],
        padded_input: &[Shape],
        unpadded_output: Vec<Shape>,
        padded_output: Vec<Shape>,
    ) -> (r: ShapeStep)
        ensures
            same_shapes(r.unpadded_input_shape@, unpadded_input@),
            same_shapes(r.padded_input_shape@, padded_input@),
            r.unpadded_output_shape == unpadded_output,
            r.padded_output_shape == padded_output,
    {
        ShapeStep {
            unpadded_input_shape: copy_shapes(unpadded_input),
            unpadded_output_shape: unpadded_output,
            padded_input_shape: copy_shapes(padded_input),
            padded_output_shape: padded_output,
        }
    }

    /// The shapes of the step that follows, given its outputs: its inputs are the outputs of the last step.
    pub fn next_shape_step(last_step: &ShapeStep, unpadded_output: Vec<Shape>, padded_output: Vec<Shape>) -> (r:
        ShapeStep)
        ensures
            same_shapes(r.unpadded_input_shape@, last_step.unpadded_output_shape@),
            same_shapes(r.padded_input_shape@, last_step.padded_output_shape@),
            r.unpadded_output_shape == unpadded_output,
            r.padded_output_shape == padded_output,
    {
        Self::shape_step(
            &last_step.unpadded_output_shape,
            &last_step.padded_output_shape,
            unpadded_output,
            padded_output,
        )
    }

    /// There is a proof for the layer.
    pub open spec fn proof_expected(self) -> bool {
        !(self is Flatten) && !(self is Table) && !(self is SchoolBookConvolution)
    }

    pub fn has_proof(&self) -> (r: bool)
        ensures
            r == self.proof_expected(),
    {
        match self {
            LayerCtx::Flatten => false,
            LayerCtx::Table => false,
            LayerCtx::SchoolBookConvolution(_) => false,
            _ => true,
        }
    }
}

impl LookupFractions {
    /// The fractions of two lookups.
    fn concat(&self, other: &LookupFractions) -> (r: (Vec<GoldilocksExt2>, Vec<GoldilocksExt2>))
        ensures
            r.0@ == self.numerators@ + other.numerators@,
            r.1@ == self.denominators@ + other.denominators@,
    {
        let mut n = copy_slice(&self.numerators);
        let mut m = copy_slice(&other.numerators);
        n.append(&mut m);
        let mut d = copy_slice(&self.denominators);
        let mut e = copy_slice(&other.denominators);
        d.append(&mut e);
        (n, d)
    }
}

impl LayerProof {
    /// The name of the kind of the layer.
    pub open spec fn name(self) -> Seq<char> {
        match self {
            LayerProof::Dense => "Dense"@,
            LayerProof::MatMul => "Matmul"@,
            LayerProof::Convolution => "Convolution"@,
            LayerProof::Activation(_) => "Activation"@,
            LayerProof::Requant(_, _) => "Requant"@,
            LayerProof::Pooling(_) => "Pooling"@,
            LayerProof::QKV => "QKV"@,
            LayerProof::Mha(_) => "MHA"@,
            LayerProof::ConcatMatMul => "ConcatMatMul"@,
            LayerProof::Add => "Add"@,
            LayerProof::LayerNorm(_) => "LayerNorm"@,
            LayerProof::Softmax(_) => "Softmax"@,
            LayerProof::Embeddings => "Embeddings"@,
            LayerProof::Logits(_) => "Logits"@,
            LayerProof::Positional => "Positional"@,
            LayerProof::Dummy => "Dummy"@,
        }
    }

    /// The name of the kind of the layer.
    pub fn variant_name(&self) -> (r: String)
        ensures
            r@ == self.name(),
    {
        let name: &'static str = match self {
            LayerProof::Dense => "Dense",
            LayerProof::MatMul => "Matmul",
            LayerProof::Convolution => "Convolution",
            LayerProof::Activation(_) => "Activation",
            LayerProof::Requant(_, _) => "Requant",
            LayerProof::Pooling(_) => "Pooling",
            LayerProof::QKV => "QKV",
            LayerProof::Mha(_) => "MHA",
            LayerProof::ConcatMatMul => "ConcatMatMul",
            LayerProof::Add => "Add",
            LayerProof::LayerNorm(_) => "LayerNorm",
            LayerProof::Softmax(_) => "Softmax",
            LayerProof::Embeddings => "Embeddings",
            LayerProof::Logits(_) => "Logits",
            LayerProof::Positional => "Positional",
            LayerProof::Dummy => "Dummy",
        };
        name.to_string()
    }

    /// The numerators and denominators of all lookups of the layer, where it has any.
    pub open spec fn fractions(self) -> Option<(Seq<GoldilocksExt2>, Seq<GoldilocksExt2>)> {
        match self {
            LayerProof::Mha(f) => Some((f.numerators@, f.denominators@)),
            LayerProof::LayerNorm(f) => Some((f.numerators@, f.denominators@)),
            LayerProof::Softmax(f) => Some((f.numerators@, f.denominators@)),
            LayerProof::Logits(f) => Some((f.numerators@, f.denominators@)),
            LayerProof::Activation(f) => Some((f.numerators@, f.denominators@)),
            LayerProof::Pooling(Some(f)) => Some((f.numerators@, f.denominators@)),
            LayerProof::Requant(clamp, shift) => Some(
                (clamp.numerators@ + shift.numerators@, clamp.denominators@ + shift.denominators@),
            ),
            _ => None,
        }
    }

    /// The numerators and denominators of all lookups of the layer, where it has any.
    pub fn get_lookup_data(&self) -> (r: Option<(Vec<GoldilocksExt2>, Vec<GoldilocksExt2>)>)
        ensures
            match r {
                Some((n, d)) => self.fractions() == Some((n@, d@)),
                None => self.fractions() is None,
            },
    {
        match self {
            LayerProof::Mha(f) => Some((copy_slice(&f.numerators), copy_slice(&f.denominators))),
            LayerProof::LayerNorm(f) => Some((copy_slice(&f.numerators), copy_slice(&f.denominators))),
            LayerProof::Softmax(f) => Some((copy_slice(&f.numerators), copy_slice(&f.denominators))),
            LayerProof::Logits(f) => Some((copy_slice(&f.numerators), copy_slice(&f.denominators))),
            LayerProof::Activation(f) => Some((copy_slice(&f.numerators), copy_slice(&f.denominators))),
            LayerProof::Pooling(Some(f)) => Some((copy_slice(&f.numerators), copy_slice(&f.denominators))),
            LayerProof::Requant(clamp, shift) => Some(clamp.concat(shift)),
            _ => None,
        }
    }
}

} // verus!
