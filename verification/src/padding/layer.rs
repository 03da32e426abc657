//! Padding of a layer, whatever its kind.
use crate::layers::pooling::Pooling;
use crate::layers::Layer;
use crate::number::Element;
use crate::padding::attention::{is_mha_padding, pad_mha, MhaShapes, ReshapedShapes};
use crate::padding::conv::{conv_ok, is_conv_padding, pad_conv};
use crate::padding::qkv::{is_qkv_padding, pad_qkv, qkv_ok, qkv_shapes};
use crate::padding::shapes::{
    averageable, is_average_padding, is_concat_padding, is_flattening, is_maximum_padding, is_reshape_padding,
    pad_average, pad_concat_mat_mul, pad_reshape_layer, pooling, reshape, ConcatMatMulShapes, PooledShapes,
};
use crate::padding::weights::{dense_ok, is_dense_padding, is_matmul_padding, matmul_ok, pad_dense, pad_matmul};
use crate::padding::{PadError, ShapeDims, ShapeInfo};
use crate::shape::Shape;
use vstd::prelude::*;

verus! {

/// What a layer is told of its shapes when it is padded.
#[derive(Debug)]
pub enum LayerShapes {
    /// Nothing: the shapes follow from those of the inputs.
    Known,
    /// Whether the filter of a convolution is supported, and the shapes of its output, where there are any.
    Convolution { filter_ok: bool, og: Option<Shape>, padded: Option<Shape> },
    /// The shapes of the outputs of a maximum layer, one for each input.
    Maximum(Vec<PooledShapes>),
    /// The shapes of the outputs of a product of matrices before padding.
    MatMul(Vec<Shape>),
    /// The shapes of the outputs of the projections, and how many there have to be.
    QKV { outputs: ReshapedShapes, expected_num_outputs: usize },
    Mha(MhaShapes),
    ConcatMatMul(ConcatMatMulShapes),
    Reshape(ReshapedShapes),
    /// The shapes that the layer hands on, where it is padded elsewhere.
    HandedOn(Result<ShapeInfo, PadError>),
}

/// The layer is padded elsewhere.
pub open spec fn padded_elsewhere(l: &Layer<Element>) -> bool {
    ||| l is SchoolBookConvolution
    ||| l is Activation
    ||| l is Requant
    ||| l is LayerNorm
    ||| l is Softmax
    ||| l is Add
    ||| l is Embeddings
    ||| l is Positional
    ||| l is Logits
}

/// The layer is told what it needs, and can be padded for the shapes `ds` of its inputs.
pub open spec fn layer_ok(l: &Layer<Element>, ds: Seq<ShapeDims>, given: LayerShapes) -> bool {
    match (*l, given) {
        (Layer::Dense(d), LayerShapes::Known) => dense_ok(&d, ds),
        (Layer::MatMul(m), LayerShapes::MatMul(_)) => matmul_ok(&m, ds),
        (Layer::Convolution(c), LayerShapes::Convolution { filter_ok, og, padded }) => conv_ok(
            &c,
            ds,
            filter_ok,
            og,
            padded,
        ),
        (Layer::Pooling(Pooling::Maxpool2D(_)), LayerShapes::Maximum(outputs)) => outputs@.len() == ds.len(),
        (Layer::Pooling(Pooling::GlobalAvgPool2D(_)), LayerShapes::Known) => averageable(ds),
        (Layer::Flatten, LayerShapes::Known) => true,
        (Layer::QKV(q), LayerShapes::QKV { .. }) => qkv_ok(&q, ds),
        (Layer::Mha(m), LayerShapes::Mha(_)) => ds.len() > 0 && m.heads_fit(),
        (Layer::ConcatMatMul(_), LayerShapes::ConcatMatMul(_)) => true,
        (Layer::Reshape, LayerShapes::Reshape(_)) => true,
        (_, LayerShapes::HandedOn(_)) => padded_elsewhere(l),
        _ => false,
    }
}

/// `r` is what padding the layer for the shapes `ds` of its inputs gives, and `after` are the shapes then: those that it
/// hands on where it is padded.
pub open spec fn is_layer_padding(
    r: Result<Layer<Element>, PadError>,
    after: Seq<ShapeDims>,
    l: &Layer<Element>,
    ds: Seq<ShapeDims>,
    given: LayerShapes,
) -> bool {
    match (*l, given) {
        (Layer::Dense(d), LayerShapes::Known) => match r {
            Ok(q) => q is Dense && is_dense_padding(Ok(q->Dense_0), after, &d, ds),
            Err(e) => is_dense_padding(Err(e), after, &d, ds),
        },
        (Layer::MatMul(m), LayerShapes::MatMul(outputs)) => match r {
            Ok(q) => q is MatMul && is_matmul_padding(Ok(q->MatMul_0), after, &m, ds, outputs@),
            Err(e) => is_matmul_padding(Err(e), after, &m, ds, outputs@),
        },
        (Layer::Convolution(c), LayerShapes::Convolution { filter_ok, og, padded }) => match r {
            Ok(q) => q is Convolution && is_conv_padding(Ok(q->Convolution_0), after, &c, ds, filter_ok, og, padded),
            Err(e) => is_conv_padding(Err(e), after, &c, ds, filter_ok, og, padded),
        },
        (Layer::Pooling(p), LayerShapes::Maximum(outputs)) => match r {
            Ok(q) => q is Pooling && is_maximum_padding(Ok(q->Pooling_0), after, p, ds, outputs@),
            Err(e) => is_maximum_padding(Err(e), after, p, ds, outputs@),
        },
        (Layer::Pooling(p), LayerShapes::Known) => match r {
            Ok(q) => q is Pooling && is_average_padding(Ok(q->Pooling_0), after, p, ds),
            Err(e) => is_average_padding(Err(e), after, p, ds),
        },
        (Layer::Flatten, LayerShapes::Known) => r == Ok::<_, PadError>(*l) && is_flattening(after, ds),
        (Layer::QKV(p), LayerShapes::QKV { outputs, expected_num_outputs }) => match r {
            Ok(q) => q is QKV && is_qkv_padding(
                Ok(q->QKV_0),
                after,
                &p,
                ds,
                outputs.unpadded@,
                outputs.padded@,
                expected_num_outputs as nat,
            ),
            Err(e) => is_qkv_padding(
                Err(e),
                after,
                &p,
                ds,
                outputs.unpadded@,
                outputs.padded@,
                expected_num_outputs as nat,
            ),
        },
        (Layer::Mha(m), LayerShapes::Mha(s)) => match r {
            Ok(q) => q is Mha && is_mha_padding(Ok(q->Mha_0), after, &m, ds, s),
            Err(e) => is_mha_padding(Err(e), after, &m, ds, s),
        },
        (Layer::ConcatMatMul(_), LayerShapes::ConcatMatMul(s)) => match r {
            Ok(q) => q == *l && is_concat_padding(Ok(()), after, s, ds),
            Err(e) => is_concat_padding(Err(e), after, s, ds),
        },
        (Layer::Reshape, LayerShapes::Reshape(s)) => match r {
            Ok(q) => q == *l && is_reshape_padding(Ok(()), after, s.unpadded@, s.padded@, ds),
            Err(e) => is_reshape_padding(Err(e), after, s.unpadded@, s.padded@, ds),
        },
        (_, LayerShapes::HandedOn(Ok(si))) => r == Ok::<_, PadError>(*l) && after == si@,
        (_, LayerShapes::HandedOn(Err(e))) => r == Err::<Layer<Element>, _>(e) && after == ds,
        _ => false,
    }
}

/// A padded layer is of the kind of the layer.
pub proof fn law_padding_keeps_the_kind(
    q: Layer<Element>,
    after: Seq<ShapeDims>,
    l: &Layer<Element>,
    ds: Seq<ShapeDims>,
    given: LayerShapes,
)
    requires
        is_layer_padding(Ok(q), after, l, ds, given),
    ensures
        q.same_kind(*l),
{
}

impl Layer<Element> {
    /// Pads the weights of the layer for the shapes of its inputs, which become those of its outputs.
    pub fn pad_node(self, si: &mut ShapeInfo, given: LayerShapes) -> (r: Result<Self, PadError>)
        requires
            layer_ok(&self, old(si)@, given),
        ensures
            is_layer_padding(r, final(si)@, &self, old(si)@, given),
            r matches Ok(q) ==> q.same_kind(self),
    {
        match (self, given) {
            (Layer::Dense(d), LayerShapes::Known) => match pad_dense(d, si) {
                Ok(q) => Ok(Layer::Dense(q)),
                Err(e) => Err(e),
            },
            (Layer::MatMul(m), LayerShapes::MatMul(outputs)) => match pad_matmul(m, si, outputs) {
                Ok(q) => Ok(Layer::MatMul(q)),
                Err(e) => Err(e),
            },
            (Layer::Convolution(c), LayerShapes::Convolution { filter_ok, og, padded }) => {
                match pad_conv(c, si, filter_ok, og, padded) {
                    Ok(q) => Ok(Layer::Convolution(q)),
                    Err(e) => Err(e),
                }
            },
            (Layer::Pooling(p), LayerShapes::Maximum(outputs)) => match pooling(p, si, outputs) {
                Ok(q) => Ok(Layer::Pooling(q)),
                Err(e) => Err(e),
            },
            (Layer::Pooling(p), LayerShapes::Known) => match pad_average(p, si) {
                Ok(q) => Ok(Layer::Pooling(q)),
                Err(e) => Err(e),
            },
            (Layer::Flatten, LayerShapes::Known) => {
                reshape(si);
                Ok(Layer::Flatten)
            },
            (Layer::QKV(p), LayerShapes::QKV { outputs, expected_num_outputs }) => {
                match pad_qkv(p, si, outputs.unpadded.len(), expected_num_outputs) {
                    Ok(q) => match qkv_shapes(si, outputs.unpadded, outputs.padded) {
                        Ok(_) => Ok(Layer::QKV(q)),
                        Err(e) => Err(e),
                    },
                    Err(e) => Err(e),
                }
            },
            (Layer::Mha(m), LayerShapes::Mha(s)) => match pad_mha(m, si, s) {
                Ok(q) => Ok(Layer::Mha(q)),
                Err(e) => Err(e),
            },
            (Layer::ConcatMatMul(m), LayerShapes::ConcatMatMul(s)) => match pad_concat_mat_mul(s, si) {
                Ok(_) => Ok(Layer::ConcatMatMul(m)),
                Err(e) => Err(e),
            },
            (Layer::Reshape, LayerShapes::Reshape(s)) => match pad_reshape_layer(s.unpadded, s.padded, si) {
                Ok(_) => Ok(Layer::Reshape),
                Err(e) => Err(e),
            },
            (l, LayerShapes::HandedOn(Ok(s))) => {
                *si = s;
                Ok(l)
            },
            (_, LayerShapes::HandedOn(Err(e))) => Err(e),
            (_, _) => Err(PadError::Inconsistent),
        }
    }
}

} // verus!
