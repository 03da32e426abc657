//! Evaluation of convolution layers.
use crate::layers::convolution::apply::{is_op, op_ok};
use crate::layers::convolution::context::SchoolBookConvCtx;
use crate::layers::convolution::shapes::{
    conv_shape_ok, conv_shape_pads, has_dims, out_height, out_width,
};
use crate::layers::convolution::Convolution;
use crate::layers::LayerError;
use crate::arith::npot;
use crate::number::{Element, Number};
use crate::padding::PaddingMode;
use crate::shape::Shape;
use crate::tensor::access::{frameable, is_framed};
use crate::tensor::conv::{conv2d_ok, is_conv2d};
use crate::tensor::fft_conv::ConvData;
use crate::tensor::Tensor;
use vstd::prelude::*;

verus! {

/// A convolution layer that is evaluated by its definition.
#[derive(Debug)]
pub struct SchoolBookConv<T>(pub Convolution<T>);

/// The layer can be evaluated by its definition, with the given stride.
pub open spec fn direct_ok<T: Number>(conv: &Convolution<T>, input: &Tensor<T>, stride: int) -> bool {
    let (ph, pw) = conv.frame();
    &&& frameable(input, ph, pw)
    &&& forall|z: Tensor<T>|
        #[trigger] is_framed(&z, input, ph, pw) ==> conv2d_ok(&z, &conv.filter, &conv.bias, stride)
}

/// `r` is the convolution of the framed input with the filter, plus the bias, with the given stride.
pub open spec fn is_direct<T: Number>(r: &Tensor<T>, conv: &Convolution<T>, input: &Tensor<T>, stride: int) -> bool {
    let (ph, pw) = conv.frame();
    exists|z: Tensor<T>|
        #[trigger] is_framed(&z, input, ph, pw) && is_conv2d(r, &z, &conv.filter, &conv.bias, stride)
}

/// The shape of the output of a layer for an input of the given shape.
pub open spec fn is_output_shape<T: Number>(
    r: Seq<usize>,
    conv: &Convolution<T>,
    input: Seq<usize>,
    padding_mode: PaddingMode,
) -> bool {
    let f = conv.counted_shape(padding_mode);
    let (ph, pw) = conv.frame();
    let (sh, sw) = conv.steps();
    let h = out_height(input, f, ph, sh);
    let w = out_width(input, f, pw, sw);
    match padding_mode {
        PaddingMode::NoPadding => has_dims(r, f[0] as int, h, w),
        PaddingMode::Padding => has_dims(r, npot(f[0] as nat) as int, npot(h as nat) as int, npot(w as nat) as int),
    }
}

/// The shape of the output can be computed.
pub open spec fn output_shape_ok<T: Number>(
    conv: &Convolution<T>,
    input: Seq<usize>,
    padding_mode: PaddingMode,
) -> bool {
    let f = conv.counted_shape(padding_mode);
    let (ph, pw) = conv.frame();
    let (sh, sw) = conv.steps();
    &&& conv_shape_ok(input, f, ph, pw, sh, sw)
    &&& padding_mode == PaddingMode::Padding ==> conv_shape_pads(input, f, ph, pw, sh, sw)
}

impl<T: Number> Convolution<T> {
    /// The convolution of the framed input with the filter by its definition, plus the bias.
    fn direct(&self, input: &Tensor<T>, stride: usize) -> (r: Tensor<T>)
        requires
            direct_ok(self, input, stride as int),
        ensures
            is_direct(&r, self, input, stride as int),
    {
        let padded = input.zero_pad_spatial(self.input_padding[0], self.input_padding[1]);
        let r = padded.conv2d(&self.filter, &self.bias, stride);
        proof {
            assert(is_framed(&padded, input, self.frame().0, self.frame().1));
        }
        r
    }

    /// The layer evaluated by its definition, with its stride.
    pub fn evaluate_direct(&self, inputs: &Vec<Tensor<T>>) -> (r: Result<Tensor<T>, LayerError>)
        requires
            self.steps().0 == self.steps().1,
            inputs@.len() == 1 ==> direct_ok(self, &inputs@[0], self.steps().0),
        ensures
            match r {
                Ok(t) => inputs@.len() == 1 && is_direct(&t, self, &inputs@[0], self.steps().0),
                Err(e) => e == LayerError::InputCount && inputs@.len() != 1,
            },
    {
        if inputs.len() != 1 {
            return Err(LayerError::InputCount);
        }
        Ok(self.direct(&inputs[0], self.stride[0]))
    }

    /// The shapes of the outputs for inputs of the given shapes.
    pub fn output_shapes(&self, input_shapes: &Vec<Shape>, padding_mode: PaddingMode) -> (r: Vec<Shape>)
        requires
            forall|i: int|
                0 <= i < input_shapes@.len() ==> output_shape_ok(
                    self,
                    (#[trigger] input_shapes@[i])@,
                    padding_mode,
                ),
        ensures
            r@.len() == input_shapes@.len(),
            forall|i: int|
                0 <= i < r@.len() ==> is_output_shape(
                    (#[trigger] r@[i])@,
                    self,
                    input_shapes@[i]@,
                    padding_mode,
                ),
    {
        let mut r: Vec<Shape> = Vec::with_capacity(input_shapes.len());
        let mut i: usize = 0;
        while i < input_shapes.len()
            invariant
                i <= input_shapes@.len(),
                forall|i: int|
                    0 <= i < input_shapes@.len() ==> output_shape_ok(
                        self,
                        (#[trigger] input_shapes@[i])@,
                        padding_mode,
                    ),
                r@.len() == i,
                forall|j: int|
                    0 <= j < i ==> is_output_shape((#[trigger] r@[j])@, self, input_shapes@[j]@, padding_mode),
            decreases input_shapes@.len() - i,
        {
            assert(output_shape_ok(self, input_shapes@[i as int]@, padding_mode));
            r.push(self.output_shape(&input_shapes[i], padding_mode));
            i = i + 1;
        }
        r
    }

    /// A convolution layer can be proved.
    pub fn is_provable(&self) -> (r: bool)
        ensures
            r,
    {
        true
    }
}

impl Convolution<Element> {
    /// The layer evaluated by Fourier transform on a padded input with the given shape before padding.
    pub fn evaluate(&self, inputs: &Vec<Tensor<Element>>, unpadded_input_shapes: &Vec<Shape>) -> (r: Result<
        (Tensor<Element>, ConvData),
        LayerError,
    >)
        requires
            inputs@.len() == 1 && unpadded_input_shapes@.len() == 1 ==> op_ok(
                self,
                &inputs@[0],
                unpadded_input_shapes@[0]@,
            ),
        ensures
            match r {
                Ok((t, data)) => inputs@.len() == 1 && unpadded_input_shapes@.len() == 1 && is_op(
                    &t,
                    &data,
                    self,
                    &inputs@[0],
                    unpadded_input_shapes@[0]@,
                ),
                Err(LayerError::InputCount) => inputs@.len() != 1,
                Err(LayerError::ShapeCount) => inputs@.len() == 1 && unpadded_input_shapes@.len() != 1,
                Err(_) => false,
            },
    {
        if inputs.len() != 1 {
            return Err(LayerError::InputCount);
        }
        if unpadded_input_shapes.len() != 1 {
            return Err(LayerError::ShapeCount);
        }
        Ok(self.op(&inputs[0], &unpadded_input_shapes[0]))
    }
}

impl<T: Number> SchoolBookConv<T> {
    /// The shapes of the outputs for inputs of the given shapes.
    pub fn output_shapes(&self, input_shapes: &Vec<Shape>, padding_mode: PaddingMode) -> (r: Vec<Shape>)
        requires
            forall|i: int|
                0 <= i < input_shapes@.len() ==> output_shape_ok(
                    &self.0,
                    (#[trigger] input_shapes@[i])@,
                    padding_mode,
                ),
        ensures
            r@.len() == input_shapes@.len(),
            forall|i: int|
                0 <= i < r@.len() ==> is_output_shape(
                    (#[trigger] r@[i])@,
                    &self.0,
                    input_shapes@[i]@,
                    padding_mode,
                ),
    {
        self.0.output_shapes(input_shapes, padding_mode)
    }

    /// A convolution has one output for its one input.
    pub fn num_outputs(&self, num_inputs: usize) -> (r: usize)
        requires
            num_inputs == 1,
        ensures
            r == 1,
    {
        Convolution::<T>::num_outputs(num_inputs)
    }

    /// A convolution by its definition cannot be proved.
    pub fn is_provable(&self) -> (r: bool)
        ensures
            !r,
    {
        false
    }

    /// The layer evaluated by its definition, without stride.
    pub fn evaluate(&self, inputs: &Vec<Tensor<T>>) -> (r: Result<Tensor<T>, LayerError>)
        requires
            inputs@.len() == 1 ==> direct_ok(&self.0, &inputs@[0], 1),
        ensures
            match r {
                Ok(t) => inputs@.len() == 1 && is_direct(&t, &self.0, &inputs@[0], 1),
                Err(e) => e == LayerError::InputCount && inputs@.len() != 1,
            },
    {
        if inputs.len() != 1 {
            return Err(LayerError::InputCount);
        }
        Ok(self.0.direct(&inputs[0], 1))
    }

    /// The context of the layer: there is nothing to know.
    pub fn step_info(&self) -> (r: SchoolBookConvCtx)
        ensures
            r == SchoolBookConvCtx,
    {
        SchoolBookConvCtx
    }
}

} // verus!
