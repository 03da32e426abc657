//! Padding of the layers of a model.
pub mod attention;
pub mod conv;
pub mod conv_laws;
pub mod handed_on;
pub mod layer;
pub mod laws;
pub mod model;
pub mod qkv;
pub mod shapes;
pub mod weights;

use crate::arith::{self, npot};
use crate::layers::transformer::mha::garbage::{
    garbage_error, is_mha_padded, mha_paddable, pad_matrix_to_ignore_mha_garbage, padded_rows, GarbageError,
};
use crate::number::Element;
use crate::shape::Shape;
use crate::tensor::garbage::{garbage_paddable, ignores_garbage};
use crate::tensor::pad::{npots, npots_fit};
use crate::tensor::Tensor;
use vstd::prelude::*;

verus! {

/// Whether shapes are those of the model or those after padding.
#[derive(Debug, Clone, Copy, PartialEq, Eq, Structural)]
pub enum PaddingMode {
    NoPadding,
    Padding,
}

/// Why a layer cannot be padded.
#[derive(Debug, Clone, Copy, PartialEq, Eq, Structural)]
pub enum PadError {
    /// There are not as many inputs as the layer takes.
    InputCount,
    /// There are not as many outputs as the layer gives.
    OutputCount,
    /// The shape of an input is not padded.
    NotPadded,
    /// The shape of an input does not have the rank that the layer takes.
    InputRank,
    /// The shape of the filter of a convolution is not one that is supported.
    Filter,
    /// The bias does not fit to the weights.
    Bias,
    /// The shape of an output cannot be computed.
    OutputShape,
    /// The filter is larger than the input.
    FilterSize,
    /// The weights have more columns than the input has entries.
    TooManyColumns,
    /// The weights have more rows than the input has columns.
    TooManyRows,
    /// The columns of the left factor are not as many as the rows of the right one.
    Factors,
    /// The layer does not remove the garbage of an input.
    Garbage,
    /// The garbage of an input cannot be removed.
    Unremovable(GarbageError),
    /// The shapes of the inputs do not fit to each other.
    Inconsistent,
    /// The node that an input comes from is not known.
    UnknownNode,
    /// The node that an input comes from does not have that output.
    UnknownOutput,
}

/// Garbage in a padded output that a later layer has to ignore: the shapes of the output before and after padding.
#[derive(Debug)]
pub enum GarbagePad {
    Convolution(Shape, Shape),
    MHA(Shape, Shape),
}

/// The dimensions that garbage is described by.
pub enum GarbageDims {
    Convolution(Seq<usize>, Seq<usize>),
    MHA(Seq<usize>, Seq<usize>),
}

impl View for GarbagePad {
    type V = GarbageDims;

    open spec fn view(&self) -> GarbageDims {
        match self {
            GarbagePad::Convolution(a, b) => GarbageDims::Convolution(a@, b@),
            GarbagePad::MHA(a, b) => GarbageDims::MHA(a@, b@),
        }
    }
}

impl Clone for GarbagePad {
    fn clone(&self) -> (r: Self)
        ensures
            r@ == self@,
    {
        match self {
            GarbagePad::Convolution(a, b) => GarbagePad::Convolution(a.clone(), b.clone()),
            GarbagePad::MHA(a, b) => GarbagePad::MHA(a.clone(), b.clone()),
        }
    }
}

/// The garbage can be removed by padding the matrix to the given shape.
pub open spec fn removable(g: GarbageDims, m: &Tensor<Element>, target: Seq<usize>) -> bool {
    match g {
        GarbageDims::Convolution(og, pad) => garbage_paddable(m, og, pad, target),
        GarbageDims::MHA(og, pad) => garbage_error(m, og, pad, target) is None ==> mha_paddable(m, og, pad, target),
    }
}

/// What keeps the garbage from being removed.
pub open spec fn removal_error(g: GarbageDims, m: &Tensor<Element>, target: Seq<usize>) -> Option<GarbageError> {
    match g {
        GarbageDims::Convolution(_, _) => None,
        GarbageDims::MHA(og, pad) => garbage_error(m, og, pad, target),
    }
}

/// `r` is the matrix padded to the given shape, so that it ignores the garbage.
pub open spec fn is_removed(g: GarbageDims, r: &Tensor<Element>, m: &Tensor<Element>, target: Seq<usize>) -> bool {
    &&& r.og_shape@ == seq![0usize]
    &&& r.shape@.len() == 2
    &&& match g {
        GarbageDims::Convolution(og, pad) => {
            &&& r.shape@ == target
            &&& ignores_garbage(*r, *m, og, pad)
        },
        GarbageDims::MHA(og, pad) => {
            &&& r.shape@[0] == padded_rows(pad, target)
            &&& r.shape@[1] == target[1]
            &&& is_mha_padded(r, m, og[1] as int, og[2] as int, pad[2] as int)
        },
    }
}

impl GarbagePad {
    /// Pads the matrix to the given shape, so that it ignores the garbage.
    pub fn pad_matrix_to_ignore_garbage(&self, matrix: &mut Tensor<Element>, padded_matrix_shape: Shape) -> (r: Result<
        (),
        GarbageError,
    >)
        requires
            removable(self@, old(matrix), padded_matrix_shape@),
        ensures
            match r {
                Ok(_) => {
                    &&& removal_error(self@, old(matrix), padded_matrix_shape@) is None
                    &&& is_removed(self@, final(matrix), old(matrix), padded_matrix_shape@)
                },
                Err(e) => {
                    &&& removal_error(self@, old(matrix), padded_matrix_shape@) == Some(e)
                    &&& *final(matrix) == *old(matrix)
                },
            },
    {
        match self {
            GarbagePad::Convolution(og, pad) => {
                *matrix = matrix.pad_matrix_to_ignore_garbage(&og.0, &pad.0, &padded_matrix_shape);
            },
            GarbagePad::MHA(og, pad) => {
                match pad_matrix_to_ignore_mha_garbage(matrix, og, pad, padded_matrix_shape) {
                    Ok(m) => {
                        *matrix = m;
                    },
                    Err(e) => {
                        return Err(e);
                    },
                }
            },
        }
        Ok(())
    }
}

/// The shape of an input of a layer, before and after padding, and the garbage in it.
#[derive(Debug)]
pub struct ShapeData {
    pub input_shape_padded: Shape,
    pub ignore_garbage_pad: Option<GarbagePad>,
    pub input_shape_og: Shape,
}

/// The dimensions of an input, before and after padding, and the garbage in it.
pub struct ShapeDims {
    pub padded: Seq<usize>,
    pub garbage: Option<GarbageDims>,
    pub og: Seq<usize>,
}

impl View for ShapeData {
    type V = ShapeDims;

    open spec fn view(&self) -> ShapeDims {
        ShapeDims {
            padded: self.input_shape_padded@,
            garbage: match self.ignore_garbage_pad {
                Some(g) => Some(g@),
                None => None,
            },
            og: self.input_shape_og@,
        }
    }
}

impl Clone for ShapeData {
    fn clone(&self) -> (r: Self)
        ensures
            r@ == self@,
    {
        let garbage = match &self.ignore_garbage_pad {
            Some(g) => Some(g.clone()),
            None => None,
        };
        ShapeData {
            input_shape_padded: self.input_shape_padded.clone(),
            ignore_garbage_pad: garbage,
            input_shape_og: self.input_shape_og.clone(),
        }
    }
}

pub(crate) fn padded_shape_of(shape: &Shape) -> (r: Shape)
    requires
        npots_fit(shape@),
    ensures
        r@ == npots(shape@),
{
    proof {
        assert forall|i: int| 0 <= i < shape@.len() implies npot(#[trigger] shape@[i] as nat) <= usize::MAX by {}
    }
    let r = shape.next_power_of_two();
    proof {
        assert(r@ =~= npots(shape@));
    }
    r
}

impl ShapeData {
    /// The shape of an input without garbage, given its shape before padding.
    pub fn new(unpadded_input_shape: Shape) -> (r: Self)
        requires
            npots_fit(unpadded_input_shape@),
        ensures
            r@ == (ShapeDims { padded: npots(unpadded_input_shape@), garbage: None, og: unpadded_input_shape@ }),
    {
        ShapeData {
            input_shape_padded: padded_shape_of(&unpadded_input_shape),
            ignore_garbage_pad: None,
            input_shape_og: unpadded_input_shape,
        }
    }

    /// The shape of an input with the given garbage, given its shape before padding.
    pub fn new_with_garbage_pad(unpadded_input_shape: Shape, garbage_pad: GarbagePad) -> (r: Self)
        requires
            npots_fit(unpadded_input_shape@),
        ensures
            r@ == (ShapeDims {
                padded: npots(unpadded_input_shape@),
                garbage: Some(garbage_pad@),
                og: unpadded_input_shape@,
            }),
    {
        ShapeData {
            input_shape_padded: padded_shape_of(&unpadded_input_shape),
            ignore_garbage_pad: Some(garbage_pad),
            input_shape_og: unpadded_input_shape,
        }
    }

    /// The same shape with the given garbage.
    pub fn with_garbage_pad(self, garbage_pad: GarbagePad) -> (r: Self)
        ensures
            r@ == (ShapeDims { padded: self@.padded, garbage: Some(garbage_pad@), og: self@.og }),
    {
        ShapeData {
            input_shape_padded: self.input_shape_padded,
            ignore_garbage_pad: Some(garbage_pad),
            input_shape_og: self.input_shape_og,
        }
    }
}

/// The shapes of the inputs of a layer.
#[derive(Debug)]
pub struct ShapeInfo {
    pub shapes: Vec<ShapeData>,
}

impl View for ShapeInfo {
    type V = Seq<ShapeDims>;

    open spec fn view(&self) -> Seq<ShapeDims> {
        Seq::new(self.shapes@.len(), |i: int| self.shapes@[i]@)
    }
}

impl ShapeInfo {
    /// The shapes of the given inputs.
    pub fn from_shapes(value: &[ShapeData]) -> (r: Self)
        ensures
            r@.len() == value@.len(),
            forall|i: int| 0 <= i < r@.len() ==> #[trigger] r@[i] == value@[i]@,
    {
        let mut shapes: Vec<ShapeData> = Vec::with_capacity(value.len());
        let mut i: usize = 0;
        while i < value.len()
            invariant
                i <= value@.len(),
                shapes@.len() == i,
                forall|j: int| 0 <= j < i ==> (#[trigger] shapes@[j])@ == value@[j]@,
            decreases value@.len() - i,
        {
            shapes.push(value[i].clone());
            i = i + 1;
        }
        ShapeInfo { shapes }
    }

    /// The shapes before padding.
    pub fn unpadded_input_shapes(&self) -> (r: Vec<Shape>)
        ensures
            r@.len() == self@.len(),
            forall|i: int| 0 <= i < r@.len() ==> (#[trigger] r@[i])@ == self@[i].og,
    {
        let mut r: Vec<Shape> = Vec::with_capacity(self.shapes.len());
        let mut i: usize = 0;
        while i < self.shapes.len()
            invariant
                i <= self@.len(),
                self@.len() == self.shapes@.len(),
                r@.len() == i,
                forall|j: int| 0 <= j < i ==> (#[trigger] r@[j])@ == self@[j].og,
            decreases self@.len() - i,
        {
            r.push(self.shapes[i].input_shape_og.clone());
            i = i + 1;
        }
        r
    }

    /// The shapes after padding.
    pub fn padded_input_shapes(&self) -> (r: Vec<Shape>)
        ensures
            r@.len() == self@.len(),
            forall|i: int| 0 <= i < r@.len() ==> (#[trigger] r@[i])@ == self@[i].padded,
    {
        let mut r: Vec<Shape> = Vec::with_capacity(self.shapes.len());
        let mut i: usize = 0;
        while i < self.shapes.len()
            invariant
                i <= self@.len(),
                self@.len() == self.shapes@.len(),
                r@.len() == i,
                forall|j: int| 0 <= j < i ==> (#[trigger] r@[j])@ == self@[j].padded,
            decreases self@.len() - i,
        {
            r.push(self.shapes[i].input_shape_padded.clone());
            i = i + 1;
        }
        r
    }

    /// No input has garbage.
    pub fn is_clean(&self) -> (r: bool)
        ensures
            r == (forall|i: int| 0 <= i < self@.len() ==> (#[trigger] self@[i]).garbage is None),
    {
        let mut i: usize = 0;
        while i < self.shapes.len()
            invariant
                i <= self@.len(),
                self@.len() == self.shapes@.len(),
                forall|j: int| 0 <= j < i ==> (#[trigger] self@[j]).garbage is None,
            decreases self@.len() - i,
        {
            if self.shapes[i].ignore_garbage_pad.is_some() {
                assert(self@[i as int].garbage is Some);
                return false;
            }
            i = i + 1;
        }
        true
    }
}

/// The padded size of a dimension of the weights: a power of two, and at least four, since a lookup of the result
/// needs two variables.
pub open spec fn minimum(dim: nat) -> nat {
    if npot(dim) < 4 {
        4
    } else {
        npot(dim)
    }
}

pub fn pad_minimum(dim: usize) -> (r: usize)
    requires
        npot(dim as nat) <= usize::MAX,
    ensures
        r == minimum(dim as nat),
{
    let r = arith::next_power_of_two(dim);
    if r < 4 {
        4
    } else {
        r
    }
}

} // verus!
