//! Padding of attention layers.
use crate::layers::transformer::mha::{is_padded_mha, Mha};
use crate::padding::shapes::{
    clean_shapes, concat_error, pad_concat_mat_mul, pad_reshape_layer, reshaped, ConcatMatMulShapes,
};
use crate::padding::{GarbageDims, PadError, ShapeDims, ShapeInfo};
use crate::shape::Shape;
use vstd::prelude::*;

verus! {

/// The shapes of the outputs of a layer that reshapes its inputs, before and after padding.
#[derive(Debug)]
pub struct ReshapedShapes {
    pub unpadded: Vec<Shape>,
    pub padded: Vec<Shape>,
}

/// What the parts of an attention layer know of their shapes, in the order in which they follow each other.
#[derive(Debug)]
pub struct MhaShapes {
    pub inputs: ReshapedShapes,
    pub qk: ConcatMatMulShapes,
    /// The shapes that the softmax hands on.
    pub softmax: Result<ShapeInfo, PadError>,
    pub final_mul: ConcatMatMulShapes,
    pub outputs: ReshapedShapes,
}

/// The shapes of the queries and keys, once they are reshaped: the values wait for the last product.
pub open spec fn qk_shapes(ds: Seq<ShapeDims>, s: MhaShapes) -> Seq<ShapeDims> {
    reshaped(ds, s.inputs.unpadded@, s.inputs.padded@).drop_last()
}

/// The shapes of the weights of the attention and of the values.
pub open spec fn final_mul_shapes(ds: Seq<ShapeDims>, s: MhaShapes) -> Seq<ShapeDims> {
    s.softmax->Ok_0@.push(reshaped(ds, s.inputs.unpadded@, s.inputs.padded@).last())
}

/// The shapes of the output before it is reshaped: what lies between the padded heads is garbage.
pub open spec fn garbage_shapes(s: MhaShapes) -> Seq<ShapeDims> {
    let d = clean_shapes(s.final_mul.unpadded_output_shapes@, s.final_mul.padded_output_shapes@)[0];
    seq![ShapeDims { padded: d.padded, garbage: Some(GarbageDims::MHA(d.og, d.padded)), og: d.og }]
}

/// What keeps an attention layer from being padded for the shapes `ds` of its inputs, and the shapes once it is padded
/// or fails.
pub open spec fn mha_padding(ds: Seq<ShapeDims>, s: MhaShapes) -> (Option<PadError>, Seq<ShapeDims>) {
    if s.inputs.unpadded@.len() != s.inputs.padded@.len() {
        (Some(PadError::OutputCount), ds)
    } else if concat_error(qk_shapes(ds, s), s.qk) is Some {
        (concat_error(qk_shapes(ds, s), s.qk), qk_shapes(ds, s))
    } else if s.softmax is Err {
        (Some(s.softmax->Err_0), clean_shapes(s.qk.unpadded_output_shapes@, s.qk.padded_output_shapes@))
    } else if concat_error(final_mul_shapes(ds, s), s.final_mul) is Some {
        (concat_error(final_mul_shapes(ds, s), s.final_mul), final_mul_shapes(ds, s))
    } else if s.final_mul.unpadded_output_shapes@.len() != 1 {
        (
            Some(PadError::OutputCount),
            clean_shapes(s.final_mul.unpadded_output_shapes@, s.final_mul.padded_output_shapes@),
        )
    } else if s.outputs.unpadded@.len() != s.outputs.padded@.len() {
        (Some(PadError::OutputCount), garbage_shapes(s))
    } else {
        (None, reshaped(garbage_shapes(s), s.outputs.unpadded@, s.outputs.padded@))
    }
}

/// `r` is what padding the layer for the shapes `ds` gives, and `after` are the shapes then.
pub open spec fn is_mha_padding(
    r: Result<Mha, PadError>,
    after: Seq<ShapeDims>,
    m: &Mha,
    ds: Seq<ShapeDims>,
    s: MhaShapes,
) -> bool {
    let (error, shapes) = mha_padding(ds, s);
    &&& after == shapes
    &&& match r {
        Ok(q) => error is None && is_padded_mha(&q, m),
        Err(e) => error == Some(e),
    }
}

/// Padding of an attention layer: its parts are padded one after the other, each for the shapes that the one before it
/// hands on.
pub fn pad_mha(mha: Mha, si: &mut ShapeInfo, shapes: MhaShapes) -> (r: Result<Mha, PadError>)
    requires
        old(si)@.len() > 0,
        mha.heads_fit(),
    ensures
        is_mha_padding(r, final(si)@, &mha, old(si)@, shapes),
{
    let ghost ds = si@;
    match pad_reshape_layer(shapes.inputs.unpadded, shapes.inputs.padded, si) {
        Ok(_) => {},
        Err(e) => {
            return Err(e);
        },
    }
    let ghost given = si@;
    let v_shape = match si.shapes.pop() {
        Some(v) => v,
        None => {
            return Err(PadError::InputCount);
        },
    };
    proof {
        assert(given.last() == v_shape@);
        assert(si@ =~= qk_shapes(ds, shapes));
    }
    match pad_concat_mat_mul(shapes.qk, si) {
        Ok(_) => {},
        Err(e) => {
            return Err(e);
        },
    }
    match shapes.softmax {
        Ok(s) => {
            *si = s;
        },
        Err(e) => {
            return Err(e);
        },
    }
    si.shapes.push(v_shape);
    proof {
        assert(si@ =~= final_mul_shapes(ds, shapes));
    }
    match pad_concat_mat_mul(shapes.final_mul, si) {
        Ok(_) => {},
        Err(e) => {
            return Err(e);
        },
    }
    let mut mha = mha;
    match mha.pad_output(si) {
        Ok(_) => {},
        Err(e) => {
            return Err(e);
        },
    }
    proof {
        assert(si@ =~= garbage_shapes(shapes));
    }
    match pad_reshape_layer(shapes.outputs.unpadded, shapes.outputs.padded, si) {
        Ok(_) => Ok(mha),
        Err(e) => Err(e),
    }
}

} // verus!
