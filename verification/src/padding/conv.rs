//! Padding of convolution layers.
use crate::arith::{clog2, lemma_clog2_unique, npot};
use crate::layers::convolution::apply::{frame_fits, framed_shape};
use crate::layers::convolution::laws::{is_filter_shape, is_padded_layer};
use crate::layers::convolution::Convolution;
use crate::number::Element;
use crate::padding::{padded_shape_of, PadError, ShapeData, ShapeDims, ShapeInfo};
use crate::shape::{lemma_prod_of_rank, nonzero, prod, Shape};
use crate::tensor::pad::{all_pow2, npots, npots_fit, padded};
use vstd::arithmetic::power2::{lemma_pow2_pos, lemma_pow2_strictly_increases, lemma_pow2_unfold, pow2};
use vstd::prelude::*;

verus! {

/// The shapes that the output shapes of a convolution follow from: those of the framed input, and that of the padded
/// filter.
#[derive(Debug)]
pub struct EffectiveShapes {
    pub og: Shape,
    pub padded: Shape,
    pub weight: Shape,
}

/// What keeps a convolution layer from being padded, as far as the layer and its input are concerned.
pub open spec fn conv_error(c: &Convolution<Element>, ds: Seq<ShapeDims>, filter_ok: bool) -> Option<PadError> {
    if ds.len() != 1 {
        Some(PadError::InputCount)
    } else if !filter_ok {
        Some(PadError::Filter)
    } else if c.filter.shape@[0] != c.bias.shape@[0] {
        Some(PadError::Bias)
    } else if !all_pow2(ds[0].padded) {
        Some(PadError::NotPadded)
    } else if ds[0].padded.len() != 3 {
        Some(PadError::InputRank)
    } else {
        None
    }
}

/// The layer has a frame.
pub open spec fn has_frame(c: &Convolution<Element>) -> bool {
    c.frame().0 > 0 || c.frame().1 > 0
}

/// The shape of the framed input before padding.
pub open spec fn effective_og(c: &Convolution<Element>, d: ShapeDims) -> Seq<usize> {
    if has_frame(c) {
        framed_shape(d.og, c.frame().0, c.frame().1)
    } else {
        d.og
    }
}

/// The shape of the framed input after padding.
pub open spec fn effective_padded(c: &Convolution<Element>, d: ShapeDims) -> Seq<usize> {
    if has_frame(c) {
        npots(effective_og(c, d))
    } else {
        d.padded
    }
}

/// The framed input has a shape.
pub open spec fn effective_ok(c: &Convolution<Element>, ds: Seq<ShapeDims>, filter_ok: bool) -> bool {
    &&& c.filter.shape@.len() == 4
    &&& c.bias.shape@.len() >= 1
    &&& npots_fit(c.filter.shape@)
    &&& conv_error(c, ds, filter_ok) is None && has_frame(c) ==> {
        &&& ds[0].og.len() == 3
        &&& frame_fits(ds[0].og, c.frame().0, c.frame().1)
        &&& npots_fit(effective_og(c, ds[0]))
    }
}

impl Convolution<Element> {
    /// The shapes that the output shapes follow from.
    pub fn effective_shapes(&self, si: &ShapeInfo, filter_ok: bool) -> (r: Result<EffectiveShapes, PadError>)
        requires
            effective_ok(self, si@, filter_ok),
        ensures
            match r {
                Ok(e) => {
                    &&& conv_error(self, si@, filter_ok) is None
                    &&& e.og@ == effective_og(self, si@[0])
                    &&& e.padded@ == effective_padded(self, si@[0])
                    &&& e.weight@ == npots(self.filter.shape@)
                },
                Err(e) => conv_error(self, si@, filter_ok) == Some(e),
            },
    {
        if si.shapes.len() != 1 {
            return Err(PadError::InputCount);
        }
        if !filter_ok {
            return Err(PadError::Filter);
        }
        if self.filter.shape.0[0] != self.bias.shape.0[0] {
            return Err(PadError::Bias);
        }
        let sd = &si.shapes[0];
        assert(si@[0] == sd@);
        if !sd.input_shape_padded.is_power_of_two() {
            return Err(PadError::NotPadded);
        }
        if sd.input_shape_padded.rank() != 3 {
            return Err(PadError::InputRank);
        }
        let weight = padded_shape_of(&self.filter.shape);
        if self.input_padding[0] > 0 || self.input_padding[1] > 0 {
            let og = self.effective_input_shape(&sd.input_shape_og);
            let padded = padded_shape_of(&og);
            Ok(EffectiveShapes { og, padded, weight })
        } else {
            Ok(EffectiveShapes { og: sd.input_shape_og.clone(), padded: sd.input_shape_padded.clone(), weight })
        }
    }
}

/// The filter is at most as large as the padded input.
pub open spec fn filter_fits(c: &Convolution<Element>, d: ShapeDims) -> bool {
    let w = npots(c.filter.shape@);
    let e = effective_padded(c, d);
    w[2] <= e[1] && w[3] <= e[2]
}

/// What keeps a convolution layer from being padded, given its output shapes.
pub open spec fn pad_conv_error(
    c: &Convolution<Element>,
    ds: Seq<ShapeDims>,
    filter_ok: bool,
    output_og: Option<Shape>,
    output_padded: Option<Shape>,
) -> Option<PadError> {
    if conv_error(c, ds, filter_ok) is Some {
        conv_error(c, ds, filter_ok)
    } else if output_og is None {
        Some(PadError::OutputShape)
    } else if !filter_fits(c, ds[0]) {
        Some(PadError::FilterSize)
    } else if output_padded is None {
        Some(PadError::OutputShape)
    } else {
        None
    }
}

/// The layer can be padded for an input of the given shape before padding.
pub open spec fn paddable_for(c: &Convolution<Element>, og: Seq<usize>) -> bool {
    let e = framed_shape(og, c.frame().0, c.frame().1);
    &&& c.filter.wf()
    &&& nonzero(c.filter.shape@)
    &&& prod(npots(c.filter.shape@)) <= usize::MAX
    &&& c.bias.wf()
    &&& c.bias.shape@.len() == 1
    &&& npots_fit(c.bias.shape@)
    &&& frame_fits(og, c.frame().0, c.frame().1)
    &&& e.len() > 1
    &&& npots_fit(e)
    &&& npot(c.filter.shape@[2] as nat) <= npot(e[1] as nat)
}

/// `r` is the layer with its weights padded for an input of the given shape before padding.
pub open spec fn is_padded_conv(r: &Convolution<Element>, c: &Convolution<Element>, og: Seq<usize>) -> bool {
    let fs = c.filter.shape@;
    let e = framed_shape(og, c.frame().0, c.frame().1);
    let n = npot((npot(e[1] as nat) - npot(fs[2] as nat) + 1) as nat) as usize;
    &&& r.filter.data@ == padded(c.filter.data@, fs, npots(fs), 0)
    &&& r.filter.shape@ == seq![npots(fs)[0], npots(fs)[1], n, n]
    &&& r.filter.og_shape@ == npots(fs)
    &&& r.bias.wf()
    &&& r.bias.shape@ == npots(c.bias.shape@)
    &&& r.bias.data@ == padded(c.bias.data@, c.bias.shape@, npots(c.bias.shape@), 0)
    &&& r.unpadded_shape@ == c.unpadded_shape@
    &&& r.input_padding == c.input_padding
    &&& r.stride == c.stride
}

/// The layer, its input and its output are of a form that can be padded.
pub open spec fn conv_ok(
    c: &Convolution<Element>,
    ds: Seq<ShapeDims>,
    filter_ok: bool,
    output_og: Option<Shape>,
    output_padded: Option<Shape>,
) -> bool {
    &&& effective_ok(c, ds, filter_ok)
    &&& conv_error(c, ds, filter_ok) is None && output_og is Some && filter_fits(c, ds[0]) ==> paddable_for(c, ds[0].og)
    &&& output_padded matches Some(s) ==> npots_fit(s@)
}

/// `r` is what padding the layer for the shapes `ds` gives, and `after` are the shapes then. Where it fails once the
/// output has a shape, the input has that shape already.
pub open spec fn is_conv_padding(
    r: Result<Convolution<Element>, PadError>,
    after: Seq<ShapeDims>,
    c: &Convolution<Element>,
    ds: Seq<ShapeDims>,
    filter_ok: bool,
    output_og: Option<Shape>,
    output_padded: Option<Shape>,
) -> bool {
    match r {
        Ok(q) => {
            &&& pad_conv_error(c, ds, filter_ok, output_og, output_padded) is None
            &&& is_padded_conv(&q, c, ds[0].og)
            &&& after == seq![
                ShapeDims { padded: npots(output_padded->0@), garbage: ds[0].garbage, og: output_og->0@ },
            ]
        },
        Err(e) => {
            &&& pad_conv_error(c, ds, filter_ok, output_og, output_padded) == Some(e)
            &&& after == (if conv_error(c, ds, filter_ok) is Some || output_og is None {
                ds
            } else {
                seq![ShapeDims { padded: ds[0].padded, garbage: ds[0].garbage, og: output_og->0@ }]
            })
        },
    }
}

/// Padding of a convolution layer: its filter is padded to match the input. `filter_ok` says whether the filter is one
/// that is supported; `output_og` and `output_padded` are the output shapes for the shapes of `effective_shapes`, where
/// there are any.
pub fn pad_conv(
    c: Convolution<Element>,
    si: &mut ShapeInfo,
    filter_ok: bool,
    output_og: Option<Shape>,
    output_padded: Option<Shape>,
) -> (r: Result<Convolution<Element>, PadError>)
    requires
        conv_ok(&c, old(si)@, filter_ok, output_og, output_padded),
    ensures
        is_conv_padding(r, final(si)@, &c, old(si)@, filter_ok, output_og, output_padded),
{
    let effective = match c.effective_shapes(si, filter_ok) {
        Ok(e) => e,
        Err(e) => {
            return Err(e);
        },
    };
    let og = match output_og {
        Some(og) => og,
        None => {
            return Err(PadError::OutputShape);
        },
    };
    let old_data = si.shapes[0].clone();
    let input_og = si.shapes[0].input_shape_og.clone();
    let ghost d = si@[0];
    let data = ShapeData { input_shape_og: og.clone(), ..old_data };
    si.shapes.set(0, data);
    proof {
        assert(si@ =~= seq![ShapeDims { padded: d.padded, garbage: d.garbage, og: og@ }]);
    }
    if effective.weight.0[2] > effective.padded.0[1] || effective.weight.0[3] > effective.padded.0[2] {
        return Err(PadError::FilterSize);
    }
    let padded_conv = c.into_padded_and_ffted(&input_og);
    let padded = match output_padded {
        Some(s) => padded_shape_of(&s),
        None => {
            return Err(PadError::OutputShape);
        },
    };
    let data = ShapeData {
        input_shape_padded: padded,
        ignore_garbage_pad: si.shapes[0].clone().ignore_garbage_pad,
        input_shape_og: og,
    };
    si.shapes.set(0, data);
    proof {
        assert(si@ =~= seq![data@]);
    }
    Ok(padded_conv)
}

/// A padded filter matches the input: where the filter is smaller than the input after padding, its side is that of the
/// framed input, rounded up to a power of two.
pub proof fn law_padded_filter_matches_the_input(
    r: &Convolution<Element>,
    c: &Convolution<Element>,
    og: Seq<usize>,
)
    requires
        paddable_for(c, og),
        is_padded_conv(r, c, og),
        npot(c.filter.shape@[2] as nat) < npot(framed_shape(og, c.frame().0, c.frame().1)[1] as nat),
    ensures
        r.filter.shape@[2] == npot(framed_shape(og, c.frame().0, c.frame().1)[1] as nat),
        r.filter.shape@[3] == r.filter.shape@[2],
{
    let m = npot(framed_shape(og, c.frame().0, c.frame().1)[1] as nat);
    let k = npot(c.filter.shape@[2] as nat);
    let a = clog2(framed_shape(og, c.frame().0, c.frame().1)[1] as nat);
    let b = clog2(c.filter.shape@[2] as nat);
    assert(m == pow2(a) && k == pow2(b));
    if a <= b {
        if a < b {
            lemma_pow2_strictly_increases(a, b);
        }
        assert(false);
    }
    if b < a - 1 {
        lemma_pow2_strictly_increases(b, (a - 1) as nat);
    }
    lemma_pow2_unfold(a);
    lemma_pow2_pos(b);
    lemma_clog2_unique((m - k + 1) as nat, a);
    assert(m <= usize::MAX);
}

/// The padded layer is one that computes the convolution with the filter and the bias of the layer by its definition, as
/// `law_op_is_conv2d` says: where the filter is square and smaller than the input after padding.
pub proof fn law_padded_conv_is_a_padded_layer(r: &Convolution<Element>, c: &Convolution<Element>, og: Seq<usize>)
    requires
        paddable_for(c, og),
        is_padded_conv(r, c, og),
        is_filter_shape(c.filter.shape@),
        c.bias.shape@[0] == c.filter.shape@[0],
        c.unpadded_shape@ == c.filter.shape@,
        npot(c.filter.shape@[2] as nat) < npot(framed_shape(og, c.frame().0, c.frame().1)[1] as nat),
    ensures
        is_padded_layer(
            r,
            c.filter.data@,
            c.filter.shape@,
            c.bias.data@,
            npot(framed_shape(og, c.frame().0, c.frame().1)[1] as nat) as int,
        ),
{
    law_padded_filter_matches_the_input(r, c, og);
    lemma_prod_of_rank(c.bias.shape@);
    assert(c.bias.shape@ =~= seq![c.filter.shape@[0]]);
}

} // verus!
