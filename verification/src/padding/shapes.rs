//! Layers that only change shapes.
use crate::layers::pooling::Pooling;
use crate::padding::{GarbageDims, GarbagePad, PadError, ShapeData, ShapeDims, ShapeInfo};
use crate::shape::Shape;
use crate::tensor::pad::all_pow2;
use vstd::prelude::*;

verus! {

/// The entries of a flattened output are those of the output, garbage included.
pub open spec fn flattened(d: ShapeDims) -> ShapeDims {
    ShapeDims { padded: d.padded, garbage: Some(GarbageDims::Convolution(d.og, d.padded)), og: d.og }
}

/// `after` are the shapes once the outputs are flattened.
pub open spec fn is_flattening(after: Seq<ShapeDims>, ds: Seq<ShapeDims>) -> bool {
    &&& after.len() == ds.len()
    &&& forall|i: int| 0 <= i < ds.len() ==> #[trigger] after[i] == flattened(ds[i])
}

/// Padding of a layer that flattens its inputs: what lies between the entries is garbage from then on.
pub fn reshape(si: &mut ShapeInfo)
    ensures
        is_flattening(final(si)@, old(si)@),
{
    let ghost start = si@;
    let n: usize = si.shapes.len();
    let mut out: Vec<ShapeData> = Vec::with_capacity(n);
    let mut i: usize = 0;
    while i < n
        invariant
            i <= n,
            n == si.shapes@.len(),
            si@ == start,
            out@.len() == i,
            forall|j: int| 0 <= j < i ==> (#[trigger] out@[j])@ == flattened(start[j]),
        decreases n - i,
    {
        let sd = &si.shapes[i];
        let garbage = GarbagePad::Convolution(sd.input_shape_og.clone(), sd.input_shape_padded.clone());
        proof {
            assert(sd@ == start[i as int]);
        }
        out.push(sd.clone().with_garbage_pad(garbage));
        i = i + 1;
    }
    si.shapes = out;
}

/// The shapes of the output of a pooling layer for one input, before and after padding; none where it has no shape.
#[derive(Debug)]
pub struct PooledShapes {
    pub og: Option<Shape>,
    pub padded: Option<Shape>,
}

/// The shapes of one input give an output.
pub open spec fn pools(d: ShapeDims, p: PooledShapes) -> bool {
    all_pow2(d.padded) && p.og is Some && p.padded is Some
}

/// The shapes of the output for one input.
pub open spec fn pooled(d: ShapeDims, p: PooledShapes) -> ShapeDims {
    ShapeDims { padded: p.padded->0@, garbage: d.garbage, og: p.og->0@ }
}

/// The shapes once the first `k` inputs are done.
pub open spec fn pooled_first(ds: Seq<ShapeDims>, ps: Seq<PooledShapes>, k: int) -> Seq<ShapeDims> {
    Seq::new(
        ds.len(),
        |i: int|
            if i < k {
                pooled(ds[i], ps[i])
            } else {
                ds[i]
            },
    )
}

/// The shapes of the input at fault: that before padding is changed where it can be.
pub open spec fn half_pooled(d: ShapeDims, p: PooledShapes) -> ShapeDims {
    ShapeDims {
        padded: d.padded,
        garbage: d.garbage,
        og: if all_pow2(d.padded) && p.og is Some {
            p.og->0@
        } else {
            d.og
        },
    }
}

/// `r` is what padding a maximum layer for the shapes `ds` gives, and `after` are the shapes then.
pub open spec fn is_maximum_padding(
    r: Result<Pooling, PadError>,
    after: Seq<ShapeDims>,
    p: Pooling,
    ds: Seq<ShapeDims>,
    outputs: Seq<PooledShapes>,
) -> bool {
    match r {
        Ok(q) => {
            &&& q == p
            &&& forall|i: int| 0 <= i < outputs.len() ==> pools(ds[i], #[trigger] outputs[i])
            &&& after == pooled_first(ds, outputs, outputs.len() as int)
        },
        Err(e) => exists|k: int|
            {
                &&& 0 <= k < outputs.len()
                &&& !pools(ds[k], #[trigger] outputs[k])
                &&& forall|i: int| 0 <= i < k ==> pools(ds[i], #[trigger] outputs[i])
                &&& e == (if !all_pow2(ds[k].padded) {
                    PadError::NotPadded
                } else {
                    PadError::OutputShape
                })
                &&& after == pooled_first(ds, outputs, k).update(
                    k,
                    half_pooled(ds[k], outputs[k]),
                )
            },
    }
}

/// Padding of a maximum layer: it keeps its parameters and changes the shapes. Where it fails, the shapes of the
/// inputs before the one at fault are changed already.
pub fn pooling(p: Pooling, si: &mut ShapeInfo, outputs: Vec<PooledShapes>) -> (r: Result<Pooling, PadError>)
    requires
        outputs@.len() == old(si)@.len(),
    ensures
        is_maximum_padding(r, final(si)@, p, old(si)@, outputs@),
{
    let ghost start = si@;
    let n: usize = outputs.len();
    let mut i: usize = 0;
    proof {
        assert(si@ =~= pooled_first(start, outputs@, 0));
    }
    while i < n
        invariant
            i <= n,
            n == outputs@.len(),
            n == si.shapes@.len(),
            n == start.len(),
            start == old(si)@,
            si@ == pooled_first(start, outputs@, i as int),
            forall|j: int| 0 <= j < i ==> pools(start[j], #[trigger] outputs@[j]),
        decreases n - i,
    {
        proof {
            assert(si@[i as int] == start[i as int]);
            assert(si.shapes@[i as int]@ == start[i as int]);
        }
        if !si.shapes[i].input_shape_padded.is_power_of_two() {
            proof {
                assert(!pools(start[i as int], outputs@[i as int]));
                assert(si@ =~= si@.update(i as int, half_pooled(start[i as int], outputs@[i as int])));
            }
            return Err(PadError::NotPadded);
        }
        match (&outputs[i].og, &outputs[i].padded) {
            (Some(og), Some(padded)) => {
                let old_data = si.shapes[i].clone();
                let data = ShapeData {
                    input_shape_padded: padded.clone(),
                    ignore_garbage_pad: old_data.ignore_garbage_pad,
                    input_shape_og: og.clone(),
                };
                proof {
                    assert(data@ == pooled(start[i as int], outputs@[i as int]));
                }
                let ghost before = si@;
                si.shapes.set(i, data);
                proof {
                    assert(si@ =~= before.update(i as int, data@));
                    assert(si@ =~= pooled_first(start, outputs@, i + 1));
                }
            },
            (Some(og), None) => {
                let ghost before = si@;
                let old_data = si.shapes[i].clone();
                let data = ShapeData { input_shape_og: og.clone(), ..old_data };
                si.shapes.set(i, data);
                proof {
                    assert(!pools(start[i as int], outputs@[i as int]));
                    assert(data@ == half_pooled(start[i as int], outputs@[i as int]));
                    assert(si@ =~= before.update(i as int, data@));
                }
                return Err(PadError::OutputShape);
            },
            _ => {
                proof {
                    assert(!pools(start[i as int], outputs@[i as int]));
                    assert(si@ =~= si@.update(i as int, half_pooled(start[i as int], outputs@[i as int])));
                }
                return Err(PadError::OutputShape);
            },
        }
        i = i + 1;
    }
    Ok(p)
}

/// The shapes of the output of a layer that averages every plane.
pub open spec fn averaged(d: ShapeDims) -> ShapeDims {
    ShapeDims { padded: seq![d.padded[0], 1usize, 1usize], garbage: d.garbage, og: seq![d.og[0], 1usize, 1usize] }
}

/// The shapes once the first `k` inputs are done.
pub open spec fn averaged_first(ds: Seq<ShapeDims>, k: int) -> Seq<ShapeDims> {
    Seq::new(
        ds.len(),
        |i: int|
            if i < k {
                averaged(ds[i])
            } else {
                ds[i]
            },
    )
}

/// `r` is what padding a layer that averages every plane gives, and `after` are the shapes then.
pub open spec fn is_average_padding(
    r: Result<Pooling, PadError>,
    after: Seq<ShapeDims>,
    p: Pooling,
    ds: Seq<ShapeDims>,
) -> bool {
    match r {
        Ok(q) => {
            &&& q == p
            &&& forall|i: int| 0 <= i < ds.len() ==> all_pow2((#[trigger] ds[i]).padded)
            &&& after == averaged_first(ds, ds.len() as int)
        },
        Err(e) => exists|k: int|
            {
                &&& 0 <= k < ds.len()
                &&& e == PadError::NotPadded
                &&& !all_pow2((#[trigger] ds[k]).padded)
                &&& forall|i: int| 0 <= i < k ==> all_pow2((#[trigger] ds[i]).padded)
                &&& after == averaged_first(ds, k)
            },
    }
}

/// Every padded input has channels.
pub open spec fn averageable(ds: Seq<ShapeDims>) -> bool {
    forall|i: int|
        0 <= i < ds.len() && all_pow2((#[trigger] ds[i]).padded) ==> ds[i].padded.len() >= 1 && ds[i].og.len() >= 1
}

/// Padding of a layer that averages every plane: one entry for every channel remains. Where it fails, the shapes
/// of the inputs before the one at fault are changed, and no others.
pub fn pad_average(p: Pooling, si: &mut ShapeInfo) -> (r: Result<Pooling, PadError>)
    requires
        averageable(old(si)@),
    ensures
        is_average_padding(r, final(si)@, p, old(si)@),
{
    let ghost start = si@;
    let n: usize = si.shapes.len();
    let mut i: usize = 0;
    proof {
        assert(si@ =~= averaged_first(start, 0));
    }
    while i < n
        invariant
            i <= n,
            n == si.shapes@.len(),
            n == start.len(),
            start == old(si)@,
            si@ == averaged_first(start, i as int),
            averageable(start),
            forall|j: int| 0 <= j < i ==> all_pow2((#[trigger] start[j]).padded),
        decreases n - i,
    {
        proof {
            assert(si@[i as int] == start[i as int]);
            assert(si.shapes@[i as int]@ == start[i as int]);
        }
        if !si.shapes[i].input_shape_padded.is_power_of_two() {
            return Err(PadError::NotPadded);
        }
        let old_data = si.shapes[i].clone();
        let c = old_data.input_shape_og.0[0];
        let c_pad = old_data.input_shape_padded.0[0];
        let og: Vec<usize> = vec![c, 1, 1];
        let padded: Vec<usize> = vec![c_pad, 1, 1];
        let data = ShapeData {
            input_shape_padded: Shape(padded),
            ignore_garbage_pad: old_data.ignore_garbage_pad,
            input_shape_og: Shape(og),
        };
        proof {
            assert(data@.padded =~= averaged(start[i as int]).padded);
            assert(data@.og =~= averaged(start[i as int]).og);
        }
        let ghost before = si@;
        si.shapes.set(i, data);
        proof {
            assert(si@ =~= before.update(i as int, data@));
            assert(si@ =~= averaged_first(start, i + 1));
        }
        i = i + 1;
    }
    Ok(p)
}

/// Shapes of outputs without garbage.
pub open spec fn clean_shapes(og: Seq<Shape>, padded: Seq<Shape>) -> Seq<ShapeDims> {
    Seq::new(og.len(), |i: int| ShapeDims { padded: padded[i]@, garbage: None, og: og[i]@ })
}

pub(crate) fn clean_shape_info(og: Vec<Shape>, padded: Vec<Shape>) -> (r: ShapeInfo)
    requires
        og@.len() == padded@.len(),
    ensures
        r@ == clean_shapes(og@, padded@),
{
    let mut shapes: Vec<ShapeData> = Vec::with_capacity(og.len());
    let mut i: usize = 0;
    while i < og.len()
        invariant
            i <= og@.len(),
            og@.len() == padded@.len(),
            shapes@.len() == i,
            forall|j: int| 0 <= j < i ==> (#[trigger] shapes@[j])@ == clean_shapes(og@, padded@)[j],
        decreases og@.len() - i,
    {
        shapes.push(
            ShapeData {
                input_shape_padded: padded[i].clone(),
                ignore_garbage_pad: None,
                input_shape_og: og[i].clone(),
            },
        );
        i = i + 1;
    }
    let r = ShapeInfo { shapes };
    proof {
        assert(r@ =~= clean_shapes(og@, padded@));
    }
    r
}

/// What a product of two batches of matrices without weights knows of its shapes.
#[derive(Debug)]
pub struct ConcatMatMulShapes {
    /// The shapes before padding fit to each other.
    pub unpadded_consistent: bool,
    /// The shapes after padding fit to each other.
    pub padded_consistent: bool,
    pub unpadded_output_shapes: Vec<Shape>,
    pub padded_output_shapes: Vec<Shape>,
    pub expected_num_outputs: usize,
}

/// What keeps a product of two batches of matrices from being padded.
pub open spec fn concat_error(ds: Seq<ShapeDims>, m: ConcatMatMulShapes) -> Option<PadError> {
    if ds.len() != 2 {
        Some(PadError::InputCount)
    } else if !m.unpadded_consistent {
        Some(PadError::Inconsistent)
    } else if m.unpadded_output_shapes@.len() != m.expected_num_outputs {
        Some(PadError::OutputCount)
    } else if !m.padded_consistent {
        Some(PadError::Inconsistent)
    } else if !all_pow2(ds[0].padded) || !all_pow2(ds[1].padded) {
        Some(PadError::NotPadded)
    } else if m.padded_output_shapes@.len() != m.expected_num_outputs {
        Some(PadError::OutputCount)
    } else if ds[0].garbage is Some || ds[1].garbage is Some {
        Some(PadError::Garbage)
    } else {
        None
    }
}

/// `r` is what padding a product of two batches of matrices gives, and `after` are the shapes then.
pub open spec fn is_concat_padding(
    r: Result<(), PadError>,
    after: Seq<ShapeDims>,
    mat: ConcatMatMulShapes,
    ds: Seq<ShapeDims>,
) -> bool {
    match r {
        Ok(_) => {
            &&& concat_error(ds, mat) is None
            &&& after == clean_shapes(mat.unpadded_output_shapes@, mat.padded_output_shapes@)
        },
        Err(e) => concat_error(ds, mat) == Some(e) && after == ds,
    }
}

/// Padding of a product of two batches of matrices: there are no weights to pad, only the shapes change.
pub fn pad_concat_mat_mul(mat: ConcatMatMulShapes, si: &mut ShapeInfo) -> (r: Result<(), PadError>)
    ensures
        is_concat_padding(r, final(si)@, mat, old(si)@),
{
    if si.shapes.len() != 2 {
        return Err(PadError::InputCount);
    }
    if !mat.unpadded_consistent {
        return Err(PadError::Inconsistent);
    }
    if mat.unpadded_output_shapes.len() != mat.expected_num_outputs {
        return Err(PadError::OutputCount);
    }
    if !mat.padded_consistent {
        return Err(PadError::Inconsistent);
    }
    proof {
        assert(si@[0] == si.shapes@[0]@);
        assert(si@[1] == si.shapes@[1]@);
    }
    if !si.shapes[0].input_shape_padded.is_power_of_two() || !si.shapes[1].input_shape_padded.is_power_of_two() {
        return Err(PadError::NotPadded);
    }
    if mat.padded_output_shapes.len() != mat.expected_num_outputs {
        return Err(PadError::OutputCount);
    }
    if si.shapes[0].ignore_garbage_pad.is_some() || si.shapes[1].ignore_garbage_pad.is_some() {
        return Err(PadError::Garbage);
    }
    *si = clean_shape_info(mat.unpadded_output_shapes, mat.padded_output_shapes);
    Ok(())
}

/// The shapes once the first outputs are known; the garbage remains.
pub open spec fn reshaped(ds: Seq<ShapeDims>, og: Seq<Shape>, padded: Seq<Shape>) -> Seq<ShapeDims> {
    Seq::new(
        ds.len(),
        |i: int|
            if i < og.len() {
                ShapeDims { padded: padded[i]@, garbage: ds[i].garbage, og: og[i]@ }
            } else {
                ds[i]
            },
    )
}

/// `r` is what padding a layer that reshapes its inputs gives, and `after` are the shapes then.
pub open spec fn is_reshape_padding(
    r: Result<(), PadError>,
    after: Seq<ShapeDims>,
    og: Seq<Shape>,
    padded: Seq<Shape>,
    ds: Seq<ShapeDims>,
) -> bool {
    match r {
        Ok(_) => {
            &&& og.len() == padded.len()
            &&& after == reshaped(ds, og, padded)
        },
        Err(e) => {
            &&& e == PadError::OutputCount
            &&& og.len() != padded.len()
            &&& after == ds
        },
    }
}

/// Padding of a layer that reshapes its inputs: the shapes change, as far as there are outputs.
pub fn pad_reshape_layer(unpadded_output_shapes: Vec<Shape>, padded_output_shapes: Vec<Shape>, si: &mut ShapeInfo) -> (r:
    Result<(), PadError>)
    ensures
        is_reshape_padding(r, final(si)@, unpadded_output_shapes@, padded_output_shapes@, old(si)@),
{
    if unpadded_output_shapes.len() != padded_output_shapes.len() {
        return Err(PadError::OutputCount);
    }
    let ghost start = si@;
    let count: usize = si.shapes.len();
    let n: usize = if count <= unpadded_output_shapes.len() {
        count
    } else {
        unpadded_output_shapes.len()
    };
    let mut i: usize = 0;
    while i < n
        invariant
            i <= n,
            n <= unpadded_output_shapes@.len(),
            n <= start.len(),
            unpadded_output_shapes@.len() == padded_output_shapes@.len(),
            si.shapes@.len() == start.len(),
            forall|j: int|
                0 <= j < start.len() ==> #[trigger] si@[j] == (if j < i {
                    reshaped(start, unpadded_output_shapes@, padded_output_shapes@)[j]
                } else {
                    start[j]
                }),
        decreases n - i,
    {
        let old_data = si.shapes[i].clone();
        let ghost before = si@;
        proof {
            assert(before[i as int] == start[i as int]);
        }
        let data = ShapeData {
            input_shape_padded: padded_output_shapes[i].clone(),
            ignore_garbage_pad: old_data.ignore_garbage_pad,
            input_shape_og: unpadded_output_shapes[i].clone(),
        };
        si.shapes.set(i, data);
        proof {
            assert(si@ =~= before.update(i as int, data@));
        }
        i = i + 1;
    }
    proof {
        assert(si@ =~= reshaped(start, unpadded_output_shapes@, padded_output_shapes@));
    }
    Ok(())
}

} // verus!
