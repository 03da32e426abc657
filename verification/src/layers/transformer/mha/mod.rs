//! Multi-head attention.
pub mod flow;
pub mod garbage;
pub mod laws;
pub mod mask;

use crate::arith::{self, npot};
use crate::iop::context::ContextAux;
use crate::iop::Claim;
use crate::layers::LayerError;
use crate::number::Element;
use crate::padding::{GarbageDims, GarbagePad, PadError, ShapeDims, ShapeInfo};
use crate::shape::{copy_shapes, same_shapes, Shape};
use crate::tensor::Tensor;
use vstd::prelude::*;
use vstd::slice::slice_subrange;

verus! {

/// A reshape that replaces the dimensions from `start` up to `end` by others.
#[derive(Debug)]
pub struct SubspaceReshape {
    pub start: usize,
    pub end: usize,
    pub to_add: Vec<usize>,
}

/// The roles of the dimensions of a factor of a batched product: which one runs over the batch, which one is summed
/// over, and which one remains.
#[derive(Debug, Clone, Copy, PartialEq, Eq, Structural)]
pub struct InputMatrixDimensions {
    pub concat_dim: usize,
    pub mat_mul_dim: usize,
    pub output_dim: usize,
}

/// A batched product of matrices, and the order that the dimensions of the result are put into.
#[derive(Debug)]
pub struct ConcatMatMul {
    pub left: InputMatrixDimensions,
    pub right: InputMatrixDimensions,
    pub permutation: Option<Vec<usize>>,
    /// The shapes that the size of the intermediate results is computed for.
    pub max_shapes: (Shape, Shape),
}

/// An attention layer: queries, keys and values are split into heads, queries are multiplied by keys, and the result,
/// after a softmax, by values; the heads are joined again.
#[derive(Debug)]
pub struct Mha {
    pub inputs_reshape: SubspaceReshape,
    pub context_length: usize,
    pub num_heads: usize,
    pub head_dim: usize,
    pub qk: ConcatMatMul,
    pub final_mul: ConcatMatMul,
    pub final_reshape: SubspaceReshape,
}

/// The parts of an attention layer that are proved as layers of their own.
#[derive(Debug, Clone, Copy, PartialEq, Eq, Structural)]
pub enum SubLayer {
    Qk,
    Softmax,
    FinalMul,
}

impl SubLayer {
    /// The bytes that tell the parts apart.
    pub open spec fn separator(self) -> Seq<u64> {
        match self {
            // qk
            SubLayer::Qk => seq![113u64, 107],
            // softmax
            SubLayer::Softmax => seq![115u64, 111, 102, 116, 109, 97, 120],
            // final_mul
            SubLayer::FinalMul => seq![102u64, 105, 110, 97, 108, 95, 109, 117, 108],
        }
    }
}

/// `q` is the layer with its heads padded.
pub open spec fn is_padded_mha(q: &Mha, m: &Mha) -> bool {
    let (h, d) = m.padded_dims();
    &&& q.num_heads == h
    &&& q.head_dim == d
    &&& q.final_reshape.to_add@ == seq![(d * h) as usize]
    &&& q.final_reshape.start == m.final_reshape.start
    &&& q.final_reshape.end == m.final_reshape.end
    &&& q.context_length == m.context_length
    &&& q.inputs_reshape == m.inputs_reshape
    &&& q.qk == m.qk
    &&& q.final_mul == m.final_mul
}

impl Mha {
    /// The parts of the layer fit to the number and the width of the heads.
    pub open spec fn wf(&self) -> bool {
        let (n, h, d) = (self.context_length, self.num_heads, self.head_dim);
        &&& self.inputs_reshape.start == 1
        &&& self.inputs_reshape.end == 2
        &&& self.inputs_reshape.to_add@ == seq![h, d]
        &&& self.qk.left == (InputMatrixDimensions { concat_dim: 1, mat_mul_dim: 2, output_dim: 0 })
        &&& self.qk.right == (InputMatrixDimensions { concat_dim: 1, mat_mul_dim: 2, output_dim: 0 })
        &&& self.qk.permutation is None
        &&& self.qk.max_shapes.0@ == seq![n, h, d]
        &&& self.qk.max_shapes.1@ == seq![n, h, d]
        &&& self.final_mul.left == (InputMatrixDimensions { concat_dim: 0, mat_mul_dim: 2, output_dim: 1 })
        &&& self.final_mul.right == (InputMatrixDimensions { concat_dim: 1, mat_mul_dim: 0, output_dim: 2 })
        &&& self.final_mul.permutation is Some
        &&& self.final_mul.permutation->0@ == seq![1usize, 0, 2]
        &&& self.final_mul.max_shapes.0@ == seq![h, n, n]
        &&& self.final_mul.max_shapes.1@ == seq![n, h, d]
        &&& self.final_reshape.start == 1
        &&& self.final_reshape.end == 3
        &&& self.final_reshape.to_add@ == seq![(h * d) as usize]
    }

    pub fn new(context_length: usize, num_heads: usize, head_dim: usize) -> (r: Self)
        requires
            num_heads * head_dim <= usize::MAX,
        ensures
            r.context_length == context_length,
            r.num_heads == num_heads,
            r.head_dim == head_dim,
            r.wf(),
    {
        let per_head = InputMatrixDimensions { concat_dim: 1, mat_mul_dim: 2, output_dim: 0 };
        let qk = ConcatMatMul {
            left: per_head,
            right: per_head,
            permutation: None,
            max_shapes: (
                Shape::new(vec![context_length, num_heads, head_dim]),
                Shape::new(vec![context_length, num_heads, head_dim]),
            ),
        };
        let final_mul = ConcatMatMul {
            left: InputMatrixDimensions { concat_dim: 0, mat_mul_dim: 2, output_dim: 1 },
            right: InputMatrixDimensions { concat_dim: 1, mat_mul_dim: 0, output_dim: 2 },
            permutation: Some(vec![1, 0, 2]),
            max_shapes: (
                Shape::new(vec![num_heads, context_length, context_length]),
                Shape::new(vec![context_length, num_heads, head_dim]),
            ),
        };
        let heads: Vec<usize> = vec![num_heads, head_dim];
        let joined: Vec<usize> = vec![num_heads * head_dim];
        let r = Mha {
            inputs_reshape: SubspaceReshape { start: 1, end: 2, to_add: heads },
            context_length,
            num_heads,
            head_dim,
            qk,
            final_mul,
            final_reshape: SubspaceReshape { start: 1, end: 3, to_add: joined },
        };
        proof {
            assert(r.inputs_reshape.to_add@ =~= seq![num_heads, head_dim]);
            assert(r.final_reshape.to_add@ =~= seq![(num_heads * head_dim) as usize]);
            assert(r.qk.max_shapes.0@ =~= seq![context_length, num_heads, head_dim]);
            assert(r.qk.max_shapes.1@ =~= seq![context_length, num_heads, head_dim]);
            assert(r.final_mul.max_shapes.0@ =~= seq![num_heads, context_length, context_length]);
            assert(r.final_mul.max_shapes.1@ =~= seq![context_length, num_heads, head_dim]);
            assert(r.final_mul.permutation->0@ =~= seq![1usize, 0, 2]);
        }
        r
    }

    /// An attention layer has one output.
    pub fn num_outputs(&self, _num_inputs: usize) -> (r: usize)
        ensures
            r == 1,
    {
        1
    }

    /// An attention layer can be proved.
    pub fn is_provable(&self) -> (r: bool)
        ensures
            r,
    {
        true
    }

    /// What the identifier of a part of the layer is the hash of: the node, and the name of the part.
    pub fn ephemeral_node_payload(node_id: usize, part: SubLayer) -> (r: Vec<u64>)
        ensures
            r@ == seq![node_id as u64] + part.separator(),
    {
        let mut r: Vec<u64> = vec![node_id as u64];
        let mut name: Vec<u64> = match part {
            SubLayer::Qk => vec![113, 107],
            SubLayer::Softmax => vec![115, 111, 102, 116, 109, 97, 120],
            SubLayer::FinalMul => vec![102, 105, 110, 97, 108, 95, 109, 117, 108],
        };
        proof {
            assert(name@ =~= part.separator());
        }
        r.append(&mut name);
        proof {
            assert(r@ =~= seq![node_id as u64] + part.separator());
        }
        r
    }

    /// The shapes of the inputs before padding: those given, or those of the inputs where none are.
    pub fn unpadded_shapes(inputs: &Vec<Tensor<Element>>, unpadded_input_shapes: Vec<Shape>) -> (r: Result<
        Vec<Shape>,
        LayerError,
    >)
        requires
            unpadded_input_shapes@.len() == 0 ==> forall|i: int|
                0 <= i < inputs@.len() ==> (#[trigger] inputs@[i]).shape@.len() > 0,
        ensures
            match r {
                Ok(s) => {
                    &&& inputs@.len() == 3
                    &&& unpadded_input_shapes@.len() > 0 ==> s == unpadded_input_shapes
                    &&& unpadded_input_shapes@.len() == 0 ==> {
                        &&& s@.len() == 3
                        &&& forall|i: int| 0 <= i < 3 ==> (#[trigger] s@[i])@ == inputs@[i].shape@
                    }
                },
                Err(e) => e == LayerError::InputCount && inputs@.len() != 3,
            },
    {
        if inputs.len() != 3 {
            return Err(LayerError::InputCount);
        }
        if unpadded_input_shapes.len() > 0 {
            return Ok(unpadded_input_shapes);
        }
        let mut shapes: Vec<Shape> = Vec::with_capacity(3);
        assert(inputs@[0].shape@.len() > 0 && inputs@[1].shape@.len() > 0 && inputs@[2].shape@.len() > 0);
        shapes.push(inputs[0].get_shape());
        shapes.push(inputs[1].get_shape());
        shapes.push(inputs[2].get_shape());
        Ok(shapes)
    }

    /// The shapes that the product of queries and keys receives.
    pub fn qk_input_shapes(reshaped: &Vec<Shape>) -> (r: Vec<Shape>)
        requires
            reshaped@.len() >= 2,
        ensures
            same_shapes(r@, reshaped@.take(2)),
    {
        let r = copy_shapes(slice_subrange(reshaped.as_slice(), 0, 2));
        proof {
            assert(reshaped@.subrange(0, 2) =~= reshaped@.take(2));
        }
        r
    }

    /// The shapes that the product with the values receives: that of the softmax, and that of the values.
    pub fn final_mul_input_shapes(softmax: &Vec<Shape>, reshaped: &Vec<Shape>) -> (r: Vec<Shape>)
        requires
            softmax@.len() >= 1,
            reshaped@.len() >= 3,
        ensures
            r@.len() == 2,
            r@[0]@ == softmax@[0]@,
            r@[1]@ == reshaped@[2]@,
    {
        let mut r: Vec<Shape> = Vec::with_capacity(2);
        r.push(softmax[0].clone());
        r.push(reshaped[2].clone());
        r
    }

    /// The context that the product of queries and keys receives, and the shape of the values.
    pub fn qk_aux(aux: ContextAux) -> (r: Result<(ContextAux, Shape), LayerError>)
        ensures
            match r {
                Ok((q, v)) => {
                    let n = aux.last_unpadded_output_shape@.len();
                    &&& aux.last_output_shape@.len() == 3
                    &&& same_shapes(q.last_output_shape@, aux.last_output_shape@.take(2))
                    &&& v@ == aux.last_output_shape@[2]@
                    &&& same_shapes(
                        q.last_unpadded_output_shape@,
                        aux.last_unpadded_output_shape@.take(
                            if n < 2 {
                                n as int
                            } else {
                                2
                            },
                        ),
                    )
                    &&& q.model_polys == aux.model_polys
                    &&& q.tables == aux.tables
                    &&& q.max_poly_len == aux.max_poly_len
                },
                Err(e) => e == LayerError::ShapeCount && aux.last_output_shape@.len() != 3,
            },
    {
        if aux.last_output_shape.len() != 3 {
            return Err(LayerError::ShapeCount);
        }
        let v = aux.last_output_shape[2].clone();
        let last_output_shape = Self::qk_input_shapes(&aux.last_output_shape);
        let n: usize = if aux.last_unpadded_output_shape.len() < 2 {
            aux.last_unpadded_output_shape.len()
        } else {
            2
        };
        let last_unpadded_output_shape = copy_shapes(
            slice_subrange(aux.last_unpadded_output_shape.as_slice(), 0, n),
        );
        proof {
            assert(aux.last_unpadded_output_shape@.subrange(0, n as int)
                =~= aux.last_unpadded_output_shape@.take(n as int));
        }
        Ok((ContextAux { last_output_shape, last_unpadded_output_shape, ..aux }, v))
    }

    /// The context that the product with the values receives: the shape of the values follows that of the softmax.
    pub fn final_mul_aux(aux: ContextAux, v_shape: Shape) -> (r: Result<ContextAux, LayerError>)
        ensures
            match r {
                Ok(m) => {
                    &&& aux.last_output_shape@.len() == 1
                    &&& m.last_output_shape@ == aux.last_output_shape@.push(v_shape)
                    &&& m.last_unpadded_output_shape == aux.last_unpadded_output_shape
                    &&& m.model_polys == aux.model_polys
                    &&& m.tables == aux.tables
                    &&& m.max_poly_len == aux.max_poly_len
                },
                Err(e) => e == LayerError::OutputCount && aux.last_output_shape@.len() != 1,
            },
    {
        let mut aux = aux;
        if aux.last_output_shape.len() != 1 {
            return Err(LayerError::OutputCount);
        }
        aux.last_output_shape.push(v_shape);
        Ok(aux)
    }

    /// The claims on the output of the softmax and on the values, from those on the factors of the last product.
    pub fn split_final_mul_claims(claims: Vec<Claim>) -> (r: Result<(Claim, Claim), LayerError>)
        ensures
            match r {
                Ok((softmax, v)) => claims@.len() == 2 && softmax == claims@[0] && v == claims@[1],
                Err(e) => e == LayerError::InputCount && claims@.len() != 2,
            },
    {
        let mut claims = claims;
        if claims.len() != 2 {
            return Err(LayerError::InputCount);
        }
        let v = claims.remove(1);
        let softmax = claims.remove(0);
        Ok((softmax, v))
    }

    /// The claim on the input of the softmax.
    pub fn softmax_input_claim(claims: Vec<Claim>) -> (r: Result<Claim, LayerError>)
        ensures
            match r {
                Ok(c) => claims@.len() == 1 && c == claims@[0],
                Err(e) => e == LayerError::InputCount && claims@.len() != 1,
            },
    {
        let mut claims = claims;
        if claims.len() != 1 {
            return Err(LayerError::InputCount);
        }
        Ok(claims.remove(0))
    }

    /// The claims on the inputs of the layer: those on queries and keys, and that on the values.
    pub fn input_claims(qk_claims: Vec<Claim>, v_claim: Claim) -> (r: Result<Vec<Claim>, LayerError>)
        ensures
            match r {
                Ok(c) => qk_claims@.len() == 2 && c@ == qk_claims@.push(v_claim),
                Err(e) => e == LayerError::InputCount && qk_claims@.len() != 2,
            },
    {
        let mut claims = qk_claims;
        if claims.len() != 2 {
            return Err(LayerError::InputCount);
        }
        claims.push(v_claim);
        Ok(claims)
    }

    /// The padded number and width of the heads, and the dimension that joins them.
    pub open spec fn padded_dims(&self) -> (nat, nat) {
        (npot(self.num_heads as nat), npot(self.head_dim as nat))
    }

    /// The padded heads have a number and a width.
    pub open spec fn heads_fit(&self) -> bool {
        let (h, d) = self.padded_dims();
        h <= usize::MAX && d <= usize::MAX && h * d <= usize::MAX
    }

    /// Padding of the layer once its parts are padded: what lies between the padded heads is garbage from then on.
    pub fn pad_output(&mut self, si: &mut ShapeInfo) -> (r: Result<(), PadError>)
        requires
            old(self).heads_fit(),
        ensures
            match r {
                Ok(_) => {
                    let s = old(si)@[0];
                    &&& old(si)@.len() == 1
                    &&& final(si)@ == seq![
                        ShapeDims { padded: s.padded, garbage: Some(GarbageDims::MHA(s.og, s.padded)), og: s.og },
                    ]
                    &&& is_padded_mha(final(self), old(self))
                },
                Err(e) => {
                    &&& e == PadError::OutputCount
                    &&& old(si)@.len() != 1
                    &&& *final(self) == *old(self)
                    &&& *final(si) == *old(si)
                },
            },
    {
        if si.shapes.len() != 1 {
            return Err(PadError::OutputCount);
        }
        let sd = si.shapes[0].clone();
        let ghost s = si@[0];
        assert(sd@ == s);
        let garbage = GarbagePad::MHA(sd.input_shape_og.clone(), sd.input_shape_padded.clone());
        let data = sd.with_garbage_pad(garbage);
        si.shapes.set(0, data);
        proof {
            assert(si@ =~= seq![data@]);
            let (h, d) = self.padded_dims();
            assert(d * h == h * d) by (nonlinear_arith);
        }
        let heads = arith::next_power_of_two(self.num_heads);
        let dim = arith::next_power_of_two(self.head_dim);
        let joined: Vec<usize> = vec![dim * heads];
        proof {
            assert(joined@ =~= seq![(dim * heads) as usize]);
        }
        self.num_heads = heads;
        self.head_dim = dim;
        self.final_reshape.to_add = joined;
        Ok(())
    }
}

} // verus!
