//! The order in which the parts of an attention layer are evaluated, proved and checked, and what each receives.
use crate::iop::Claim;
use crate::layers::transformer::mha::Mha;
use crate::layers::LayerError;
use crate::number::Element;
use crate::shape::{same_shapes, Shape};
use crate::tensor::Tensor;
use vstd::prelude::*;

verus! {

/// The part that is evaluated next, with the tensors and the unpadded shapes that it receives, and what the parts
/// behind it need.
#[derive(Debug)]
pub enum Inference {
    /// Queries, keys and values are split into heads.
    InputsReshape { inputs: Vec<Tensor<Element>>, shapes: Vec<Shape> },
    /// Queries are multiplied by keys; the shape of the product is asked for with those of all three inputs.
    Qk {
        factors: Vec<Tensor<Element>>,
        shapes: Vec<Shape>,
        all_shapes: Vec<Shape>,
        values: Tensor<Element>,
        values_shape: Shape,
    },
    Softmax { qk: Vec<Tensor<Element>>, shapes: Vec<Shape>, values: Tensor<Element>, values_shape: Shape },
    /// The output of the softmax is multiplied by the values.
    FinalMul { factors: Vec<Tensor<Element>>, shapes: Vec<Shape>, qk: Vec<Tensor<Element>> },
    /// The heads are joined.
    FinalReshape {
        heads: Vec<Tensor<Element>>,
        shapes: Vec<Shape>,
        softmax: Tensor<Element>,
        qk: Vec<Tensor<Element>>,
    },
    Done { out: Vec<Tensor<Element>>, heads: Vec<Tensor<Element>>, softmax: Tensor<Element>, qk: Vec<Tensor<Element>> },
}

impl Mha {
    /// The evaluation of the layer, with the outputs of its parts; the shapes of the inputs before padding are those
    /// given, or those of the inputs where none are.
    pub fn evaluate_with_intermediate_outputs(
        inputs: Vec<Tensor<Element>>,
        unpadded_input_shapes: Vec<Shape>,
    ) -> (r: Result<Inference, LayerError>)
        requires
            unpadded_input_shapes@.len() == 0 ==> forall|i: int|
                0 <= i < inputs@.len() ==> (#[trigger] inputs@[i]).shape@.len() > 0,
        ensures
            match r {
                Ok(f) => {
                    &&& f matches Inference::InputsReshape { inputs: x, shapes }
                    &&& x == inputs
                    &&& inputs@.len() == 3
                    &&& unpadded_input_shapes@.len() > 0 ==> shapes == unpadded_input_shapes
                    &&& unpadded_input_shapes@.len() == 0 ==> {
                        &&& shapes@.len() == 3
                        &&& forall|i: int| 0 <= i < 3 ==> (#[trigger] shapes@[i])@ == inputs@[i].shape@
                    }
                },
                Err(e) => e == LayerError::InputCount && inputs@.len() != 3,
            },
    {
        match Mha::unpadded_shapes(&inputs, unpadded_input_shapes) {
            Ok(shapes) => Ok(Inference::InputsReshape { inputs, shapes }),
            Err(e) => Err(e),
        }
    }
}

impl Inference {
    /// What goes on after a part: `b` follows `a`, whose part has given `outputs` of the shapes `shapes`.
    pub open spec fn follows(
        a: Inference,
        outputs: Seq<Tensor<Element>>,
        output_shapes: Seq<Shape>,
        b: Inference,
    ) -> bool {
        match a {
            Inference::InputsReshape { .. } => {
                &&& b matches Inference::Qk { factors, shapes, all_shapes, values, values_shape }
                &&& factors@ == outputs.take(2)
                &&& same_shapes(shapes@, output_shapes.take(2))
                &&& all_shapes@ == output_shapes
                &&& values == outputs[2]
                &&& values_shape@ == output_shapes[2]@
            },
            Inference::Qk { values, values_shape, .. } => {
                &&& b matches Inference::Softmax { qk, shapes, values: v, values_shape: vs }
                &&& qk@ == outputs
                &&& shapes@ == output_shapes
                &&& v == values
                &&& vs == values_shape
            },
            Inference::Softmax { qk, values, values_shape, .. } => {
                &&& b matches Inference::FinalMul { factors, shapes, qk: q }
                &&& factors@ == seq![outputs[0], values]
                &&& shapes@ == seq![output_shapes[0], values_shape]
                &&& q == qk
            },
            Inference::FinalMul { factors, qk, .. } => {
                &&& b matches Inference::FinalReshape { heads, shapes, softmax, qk: q }
                &&& heads@ == outputs
                &&& shapes@ == output_shapes
                &&& softmax == factors@[0]
                &&& q == qk
            },
            Inference::FinalReshape { heads, softmax, qk, .. } => {
                &&& b matches Inference::Done { out, heads: h, softmax: s, qk: q }
                &&& out@ == outputs
                &&& h == heads
                &&& s == softmax
                &&& q == qk
            },
            Inference::Done { .. } => false,
        }
    }

    /// There are as many outputs and shapes of the part as are read; the product with the values has two factors.
    pub open spec fn can_go_on(self, outputs: nat, output_shapes: nat) -> bool {
        match self {
            Inference::InputsReshape { .. } => outputs >= 3 && output_shapes >= 3,
            Inference::Softmax { .. } => outputs == 1 ==> output_shapes >= 1,
            Inference::FinalMul { factors, .. } => factors@.len() >= 1,
            Inference::Done { .. } => false,
            _ => true,
        }
    }

    /// Are there as many outputs and shapes of the part as are read?
    pub fn accepts(&self, outputs: usize, output_shapes: usize) -> (r: bool)
        ensures
            r == self.can_go_on(outputs as nat, output_shapes as nat),
    {
        match self {
            Inference::InputsReshape { .. } => outputs >= 3 && output_shapes >= 3,
            Inference::Softmax { .. } => outputs != 1 || output_shapes >= 1,
            Inference::FinalMul { factors, .. } => factors.len() >= 1,
            Inference::Done { .. } => false,
            _ => true,
        }
    }

    /// Goes on with the outputs of the part and their shapes before padding; a softmax has one output.
    pub fn go_on(self, outputs: Vec<Tensor<Element>>, output_shapes: Vec<Shape>) -> (r: Result<Self, LayerError>)
        requires
            self.can_go_on(outputs@.len(), output_shapes@.len()),
        ensures
            match r {
                Ok(next) => {
                    &&& self is Softmax ==> outputs@.len() == 1
                    &&& Inference::follows(self, outputs@, output_shapes@, next)
                },
                Err(e) => self is Softmax && outputs@.len() != 1 && e == LayerError::OutputCount,
            },
    {
        let ghost (o, os) = (outputs@, output_shapes@);
        let mut outputs = outputs;
        let mut output_shapes = output_shapes;
        match self {
            Inference::InputsReshape { .. } => {
                let values = outputs.remove(2);
                outputs.truncate(2);
                proof {
                    assert(outputs@ =~= o.take(2));
                }
                let values_shape = output_shapes[2].clone();
                let shapes = Mha::qk_input_shapes(&output_shapes);
                Ok(Inference::Qk { factors: outputs, shapes, all_shapes: output_shapes, values, values_shape })
            },
            Inference::Qk { values, values_shape, .. } => Ok(
                Inference::Softmax { qk: outputs, shapes: output_shapes, values, values_shape },
            ),
            Inference::Softmax { qk, values, values_shape, .. } => {
                if outputs.len() != 1 {
                    return Err(LayerError::OutputCount);
                }
                outputs.push(values);
                let shape = output_shapes.remove(0);
                let shapes: Vec<Shape> = vec![shape, values_shape];
                proof {
                    assert(outputs@ =~= seq![o[0], values]);
                    assert(shapes@ =~= seq![os[0], values_shape]);
                }
                Ok(Inference::FinalMul { factors: outputs, shapes, qk })
            },
            Inference::FinalMul { factors, qk, .. } => {
                let mut factors = factors;
                let softmax = factors.remove(0);
                Ok(Inference::FinalReshape { heads: outputs, shapes: output_shapes, softmax, qk })
            },
            Inference::FinalReshape { heads, softmax, qk, .. } => Ok(
                Inference::Done { out: outputs, heads, softmax, qk },
            ),
            Inference::Done { out, heads, softmax, qk } => Ok(Inference::Done { out, heads, softmax, qk }),
        }
    }
}

/// The part whose claims are reduced next, with the claims on its output, and the claim on the values once it is known.
#[derive(Debug)]
pub enum ClaimFlow {
    FinalMul { claims: Vec<Claim> },
    Softmax { claim: Claim, values: Claim },
    Qk { claim: Claim, values: Claim },
    /// The claims on queries, keys and values.
    Done { claims: Vec<Claim> },
}

impl ClaimFlow {
    /// The number of claims that the part leaves on its inputs.
    pub open spec fn num_claims(self) -> nat {
        match self {
            ClaimFlow::FinalMul { .. } => 2,
            ClaimFlow::Softmax { .. } => 1,
            ClaimFlow::Qk { .. } => 2,
            ClaimFlow::Done { .. } => 0,
        }
    }

    /// `b` follows `a`, whose part has left `claims` on its inputs.
    pub open spec fn follows(a: ClaimFlow, claims: Seq<Claim>, b: ClaimFlow) -> bool {
        match a {
            ClaimFlow::FinalMul { .. } => b == (ClaimFlow::Softmax { claim: claims[0], values: claims[1] }),
            ClaimFlow::Softmax { values, .. } => b == (ClaimFlow::Qk { claim: claims[0], values }),
            ClaimFlow::Qk { values, .. } => b matches ClaimFlow::Done { claims: c } && c@ == claims.push(values),
            ClaimFlow::Done { .. } => false,
        }
    }

    /// Goes on with the claims that the part has left on its inputs.
    pub fn go_on(self, claims: Vec<Claim>) -> (r: Result<Self, LayerError>)
        requires
            !(self is Done),
        ensures
            match r {
                Ok(next) => claims@.len() == self.num_claims() && ClaimFlow::follows(self, claims@, next),
                Err(e) => claims@.len() != self.num_claims() && e == LayerError::InputCount,
            },
    {
        match self {
            ClaimFlow::FinalMul { .. } => match Mha::split_final_mul_claims(claims) {
                Ok((claim, values)) => Ok(ClaimFlow::Softmax { claim, values }),
                Err(e) => Err(e),
            },
            ClaimFlow::Softmax { values, .. } => match Mha::softmax_input_claim(claims) {
                Ok(claim) => Ok(ClaimFlow::Qk { claim, values }),
                Err(e) => Err(e),
            },
            ClaimFlow::Qk { values, .. } => match Mha::input_claims(claims, values) {
                Ok(claims) => Ok(ClaimFlow::Done { claims }),
                Err(e) => Err(e),
            },
            ClaimFlow::Done { claims } => Ok(ClaimFlow::Done { claims }),
        }
    }
}

} // verus!
