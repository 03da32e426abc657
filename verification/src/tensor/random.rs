//! Tensors of pseudo-random elements.
use vstd::prelude::*;

use crate::number::Element;
use crate::shape::{prod, Shape};
use crate::tensor::Tensor;

verus! {

/// The generator behind the random tensors.
#[verifier::external_type_specification]
#[verifier::external_body]
pub struct ExStdRng(ark_std::rand::rngs::StdRng);

/// Wraps `ark_std::rand::SeedableRng::seed_from_u64` for `ark_std::rand::rngs::StdRng`: a generator
/// in the state that the seed determines. Nothing is claimed of that state.
#[verifier::external_body]
fn rng_from_seed(seed: u64) -> (r: ark_std::rand::rngs::StdRng) {
    <ark_std::rand::rngs::StdRng as ark_std::rand::SeedableRng>::seed_from_u64(seed)
}

/// Wraps `ark_std::rand::Rng::gen_range` on an inclusive range: the number drawn lies in the range.
/// Which number it is depends on the state of the generator and is left unsaid.
#[verifier::external_body]
fn gen_range(rng: &mut ark_std::rand::rngs::StdRng, min: Element, max: Element) -> (r: Element)
    requires
        min <= max,
    ensures
        min <= r <= max,
{
    ark_std::rand::Rng::gen_range(rng, min..=max)
}

impl Tensor<Element> {
    /// A tensor of elements between `min` and `max`, drawn from a generator seeded with `seed`.
    pub fn random(shape: &Shape, seed: u64, min: Element, max: Element) -> (r: Self)
        requires
            prod(shape@) <= usize::MAX,
            min <= max,
        ensures
            r.shape@ == shape@,
            r.og_shape@ == seq![0usize],
            r.data@.len() == prod(shape@),
            forall|i: int| 0 <= i < r.data@.len() ==> min <= #[trigger] r.data@[i] <= max,
    {
        Self::random_seed(shape, Some(seed), 0, min, max)
    }

    /// A tensor of elements between `min` and `max`, drawn from a generator seeded with `seed`, or
    /// with `default_seed` where there is none.
    pub fn random_seed(shape: &Shape, seed: Option<u64>, default_seed: u64, min: Element, max: Element) -> (r: Self)
        requires
            prod(shape@) <= usize::MAX,
            min <= max,
        ensures
            r.shape@ == shape@,
            r.og_shape@ == seq![0usize],
            r.data@.len() == prod(shape@),
            forall|i: int| 0 <= i < r.data@.len() ==> min <= #[trigger] r.data@[i] <= max,
    {
        let seed: u64 = match seed {
            Some(s) => s,
            None => default_seed,
        };
        let mut rng = rng_from_seed(seed);
        let size: usize = shape.product();
        let mut data: Vec<Element> = Vec::with_capacity(size);
        let mut i: usize = 0;
        while i < size
            invariant
                i <= size,
                min <= max,
                data@.len() == i,
                forall|j: int| 0 <= j < i ==> min <= #[trigger] data@[j] <= max,
            decreases size - i,
        {
            data.push(gen_range(&mut rng, min, max));
            i = i + 1;
        }
        let og: Vec<usize> = vec![0];
        proof {
            assert(og@ =~= seq![0usize]);
        }
        Tensor { data, shape: shape.clone(), og_shape: Shape(og) }
    }
}

} // verus!
