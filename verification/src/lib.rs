//! Tensors, convolutions and padding rules for proving neural network inference.
use vstd::prelude::*;

pub mod algebra;
pub mod arith;
pub mod fft;
pub mod fft_laws;
pub mod field;
pub mod iop;
pub mod layers;
pub mod mle;
pub mod number;
pub mod padding;
pub mod parser;
pub mod shape;
pub mod tensor;

verus! {

} // verus!
