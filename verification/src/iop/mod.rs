//! The tables and checks of the interactive proof.
pub mod batch;
pub mod context;
pub mod delegation;
pub mod fourier;
pub mod prover;

use crate::fft::fes;
use crate::field::{Fe, GoldilocksExt2};
use crate::tensor::copy_slice;
use vstd::prelude::*;

verus! {

/// The claim that a multilinear extension has the value `eval` at `point`.
#[derive(Debug)]
pub struct Claim {
    pub point: Vec<GoldilocksExt2>,
    pub eval: GoldilocksExt2,
}

impl Claim {
    /// The coordinates of the point.
    pub open spec fn at(self) -> Seq<Fe> {
        fes(self.point@)
    }

    pub fn new(point: Vec<GoldilocksExt2>, eval: GoldilocksExt2) -> (r: Self)
        ensures
            r.point == point,
            r.eval == eval,
    {
        Claim { point, eval }
    }
}

/// A product of tables with a coefficient.
#[derive(Debug)]
pub struct Term {
    pub coefficient: GoldilocksExt2,
    pub tables: Vec<Vec<GoldilocksExt2>>,
}

impl Clone for Claim {
    fn clone(&self) -> (r: Self)
        ensures
            r.point@ == self.point@,
            r.eval == self.eval,
    {
        Claim { point: copy_slice(&self.point), eval: self.eval }
    }
}

} // verus!
