//! The steps of the prover that decide what is proved.
use crate::arith::{floor_log2, flog2, is_pow2, lemma_flog2_pow2};
use crate::fft::fes;
use crate::field::GoldilocksExt2;
use crate::iop::Claim;
use crate::mle::{evaluate, mle_eval};
use crate::tensor::Tensor;
use std::collections::HashMap;
use vstd::arithmetic::power2::pow2;
use vstd::prelude::*;

verus! {

broadcast use vstd::std_specs::hash::group_hash_axioms;

/// Why a model cannot be proved.
#[derive(Debug, Clone, Copy, PartialEq, Eq, Structural)]
pub enum ProverError {
    /// There is no lookup witness for the node.
    NoWitness,
    /// A table does not have one commitment.
    Commitments,
    /// A table has more than one claim.
    TableClaims,
}

/// The number of challenges for the claim on an output.
pub fn num_output_challenges(output: &Tensor<GoldilocksExt2>) -> (r: usize)
    requires
        output.data@.len() > 0,
    ensures
        r == flog2(output.data@.len()),
{
    floor_log2(output.data.len())
}

/// The claim on an output that the proof starts from: its extension at the challenges.
pub fn output_claim(output: &Tensor<GoldilocksExt2>, challenges: Vec<GoldilocksExt2>) -> (r: Claim)
    requires
        is_pow2(output.data@.len() as int),
        challenges@.len() == flog2(output.data@.len()),
    ensures
        r.point == challenges,
        r.eval.fe() == mle_eval(fes(output.data@), fes(challenges@)),
{
    proof {
        let e = choose|e: nat| #[trigger] pow2(e) == output.data@.len();
        lemma_flog2_pow2(e);
    }
    let eval = evaluate(&output.data, &challenges);
    Claim { point: challenges, eval }
}

/// The claims on the inputs of a layer that is not proved: those on its outputs, since it does not change values.
pub fn propagate_claims(claims: &Vec<Claim>) -> (r: Vec<Claim>)
    ensures
        r@.len() == claims@.len(),
        forall|i: int|
            0 <= i < r@.len() ==> (#[trigger] r@[i]).point@ == claims@[i].point@ && r@[i].eval == claims@[i].eval,
{
    let mut r: Vec<Claim> = Vec::with_capacity(claims.len());
    let mut i: usize = 0;
    while i < claims.len()
        invariant
            i <= claims@.len(),
            r@.len() == i,
            forall|j: int|
                0 <= j < i ==> (#[trigger] r@[j]).point@ == claims@[j].point@ && r@[j].eval == claims@[j].eval,
        decreases claims@.len() - i,
    {
        r.push(claims[i].clone());
        i = i + 1;
    }
    r
}

/// Takes the lookup witnesses of a node.
pub fn lookup_witness<W>(witnesses: &mut HashMap<usize, Vec<W>>, id: usize) -> (r: Result<Vec<W>, ProverError>)
    ensures
        match r {
            Ok(w) => old(witnesses)@.contains_key(id) && w == old(witnesses)@[id],
            Err(e) => e == ProverError::NoWitness && !old(witnesses)@.contains_key(id),
        },
        final(witnesses)@ == old(witnesses)@.remove(id),
{
    let ghost was = witnesses@;
    let r = witnesses.remove(&id);
    proof {
        if !was.contains_key(id) {
            assert(was.remove(id) =~= was);
        }
    }
    match r {
        Some(w) => Ok(w),
        None => Err(ProverError::NoWitness),
    }
}

/// The claim on the polynomial of a table, where the table has one.
pub fn table_claim(num_commitments: usize, claims: &Vec<Claim>) -> (r: Result<Option<Claim>, ProverError>)
    ensures
        match r {
            Ok(Some(c)) => {
                &&& num_commitments == 1
                &&& claims@.len() == 1
                &&& c.point@ == claims@[0].point@
                &&& c.eval == claims@[0].eval
            },
            Ok(None) => num_commitments == 1 && claims@.len() == 0,
            Err(e) => {
                ||| e == ProverError::Commitments && num_commitments != 1
                ||| e == ProverError::TableClaims && num_commitments == 1 && claims@.len() > 1
            },
        },
{
    if num_commitments != 1 {
        return Err(ProverError::Commitments);
    }
    if claims.len() == 0 {
        return Ok(None);
    }
    if claims.len() != 1 {
        return Err(ProverError::TableClaims);
    }
    Ok(Some(claims[0].clone()))
}

} // verus!
