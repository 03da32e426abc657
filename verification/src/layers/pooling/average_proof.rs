//! The proof of a layer that averages every plane.
use crate::algebra::{lemma_fsum_eq, lemma_fsum_scale, lemma_fsum_swap};
use crate::arith::{ceil_log2, clog2, power_of_two};
use crate::fft::fes;
use crate::field::{fint, fmul, fsum, fzero, lemma_fmul_assoc, lemma_fmul_comm, Fe, GoldilocksExt2, P};
use crate::iop::Claim;
use crate::layers::pooling::claims::PoolingError;
use crate::layers::pooling::GlobalAvgPool2D;
use crate::mle::{chi, column_evals, law_fix_high_variables, mle_eval, mle_term, table_column, table_row, Mle};
use crate::tensor::{copy_slice, Tensor};
use vstd::arithmetic::power2::pow2;
use vstd::prelude::*;

verus! {

/// The first `n` entries, with zeros where there are fewer.
pub open spec fn resized(e: Seq<Fe>, n: nat) -> Seq<Fe> {
    Seq::new(
        n,
        |i: int|
            if i < e.len() {
                e[i]
            } else {
                fzero()
            },
    )
}

/// The number of variables of a padded plane.
pub open spec fn spatial_vars(s: Seq<usize>) -> nat {
    clog2(s[1] as nat) + clog2(s[2] as nat)
}

/// What is shown of a layer that averages every plane: the entries of `table` add up to `claimed_sum`.
#[derive(Debug)]
pub struct AverageSum {
    /// The planes of the input, combined at the point of the claim on the output.
    pub table: Mle,
    pub claimed_sum: GoldilocksExt2,
}

impl GlobalAvgPool2D {
    /// The number of entries of a plane times the value of the output.
    pub fn claimed_sum(&self, last_claim: &Claim) -> (r: GoldilocksExt2)
        ensures
            r.fe() == fmul(last_claim.eval.fe(), fint(self.spatial_size as int)),
    {
        let n = GoldilocksExt2::from_canonical_u64((self.spatial_size as u64) % P);
        proof {
            vstd::arithmetic::div_mod::lemma_mod_twice(self.spatial_size as int, P as int);
        }
        last_claim.eval.times(&n)
    }

    /// The sum that is shown for a claim on the output.
    pub fn sum_tables(&self, last_claim: &Claim, input: &Tensor<GoldilocksExt2>) -> (r: AverageSum)
        requires
            input.shape@.len() == 3,
            pow2(last_claim.point@.len() + spatial_vars(input.shape@)) <= usize::MAX,
        ensures
            ({
                let k = spatial_vars(input.shape@);
                let n = pow2(last_claim.point@.len() + k);
                &&& r.claimed_sum.fe() == fmul(last_claim.eval.fe(), fint(self.spatial_size as int))
                &&& r.table.wf()
                &&& r.table.num_vars == k
                &&& r.table.table() == column_evals(resized(fes(input.data@), n), last_claim.at(), pow2(k))
            }),
    {
        let ghost k = spatial_vars(input.shape@);
        proof {
            let (a, b) = (clog2(input.shape@[1] as nat), clog2(input.shape@[2] as nat));
            lemma_pow2_small(a, b, last_claim.point@.len());
        }
        let num_spatial_vars: usize = ceil_log2(input.shape.0[1]) + ceil_log2(input.shape.0[2]);
        let total: usize = last_claim.point.len() + num_spatial_vars;
        let len: usize = power_of_two(total);
        let mut padded: Vec<GoldilocksExt2> = Vec::with_capacity(len);
        let mut i: usize = 0;
        while i < len
            invariant
                i <= len,
                padded@.len() == i,
                forall|j: int|
                    0 <= j < i ==> (#[trigger] padded@[j]).fe() == resized(fes(input.data@), len as nat)[j],
            decreases len - i,
        {
            if i < input.data.len() {
                padded.push(input.data[i]);
            } else {
                padded.push(GoldilocksExt2::zero());
            }
            i = i + 1;
        }
        proof {
            assert(fes(padded@) =~= resized(fes(input.data@), len as nat));
            assert(pow2(total as nat) == padded@.len());
        }
        let mut table = Mle::new(padded);
        proof {
            crate::arith::lemma_flog2_pow2(total as nat);
            crate::arith::lemma_flog2_pow2(table.num_vars as nat);
        }
        table.fix_high_variables_in_place(&last_claim.point);
        AverageSum { table, claimed_sum: self.claimed_sum(last_claim) }
    }

    /// The claim on the input: `input_eval` at the point of the sum, which lies in a plane, followed by that of the
    /// claim on the output, which picks the channel.
    pub fn input_claim(last_claim: &Claim, sum_point: &[GoldilocksExt2], input_eval: GoldilocksExt2) -> (r: Claim)
        requires
            last_claim.point@.len() + sum_point@.len() <= usize::MAX,
        ensures
            r.point@ == sum_point@ + last_claim.point@,
            r.eval == input_eval,
    {
        let mut point = copy_slice(sum_point);
        let mut i: usize = 0;
        while i < last_claim.point.len()
            invariant
                i <= last_claim.point@.len(),
                point@ == sum_point@ + last_claim.point@.take(i as int),
            decreases last_claim.point@.len() - i,
        {
            point.push(last_claim.point[i]);
            proof {
                assert(last_claim.point@.take(i + 1) =~= last_claim.point@.take(i as int).push(
                    last_claim.point@[i as int],
                ));
            }
            i = i + 1;
        }
        proof {
            assert(last_claim.point@.take(i as int) =~= last_claim.point@);
        }
        Claim { point, eval: input_eval }
    }

    /// The check once the sum is checked: the sum ends with the value of the input. What remains is the claim
    /// on the input.
    pub fn check_globalavgpool(
        last_claim: &Claim,
        input_eval: &GoldilocksExt2,
        sum_point: &[GoldilocksExt2],
        expected_evaluation: &GoldilocksExt2,
    ) -> (r: Result<Claim, PoolingError>)
        requires
            last_claim.point@.len() + sum_point@.len() <= usize::MAX,
        ensures
            match r {
                Ok(claim) => {
                    &&& input_eval.fe() == expected_evaluation.fe()
                    &&& claim.point@ == sum_point@ + last_claim.point@
                    &&& claim.eval == *input_eval
                },
                Err(e) => input_eval.fe() != expected_evaluation.fe() && e == PoolingError::FinalEvaluation,
            },
    {
        if !input_eval.same(expected_evaluation) {
            return Err(PoolingError::FinalEvaluation);
        }
        Ok(Self::input_claim(last_claim, sum_point, *input_eval))
    }
}

proof fn lemma_pow2_small(a: nat, b: nat, c: nat)
    requires
        pow2(c + (a + b)) <= usize::MAX,
    ensures
        a + b + c < 64,
        pow2(a) <= usize::MAX,
        pow2(b) <= usize::MAX,
{
    vstd::arithmetic::power2::lemma2_to64_rest();
    let n = c + (a + b);
    if n >= 64 {
        if n > 64 {
            vstd::arithmetic::power2::lemma_pow2_strictly_increases(64, n);
        }
    }
    if a < n {
        vstd::arithmetic::power2::lemma_pow2_strictly_increases(a, n);
    }
    if b < n {
        vstd::arithmetic::power2::lemma_pow2_strictly_increases(b, n);
    }
}

/// Where every entry of the output is the sum of its plane divided by `n`, the sum over the combined planes is
/// `n` times the value of the output.
pub proof fn law_average_sum(e: Seq<Fe>, out: Seq<Fe>, q: Seq<Fe>, m: nat, n: Fe)
    requires
        forall|c: int|
            0 <= c < pow2(q.len()) ==> fmul(#[trigger] out[c], n) == fsum(m, |i: int| table_row(e, c, m)[i]),
    ensures
        fsum(m, |i: int| column_evals(e, q, m)[i]) == fmul(mle_eval(out, q), n),
{
    let k = pow2(q.len());
    let f = |i: int, c: int| fmul(chi(c, q), e[c * m + i]);
    let cols = |i: int| column_evals(e, q, m)[i];
    let cs = |i: int| fsum(k, |c: int| f(i, c));
    assert forall|i: int| 0 <= i < m implies #[trigger] cols(i) == cs(i) by {
        let t = mle_term(table_column(e, i, m, k), q);
        let u = |c: int| f(i, c);
        assert forall|c: int| 0 <= c < k implies #[trigger] t(c) == u(c) by {
            lemma_fmul_comm(e[c * m + i], chi(c, q));
        }
        lemma_fsum_eq(k, t, u);
    }
    lemma_fsum_eq(m, cols, cs);
    lemma_fsum_swap(m, k, f);
    let rows = |c: int| fsum(m, |i: int| f(i, c));
    let want = |c: int| fmul(n, mle_term(out, q)(c));
    assert forall|c: int| 0 <= c < k implies #[trigger] rows(c) == want(c) by {
        let x = chi(c, q);
        let g = |i: int| table_row(e, c, m)[i];
        assert(fmul(out[c], n) == fsum(m, g));
        lemma_fsum_scale(m, x, g);
        let u = |i: int| f(i, c);
        let v = |i: int| fmul(x, g(i));
        assert forall|i: int| 0 <= i < m implies #[trigger] u(i) == v(i) by {}
        lemma_fsum_eq(m, u, v);
        lemma_fmul_comm(x, fmul(out[c], n));
        lemma_fmul_comm(out[c], n);
        lemma_fmul_assoc(n, out[c], x);
    }
    lemma_fsum_eq(k, rows, want);
    lemma_fsum_scale(k, n, mle_term(out, q));
    lemma_fmul_comm(n, mle_eval(out, q));
}
/// The claim that is left on the input holds where `input_eval` is the value of the combined planes at the point of
/// the sum: it is the value of the input at the point of the claim.
pub proof fn law_average_input_claim(input: Seq<Fe>, last_claim: &Claim, sum_point: Seq<GoldilocksExt2>, r: &Claim)
    requires
        r.point@ == sum_point + last_claim.point@,
        r.eval.fe() == mle_eval(
            column_evals(resized(input, pow2(r.point@.len())), last_claim.at(), pow2(sum_point.len())),
            fes(sum_point),
        ),
    ensures
        r.eval.fe() == mle_eval(resized(input, pow2(r.point@.len())), r.at()),
        input.len() == pow2(r.point@.len()) ==> r.eval.fe() == mle_eval(input, r.at()),
{
    let e = resized(input, pow2(r.point@.len()));
    assert(r.at() =~= fes(sum_point) + last_claim.at());
    law_fix_high_variables(e, fes(sum_point), last_claim.at());
    if input.len() == pow2(r.point@.len()) {
        assert(e =~= input);
    }
}

} // verus!
