//! The claims that the proof of a maximum layer starts from and ends with.
use crate::algebra::lemma_fsum_eq;
use crate::fft::fes;
use crate::field::{fadd, fmul, fone, fpow, fsub, fsum, lemma_fmul_comm, Fe, GoldilocksExt2};
use crate::iop::Claim;
use crate::layers::pooling::{PoolKind, PoolingCtx};
use crate::mle::{chi, compute_betas_eval, identity_at, identity_eval};
use crate::tensor::copy_slice;
use vstd::arithmetic::power2::pow2;
use vstd::prelude::*;

verus! {

/// The values times the powers of the challenge, from the first power on: `b * x[0] + b^2 * x[1] + ...`.
pub open spec fn batched(x: Seq<Fe>, b: Fe, n: nat) -> Fe {
    fsum(n, |i: int| fmul(x[i], fpow(b, (i + 1) as nat)))
}

/// `start * x[0] * x[1] * ... * x[n - 1]`.
pub open spec fn product_from(start: Fe, x: Seq<Fe>, n: nat) -> Fe
    decreases n,
{
    if n == 0 {
        start
    } else {
        fmul(product_from(start, x, (n - 1) as nat), x[n - 1])
    }
}

/// What the sum that is checked amounts to: the claims of the lookup and the claim on the output, batched.
pub open spec fn starting_sum(lookup: Seq<Fe>, last: Fe, b: Fe) -> Fe {
    fadd(batched(lookup, b, lookup.len()), fmul(fpow(b, lookup.len() + 1), last))
}

/// The polynomial of the sum, from the values of its tables: the product of the differences times `beta`, and
/// the batched differences times `beta`, and the output times `last_beta`.
pub open spec fn summand(diffs: Seq<Fe>, out: Fe, beta: Fe, last_beta: Fe, b: Fe) -> Fe {
    let n = diffs.len();
    fadd(
        fadd(product_from(beta, diffs, n), fmul(batched(diffs, b, n), beta)),
        fmul(fmul(out, last_beta), fpow(b, n + 1)),
    )
}

/// The powers `b, b^2, ..., b^n`.
pub fn challenge_powers(b: &GoldilocksExt2, n: usize) -> (r: Vec<GoldilocksExt2>)
    ensures
        r@.len() == n,
        forall|i: int| 0 <= i < n ==> (#[trigger] r@[i]).fe() == fpow(b.fe(), (i + 1) as nat),
{
    let mut r: Vec<GoldilocksExt2> = Vec::with_capacity(n);
    let mut power = *b;
    let mut i: usize = 0;
    proof {
        crate::field::lemma_fe_canon(*b);
        crate::algebra::lemma_fpow_1(b.fe());
    }
    while i < n
        invariant
            i <= n,
            r@.len() == i,
            power.fe() == fpow(b.fe(), (i + 1) as nat),
            forall|j: int| 0 <= j < i ==> (#[trigger] r@[j]).fe() == fpow(b.fe(), (j + 1) as nat),
        decreases n - i,
    {
        r.push(power);
        proof {
            lemma_fmul_comm(b.fe(), fpow(b.fe(), (i + 1) as nat));
        }
        power = power.times(b);
        i = i + 1;
    }
    r
}

/// The tables and the coefficients of the sum for a maximum layer.
#[derive(Debug)]
pub struct ZerocheckTables {
    /// The polynomials of the corners at the point of the lookup.
    pub beta: Vec<GoldilocksExt2>,
    /// The polynomials of the corners at the point of the claim on the output.
    pub last_beta: Vec<GoldilocksExt2>,
    /// The coefficients of the tables of differences, and that of the output.
    pub coefficients: Vec<GoldilocksExt2>,
}

/// What goes into the sum for a maximum layer besides the tables of differences and the output.
pub fn zerocheck_tables(
    lookup_point: &[GoldilocksExt2],
    last_claim: &Claim,
    batch_challenge: &GoldilocksExt2,
    num_diffs: usize,
) -> (r: ZerocheckTables)
    requires
        pow2(lookup_point@.len()) <= usize::MAX,
        pow2(last_claim.point@.len()) <= usize::MAX,
        num_diffs < usize::MAX,
    ensures
        r.beta@.len() == pow2(lookup_point@.len()),
        forall|i: int| 0 <= i < r.beta@.len() ==> (#[trigger] r.beta@[i]).fe() == chi(i, fes(lookup_point@)),
        r.last_beta@.len() == pow2(last_claim.point@.len()),
        forall|i: int| 0 <= i < r.last_beta@.len() ==> (#[trigger] r.last_beta@[i]).fe() == chi(i, last_claim.at()),
        r.coefficients@.len() == num_diffs + 1,
        forall|i: int|
            0 <= i <= num_diffs ==> (#[trigger] r.coefficients@[i]).fe() == fpow(batch_challenge.fe(), (i + 1) as nat),
{
    ZerocheckTables {
        beta: compute_betas_eval(lookup_point),
        last_beta: compute_betas_eval(&last_claim.point),
        coefficients: challenge_powers(batch_challenge, num_diffs + 1),
    }
}

/// The sum that the verifier of a maximum layer expects.
pub fn zerocheck_sum(lookup_evals: &[GoldilocksExt2], last_eval: &GoldilocksExt2, batch_challenge: &GoldilocksExt2) -> (r:
    GoldilocksExt2)
    requires
        lookup_evals@.len() < usize::MAX,
    ensures
        r.fe() == starting_sum(fes(lookup_evals@), last_eval.fe(), batch_challenge.fe()),
{
    let n: usize = lookup_evals.len();
    let powers = challenge_powers(batch_challenge, n + 1);
    let (_, sum) = fold_evals(lookup_evals, n, &GoldilocksExt2::one(), &powers, batch_challenge);
    sum.plus(&powers[n].times(last_eval))
}

/// The product of the values and their batched sum.
fn fold_evals(
    evals: &[GoldilocksExt2],
    n: usize,
    start: &GoldilocksExt2,
    powers: &Vec<GoldilocksExt2>,
    b: &GoldilocksExt2,
) -> (r: (GoldilocksExt2, GoldilocksExt2))
    requires
        n <= evals@.len(),
        n <= powers@.len(),
        forall|i: int| 0 <= i < powers@.len() ==> (#[trigger] powers@[i]).fe() == fpow(b.fe(), (i + 1) as nat),
    ensures
        r.0.fe() == product_from(start.fe(), fes(evals@), n as nat),
        r.1.fe() == batched(fes(evals@), b.fe(), n as nat),
{
    let ghost x = fes(evals@);
    let ghost f = |i: int| fmul(x[i], fpow(b.fe(), (i + 1) as nat));
    let mut product = *start;
    let mut sum = GoldilocksExt2::zero();
    let mut i: usize = 0;
    while i < n
        invariant
            i <= n,
            n <= evals@.len(),
            n <= powers@.len(),
            x == fes(evals@),
            f == (|i: int| fmul(x[i], fpow(b.fe(), (i + 1) as nat))),
            forall|i: int| 0 <= i < powers@.len() ==> (#[trigger] powers@[i]).fe() == fpow(b.fe(), (i + 1) as nat),
            product.fe() == product_from(start.fe(), x, i as nat),
            sum.fe() == fsum(i as nat, f),
        decreases n - i,
    {
        product = product.times(&evals[i]);
        sum = sum.plus(&evals[i].times(&powers[i]));
        proof {
            assert(fsum((i + 1) as nat, f) == fadd(fsum(i as nat, f), f(i as int)));
        }
        i = i + 1;
    }
    (product, sum)
}

/// The weight of table `i` in the claim on the input.
pub open spec fn weight(r1: Fe, r2: Fe, i: int) -> Fe {
    let s1 = fsub(fone(), r1);
    let s2 = fsub(fone(), r2);
    if i == 0 {
        fmul(s1, s2)
    } else if i == 1 {
        fmul(s1, r2)
    } else if i == 2 {
        fmul(r1, s2)
    } else {
        fmul(r1, r2)
    }
}

/// The value of the claim on the input, from those of the output and of the first `n` tables.
pub open spec fn input_value(evals: Seq<Fe>, out: Fe, r1: Fe, r2: Fe, n: nat) -> Fe {
    fsum(n, |i: int| fmul(weight(r1, r2, i), fsub(out, evals[i])))
}

/// The point of the claim on the input: a column within the windows comes first, and a line within the
/// windows comes after the `gap` coordinates of the columns.
pub open spec fn input_point(z: Seq<Fe>, gap: int, r1: Fe, r2: Fe) -> Seq<Fe> {
    (seq![r1] + z.take(gap)) + (seq![r2] + z.skip(gap))
}

/// The claim on the input of a maximum layer, from the values of the tables of differences and, last, that of
/// the output.
pub fn maxpool_input_claim(
    zerocheck_evals: &[GoldilocksExt2],
    zerocheck_point: &[GoldilocksExt2],
    variable_gap: usize,
    challenge: &GoldilocksExt2,
) -> (r: Claim)
    requires
        zerocheck_evals@.len() >= 1,
        variable_gap <= zerocheck_point@.len(),
        zerocheck_point@.len() + 2 <= usize::MAX,
    ensures
        ({
            let evals = fes(zerocheck_evals@);
            let n = (evals.len() - 1) as nat;
            let c = challenge.fe();
            &&& r.at() == input_point(fes(zerocheck_point@), variable_gap as int, c, c)
            &&& r.eval.fe() == input_value(
                evals,
                evals.last(),
                c,
                c,
                if n < 4 {
                    n
                } else {
                    4
                },
            )
        }),
{
    let n: usize = zerocheck_evals.len() - 1;
    let out = zerocheck_evals[n];
    let one_minus = GoldilocksExt2::one().minus(challenge);
    let weights: [GoldilocksExt2; 4] = [
        one_minus.times(&one_minus),
        one_minus.times(challenge),
        challenge.times(&one_minus),
        challenge.times(challenge),
    ];
    let count: usize = if n < 4 {
        n
    } else {
        4
    };
    let ghost evals = fes(zerocheck_evals@);
    let ghost c = challenge.fe();
    let ghost f = |i: int| fmul(weight(c, c, i), fsub(out.fe(), evals[i]));
    let mut eval = GoldilocksExt2::zero();
    let mut i: usize = 0;
    while i < count
        invariant
            i <= count,
            count <= n,
            count <= 4,
            n + 1 == zerocheck_evals@.len(),
            evals == fes(zerocheck_evals@),
            c == challenge.fe(),
            forall|j: int| 0 <= j < 4 ==> (#[trigger] weights@[j]).fe() == weight(c, c, j),
            f == (|i: int| fmul(weight(c, c, i), fsub(out.fe(), evals[i]))),
            eval.fe() == fsum(i as nat, f),
        decreases count - i,
    {
        proof {
            assert(weights@[i as int].fe() == weight(c, c, i as int));
            assert(fsum((i + 1) as nat, f) == fadd(fsum(i as nat, f), f(i as int)));
        }
        eval = eval.plus(&weights[i].times(&out.minus(&zerocheck_evals[i])));
        i = i + 1;
    }
    let mut point: Vec<GoldilocksExt2> = Vec::with_capacity(zerocheck_point.len() + 2);
    point.push(*challenge);
    let mut k: usize = 0;
    while k < variable_gap
        invariant
            k <= variable_gap,
            variable_gap <= zerocheck_point@.len(),
            point@ == seq![*challenge] + zerocheck_point@.take(k as int),
        decreases variable_gap - k,
    {
        point.push(zerocheck_point[k]);
        proof {
            assert(zerocheck_point@.take(k + 1) =~= zerocheck_point@.take(k as int).push(zerocheck_point@[k as int]));
        }
        k = k + 1;
    }
    point.push(*challenge);
    let ghost low = point@;
    while k < zerocheck_point.len()
        invariant
            variable_gap <= k <= zerocheck_point@.len(),
            point@ == low + zerocheck_point@.subrange(variable_gap as int, k as int),
        decreases zerocheck_point@.len() - k,
    {
        point.push(zerocheck_point[k]);
        proof {
            assert(zerocheck_point@.subrange(variable_gap as int, k + 1) =~= zerocheck_point@.subrange(
                variable_gap as int,
                k as int,
            ).push(zerocheck_point@[k as int]));
        }
        k = k + 1;
    }
    proof {
        assert(fes(point@) =~= input_point(fes(zerocheck_point@), variable_gap as int, c, c));
    }
    Claim { point, eval }
}

/// The claims on the committed tables: every value at the point of the sum.
pub fn witness_claims(zerocheck_evals: &[GoldilocksExt2], zerocheck_point: &[GoldilocksExt2]) -> (r: Vec<Claim>)
    ensures
        r@.len() == zerocheck_evals@.len(),
        forall|i: int|
            0 <= i < r@.len() ==> (#[trigger] r@[i]).point@ == zerocheck_point@ && r@[i].eval == zerocheck_evals@[i],
{
    let mut r: Vec<Claim> = Vec::with_capacity(zerocheck_evals.len());
    let mut i: usize = 0;
    while i < zerocheck_evals.len()
        invariant
            i <= zerocheck_evals@.len(),
            r@.len() == i,
            forall|j: int|
                0 <= j < r@.len() ==> (#[trigger] r@[j]).point@ == zerocheck_point@ && r@[j].eval
                    == zerocheck_evals@[j],
        decreases zerocheck_evals@.len() - i,
    {
        r.push(Claim { point: copy_slice(zerocheck_point), eval: zerocheck_evals[i] });
        i = i + 1;
    }
    r
}

/// The proof of a pooling layer is rejected.
#[derive(Debug, Clone, Copy, PartialEq, Eq, Structural)]
pub enum PoolingError {
    /// The value that the sum ends with is not the one that the values of the tables give.
    FinalEvaluation,
    /// The proof is one of another pooling layer.
    Kind,
}

/// What the proof of a maximum layer brings, besides the sum and the lookup.
#[derive(Debug)]
pub struct MaxPoolValues {
    /// The values of the tables of differences, and last that of the output.
    pub zerocheck_evals: Vec<GoldilocksExt2>,
    /// The number of coordinates of the columns.
    pub variable_gap: usize,
}

/// What the proof of a layer that averages every plane brings, besides the sum.
#[derive(Debug)]
pub struct GlobalAvgPoolValues {
    /// The value of the input at the end of the sum.
    pub input_eval: GoldilocksExt2,
    /// The number of variables of the channels.
    pub num_channel_vars: usize,
}

/// What the proof of a pooling layer brings.
#[derive(Debug)]
pub enum PoolingProof {
    MaxPool(MaxPoolValues),
    GlobalAvgPool(GlobalAvgPoolValues),
}

impl PoolingCtx {
    /// Checks that the proof is one of the layer of the context.
    pub fn check_kind(&self, proof_values: &PoolingProof) -> (r: Result<(), PoolingError>)
        ensures
            match r {
                Ok(_) => (self.pool_kind is MaxPool) == (proof_values is MaxPool),
                Err(e) => e == PoolingError::Kind && (self.pool_kind is MaxPool) != (proof_values is MaxPool),
            },
    {
        match (proof_values, &self.pool_kind) {
            (PoolingProof::MaxPool(_), PoolKind::MaxPool(_)) => Ok(()),
            (PoolingProof::GlobalAvgPool(_), PoolKind::GlobalAvgPool(_)) => Ok(()),
            _ => Err(PoolingError::Kind),
        }
    }
}

/// The check of a maximum layer once the sum is checked: the value that the sum ends with, at
/// `zerocheck_point`, is the one that the values of the tables give. What remains is the claim on the input.
pub fn check_maxpool(
    proof_values: &MaxPoolValues,
    lookup_point: &[GoldilocksExt2],
    last_claim: &Claim,
    batch_challenge: &GoldilocksExt2,
    zerocheck_point: &[GoldilocksExt2],
    expected_evaluation: &GoldilocksExt2,
    input_challenge: &GoldilocksExt2,
) -> (r: Result<Claim, PoolingError>)
    requires
        proof_values.zerocheck_evals@.len() >= 1,
        proof_values.variable_gap <= zerocheck_point@.len(),
        lookup_point@.len() == zerocheck_point@.len(),
        last_claim.point@.len() == zerocheck_point@.len(),
        zerocheck_point@.len() + 2 <= usize::MAX,
    ensures
        ({
            let evals = fes(proof_values.zerocheck_evals@);
            let n = (evals.len() - 1) as nat;
            let z = fes(zerocheck_point@);
            let c = input_challenge.fe();
            let holds = expected_evaluation.fe() == summand(
                evals.take(n as int),
                evals.last(),
                identity_at(fes(lookup_point@), z, z.len()),
                identity_at(last_claim.at(), z, z.len()),
                batch_challenge.fe(),
            );
            match r {
                Ok(claim) => {
                    &&& holds
                    &&& claim.at() == input_point(z, proof_values.variable_gap as int, c, c)
                    &&& claim.eval.fe() == input_value(
                        evals,
                        evals.last(),
                        c,
                        c,
                        if n < 4 {
                            n
                        } else {
                            4
                        },
                    )
                },
                Err(e) => !holds && e == PoolingError::FinalEvaluation,
            }
        }),
{
    let evals = &proof_values.zerocheck_evals;
    let n: usize = evals.len() - 1;
    let beta = identity_eval(lookup_point, zerocheck_point);
    let last_beta = identity_eval(&last_claim.point, zerocheck_point);
    assert(evals@.len() == evals.len());
    let powers = challenge_powers(batch_challenge, n + 1);
    let (product, sum) = fold_evals(evals, n, &beta, &powers, batch_challenge);
    let expected = product.plus(&sum.times(&beta)).plus(&evals[n].times(&last_beta).times(&powers[n]));
    proof {
        let x = fes(evals@);
        let y = x.take(n as int);
        lemma_product_take(beta.fe(), x, n as nat);
        let f = |i: int| fmul(x[i], fpow(batch_challenge.fe(), (i + 1) as nat));
        let g = |i: int| fmul(y[i], fpow(batch_challenge.fe(), (i + 1) as nat));
        assert forall|i: int| 0 <= i < n implies #[trigger] f(i) == g(i) by {}
        lemma_fsum_eq(n as nat, f, g);
    }
    if !expected.same(expected_evaluation) {
        return Err(PoolingError::FinalEvaluation);
    }
    Ok(maxpool_input_claim(evals, zerocheck_point, proof_values.variable_gap, input_challenge))
}

proof fn lemma_product_take(start: Fe, x: Seq<Fe>, n: nat)
    requires
        n <= x.len(),
    ensures
        product_from(start, x, n) == product_from(start, x.take(n as int), n),
{
    lemma_product_eq(start, x, x.take(n as int), n);
}

proof fn lemma_product_eq(start: Fe, x: Seq<Fe>, y: Seq<Fe>, n: nat)
    requires
        forall|i: int| 0 <= i < n ==> #[trigger] x[i] == y[i],
    ensures
        product_from(start, x, n) == product_from(start, y, n),
    decreases n,
{
    if n > 0 {
        lemma_product_eq(start, x, y, (n - 1) as nat);
        assert(x[n - 1] == y[n - 1]);
    }
}

} // verus!
