//! The tables, claims and checks of the proofs of layers, on values of an honest prover. A sum is reduced to a point
//! by evaluating its tables there.
use zkml::field::{to_field, GoldilocksExt2};
use zkml::iop::batch::{batch_fft_tables, batch_ifft_tables};
use zkml::iop::context::{ContextAux, TableType};
use zkml::iop::delegation::Delegation;
use zkml::iop::prover::{lookup_witness, num_output_challenges, output_claim, propagate_claims, table_claim, ProverError};
use zkml::iop::Claim;
use zkml::layers::convolution::claims::clearing_inputs;
use zkml::layers::convolution::clearing_sizes::can_clear;
use zkml::layers::convolution::context::{ConvCtx, InputClaimError};
use zkml::layers::convolution::verify::{
    sumcheck_claims, ConvError, ConvProofValues, DelegationValues, ShapeStep,
};
use zkml::layers::convolution::Convolution;
use zkml::layers::pooling::claims::{
    check_maxpool, maxpool_input_claim, witness_claims, zerocheck_sum, zerocheck_tables, GlobalAvgPoolValues,
    MaxPoolValues, PoolingError, PoolingProof,
};
use zkml::layers::pooling::terms::{maxpool_terms, maxpool_values, WINDOW_PLACES};
use zkml::layers::pooling::witness::element_count;
use zkml::layers::pooling::{GlobalAvgPool2D, Maxpool2D, PoolKind, Pooling, PoolingCtx};
use zkml::layers::LayerError;
use zkml::mle::{compute_betas_eval, evaluate, identity_eval, to_bits};
use zkml::number::Element;
use zkml::shape::Shape;
use zkml::tensor::Tensor;

fn random(shape: &Shape) -> Tensor<Element> {
    let seed = shape.0.iter().fold(5u64, |s, d| s.wrapping_mul(31).wrapping_add(*d as u64));
    Tensor::random(shape, seed, -127, 127)
}

/// A pseudo-random point.
fn challenges(n: usize, seed: u64) -> Vec<GoldilocksExt2> {
    let mut state = seed.wrapping_mul(0x9E37_79B9_7F4A_7C15).wrapping_add(1);
    let mut next = || {
        state ^= state << 13;
        state ^= state >> 7;
        state ^= state << 17;
        state >> 1
    };
    (0..n).map(|_| GoldilocksExt2::from_bases(next(), next())).collect()
}

/// The sum over all corners of the products of the entries.
fn sum_of_products(tables: &[&Vec<GoldilocksExt2>]) -> GoldilocksExt2 {
    let mut sum = GoldilocksExt2::zero();
    for i in 0..tables[0].len() {
        let mut product = GoldilocksExt2::one();
        for t in tables {
            product = product.times(&t[i]);
        }
        sum = sum.plus(&product);
    }
    sum
}

fn field_table(data: &[Element]) -> Vec<GoldilocksExt2> {
    data.iter().map(|x| to_field(*x)).collect()
}

/// Reduces all sums of a delegation, and checks that each is the value that it starts from.
fn delegate(mut d: Delegation, start: GoldilocksExt2, seed: u64) -> DelegationValues {
    let mut values = DelegationValues { points: vec![], claims: vec![] };
    let mut claim = start;
    let mut k = 0;
    while let Some(step) = d.step() {
        assert_eq!(sum_of_products(&[&step.beta, &step.phi, &step.level]), claim);
        let n = step.level.len().ilog2() as usize;
        let point = challenges(n, seed + k);
        let claims = vec![
            evaluate(&step.beta, &point),
            evaluate(&step.phi, &point),
            evaluate(&step.level, &point),
        ];
        claim = claims[2];
        values.points.push(point.clone());
        values.claims.push(claims);
        d.advance(point);
        k += 1;
    }
    values
}

struct ProvedConvolution {
    conv: Convolution<Element>,
    ctx: ConvCtx,
    padded_input: Tensor<Element>,
    last_claim: Claim,
    values: ConvProofValues,
    weights_rand: Vec<GoldilocksExt2>,
}

fn empty_aux(shape: Shape) -> ContextAux {
    ContextAux {
        last_output_shape: vec![shape.next_power_of_two()],
        last_unpadded_output_shape: vec![shape],
        model_polys: None,
        tables: vec![],
        max_poly_len: 0,
    }
}

/// The proof of a layer with two output channels and two input channels.
fn prove_convolution() -> ProvedConvolution {
    let input_shape: Shape = vec![2, 6, 6].into();
    let filter = random(&vec![2, 2, 3, 3].into());
    let bias = random(&vec![2].into());
    let input = random(&input_shape);
    let padded_input = input.pad_next_power_of_two();
    let conv = Convolution::new(filter, bias).into_padded_and_ffted(&input_shape);
    let (_, data) = conv.op(&padded_input, &input_shape);
    let (ctx, aux) = conv.step_info(3, empty_aux(input_shape));
    assert_eq!(aux.last_output_shape, vec![Shape::new(vec![2, 8, 8])]);
    assert_eq!(ctx.nw, 8);

    let output_table = field_table(&data.output_as_element);
    let point = challenges(7, 1);
    let eval = evaluate(&output_table, &point);
    let last_claim = Claim::new(point, eval);

    let split = conv.split_output_claim(&last_claim);
    assert_eq!(split.bias_eval, evaluate(&field_table(conv.bias.get_data()), &split.bias_point));

    let ifft = batch_ifft_tables(&split.r, &data.prod);
    let ifft_sum = sum_of_products(&[&ifft.f_m, &ifft.f_red]);
    assert_eq!(ifft_sum, eval.minus(&split.bias_eval));
    let ifft_point = challenges(7, 2);
    let ifft_claims = vec![evaluate(&ifft.f_m, &ifft_point), evaluate(&ifft.f_red, &ifft_point)];
    let ifft_delegation = delegate(
        Delegation::new(ifft.f_middle, ifft.r1, ifft_point.clone(), true),
        ifft_claims[1],
        20,
    );

    let hadamard = conv.hadamard_tables(&data.input_fft, &split.bias_point, &ifft_point);
    assert_eq!(sum_of_products(&[&hadamard.f1, &hadamard.f2, &hadamard.f3]), ifft_claims[0]);
    let hadamard_point = challenges(8, 3);
    let hadamard_claims = vec![
        evaluate(&hadamard.f1, &hadamard_point),
        evaluate(&hadamard.f2, &hadamard_point),
        evaluate(&hadamard.f3, &hadamard_point),
    ];

    let fft = batch_fft_tables(&hadamard_point, &data.input);
    assert_eq!(sum_of_products(&[&fft.f_m, &fft.f_red]), hadamard_claims[1]);
    let fft_point = challenges(7, 4);
    let fft_claims = vec![evaluate(&fft.f_m, &fft_point), evaluate(&fft.f_red, &fft_point)];
    let fft_delegation = delegate(
        Delegation::new(fft.f_middle, fft.r1, fft_point.clone(), false),
        fft_claims[1],
        40,
    );

    let mut kernel_point = hadamard_point.clone();
    kernel_point.extend_from_slice(&split.bias_point);
    let weights = conv.batch_fft_weights_tables(&kernel_point);
    assert_eq!(
        sum_of_products(&[&weights.tables.f_m, &weights.tables.f_red]),
        hadamard_claims[0]
    );
    let weights_point = challenges(7, 5);
    let fft_weight_claims = vec![
        evaluate(&weights.tables.f_m, &weights_point),
        evaluate(&weights.tables.f_red, &weights_point),
    ];
    let weights_delegation = delegate(
        Delegation::new(weights.tables.f_middle, weights.tables.r1, weights_point.clone(), false),
        fft_weight_claims[1],
        60,
    );

    let values = ConvProofValues {
        fft_point,
        fft_claims,
        fft_delegation,
        weights_point,
        fft_weight_claims,
        weights_delegation,
        ifft_point,
        ifft_claims,
        ifft_delegation,
        hadamard_point,
        hadamard_claims,
        partial_evals: weights.partial_evals,
        bias_claim: split.bias_eval,
    };
    ProvedConvolution { conv, ctx, padded_input, last_claim, values, weights_rand: challenges(4, 6) }
}

/// The checks accept, and the claims that remain hold of the filter, of the bias and of the input.
#[test]
fn convolution_proof_is_accepted() {
    let p = prove_convolution();
    let claims = p.ctx.check_convolution(&p.last_claim, &p.values, &p.weights_rand).unwrap();
    assert_eq!(claims.bias.eval, evaluate(&field_table(p.conv.bias.get_data()), &claims.bias.point));
    assert_eq!(claims.filter.eval, evaluate(&field_table(p.conv.filter.get_data()), &claims.filter.point));
    assert_eq!(claims.input.eval, evaluate(&field_table(p.padded_input.get_data()), &claims.input.point));
    p.ctx.verify_input_claim(&vec![p.padded_input.to_field_tensor()], &vec![claims.input]).unwrap();
}

/// The sums that are shown: the last one before every point is the value claimed there.
#[test]
fn convolution_sums_in_order() {
    let p = prove_convolution();
    let sums = sumcheck_claims(&p.values, &p.last_claim.eval);
    let n = p.values.ifft_delegation.points.len();
    assert_eq!(n, 6);
    assert_eq!(sums.len(), 4 + 3 * n);
    assert_eq!(sums[0], p.last_claim.eval.minus(&p.values.bias_claim));
    assert_eq!(sums[1], p.values.ifft_claims[1]);
    assert_eq!(sums[2], p.values.ifft_delegation.claims[0][2]);
    assert_eq!(sums[n + 1], p.values.ifft_claims[0]);
    assert_eq!(sums[n + 2], p.values.hadamard_claims[1]);
    assert_eq!(sums[n + 3], p.values.fft_claims[1]);
    assert_eq!(sums[2 * n + 3], p.values.hadamard_claims[0]);
    assert_eq!(sums[2 * n + 4], p.values.fft_weight_claims[1]);
}

/// The proof, sum by sum: the tables of each add up to the value that the checks start it from, and the claims that are
/// left are those of the checks.
#[test]
fn convolution_proof_sum_by_sum() {
    let input_shape: Shape = vec![2, 6, 6].into();
    let conv = Convolution::new(random(&vec![2, 2, 3, 3].into()), random(&vec![2].into()))
        .into_padded_and_ffted(&input_shape);
    let (_, data) = conv.op(&random(&input_shape).pad_next_power_of_two(), &input_shape);
    let (ctx, _) = conv.step_info(3, empty_aux(input_shape));
    let point = challenges(7, 1);
    let eval = evaluate(&field_table(&data.output_as_element), &point);
    let last_claim = Claim::new(point, eval);

    assert!(conv.can_be_proved(&data, &last_claim));
    assert!(!conv.can_be_proved(&data, &Claim::new(challenges(6, 1), eval)));
    let mut prover = conv.prove_convolution_step(&data, &last_claim);
    let sizes = ctx.sum_sizes();
    let mut sums = vec![];
    while !prover.is_done() {
        let tables = prover.tables();
        assert_eq!(tables.len(), sizes[sums.len()].len());
        for (t, n) in tables.iter().zip(&sizes[sums.len()]) {
            assert_eq!(t.len(), 1 << n);
        }
        sums.push(sum_of_products(&tables.iter().collect::<Vec<_>>()));
        let point = challenges(tables[0].len().ilog2() as usize, 100 + sums.len() as u64);
        let evals: Vec<GoldilocksExt2> = tables.iter().map(|t| evaluate(t, &point)).collect();
        assert!(prover.accepts(&point, &evals));
        assert!(!prover.accepts(&point, &evals[1..].to_vec()));
        assert!(!prover.accepts(&point[1..].to_vec(), &evals));
        assert!(!prover.can_finish(4));
        prover = prover.reply(point, evals);
    }
    assert_eq!(sums.len(), 4 + 3 * 6);
    assert_eq!(sizes.len(), sums.len());
    assert!(prover.tables().is_empty());
    assert!(!prover.accepts(&vec![], &vec![]));
    assert!(!prover.can_finish(3));
    assert!(prover.can_finish(4));

    let weights_rand = challenges(4, 6);
    let proved = prover.finish(&weights_rand);
    assert_eq!(sumcheck_claims(&proved.values, &last_claim.eval), sums);
    assert!(ctx.proof_fits(&proved.values, &last_claim, 4));
    let claims = ctx.check_convolution(&last_claim, &proved.values, &weights_rand).unwrap();
    for (a, b) in [
        (&claims.filter, &proved.claims.filter),
        (&claims.bias, &proved.claims.bias),
        (&claims.input, &proved.claims.input),
    ] {
        assert_eq!(a.point, b.point);
        assert_eq!(a.eval, b.eval);
    }
    assert_eq!(claims.filter.eval, evaluate(&field_table(conv.filter.get_data()), &claims.filter.point));
}

/// A proof that lacks values, or whose checks would divide by zero, is told apart.
#[test]
fn convolution_proof_sizes() {
    let p = prove_convolution();
    assert!(p.ctx.proof_fits(&p.values, &p.last_claim, 4));
    assert!(!p.ctx.proof_fits(&p.values, &p.last_claim, 3));
    assert!(!p.ctx.proof_fits(&p.values, &Claim::new(vec![], p.last_claim.eval), 4));

    let mut p = prove_convolution();
    p.values.ifft_delegation.claims[2].pop();
    assert!(!p.ctx.proof_fits(&p.values, &p.last_claim, 4));

    let mut p = prove_convolution();
    p.values.fft_delegation.points.pop();
    assert!(!p.ctx.proof_fits(&p.values, &p.last_claim, 4));

    let mut p = prove_convolution();
    p.values.hadamard_claims.pop();
    assert!(!p.ctx.proof_fits(&p.values, &p.last_claim, 4));

    let mut p = prove_convolution();
    let last = p.values.fft_point.len() - 1;
    p.values.fft_point[last] = GoldilocksExt2::one();
    assert!(!p.ctx.proof_fits(&p.values, &p.last_claim, 4));

    let mut p = prove_convolution();
    p.ctx.real_nw = 9;
    assert!(!p.ctx.proof_fits(&p.values, &p.last_claim, 4));
}

#[test]
fn convolution_proof_with_wrong_values_is_rejected() {
    let one = GoldilocksExt2::one();

    let mut p = prove_convolution();
    p.ctx.delegation_ifft.pop();
    let r = p.ctx.check_convolution(&p.last_claim, &p.values, &p.weights_rand);
    assert_eq!(r.unwrap_err(), ConvError::InverseDelegationSteps);

    let mut p = prove_convolution();
    p.values.ifft_delegation.claims[2][1] = one;
    let r = p.ctx.check_convolution(&p.last_claim, &p.values, &p.weights_rand);
    assert_eq!(r.unwrap_err(), ConvError::InverseDelegation);

    let mut p = prove_convolution();
    p.values.hadamard_claims[2] = one;
    let r = p.ctx.check_convolution(&p.last_claim, &p.values, &p.weights_rand);
    assert_eq!(r.unwrap_err(), ConvError::Beta);

    let mut p = prove_convolution();
    p.ctx.delegation_fft.pop();
    let r = p.ctx.check_convolution(&p.last_claim, &p.values, &p.weights_rand);
    assert_eq!(r.unwrap_err(), ConvError::DelegationSteps);

    let mut p = prove_convolution();
    p.values.fft_delegation.claims[0][0] = one;
    let r = p.ctx.check_convolution(&p.last_claim, &p.values, &p.weights_rand);
    assert_eq!(r.unwrap_err(), ConvError::Delegation);

    let mut p = prove_convolution();
    p.values.weights_delegation.claims[1][1] = one;
    let r = p.ctx.check_convolution(&p.last_claim, &p.values, &p.weights_rand);
    assert_eq!(r.unwrap_err(), ConvError::WeightDelegation);

    let mut p = prove_convolution();
    p.values.partial_evals[5] = one;
    let r = p.ctx.check_convolution(&p.last_claim, &p.values, &p.weights_rand);
    assert_eq!(r.unwrap_err(), ConvError::Weights);
}

#[test]
fn input_claims_are_checked() {
    let p = prove_convolution();
    let input = p.padded_input.to_field_tensor();
    let claim = p.ctx.check_convolution(&p.last_claim, &p.values, &p.weights_rand).unwrap().input;
    assert_eq!(p.ctx.verify_input_claim(&vec![], &vec![claim.clone()]).unwrap_err(), InputClaimError::Count);
    let wrong = Claim::new(claim.point.clone(), claim.eval.plus(&GoldilocksExt2::one()));
    assert_eq!(
        p.ctx.verify_input_claim(&vec![input.clone()], &vec![wrong]).unwrap_err(),
        InputClaimError::Incorrect(0)
    );
}

/// A claim on the compact output of a layer with a stride is one on the output of the transform, once it is cleared.
#[test]
fn strided_claims_are_carried_over() {
    let input_shape: Shape = vec![1, 8, 8].into();
    let filter = random(&vec![2, 1, 3, 3].into());
    let bias = random(&vec![2].into());
    let input = random(&input_shape);
    let conv = Convolution::new_with_padding_and_stride(filter, bias, [1, 1], [2, 2]).into_padded_and_ffted(&input_shape);
    let padded_input = input.pad_next_power_of_two();
    let (output, data) = conv.op(&padded_input, &input_shape);
    let point = challenges(5, 9);
    let eval = evaluate(&field_table(output.get_data()), &point);
    let last_claim = Claim::new(point, eval);

    let (ctx, _) = conv.step_info(0, empty_aux(input_shape.clone()));
    let step = ShapeStep {
        unpadded_input_shape: vec![input_shape.clone()],
        unpadded_output_shape: vec![],
        padded_input_shape: vec![input_shape.clone()],
        padded_output_shape: vec![],
    };
    let side = 16;
    let with_bias = Tensor::new(vec![2, side, side].into(), data.output_as_element.clone());
    let prover = clearing_inputs(
        2,
        &last_claim,
        &output.get_shape(),
        &vec![2, 4, 4].into(),
        with_bias.get_data().to_vec(),
    );
    assert!(can_clear(2, &last_claim, &output.get_shape(), &vec![2, 4, 4].into(), with_bias.get_data().len()));
    assert!(!can_clear(2, &last_claim, &output.get_shape(), &vec![2, 4, 4].into(), with_bias.get_data().len() - 1));
    assert!(!can_clear(0, &last_claim, &output.get_shape(), &vec![2, 4, 4].into(), with_bias.get_data().len()));
    assert!(!can_clear(8, &last_claim, &output.get_shape(), &vec![2, 4, 4].into(), with_bias.get_data().len()));
    assert!(!can_clear(2, &last_claim, &output.get_shape(), &vec![4, 4].into(), with_bias.get_data().len()));
    assert!(can_clear(1, &last_claim, &vec![2, side, side].into(), &vec![1, 2, 4, 4].into(), 2 * side * side));
    assert!(ctx.can_clear(&last_claim, &step));
    assert!(!ctx.can_clear(&Claim::new(challenges(4, 9), eval), &step));
    let verifier = ctx.clearing_claim(&last_claim, &step).unwrap();
    assert_eq!(verifier.len, 2 * side * side);
    assert_eq!(verifier.claim.point, prover.claim.point);
    assert_eq!(verifier.clearing_tensor.get_data(), prover.clearing_tensor.get_data());
    let cleared = with_bias.flatten().mul(&verifier.clearing_tensor);
    assert_eq!(evaluate(&field_table(cleared.get_data()), &verifier.claim.point), eval);

    let missing = ShapeStep {
        unpadded_input_shape: vec![],
        unpadded_output_shape: vec![],
        padded_input_shape: vec![input_shape.clone()],
        padded_output_shape: vec![],
    };
    assert!(ctx.can_clear(&last_claim, &missing));
    assert_eq!(ctx.clearing_claim(&last_claim, &missing).unwrap_err(), ConvError::UnpaddedInputs);
    let missing = ShapeStep {
        unpadded_input_shape: vec![input_shape],
        unpadded_output_shape: vec![],
        padded_input_shape: vec![],
        padded_output_shape: vec![],
    };
    assert_eq!(ctx.clearing_claim(&last_claim, &missing).unwrap_err(), ConvError::PaddedInputs);
}

#[test]
fn test_max_pool_zerocheck() {
    for round in 0..50u64 {
        let pick = |i: u64, low: usize, high: usize| -> usize {
            low + ((round * 7 + i * 13 + round * i * 5) as usize) % (high - low)
        };
        let random_shape: Shape =
            vec![pick(0, 2, 6), pick(1, 2, 6), 2 * pick(2, 2, 5), 2 * pick(3, 2, 5)].into();
        let input = Tensor::random(&random_shape, round, -128, 127);

        let info = Maxpool2D { kernel_size: 2, stride: 2 };
        let output = info.op(&input);
        let padded_input = input.pad_next_power_of_two();
        let padded_output = output.pad_next_power_of_two();
        let width = padded_input.get_shape().0[3];
        let output_num_vars = padded_output.get_data().len().ilog2() as usize;

        let mle = field_table(padded_input.get_data());
        // the parts of the input with a column and a line of the windows fixed
        let part = |dh: usize, dw: usize| -> Vec<GoldilocksExt2> {
            (0..padded_output.get_data().len())
                .map(|k| {
                    let (line, column) = (k / (width / 2), k % (width / 2));
                    mle[(2 * line + dh) * width + 2 * column + dw]
                })
                .collect()
        };
        let merged_input_mles = vec![part(0, 0), part(1, 0), part(0, 1), part(1, 1)];
        let output_mle = field_table(padded_output.get_data());
        let diff_mles: Vec<Vec<GoldilocksExt2>> = merged_input_mles
            .iter()
            .map(|m| m.iter().zip(output_mle.iter()).map(|(i, o)| o.minus(i)).collect())
            .collect();
        for j in 0..1 << output_num_vars {
            let product = diff_mles
                .iter()
                .fold(GoldilocksExt2::one(), |acc, d| acc.times(&d[j]));
            assert_eq!(product, GoldilocksExt2::zero());
        }

        // the sum with the corner polynomials is zero
        let random_point = challenges(output_num_vars, round + 100);
        let beta = compute_betas_eval(&random_point);
        assert_eq!(
            sum_of_products(&[&diff_mles[0], &diff_mles[1], &diff_mles[2], &diff_mles[3], &beta]),
            GoldilocksExt2::zero()
        );

        // the values of the parts are those of the input with two coordinates fixed
        let point = challenges(output_num_vars, round + 200);
        let gap = width.ilog2() as usize - 1;
        let output_eval = evaluate(&output_mle, &point);
        let with = |a: GoldilocksExt2, b: GoldilocksExt2| -> Vec<GoldilocksExt2> {
            [&[a][..], &point[..gap], &[b][..], &point[gap..]].concat()
        };
        let (zero, one) = (GoldilocksExt2::zero(), GoldilocksExt2::one());
        let fixed = [with(zero, zero), with(zero, one), with(one, zero), with(one, one)];
        for (i, p) in fixed.iter().enumerate() {
            assert_eq!(
                output_eval.minus(&evaluate(&mle, p)),
                evaluate(&diff_mles[i], &point)
            );
        }
        let r = challenges(1, round + 300)[0];
        let mut evals: Vec<GoldilocksExt2> = diff_mles.iter().map(|d| evaluate(d, &point)).collect();
        evals.push(output_eval);
        let claim = maxpool_input_claim(&evals, &point, gap, &r);
        assert_eq!(claim.point, with(r, r));
        assert_eq!(claim.eval, evaluate(&mle, &claim.point));
    }
}

/// The proof of a maximum layer is accepted, its claim holds of the input, and a wrong value is rejected.
#[test]
fn maxpool_proof() {
    let input = random(&vec![3, 6, 4].into());
    let info = Maxpool2D::default();
    let padded_input = input.pad_next_power_of_two();
    let output = info.op(&input).pad_next_power_of_two();
    let diffs = info.compute_polys(&input);
    assert_eq!(diffs.len(), 4);
    let n = output.get_data().len().ilog2() as usize;
    let out = field_table(output.get_data());

    let lookup_point = challenges(n, 1);
    let lookup_evals: Vec<GoldilocksExt2> = diffs.iter().map(|d| evaluate(d, &lookup_point)).collect();
    let last_point = challenges(n, 2);
    let last_claim = Claim::new(last_point.clone(), evaluate(&out, &last_point));
    let batch = challenges(1, 3)[0];
    let tables = zerocheck_tables(&lookup_point, &last_claim, &batch, 4);
    assert_eq!(tables.coefficients.len(), 5);
    assert_eq!(tables.coefficients[1], batch.times(&batch));

    let mut sum = sum_of_products(&[&diffs[0], &diffs[1], &diffs[2], &diffs[3], &tables.beta]);
    for i in 0..4 {
        sum = sum.plus(&tables.coefficients[i].times(&sum_of_products(&[&diffs[i], &tables.beta])));
    }
    sum = sum.plus(&tables.coefficients[4].times(&sum_of_products(&[&out, &tables.last_beta])));
    assert_eq!(sum, zerocheck_sum(&lookup_evals, &last_claim.eval, &batch));

    let terms = maxpool_terms(&diffs, out.clone(), &lookup_point, &last_claim, &batch);
    assert_eq!(terms.len(), 6);
    assert_eq!(terms[0].tables.len(), 5);
    let mut added = GoldilocksExt2::zero();
    for t in &terms {
        added = added.plus(&t.coefficient.times(&sum_of_products(&t.tables.iter().collect::<Vec<_>>())));
    }
    assert_eq!(added, sum);

    let point = challenges(n, 4);
    let mut evals: Vec<GoldilocksExt2> = diffs.iter().map(|d| evaluate(d, &point)).collect();
    evals.push(evaluate(&out, &point));
    let mut reduced = evals.clone();
    reduced.insert(4, evaluate(&tables.beta, &point));
    reduced.push(evaluate(&tables.last_beta, &point));
    let brought = maxpool_values(&reduced, WINDOW_PLACES, 4);
    assert_eq!(brought.zerocheck_evals, evals);
    assert_eq!(brought.variable_gap, 1);
    assert!(brought.fits(&lookup_point, &last_claim, &point));
    assert!(!brought.fits(&lookup_point[1..], &last_claim, &point));
    assert!(!MaxPoolValues { zerocheck_evals: vec![], variable_gap: 1 }.fits(&lookup_point, &last_claim, &point));
    let ctx = PoolingCtx { pool_kind: PoolKind::MaxPool(info), node_id: 0, num_vars: n };
    assert_eq!(ctx.zerocheck_sizes(), vec![n; 5]);
    let beta = evaluate(&tables.beta, &point);
    assert_eq!(beta, identity_eval(&lookup_point, &point));
    let mut expected = evals[..4].iter().fold(beta, |acc, e| acc.times(e));
    for i in 0..4 {
        expected = expected.plus(&tables.coefficients[i].times(&evals[i]).times(&beta));
    }
    let last_beta = evaluate(&tables.last_beta, &point);
    expected = expected.plus(&tables.coefficients[4].times(&evals[4]).times(&last_beta));

    let r = challenges(1, 5)[0];
    let values = MaxPoolValues { zerocheck_evals: evals.clone(), variable_gap: 1 };
    let claim = check_maxpool(&values, &lookup_point, &last_claim, &batch, &point, &expected, &r).unwrap();
    assert_eq!(claim.eval, evaluate(&field_table(padded_input.get_data()), &claim.point));

    let wrong = expected.plus(&GoldilocksExt2::one());
    assert_eq!(
        check_maxpool(&values, &lookup_point, &last_claim, &batch, &point, &wrong, &r).unwrap_err(),
        PoolingError::FinalEvaluation
    );

    let claims = witness_claims(&evals, &point);
    assert_eq!(claims.len(), 5);
    assert_eq!(claims[2].eval, evals[2]);
    assert_eq!(claims[2].point, point);
}

/// The lookups of a maximum layer: the differences, and how often each occurs.
#[test]
fn maxpool_witness() {
    let input = Tensor::new(vec![1, 2, 4].into(), vec![1, 5, -2, 3, 4, 0, 3, 3]);
    let pool = Pooling::Maxpool2D(Maxpool2D::default());
    let output = pool.op(&input);
    assert_eq!(output.get_data(), &[5, 3]);
    let w = pool
        .gen_lookup_witness(&vec![input.clone()], &vec![output.clone()])
        .unwrap()
        .unwrap();
    let f = |v: &[Element]| field_table(v);
    assert_eq!(w.column_evals, vec![f(&[4, 5]), f(&[1, 0]), f(&[0, 0]), f(&[5, 0])]);
    assert_eq!(w.output_poly, f(&[5, 3]));
    assert_eq!(w.num_vars, 1);
    assert_eq!(w.element_count.len(), 4);
    assert_eq!(w.element_count[&0], 4);
    assert_eq!(w.element_count[&1], 1);
    assert_eq!(w.element_count[&4], 1);
    assert_eq!(w.element_count[&5], 2);
    assert_eq!(element_count(&vec![f(&[-3, 7]), f(&[-3])])[&-3], 2);
    let gap = Pooling::GlobalAvgPool2D(GlobalAvgPool2D::new(8));
    assert!(gap.gen_lookup_witness(&vec![input.clone()], &vec![output.clone()]).unwrap().is_none());
    assert_eq!(
        pool.gen_lookup_witness(&vec![], &vec![output]).unwrap_err(),
        LayerError::InputCount
    );
    assert_eq!(
        pool.gen_lookup_witness(&vec![input], &vec![]).unwrap_err(),
        LayerError::OutputCount
    );
}

/// The sum over the combined planes is the number of entries of a plane times the value of the output.
#[test]
fn average_proof() {
    let input = Tensor::new(vec![2, 2, 2].into(), vec![1, 2, 3, 6, -4, 0, -8, 0]);
    let gap = GlobalAvgPool2D::new(4);
    let output = gap.op(&input);
    assert_eq!(output.get_data(), &[3, -3]);
    let point = challenges(1, 7);
    let last_claim = Claim::new(point.clone(), evaluate(&field_table(output.get_data()), &point));
    let sum = gap.sum_tables(&last_claim, &input.to_field_tensor());
    assert_eq!(sum.claimed_sum, gap.claimed_sum(&last_claim));
    assert_eq!(sum_of_products(&[&sum.table.evaluations]), sum.claimed_sum);
    let sum_point = challenges(2, 8);
    let eval = evaluate(&sum.table.evaluations, &sum_point);
    let claim = GlobalAvgPool2D::check_globalavgpool(&last_claim, &eval, &sum_point, &eval).unwrap();
    assert_eq!(claim.point, [&sum_point[..], &point[..]].concat());
    assert_eq!(claim.eval, eval);
    // the claim on the input holds
    assert_eq!(claim.eval, evaluate(&field_table(input.get_data()), &claim.point));
    assert_eq!(
        GlobalAvgPool2D::check_globalavgpool(&last_claim, &eval, &sum_point, &GoldilocksExt2::one()).unwrap_err(),
        PoolingError::FinalEvaluation
    );
}

#[test]
fn pooling_proofs_are_of_one_kind() {
    let ctx = PoolingCtx { pool_kind: PoolKind::MaxPool(Maxpool2D::default()), node_id: 0, num_vars: 4 };
    let max = PoolingProof::MaxPool(MaxPoolValues { zerocheck_evals: vec![], variable_gap: 0 });
    let avg = PoolingProof::GlobalAvgPool(GlobalAvgPoolValues {
        input_eval: GoldilocksExt2::one(),
        num_channel_vars: 1,
    });
    assert_eq!(ctx.check_kind(&max), Ok(()));
    assert_eq!(ctx.check_kind(&avg), Err(PoolingError::Kind));
}

#[test]
fn pooling_contexts() {
    let aux = ContextAux {
        last_output_shape: vec![vec![4, 8, 8].into(), vec![2, 16, 8].into()],
        last_unpadded_output_shape: vec![],
        model_polys: None,
        tables: vec![],
        max_poly_len: 10,
    };
    let pool = Pooling::Maxpool2D(Maxpool2D::default());
    let (ctx, out) = pool.step_info(7, aux).unwrap();
    assert_eq!(ctx.node_id, 7);
    assert_eq!(ctx.num_vars, 6);
    assert_eq!(out.last_output_shape, vec![Shape::new(vec![4, 4, 4]), Shape::new(vec![2, 8, 4])]);
    assert_eq!(out.tables, vec![TableType::Range]);
    assert_eq!(out.max_poly_len, 64);

    let gap = Pooling::GlobalAvgPool2D(GlobalAvgPool2D::new(64));
    let (ctx, out) = gap.step_info(1, empty_aux(vec![3, 8, 8].into())).unwrap();
    assert_eq!(ctx.num_vars, 2);
    assert_eq!(out.last_output_shape, vec![Shape::new(vec![4, 1, 1])]);
    assert_eq!(out.tables, vec![]);
    assert_eq!(out.max_poly_len, 4);

    assert_eq!(
        gap.step_info(1, empty_aux(vec![8, 8].into())).unwrap_err(),
        LayerError::InputRank
    );
    let mixed = ContextAux {
        last_output_shape: vec![vec![4, 8, 8].into(), vec![4, 16, 8].into()],
        last_unpadded_output_shape: vec![],
        model_polys: None,
        tables: vec![],
        max_poly_len: 0,
    };
    assert_eq!(pool.step_info(1, mixed).unwrap_err(), LayerError::NumVars);
}

#[test]
fn claims_of_the_prover() {
    let output = random(&vec![2, 4].into()).to_field_tensor();
    assert_eq!(num_output_challenges(&output), 3);
    let claim = output_claim(&output, to_bits(5, 3));
    assert_eq!(claim.eval, output.get_data()[5]);
    let claims = vec![claim];
    let again = propagate_claims(&claims);
    assert_eq!(again[0].eval, claims[0].eval);
    assert_eq!(again[0].point, claims[0].point);

    assert_eq!(table_claim(2, &claims).unwrap_err(), ProverError::Commitments);
    assert!(table_claim(1, &vec![]).unwrap().is_none());
    assert_eq!(table_claim(1, &claims).unwrap().unwrap().eval, claims[0].eval);
    let two = vec![claims[0].clone(), claims[0].clone()];
    assert_eq!(table_claim(1, &two).unwrap_err(), ProverError::TableClaims);

    let mut witnesses = std::collections::HashMap::new();
    witnesses.insert(4, vec!["a", "b"]);
    assert_eq!(lookup_witness(&mut witnesses, 4), Ok(vec!["a", "b"]));
    assert_eq!(lookup_witness(&mut witnesses, 4), Err(ProverError::NoWitness));
}
