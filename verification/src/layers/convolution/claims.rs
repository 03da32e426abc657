//! The claims that the proof of a convolution layer starts from and ends with.
use crate::algebra::{lemma_fsum_add, lemma_fsum_eq, lemma_fsum_scale};
use crate::arith::{flog2, floor_log2, lemma_grid_bound, power_of_two};
use crate::fft::{all_canon, fes, lemma_fes_canon};
use crate::field::{
    canon, fadd, fmul, fone, fsub, fsum, fzero, lemma_fadd_comm, lemma_fadd_zero, lemma_fe_canon, lemma_fmul_assoc,
    lemma_fmul_comm, lemma_fmul_dist, lemma_fmul_one, lemma_fsub_fadd, lemma_ops_canon, Fe, GoldilocksExt2,
};
use crate::iop::batch::{extended, lemma_mixed_product, lemma_stacked_mle, mixed, stacked};
use crate::iop::delegation::{betas, lemma_mle_affine, lemma_mle_last};
use crate::layers::convolution::clearing::{
    is_clearing_tensor, new_clearing_tensor, new_clearing_tensor_strided, no_batch,
};
use crate::layers::convolution::prove::laid_out;
use crate::layers::convolution::strided::{expand_strided_point, expanded};
use crate::iop::Claim;
use crate::layers::convolution::Convolution;
use crate::mle::{
    between, chi, complement, evaluate, fold, lemma_fsum_grid, lemma_mle_canon, lemma_mle_empty, lemma_mle_eq,
    lemma_mle_fold, lemma_mle_high_zeros, mle_eval, mle_term, zeros,
};
use crate::number::Element;
use crate::shape::{lemma_prod3, prod, Shape};
use crate::tensor::{copy_slice, Tensor};
use crate::tensor::extension::field_table;
use vstd::arithmetic::power2::{lemma2_to64, lemma_pow2_pos, lemma_pow2_unfold, pow2};
use vstd::prelude::*;
use vstd::slice::slice_subrange;

verus! {

/// One minus each coordinate.
pub open spec fn opposite(p: Seq<Fe>) -> Seq<Fe> {
    Seq::new(p.len(), |i: int| fsub(fone(), p[i]))
}

/// The point of the polynomials of a convolution for the point `p` of its output, whose first `n` coordinates
/// address the entries of a channel: the channels are read backwards from the lower halves of the polynomials.
pub open spec fn poly_point(p: Seq<Fe>, n: nat) -> Seq<Fe> {
    (opposite(p.take(n as int)) + zeros(1)) + p.skip(n as int)
}

/// One minus each coordinate from `a` up to `b`.
fn opposite_part(p: &[GoldilocksExt2], a: usize, b: usize) -> (r: Vec<GoldilocksExt2>)
    requires
        a <= b <= p@.len(),
    ensures
        fes(r@) == opposite(fes(p@).subrange(a as int, b as int)),
{
    let mut r: Vec<GoldilocksExt2> = Vec::with_capacity(b - a);
    let mut i: usize = a;
    while i < b
        invariant
            a <= i <= b,
            b <= p@.len(),
            r@.len() == i - a,
            forall|j: int| 0 <= j < i - a ==> (#[trigger] r@[j]).fe() == fsub(fone(), p@[a + j].fe()),
        decreases b - i,
    {
        r.push(complement(&p[i]));
        i = i + 1;
    }
    proof {
        assert(fes(r@) =~= opposite(fes(p@).subrange(a as int, b as int)));
    }
    r
}

/// A claim on the output of a convolution, carried over to its polynomials and its bias.
#[derive(Debug)]
pub struct OutputClaim {
    /// The point of the polynomials.
    pub r: Vec<GoldilocksExt2>,
    /// The point of the bias.
    pub bias_point: Vec<GoldilocksExt2>,
    /// The value of the bias there.
    pub bias_eval: GoldilocksExt2,
}

/// The number of coordinates that address the entries of a channel of the output.
pub open spec fn entry_vars(conv: &Convolution<Element>) -> nat {
    flog2((conv.filter.shape@[2] * conv.filter.shape@[2]) as nat)
}

/// The number of coordinates that address the channels of the output.
pub open spec fn channel_vars(conv: &Convolution<Element>) -> nat {
    flog2(conv.filter.shape@[0] as nat)
}

/// The extension of the bias, where it has an entry for each channel.
pub open spec fn bias_value(conv: &Convolution<Element>, q: Seq<Fe>) -> Fe {
    if q.len() == 0 && conv.bias.data@.len() != 1 {
        fzero()
    } else {
        mle_eval(field_table(&conv.bias), q)
    }
}

impl Convolution<Element> {
    /// Carries a claim on the output over to the polynomials and the bias.
    pub fn split_output_claim(&self, last_claim: &Claim) -> (r: OutputClaim)
        requires
            self.filter.shape@.len() == 4,
            0 < self.filter.shape@[2] * self.filter.shape@[2] <= usize::MAX,
            self.filter.shape@[0] > 0,
            last_claim.point@.len() == entry_vars(self) + channel_vars(self),
            channel_vars(self) > 0 ==> self.bias.data@.len() == pow2(channel_vars(self)),
        ensures
            fes(r.r@) == poly_point(last_claim.at(), entry_vars(self)),
            fes(r.bias_point@) == last_claim.at().skip(entry_vars(self) as int),
            r.bias_eval.fe() == bias_value(self, last_claim.at().skip(entry_vars(self) as int)),
    {
        let log_fs = floor_log2(self.filter_size());
        let log_kw = floor_log2(self.kw());
        let total: usize = last_claim.point.len();
        let ghost p = last_claim.at();
        let bias_point = copy_slice(slice_subrange(last_claim.point.as_slice(), log_fs, total));
        let mut r = opposite_part(&last_claim.point, 0, log_fs);
        let ghost low = r@;
        r.push(GoldilocksExt2::zero());
        let mut high = copy_slice(&bias_point);
        let ghost hi = high@;
        r.append(&mut high);
        proof {
            assert(p.subrange(0, log_fs as int) =~= p.take(log_fs as int));
            assert(fes(bias_point@) =~= p.skip(log_fs as int));
            assert(fes(r@) =~= (fes(low) + zeros(1)) + fes(hi));
        }
        let mut bias_eval = GoldilocksExt2::zero();
        let evals = self.bias.evals_flat();
        proof {
            assert(fes(evals@) =~= field_table(&self.bias));
            lemma2_to64();
        }
        if bias_point.len() > 0 {
            bias_eval = evaluate(&evals, &bias_point);
        } else if self.bias.data.len() == 1 {
            bias_eval = evals[0];
            proof {
                lemma_fes_canon(evals@);
                assert(canon(fes(evals@)[0]));
                lemma_mle_empty(field_table(&self.bias), fes(bias_point@));
            }
        }
        OutputClaim { r, bias_point, bias_eval }
    }
}

/// Reading a table backwards is evaluating its extension at the opposite point.
pub proof fn law_opposite_point(v: Seq<Fe>, p: Seq<Fe>)
    requires
        v.len() == pow2(p.len()),
        all_canon(v),
        all_canon(p),
    ensures
        mle_eval(Seq::new(v.len(), |i: int| v[v.len() - 1 - i]), p) == mle_eval(v, opposite(p)),
    decreases p.len(),
{
    let n = v.len();
    let b = Seq::new(n, |i: int| v[n - 1 - i]);
    lemma2_to64();
    if p.len() == 0 {
        lemma_mle_empty(b, p);
        assert(canon(v[0]));
        lemma_mle_empty(v, opposite(p));
    } else {
        let x = p[0];
        let y = fsub(fone(), x);
        let m = (n / 2) as nat;
        lemma_pow2_unfold(p.len());
        lemma_mle_fold(b, p);
        lemma_mle_fold(v, opposite(p));
        let c = fold(v, y);
        let d = fold(b, x);
        assert(canon(x));
        lemma_fsub_fadd(fone(), x);
        lemma_fadd_comm(y, x);
        lemma_fsub_fadd(x, y);
        assert(fsub(fone(), y) == x);
        let back = Seq::new(m, |j: int| c[m - 1 - j]);
        assert forall|j: int| 0 <= j < m implies #[trigger] d[j] == back[j] by {
            let k = m - 1 - j;
            assert(b[2 * j] == v[2 * k + 1] && b[2 * j + 1] == v[2 * k]);
            lemma_fadd_comm(fmul(v[2 * k + 1], y), fmul(v[2 * k], x));
        }
        assert(d =~= back);
        let q = p.skip(1);
        assert forall|i: int| 0 <= i < q.len() implies canon(#[trigger] q[i]) by {
            assert(canon(p[i + 1]));
        }
        assert(opposite(p).skip(1) =~= opposite(q));
        law_opposite_point(c, q);
    }
}

/// The extension of a sum of tables.
proof fn lemma_mle_add(a: Seq<Fe>, b: Seq<Fe>, p: Seq<Fe>)
    ensures
        mle_eval(Seq::new(pow2(p.len()), |i: int| fadd(a[i], b[i])), p) == fadd(mle_eval(a, p), mle_eval(b, p)),
{
    let n = pow2(p.len());
    let c = Seq::new(n, |i: int| fadd(a[i], b[i]));
    let (f, g) = (mle_term(a, p), mle_term(b, p));
    lemma_fsum_add(n, f, g);
    let s = |i: int| fadd(f(i), g(i));
    assert forall|i: int| 0 <= i < n implies #[trigger] mle_term(c, p)(i) == s(i) by {
        lemma_fmul_dist(chi(i, p), a[i], b[i]);
    }
    lemma_fsum_eq(n, mle_term(c, p), s);
}

/// Adding a constant to a table adds it to the extension.
proof fn lemma_mle_shift(v: Seq<Fe>, c: Fe, p: Seq<Fe>)
    requires
        canon(c),
        all_canon(v),
        v.len() == pow2(p.len()),
    ensures
        mle_eval(Seq::new(v.len(), |i: int| fadd(v[i], c)), p) == fadd(mle_eval(v, p), c),
{
    lemma_mle_affine(c, fone(), v, p);
    lemma_mle_canon(v, p);
    lemma_fmul_one(mle_eval(v, p));
    lemma_fadd_comm(c, mle_eval(v, p));
    let a = Seq::new(v.len(), |i: int| fadd(v[i], c));
    let b = Seq::new(pow2(p.len()), |i: int| fadd(c, fmul(fone(), v[i])));
    assert forall|i: int| 0 <= i < pow2(p.len()) implies #[trigger] a[i] == b[i] by {
        assert(canon(v[i]));
        lemma_fmul_one(v[i]);
        lemma_fadd_comm(c, v[i]);
    }
    lemma_mle_eq(a, b, p);
}

/// A claim on the output is a claim on the polynomials plus one on the bias: `out` holds the channels, each
/// the lower half of a polynomial read backwards, plus the bias of the channel.
pub proof fn law_output_claim(out: Seq<Fe>, polys: Seq<Seq<Fe>>, bias: Seq<Fe>, p: Seq<Fe>, n: nat)
    requires
        n <= p.len(),
        all_canon(p),
        all_canon(bias),
        polys.len() == pow2((p.len() - n) as nat),
        bias.len() == polys.len(),
        out.len() == polys.len() * pow2(n),
        forall|i: int| 0 <= i < polys.len() ==> (#[trigger] polys[i]).len() == 2 * pow2(n),
        forall|i: int| 0 <= i < polys.len() ==> all_canon(#[trigger] polys[i]),
        forall|i: int, k: int|
            0 <= i < polys.len() && 0 <= k < pow2(n) ==> #[trigger] out[i * pow2(n) + k] == fadd(
                polys[i][pow2(n) - 1 - k],
                bias[i],
            ),
    ensures
        mle_eval(out, p) == fadd(
            mle_eval(stacked(polys, 2 * pow2(n)), poly_point(p, n)),
            mle_eval(bias, p.skip(n as int)),
        ),
{
    let len = pow2(n);
    let low = p.take(n as int);
    let high = p.skip(n as int);
    let rows = Seq::new(polys.len(), |i: int| Seq::new(len, |k: int| fadd(polys[i][len - 1 - k], bias[i])));
    assert(out =~= stacked(rows, len)) by {
        assert forall|t: int| 0 <= t < out.len() implies out[t] == stacked(rows, len)[t] by {
            lemma_pow2_pos(n);
            crate::arith::lemma_grid_split(t, polys.len() as int, len as int);
            let (i, k) = (t / (len as int), t % (len as int));
            assert(out[i * len + k] == fadd(polys[i][len - 1 - k], bias[i]));
        }
    }
    assert(p =~= low + high);
    assert forall|i: int| 0 <= i < low.len() implies canon(#[trigger] low[i]) by {
        assert(canon(p[i]));
    }
    lemma_stacked_mle(rows, low, high);
    let q = opposite(low) + zeros(1);
    lemma_pow2_unfold(n + 1);
    lemma_stacked_mle(polys, q, high);
    let a = Seq::new(rows.len(), |i: int| mle_eval(rows[i], low));
    let b = Seq::new(polys.len(), |i: int| mle_eval(polys[i], q));
    let c = Seq::new(pow2(high.len()), |i: int| fadd(b[i], bias[i]));
    assert forall|i: int| 0 <= i < pow2(high.len()) implies #[trigger] a[i] == c[i] by {
        let u = polys[i];
        let half = u.take(len as int);
        let back = Seq::new(len, |k: int| half[len - 1 - k]);
        assert(all_canon(u));
        assert forall|k: int| 0 <= k < half.len() implies canon(#[trigger] half[k]) by {
            assert(canon(u[k]));
        }
        assert forall|k: int| 0 <= k < back.len() implies canon(#[trigger] back[k]) by {
            assert(canon(u[len - 1 - k]));
        }
        lemma_mle_high_zeros(u, opposite(low), 1);
        law_opposite_point(half, low);
        assert(Seq::new(half.len(), |i: int| half[half.len() - 1 - i]) =~= back);
        assert(canon(bias[i]));
        lemma_mle_shift(back, bias[i], low);
        assert(rows[i] =~= Seq::new(back.len(), |k: int| fadd(back[k], bias[i])));
    }
    lemma_mle_eq(a, c, high);
    lemma_mle_add(b, bias, high);
}

/// The element has an inverse.
pub open spec fn has_inverse(x: Fe) -> bool {
    exists|z: Fe| canon(z) && #[trigger] fmul(x, z) == fone()
}

/// A factor that has an inverse can be dropped.
pub proof fn lemma_cancel(a: Fe, b: Fe, x: Fe)
    requires
        canon(a),
        canon(b),
        has_inverse(x),
        fmul(a, x) == fmul(b, x),
    ensures
        a == b,
{
    let z = choose|z: Fe| canon(z) && #[trigger] fmul(x, z) == fone();
    lemma_fmul_assoc(a, x, z);
    lemma_fmul_assoc(b, x, z);
    lemma_fmul_one(a);
    lemma_fmul_one(b);
}

/// `q` is `a` divided by `d`.
pub open spec fn is_quotient(q: Fe, a: Fe, d: Fe) -> bool {
    has_inverse(d) && fmul(q, d) == a
}

/// The claim that is left on the input: its coordinates along the entries of a channel are the opposite of
/// those of `fft_point` but for the last, which the value is divided by one minus of; the others are those
/// of `hadamard_point` from `skip` on.
pub fn input_claim(
    fft_point: &[GoldilocksExt2],
    hadamard_point: &[GoldilocksExt2],
    fft_claim: &GoldilocksExt2,
    skip: usize,
) -> (r: Claim)
    requires
        fft_point@.len() > 0,
        fsub(fone(), fft_point@.last().fe()) != fzero(),
        skip <= hadamard_point@.len(),
    ensures
        r.at() == opposite(fes(fft_point@).drop_last()) + fes(hadamard_point@).skip(skip as int),
        is_quotient(r.eval.fe(), fft_claim.fe(), fsub(fone(), fft_point@.last().fe())),
{
    let last: usize = fft_point.len() - 1;
    let c = complement(&fft_point[last]);
    let v = c.inverse();
    let mut point = opposite_part(fft_point, 0, last);
    let ghost low = point@;
    let total: usize = hadamard_point.len();
    let mut rest = copy_slice(slice_subrange(hadamard_point, skip, total));
    let ghost hi = rest@;
    point.append(&mut rest);
    let eval = fft_claim.times(&v);
    proof {
        assert(fes(fft_point@).subrange(0, last as int) =~= fes(fft_point@).drop_last());
        assert(fes(hi) =~= fes(hadamard_point@).skip(skip as int));
        assert(fes(point@) =~= fes(low) + fes(hi));
        lemma_fmul_assoc(fft_claim.fe(), v.fe(), c.fe());
        lemma_fmul_comm(v.fe(), c.fe());
        lemma_fe_canon(*fft_claim);
        lemma_fe_canon(v);
        lemma_fmul_one(fft_claim.fe());
    }
    Claim::new(point, eval)
}

/// The claim on the filter: the mixed weights at the challenges, and the coordinates of the kernels.
pub fn filter_claim(
    partial_evals: &[GoldilocksExt2],
    weights_rand: &[GoldilocksExt2],
    kernel_point: &[GoldilocksExt2],
) -> (r: Claim)
    requires
        partial_evals@.len() == pow2(weights_rand@.len()),
    ensures
        r.at() == fes(weights_rand@) + fes(kernel_point@),
        r.eval.fe() == mle_eval(fes(partial_evals@), fes(weights_rand@)),
{
    let mut point = copy_slice(weights_rand);
    let ghost low = point@;
    let mut rest = copy_slice(kernel_point);
    let ghost hi = rest@;
    point.append(&mut rest);
    proof {
        assert(fes(point@) =~= fes(low) + fes(hi));
    }
    Claim::new(point, evaluate(partial_evals, weights_rand))
}

/// What shows the clearing of the output of a convolution: the claim on the cleared output, the tensor that
/// clears it, and the output before clearing.
#[derive(Debug)]
pub struct ClearingInputs {
    pub claim: Claim,
    pub clearing_tensor: Tensor<Element>,
    pub conv_after_bias: Tensor<Element>,
}

/// The side of an output with `len` entries in `channels` channels, each of which is a square whose side is a
/// power of two.
pub open spec fn output_side(len: nat, channels: nat) -> nat {
    pow2((flog2(len / channels) / 2) as nat)
}

/// The channels are squares, and the sides are powers of two.
pub open spec fn has_output_side(len: nat, channels: nat) -> bool {
    let n = output_side(len, channels);
    &&& channels > 0
    &&& len == channels * (n * n)
}

/// What `clearing_inputs` asks of the shapes and the claim, for an output of `len` entries.
pub open spec fn clearing_inputs_ok(
    stride: int,
    last: &Claim,
    output_shape: Seq<usize>,
    unpadded: Seq<usize>,
    len: nat,
) -> bool {
    &&& stride > 0
    &&& output_shape.len() == 3
    &&& no_batch(unpadded).len() == 3
    &&& stride == 1 ==> prod(output_shape) == len
    &&& stride > 1 ==> {
        let n = output_side(len, output_shape[0] as nat);
        let (c, h, w) = (
            flog2(output_shape[0] as nat),
            flog2(output_shape[1] as nat),
            flog2(output_shape[2] as nat),
        );
        &&& has_output_side(len, output_shape[0] as nat)
        &&& len > 0
        &&& output_shape[1] > 0
        &&& output_shape[2] > 0
        &&& h + flog2(stride as nat) <= flog2(n)
        &&& w + flog2(stride as nat) <= flog2(n)
        &&& last.point@.len() == w + h + c
    }
}

/// `r` is what the proof of clearing starts from: the claim on the output, carried over to the output `data` of the
/// transform, and the tensor that clears it.
pub open spec fn is_clearing_inputs(
    r: &ClearingInputs,
    stride: int,
    last: &Claim,
    output_shape: Seq<usize>,
    unpadded: Seq<usize>,
    data: Seq<Element>,
) -> bool {
    &&& r.claim.eval == last.eval
    &&& r.conv_after_bias.wf()
    &&& r.conv_after_bias.data@ == data
    &&& is_clearing_tensor(&r.clearing_tensor, r.conv_after_bias.shape@, no_batch(unpadded), stride)
    &&& stride == 1 ==> r.conv_after_bias.shape@ == output_shape && r.claim.at() == last.at()
    &&& stride > 1 ==> {
        let n = output_side(data.len(), output_shape[0] as nat);
        &&& r.conv_after_bias.shape@ == seq![output_shape[0], n as usize, n as usize]
        &&& n <= usize::MAX
        &&& r.claim.at() == expanded(
            last.at(),
            flog2(output_shape[2] as nat),
            flog2(output_shape[1] as nat),
            flog2(stride as nat),
            flog2(n),
        )
    }
}

/// What the proof of clearing starts from. The claim on a strided output is carried over to the whole output.
pub fn clearing_inputs(
    stride: usize,
    last_claim: &Claim,
    output_shape: &Shape,
    unpadded_output_shape: &Shape,
    output_as_element: Vec<Element>,
) -> (r: ClearingInputs)
    requires
        clearing_inputs_ok(
            stride as int,
            last_claim,
            output_shape@,
            unpadded_output_shape@,
            output_as_element@.len(),
        ),
    ensures
        is_clearing_inputs(
            &r,
            stride as int,
            last_claim,
            output_shape@,
            unpadded_output_shape@,
            output_as_element@,
        ),
{
    if stride == 1 {
        proof {
            assert(output_as_element@.len() == output_as_element.len());
        }
        let clearing_tensor = new_clearing_tensor(unpadded_output_shape, output_shape);
        let conv_after_bias = Tensor::new(output_shape.clone(), output_as_element);
        return ClearingInputs { claim: last_claim.clone(), clearing_tensor, conv_after_bias };
    }
    let (c_pot, h_s_pot, w_s_pot) = (output_shape.0[0], output_shape.0[1], output_shape.0[2]);
    let full_res_elements: usize = output_as_element.len();
    let spatial_sq: usize = full_res_elements / c_pot;
    let ghost n = output_side(full_res_elements as nat, c_pot as nat);
    proof {
        let c = c_pot as int;
        let sq = (n * n) as int;
        assert(full_res_elements == c * sq);
        vstd::arithmetic::div_mod::lemma_div_multiples_vanish(sq, c);
        assert(spatial_sq == n * n);
        lemma_pow2_pos((flog2(spatial_sq as nat) / 2) as nat);
        assert(n <= n * n && n * n <= c * sq) by (nonlinear_arith)
            requires
                n >= 1,
                c >= 1,
                sq == n * n,
        ;
    }
    let half: usize = floor_log2(spatial_sq) / 2;
    let n_x: usize = power_of_two(half);
    let dims: Vec<usize> = vec![c_pot, n_x, n_x];
    proof {
        assert(dims@ =~= seq![c_pot, n_x, n_x]);
        lemma_prod3(c_pot, n_x, n_x);
    }
    let full_padded_shape = Shape::new(dims);
    let r_full = expand_strided_point(&last_claim.point, c_pot, h_s_pot, w_s_pot, n_x, stride);
    let clearing_tensor = new_clearing_tensor_strided(unpadded_output_shape, &full_padded_shape, stride);
    let conv_after_bias = Tensor::new(full_padded_shape, output_as_element);
    ClearingInputs { claim: Claim::new(r_full, last_claim.eval), clearing_tensor, conv_after_bias }
}

/// The extension of a table whose second half is zero.
pub proof fn lemma_mle_zero_half(e: Seq<Fe>, p: Seq<Fe>, y: Fe)
    requires
        e.len() == 2 * pow2(p.len()),
        canon(y),
        forall|i: int| pow2(p.len()) <= i < e.len() ==> #[trigger] e[i] == fzero(),
    ensures
        mle_eval(e, p.push(y)) == fmul(mle_eval(e.take(pow2(p.len()) as int), p), fsub(fone(), y)),
{
    let h = pow2(p.len());
    let c = fsub(fone(), y);
    lemma_mle_last(e, p, y);
    let f = |b: int| fmul(chi(b, p), between(e[b], e[b + h], y));
    let t = mle_term(e.take(h as int), p);
    let u = |b: int| fmul(c, t(b));
    assert forall|b: int| 0 <= b < h implies #[trigger] f(b) == u(b) by {
        assert(e[b + h] == fzero());
        crate::field::lemma_fmul_zero(y);
        lemma_ops_canon(e[b], c);
        lemma_fadd_zero(fmul(e[b], c));
        let z = chi(b, p);
        lemma_fmul_comm(z, fmul(e[b], c));
        lemma_fmul_comm(e[b], c);
        lemma_fmul_assoc(c, e[b], z);
    }
    lemma_fsum_eq(h, f, u);
    lemma_fsum_scale(h, c, t);
    lemma_fmul_comm(c, fsum(h, t));
}

/// The extension of the mixed and padded channels at the point of the sum that shows their transforms, from
/// that of the input at the point of the claim that is left: the channels are the input read backwards.
pub proof fn law_input_claim(x: Seq<Fe>, rows: Seq<Seq<Fe>>, p: Seq<Fe>, y: Fe, q: Seq<Fe>)
    requires
        rows.len() == pow2(q.len()),
        x.len() == rows.len() * pow2(p.len()),
        all_canon(x),
        all_canon(p),
        canon(y),
        forall|j: int| 0 <= j < rows.len() ==> (#[trigger] rows[j]).len() == pow2(p.len()),
        forall|j: int, a: int|
            0 <= j < rows.len() && 0 <= a < pow2(p.len()) ==> #[trigger] rows[j][a] == x[j * pow2(p.len())
                + (pow2(p.len()) - 1 - a)],
    ensures
        mle_eval(mixed(extended(rows, 2 * pow2(p.len())), q, 2 * pow2(p.len())), p.push(y)) == fmul(
            mle_eval(x, opposite(p) + q),
            fsub(fone(), y),
        ),
{
    let n = pow2(p.len());
    let ext = extended(rows, 2 * n);
    let e = mixed(ext, q, 2 * n);
    assert forall|i: int| n <= i < e.len() implies #[trigger] e[i] == fzero() by {
        let c = Seq::new(ext.len(), |j: int| ext[j][i]);
        let t = mle_term(c, q);
        assert forall|j: int| 0 <= j < pow2(q.len()) implies #[trigger] t(j) == fzero() by {
            assert(rows[j].len() == n);
            assert(c[j] == fzero());
            crate::field::lemma_fmul_zero(chi(j, q));
        }
        crate::algebra::lemma_fsum_zero(pow2(q.len()), t);
    }
    lemma_mle_zero_half(e, p, y);
    let m = mixed(rows, q, n);
    assert(e.take(n as int) =~= m) by {
        assert forall|i: int| 0 <= i < n implies e.take(n as int)[i] == m[i] by {
            let c = Seq::new(ext.len(), |j: int| ext[j][i]);
            let d = Seq::new(rows.len(), |j: int| rows[j][i]);
            assert forall|j: int| 0 <= j < pow2(q.len()) implies #[trigger] c[j] == d[j] by {
                assert(rows[j].len() == n);
            }
            lemma_mle_eq(c, d, q);
        }
    }
    lemma_mixed_product(rows, q, n, betas(p));
    let f = mle_term(m, p);
    lemma_fsum_eq(n, f, |i: int| fmul(m[i], betas(p)[i]));
    let xs = Seq::new(rows.len(), |j: int| Seq::new(n, |a: int| x[j * n + a]));
    assert(x =~= stacked(xs, n)) by {
        assert forall|t: int| 0 <= t < x.len() implies x[t] == stacked(xs, n)[t] by {
            lemma_pow2_pos(p.len());
            crate::arith::lemma_grid_split(t, rows.len() as int, n as int);
        }
    }
    lemma_stacked_mle(xs, opposite(p), q);
    let a = Seq::new(rows.len(), |j: int| fsum(n, |i: int| fmul(rows[j][i], betas(p)[i])));
    let b = Seq::new(xs.len(), |j: int| mle_eval(xs[j], opposite(p)));
    assert forall|j: int| 0 <= j < pow2(q.len()) implies #[trigger] a[j] == b[j] by {
        assert(rows[j].len() == n);
        assert forall|k: int| 0 <= k < xs[j].len() implies canon(#[trigger] xs[j][k]) by {
            lemma_grid_bound(j, rows.len() as int, k, n as int);
            assert(canon(x[j * n + k]));
        }
        law_opposite_point(xs[j], p);
        let back = Seq::new(xs[j].len(), |i: int| xs[j][xs[j].len() - 1 - i]);
        assert forall|i: int| 0 <= i < n implies rows[j][i] == #[trigger] back[i] by {
            assert(rows[j][i] == x[j * n + (n - 1 - i)]);
        }
        assert(rows[j] =~= back);
        lemma_fsum_eq(n, |i: int| fmul(rows[j][i], betas(p)[i]), mle_term(rows[j], p));
    }
    lemma_mle_eq(a, b, q);
}

/// The sum over the entries of a kernel of side `f` of the corner polynomials of their places in rows of
/// length `n`.
pub open spec fn laid_out_sum(w: Seq<Fe>, f: int, n: int, p: Seq<Fe>) -> Fe {
    fsum((f * f) as nat, |k: int| fmul(w[k], chi((k / f) * n + k % f, p)))
}

/// The extension of a kernel laid out for the transform, at the point of the sum that shows its transform.
pub proof fn law_laid_out_extension(w: Seq<Fe>, f: int, n: int, p: Seq<Fe>, y: Fe)
    requires
        1 <= f <= n,
        w.len() == f * f,
        all_canon(w),
        canon(y),
        n * n == pow2(p.len()),
    ensures
        mle_eval(laid_out(w, f, n, (2 * (n * n)) as nat), p.push(y)) == fmul(
            laid_out_sum(w, f, n, p),
            fsub(fone(), y),
        ),
{
    let n2 = (n * n) as nat;
    let e = laid_out(w, f, n, 2 * n2);
    assert forall|b: int| n2 <= b < e.len() implies #[trigger] e[b] == fzero() by {
        if b / n < f {
            vstd::arithmetic::div_mod::lemma_fundamental_div_mod(b, n);
            vstd::arithmetic::div_mod::lemma_mod_bound(b, n);
            let d = b / n;
            assert(n * d + n <= n * n) by (nonlinear_arith)
                requires
                    d <= n - 1,
                    n > 0,
            ;
        }
    }
    lemma_mle_zero_half(e, p, y);
    let g = mle_term(e.take(n2 as int), p);
    // row by row, and only the first entries of the first rows count
    assert(n2 == (n as nat) * (n as nat));
    lemma_fsum_grid(n as nat, n as nat, g);
    let rows = |i: int| fsum(n as nat, |j: int| g(i * (n as nat) + j));
    let want = |i: int| fsum(f as nat, |j: int| fmul(w[i * f + j], chi(i * n + j, p)));
    assert forall|i: int| 0 <= i < n implies #[trigger] rows(i) == (if i < f {
        want(i)
    } else {
        fzero()
    }) by {
        let r = |j: int| g(i * (n as nat) + j);
        let v = |j: int| fmul(w[i * f + j], chi(i * n + j, p));
        assert forall|j: int| 0 <= j < n implies #[trigger] r(j) == (if i < f && j < f {
            v(j)
        } else {
            fzero()
        }) by {
            lemma_grid_bound(i, n, j, n);
            crate::arith::lemma_grid_digits(i, j, n);
            crate::field::lemma_fmul_zero(chi(i * n + j, p));
        }
        let z = (n - f) as nat;
        crate::algebra::lemma_fsum_split(f as nat, z, r);
        let tail = |j: int| r(f + j);
        assert forall|j: int| 0 <= j < z implies #[trigger] tail(j) == fzero() by {
            assert(r(f + j) == fzero());
        }
        crate::algebra::lemma_fsum_zero(z, tail);
        if i < f {
            lemma_fsum_eq(f as nat, r, v);
            crate::algebra::lemma_fsum_canon(f as nat, r);
            lemma_fadd_zero(fsum(f as nat, r));
        } else {
            crate::algebra::lemma_fsum_zero(n as nat, r);
        }
    }
    let z = (n - f) as nat;
    crate::algebra::lemma_fsum_split(f as nat, z, rows);
    let tail = |i: int| rows(f + i);
    assert forall|i: int| 0 <= i < z implies #[trigger] tail(i) == fzero() by {
        assert(rows(f + i) == fzero());
    }
    crate::algebra::lemma_fsum_zero(z, tail);
    assert forall|i: int| 0 <= i < f implies #[trigger] rows(i) == want(i) by {}
    lemma_fsum_eq(f as nat, rows, want);
    crate::algebra::lemma_fsum_canon(f as nat, rows);
    lemma_fadd_zero(fsum(f as nat, rows));
    // the other side, row by row
    let s = |k: int| fmul(w[k], chi((k / f) * n + k % f, p));
    assert((f as nat) * (f as nat) == f * f);
    lemma_fsum_grid(f as nat, f as nat, s);
    let sr = |i: int| fsum(f as nat, |j: int| s(i * (f as nat) + j));
    assert forall|i: int| 0 <= i < f implies #[trigger] want(i) == sr(i) by {
        let u = |j: int| fmul(w[i * f + j], chi(i * n + j, p));
        let v = |j: int| s(i * (f as nat) + j);
        assert forall|j: int| 0 <= j < f implies #[trigger] u(j) == v(j) by {
            crate::arith::lemma_grid_digits(i, j, f);
        }
        lemma_fsum_eq(f as nat, u, v);
    }
    lemma_fsum_eq(f as nat, want, sr);
}

} // verus!
