//! The rows of the Fourier matrix at a point of its multilinear extension.
use crate::algebra::{
    fneg1, lemma_fmul_swap4, lemma_fpow_add, lemma_fpow_canon, lemma_fpow_mul, lemma_fpow_one, lemma_fsub_neg,
    lemma_fsum_eq, lemma_fsum_scale, lemma_fsum_swap, lemma_root_of_unity, root_of_unity,
};
use crate::arith::{lemma_clog2_pow2, power_of_two};
use crate::fft::{dft, fes, get_root_of_unity, idft, inverse_of_pow2, lemma_inverse_unique, lemma_root_inverse};
use crate::field::{
    canon, fadd, fint, fmul, fone, fpow, fsub, fsum, fzero, lemma_fe_canon, lemma_fmul_assoc, lemma_fmul_comm,
    lemma_fmul_dist, lemma_fmul_one, lemma_fmul_zero, lemma_ops_canon, Fe, GoldilocksExt2,
};
use crate::mle::{chi, complement, lemma_fsum_pairs, mle_eval, mle_term};
use crate::tensor::copy_slice;
use vstd::arithmetic::power2::{
    lemma2_to64, lemma_pow2_adds, lemma_pow2_pos, lemma_pow2_strictly_increases, lemma_pow2_unfold, pow2,
};
use vstd::prelude::*;

verus! {

/// `1 - x + x * z`.
pub open spec fn phi_factor(x: Fe, z: Fe) -> Fe {
    fadd(fsub(fone(), x), fmul(x, z))
}

/// The root of unity of order `2^n` that a transform uses: its inverse for the inverse transform.
pub open spec fn phase(n: nat, is_fft: bool) -> Fe {
    if is_fft {
        fpow(root_of_unity(n), (pow2(n) - 1) as nat)
    } else {
        root_of_unity(n)
    }
}

/// `scale` times the factors of the last `i` of the `n` coordinates of `rx`, for column `b`.
pub open spec fn level(rx: Seq<Fe>, phi: Fe, scale: Fe, n: nat, i: nat, b: int) -> Fe
    decreases i,
{
    if i == 0 {
        scale
    } else {
        fmul(
            level(rx, phi, scale, n, (i - 1) as nat, b),
            phi_factor(rx[n - i], fpow(phi, (b * pow2((n - i) as nat)) as nat)),
        )
    }
}

/// The first `2^i` entries of level `i`.
pub open spec fn level_table(rx: Seq<Fe>, phi: Fe, scale: Fe, n: nat, i: nat) -> Seq<Fe> {
    Seq::new(pow2(i), |b: int| level(rx, phi, scale, n, i, b))
}

pub proof fn lemma_phase(n: nat, is_fft: bool)
    requires
        1 <= n <= 32,
    ensures
        canon(phase(n, is_fft)),
        fpow(phase(n, is_fft), pow2(n)) == fone(),
        fpow(phase(n, is_fft), pow2((n - 1) as nat)) == fneg1(),
{
    let w = root_of_unity(n);
    lemma_root_of_unity(n);
    lemma_pow2_pos(n);
    if is_fft {
        lemma_fpow_canon(w, (pow2(n) - 1) as nat);
        lemma_fpow_mul(w, (pow2(n) - 1) as nat, pow2(n));
        lemma_fpow_mul(w, pow2(n), (pow2(n) - 1) as nat);
        lemma_fpow_one((pow2(n) - 1) as nat);
        let (a, b) = (pow2(n), (pow2(n) - 1) as nat);
        assert(a * b == b * a) by (nonlinear_arith);
        crate::fft::lemma_inverse_root_is_primitive(w, pow2(n), n);
    }
}

/// The power of the root that the stages use, half way round the circle.
pub proof fn lemma_half_turn(phi: Fe, n: nat, i: nat, b: int)
    requires
        1 <= i <= n,
        0 <= b,
        canon(phi),
        fpow(phi, pow2((n - 1) as nat)) == fneg1(),
    ensures
        ({
            let m = (n - i) as nat;
            fpow(phi, ((b + pow2((i - 1) as nat)) * pow2(m)) as nat) == fmul(
                fneg1(),
                fpow(phi, (b * pow2(m)) as nat),
            )
        }),
{
    let m = (n - i) as nat;
    let h = pow2((i - 1) as nat);
    lemma_pow2_adds((i - 1) as nat, m);
    assert((b + h) * pow2(m) == b * pow2(m) + h * pow2(m)) by (nonlinear_arith);
    assert(0 <= b * pow2(m)) by (nonlinear_arith)
        requires
            b >= 0,
            pow2(m) >= 0,
    ;
    lemma_fpow_add(phi, (b * pow2(m)) as nat, pow2((n - 1) as nat));
    lemma_fmul_comm(fpow(phi, (b * pow2(m)) as nat), fneg1());
}

/// A level does not change when the column moves by a full period of it.
pub proof fn lemma_level_period(rx: Seq<Fe>, phi: Fe, scale: Fe, n: nat, i: nat, e: nat, b: int)
    requires
        i <= e,
        e <= n,
        0 <= b,
        fpow(phi, pow2(n)) == fone(),
    ensures
        level(rx, phi, scale, n, i, b + pow2(e)) == level(rx, phi, scale, n, i, b),
    decreases i,
{
    if i > 0 {
        lemma_level_period(rx, phi, scale, n, (i - 1) as nat, e, b);
        let m = (n - i) as nat;
        let extra = (e - i) as nat;
        lemma_pow2_adds(e, m);
        lemma_pow2_adds(extra, n);
        assert(e + m == extra + n);
        assert((b + pow2(e)) * pow2(m) == b * pow2(m) + pow2(e) * pow2(m)) by (nonlinear_arith);
        assert(0 <= b * pow2(m)) by (nonlinear_arith)
            requires
                b >= 0,
                pow2(m) >= 0,
        ;
        let x = (b * pow2(m)) as nat;
        lemma_fpow_add(phi, x, pow2(extra) * pow2(n));
        assert(pow2(extra) * pow2(n) == pow2(n) * pow2(extra)) by (nonlinear_arith);
        lemma_fpow_mul(phi, pow2(n), pow2(extra));
        lemma_fpow_one(pow2(extra));
        lemma_fpow_canon(phi, x);
        lemma_fmul_one(fpow(phi, x));
    }
}

/// `1 - x + x * (-z)` is `(1 - x) - x * z`.
pub proof fn lemma_factor_neg(x: Fe, z: Fe)
    ensures
        phi_factor(x, fmul(fneg1(), z)) == fsub(fsub(fone(), x), fmul(x, z)),
{
    lemma_ops_canon(fone(), x);
    lemma_ops_canon(x, z);
    lemma_fsub_neg(fsub(fone(), x), fmul(x, z));
    lemma_fmul_assoc(x, fneg1(), z);
    lemma_fmul_comm(x, fneg1());
    lemma_fmul_assoc(fneg1(), x, z);
}

/// Fills the first `2^n` entries of `phi_mul` with the powers of the root of unity of order `2^n`, or of
/// its inverse.
pub fn phi_pow_init(phi_mul: &mut Vec<GoldilocksExt2>, n: usize, is_fft: bool)
    requires
        1 <= n <= 32,
        pow2(n as nat) <= old(phi_mul)@.len(),
    ensures
        final(phi_mul)@.len() == old(phi_mul)@.len(),
        forall|i: int|
            0 <= i < pow2(n as nat) ==> (#[trigger] final(phi_mul)@[i]).fe() == fpow(
                phase(n as nat, is_fft),
                i as nat,
            ),
        forall|i: int|
            pow2(n as nat) <= i < old(phi_mul)@.len() ==> #[trigger] final(phi_mul)@[i] == old(phi_mul)@[i],
{
    assert(phi_mul@.len() == phi_mul.len());
    let length: usize = power_of_two(n);
    let rou = get_root_of_unity(n);
    let ghost w = root_of_unity(n as nat);
    let ghost ph = phase(n as nat, is_fft);
    let mut phi = rou;
    proof {
        lemma_root_of_unity(n as nat);
        lemma_pow2_pos(n as nat);
    }
    if is_fft {
        proof {
            lemma_root_inverse(w, pow2(n as nat));
            if w == fzero() {
                lemma_fmul_zero(ph);
            }
        }
        phi = rou.inverse();
        proof {
            lemma_fe_canon(phi);
            lemma_inverse_unique(w, phi.fe(), ph);
        }
    }
    phi_mul.set(0, GoldilocksExt2::one());
    let mut i: usize = 1;
    while i < length
        invariant
            1 <= i <= length,
            length == pow2(n as nat),
            length <= phi_mul@.len(),
            phi.fe() == ph,
            phi_mul@.len() == old(phi_mul)@.len(),
            forall|j: int| 0 <= j < i ==> (#[trigger] phi_mul@[j]).fe() == fpow(ph, j as nat),
            forall|j: int| length <= j < phi_mul@.len() ==> #[trigger] phi_mul@[j] == old(phi_mul)@[j],
        decreases length - i,
    {
        let x = phi_mul[i - 1].times(&phi);
        phi_mul.set(i, x);
        i = i + 1;
    }
}

/// One stage: from the first `2^(i - 1)` entries of a level to the first `2^i` of the next.
fn phi_stage(
    phi_g: &mut Vec<GoldilocksExt2>,
    phi_mul: &Vec<GoldilocksExt2>,
    x: &GoldilocksExt2,
    i: usize,
    half: usize,
    step: usize,
    Ghost(rx): Ghost<Seq<Fe>>,
    Ghost(ph): Ghost<Fe>,
    Ghost(scale): Ghost<Fe>,
    Ghost(n): Ghost<nat>,
)
    requires
        1 <= i <= n,
        rx.len() == n,
        rx[n - i] == x.fe(),
        half == pow2((i - 1) as nat),
        step == pow2((n - i) as nat),
        pow2(i as nat) <= old(phi_g)@.len(),
        phi_mul@.len() == pow2(n),
        canon(ph),
        fpow(ph, pow2((n - 1) as nat)) == fneg1(),
        fpow(ph, pow2(n)) == fone(),
        forall|j: int| 0 <= j < pow2(n) ==> (#[trigger] phi_mul@[j]).fe() == fpow(ph, j as nat),
        forall|b: int|
            0 <= b < half ==> (#[trigger] old(phi_g)@[b]).fe() == level(rx, ph, scale, n, (i - 1) as nat, b),
    ensures
        final(phi_g)@.len() == old(phi_g)@.len(),
        forall|b: int|
            0 <= b < pow2(i as nat) ==> (#[trigger] final(phi_g)@[b]).fe() == level(rx, ph, scale, n, i as nat, b),
        forall|b: int|
            pow2(i as nat) <= b < old(phi_g)@.len() ==> #[trigger] final(phi_g)@[b] == old(phi_g)@[b],
{
    let tmp1 = complement(x);
    let ghost k = (i - 1) as nat;
    let mut b: usize = 0;
    proof {
        lemma_pow2_unfold(i as nat);
        lemma_pow2_adds(k, (n - i) as nat);
        lemma_pow2_unfold(n);
    }
    while b < half
        invariant
            b <= half,
            1 <= i <= n,
            k == i - 1,
            rx.len() == n,
            rx[n - i] == x.fe(),
            half == pow2(k),
            step == pow2((n - i) as nat),
            pow2(i as nat) == 2 * half,
            pow2(i as nat) <= phi_g@.len(),
            phi_g@.len() == old(phi_g)@.len(),
            phi_mul@.len() == pow2(n),
            half * step == pow2((n - 1) as nat),
            pow2(n) == 2 * pow2((n - 1) as nat),
            tmp1.fe() == fsub(fone(), x.fe()),
            canon(ph),
            fpow(ph, pow2((n - 1) as nat)) == fneg1(),
            fpow(ph, pow2(n)) == fone(),
            forall|j: int| 0 <= j < pow2(n) ==> (#[trigger] phi_mul@[j]).fe() == fpow(ph, j as nat),
            forall|c: int| b <= c < half ==> (#[trigger] phi_g@[c]).fe() == level(rx, ph, scale, n, k, c),
            forall|c: int| 0 <= c < b ==> (#[trigger] phi_g@[c]).fe() == level(rx, ph, scale, n, i as nat, c),
            forall|c: int|
                half <= c < half + b ==> (#[trigger] phi_g@[c]).fe() == level(rx, ph, scale, n, i as nat, c),
            forall|c: int| pow2(i as nat) <= c < phi_g@.len() ==> #[trigger] phi_g@[c] == old(phi_g)@[c],
        decreases half - b,
    {
        proof {
            lemma_pow2_pos((n - i) as nat);
            assert(0 <= b * step < half * step) by (nonlinear_arith)
                requires
                    b < half,
                    step >= 1,
            ;
            assert(phi_mul@.len() == phi_mul.len());
            assert(phi_g@.len() == phi_g.len());
        }
        let l: usize = b;
        let r: usize = b + half;
        let tmp2 = x.times(&phi_mul[b * step]);
        let cur = phi_g[l];
        let hi = cur.times(&tmp1.minus(&tmp2));
        let lo = cur.times(&tmp1.plus(&tmp2));
        proof {
            let z = fpow(ph, (b * step) as nat);
            lemma_half_turn(ph, n, i as nat, b as int);
            lemma_factor_neg(x.fe(), z);
            lemma_level_period(rx, ph, scale, n, k, k, b as int);
        }
        phi_g.set(r, hi);
        phi_g.set(l, lo);
        b = b + 1;
    }
}

/// The first `n` entries.
fn prefix(v: &Vec<GoldilocksExt2>, n: usize) -> (r: Vec<GoldilocksExt2>)
    requires
        n <= v@.len(),
    ensures
        r@ == v@.take(n as int),
{
    copy_slice(vstd::slice::slice_subrange(v.as_slice(), 0, n))
}

/// Computes the row of the Fourier matrix at `rx`, times `scale`, and all levels below it.
///
/// For the inverse transform all entries of the row are computed. For the transform only the first half
/// is, the second belonging to the zeros that the input is padded with.
pub fn phi_g_init(
    phi_g: &mut Vec<GoldilocksExt2>,
    mid_phi_g: &mut Vec<Vec<GoldilocksExt2>>,
    rx: &[GoldilocksExt2],
    scale: GoldilocksExt2,
    n: usize,
    is_fft: bool,
)
    requires
        1 <= n <= 32,
        rx@.len() == n,
        pow2(n as nat) <= old(phi_g)@.len(),
        n - 1 <= old(mid_phi_g)@.len(),
    ensures
        ({
            let ph = phase(n as nat, is_fft);
            let done = if is_fft {
                pow2(n as nat)
            } else {
                pow2((n - 1) as nat)
            };
            &&& final(phi_g)@.len() == old(phi_g)@.len()
            &&& forall|b: int|
                0 <= b < done ==> (#[trigger] final(phi_g)@[b]).fe() == level(
                    fes(rx@),
                    ph,
                    scale.fe(),
                    n as nat,
                    n as nat,
                    b,
                )
            &&& forall|b: int| done <= b < old(phi_g)@.len() ==> #[trigger] final(phi_g)@[b] == old(phi_g)@[b]
            &&& final(mid_phi_g)@.len() == old(mid_phi_g)@.len()
            &&& forall|i: int|
                0 <= i < n - 1 ==> fes(#[trigger] final(mid_phi_g)@[i]@) == level_table(
                    fes(rx@),
                    ph,
                    scale.fe(),
                    n as nat,
                    (i + 1) as nat,
                )
            &&& forall|i: int|
                n - 1 <= i < old(mid_phi_g)@.len() ==> #[trigger] final(mid_phi_g)@[i] == old(mid_phi_g)@[i]
        }),
{
    let ghost x = fes(rx@);
    let ghost ph = phase(n as nat, is_fft);
    let ghost sc = scale.fe();
    let ghost nn = n as nat;
    proof {
        lemma_phase(nn, is_fft);
        lemma_pow2_pos(nn);
        lemma2_to64();
        assert(phi_g@.len() == phi_g.len());
    }
    let length: usize = power_of_two(n);
    let mut phi_mul: Vec<GoldilocksExt2> = zero_vec(length);
    phi_pow_init(&mut phi_mul, n, is_fft);
    let last: usize = if is_fft {
        n + 1
    } else {
        n
    };
    phi_g.set(0, scale);
    let mut i: usize = 1;
    let mut half: usize = 1;
    let mut step: usize = length;
    proof {
        assert(pow2(0) == 1);
        assert((n - 1) + 1 == n);
    }
    while i < last
        invariant
            1 <= i <= last,
            1 <= n <= 32,
            last == (if is_fft {
                n + 1
            } else {
                n as int
            }),
            nn == n,
            x == fes(rx@),
            x.len() == n,
            rx@.len() == n,
            sc == scale.fe(),
            length == pow2(nn),
            half == pow2((i - 1) as nat),
            step == pow2((n + 1 - i) as nat),
            phi_mul@.len() == pow2(nn),
            pow2(nn) <= phi_g@.len(),
            phi_g@.len() == old(phi_g)@.len(),
            mid_phi_g@.len() == old(mid_phi_g)@.len(),
            n - 1 <= mid_phi_g@.len(),
            canon(ph),
            fpow(ph, pow2((nn - 1) as nat)) == fneg1(),
            fpow(ph, pow2(nn)) == fone(),
            forall|j: int| 0 <= j < pow2(nn) ==> (#[trigger] phi_mul@[j]).fe() == fpow(ph, j as nat),
            forall|b: int| 0 <= b < half ==> (#[trigger] phi_g@[b]).fe() == level(x, ph, sc, nn, (i - 1) as nat, b),
            forall|b: int| half <= b < phi_g@.len() ==> #[trigger] phi_g@[b] == old(phi_g)@[b],
            forall|k: int|
                0 <= k < i - 1 && k < n - 1 ==> fes(#[trigger] mid_phi_g@[k]@) == level_table(
                    x,
                    ph,
                    sc,
                    nn,
                    (k + 1) as nat,
                ),
            forall|k: int| n - 1 <= k < mid_phi_g@.len() ==> #[trigger] mid_phi_g@[k] == old(mid_phi_g)@[k],
        decreases last - i,
    {
        let m: usize = n - i;
        let ghost half0 = half;
        proof {
            lemma_pow2_unfold((n + 1 - i) as nat);
            lemma_pow2_unfold(i as nat);
            if i < n {
                lemma_pow2_strictly_increases(i as nat, nn);
            }
            assert(phi_g@.len() == phi_g.len());
        }
        step = step / 2;
        phi_stage(phi_g, &phi_mul, &rx[m], i, half, step, Ghost(x), Ghost(ph), Ghost(sc), Ghost(nn));
        half = half * 2;
        if i < n {
            let row = prefix(phi_g, half);
            proof {
                assert(fes(row@) =~= level_table(x, ph, sc, nn, i as nat));
            }
            mid_phi_g.set(i - 1, row);
        }
        i = i + 1;
    }
    if !is_fft {
        let x0 = rx[0];
        let tmp1 = complement(&x0);
        let mut b: usize = 0;
        proof {
            lemma_pow2_strictly_increases((n - 1) as nat, nn);
        }
        while b < half
            invariant
                b <= half,
                1 <= n <= 32,
                nn == n,
                half == pow2((n - 1) as nat),
                half <= pow2(nn),
                x == fes(rx@),
                x.len() == n,
                x[0] == x0.fe(),
                tmp1.fe() == fsub(fone(), x0.fe()),
                phi_mul@.len() == pow2(nn),
                half <= phi_g@.len(),
                phi_g@.len() == old(phi_g)@.len(),
                forall|j: int| 0 <= j < pow2(nn) ==> (#[trigger] phi_mul@[j]).fe() == fpow(ph, j as nat),
                forall|c: int|
                    b <= c < half ==> (#[trigger] phi_g@[c]).fe() == level(x, ph, sc, nn, (nn - 1) as nat, c),
                forall|c: int| 0 <= c < b ==> (#[trigger] phi_g@[c]).fe() == level(x, ph, sc, nn, nn, c),
                forall|c: int| half <= c < phi_g@.len() ==> #[trigger] phi_g@[c] == old(phi_g)@[c],
            decreases half - b,
        {
            let tmp2 = x0.times(&phi_mul[b]);
            let cur = phi_g[b].times(&tmp1.plus(&tmp2));
            proof {
                lemma2_to64();
                assert(b * pow2(0) == b) by (nonlinear_arith)
                    requires
                        pow2(0) == 1,
                ;
            }
            phi_g.set(b, cur);
            b = b + 1;
        }
    }
}

/// The powers of `z`.
pub open spec fn power_table(z: Fe, n: nat) -> Seq<Fe> {
    Seq::new(pow2(n), |j: int| fpow(z, j as nat))
}

/// The factors of a level, with the first coordinate split off.
proof fn lemma_level_first(rx: Seq<Fe>, phi: Fe, n: nat, i: nat, b: int)
    requires
        n == rx.len(),
        i < n,
        0 <= b,
    ensures
        level(rx, phi, fone(), n, i, b) == level(rx.skip(1), fpow(phi, 2), fone(), (n - 1) as nat, i, b),
    decreases i,
{
    if i > 0 {
        lemma_level_first(rx, phi, n, (i - 1) as nat, b);
        let m = (n - i) as nat;
        let k = (n - 1 - i) as nat;
        lemma_pow2_unfold(m);
        assert(b * pow2(m) == 2 * (b * pow2(k))) by (nonlinear_arith)
            requires
                pow2(m) == 2 * pow2(k),
        ;
        assert(0 <= b * pow2(k)) by (nonlinear_arith)
            requires
                b >= 0,
                pow2(k) >= 0,
        ;
        lemma_fpow_mul(phi, 2, (b * pow2(k)) as nat);
        assert(rx.skip(1)[k as int] == rx[m as int]);
    }
}

pub proof fn lemma_level_canon(rx: Seq<Fe>, phi: Fe, scale: Fe, n: nat, i: nat, b: int)
    requires
        canon(scale),
    ensures
        canon(level(rx, phi, scale, n, i, b)),
{
    if i > 0 {
        lemma_ops_canon(
            level(rx, phi, scale, n, (i - 1) as nat, b),
            phi_factor(rx[n - i], fpow(phi, (b * pow2((n - i) as nat)) as nat)),
        );
    }
}

/// The scale of a level is a factor of it.
pub proof fn lemma_level_scale(rx: Seq<Fe>, phi: Fe, scale: Fe, n: nat, i: nat, b: int)
    requires
        canon(scale),
    ensures
        level(rx, phi, scale, n, i, b) == fmul(scale, level(rx, phi, fone(), n, i, b)),
    decreases i,
{
    if i == 0 {
        lemma_fmul_one(scale);
    } else {
        lemma_level_scale(rx, phi, scale, n, (i - 1) as nat, b);
        lemma_fmul_assoc(
            scale,
            level(rx, phi, fone(), n, (i - 1) as nat, b),
            phi_factor(rx[n - i], fpow(phi, (b * pow2((n - i) as nat)) as nat)),
        );
    }
}

/// The product of all factors of column `b` is the extension of that column of the Fourier matrix.
pub proof fn law_fourier_row(rx: Seq<Fe>, phi: Fe, b: int)
    requires
        0 <= b,
        canon(phi),
    ensures
        level(rx, phi, fone(), rx.len(), rx.len(), b) == mle_eval(power_table(fpow(phi, b as nat), rx.len()), rx),
    decreases rx.len(),
{
    let n = rx.len();
    let z = fpow(phi, b as nat);
    let e = power_table(z, n);
    lemma2_to64();
    lemma_fpow_canon(phi, b as nat);
    if n == 0 {
        crate::mle::lemma_mle_empty(e, rx);
    } else {
        let q = rx.skip(1);
        let m = (n - 1) as nat;
        let x = rx[0];
        let d = power_table(fpow(z, 2), m);
        lemma_fpow_canon(phi, 2);
        law_fourier_row(q, fpow(phi, 2), b);
        lemma_fpow_mul(phi, 2, b as nat);
        lemma_fpow_mul(phi, b as nat, 2);
        assert(2 * (b as nat) == (b as nat) * 2);
        lemma_level_first(rx, phi, n, m, b);
        let factor = phi_factor(x, z);
        assert(b * pow2(0) == b) by (nonlinear_arith)
            requires
                pow2(0) == 1,
        ;
        assert(level(rx, phi, fone(), n, n, b) == fmul(level(rx, phi, fone(), n, m, b), factor));
        // the other side: pairs of neighbours share the rest of the product
        lemma_pow2_unfold(n);
        let f = mle_term(e, rx);
        lemma_fsum_pairs(pow2(m), f);
        let g = |j: int| fadd(f(2 * j), f(2 * j + 1));
        let h = mle_term(d, q);
        let u = |j: int| fmul(factor, h(j));
        assert forall|j: int| 0 <= j < pow2(m) implies #[trigger] g(j) == u(j) by {
            let c = chi(j, q);
            assert((2 * j) % 2 == 0 && (2 * j) / 2 == j && (2 * j + 1) % 2 == 1 && (2 * j + 1) / 2 == j);
            let a = fsub(fone(), x);
            let w = fpow(fpow(z, 2), j as nat);
            lemma_fpow_mul(z, 2, j as nat);
            assert(e[2 * j] == w && d[j] == w);
            assert(e[2 * j + 1] == fmul(w, z));
            assert(f(2 * j) == fmul(w, fmul(a, c)));
            assert(f(2 * j + 1) == fmul(fmul(w, z), fmul(x, c)));
            // w * (a * c) == a * (w * c)
            lemma_fmul_assoc(w, a, c);
            lemma_fmul_comm(w, a);
            lemma_fmul_assoc(a, w, c);
            // (w * z) * (x * c) == (x * z) * (w * c)
            lemma_fmul_swap4(w, z, x, c);
            lemma_fmul_comm(w, x);
            lemma_fmul_swap4(x, w, z, c);
            lemma_fmul_dist(fmul(w, c), a, fmul(x, z));
        }
        lemma_fsum_eq(pow2(m), g, u);
        lemma_fsum_scale(pow2(m), factor, h);
        lemma_fmul_comm(factor, fsum(pow2(m), h));
    }
}

/// The inner product of the row of the Fourier matrix at `rx` with a vector.
pub open spec fn row_product(v: Seq<Fe>, rx: Seq<Fe>, phi: Fe, scale: Fe) -> Fe {
    fsum(v.len(), |i: int| fmul(v[i], level(rx, phi, scale, rx.len(), rx.len(), i)))
}

/// The extension of a transform at `rx` is the inner product of the vector with the row of the Fourier
/// matrix at `rx`.
pub proof fn law_transform_at(v: Seq<Fe>, rx: Seq<Fe>, phi: Fe)
    requires
        v.len() == pow2(rx.len()),
        canon(phi),
    ensures
        mle_eval(dft(v, phi), rx) == row_product(v, rx, phi, fone()),
{
    let n = v.len();
    let y = dft(v, phi);
    let f = |k: int, j: int| fmul(fmul(v[j], fpow(phi, (j * k) as nat)), chi(k, rx));
    let a = mle_term(y, rx);
    let rows = |k: int| fsum(n, |j: int| f(k, j));
    assert forall|k: int| 0 <= k < n implies #[trigger] a(k) == rows(k) by {
        let c = chi(k, rx);
        let g = |j: int| fmul(v[j], fpow(phi, (j * k) as nat));
        lemma_fsum_scale(n, c, g);
        lemma_fmul_comm(c, fsum(n, g));
        let u = |j: int| fmul(c, g(j));
        let w = |j: int| f(k, j);
        assert forall|j: int| 0 <= j < n implies #[trigger] u(j) == w(j) by {
            lemma_fmul_comm(c, g(j));
        }
        lemma_fsum_eq(n, u, w);
    }
    lemma_fsum_eq(n, a, rows);
    lemma_fsum_swap(n, n, f);
    let cols = |j: int| fsum(n, |k: int| f(k, j));
    let b = |i: int| fmul(v[i], level(rx, phi, fone(), rx.len(), rx.len(), i));
    assert forall|j: int| 0 <= j < n implies #[trigger] cols(j) == b(j) by {
        law_fourier_row(rx, phi, j);
        let e = power_table(fpow(phi, j as nat), rx.len());
        let t = mle_term(e, rx);
        lemma_fsum_scale(n, v[j], t);
        let u = |k: int| fmul(v[j], t(k));
        let w = |k: int| f(k, j);
        assert forall|k: int| 0 <= k < n implies #[trigger] u(k) == w(k) by {
            lemma_fpow_mul(phi, j as nat, k as nat);
            assert((j as nat) * (k as nat) == j * k);
            lemma_fmul_assoc(v[j], fpow(phi, (j * k) as nat), chi(k, rx));
        }
        lemma_fsum_eq(n, u, w);
    }
    lemma_fsum_eq(n, cols, b);
}

/// The extension of an inverse transform at `rx`, likewise, with the inverse root and the inverse of the
/// length as scale.
pub proof fn law_inverse_transform_at(v: Seq<Fe>, rx: Seq<Fe>, w: Fe)
    requires
        v.len() == pow2(rx.len()),
        canon(w),
    ensures
        mle_eval(idft(v, w), rx) == row_product(
            v,
            rx,
            fpow(w, (v.len() - 1) as nat),
            inverse_of_pow2(rx.len()),
        ),
{
    let n = v.len();
    lemma_pow2_pos(rx.len());
    lemma_clog2_pow2(rx.len());
    let phi = fpow(w, (n - 1) as nat);
    let s = inverse_of_pow2(rx.len());
    lemma_fpow_canon(w, (n - 1) as nat);
    lemma_fpow_canon(fint(crate::fft::HALF as int), rx.len());
    law_transform_at(v, rx, phi);
    let back = dft(v, phi);
    let a = mle_term(idft(v, w), rx);
    let t = mle_term(back, rx);
    let u = |k: int| fmul(s, t(k));
    assert forall|k: int| 0 <= k < n implies #[trigger] a(k) == u(k) by {
        lemma_fmul_comm(back[k], s);
        lemma_fmul_assoc(s, back[k], chi(k, rx));
    }
    lemma_fsum_eq(n, a, u);
    lemma_fsum_scale(n, s, t);
    let p = |i: int| fmul(v[i], level(rx, phi, fone(), rx.len(), rx.len(), i));
    let q = |i: int| fmul(v[i], level(rx, phi, s, rx.len(), rx.len(), i));
    lemma_fsum_scale(n, s, p);
    let sp = |i: int| fmul(s, p(i));
    assert forall|i: int| 0 <= i < n implies #[trigger] sp(i) == q(i) by {
        let l = level(rx, phi, fone(), rx.len(), rx.len(), i);
        lemma_level_scale(rx, phi, s, rx.len(), rx.len(), i);
        lemma_fmul_assoc(s, v[i], l);
        lemma_fmul_comm(s, v[i]);
        lemma_fmul_assoc(v[i], s, l);
    }
    lemma_fsum_eq(n, sp, q);
}

/// `n` zeros.
pub(crate) fn zero_vec(n: usize) -> (r: Vec<GoldilocksExt2>)
    ensures
        r@.len() == n,
        forall|i: int| 0 <= i < n ==> (#[trigger] r@[i]).fe() == fzero(),
{
    let mut r: Vec<GoldilocksExt2> = Vec::with_capacity(n);
    let mut i: usize = 0;
    while i < n
        invariant
            i <= n,
            r@.len() == i,
            forall|j: int| 0 <= j < i ==> (#[trigger] r@[j]).fe() == fzero(),
        decreases n - i,
    {
        r.push(GoldilocksExt2::zero());
        i = i + 1;
    }
    r
}

} // verus!
