//! Delegation of the evaluation of the Fourier matrix to the prover, level by level.
use crate::algebra::{
    fneg1, lemma_fadd_swap4, lemma_fmul_swap4, lemma_fneg1, lemma_fpow_1, lemma_fpow_add, lemma_fpow_canon,
    lemma_fpow_mul, lemma_fsub_neg, lemma_fsum_eq, lemma_fsum_scale, lemma_fsum_split, lemma_root_of_unity,
    root_of_unity,
};
use crate::arith::{lemma_grid_digits, power_of_two};
use crate::fft::{all_canon, fes, get_root_of_unity, lemma_inverse_unique, lemma_root_inverse};
use crate::field::{
    canon, fadd, fint, fmul, fone, fpow, fsub, fsum, fzero, lemma_fadd_assoc, lemma_fadd_comm, lemma_fadd_zero,
    lemma_fe_canon, lemma_fint_hom, lemma_fmul_assoc, lemma_fmul_comm, lemma_fmul_dist, lemma_fmul_one,
    lemma_fmul_zero, lemma_fsub_fadd, lemma_ops_canon, Fe, GoldilocksExt2,
};
use crate::iop::fourier::{
    law_fourier_row, lemma_factor_neg, lemma_half_turn, lemma_level_canon, lemma_level_period, lemma_phase, level,
    level_table, phase, phi_factor, phi_pow_init, power_table, zero_vec,
};
use crate::mle::{
    between, chi, complement, compute_betas_eval, identity_at, lemma_chi_append, lemma_chi_sum, lemma_fsum_pairs,
    lemma_identity_first, mle_eval, mle_term,
};
use crate::tensor::copy_slice;
use vstd::arithmetic::power2::{lemma2_to64, lemma_pow2_adds, lemma_pow2_pos, lemma_pow2_unfold, pow2};
use vstd::prelude::*;
use vstd::slice::slice_subrange;

verus! {

/// One factor of a step, from the coordinate `x` of the level above, the last coordinate `y` of the current
/// point and the power `z` of the root. The first step of a transform only knows the first half of its level.
pub open spec fn step_factor(x: Fe, y: Fe, z: Fe, first: bool) -> Fe {
    if first {
        fmul(fsub(fone(), y), phi_factor(x, z))
    } else {
        fadd(fsub(fone(), x), fmul(fmul(fsub(fone(), fmul(fint(2), y)), x), z))
    }
}

/// The factors of a step for all columns.
pub open spec fn step_table(x: Fe, y: Fe, z: Fe, first: bool, n: nat) -> Seq<Fe> {
    Seq::new(pow2(n), |i: int| step_factor(x, y, fpow(z, i as nat), first))
}

/// The product over `i` of `1 - r[i] + r[i] * z^(2^i)`, over the first `k` coordinates.
pub open spec fn power_eval(r: Seq<Fe>, z: Fe, k: nat) -> Fe
    decreases k,
{
    if k == 0 {
        fone()
    } else {
        fmul(power_eval(r, z, (k - 1) as nat), phi_factor(r[k - 1], fpow(z, pow2((k - 1) as nat))))
    }
}

/// The product over `i` of `1 - r[i] + r[i] * e[off + i]`, over the first `k` coordinates.
pub open spec fn phi_product(r: Seq<Fe>, e: Seq<Fe>, off: int, k: nat) -> Fe
    decreases k,
{
    if k == 0 {
        fone()
    } else {
        fmul(phi_product(r, e, off, (k - 1) as nat), phi_factor(r[k - 1], e[off + k - 1]))
    }
}

/// The root of unity of order `2^n`, or its inverse, squared again and again.
pub fn pow_two_omegas(n: usize, is_fft: bool) -> (r: Vec<GoldilocksExt2>)
    requires
        2 <= n <= 32,
    ensures
        r@.len() == n - 1,
        forall|i: int| 0 <= i < n - 1 ==> (#[trigger] r@[i]).fe() == fpow(phase(n as nat, is_fft), pow2(i as nat)),
{
    let ghost w = root_of_unity(n as nat);
    let ghost ph = phase(n as nat, is_fft);
    let mut rou = get_root_of_unity(n);
    proof {
        lemma_root_of_unity(n as nat);
        lemma_pow2_pos(n as nat);
        lemma_phase(n as nat, is_fft);
        lemma2_to64();
        lemma_fpow_1(ph);
    }
    if is_fft {
        proof {
            lemma_root_inverse(w, pow2(n as nat));
            if w == fzero() {
                lemma_fmul_zero(ph);
            }
        }
        rou = rou.inverse();
        proof {
            lemma_fe_canon(rou);
            lemma_inverse_unique(w, rou.fe(), ph);
        }
    }
    let mut pows: Vec<GoldilocksExt2> = vec![rou];
    let mut i: usize = 1;
    while i < n - 1
        invariant
            1 <= i <= n - 1,
            2 <= n <= 32,
            pows@.len() == i,
            forall|j: int| 0 <= j < i ==> (#[trigger] pows@[j]).fe() == fpow(ph, pow2(j as nat)),
        decreases n - i,
    {
        let x = pows[i - 1];
        proof {
            lemma_pow2_unfold(i as nat);
            lemma_fpow_add(ph, pow2((i - 1) as nat), pow2((i - 1) as nat));
        }
        pows.push(x.times(&x));
        i = i + 1;
    }
    pows
}

/// The extension of the factors of a step at `r`: `exponents` ends with the powers of the root that belong to
/// the coordinates of `r`.
pub fn phi_eval(
    r: &[GoldilocksExt2],
    rand1: &GoldilocksExt2,
    rand2: &GoldilocksExt2,
    exponents: &[GoldilocksExt2],
    first_iter: bool,
) -> (e: GoldilocksExt2)
    requires
        r@.len() <= exponents@.len(),
    ensures
        e.fe() == step_factor(
            rand1.fe(),
            rand2.fe(),
            phi_product(fes(r@), fes(exponents@), exponents@.len() - r@.len(), r@.len()),
            first_iter,
        ),
{
    let mut eval = GoldilocksExt2::one();
    let total: usize = exponents.len();
    let off: usize = total - r.len();
    let mut i: usize = 0;
    while i < r.len()
        invariant
            i <= r@.len(),
            total == exponents@.len(),
            off + r@.len() == total,
            eval.fe() == phi_product(fes(r@), fes(exponents@), off as int, i as nat),
        decreases r@.len() - i,
    {
        let factor = complement(&r[i]).plus(&r[i].times(&exponents[off + i]));
        eval = eval.times(&factor);
        i = i + 1;
    }
    if first_iter {
        complement(rand2).times(&complement(rand1).plus(&rand1.times(&eval)))
    } else {
        let two = GoldilocksExt2::from_canonical_u64(2);
        let c = complement(&two.times(rand2));
        complement(rand1).plus(&c.times(rand1).times(&eval))
    }
}

/// `(a - x) - x` is `a - 2 * x`.
proof fn lemma_sub_twice(a: Fe, x: Fe)
    requires
        canon(a),
        canon(x),
    ensures
        fsub(fsub(a, x), x) == fsub(a, fmul(fint(2), x)),
{
    let two = fadd(x, x);
    lemma_fint_hom(1, 1);
    assert(fint(1) == fone());
    lemma_fmul_dist(x, fone(), fone());
    lemma_fmul_one(x);
    let d = fsub(a, two);
    lemma_ops_canon(a, two);
    lemma_fsub_fadd(a, two);
    lemma_fadd_assoc(d, x, x);
    lemma_ops_canon(d, x);
    lemma_fsub_fadd(fadd(d, x), x);
    lemma_fsub_fadd(d, x);
}

/// `w * (1 - x) + w * x` is `w`.
pub proof fn lemma_share(w: Fe, x: Fe)
    requires
        canon(w),
    ensures
        fadd(fmul(w, fsub(fone(), x)), fmul(w, x)) == w,
{
    lemma_fmul_dist(w, fone(), x);
    lemma_fmul_one(w);
    lemma_fsub_fadd(w, fmul(w, x));
}

/// `(u + v) * (1 - y) + (u - v) * y` is `u + (1 - 2 * y) * v`.
proof fn lemma_fold_pair(u: Fe, v: Fe, y: Fe)
    requires
        canon(u),
        canon(v),
        canon(y),
    ensures
        between(fadd(u, v), fsub(u, v), y) == fadd(u, fmul(fsub(fone(), fmul(fint(2), y)), v)),
{
    let c = fsub(fone(), y);
    lemma_fmul_dist(c, u, v);
    lemma_fmul_dist(y, u, v);
    let (p, q, r, s) = (fmul(u, c), fmul(v, c), fmul(u, y), fmul(v, y));
    lemma_ops_canon(u, c);
    lemma_ops_canon(v, c);
    lemma_ops_canon(u, y);
    lemma_ops_canon(v, y);
    lemma_fsub_neg(r, s);
    lemma_fsub_neg(q, s);
    lemma_fadd_swap4(p, q, r, fmul(fneg1(), s));
    lemma_share(u, y);
    lemma_fmul_dist(v, c, y);
    lemma_ops_canon(fone(), y);
    lemma_sub_twice(fone(), y);
    lemma_fmul_comm(v, fsub(fone(), fmul(fint(2), y)));
}

/// The extension with its last variable split off: `e` and `e2` are the halves of the table.
pub proof fn lemma_mle_last(e: Seq<Fe>, p: Seq<Fe>, y: Fe)
    requires
        canon(y),
    ensures
        mle_eval(e, p.push(y)) == fsum(
            pow2(p.len()),
            |b: int| fmul(chi(b, p), between(e[b], e[b + pow2(p.len())], y)),
        ),
{
    let h = pow2(p.len());
    let q = seq![y];
    let f = mle_term(e, p + q);
    assert(p.push(y) =~= p + q);
    lemma_pow2_unfold(p.len() + 1);
    lemma_fsum_split(h, h, f);
    let hi = |b: int| f(h + b);
    crate::algebra::lemma_fsum_add(h, f, hi);
    let sum = |b: int| fadd(f(b), hi(b));
    let want = |b: int| fmul(chi(b, p), between(e[b], e[b + h], y));
    assert(q.skip(1).len() == 0);
    lemma_ops_canon(fone(), y);
    lemma_fmul_one(y);
    lemma_fmul_one(fsub(fone(), y));
    assert(chi(0, q) == fsub(fone(), y)) by {
        assert(chi(0int / 2, q.skip(1)) == fone());
    }
    assert(chi(1, q) == y) by {
        assert(chi(1int / 2, q.skip(1)) == fone());
    }
    assert forall|b: int| 0 <= b < h implies #[trigger] sum(b) == want(b) by {
        lemma_chi_append(b, p, q);
        lemma_chi_append(h + b, p, q);
        lemma_grid_digits(0, b, h as int);
        lemma_grid_digits(1, b, h as int);
        assert(0 * h + b == b && 1 * h + b == h + b) by (nonlinear_arith);
        let c = chi(b, p);
        let (e0, e1) = (e[b], e[b + h]);
        let z = fsub(fone(), y);
        // e0 * (c * z) == c * (e0 * z)
        lemma_fmul_assoc(e0, c, z);
        lemma_fmul_comm(e0, c);
        lemma_fmul_assoc(c, e0, z);
        lemma_fmul_assoc(e1, c, y);
        lemma_fmul_comm(e1, c);
        lemma_fmul_assoc(c, e1, y);
        lemma_fmul_dist(c, fmul(e0, z), fmul(e1, y));
    }
    lemma_fsum_eq(h, sum, want);
}

/// The claim of one step: the sum over all columns of the corner polynomials of `p`, the factors of the step
/// and the entries of the level below.
pub open spec fn step_sum(rx: Seq<Fe>, phi: Fe, scale: Fe, n: nat, i: nat, p: Seq<Fe>, y: Fe, first: bool) -> Fe {
    let m = (n - i) as nat;
    fsum(
        pow2((i - 1) as nat),
        |b: int|
            fmul(
                chi(b, p),
                fmul(
                    step_factor(rx[m as int], y, fpow(fpow(phi, pow2(m)), b as nat), first),
                    level(rx, phi, scale, n, (i - 1) as nat, b),
                ),
            ),
    )
}

/// The extension of a level at a point is the sum of the next step.
pub proof fn law_delegation_step(
    rx: Seq<Fe>,
    phi: Fe,
    scale: Fe,
    n: nat,
    i: nat,
    p: Seq<Fe>,
    y: Fe,
)
    requires
        1 <= i <= n,
        rx.len() == n,
        all_canon(rx),
        p.len() == i - 1,
        canon(y),
        canon(scale),
        canon(phi),
        fpow(phi, pow2(n)) == fone(),
        fpow(phi, pow2((n - 1) as nat)) == fneg1(),
    ensures
        mle_eval(level_table(rx, phi, scale, n, i), p.push(y)) == step_sum(rx, phi, scale, n, i, p, y, false),
{
    let k = (i - 1) as nat;
    let m = (n - i) as nat;
    let e = level_table(rx, phi, scale, n, i);
    let h = pow2(k);
    lemma_pow2_unfold(i);
    lemma_mle_last(e, p, y);
    let x = rx[m as int];
    let a = |b: int| fmul(chi(b, p), between(e[b], e[b + h], y));
    let w = |b: int|
        fmul(
            chi(b, p),
            fmul(step_factor(x, y, fpow(fpow(phi, pow2(m)), b as nat), false), level(rx, phi, scale, n, k, b)),
        );
    assert forall|b: int| 0 <= b < h implies #[trigger] a(b) == w(b) by {
        let t = level(rx, phi, scale, n, k, b);
        let z = fpow(phi, (b * pow2(m)) as nat);
        lemma_fpow_mul(phi, pow2(m), b as nat);
        assert(pow2(m) * (b as nat) == b * pow2(m)) by (nonlinear_arith)
            requires
                b >= 0,
        ;
        lemma_half_turn(phi, n, i, b);
        lemma_level_period(rx, phi, scale, n, k, k, b);
        lemma_level_canon(rx, phi, scale, n, k, b);
        lemma_factor_neg(x, z);
        let (u, v) = (fsub(fone(), x), fmul(x, z));
        lemma_ops_canon(fone(), x);
        lemma_ops_canon(x, z);
        assert(e[b] == fmul(t, fadd(u, v)));
        assert(e[b + h] == fmul(t, fsub(u, v)));
        lemma_fold_pair(u, v, y);
        // t * (u + v) * (1 - y) + t * (u - v) * y == t * (...)
        let c = fsub(fone(), y);
        lemma_fmul_assoc(t, fadd(u, v), c);
        lemma_fmul_assoc(t, fsub(u, v), y);
        lemma_fmul_dist(t, fmul(fadd(u, v), c), fmul(fsub(u, v), y));
        let d = fsub(fone(), fmul(fint(2), y));
        lemma_fmul_assoc(d, x, z);
        lemma_fmul_comm(t, fadd(u, fmul(d, v)));
    }
    lemma_fsum_eq(h, a, w);
}

/// The first half of the last level, followed by zeros.
pub open spec fn half_table(rx: Seq<Fe>, phi: Fe, scale: Fe, n: nat) -> Seq<Fe> {
    Seq::new(
        pow2(n),
        |b: int|
            if b < pow2((n - 1) as nat) {
                level(rx, phi, scale, n, n, b)
            } else {
                fzero()
            },
    )
}

/// The extension of the row that a transform uses, at a point, is the sum of the first step.
pub proof fn law_first_delegation_step(rx: Seq<Fe>, phi: Fe, scale: Fe, n: nat, p: Seq<Fe>, y: Fe)
    requires
        1 <= n,
        rx.len() == n,
        p.len() == n - 1,
        canon(y),
    ensures
        mle_eval(half_table(rx, phi, scale, n), p.push(y)) == step_sum(rx, phi, scale, n, n, p, y, true),
{
    let k = (n - 1) as nat;
    let e = half_table(rx, phi, scale, n);
    let h = pow2(k);
    lemma_pow2_unfold(n);
    lemma2_to64();
    lemma_mle_last(e, p, y);
    let x = rx[0];
    let a = |b: int| fmul(chi(b, p), between(e[b], e[b + h], y));
    let w = |b: int|
        fmul(
            chi(b, p),
            fmul(step_factor(x, y, fpow(fpow(phi, pow2(0)), b as nat), true), level(rx, phi, scale, n, k, b)),
        );
    assert forall|b: int| 0 <= b < h implies #[trigger] a(b) == w(b) by {
        let t = level(rx, phi, scale, n, k, b);
        let z = fpow(phi, (b * pow2(0)) as nat);
        lemma_fpow_mul(phi, pow2(0), b as nat);
        assert(pow2(0) * (b as nat) == b * pow2(0)) by (nonlinear_arith)
            requires
                b >= 0,
        ;
        let f = phi_factor(x, z);
        let c = fsub(fone(), y);
        assert(e[b] == fmul(t, f));
        assert(e[b + h] == fzero());
        lemma_fmul_zero(y);
        lemma_ops_canon(fmul(t, f), c);
        lemma_fadd_zero(fmul(fmul(t, f), c));
        lemma_fmul_assoc(t, f, c);
        lemma_fmul_comm(f, c);
        lemma_fmul_comm(t, fmul(c, f));
    }
    lemma_fsum_eq(h, a, w);
}

/// The polynomials of the corners, at a point.
pub open spec fn betas(p: Seq<Fe>) -> Seq<Fe> {
    Seq::new(pow2(p.len()), |i: int| chi(i, p))
}

/// The extension of the corner polynomials of `p` at `q` is the identity polynomial of the two points.
pub proof fn law_betas_extension(p: Seq<Fe>, q: Seq<Fe>)
    requires
        p.len() == q.len(),
    ensures
        mle_eval(betas(p), q) == identity_at(q, p, p.len()),
    decreases p.len(),
{
    let n = p.len();
    lemma2_to64();
    if n == 0 {
        crate::mle::lemma_mle_empty(betas(p), q);
    } else {
        let (p1, q1) = (p.skip(1), q.skip(1));
        let m = (n - 1) as nat;
        let (x, y) = (p[0], q[0]);
        law_betas_extension(p1, q1);
        lemma_identity_first(q, p, n);
        lemma_pow2_unfold(n);
        let f = mle_term(betas(p), q);
        lemma_fsum_pairs(pow2(m), f);
        let g = |j: int| fadd(f(2 * j), f(2 * j + 1));
        let h = mle_term(betas(p1), q1);
        let (nx, ny) = (fsub(fone(), x), fsub(fone(), y));
        let t = fadd(fmul(y, x), fmul(ny, nx));
        let u = |j: int| fmul(t, h(j));
        assert forall|j: int| 0 <= j < pow2(m) implies #[trigger] g(j) == u(j) by {
            let (c, d) = (chi(j, p1), chi(j, q1));
            assert((2 * j) % 2 == 0 && (2 * j) / 2 == j && (2 * j + 1) % 2 == 1 && (2 * j + 1) / 2 == j);
            assert(f(2 * j) == fmul(fmul(nx, c), fmul(ny, d)));
            assert(f(2 * j + 1) == fmul(fmul(x, c), fmul(y, d)));
            lemma_fmul_swap4(nx, c, ny, d);
            lemma_fmul_swap4(x, c, y, d);
            lemma_fmul_comm(nx, ny);
            lemma_fmul_comm(x, y);
            lemma_fadd_comm(fmul(fmul(ny, nx), fmul(c, d)), fmul(fmul(y, x), fmul(c, d)));
            lemma_fmul_dist(fmul(c, d), fmul(y, x), fmul(ny, nx));
        }
        lemma_fsum_eq(pow2(m), g, u);
        lemma_fsum_scale(pow2(m), t, h);
    }
}

/// The extension of `a + c * e` is `a` plus `c` times the extension of `e`.
pub proof fn lemma_mle_affine(a: Fe, c: Fe, e: Seq<Fe>, q: Seq<Fe>)
    requires
        canon(a),
    ensures
        mle_eval(Seq::new(pow2(q.len()), |i: int| fadd(a, fmul(c, e[i]))), q) == fadd(
            a,
            fmul(c, mle_eval(e, q)),
        ),
{
    let n = pow2(q.len());
    let d = Seq::new(n, |i: int| fadd(a, fmul(c, e[i])));
    let t = mle_term(d, q);
    let u = |i: int| chi(i, q);
    let v = mle_term(e, q);
    let au = |i: int| fmul(a, u(i));
    let cv = |i: int| fmul(c, v(i));
    let s = |i: int| fadd(au(i), cv(i));
    assert forall|i: int| 0 <= i < n implies #[trigger] t(i) == s(i) by {
        let w = chi(i, q);
        lemma_fmul_dist(w, a, fmul(c, e[i]));
        lemma_fmul_assoc(c, e[i], w);
    }
    lemma_fsum_eq(n, t, s);
    crate::algebra::lemma_fsum_add(n, au, cv);
    lemma_fsum_scale(n, a, u);
    lemma_fsum_scale(n, c, v);
    lemma_chi_sum(q);
    lemma_fmul_one(a);
}

/// The extension of the powers of `z` at `q`, as a product.
proof fn lemma_power_extension(q: Seq<Fe>, z: Fe)
    requires
        canon(z),
    ensures
        mle_eval(power_table(z, q.len()), q) == power_eval(q, z, q.len()),
{
    law_fourier_row(q, z, 1);
    lemma_fpow_1(z);
    lemma_level_is_product(q, z, q.len());
    lemma2_to64();
    if q.len() > 0 {
        lemma_product_halves(q, z, 0, q.len());
    }
    assert(power_eval(q, z, 0) == fone());
    lemma_level_canon(q, z, fone(), q.len(), q.len(), 1);
    lemma_fmul_one(level(q, z, fone(), q.len(), q.len(), 1));
}

/// The factors of column one from the coordinate `k` on.
spec fn upper_product(q: Seq<Fe>, z: Fe, k: nat, n: nat) -> Fe
    decreases n - k,
{
    if k >= n {
        fone()
    } else {
        fmul(upper_product(q, z, k + 1, n), phi_factor(q[k as int], fpow(z, pow2(k))))
    }
}

proof fn lemma_level_is_product(q: Seq<Fe>, z: Fe, i: nat)
    requires
        i <= q.len(),
    ensures
        level(q, z, fone(), q.len(), i, 1) == upper_product(q, z, (q.len() - i) as nat, q.len()),
    decreases i,
{
    if i > 0 {
        lemma_level_is_product(q, z, (i - 1) as nat);
        let m = (q.len() - i) as nat;
        assert(1 * pow2(m) == pow2(m)) by (nonlinear_arith);
    }
}

/// The product can be cut at any coordinate.
proof fn lemma_product_halves(q: Seq<Fe>, z: Fe, k: nat, n: nat)
    requires
        k <= n,
    ensures
        fmul(power_eval(q, z, k), upper_product(q, z, k, n)) == power_eval(q, z, n),
    decreases n - k,
{
    if k == n {
        lemma_power_eval_canon(q, z, n);
        lemma_fmul_one(power_eval(q, z, n));
    } else {
        lemma_product_halves(q, z, k + 1, n);
        let f = phi_factor(q[k as int], fpow(z, pow2(k)));
        let (a, b) = (power_eval(q, z, k), upper_product(q, z, k + 1, n));
        lemma_fmul_assoc(a, f, b);
        lemma_fmul_comm(f, b);
    }
}

proof fn lemma_power_eval_canon(q: Seq<Fe>, z: Fe, n: nat)
    ensures
        canon(power_eval(q, z, n)),
{
    if n > 0 {
        lemma_ops_canon(
            power_eval(q, z, (n - 1) as nat),
            phi_factor(q[n - 1], fpow(z, pow2((n - 1) as nat))),
        );
    }
}

/// With the powers of the root as exponents, the product that a check computes is that of the powers of the
/// root of the step.
proof fn lemma_phi_product(r: Seq<Fe>, phi: Fe, e: Seq<Fe>, off: nat, k: nat)
    requires
        k <= r.len(),
        forall|i: int| 0 <= i < k ==> #[trigger] e[off + i] == fpow(phi, pow2((off + i) as nat)),
    ensures
        phi_product(r, e, off as int, k) == power_eval(r, fpow(phi, pow2(off)), k),
    decreases k,
{
    if k > 0 {
        lemma_phi_product(r, phi, e, off, (k - 1) as nat);
        lemma_pow2_adds(off, (k - 1) as nat);
        lemma_fpow_mul(phi, pow2(off), pow2((k - 1) as nat));
        assert(e[off + (k - 1)] == fpow(phi, pow2((off + (k - 1)) as nat)));
    }
}

/// What a check computes for the factors of a step is their extension at the point of the check.
pub proof fn law_phi_extension(q: Seq<Fe>, x: Fe, y: Fe, phi: Fe, e: Seq<Fe>, first: bool)
    requires
        q.len() <= e.len(),
        canon(phi),
        forall|i: int| 0 <= i < e.len() ==> #[trigger] e[i] == fpow(phi, pow2(i as nat)),
    ensures
        step_factor(x, y, phi_product(q, e, e.len() - q.len(), q.len()), first) == mle_eval(
            step_table(x, y, fpow(phi, pow2((e.len() - q.len()) as nat)), first, q.len()),
            q,
        ),
{
    let off = (e.len() - q.len()) as nat;
    let n = q.len();
    let z = fpow(phi, pow2(off));
    lemma_fpow_canon(phi, pow2(off));
    assert forall|i: int| 0 <= i < n implies #[trigger] e[off + i] == fpow(phi, pow2((off + i) as nat)) by {}
    lemma_phi_product(q, phi, e, off, n);
    lemma_power_extension(q, z);
    let t = power_table(z, n);
    let s = step_table(x, y, z, first, n);
    let a = fsub(fone(), x);
    lemma_ops_canon(fone(), x);
    if first {
        let b = fsub(fone(), y);
        let (ba, bx) = (fmul(b, a), fmul(b, x));
        lemma_ops_canon(b, a);
        lemma_mle_affine(ba, bx, t, q);
        let d = Seq::new(pow2(n), |i: int| fadd(ba, fmul(bx, t[i])));
        assert forall|i: int| 0 <= i < pow2(n) implies #[trigger] d[i] == s[i] by {
            lemma_fmul_dist(b, a, fmul(x, t[i]));
            lemma_fmul_assoc(b, x, t[i]);
        }
        assert(d =~= s);
        let v = mle_eval(t, q);
        lemma_fmul_dist(b, a, fmul(x, v));
        lemma_fmul_assoc(b, x, v);
    } else {
        let c = fmul(fsub(fone(), fmul(fint(2), y)), x);
        lemma_mle_affine(a, c, t, q);
        assert(Seq::new(pow2(n), |i: int| fadd(a, fmul(c, t[i]))) =~= s);
    }
}

/// The first level, at a point, where its coordinate is `x`.
pub open spec fn last_value(x: Fe, y: Fe, scale: Fe) -> Fe {
    fadd(fmul(scale, fsub(fone(), y)), fmul(fmul(scale, fsub(fone(), fmul(fint(2), x))), y))
}

/// The extension of the first level, which the last step leaves behind.
pub proof fn law_last_delegation_step(rx: Seq<Fe>, phi: Fe, scale: Fe, n: nat, y: Fe)
    requires
        1 <= n,
        rx.len() == n,
        all_canon(rx),
        canon(y),
        canon(scale),
        canon(phi),
        fpow(phi, pow2((n - 1) as nat)) == fneg1(),
    ensures
        mle_eval(level_table(rx, phi, scale, n, 1), seq![y]) == last_value(rx[n - 1], y, scale),
{
    let e = level_table(rx, phi, scale, n, 1);
    let p = Seq::<Fe>::empty();
    let x = rx[n - 1];
    lemma2_to64();
    assert(canon(x));
    lemma_mle_last(e, p, y);
    assert(p.push(y) =~= seq![y]);
    let f = |b: int| fmul(chi(b, p), between(e[b], e[b + pow2(0)], y));
    assert(fsum(1, f) == fadd(fsum(0, f), f(0)));
    let v = between(e[0], e[1], y);
    lemma_ops_canon(fmul(e[0], fsub(fone(), y)), fmul(e[1], y));
    lemma_fmul_one(v);
    lemma_fadd_zero(v);
    let m = (n - 1) as nat;
    assert(0 * pow2(m) == 0 && 1 * pow2(m) == pow2(m)) by (nonlinear_arith);
    reveal_with_fuel(level, 2);
    assert(fpow(phi, 0) == fone());
    lemma_ops_canon(fone(), x);
    lemma_fmul_one(x);
    lemma_fsub_fadd(fone(), x);
    lemma_fmul_one(scale);
    assert(e[0] == scale);
    lemma_factor_neg(x, fone());
    lemma_fneg1(fone());
    lemma_fmul_one(fneg1());
    lemma_sub_twice(fone(), x);
    assert(e[1] == fmul(scale, fsub(fone(), fmul(fint(2), x))));
}

/// The tables of one step of the delegation: the prover shows the sum of their products.
#[derive(Debug)]
pub struct DelegationStep {
    pub beta: Vec<GoldilocksExt2>,
    pub phi: Vec<GoldilocksExt2>,
    pub level: Vec<GoldilocksExt2>,
}

/// The state of a delegation: the levels, the point that the row was taken at, and the point that the last
/// sum was reduced to.
#[derive(Debug)]
pub struct Delegation {
    f_middle: Vec<Vec<GoldilocksExt2>>,
    r1: Vec<GoldilocksExt2>,
    omegas: Vec<GoldilocksExt2>,
    is_fft: bool,
    remaining: usize,
    point: Vec<GoldilocksExt2>,
}

impl Delegation {
    /// The levels.
    pub closed spec fn levels(self) -> Seq<Vec<GoldilocksExt2>> {
        self.f_middle@
    }

    /// The point that the row was taken at.
    pub closed spec fn row_point(self) -> Seq<Fe> {
        fes(self.r1@)
    }

    /// Does the row belong to an inverse transform?
    pub closed spec fn inverse(self) -> bool {
        self.is_fft
    }

    /// The number of steps to come.
    pub closed spec fn steps_left(self) -> nat {
        self.remaining as nat
    }

    /// The point that the last sum was reduced to.
    pub closed spec fn current_point(self) -> Seq<Fe> {
        fes(self.point@)
    }

    /// There is a level of `2^(l + 1)` entries for each `l`, and the point fits the next step.
    pub closed spec fn wf(self) -> bool {
        &&& 1 <= self.r1@.len() <= 32
        &&& self.f_middle@.len() == self.r1@.len() - 1
        &&& forall|l: int| 0 <= l < self.f_middle@.len() ==> (#[trigger] self.f_middle@[l])@.len() == pow2((l + 1) as nat)
        &&& self.omegas@.len() == pow2(self.r1@.len())
        &&& forall|i: int|
            0 <= i < self.omegas@.len() ==> (#[trigger] self.omegas@[i]).fe() == fpow(
                phase(self.r1@.len(), self.is_fft),
                i as nat,
            )
        &&& self.remaining <= self.f_middle@.len()
        &&& self.point@.len() == self.remaining + 1
    }

    /// The delegation of the row at `r1`, whose extension was reduced to the point `r2`.
    pub fn new(
        f_middle: Vec<Vec<GoldilocksExt2>>,
        r1: Vec<GoldilocksExt2>,
        r2: Vec<GoldilocksExt2>,
        is_fft: bool,
    ) -> (r: Self)
        requires
            1 <= r1@.len() <= 32,
            pow2(r1@.len()) <= usize::MAX,
            f_middle@.len() == r1@.len() - 1,
            forall|l: int| 0 <= l < f_middle@.len() ==> (#[trigger] f_middle@[l])@.len() == pow2((l + 1) as nat),
            r2@.len() == r1@.len(),
        ensures
            r.wf(),
            r.levels() == f_middle@,
            r.row_point() == fes(r1@),
            r.inverse() == is_fft,
            r.steps_left() == f_middle@.len(),
            r.current_point() == fes(r2@),
    {
        let n: usize = r1.len();
        let mut omegas = zero_vec(power_of_two(n));
        phi_pow_init(&mut omegas, n, is_fft);
        let remaining: usize = f_middle.len();
        Delegation { f_middle, r1, omegas, is_fft, remaining, point: r2 }
    }

    /// The tables of the next step, where there is one.
    pub fn step(&self) -> (r: Option<DelegationStep>)
        requires
            self.wf(),
        ensures
            r is None <==> self.steps_left() == 0,
            r matches Some(t) ==> {
                let n = self.row_point().len();
                let l = (self.steps_left() - 1) as nat;
                let s = (n - 2 - l) as nat;
                let p = self.current_point();
                &&& fes(t.beta@) == betas(p.drop_last())
                &&& fes(t.phi@) == step_table(
                    self.row_point()[s as int],
                    p.last(),
                    fpow(phase(n, self.inverse()), pow2(s)),
                    !self.inverse() && l == n - 2,
                    l + 1,
                )
                &&& fes(t.level@) == fes(self.levels()[l as int]@)
            },
    {
        if self.remaining == 0 {
            return None;
        }
        let l: usize = self.remaining - 1;
        let s: usize = self.f_middle.len() - 1 - l;
        let last: usize = self.point.len() - 1;
        let y = self.point[last];
        let x = self.r1[s];
        let first: bool = !self.is_fft && l == self.f_middle.len() - 1;
        let ghost n = self.r1@.len();
        let ghost ph = phase(n, self.is_fft);
        let ghost z = fpow(ph, pow2(s as nat));
        proof {
            assert(self.f_middle@[l as int]@.len() == pow2((l + 1) as nat));
            assert(self.f_middle@[l as int]@.len() == self.f_middle@[l as int].len());
            lemma_pow2_adds(s as nat, (l + 1) as nat);
            lemma_pow2_unfold(n);
            lemma_pow2_pos(s as nat);
            lemma_pow2_pos((l + 1) as nat);
            assert(self.omegas@.len() == self.omegas.len());
            assert(pow2(s as nat) <= pow2(s as nat) * pow2((l + 1) as nat)) by (nonlinear_arith)
                requires
                    pow2((l + 1) as nat) >= 1,
            ;
        }
        let beta = compute_betas_eval(slice_subrange(self.point.as_slice(), 0, last));
        let size: usize = self.f_middle[l].len();
        let gap: usize = power_of_two(s);
        let x0 = complement(&x);
        let y0 = complement(&y);
        let two = GoldilocksExt2::from_canonical_u64(2);
        let c = complement(&two.times(&y)).times(&x);
        let mut phi: Vec<GoldilocksExt2> = Vec::with_capacity(size);
        let mut i: usize = 0;
        while i < size
            invariant
                i <= size,
                self.omegas@.len() == pow2(n),
                gap == pow2(s as nat),
                gap * size == pow2((n - 1) as nat),
                pow2(n) == 2 * pow2((n - 1) as nat),
                x0.fe() == fsub(fone(), x.fe()),
                y0.fe() == fsub(fone(), y.fe()),
                c.fe() == fmul(fsub(fone(), fmul(fint(2), y.fe())), x.fe()),
                z == fpow(ph, pow2(s as nat)),
                forall|j: int| 0 <= j < self.omegas@.len() ==> (#[trigger] self.omegas@[j]).fe() == fpow(ph, j as nat),
                phi@.len() == i,
                forall|j: int|
                    0 <= j < i ==> (#[trigger] phi@[j]).fe() == step_factor(x.fe(), y.fe(), fpow(z, j as nat), first),
            decreases size - i,
        {
            proof {
                assert(0 <= i * gap <= gap * size) by (nonlinear_arith)
                    requires
                        0 <= i <= size,
                        gap >= 0,
                ;
                lemma_pow2_pos((n - 1) as nat);
                assert(self.omegas@.len() == self.omegas.len());
                lemma_fpow_mul(ph, pow2(s as nat), i as nat);
                assert(pow2(s as nat) * (i as nat) == i * gap) by (nonlinear_arith)
                    requires
                        gap == pow2(s as nat),
                ;
            }
            let w = self.omegas[i * gap];
            if first {
                phi.push(y0.times(&x0.plus(&x.times(&w))));
            } else {
                phi.push(x0.plus(&c.times(&w)));
            }
            i = i + 1;
        }
        let level = copy_slice(&self.f_middle[l]);
        proof {
            let p = fes(self.point@);
            assert(fes(self.point@.subrange(0, last as int)) =~= p.drop_last());
            assert(fes(beta@) =~= betas(p.drop_last()));
            assert(fes(phi@) =~= step_table(x.fe(), y.fe(), z, first, (l + 1) as nat));
        }
        Some(DelegationStep { beta, phi, level })
    }

    /// Goes on from the point that the sum of the last step was reduced to.
    pub fn advance(&mut self, point: Vec<GoldilocksExt2>)
        requires
            old(self).wf(),
            old(self).steps_left() > 0,
            point@.len() == old(self).steps_left(),
        ensures
            final(self).wf(),
            final(self).levels() == old(self).levels(),
            final(self).row_point() == old(self).row_point(),
            final(self).inverse() == old(self).inverse(),
            final(self).steps_left() == old(self).steps_left() - 1,
            final(self).current_point() == fes(point@),
    {
        self.remaining = self.remaining - 1;
        self.point = point;
    }
}

} // verus!
