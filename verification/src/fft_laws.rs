//! Laws of the Fourier transform: inversion and the convolution theorem.
use crate::algebra::{
    fneg1, lemma_fneg1, lemma_fpow_add, lemma_fpow_canon, lemma_fpow_mul, lemma_fpow_one, lemma_fsum_canon,
    lemma_fsum_eq, lemma_fsum_scale, lemma_fsum_single, lemma_fsum_split, lemma_fsum_swap,
};
use crate::arith::lemma_clog2_pow2;
use crate::fft::{all_canon, dft, idft, inverse_of_pow2, lemma_inverse_of_pow2};
use crate::field::{
    canon, fint, fmul, fone, fpow, fsum, fzero, lemma_fadd_comm, lemma_fadd_zero, lemma_fint_hom, lemma_fmul_assoc,
    lemma_fmul_comm, lemma_fmul_one, lemma_fmul_zero, lemma_ops_canon, Fe,
};
use vstd::arithmetic::div_mod::{
    lemma_fundamental_div_mod, lemma_mod_add_multiples_vanish, lemma_mod_bound,
    lemma_mod_multiples_vanish, lemma_small_mod,
};
use vstd::arithmetic::power2::{lemma2_to64, lemma_pow2_pos, lemma_pow2_unfold, pow2};
use vstd::prelude::*;

verus! {

/// `w` is a root of unity of order exactly `2^k`.
pub open spec fn primitive(w: Fe, k: nat) -> bool {
    k >= 1 && canon(w) && fpow(w, pow2((k - 1) as nat)) == fneg1()
}

proof fn lemma_primitive(w: Fe, k: nat)
    requires
        primitive(w, k),
    ensures
        fpow(w, pow2(k)) == fone(),
{
    let h = pow2((k - 1) as nat);
    lemma_pow2_unfold(k);
    lemma_fpow_add(w, h, h);
    lemma_fneg1(fone());
}

/// Exponents that agree modulo the order give the same power.
proof fn lemma_fpow_mod(w: Fe, k: nat, a: nat)
    requires
        primitive(w, k),
    ensures
        fpow(w, a) == fpow(w, a % pow2(k)),
{
    let n = pow2(k);
    lemma_pow2_pos(k);
    lemma_primitive(w, k);
    lemma_fundamental_div_mod(a as int, n as int);
    let q = (a / n) as nat;
    let r = (a % n) as nat;
    assert(n * q >= 0) by (nonlinear_arith)
        requires
            n >= 0,
            q >= 0,
    ;
    lemma_fpow_add(w, n * q, r);
    lemma_fpow_mul(w, n, q);
    lemma_fpow_one(q);
    lemma_fpow_canon(w, r);
    lemma_fmul_one(fpow(w, r));
}

/// The powers of a root of unity other than one sum up to zero.
proof fn lemma_geometric(w: Fe, k: nat, d: nat)
    requires
        primitive(w, k),
        0 < d < pow2(k),
    ensures
        fsum(pow2(k), |q: int| fpow(fpow(w, d), q as nat)) == fzero(),
    decreases k,
{
    let h = pow2((k - 1) as nat);
    lemma_pow2_unfold(k);
    let r = fpow(w, d);
    let f = |q: int| fpow(r, q as nat);
    lemma_fsum_split(h, h, f);
    let g = |i: int| f(h + i);
    let rh = fpow(r, h);
    let sc = |i: int| fmul(rh, f(i));
    assert forall|i: int| 0 <= i < h implies #[trigger] g(i) == sc(i) by {
        lemma_fpow_add(r, h, i as nat);
    }
    lemma_fsum_eq(h, g, sc);
    lemma_fsum_scale(h, rh, f);
    let s = fsum(h, f);
    lemma_fsum_canon(h, f);
    assert(rh == fpow(fneg1(), d)) by {
        lemma_fpow_mul(w, d, h);
        lemma_fpow_mul(w, h, d);
        assert(d * h == h * d) by (nonlinear_arith);
    }
    let d2 = (d / 2) as nat;
    lemma_fneg1(fone());
    assert(fpow(fneg1(), 2) == fone()) by {
        lemma_fpow_add(fneg1(), 1, 1);
        crate::algebra::lemma_fpow_1(fneg1());
    }
    lemma_fpow_mul(fneg1(), 2, d2);
    lemma_fpow_one(d2);
    if d % 2 == 1 {
        lemma_fpow_add(fneg1(), 2 * d2, 1);
        crate::algebra::lemma_fpow_1(fneg1());
        lemma_fmul_one(fneg1());
        assert(rh == fneg1());
        lemma_fneg1(s);
    } else {
        assert(d == 2 * d2);
        if k == 1 {
            lemma2_to64();
            assert(false);
        }
        let w2 = fpow(w, 2);
        lemma_fpow_canon(w, 2);
        let kk = (k - 1) as nat;
        lemma_pow2_unfold(kk);
        lemma_fpow_mul(w, 2, pow2((kk - 1) as nat));
        assert(primitive(w2, kk));
        lemma_geometric(w2, kk, d2);
        lemma_fpow_mul(w, 2, d2);
        lemma_fsum_eq(h, f, |q: int| fpow(fpow(w2, d2), q as nat));
        lemma_fmul_zero(rh);
        lemma_fadd_zero(fzero());
    }
}

/// Two rows of the transform are orthogonal, and each has the length for its square.
proof fn lemma_orthogonal(w: Fe, k: nat, j: int, m: int)
    requires
        primitive(w, k),
        0 <= j < pow2(k),
        0 <= m < pow2(k),
    ensures
        fsum(
            pow2(k),
            |q: int|
                fmul(
                    fpow(w, (j * q) as nat),
                    fpow(fpow(w, (pow2(k) - 1) as nat), (q * m) as nat),
                ),
        ) == (if j == m {
            fint(pow2(k) as int)
        } else {
            fzero()
        }),
{
    let n = pow2(k);
    lemma_pow2_pos(k);
    let wi = fpow(w, (n - 1) as nat);
    let f = |q: int| fmul(fpow(w, (j * q) as nat), fpow(wi, (q * m) as nat));
    assert(0 <= (n - 1) * m) by (nonlinear_arith)
        requires
            n >= 1,
            m >= 0,
    ;
    let d = (j + (n - 1) * m) as nat;
    let e = d % n;
    let g = |q: int| fpow(fpow(w, e), q as nat);
    assert forall|q: int| 0 <= q < n implies #[trigger] f(q) == g(q) by {
        assert(0 <= j * q && 0 <= q * m && 0 <= (n - 1) * (q * m)) by (nonlinear_arith)
            requires
                0 <= j,
                0 <= q,
                0 <= m,
                n >= 1,
        ;
        lemma_fpow_mul(w, (n - 1) as nat, (q * m) as nat);
        lemma_fpow_add(w, (j * q) as nat, ((n - 1) * (q * m)) as nat);
        assert(j * q + (n - 1) * (q * m) == d * q) by (nonlinear_arith)
            requires
                d == j + (n - 1) * m,
        ;
        lemma_fpow_mul(w, d, q as nat);
        lemma_fpow_mod(w, k, d);
    }
    lemma_fsum_eq(n, f, g);
    assert(d == n * m + (j - m)) by (nonlinear_arith)
        requires
            d == j + (n - 1) * m,
    ;
    lemma_mod_multiples_vanish(m, j - m, n as int);
    if j == m {
        lemma_small_mod(0, n);
        assert(e == 0);
        lemma_sum_of_ones(n, g);
    } else {
        if j > m {
            lemma_small_mod((j - m) as nat, n);
        } else {
            lemma_mod_add_multiples_vanish(j - m, n as int);
            lemma_small_mod((n + j - m) as nat, n);
        }
        lemma_geometric(w, k, e);
    }
}

proof fn lemma_sum_of_ones(n: nat, g: spec_fn(int) -> Fe)
    requires
        forall|q: int| 0 <= q < n ==> #[trigger] g(q) == fpow(fone(), q as nat),
    ensures
        fsum(n, g) == fint(n as int),
    decreases n,
{
    if n > 0 {
        lemma_sum_of_ones((n - 1) as nat, g);
        assert(g(n - 1) == fpow(fone(), (n - 1) as nat));
        lemma_fpow_one((n - 1) as nat);
        lemma_fint_hom(n - 1, 1);
    }
}

/// The inverse transform undoes the transform.
pub proof fn law_idft_dft(v: Seq<Fe>, w: Fe, k: nat)
    requires
        primitive(w, k),
        v.len() == pow2(k),
        all_canon(v),
    ensures
        idft(dft(v, w), w) == v,
{
    let n = pow2(k);
    let wi = fpow(w, (n - 1) as nat);
    let big = dft(v, w);
    lemma_clog2_pow2(k);
    let ninv = inverse_of_pow2(k);
    lemma_inverse_of_pow2(k);
    assert forall|m: int| 0 <= m < n implies #[trigger] idft(big, w)[m] == v[m] by {
        let f = |q: int, j: int|
            fmul(fmul(v[j], fpow(w, (j * q) as nat)), fpow(wi, (q * m) as nat));
        let outer = |q: int| fmul(big[q], fpow(wi, (q * m) as nat));
        let rows = |q: int| fsum(n, |j: int| f(q, j));
        assert forall|q: int| 0 <= q < n implies #[trigger] outer(q) == rows(q) by {
            let t = fpow(wi, (q * m) as nat);
            let term = |j: int| fmul(v[j], fpow(w, (j * q) as nat));
            lemma_fsum_scale(n, t, term);
            lemma_fmul_comm(t, fsum(n, term));
            let a = |j: int| fmul(t, term(j));
            let b = |j: int| f(q, j);
            assert forall|j: int| 0 <= j < n implies #[trigger] a(j) == b(j) by {
                lemma_fmul_comm(t, term(j));
            }
            lemma_fsum_eq(n, a, b);
        }
        lemma_fsum_eq(n, outer, rows);
        lemma_fsum_swap(n, n, f);
        let cols = |j: int| fsum(n, |q: int| f(q, j));
        let pick = |j: int|
            if j == m {
                fmul(v[m], fint(n as int))
            } else {
                fzero()
            };
        assert forall|j: int| 0 <= j < n implies #[trigger] cols(j) == pick(j) by {
            let o = |q: int| fmul(fpow(w, (j * q) as nat), fpow(wi, (q * m) as nat));
            lemma_orthogonal(w, k, j, m);
            lemma_fsum_scale(n, v[j], o);
            let a = |q: int| fmul(v[j], o(q));
            let b = |q: int| f(q, j);
            assert forall|q: int| 0 <= q < n implies #[trigger] a(q) == b(q) by {
                lemma_fmul_assoc(v[j], fpow(w, (j * q) as nat), fpow(wi, (q * m) as nat));
            }
            lemma_fsum_eq(n, a, b);
            lemma_fmul_zero(v[j]);
        }
        lemma_fsum_eq(n, cols, pick);
        lemma_ops_canon(v[m], fint(n as int));
        lemma_fsum_single(n, m, pick);
        assert(dft(big, wi)[m] == fsum(n, outer));
        lemma_fmul_assoc(v[m], fint(n as int), ninv);
        lemma_fmul_one(v[m]);
    }
    assert(idft(big, w) =~= v);
}

/// The cyclic convolution of two vectors of the same length.
pub open spec fn cyclic(x: Seq<Fe>, y: Seq<Fe>) -> Seq<Fe> {
    Seq::new(
        x.len(),
        |m: int| fsum(x.len(), |a: int| fmul(x[a], y[(m - a) % (x.len() as int)])),
    )
}

/// A sum over a full cycle does not depend on where the cycle starts.
proof fn lemma_fsum_rotate(n: nat, a: nat, g: spec_fn(int) -> Fe)
    requires
        a < n,
    ensures
        fsum(n, |m: int| g((m - a) % (n as int))) == fsum(n, g),
{
    let f = |m: int| g((m - a) % (n as int));
    let b = (n - a) as nat;
    lemma_fsum_split(a, b, f);
    lemma_fsum_split(b, a, g);
    let f_hi = |i: int| f(a + i);
    let g_hi = |i: int| g(b + i);
    assert forall|i: int| 0 <= i < a implies #[trigger] f(i) == g_hi(i) by {
        lemma_mod_add_multiples_vanish(i - a, n as int);
        lemma_small_mod((n + i - a) as nat, n);
    }
    lemma_fsum_eq(a, f, g_hi);
    assert forall|i: int| 0 <= i < b implies #[trigger] f_hi(i) == g(i) by {
        lemma_small_mod(i as nat, n);
    }
    lemma_fsum_eq(b, f_hi, g);
    lemma_fadd_comm(fsum(a, f), fsum(b, f_hi));
}

/// The transform of a cyclic convolution is the product of the transforms.
pub proof fn law_convolution(x: Seq<Fe>, y: Seq<Fe>, w: Fe, k: nat, q: int)
    requires
        primitive(w, k),
        x.len() == pow2(k),
        y.len() == pow2(k),
        0 <= q < pow2(k),
    ensures
        dft(cyclic(x, y), w)[q] == fmul(dft(x, w)[q], dft(y, w)[q]),
{
    let n = pow2(k);
    let c = cyclic(x, y);
    let f = |m: int, a: int|
        fmul(fmul(x[a], y[(m - a) % (n as int)]), fpow(w, (m * q) as nat));
    let outer = |m: int| fmul(c[m], fpow(w, (m * q) as nat));
    let rows = |m: int| fsum(n, |a: int| f(m, a));
    assert forall|m: int| 0 <= m < n implies #[trigger] outer(m) == rows(m) by {
        let t = fpow(w, (m * q) as nat);
        let term = |a: int| fmul(x[a], y[(m - a) % (n as int)]);
        lemma_fsum_scale(n, t, term);
        lemma_fmul_comm(t, fsum(n, term));
        let u = |a: int| fmul(t, term(a));
        let v = |a: int| f(m, a);
        assert forall|a: int| 0 <= a < n implies #[trigger] u(a) == v(a) by {
            lemma_fmul_comm(t, term(a));
        }
        lemma_fsum_eq(n, u, v);
    }
    lemma_fsum_eq(n, outer, rows);
    lemma_fsum_swap(n, n, f);
    let cols = |a: int| fsum(n, |m: int| f(m, a));
    let ty = |b: int| fmul(y[b], fpow(w, (b * q) as nat));
    let yq = fsum(n, ty);
    let tx = |a: int| fmul(x[a], fpow(w, (a * q) as nat));
    let prod = |a: int| fmul(yq, tx(a));
    assert forall|a: int| 0 <= a < n implies #[trigger] cols(a) == prod(a) by {
        let shifted = |m: int| ty((m - a) % (n as int));
        let u = |m: int| fmul(tx(a), shifted(m));
        let v = |m: int| f(m, a);
        assert forall|m: int| 0 <= m < n implies #[trigger] u(m) == v(m) by {
            lemma_mod_bound(m - a, n as int);
            let b = (m - a) % (n as int);
            assert(0 <= a * q && 0 <= b * q && 0 <= m * q) by (nonlinear_arith)
                requires
                    0 <= a,
                    0 <= b,
                    0 <= m,
                    0 <= q,
            ;
            crate::algebra::lemma_fmul_swap4(
                x[a],
                fpow(w, (a * q) as nat),
                y[b],
                fpow(w, (b * q) as nat),
            );
            lemma_fpow_add(w, (a * q) as nat, (b * q) as nat);
            // a + b and m agree modulo n, and so do the exponents
            let t = (m - a) / (n as int);
            lemma_fundamental_div_mod(m - a, n as int);
            assert(m * q == n * (t * q) + (a * q + b * q)) by (nonlinear_arith)
                requires
                    m - a == n * t + b,
            ;
            lemma_mod_multiples_vanish(t * q, a * q + b * q, n as int);
            lemma_fpow_mod(w, k, (m * q) as nat);
            lemma_fpow_mod(w, k, (a * q + b * q) as nat);
        }
        lemma_fsum_scale(n, tx(a), shifted);
        lemma_fsum_eq(n, u, v);
        lemma_fsum_rotate(n, a as nat, ty);
        lemma_fmul_comm(tx(a), yq);
    }
    lemma_fsum_eq(n, cols, prod);
    lemma_fsum_scale(n, yq, tx);
    lemma_fmul_comm(yq, fsum(n, tx));
}

} // verus!
