//! Multilinear extensions of tables of field elements.
//!
//! A table with `2^n` entries is a function on the corners of the `n`-dimensional cube: the entry at
//! index `i` belongs to the corner whose `k`-th coordinate is the `k`-th bit of `i`, lowest first. Its
//! multilinear extension is the one polynomial of degree at most one in each variable that agrees with
//! the table on the corners.
use crate::algebra::{
    lemma_fsum_add, lemma_fsum_canon, lemma_fsum_eq, lemma_fsum_scale, lemma_fsum_single, lemma_fsum_split, lemma_fsum_swap,
};
use crate::arith::{floor_log2, is_pow2, lemma_flog2_pow2, lemma_grid_bound, lemma_grid_digits, power_of_two};
use crate::tensor::copy_slice;
use crate::fft::{all_canon, fes, lemma_fes_canon};
use crate::field::{
    canon, fadd, fint, fmul, fone, fsub, fsum, fzero, lemma_fadd_assoc, lemma_fadd_comm, lemma_fadd_zero,
    lemma_fint_hom, lemma_fmul_assoc, lemma_fmul_comm, lemma_fmul_dist, lemma_fmul_one, lemma_fmul_zero,
    lemma_fsub_fadd, lemma_ops_canon, Fe, GoldilocksExt2,
};
use vstd::arithmetic::power2::{
    lemma2_to64, lemma_pow2_adds, lemma_pow2_pos, lemma_pow2_strictly_increases, lemma_pow2_unfold, pow2,
};
use vstd::prelude::*;

verus! {

/// `x` at a corner whose coordinate is one, `1 - x` at a corner whose coordinate is zero.
pub open spec fn pick(bit: int, x: Fe) -> Fe {
    if bit == 1 {
        x
    } else {
        fsub(fone(), x)
    }
}

/// The polynomial that is one at the corner `i` and zero at the others, at `p`.
pub open spec fn chi(i: int, p: Seq<Fe>) -> Fe
    decreases p.len(),
{
    if p.len() == 0 {
        fone()
    } else {
        fmul(pick(i % 2, p[0]), chi(i / 2, p.skip(1)))
    }
}

/// One entry of a table times the polynomial of its corner.
pub open spec fn mle_term(e: Seq<Fe>, p: Seq<Fe>) -> spec_fn(int) -> Fe {
    |i: int| fmul(e[i], chi(i, p))
}

/// The multilinear extension of the table `e` at `p`.
pub open spec fn mle_eval(e: Seq<Fe>, p: Seq<Fe>) -> Fe {
    fsum(pow2(p.len()), mle_term(e, p))
}

/// `(1 - x) * a + x * b`.
pub open spec fn between(a: Fe, b: Fe, x: Fe) -> Fe {
    fadd(fmul(a, fsub(fone(), x)), fmul(b, x))
}

/// The table of the extension with its first variable set to `x`.
pub open spec fn fold(e: Seq<Fe>, x: Fe) -> Seq<Fe> {
    Seq::new((e.len() / 2) as nat, |j: int| between(e[2 * j], e[2 * j + 1], x))
}

/// The lowest `n` bits of `i`, lowest first, as field elements.
pub open spec fn bits(i: int, n: nat) -> Seq<Fe>
    decreases n,
{
    if n == 0 {
        Seq::empty()
    } else {
        seq![fint(i % 2)] + bits(i / 2, (n - 1) as nat)
    }
}

/// `n` zeros.
pub open spec fn zeros(n: nat) -> Seq<Fe> {
    Seq::new(n, |i: int| fzero())
}

/// The product over `i` of `a[i] * b[i] + (1 - a[i]) * (1 - b[i])`, as far as both reach.
pub open spec fn identity_at(a: Seq<Fe>, b: Seq<Fe>, n: nat) -> Fe
    decreases n,
{
    if n == 0 {
        fone()
    } else {
        let k = n - 1;
        fmul(
            identity_at(a, b, k as nat),
            fadd(fmul(a[k], b[k]), fmul(fsub(fone(), a[k]), fsub(fone(), b[k]))),
        )
    }
}

pub proof fn lemma_chi_canon(i: int, p: Seq<Fe>)
    ensures
        canon(chi(i, p)),
{
    if p.len() > 0 {
        lemma_ops_canon(pick(i % 2, p[0]), chi(i / 2, p.skip(1)));
    }
}

/// A sum over pairs of neighbours.
pub proof fn lemma_fsum_pairs(m: nat, f: spec_fn(int) -> Fe)
    ensures
        fsum(2 * m, f) == fsum(m, |j: int| fadd(f(2 * j), f(2 * j + 1))),
    decreases m,
{
    let g = |j: int| fadd(f(2 * j), f(2 * j + 1));
    if m > 0 {
        let k = (m - 1) as nat;
        lemma_fsum_pairs(k, f);
        assert(fsum(2 * m, f) == fadd(fsum((2 * m - 1) as nat, f), f(2 * m - 1)));
        assert(fsum((2 * m - 1) as nat, f) == fadd(fsum(2 * k, f), f(2 * k as int)));
        lemma_fadd_assoc(fsum(2 * k, f), f(2 * k as int), f(2 * k as int + 1));
        assert(fsum(m, g) == fadd(fsum(k, g), g(m - 1)));
    }
}

/// Setting the first variable halves the table.
pub proof fn lemma_mle_fold(e: Seq<Fe>, p: Seq<Fe>)
    requires
        p.len() > 0,
        e.len() == pow2(p.len()),
    ensures
        mle_eval(e, p) == mle_eval(fold(e, p[0]), p.skip(1)),
        fold(e, p[0]).len() == pow2((p.len() - 1) as nat),
        all_canon(fold(e, p[0])),
{
    let n = p.len();
    let m = pow2((n - 1) as nat);
    let q = p.skip(1);
    let x = p[0];
    let d = fold(e, x);
    lemma_pow2_unfold(n);
    let f = mle_term(e, p);
    lemma_fsum_pairs(m, f);
    let g = |j: int| fadd(f(2 * j), f(2 * j + 1));
    assert forall|j: int| 0 <= j < m implies #[trigger] g(j) == mle_term(d, q)(j) by {
        let c = chi(j, q);
        assert((2 * j) % 2 == 0 && (2 * j) / 2 == j && (2 * j + 1) % 2 == 1 && (2 * j + 1) / 2 == j);
        assert(chi(2 * j, p) == fmul(fsub(fone(), x), c));
        assert(chi(2 * j + 1, p) == fmul(x, c));
        lemma_fmul_assoc(e[2 * j], fsub(fone(), x), c);
        lemma_fmul_assoc(e[2 * j + 1], x, c);
        lemma_fmul_dist(c, fmul(e[2 * j], fsub(fone(), x)), fmul(e[2 * j + 1], x));
    }
    lemma_fsum_eq(m, g, mle_term(d, q));
    assert forall|j: int| 0 <= j < d.len() implies canon(#[trigger] d[j]) by {
        lemma_ops_canon(fmul(e[2 * j], fsub(fone(), x)), fmul(e[2 * j + 1], x));
    }
}

/// Without variables the extension is the only entry.
pub proof fn lemma_mle_empty(e: Seq<Fe>, p: Seq<Fe>)
    requires
        p.len() == 0,
        e.len() == 1,
        canon(e[0]),
    ensures
        mle_eval(e, p) == e[0],
{
    lemma2_to64();
    let f = mle_term(e, p);
    assert(fsum(1, f) == fadd(fsum(0, f), f(0)));
    lemma_fmul_one(e[0]);
    lemma_fadd_zero(e[0]);
}

/// Equal tables have equal extensions.
pub proof fn lemma_mle_eq(d: Seq<Fe>, e: Seq<Fe>, p: Seq<Fe>)
    requires
        forall|i: int| 0 <= i < pow2(p.len()) ==> #[trigger] d[i] == e[i],
    ensures
        mle_eval(d, p) == mle_eval(e, p),
{
    assert forall|i: int| 0 <= i < pow2(p.len()) implies #[trigger] mle_term(d, p)(i) == mle_term(e, p)(i) by {
        assert(d[i] == e[i]);
    }
    lemma_fsum_eq(pow2(p.len()), mle_term(d, p), mle_term(e, p));
}

/// The extension of a combination of two tables is the combination of their extensions.
pub proof fn lemma_mle_linear(a: Seq<Fe>, b: Seq<Fe>, c: Seq<Fe>, u: Fe, v: Fe, p: Seq<Fe>)
    requires
        forall|i: int| 0 <= i < pow2(p.len()) ==> #[trigger] c[i] == fadd(fmul(a[i], u), fmul(b[i], v)),
    ensures
        mle_eval(c, p) == fadd(fmul(mle_eval(a, p), u), fmul(mle_eval(b, p), v)),
{
    let n = pow2(p.len());
    let f = |i: int| fmul(u, mle_term(a, p)(i));
    let g = |i: int| fmul(v, mle_term(b, p)(i));
    let h = |i: int| fadd(f(i), g(i));
    assert forall|i: int| 0 <= i < n implies #[trigger] mle_term(c, p)(i) == h(i) by {
        let x = chi(i, p);
        assert(c[i] == fadd(fmul(a[i], u), fmul(b[i], v)));
        lemma_fmul_comm(fadd(fmul(a[i], u), fmul(b[i], v)), x);
        lemma_fmul_dist(x, fmul(a[i], u), fmul(b[i], v));
        lemma_fmul_comm(x, fmul(a[i], u));
        lemma_fmul_comm(x, fmul(b[i], v));
        lemma_fmul_comm(a[i], u);
        lemma_fmul_comm(b[i], v);
        lemma_fmul_assoc(u, a[i], x);
        lemma_fmul_assoc(v, b[i], x);
    }
    lemma_fsum_eq(n, mle_term(c, p), h);
    lemma_fsum_add(n, f, g);
    lemma_fsum_scale(n, u, mle_term(a, p));
    lemma_fsum_scale(n, v, mle_term(b, p));
    lemma_fmul_comm(u, mle_eval(a, p));
    lemma_fmul_comm(v, mle_eval(b, p));
}

pub proof fn lemma_mle_canon(e: Seq<Fe>, p: Seq<Fe>)
    ensures
        canon(mle_eval(e, p)),
{
    lemma_fsum_canon(pow2(p.len()), mle_term(e, p));
}

/// The polynomial of a corner factors along the coordinates.
pub proof fn lemma_chi_append(i: int, p: Seq<Fe>, q: Seq<Fe>)
    requires
        0 <= i,
    ensures
        chi(i, p + q) == fmul(chi(i % pow2(p.len()) as int, p), chi(i / pow2(p.len()) as int, q)),
    decreases p.len(),
{
    lemma2_to64();
    lemma_chi_canon(i, q);
    if p.len() == 0 {
        assert(p + q =~= q);
        lemma_fmul_one(chi(i, q));
        assert(i % 1 == 0 && i / 1 == i);
    } else {
        let n = p.len();
        let m = pow2((n - 1) as nat) as int;
        lemma_pow2_unfold(n);
        lemma_pow2_pos((n - 1) as nat);
        assert((p + q).skip(1) =~= p.skip(1) + q);
        lemma_chi_append(i / 2, p.skip(1), q);
        let r = i % (2 * m);
        vstd::arithmetic::div_mod::lemma_fundamental_div_mod(i, 2 * m);
        let t = i / (2 * m);
        assert(i == 2 * (m * t) + r) by (nonlinear_arith)
            requires
                i == (2 * m) * t + r,
        ;
        assert(i % 2 == r % 2 && i / 2 == m * t + r / 2);
        assert(t * m + r / 2 == m * t + r / 2) by (nonlinear_arith);
        lemma_grid_digits(t, r / 2, m);
        let c = pick(i % 2, p[0]);
        assert(chi(r, p) == fmul(c, chi(r / 2, p.skip(1))));
        lemma_fmul_assoc(c, chi(r / 2, p.skip(1)), chi(t, q));
    }
}

/// A sum over the places of a grid is the sum over its rows of the sums along them.
pub proof fn lemma_fsum_grid(a: nat, b: nat, f: spec_fn(int) -> Fe)
    ensures
        fsum(a * b, f) == fsum(a, |i: int| fsum(b, |j: int| f(i * b + j))),
    decreases a,
{
    let rows = |i: int| fsum(b, |j: int| f(i * b + j));
    if a == 0 {
        assert(a * b == 0) by (nonlinear_arith)
            requires
                a == 0,
        ;
    } else {
        let c = (a - 1) as nat;
        assert(a * b == c * b + b) by (nonlinear_arith)
            requires
                a == c + 1,
        ;
        lemma_fsum_grid(c, b, f);
        lemma_fsum_split(c * b, b, f);
        lemma_fsum_eq(b, |i: int| f(c * b + i), |j: int| f((a - 1) * b + j));
        assert(fsum(a, rows) == fadd(fsum(c, rows), rows(a - 1)));
    }
}

/// The rows of a table that is read as a grid with rows of length `m`.
pub open spec fn table_row(e: Seq<Fe>, j: int, m: nat) -> Seq<Fe> {
    Seq::new(m, |i: int| e[j * m + i])
}

/// The extensions of the rows of a table of `n` rows, each with `2^p.len()` entries.
pub open spec fn row_evals(e: Seq<Fe>, p: Seq<Fe>, n: nat) -> Seq<Fe> {
    Seq::new(n, |j: int| mle_eval(table_row(e, j, pow2(p.len())), p))
}

/// An extension can be taken along the low variables first and along the high ones then.
pub proof fn lemma_mle_append(e: Seq<Fe>, p: Seq<Fe>, q: Seq<Fe>)
    requires
        e.len() == pow2(p.len() + q.len()),
    ensures
        mle_eval(e, p + q) == mle_eval(row_evals(e, p, pow2(q.len())), q),
{
    let m = pow2(p.len());
    let n = pow2(q.len());
    lemma_pow2_adds(p.len(), q.len());
    lemma_pow2_pos(p.len());
    assert(n * m == m * n) by (nonlinear_arith);
    let f = mle_term(e, p + q);
    let d = row_evals(e, p, n);
    lemma_fsum_grid(n, m, f);
    let rows = |j: int| fsum(m, |i: int| f(j * m + i));
    assert forall|j: int| 0 <= j < n implies #[trigger] rows(j) == mle_term(d, q)(j) by {
        let row = table_row(e, j, m);
        let cq = chi(j, q);
        let g = |i: int| f(j * m + i);
        let h = mle_term(row, p);
        let k = |i: int| fmul(cq, h(i));
        assert forall|i: int| 0 <= i < m implies #[trigger] g(i) == k(i) by {
            assert(j * m >= 0) by (nonlinear_arith)
                requires
                    j >= 0,
                    m >= 0,
            ;
            lemma_chi_append(j * m + i, p, q);
            lemma_grid_digits(j, i, m as int);
            lemma_fmul_assoc(e[j * m + i], chi(i, p), cq);
            lemma_fmul_comm(cq, h(i));
            lemma_grid_bound(j, n as int, i, m as int);
            assert(row[i] == e[j * m + i]);
        }
        lemma_fsum_eq(m, g, k);
        lemma_fsum_scale(m, cq, h);
        lemma_fmul_comm(cq, fsum(m, h));
        assert(d[j] == mle_eval(row, p));
    }
    lemma_fsum_eq(n, rows, mle_term(d, q));
}

pub proof fn lemma_bits_len(i: int, n: nat)
    ensures
        bits(i, n).len() == n,
    decreases n,
{
    if n > 0 {
        lemma_bits_len(i / 2, (n - 1) as nat);
    }
}

/// At a corner, the polynomial of a corner is one or zero.
pub proof fn lemma_chi_bits(i: int, k: int, n: nat)
    requires
        0 <= i < pow2(n),
        0 <= k < pow2(n),
    ensures
        chi(i, bits(k, n)) == if i == k {
            fone()
        } else {
            fzero()
        },
    decreases n,
{
    lemma2_to64();
    lemma_bits_len(k, n);
    if n > 0 {
        lemma_pow2_unfold(n);
        let b = bits(k, n);
        lemma_bits_len(k / 2, (n - 1) as nat);
        assert(b.skip(1) =~= bits(k / 2, (n - 1) as nat));
        lemma_chi_bits(i / 2, k / 2, (n - 1) as nat);
        lemma_fint_hom(1, k % 2);
        let c = chi(i / 2, b.skip(1));
        lemma_chi_canon(i / 2, b.skip(1));
        lemma_fmul_one(c);
        lemma_fmul_zero(c);
        assert(b[0] == fint(k % 2));
        assert(fint(1) == fone() && fint(0) == fzero());
        lemma_fmul_zero(pick(i % 2, b[0]));
    }
}

/// At a corner, the multilinear extension of a table is the entry of that corner.
pub proof fn law_mle_at_corner(e: Seq<Fe>, k: int, n: nat)
    requires
        e.len() == pow2(n),
        0 <= k < pow2(n),
        all_canon(e),
    ensures
        mle_eval(e, bits(k, n)) == e[k],
{
    let p = bits(k, n);
    lemma_bits_len(k, n);
    let f = mle_term(e, p);
    assert forall|i: int| 0 <= i < pow2(n) && i != k implies #[trigger] f(i) == fzero() by {
        lemma_chi_bits(i, k, n);
        lemma_fmul_zero(e[i]);
    }
    lemma_chi_bits(k, k, n);
    lemma_fmul_one(e[k]);
    lemma_fsum_single(pow2(n), k, f);
}

/// Zeros for the low variables read every `2^k`-th entry.
pub proof fn lemma_mle_low_zeros(e: Seq<Fe>, k: nat, p: Seq<Fe>)
    requires
        e.len() == pow2(k + p.len()),
        all_canon(e),
    ensures
        mle_eval(e, zeros(k) + p) == mle_eval(Seq::new(pow2(p.len()), |j: int| e[j * pow2(k)]), p),
{
    lemma_mle_append(e, zeros(k), p);
    let n = pow2(p.len());
    let m = pow2(k);
    lemma_pow2_adds(k, p.len());
    lemma_pow2_pos(k);
    let d = Seq::new(n, |j: int| e[j * m]);
    let r = row_evals(e, zeros(k), n);
    assert forall|j: int| 0 <= j < pow2(p.len()) implies #[trigger] r[j] == d[j] by {
        let row = table_row(e, j, m);
        lemma_zeros_bits(k);
        assert forall|i: int| 0 <= i < row.len() implies canon(#[trigger] row[i]) by {
            lemma_grid_bound(j, n as int, i, m as int);
            assert(n * m == m * n) by (nonlinear_arith);
            assert(canon(e[j * m + i]));
        }
        law_mle_at_corner(row, 0, k);
        assert(row[0] == e[j * m + 0]);
    }
    lemma_mle_eq(r, d, p);
}

/// Zeros for the high variables read the first entries.
pub proof fn lemma_mle_high_zeros(e: Seq<Fe>, p: Seq<Fe>, k: nat)
    requires
        e.len() == pow2(p.len() + k),
    ensures
        mle_eval(e, p + zeros(k)) == mle_eval(e.take(pow2(p.len()) as int), p),
{
    lemma_mle_append(e, p, zeros(k));
    let m = pow2(p.len());
    lemma_pow2_pos(k);
    lemma_pow2_adds(p.len(), k);
    let r = row_evals(e, p, pow2(k));
    assert forall|j: int| 0 <= j < r.len() implies canon(#[trigger] r[j]) by {
        lemma_mle_canon(table_row(e, j, m), p);
    }
    lemma_zeros_bits(k);
    law_mle_at_corner(r, 0, k);
    let row = table_row(e, 0, m);
    assert forall|i: int| 0 <= i < pow2(p.len()) implies #[trigger] row[i] == e.take(m as int)[i] by {
        assert(m * pow2(k) >= m) by (nonlinear_arith)
            requires
                pow2(k) >= 1,
                m >= 0,
        ;
        assert(0 * m + i == i);
    }
    lemma_mle_eq(row, e.take(m as int), p);
}

pub proof fn lemma_zeros_bits(k: nat)
    ensures
        zeros(k) == bits(0, k),
    decreases k,
{
    if k > 0 {
        lemma_zeros_bits((k - 1) as nat);
        assert(fint(0) == fzero());
        assert(zeros(k) =~= seq![fint(0int % 2)] + zeros((k - 1) as nat));
    }
    assert(zeros(0) =~= Seq::empty());
}

/// The entries of a table at the indices `i`, `i + m`, `i + 2 * m` and so on.
pub open spec fn table_column(e: Seq<Fe>, i: int, m: nat, n: nat) -> Seq<Fe> {
    Seq::new(n, |j: int| e[j * m + i])
}

/// The extensions of the columns of a table of `2^q.len()` rows, each with `m` entries.
pub open spec fn column_evals(e: Seq<Fe>, q: Seq<Fe>, m: nat) -> Seq<Fe> {
    Seq::new(m, |i: int| mle_eval(table_column(e, i, m, pow2(q.len())), q))
}

/// The polynomials of all corners add up to one.
pub proof fn lemma_chi_sum(p: Seq<Fe>)
    ensures
        fsum(pow2(p.len()), |i: int| chi(i, p)) == fone(),
    decreases p.len(),
{
    lemma2_to64();
    let f = |i: int| chi(i, p);
    if p.len() == 0 {
        assert(fsum(1, f) == fadd(fsum(0, f), f(0)));
        lemma_fadd_zero(fone());
        lemma_fadd_comm(fzero(), fone());
    } else {
        let q = p.skip(1);
        let m = pow2(q.len());
        lemma_pow2_unfold(p.len());
        lemma_chi_sum(q);
        lemma_fsum_pairs(m, f);
        let g = |j: int| fadd(f(2 * j), f(2 * j + 1));
        let h = |j: int| chi(j, q);
        assert forall|j: int| 0 <= j < m implies #[trigger] g(j) == h(j) by {
            let x = chi(j, q);
            let a = fsub(fone(), p[0]);
            assert(2 * j / 2 == j && (2 * j + 1) / 2 == j && 2 * j % 2 == 0 && (2 * j + 1) % 2 == 1);
            lemma_fmul_comm(a, x);
            lemma_fmul_comm(p[0], x);
            lemma_fmul_dist(x, a, p[0]);
            lemma_fsub_fadd(fone(), p[0]);
            lemma_chi_canon(j, q);
            lemma_fmul_one(x);
        }
        lemma_fsum_eq(m, g, h);
    }
}

/// The extension of a table whose entries are all the same.
pub proof fn lemma_mle_constant(e: Seq<Fe>, p: Seq<Fe>, x: Fe)
    requires
        canon(x),
        forall|i: int| 0 <= i < pow2(p.len()) ==> #[trigger] e[i] == x,
    ensures
        mle_eval(e, p) == x,
{
    let n = pow2(p.len());
    let f = |i: int| chi(i, p);
    let g = |i: int| fmul(x, f(i));
    assert forall|i: int| 0 <= i < n implies #[trigger] mle_term(e, p)(i) == g(i) by {
        assert(e[i] == x);
    }
    lemma_fsum_eq(n, mle_term(e, p), g);
    lemma_fsum_scale(n, x, f);
    lemma_chi_sum(p);
    lemma_fmul_one(x);
}

/// Setting the high variables first and the low ones then is evaluating at once.
pub proof fn law_fix_high_variables(e: Seq<Fe>, p: Seq<Fe>, q: Seq<Fe>)
    requires
        e.len() == pow2(p.len() + q.len()),
    ensures
        mle_eval(column_evals(e, q, pow2(p.len())), p) == mle_eval(e, p + q),
{
    let m = pow2(p.len());
    let n = pow2(q.len());
    lemma_mle_append(e, p, q);
    let d = row_evals(e, p, n);
    let c = column_evals(e, q, m);
    let f = |j: int, i: int| fmul(fmul(e[j * m + i], chi(i, p)), chi(j, q));
    assert forall|j: int| 0 <= j < n implies #[trigger] mle_term(d, q)(j) == fsum(m, |i: int| f(j, i)) by {
        let row = table_row(e, j, m);
        let h = mle_term(row, p);
        let cq = chi(j, q);
        lemma_fsum_scale(m, cq, h);
        lemma_fmul_comm(cq, fsum(m, h));
        let u = |i: int| fmul(cq, h(i));
        let v = |i: int| f(j, i);
        assert forall|i: int| 0 <= i < m implies #[trigger] u(i) == v(i) by {
            lemma_fmul_comm(cq, h(i));
        }
        lemma_fsum_eq(m, u, v);
    }
    assert forall|i: int| 0 <= i < m implies #[trigger] mle_term(c, p)(i) == fsum(n, |j: int| f(j, i)) by {
        let col = table_column(e, i, m, n);
        let h = mle_term(col, q);
        let cp = chi(i, p);
        lemma_fsum_scale(n, cp, h);
        lemma_fmul_comm(cp, fsum(n, h));
        let u = |j: int| fmul(cp, h(j));
        let v = |j: int| f(j, i);
        assert forall|j: int| 0 <= j < n implies #[trigger] u(j) == v(j) by {
            let x = e[j * m + i];
            let cq = chi(j, q);
            lemma_fmul_comm(cp, fmul(x, cq));
            lemma_fmul_assoc(x, cq, cp);
            lemma_fmul_comm(cq, cp);
            lemma_fmul_assoc(x, cp, cq);
        }
        lemma_fsum_eq(n, u, v);
    }
    lemma_fsum_eq(n, mle_term(d, q), |j: int| fsum(m, |i: int| f(j, i)));
    lemma_fsum_eq(m, mle_term(c, p), |i: int| fsum(n, |j: int| f(j, i)));
    lemma_fsum_swap(n, m, f);
}

pub proof fn lemma_identity_ext(a: Seq<Fe>, b: Seq<Fe>, c: Seq<Fe>, d: Seq<Fe>, n: nat)
    requires
        forall|i: int| 0 <= i < n ==> #[trigger] a[i] == c[i],
        forall|i: int| 0 <= i < n ==> #[trigger] b[i] == d[i],
    ensures
        identity_at(a, b, n) == identity_at(c, d, n),
    decreases n,
{
    if n > 0 {
        lemma_identity_ext(a, b, c, d, (n - 1) as nat);
        assert(a[n - 1] == c[n - 1] && b[n - 1] == d[n - 1]);
    }
}

/// The identity polynomial does not depend on the order of its arguments.
pub proof fn lemma_identity_swap(a: Seq<Fe>, b: Seq<Fe>, n: nat)
    ensures
        identity_at(a, b, n) == identity_at(b, a, n),
    decreases n,
{
    if n > 0 {
        lemma_identity_swap(a, b, (n - 1) as nat);
        let k = n - 1;
        lemma_fmul_comm(a[k], b[k]);
        lemma_fmul_comm(fsub(fone(), a[k]), fsub(fone(), b[k]));
    }
}

/// The identity polynomial with the first factor split off.
pub proof fn lemma_identity_first(a: Seq<Fe>, b: Seq<Fe>, n: nat)
    requires
        n > 0,
        n <= a.len(),
        n <= b.len(),
    ensures
        identity_at(a, b, n) == fmul(
            fadd(fmul(a[0], b[0]), fmul(fsub(fone(), a[0]), fsub(fone(), b[0]))),
            identity_at(a.skip(1), b.skip(1), (n - 1) as nat),
        ),
    decreases n,
{
    let t = fadd(fmul(a[0], b[0]), fmul(fsub(fone(), a[0]), fsub(fone(), b[0])));
    lemma_ops_canon(fmul(a[0], b[0]), fmul(fsub(fone(), a[0]), fsub(fone(), b[0])));
    lemma_fmul_one(t);
    if n == 1 {
        reveal_with_fuel(identity_at, 2);
    } else {
        let k = n - 1;
        lemma_identity_first(a, b, k as nat);
        let u = fadd(fmul(a[k], b[k]), fmul(fsub(fone(), a[k]), fsub(fone(), b[k])));
        let (a1, b1) = (a.skip(1), b.skip(1));
        assert(a1[k - 1] == a[k] && b1[k - 1] == b[k]);
        assert(identity_at(a1, b1, k as nat) == fmul(identity_at(a1, b1, (k - 1) as nat), u));
        lemma_fmul_assoc(t, identity_at(a1, b1, (k - 1) as nat), u);
    }
}

/// The identity polynomial with one argument at a corner is the polynomial of that corner.
pub proof fn law_identity_at_corner(i: int, p: Seq<Fe>)
    requires
        all_canon(p),
    ensures
        identity_at(bits(i, p.len()), p, p.len()) == chi(i, p),
    decreases p.len(),
{
    if p.len() > 0 {
        let n = p.len();
        let b = bits(i, n);
        let x = p[0];
        lemma_bits_len(i, n);
        lemma_bits_len(i / 2, (n - 1) as nat);
        lemma_identity_first(b, p, n);
        assert(b.skip(1) =~= bits(i / 2, (n - 1) as nat));
        assert forall|k: int| 0 <= k < p.skip(1).len() implies canon(#[trigger] p.skip(1)[k]) by {
            assert(canon(p[k + 1]));
        }
        law_identity_at_corner(i / 2, p.skip(1));
        assert(canon(p[0]));
        assert(fint(1) == fone() && fint(0) == fzero());
        lemma_ops_canon(fone(), x);
        lemma_fint_hom(1, i % 2);
        lemma_fmul_one(x);
        lemma_fmul_one(fsub(fone(), x));
        lemma_fmul_zero(x);
        lemma_fmul_zero(fsub(fone(), x));
        lemma_fadd_zero(x);
        lemma_fadd_zero(fsub(fone(), x));
    }
}

/// The low bits of an index followed by the high ones.
pub proof fn lemma_bits_append(i: int, n: nat, j: int, m: nat)
    requires
        0 <= i < pow2(n),
        0 <= j,
    ensures
        bits(i, n) + bits(j, m) == bits(j * pow2(n) + i, n + m),
    decreases n,
{
    lemma2_to64();
    lemma_bits_len(i, n);
    if n == 0 {
        assert(j * pow2(n) == j) by (nonlinear_arith)
            requires
                pow2(n) == 1,
        ;
        assert(bits(i, n) + bits(j, m) =~= bits(j, m));
    } else {
        let k = pow2((n - 1) as nat) as int;
        lemma_pow2_unfold(n);
        lemma_bits_append(i / 2, (n - 1) as nat, j, m);
        let t = j * pow2(n) + i;
        assert(t == 2 * (j * k) + i) by (nonlinear_arith)
            requires
                t == j * pow2(n) + i,
                pow2(n) == 2 * k,
        ;
        assert(t % 2 == i % 2 && t / 2 == j * k + i / 2);
        assert(bits(t, n + m) == seq![fint(t % 2)] + bits(t / 2, (n + m - 1) as nat));
        assert(bits(i, n) + bits(j, m) =~= seq![fint(i % 2)] + (bits(i / 2, (n - 1) as nat) + bits(j, m)));
    }
}

/// The lowest `bitlen` bits of `num`, lowest first, as field elements.
pub fn to_bits(num: usize, bitlen: usize) -> (r: Vec<GoldilocksExt2>)
    ensures
        fes(r@) == bits(num as int, bitlen as nat),
{
    let mut rest: usize = num;
    let mut r: Vec<GoldilocksExt2> = Vec::with_capacity(bitlen);
    let mut i: usize = 0;
    let ghost all = bits(num as int, bitlen as nat);
    proof {
        assert(fes(r@) + all =~= all);
    }
    while i < bitlen
        invariant
            i <= bitlen,
            fes(r@) + bits(rest as int, (bitlen - i) as nat) == all,
        decreases bitlen - i,
    {
        let ghost done = fes(r@);
        let ghost tail = bits((rest / 2) as int, (bitlen - i - 1) as nat);
        let bit: u64 = (rest % 2) as u64;
        r.push(GoldilocksExt2::from_canonical_u64(bit));
        proof {
            assert(fes(r@) =~= done.push(fint(rest as int % 2)));
            assert(done + (seq![fint(rest as int % 2)] + tail) =~= fes(r@) + tail);
        }
        rest = rest / 2;
        i = i + 1;
    }
    proof {
        assert(fes(r@) + bits(rest as int, 0) =~= fes(r@));
    }
    r
}

/// One minus `x`.
pub(crate) fn complement(x: &GoldilocksExt2) -> (r: GoldilocksExt2)
    ensures
        r.fe() == fsub(fone(), x.fe()),
{
    GoldilocksExt2::one().minus(x)
}

/// The multilinear extension of the table `evals` at `point`.
pub fn evaluate(evals: &[GoldilocksExt2], point: &[GoldilocksExt2]) -> (r: GoldilocksExt2)
    requires
        evals@.len() == pow2(point@.len()),
    ensures
        r.fe() == mle_eval(fes(evals@), fes(point@)),
{
    let ghost e = fes(evals@);
    let ghost p = fes(point@);
    let mut cur: Vec<GoldilocksExt2> = copy_slice(evals);
    let mut k: usize = 0;
    proof {
        lemma_fes_canon(evals@);
        assert(p.skip(0) =~= p);
    }
    while k < point.len()
        invariant
            k <= point.len(),
            p == fes(point@),
            cur@.len() == pow2((point@.len() - k) as nat),
            mle_eval(fes(cur@), p.skip(k as int)) == mle_eval(e, p),
        decreases point.len() - k,
    {
        let x = point[k];
        let y = complement(&x);
        let ghost q = p.skip(k as int);
        let half: usize = cur.len() / 2;
        proof {
            lemma_pow2_unfold((point@.len() - k) as nat);
            lemma_mle_fold(fes(cur@), q);
        }
        let mut next: Vec<GoldilocksExt2> = Vec::with_capacity(half);
        let mut j: usize = 0;
        while j < half
            invariant
                j <= half,
                half * 2 == cur@.len(),
                x.fe() == q[0],
                y.fe() == fsub(fone(), x.fe()),
                next@.len() == j,
                forall|i: int| 0 <= i < j ==> (#[trigger] next@[i]).fe() == fold(fes(cur@), q[0])[i],
            decreases half - j,
        {
            assert(cur@.len() == cur.len());
            let lo = cur[2 * j].times(&y);
            let hi = cur[2 * j + 1].times(&x);
            next.push(lo.plus(&hi));
            j = j + 1;
        }
        proof {
            assert(fes(next@) =~= fold(fes(cur@), q[0]));
            assert(q.skip(1) =~= p.skip(k + 1));
        }
        cur = next;
        k = k + 1;
    }
    proof {
        lemma2_to64();
        lemma_fes_canon(cur@);
        assert(canon(fes(cur@)[0]));
        lemma_mle_empty(fes(cur@), p.skip(k as int));
    }
    cur[0]
}

/// The polynomials of all corners at `point`.
pub fn compute_betas_eval(point: &[GoldilocksExt2]) -> (r: Vec<GoldilocksExt2>)
    requires
        pow2(point@.len()) <= usize::MAX,
    ensures
        r@.len() == pow2(point@.len()),
        forall|i: int| 0 <= i < r@.len() ==> (#[trigger] r@[i]).fe() == chi(i, fes(point@)),
{
    let ghost p = fes(point@);
    let mut cur: Vec<GoldilocksExt2> = vec![GoldilocksExt2::one()];
    let mut k: usize = 0;
    proof {
        lemma2_to64();
    }
    while k < point.len()
        invariant
            k <= point.len(),
            p == fes(point@),
            pow2(point@.len()) <= usize::MAX,
            cur@.len() == pow2(k as nat),
            forall|i: int| 0 <= i < cur@.len() ==> (#[trigger] cur@[i]).fe() == chi(i, p.take(k as int)),
        decreases point.len() - k,
    {
        let x = point[k];
        let y = complement(&x);
        let half: usize = cur.len();
        let ghost q = seq![p[k as int]];
        let ghost pk = p.take(k as int);
        proof {
            assert(p.take(k + 1) =~= pk + q);
            lemma_pow2_unfold((k + 1) as nat);
            if k + 1 < point@.len() {
                lemma_pow2_strictly_increases((k + 1) as nat, point@.len());
            }
            assert forall|b: int| 0 <= b < 2 implies chi(b, q) == pick(b, q[0]) by {
                assert(q.skip(1).len() == 0);
                assert(chi(b / 2, q.skip(1)) == fone());
                assert(canon(p[k as int])) by {
                    lemma_fes_canon(point@);
                }
                lemma_ops_canon(fone(), q[0]);
                lemma_fmul_one(pick(b % 2, q[0]));
            }
        }
        let mut next: Vec<GoldilocksExt2> = Vec::with_capacity(half);
        let mut j: usize = 0;
        while j < half
            invariant
                j <= half,
                half == cur@.len(),
                half == pow2(pk.len()),
                y.fe() == fsub(fone(), q[0]),
                chi(0, q) == pick(0, q[0]),
                forall|i: int| 0 <= i < half ==> (#[trigger] cur@[i]).fe() == chi(i, pk),
                next@.len() == j,
                forall|i: int| 0 <= i < j ==> (#[trigger] next@[i]).fe() == chi(i, pk + q),
            decreases half - j,
        {
            next.push(cur[j].times(&y));
            proof {
                lemma_chi_append(j as int, pk, q);
                lemma_grid_digits(0, j as int, half as int);
                assert(0 * half + j == j) by (nonlinear_arith);
            }
            j = j + 1;
        }
        j = 0;
        while j < half
            invariant
                j <= half,
                half == cur@.len(),
                half == pow2(pk.len()),
                x.fe() == q[0],
                chi(1, q) == pick(1, q[0]),
                forall|i: int| 0 <= i < half ==> (#[trigger] cur@[i]).fe() == chi(i, pk),
                next@.len() == half + j,
                forall|i: int| 0 <= i < half + j ==> (#[trigger] next@[i]).fe() == chi(i, pk + q),
            decreases half - j,
        {
            next.push(cur[j].times(&x));
            proof {
                lemma_chi_append(half + j, pk, q);
                lemma_grid_digits(1, j as int, half as int);
                assert(1 * half + j == half + j) by (nonlinear_arith);
            }
            j = j + 1;
        }
        cur = next;
        k = k + 1;
    }
    proof {
        assert(p.take(p.len() as int) =~= p);
    }
    cur
}

/// The product over the common places of `a * b + (1 - a) * (1 - b)`.
pub fn identity_eval(r1: &[GoldilocksExt2], r2: &[GoldilocksExt2]) -> (r: GoldilocksExt2)
    ensures
        r.fe() == identity_at(
            fes(r1@),
            fes(r2@),
            if r1@.len() <= r2@.len() {
                r1@.len()
            } else {
                r2@.len()
            },
        ),
{
    let n: usize = if r1.len() <= r2.len() {
        r1.len()
    } else {
        r2.len()
    };
    let mut acc = GoldilocksExt2::one();
    let mut i: usize = 0;
    while i < n
        invariant
            i <= n,
            n <= r1@.len(),
            n <= r2@.len(),
            acc.fe() == identity_at(fes(r1@), fes(r2@), i as nat),
        decreases n - i,
    {
        let a = r1[i];
        let b = r2[i];
        let both = a.times(&b);
        let neither = complement(&a).times(&complement(&b));
        acc = acc.times(&both.plus(&neither));
        i = i + 1;
    }
    acc
}

/// The multilinear extension of a table.
#[derive(Debug)]
pub struct Mle {
    pub evaluations: Vec<GoldilocksExt2>,
    pub num_vars: usize,
}

impl Mle {
    /// The table has one entry for each corner.
    pub open spec fn wf(self) -> bool {
        self.evaluations@.len() == pow2(self.num_vars as nat)
    }

    /// The field elements of the table.
    pub open spec fn table(self) -> Seq<Fe> {
        fes(self.evaluations@)
    }

    /// The extension of a table whose length is a power of two.
    pub fn new(evaluations: Vec<GoldilocksExt2>) -> (r: Self)
        requires
            is_pow2(evaluations@.len() as int),
        ensures
            r.wf(),
            r.evaluations == evaluations,
    {
        proof {
            let e = choose|e: nat| #[trigger] pow2(e) == evaluations@.len();
            lemma_pow2_pos(e);
            lemma_flog2_pow2(e);
        }
        let num_vars = floor_log2(evaluations.len());
        Mle { evaluations, num_vars }
    }

    /// The value of the extension at `point`.
    pub fn evaluate(&self, point: &[GoldilocksExt2]) -> (r: GoldilocksExt2)
        requires
            self.wf(),
            point@.len() == self.num_vars,
        ensures
            r.fe() == mle_eval(self.table(), fes(point@)),
    {
        evaluate(&self.evaluations, point)
    }

    /// Sets the last variables to the coordinates of `point`.
    pub fn fix_high_variables_in_place(&mut self, point: &[GoldilocksExt2])
        requires
            old(self).wf(),
            point@.len() <= old(self).num_vars,
        ensures
            final(self).wf(),
            final(self).num_vars == old(self).num_vars - point@.len(),
            final(self).table() == column_evals(
                old(self).table(),
                fes(point@),
                pow2((old(self).num_vars - point@.len()) as nat),
            ),
    {
        let low: usize = self.num_vars - point.len();
        let ghost e = self.table();
        let ghost q = fes(point@);
        let ghost n = pow2(point@.len());
        let ghost mm = pow2(low as nat);
        proof {
            lemma_pow2_adds(low as nat, point@.len());
            lemma_pow2_pos(point@.len());
            lemma_pow2_pos(low as nat);
            assert(self.evaluations@.len() == self.evaluations.len());
            assert(mm <= mm * n && n <= mm * n) by (nonlinear_arith)
                requires
                    mm >= 1,
                    n >= 1,
            ;
        }
        let rows: usize = power_of_two(point.len());
        let cols: usize = power_of_two(low);
        let mut out: Vec<GoldilocksExt2> = Vec::with_capacity(cols);
        let mut i: usize = 0;
        while i < cols
            invariant
                i <= cols,
                cols == mm,
                rows == n,
                n == pow2(point@.len()),
                q == fes(point@),
                e == fes(self.evaluations@),
                self.evaluations@.len() == mm * n,
                out@.len() == i,
                forall|k: int| 0 <= k < i ==> (#[trigger] out@[k]).fe() == column_evals(e, q, mm)[k],
            decreases cols - i,
        {
            let mut column: Vec<GoldilocksExt2> = Vec::with_capacity(rows);
            let mut j: usize = 0;
            while j < rows
                invariant
                    j <= rows,
                    i < cols,
                    cols == mm,
                    rows == n,
                    e == fes(self.evaluations@),
                    self.evaluations@.len() == mm * n,
                    column@.len() == j,
                    forall|k: int| 0 <= k < j ==> (#[trigger] column@[k]).fe() == e[k * mm + i],
                decreases rows - j,
            {
                proof {
                    lemma_grid_bound(j as int, n as int, i as int, mm as int);
                    assert(n * mm == mm * n) by (nonlinear_arith);
                    assert(self.evaluations@.len() == self.evaluations.len());
                    assert(j * mm >= 0) by (nonlinear_arith)
                        requires
                            j >= 0,
                            mm >= 0,
                    ;
                }
                column.push(self.evaluations[j * cols + i]);
                j = j + 1;
            }
            proof {
                assert(fes(column@) =~= table_column(e, i as int, mm, n));
            }
            out.push(evaluate(&column, point));
            i = i + 1;
        }
        proof {
            assert(fes(out@) =~= column_evals(e, q, mm));
        }
        self.evaluations = out;
        self.num_vars = low;
    }
}

} // verus!
