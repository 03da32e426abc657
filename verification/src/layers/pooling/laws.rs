//! Why the proof of a maximum layer works.
use crate::algebra::{
    fneg1, lemma_fadd_swap4, lemma_fneg1, lemma_fsub_neg, lemma_fsum_add, lemma_fsum_eq, lemma_fsum_scale,
    lemma_fsum_swap,
};
use crate::field::{
    canon, fadd, fint, fmul, fone, fpow, fsub, fsum, fzero, lemma_fadd_assoc, lemma_fadd_comm, lemma_fadd_zero,
    lemma_fint_hom, lemma_fmul_assoc, lemma_fmul_comm, lemma_fmul_dist, lemma_fmul_one, lemma_fmul_zero,
    lemma_ops_canon, Fe,
};
use crate::iop::delegation::{betas, law_betas_extension};
use crate::layers::pooling::claims::{batched, input_point, input_value, product_from, starting_sum, summand, weight};
use crate::layers::pooling::maxpool::{
    diff_product, half_width, lemma_pool_sizes, lemma_window_place, pool_table, window_place, zero_padded,
};
use crate::mle::{
    between, chi, fold, identity_at, lemma_identity_swap, lemma_mle_append, lemma_mle_canon, lemma_mle_fold,
    lemma_mle_linear, mle_eval, mle_term, row_evals, table_row,
};
use crate::arith::{lemma_grid_bound, lemma_grid_digits, npot};
use crate::number::Element;
use crate::tensor::pad::paddable;
use crate::tensor::pool::{is_pooled, poolable};
use crate::tensor::Tensor;
use vstd::arithmetic::power2::{lemma_pow2_adds, lemma_pow2_pos, lemma_pow2_unfold, pow2};
use vstd::prelude::*;

verus! {

/// The entries of the tables at `k`.
pub open spec fn entries_at(tables: Seq<Seq<Fe>>, k: int) -> Seq<Fe> {
    Seq::new(tables.len(), |i: int| tables[i][k])
}

/// The extensions of the tables at `p`.
pub open spec fn evals_at(tables: Seq<Seq<Fe>>, p: Seq<Fe>) -> Seq<Fe> {
    Seq::new(tables.len(), |i: int| mle_eval(tables[i], p))
}

/// The field elements of a table of integers.
pub open spec fn fints(data: Seq<Element>) -> Seq<Fe> {
    Seq::new(data.len(), |k: int| fint(data[k] as int))
}

/// The product vanishes with the product of the differences.
proof fn lemma_product_zero(tables: Seq<Seq<Fe>>, beta: Fe, k: int)
    requires
        tables.len() == 4,
        diff_product(tables, k) == fzero(),
        canon(beta),
    ensures
        product_from(beta, entries_at(tables, k), 4) == fzero(),
{
    let e = entries_at(tables, k);
    let (a, b, c, d) = (tables[0][k], tables[1][k], tables[2][k], tables[3][k]);
    reveal_with_fuel(product_from, 5);
    assert(product_from(beta, e, 4) == fmul(fmul(fmul(fmul(beta, a), b), c), d));
    lemma_fmul_assoc(beta, a, b);
    lemma_fmul_assoc(beta, fmul(a, b), c);
    lemma_fmul_assoc(beta, fmul(fmul(a, b), c), d);
    lemma_fmul_zero(beta);
}

/// The batched entries summed over all corners are the batched extensions.
proof fn lemma_batched_sum(tables: Seq<Seq<Fe>>, p: Seq<Fe>, b: Fe)
    ensures
        fsum(
            pow2(p.len()),
            |k: int| fmul(batched(entries_at(tables, k), b, tables.len()), chi(k, p)),
        ) == batched(evals_at(tables, p), b, tables.len()),
{
    let n = tables.len();
    let m = pow2(p.len());
    let f = |k: int, i: int| fmul(fpow(b, (i + 1) as nat), fmul(tables[i][k], chi(k, p)));
    let lhs = |k: int| fmul(batched(entries_at(tables, k), b, n), chi(k, p));
    let rows = |k: int| fsum(n, |i: int| f(k, i));
    assert forall|k: int| 0 <= k < m implies #[trigger] lhs(k) == rows(k) by {
        let e = entries_at(tables, k);
        let x = chi(k, p);
        let g = |i: int| fmul(e[i], fpow(b, (i + 1) as nat));
        let h = |i: int| fmul(x, g(i));
        lemma_fsum_scale(n, x, g);
        lemma_fmul_comm(x, fsum(n, g));
        let u = |i: int| f(k, i);
        assert forall|i: int| 0 <= i < n implies #[trigger] h(i) == u(i) by {
            let c = fpow(b, (i + 1) as nat);
            lemma_fmul_comm(x, fmul(e[i], c));
            lemma_fmul_comm(e[i], c);
            lemma_fmul_assoc(c, e[i], x);
        }
        lemma_fsum_eq(n, h, u);
    }
    lemma_fsum_eq(m, lhs, rows);
    lemma_fsum_swap(m, n, f);
    let cols = |i: int| fsum(m, |k: int| f(k, i));
    let ev = evals_at(tables, p);
    let rhs = |i: int| fmul(ev[i], fpow(b, (i + 1) as nat));
    assert forall|i: int| 0 <= i < n implies #[trigger] cols(i) == rhs(i) by {
        let c = fpow(b, (i + 1) as nat);
        let t = mle_term(tables[i], p);
        lemma_fsum_scale(m, c, t);
        lemma_fsum_eq(m, |k: int| f(k, i), |k: int| fmul(c, t(k)));
        lemma_fmul_comm(c, ev[i]);
    }
    lemma_fsum_eq(n, cols, rhs);
}

/// Where the product of the four tables is zero everywhere, the sum over all corners is the one that the
/// verifier starts from.
pub proof fn law_zerocheck_sum(tables: Seq<Seq<Fe>>, out: Seq<Fe>, p: Seq<Fe>, last: Seq<Fe>, b: Fe)
    requires
        tables.len() == 4,
        p.len() == last.len(),
        forall|k: int| 0 <= k < pow2(p.len()) ==> #[trigger] diff_product(tables, k) == fzero(),
    ensures
        fsum(
            pow2(p.len()),
            |k: int| summand(entries_at(tables, k), out[k], chi(k, p), chi(k, last), b),
        ) == starting_sum(evals_at(tables, p), mle_eval(out, last), b),
{
    let m = pow2(p.len());
    let c = fpow(b, 5);
    let f = |k: int| fmul(batched(entries_at(tables, k), b, 4), chi(k, p));
    let t = mle_term(out, last);
    let g = |k: int| fmul(c, t(k));
    let h = |k: int| fadd(f(k), g(k));
    let s = |k: int| summand(entries_at(tables, k), out[k], chi(k, p), chi(k, last), b);
    assert forall|k: int| 0 <= k < m implies #[trigger] s(k) == h(k) by {
        assert(diff_product(tables, k) == fzero());
        crate::mle::lemma_chi_canon(k, p);
        lemma_product_zero(tables, chi(k, p), k);
        lemma_ops_canon(batched(entries_at(tables, k), b, 4), chi(k, p));
        lemma_fadd_zero(f(k));
        lemma_fadd_comm(fzero(), f(k));
        lemma_fmul_comm(t(k), c);
    }
    lemma_fsum_eq(m, s, h);
    lemma_fsum_add(m, f, g);
    lemma_fsum_scale(m, c, t);
    lemma_batched_sum(tables, p, b);
    lemma_fsum_eq(m, f, |k: int| fmul(batched(entries_at(tables, k), b, tables.len()), chi(k, p)));
}

/// What the check computes from the values of the tables at the point of the sum is the summand there: the check of a
/// proof with these values accepts.
pub proof fn law_maxpool_proof_is_accepted(
    tables: Seq<Seq<Fe>>,
    out: Seq<Fe>,
    p: Seq<Fe>,
    last: Seq<Fe>,
    b: Fe,
    z: Seq<Fe>,
    evals: Seq<Fe>,
)
    requires
        p.len() == z.len(),
        last.len() == z.len(),
        evals == evals_at(tables, z).push(mle_eval(out, z)),
    ensures
        summand(
            evals.take(tables.len() as int),
            evals.last(),
            identity_at(p, z, z.len()),
            identity_at(last, z, z.len()),
            b,
        ) == summand(evals_at(tables, z), mle_eval(out, z), mle_eval(betas(p), z), mle_eval(betas(last), z), b),
{
    law_betas_extension(p, z);
    law_betas_extension(last, z);
    lemma_identity_swap(p, z, z.len());
    lemma_identity_swap(last, z, z.len());
    assert(evals.take(tables.len() as int) =~= evals_at(tables, z));
}

/// The entries of a table at place `(dh, dw)` of the windows, with lines of length `2 * w2`.
spec fn picked(e: Seq<Fe>, w2: int, dh: int, dw: int, n: nat) -> Seq<Fe> {
    Seq::new(n, |k: int| e[window_place(w2, dh, dw, k)])
}

/// A line of the table, as far as the columns are concerned.
proof fn lemma_line_eval(e: Seq<Fe>, z1: Seq<Fe>, z2: Seq<Fe>, dh: int, r1: Fe, t: int)
    requires
        e.len() == 4 * pow2(z1.len() + z2.len()),
        0 <= dh < 2,
        0 <= t < pow2(z2.len()),
    ensures
        ({
            let w2 = pow2(z1.len());
            let n = pow2(z1.len() + z2.len());
            mle_eval(table_row(e, 2 * t + dh, 2 * w2), seq![r1] + z1) == between(
                mle_eval(table_row(picked(e, w2 as int, dh, 0, n), t, w2), z1),
                mle_eval(table_row(picked(e, w2 as int, dh, 1, n), t, w2), z1),
                r1,
            )
        }),
{
    let w2 = pow2(z1.len());
    let n = pow2(z1.len() + z2.len());
    let m = pow2(z2.len());
    lemma_pow2_pos(z1.len());
    lemma_pow2_adds(z1.len(), z2.len());
    assert(w2 * m == m * w2) by (nonlinear_arith);
    let p = seq![r1] + z1;
    lemma_pow2_unfold(p.len());
    let row = table_row(e, 2 * t + dh, 2 * w2);
    lemma_mle_fold(row, p);
    assert(p.skip(1) =~= z1);
    let a = table_row(picked(e, w2 as int, dh, 0, n), t, w2);
    let b = table_row(picked(e, w2 as int, dh, 1, n), t, w2);
    let c = fold(row, r1);
    assert forall|j: int| 0 <= j < w2 implies #[trigger] c[j] == fadd(fmul(a[j], fsub(fone(), r1)), fmul(b[j], r1)) by {
        lemma_grid_bound(t, m as int, j, w2 as int);
        lemma_grid_digits(t, j, w2 as int);
        assert(t * w2 >= 0) by (nonlinear_arith)
            requires
                t >= 0,
                w2 >= 0,
        ;
    }
    lemma_mle_linear(a, b, c, fsub(fone(), r1), r1, z1);
}

/// The extension of a table with two more variables, put together from the four parts of the windows.
proof fn lemma_four_parts(e: Seq<Fe>, z1: Seq<Fe>, z2: Seq<Fe>, r1: Fe, r2: Fe)
    requires
        e.len() == 4 * pow2(z1.len() + z2.len()),
    ensures
        ({
            let w2 = pow2(z1.len()) as int;
            let n = pow2(z1.len() + z2.len());
            let z = z1 + z2;
            mle_eval(e, (seq![r1] + z1) + (seq![r2] + z2)) == between(
                between(mle_eval(picked(e, w2, 0, 0, n), z), mle_eval(picked(e, w2, 0, 1, n), z), r1),
                between(mle_eval(picked(e, w2, 1, 0, n), z), mle_eval(picked(e, w2, 1, 1, n), z), r1),
                r2,
            )
        }),
{
    let w2 = pow2(z1.len());
    let m = pow2(z2.len());
    let n = pow2(z1.len() + z2.len());
    let z = z1 + z2;
    let p = seq![r1] + z1;
    let q = seq![r2] + z2;
    lemma_pow2_unfold(p.len());
    lemma_pow2_unfold(q.len());
    lemma_pow2_adds(z1.len(), z2.len());
    lemma_pow2_adds(p.len(), q.len());
    assert((2 * w2) * (2 * m) == 4 * (w2 * m)) by (nonlinear_arith);
    lemma_mle_append(e, p, q);
    let lines = row_evals(e, p, 2 * m);
    lemma_mle_fold(lines, q);
    assert(q.skip(1) =~= z2);
    let folded = fold(lines, r2);
    let part = |dh: int, dw: int| picked(e, w2 as int, dh, dw, n);
    let evals = |dh: int, dw: int| row_evals(part(dh, dw), z1, m);
    let along = |dh: int| Seq::new(m, |t: int| between(evals(dh, 0)[t], evals(dh, 1)[t], r1));
    assert forall|dh: int, t: int| 0 <= dh < 2 && 0 <= t < m implies #[trigger] along(dh)[t] == lines[2 * t + dh] by {
        lemma_line_eval(e, z1, z2, dh, r1, t);
    }
    let u1 = fsub(fone(), r1);
    let u2 = fsub(fone(), r2);
    assert forall|t: int| 0 <= t < m implies #[trigger] folded[t] == fadd(fmul(along(0)[t], u2), fmul(along(1)[t], r2)) by {
        assert(along(0)[t] == lines[2 * t + 0]);
        assert(along(1)[t] == lines[2 * t + 1]);
    }
    lemma_mle_linear(along(0), along(1), folded, u2, r2, z2);
    assert forall|dh: int| 0 <= dh < 2 implies mle_eval(#[trigger] along(dh), z2) == between(
        mle_eval(part(dh, 0), z),
        mle_eval(part(dh, 1), z),
        r1,
    ) by {
        let (a, b) = (evals(dh, 0), evals(dh, 1));
        assert forall|t: int| 0 <= t < m implies #[trigger] along(dh)[t] == fadd(fmul(a[t], u1), fmul(b[t], r1)) by {}
        lemma_mle_linear(a, b, along(dh), u1, r1, z2);
        lemma_mle_append(part(dh, 0), z1, z2);
        lemma_mle_append(part(dh, 1), z1, z2);
    }
    assert(mle_eval(along(0), z2) == between(mle_eval(part(0, 0), z), mle_eval(part(0, 1), z), r1));
    assert(mle_eval(along(1), z2) == between(mle_eval(part(1, 0), z), mle_eval(part(1, 1), z), r1));
}

/// `x - (x - y) == y`.
proof fn lemma_sub_sub(x: Fe, y: Fe)
    requires
        canon(x),
        canon(y),
    ensures
        fsub(x, fsub(x, y)) == y,
{
    let m = fneg1();
    lemma_ops_canon(x, y);
    lemma_fsub_neg(x, y);
    lemma_fsub_neg(x, fsub(x, y));
    lemma_fmul_dist(m, x, fmul(m, y));
    lemma_fmul_assoc(m, m, y);
    lemma_fneg1(x);
    lemma_fmul_one(y);
    lemma_fmul_comm(fone(), y);
    lemma_fadd_assoc(x, fmul(m, x), y);
    lemma_fadd_comm(fzero(), y);
    lemma_fadd_zero(y);
}

/// Two interpolations as one sum.
proof fn lemma_weights(a0: Fe, a1: Fe, a2: Fe, a3: Fe, r1: Fe, r2: Fe, f: spec_fn(int) -> Fe)
    requires
        f(0) == fmul(weight(r1, r2, 0), a0),
        f(1) == fmul(weight(r1, r2, 1), a1),
        f(2) == fmul(weight(r1, r2, 2), a2),
        f(3) == fmul(weight(r1, r2, 3), a3),
    ensures
        between(between(a0, a2, r1), between(a1, a3, r1), r2) == fsum(4, f),
{
    let s1 = fsub(fone(), r1);
    let s2 = fsub(fone(), r2);
    let d02 = fadd(fmul(a0, s1), fmul(a2, r1));
    let d13 = fadd(fmul(a1, s1), fmul(a3, r1));
    lemma_fmul_comm(d02, s2);
    lemma_fmul_dist(s2, fmul(a0, s1), fmul(a2, r1));
    lemma_fmul_comm(d13, r2);
    lemma_fmul_dist(r2, fmul(a1, s1), fmul(a3, r1));
    lemma_three(s2, a0, s1);
    lemma_three(s2, a2, r1);
    lemma_three(r2, a1, s1);
    lemma_three(r2, a3, r1);
    reveal_with_fuel(fsum, 5);
    lemma_ops_canon(weight(r1, r2, 0), a0);
    lemma_fadd_comm(fzero(), f(0));
    lemma_fadd_zero(f(0));
    lemma_fadd_swap4(f(0), f(2), f(1), f(3));
    lemma_fadd_assoc(fadd(f(0), f(1)), f(2), f(3));
}

/// `x * (a * y) == (y * x) * a`.
proof fn lemma_three(x: Fe, a: Fe, y: Fe)
    ensures
        fmul(x, fmul(a, y)) == fmul(fmul(y, x), a),
{
    lemma_fmul_comm(x, fmul(a, y));
    lemma_fmul_comm(a, y);
    lemma_fmul_assoc(y, a, x);
    lemma_fmul_comm(a, x);
    lemma_fmul_assoc(y, x, a);
}

/// The claim on the input of a maximum layer holds where the values of the tables of differences and of the
/// output are those of their extensions at the point of the sum: the sides of the planes are even, and
/// `gap` is the number of coordinates of the columns.
pub proof fn law_maxpool_input_claim(
    o: &Tensor<Element>,
    input: &Tensor<Element>,
    z: Seq<Fe>,
    gap: nat,
    r1: Fe,
    r2: Fe,
)
    requires
        input.wf(),
        input.shape@.len() == 3,
        poolable(input.shape@, 2, 2),
        paddable(input),
        is_pooled(o, input, 2, 2),
        input.shape@[1] % 2 == 0,
        input.shape@[2] % 2 == 0,
        zero_padded(o).len() == pow2(z.len()),
        half_width(input) == pow2(gap),
        gap <= z.len(),
    ensures
        ({
            let tables = Seq::new(4, |i: int| pool_table(o, input, i));
            mle_eval(fints(zero_padded(input)), input_point(z, gap as int, r1, r2)) == input_value(
                evals_at(tables, z),
                mle_eval(fints(zero_padded(o)), z),
                r1,
                r2,
                4,
            )
        }),
{
    let s = input.shape@;
    let cs = npot(s[0] as nat) as int;
    let h2 = npot(s[1] as nat) as int / 2;
    let w2 = half_width(input);
    lemma_pool_sizes(o, input);
    let e = fints(zero_padded(input));
    let fo = fints(zero_padded(o));
    let n = pow2(z.len());
    assert(cs * ((2 * h2) * (2 * w2)) == 4 * (cs * (h2 * w2))) by (nonlinear_arith);
    let (z1, z2) = (z.take(gap as int), z.skip(gap as int));
    assert(z1 + z2 =~= z);
    lemma_four_parts(e, z1, z2, r1, r2);
    let tables = Seq::new(4, |i: int| pool_table(o, input, i));
    let ev = evals_at(tables, z);
    let out = mle_eval(fo, z);
    let part = |i: int| picked(e, w2, i % 2, i / 2, n);
    let f = |i: int| fmul(weight(r1, r2, i), fsub(out, ev[i]));
    assert forall|i: int| 0 <= i < 4 implies #[trigger] f(i) == fmul(weight(r1, r2, i), mle_eval(part(i), z)) by {
        let t = pool_table(o, input, i);
        let m = fneg1();
        let q = part(i);
        assert forall|k: int| 0 <= k < n implies #[trigger] t[k] == fadd(fmul(fo[k], fone()), fmul(q[k], m)) by {
            lemma_window_place(cs, h2, w2, i % 2, i / 2, k);
            let (x, y) = (zero_padded(o)[k] as int, zero_padded(input)[window_place(w2, i % 2, i / 2, k)] as int);
            lemma_fint_hom(x, y);
            lemma_fint_hom(y, x);
            lemma_fsub_neg(fint(x), fint(y));
            lemma_fmul_one(fint(x));
            lemma_fmul_comm(m, fint(y));
        }
        lemma_mle_linear(fo, q, t, fone(), m, z);
        lemma_mle_canon(fo, z);
        lemma_mle_canon(q, z);
        lemma_fmul_one(out);
        lemma_fmul_comm(mle_eval(q, z), m);
        lemma_fsub_neg(out, mle_eval(q, z));
        assert(tables[i] == t);
        lemma_sub_sub(out, mle_eval(q, z));
    }
    assert(f(0) == fmul(weight(r1, r2, 0), mle_eval(part(0), z)));
    assert(f(1) == fmul(weight(r1, r2, 1), mle_eval(part(1), z)));
    assert(f(2) == fmul(weight(r1, r2, 2), mle_eval(part(2), z)));
    assert(f(3) == fmul(weight(r1, r2, 3), mle_eval(part(3), z)));
    lemma_weights(
        mle_eval(part(0), z),
        mle_eval(part(1), z),
        mle_eval(part(2), z),
        mle_eval(part(3), z),
        r1,
        r2,
        f,
    );
}

} // verus!
