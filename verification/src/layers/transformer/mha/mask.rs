//! The masks that keep a position from attending to later ones.
use crate::algebra::{lemma_fsum_add, lemma_fsum_eq, lemma_fsum_scale, lemma_fsum_split, lemma_fsum_zero};
use crate::arith::{lemma_grid_bound, lemma_grid_digits};
use crate::fft::fes;
use crate::field::{
    canon, fadd, fint, fmul, fone, fsub, fsum, fzero, lemma_fadd_assoc, lemma_fadd_comm, lemma_fadd_zero,
    lemma_fint_hom, lemma_fmul_assoc, lemma_fmul_comm, lemma_fmul_dist, lemma_fmul_one, lemma_fmul_zero,
    lemma_ops_canon, to_field, Fe, GoldilocksExt2,
};
use crate::layers::convolution::clearing::lemma_idx3_split;
use crate::mle::{
    chi, complement, lemma_chi_append, lemma_chi_canon, lemma_chi_sum, lemma_mle_append, lemma_mle_canon,
    lemma_mle_constant, lemma_mle_linear, mle_eval, mle_term, pick, row_evals, table_row,
};
use crate::number::{Element, Number};
use crate::shape::{lemma_prod_of_rank, Shape};
use crate::tensor::access::{idx3, lemma_idx3};
use crate::tensor::extension::field_table;
use crate::tensor::Tensor;
use vstd::arithmetic::power2::{lemma2_to64, lemma_pow2_adds, lemma_pow2_pos, lemma_pow2_unfold, pow2};
use vstd::prelude::*;

verus! {

/// In every head, row `q` holds `low` up to column `q` and `high` beyond.
pub open spec fn is_mask<N: Number>(t: &Tensor<N>, num_heads: int, q_len: int, seq_len: int, low: N::M, high: N::M) -> bool {
    &&& t.wf()
    &&& t.shape@.len() == 3
    &&& t.shape@[0] == num_heads
    &&& t.shape@[1] == q_len
    &&& t.shape@[2] == seq_len
    &&& t.data@.len() == num_heads * (q_len * seq_len)
    &&& forall|h: int, q: int, e: int|
        0 <= h < num_heads && 0 <= q < q_len && 0 <= e < seq_len ==>
        (#[trigger] t.data@[idx3(q_len, seq_len, h, q, e)]).value() == (if e > q {
            high
        } else {
            low
        })
}

fn mask<N: Number>(num_heads: usize, q_len: usize, seq_len: usize, low: N, high: N) -> (r: Tensor<N>)
    requires
        q_len * seq_len <= usize::MAX,
        num_heads * (q_len * seq_len) <= usize::MAX,
    ensures
        is_mask(&r, num_heads as int, q_len as int, seq_len as int, low.value(), high.value()),
{
    let plane: usize = q_len * seq_len;
    let len: usize = num_heads * plane;
    let mut data: Vec<N> = Vec::with_capacity(len);
    let mut p: usize = 0;
    while p < len
        invariant
            p <= len,
            plane == q_len * seq_len,
            len == num_heads * plane,
            data@.len() == p,
            forall|i: int|
                0 <= i < p ==> #[trigger] data@[i] == (if (i % (plane as int)) % (seq_len as int) > (i % (plane as int)) / (
                seq_len as int) {
                    high
                } else {
                    low
                }),
        decreases len - p,
    {
        proof {
            lemma_idx3_split(num_heads as int, q_len as int, seq_len as int, p as int);
        }
        let q: usize = (p % plane) / seq_len;
        let e: usize = (p % plane) % seq_len;
        if e > q {
            data.push(high);
        } else {
            data.push(low);
        }
        p = p + 1;
    }
    let shape = Shape::new(vec![num_heads, q_len, seq_len]);
    proof {
        lemma_prod_of_rank(shape@);
        assert forall|h: int, q: int, e: int|
            0 <= h < num_heads && 0 <= q < q_len && 0 <= e < seq_len implies (#[trigger] data@[idx3(
            q_len as int,
            seq_len as int,
            h,
            q,
            e,
        )]).value() == (if e > q {
            high.value()
        } else {
            low.value()
        }) by {
            lemma_idx3(num_heads as int, q_len as int, seq_len as int, h, q, e);
            crate::layers::convolution::clearing::lemma_idx3_digits(q_len as int, seq_len as int, h, q, e);
        }
    }
    Tensor::new(shape, data)
}

/// Ones up to the diagonal and zeros beyond, in every head.
pub fn zeroifier<N: Number>(num_heads: usize, q_len: usize, seq_len: usize) -> (r: Tensor<N>)
    requires
        q_len * seq_len <= usize::MAX,
        num_heads * (q_len * seq_len) <= usize::MAX,
    ensures
        is_mask(&r, num_heads as int, q_len as int, seq_len as int, N::m_one(), N::m_zero()),
{
    mask(num_heads, q_len, seq_len, N::unit(), N::zero())
}

/// Zeros up to the diagonal and `minus_infinity` beyond, in every head.
pub fn infinitizer<N: Number>(num_heads: usize, q_len: usize, seq_len: usize, minus_infinity: N) -> (r: Tensor<N>)
    requires
        q_len * seq_len <= usize::MAX,
        num_heads * (q_len * seq_len) <= usize::MAX,
    ensures
        is_mask(&r, num_heads as int, q_len as int, seq_len as int, N::m_zero(), minus_infinity.value()),
{
    mask(num_heads, q_len, seq_len, N::zero(), minus_infinity)
}

/// The polynomial that is one where the number with the bits `c` is at most the number with the bits `r`, lowest
/// first, and zero elsewhere: with one more bit, the comparison stands where the bits agree, and is decided where
/// that of `c` is zero and that of `r` is one.
pub open spec fn at_most(c: Seq<Fe>, r: Seq<Fe>, n: nat) -> Fe
    decreases n,
{
    if n == 0 {
        fone()
    } else {
        let k = n - 1;
        let (a, b) = (fsub(fone(), c[k]), fsub(fone(), r[k]));
        fadd(fmul(at_most(c, r, k as nat), fadd(fmul(c[k], r[k]), fmul(a, b))), fmul(a, r[k]))
    }
}

/// The extension of a square zeroifier at the point with the given coordinates of the columns and of the rows.
pub fn eval_zeroifier_mle(column_point: &[GoldilocksExt2], row_point: &[GoldilocksExt2]) -> (r: GoldilocksExt2)
    ensures
        r.fe() == at_most(
            fes(column_point@),
            fes(row_point@),
            if column_point@.len() <= row_point@.len() {
                column_point@.len()
            } else {
                row_point@.len()
            },
        ),
{
    let n: usize = if column_point.len() <= row_point.len() {
        column_point.len()
    } else {
        row_point.len()
    };
    let mut acc = GoldilocksExt2::one();
    let mut i: usize = 0;
    while i < n
        invariant
            i <= n,
            n <= column_point@.len(),
            n <= row_point@.len(),
            acc.fe() == at_most(fes(column_point@), fes(row_point@), i as nat),
        decreases n - i,
    {
        let c = column_point[i];
        let r = row_point[i];
        let a = complement(&c);
        let b = complement(&r);
        acc = acc.times(&c.times(&r).plus(&a.times(&b))).plus(&a.times(&r));
        i = i + 1;
    }
    acc
}

/// The extension of a square infinitizer at the point with the given coordinates of the columns and of the rows.
pub fn eval_infinitizer_mle(
    column_point: &[GoldilocksExt2],
    row_point: &[GoldilocksExt2],
    minus_infinity: Element,
) -> (r: GoldilocksExt2)
    ensures
        r.fe() == fmul(
            fint(minus_infinity as int),
            fsub(
                fone(),
                at_most(
                    fes(column_point@),
                    fes(row_point@),
                    if column_point@.len() <= row_point@.len() {
                        column_point@.len()
                    } else {
                        row_point@.len()
                    },
                ),
            ),
        ),
{
    to_field(minus_infinity).times(&complement(&eval_zeroifier_mle(column_point, row_point)))
}

/// Row `q` of the comparison, along the columns.
spec fn row_at_most(q: int, c: Seq<Fe>) -> spec_fn(int) -> Fe {
    |e: int|
        if e <= q {
            chi(e, c)
        } else {
            fzero()
        }
}

/// The comparison, along the rows.
spec fn along_rows(c: Seq<Fe>, r: Seq<Fe>) -> spec_fn(int) -> Fe {
    |q: int| fmul(chi(q, r), fsum(pow2(c.len()), row_at_most(q, c)))
}

/// The corner polynomial with one more coordinate at the top.
proof fn lemma_chi_top(i: int, bit: int, p: Seq<Fe>, x: Fe)
    requires
        0 <= i < pow2(p.len()),
        bit == 0 || bit == 1,
    ensures
        chi(bit * pow2(p.len()) + i, p.push(x)) == fmul(chi(i, p), pick(bit, x)),
{
    let m = pow2(p.len()) as int;
    assert(p.push(x) =~= p + seq![x]);
    assert(bit * m >= 0) by (nonlinear_arith)
        requires
            bit >= 0,
            m >= 0,
    ;
    lemma_chi_append(bit * m + i, p, seq![x]);
    lemma_grid_digits(bit, i, m);
    let s = seq![x];
    assert(s.skip(1).len() == 0);
    assert(chi(bit / 2, s.skip(1)) == fone());
    assert(chi(bit, s) == fmul(pick(bit % 2, x), fone()));
    lemma_ops_canon(fone(), x);
    lemma_fmul_one_any(pick(bit, x), chi(i, p));
}

/// A factor one in a product can be dropped.
proof fn lemma_fmul_one_any(x: Fe, y: Fe)
    ensures
        fmul(y, fmul(x, fone())) == fmul(y, x),
{
    lemma_fmul_assoc(y, x, fone());
    lemma_ops_canon(y, x);
    lemma_fmul_one(fmul(y, x));
}

/// The sum along a row with one more column coordinate at the top.
proof fn lemma_row_split(q: int, c: Seq<Fe>, x: Fe)
    requires
        0 <= q < 2 * pow2(c.len()),
    ensures
        ({
            let m = pow2(c.len());
            let a = fsub(fone(), x);
            fsum(pow2(c.len() + 1), row_at_most(q, c.push(x))) == (if q < m {
                fmul(a, fsum(m, row_at_most(q, c)))
            } else {
                fadd(a, fmul(x, fsum(m, row_at_most(q - m, c))))
            })
        }),
{
    let m = pow2(c.len());
    let a = fsub(fone(), x);
    let d = c.push(x);
    let f = row_at_most(q, d);
    lemma_pow2_unfold(c.len() + 1);
    lemma_fsum_split(m, m, f);
    let hi = |i: int| f(m + i);
    lemma_ops_canon(fone(), x);
    if q < m {
        let g = row_at_most(q, c);
        let u = |i: int| fmul(a, g(i));
        assert forall|i: int| 0 <= i < m implies #[trigger] f(i) == u(i) by {
            lemma_chi_top(i, 0, c, x);
            lemma_fmul_comm(chi(i, c), a);
            lemma_fmul_zero(a);
        }
        lemma_fsum_eq(m, f, u);
        lemma_fsum_scale(m, a, g);
        assert forall|i: int| 0 <= i < m implies #[trigger] hi(i) == fzero() by {}
        lemma_fsum_zero(m, hi);
        lemma_ops_canon(a, fsum(m, g));
        lemma_fadd_zero(fmul(a, fsum(m, g)));
    } else {
        let g = row_at_most(q - m, c);
        let all = |i: int| chi(i, c);
        let u = |i: int| fmul(a, all(i));
        assert forall|i: int| 0 <= i < m implies #[trigger] f(i) == u(i) by {
            lemma_chi_top(i, 0, c, x);
            lemma_fmul_comm(chi(i, c), a);
        }
        lemma_fsum_eq(m, f, u);
        lemma_fsum_scale(m, a, all);
        lemma_chi_sum(c);
        lemma_fmul_one(a);
        let v = |i: int| fmul(x, g(i));
        assert forall|i: int| 0 <= i < m implies #[trigger] hi(i) == v(i) by {
            lemma_chi_top(i, 1, c, x);
            assert(1 * m + i == m + i);
            lemma_fmul_comm(chi(i, c), x);
            lemma_fmul_zero(x);
        }
        lemma_fsum_eq(m, hi, v);
        lemma_fsum_scale(m, x, g);
    }
}

/// The comparison as a sum over all corners is its closed form.
proof fn lemma_at_most_sum(c: Seq<Fe>, r: Seq<Fe>)
    requires
        c.len() == r.len(),
    ensures
        fsum(pow2(r.len()), along_rows(c, r)) == at_most(c, r, c.len()),
    decreases c.len(),
{
    lemma2_to64();
    let n = c.len();
    if n == 0 {
        let f = along_rows(c, r);
        let g = row_at_most(0, c);
        assert(fsum(1, g) == fadd(fsum(0, g), g(0)));
        assert(fsum(1, f) == fadd(fsum(0, f), f(0)));
        lemma_fadd_comm(fzero(), fone());
        lemma_fadd_zero(fone());
        lemma_fmul_one(fone());
    } else {
        let (c1, r1) = (c.drop_last(), r.drop_last());
        let (x, y) = (c.last(), r.last());
        assert(c1.push(x) =~= c);
        assert(r1.push(y) =~= r);
        let m = pow2(c1.len());
        let (a, b) = (fsub(fone(), x), fsub(fone(), y));
        lemma_pow2_unfold(n);
        lemma_at_most_sum(c1, r1);
        lemma_at_most_prefix(c, r, (n - 1) as nat);
        let f = along_rows(c, r);
        let g = along_rows(c1, r1);
        let l = fsum(m, g);
        lemma_fsum_split(m, m, f);
        let u = |q: int| fmul(fmul(a, b), g(q));
        assert forall|q: int| 0 <= q < m implies #[trigger] f(q) == u(q) by {
            lemma_chi_top(q, 0, r1, y);
            lemma_row_split(q, c1, x);
            let (t, s) = (chi(q, r1), fsum(m, row_at_most(q, c1)));
            // (t * b) * (a * s) == (a * b) * (t * s)
            lemma_fmul_comm(t, b);
            lemma_fmul_assoc(b, t, fmul(a, s));
            lemma_fmul_assoc(t, a, s);
            lemma_fmul_comm(t, a);
            lemma_fmul_assoc(a, t, s);
            lemma_fmul_assoc(b, a, fmul(t, s));
            lemma_fmul_comm(a, b);
        }
        lemma_fsum_eq(m, f, u);
        lemma_fsum_scale(m, fmul(a, b), g);
        let hi = |q: int| f(m + q);
        let ts = |q: int| chi(q, r1);
        let v1 = |q: int| fmul(fmul(a, y), ts(q));
        let v2 = |q: int| fmul(fmul(x, y), g(q));
        let v = |q: int| fadd(v1(q), v2(q));
        assert forall|q: int| 0 <= q < m implies #[trigger] hi(q) == v(q) by {
            lemma_chi_top(q, 1, r1, y);
            assert(1 * m + q == m + q);
            lemma_row_split(m + q, c1, x);
            let (t, s) = (chi(q, r1), fsum(m, row_at_most(q, c1)));
            let ty = fmul(t, y);
            // (t * y) * (a + x * s) == (a * y) * t + (x * y) * (t * s)
            lemma_fmul_dist(ty, a, fmul(x, s));
            lemma_fmul_comm(ty, a);
            lemma_fmul_comm(t, y);
            lemma_fmul_assoc(a, y, t);
            lemma_fmul_assoc(y, t, fmul(x, s));
            lemma_fmul_assoc(t, x, s);
            lemma_fmul_comm(t, x);
            lemma_fmul_assoc(x, t, s);
            lemma_fmul_assoc(y, x, fmul(t, s));
            lemma_fmul_comm(x, y);
        }
        lemma_fsum_eq(m, hi, v);
        lemma_fsum_add(m, v1, v2);
        lemma_fsum_scale(m, fmul(a, y), ts);
        lemma_chi_sum(r1);
        lemma_ops_canon(a, y);
        lemma_fmul_one(fmul(a, y));
        lemma_fsum_scale(m, fmul(x, y), g);
        // (a * b) * l + (a * y + (x * y) * l) == l * (x * y + a * b) + a * y
        let (p, q) = (fmul(x, y), fmul(a, b));
        lemma_fmul_dist(l, p, q);
        lemma_fmul_comm(l, p);
        lemma_fmul_comm(l, q);
        let (pl, ql, ay) = (fmul(p, l), fmul(q, l), fmul(a, y));
        lemma_fadd_comm(ay, pl);
        lemma_fadd_assoc(ql, pl, ay);
        lemma_fadd_comm(ql, pl);
    }
}

proof fn lemma_at_most_prefix(c: Seq<Fe>, r: Seq<Fe>, n: nat)
    requires
        n < c.len(),
        n < r.len(),
    ensures
        at_most(c, r, n) == at_most(c.drop_last(), r.drop_last(), n),
    decreases n,
{
    if n > 0 {
        lemma_at_most_prefix(c, r, (n - 1) as nat);
    }
}

/// The extension of a square mask of ones and zeros, repeated for every head.
proof fn lemma_ones_mask(e: Seq<Fe>, c: Seq<Fe>, r: Seq<Fe>, h: Seq<Fe>)
    requires
        c.len() == r.len(),
        e.len() == pow2(c.len() + r.len() + h.len()),
        forall|k: int, q: int, i: int|
            0 <= k < pow2(h.len()) && 0 <= q < pow2(r.len()) && 0 <= i < pow2(c.len()) ==> #[trigger] e[idx3(
                pow2(r.len()) as int,
                pow2(c.len()) as int,
                k,
                q,
                i,
            )] == (if i > q {
                fzero()
            } else {
                fone()
            }),
    ensures
        mle_eval(e, (c + r) + h) == at_most(c, r, c.len()),
{
    let n = pow2(c.len());
    let nn = pow2(c.len() + r.len());
    let heads = pow2(h.len());
    lemma_pow2_adds(c.len(), r.len());
    lemma_pow2_adds(c.len() + r.len(), h.len());
    lemma_pow2_pos(c.len());
    lemma_pow2_pos(h.len());
    assert(nn * heads == heads * nn) by (nonlinear_arith);
    lemma_mle_append(e, c + r, h);
    let rows = row_evals(e, c + r, heads);
    let want = at_most(c, r, c.len());
    assert forall|k: int| 0 <= k < heads implies #[trigger] rows[k] == want && canon(want) by {
        let t = table_row(e, k, nn);
        lemma_mle_canon(t, c + r);
        lemma_mle_append(t, c, r);
        let rr = row_evals(t, c, n);
        let f = along_rows(c, r);
        assert forall|q: int| 0 <= q < n implies #[trigger] mle_term(rr, r)(q) == f(q) by {
            let line = table_row(t, q, n);
            let g = row_at_most(q, c);
            assert forall|i: int| 0 <= i < n implies #[trigger] mle_term(line, c)(i) == g(i) by {
                lemma_grid_bound(q, n as int, i, n as int);
                assert(line[i] == t[q * n + i]);
                assert(t[q * n + i] == e[k * nn + (q * n + i)]);
                assert(e[idx3(n as int, n as int, k, q, i)] == (if i > q {
                    fzero()
                } else {
                    fone()
                }));
                lemma_chi_canon(i, c);
                lemma_fmul_one(chi(i, c));
                lemma_fmul_comm(fone(), chi(i, c));
                lemma_fmul_zero(chi(i, c));
            }
            lemma_fsum_eq(n, mle_term(line, c), g);
            lemma_fmul_comm(fsum(n, g), chi(q, r));
        }
        lemma_fsum_eq(n, mle_term(rr, r), f);
        lemma_at_most_sum(c, r);
    }
    assert(rows[0] == want);
    lemma_mle_constant(rows, h, want);
}

/// The closed form is the extension of a square zeroifier, whatever the head.
pub proof fn law_zeroifier_mle(t: &Tensor<Element>, c: Seq<Fe>, r: Seq<Fe>, h: Seq<Fe>)
    requires
        c.len() == r.len(),
        is_mask(t, pow2(h.len()) as int, pow2(r.len()) as int, pow2(c.len()) as int, 1, 0),
    ensures
        mle_eval(field_table(t), (c + r) + h) == at_most(c, r, c.len()),
{
    let (hs, n) = (pow2(h.len()) as int, pow2(c.len()) as int);
    lemma_pow2_adds(c.len(), r.len());
    lemma_pow2_adds(c.len() + r.len(), h.len());
    let e = field_table(t);
    assert(hs * (n * n) == (n * n) * hs) by (nonlinear_arith);
    assert forall|k: int, q: int, i: int| 0 <= k < hs && 0 <= q < n && 0 <= i < n implies #[trigger] e[idx3(
        n,
        n,
        k,
        q,
        i,
    )] == (if i > q {
        fzero()
    } else {
        fone()
    }) by {
        lemma_idx3(hs, n, n, k, q, i);
        assert(t.data@[idx3(n, n, k, q, i)].value() == (if i > q {
            0int
        } else {
            1
        }));
        assert(fint(0) == fzero() && fint(1) == fone());
    }
    lemma_ones_mask(e, c, r, h);
}

/// The closed form is the extension of a square infinitizer, whatever the head.
pub proof fn law_infinitizer_mle(t: &Tensor<Element>, minus_infinity: Element, c: Seq<Fe>, r: Seq<Fe>, h: Seq<Fe>)
    requires
        c.len() == r.len(),
        is_mask(
            t,
            pow2(h.len()) as int,
            pow2(r.len()) as int,
            pow2(c.len()) as int,
            0,
            minus_infinity as int,
        ),
    ensures
        mle_eval(field_table(t), (c + r) + h) == fmul(
            fint(minus_infinity as int),
            fsub(fone(), at_most(c, r, c.len())),
        ),
{
    let (hs, n) = (pow2(h.len()) as int, pow2(c.len()) as int);
    lemma_pow2_adds(c.len(), r.len());
    lemma_pow2_adds(c.len() + r.len(), h.len());
    let e = field_table(t);
    assert(hs * (n * n) == (n * n) * hs) by (nonlinear_arith);
    let p = (c + r) + h;
    let ones = Seq::new(e.len(), |i: int| fone());
    let x = fint(minus_infinity as int);
    lemma_fint_hom(minus_infinity as int, 0);
    let m = crate::algebra::fneg1();
    let z = Seq::new(
        e.len(),
        |i: int|
            if (i % (n * n)) % n > (i % (n * n)) / n {
                fzero()
            } else {
                fone()
            },
    );
    assert forall|k: int, q: int, i: int| 0 <= k < hs && 0 <= q < n && 0 <= i < n implies #[trigger] z[idx3(
        n,
        n,
        k,
        q,
        i,
    )] == (if i > q {
        fzero()
    } else {
        fone()
    }) by {
        lemma_idx3(hs, n, n, k, q, i);
        crate::layers::convolution::clearing::lemma_idx3_digits(n, n, k, q, i);
    }
    lemma_ones_mask(z, c, r, h);
    lemma_fint_hom(1, -1);
    assert(fint(1) == fone() && fint(0) == fzero());
    assert forall|i: int| 0 <= i < pow2(p.len()) implies #[trigger] e[i] == fadd(
        fmul(ones[i], x),
        fmul(z[i], fmul(m, x)),
    ) by {
        lemma_idx3_split(hs, n, n, i);
        let (k, q, j) = (i / (n * n), (i % (n * n)) / n, (i % (n * n)) % n);
        assert(t.data@[idx3(n, n, k, q, j)].value() == (if j > q {
            minus_infinity as int
        } else {
            0
        }));
        lemma_fmul_one(x);
        lemma_fmul_comm(fone(), x);
        let mx = fmul(m, x);
        lemma_ops_canon(m, x);
        lemma_fmul_zero(mx);
        lemma_fmul_one(mx);
        lemma_fmul_comm(fone(), mx);
        lemma_fadd_zero(x);
        crate::algebra::lemma_fneg1(x);
    }
    lemma_mle_linear(ones, z, e, x, fmul(m, x), p);
    lemma_mle_constant(ones, p, fone());
    let l = at_most(c, r, c.len());
    lemma_mle_canon(z, p);
    // x - l * x == x * (1 - l)
    crate::algebra::lemma_fsub_neg(fone(), l);
    lemma_fmul_dist(x, fone(), fmul(m, l));
    lemma_fmul_one(x);
    lemma_fmul_comm(fone(), x);
    lemma_fmul_assoc(x, m, l);
    lemma_fmul_comm(x, m);
    lemma_fmul_comm(fmul(m, x), l);
}

} // verus!
