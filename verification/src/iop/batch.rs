//! Proofs of many transforms at once: `Y = W X`, where the columns of `X` are the vectors and `W` is the
//! Fourier matrix.
use crate::algebra::{lemma_fsum_eq, lemma_fsum_scale, lemma_fsum_swap};
use crate::arith::{flog2, floor_log2, is_pow2, lemma_flog2_pow2, lemma_grid_bound, lemma_grid_digits};
use crate::fft::{dft, fes, idft, inverse_of_pow2, lemma_inverse_of_pow2, lemma_inverse_unique};
use crate::field::{
    canon, fint, fmul, fone, fpow, fsum, fzero, lemma_fe_canon, lemma_fmul_assoc, lemma_fmul_comm, lemma_fmul_zero,
    Fe, GoldilocksExt2, P,
};
use crate::iop::delegation::half_table;
use crate::iop::fourier::{law_inverse_transform_at, law_transform_at, level, level_table, phase, phi_g_init, zero_vec};
use crate::mle::{
    chi, column_evals, lemma_mle_append, lemma_mle_eq, mle_eval, mle_term, row_evals, table_column, table_row, Mle,
};
use crate::tensor::copy_slice;
use crate::tensor::fft_conv::{fes2, zero_extended};
use vstd::arithmetic::power2::{
    lemma2_to64, lemma_pow2_adds, lemma_pow2_pos, lemma_pow2_strictly_increases, lemma_pow2_unfold, pow2,
};
use vstd::prelude::*;
use vstd::slice::slice_subrange;

verus! {

/// The tables of the sum that shows many transforms: the vectors mixed at the high part of the point, and the
/// row of the Fourier matrix at the low part.
#[derive(Debug)]
pub struct BatchTables {
    pub f_m: Vec<GoldilocksExt2>,
    pub f_red: Vec<GoldilocksExt2>,
    pub f_middle: Vec<Vec<GoldilocksExt2>>,
    pub r1: Vec<GoldilocksExt2>,
}

/// The vectors one behind the other.
pub open spec fn stacked(rows: Seq<Seq<Fe>>, len: nat) -> Seq<Fe> {
    Seq::new(rows.len() * len, |p: int| rows[p / (len as int)][p % (len as int)])
}

/// Entry `i` of the mixed vectors is the extension, at `q`, of the entries `i` of all vectors.
pub open spec fn mixed(rows: Seq<Seq<Fe>>, q: Seq<Fe>, len: nat) -> Seq<Fe> {
    Seq::new(len, |i: int| mle_eval(Seq::new(rows.len(), |j: int| rows[j][i]), q))
}

/// The vectors, each filled up with zeros to the given length.
pub open spec fn extended(rows: Seq<Seq<Fe>>, len: nat) -> Seq<Seq<Fe>> {
    rows.map_values(|v: Seq<Fe>| zero_extended(v, len))
}

/// The sum of the products of two tables.
pub open spec fn sum_of_products(a: Seq<Fe>, b: Seq<Fe>) -> Fe {
    fsum(a.len(), |i: int| fmul(a[i], b[i]))
}

pub proof fn lemma_stacked(rows: Seq<Seq<Fe>>, len: nat, j: int, i: int)
    requires
        0 <= j < rows.len(),
        0 <= i < len,
    ensures
        0 <= j * len + i < rows.len() * len,
        stacked(rows, len)[j * len + i] == rows[j][i],
{
    lemma_grid_bound(j, rows.len() as int, i, len as int);
    lemma_grid_digits(j, i, len as int);
}

/// The extension of the stacked vectors, along the vectors first.
pub proof fn lemma_stacked_mle(rows: Seq<Seq<Fe>>, p: Seq<Fe>, q: Seq<Fe>)
    requires
        rows.len() == pow2(q.len()),
        forall|j: int| 0 <= j < rows.len() ==> (#[trigger] rows[j]).len() == pow2(p.len()),
    ensures
        mle_eval(stacked(rows, pow2(p.len())), p + q) == mle_eval(
            Seq::new(rows.len(), |j: int| mle_eval(rows[j], p)),
            q,
        ),
{
    let m = pow2(p.len());
    let e = stacked(rows, m);
    lemma_pow2_adds(p.len(), q.len());
    assert(rows.len() * m == m * rows.len()) by (nonlinear_arith);
    lemma_mle_append(e, p, q);
    let a = row_evals(e, p, pow2(q.len()));
    let b = Seq::new(rows.len(), |j: int| mle_eval(rows[j], p));
    assert forall|j: int| 0 <= j < pow2(q.len()) implies #[trigger] a[j] == b[j] by {
        let row = table_row(e, j, m);
        assert forall|i: int| 0 <= i < m implies #[trigger] row[i] == rows[j][i] by {
            lemma_stacked(rows, m, j, i);
        }
        lemma_mle_eq(row, rows[j], p);
    }
    lemma_mle_eq(a, b, q);
}

/// Mixing vectors commutes with taking inner products with one vector.
pub proof fn lemma_mixed_product(rows: Seq<Seq<Fe>>, q: Seq<Fe>, len: nat, l: Seq<Fe>)
    requires
        rows.len() == pow2(q.len()),
        l.len() == len,
    ensures
        sum_of_products(mixed(rows, q, len), l) == mle_eval(
            Seq::new(rows.len(), |j: int| fsum(len, |i: int| fmul(rows[j][i], l[i]))),
            q,
        ),
{
    let n = rows.len();
    let f = |j: int, i: int| fmul(fmul(rows[j][i], l[i]), chi(j, q));
    let d = Seq::new(n, |j: int| fsum(len, |i: int| fmul(rows[j][i], l[i])));
    let a = mle_term(d, q);
    let r = |j: int| fsum(len, |i: int| f(j, i));
    assert forall|j: int| 0 <= j < n implies #[trigger] a(j) == r(j) by {
        let c = chi(j, q);
        let g = |i: int| fmul(rows[j][i], l[i]);
        lemma_fsum_scale(len, c, g);
        lemma_fmul_comm(c, fsum(len, g));
        let u = |i: int| fmul(c, g(i));
        let v = |i: int| f(j, i);
        assert forall|i: int| 0 <= i < len implies #[trigger] u(i) == v(i) by {
            lemma_fmul_comm(c, g(i));
        }
        lemma_fsum_eq(len, u, v);
    }
    lemma_fsum_eq(n, a, r);
    lemma_fsum_swap(n, len, f);
    let m = mixed(rows, q, len);
    let b = |i: int| fmul(m[i], l[i]);
    let cols = |i: int| fsum(n, |j: int| f(j, i));
    assert forall|i: int| 0 <= i < len implies #[trigger] b(i) == cols(i) by {
        let t = mle_term(Seq::new(n, |j: int| rows[j][i]), q);
        lemma_fsum_scale(n, l[i], t);
        lemma_fmul_comm(l[i], fsum(n, t));
        let u = |j: int| fmul(l[i], t(j));
        let v = |j: int| f(j, i);
        assert forall|j: int| 0 <= j < n implies #[trigger] u(j) == v(j) by {
            let (x, c) = (rows[j][i], chi(j, q));
            lemma_fmul_assoc(l[i], x, c);
            lemma_fmul_comm(l[i], x);
        }
        lemma_fsum_eq(n, u, v);
    }
    lemma_fsum_eq(len, b, cols);
}

/// The extension of the transforms of all vectors at `p + q` is the sum of products of the mixed vectors and
/// the row of the Fourier matrix at `p`.
pub proof fn law_batch_transform(rows: Seq<Seq<Fe>>, p: Seq<Fe>, q: Seq<Fe>, phi: Fe)
    requires
        rows.len() == pow2(q.len()),
        canon(phi),
        forall|j: int| 0 <= j < rows.len() ==> (#[trigger] rows[j]).len() == pow2(p.len()),
    ensures
        mle_eval(stacked(rows.map_values(|v: Seq<Fe>| dft(v, phi)), pow2(p.len())), p + q) == sum_of_products(
            mixed(rows, q, pow2(p.len())),
            level_table(p, phi, fone(), p.len(), p.len()),
        ),
{
    let m = pow2(p.len());
    let ys = rows.map_values(|v: Seq<Fe>| dft(v, phi));
    let l = level_table(p, phi, fone(), p.len(), p.len());
    assert forall|j: int| 0 <= j < ys.len() implies (#[trigger] ys[j]).len() == m by {
        assert(rows[j].len() == m);
    }
    lemma_stacked_mle(ys, p, q);
    lemma_mixed_product(rows, q, m, l);
    let a = Seq::new(ys.len(), |j: int| mle_eval(ys[j], p));
    let b = Seq::new(rows.len(), |j: int| fsum(m, |i: int| fmul(rows[j][i], l[i])));
    assert forall|j: int| 0 <= j < pow2(q.len()) implies #[trigger] a[j] == b[j] by {
        assert(rows[j].len() == m);
        law_transform_at(rows[j], p, phi);
        lemma_fsum_eq(
            m,
            |i: int| fmul(rows[j][i], level(p, phi, fone(), p.len(), p.len(), i)),
            |i: int| fmul(rows[j][i], l[i]),
        );
    }
    lemma_mle_eq(a, b, q);
}

/// The extension of the inverse transforms, likewise.
pub proof fn law_batch_inverse_transform(rows: Seq<Seq<Fe>>, p: Seq<Fe>, q: Seq<Fe>, w: Fe)
    requires
        rows.len() == pow2(q.len()),
        canon(w),
        forall|j: int| 0 <= j < rows.len() ==> (#[trigger] rows[j]).len() == pow2(p.len()),
    ensures
        mle_eval(stacked(rows.map_values(|v: Seq<Fe>| idft(v, w)), pow2(p.len())), p + q) == sum_of_products(
            mixed(rows, q, pow2(p.len())),
            level_table(p, fpow(w, (pow2(p.len()) - 1) as nat), inverse_of_pow2(p.len()), p.len(), p.len()),
        ),
{
    let m = pow2(p.len());
    let phi = fpow(w, (m - 1) as nat);
    let s = inverse_of_pow2(p.len());
    let ys = rows.map_values(|v: Seq<Fe>| idft(v, w));
    let l = level_table(p, phi, s, p.len(), p.len());
    assert forall|j: int| 0 <= j < ys.len() implies (#[trigger] ys[j]).len() == m by {
        assert(rows[j].len() == m);
    }
    lemma_stacked_mle(ys, p, q);
    lemma_mixed_product(rows, q, m, l);
    let a = Seq::new(ys.len(), |j: int| mle_eval(ys[j], p));
    let b = Seq::new(rows.len(), |j: int| fsum(m, |i: int| fmul(rows[j][i], l[i])));
    assert forall|j: int| 0 <= j < pow2(q.len()) implies #[trigger] a[j] == b[j] by {
        assert(rows[j].len() == m);
        law_inverse_transform_at(rows[j], p, w);
        lemma_fsum_eq(
            m,
            |i: int| fmul(rows[j][i], level(p, phi, s, p.len(), p.len(), i)),
            |i: int| fmul(rows[j][i], l[i]),
        );
    }
    lemma_mle_eq(a, b, q);
}

/// For vectors whose second half is zero, the first half of the row is enough.
pub proof fn law_half_row_is_enough(a: Seq<Fe>, rx: Seq<Fe>, phi: Fe, scale: Fe)
    requires
        rx.len() >= 1,
        a.len() == pow2(rx.len()),
        forall|i: int| pow2((rx.len() - 1) as nat) <= i < a.len() ==> #[trigger] a[i] == fzero(),
    ensures
        sum_of_products(a, level_table(rx, phi, scale, rx.len(), rx.len())) == sum_of_products(
            a,
            half_table(rx, phi, scale, rx.len()),
        ),
{
    let n = rx.len();
    let (l, h) = (level_table(rx, phi, scale, n, n), half_table(rx, phi, scale, n));
    let f = |i: int| fmul(a[i], l[i]);
    let g = |i: int| fmul(a[i], h[i]);
    assert forall|i: int| 0 <= i < a.len() implies #[trigger] f(i) == g(i) by {
        if i >= pow2((n - 1) as nat) {
            assert(a[i] == fzero());
            lemma_fmul_zero(l[i]);
            lemma_fmul_zero(fzero());
        }
    }
    lemma_fsum_eq(a.len(), f, g);
}

/// All rows have the length `len`, a power of two whose double a transform accepts.
pub open spec fn batch_ok(x: Seq<Vec<GoldilocksExt2>>, len: nat, n: nat) -> bool {
    &&& is_pow2(x.len() as int)
    &&& 1 <= n <= 32
    &&& pow2(n) == len
    &&& x.len() * len <= usize::MAX
    &&& len <= usize::MAX
}

/// The rows, each filled up with zeros to `len` entries, one behind the other.
fn stack_rows(x: &Vec<Vec<GoldilocksExt2>>, len: usize) -> (r: Vec<GoldilocksExt2>)
    requires
        x@.len() * len <= usize::MAX,
        len >= 1,
        forall|j: int| 0 <= j < x@.len() ==> (#[trigger] x@[j])@.len() <= len,
    ensures
        fes(r@) == stacked(extended(fes2(x@), len as nat), len as nat),
{
    let ghost rows = extended(fes2(x@), len as nat);
    let mut r: Vec<GoldilocksExt2> = Vec::new();
    let mut j: usize = 0;
    proof {
        assert(0 * len == 0);
    }
    while j < x.len()
        invariant
            j <= x@.len(),
            len >= 1,
            rows == extended(fes2(x@), len as nat),
            rows.len() == x@.len(),
            forall|j: int| 0 <= j < x@.len() ==> (#[trigger] x@[j])@.len() <= len,
            r@.len() == j * len,
            forall|a: int, i: int|
                0 <= a < j && 0 <= i < len ==> (#[trigger] r@[a * len + i]).fe() == rows[a][i],
        decreases x@.len() - j,
    {
        let ghost start = r@;
        let mut i: usize = 0;
        while i < len
            invariant
                i <= len,
                j < x@.len(),
                x@[j as int]@.len() <= len,
                rows == extended(fes2(x@), len as nat),
                rows.len() == x@.len(),
                start.len() == j * len,
                r@.len() == j * len + i,
                forall|p: int| 0 <= p < start.len() ==> #[trigger] r@[p] == start[p],
                forall|b: int| 0 <= b < i ==> (#[trigger] r@[j * len + b]).fe() == rows[j as int][b],
            decreases len - i,
        {
            if i < x[j].len() {
                r.push(x[j][i]);
            } else {
                r.push(GoldilocksExt2::zero());
            }
            i = i + 1;
        }
        proof {
            assert((j + 1) * len == j * len + len) by (nonlinear_arith);
            assert forall|a: int, b: int| 0 <= a < j + 1 && 0 <= b < len implies (#[trigger] r@[a * len + b]).fe()
                == rows[a][b] by {
                if a < j {
                    lemma_grid_bound(a, j as int, b, len as int);
                    assert(r@[a * len + b] == start[a * len + b]);
                }
            }
        }
        j = j + 1;
    }
    proof {
        let want = stacked(rows, len as nat);
        assert forall|p: int| 0 <= p < want.len() implies fes(r@)[p] == want[p] by {
            crate::arith::lemma_grid_split(p, rows.len() as int, len as int);
            assert(r@[(p / (len as int)) * len + p % (len as int)].fe() == rows[p / (len as int)][p % (len as int)]);
        }
        assert(fes(r@) =~= want);
    }
    r
}

/// Mixes the rows at `q`.
fn mix_rows(x: &Vec<Vec<GoldilocksExt2>>, len: usize, q: &[GoldilocksExt2], Ghost(n): Ghost<nat>) -> (r: Vec<
    GoldilocksExt2,
>)
    requires
        batch_ok(x@, len as nat, n),
        forall|j: int| 0 <= j < x@.len() ==> (#[trigger] x@[j])@.len() <= len,
        x@.len() == pow2(q@.len()),
    ensures
        fes(r@) == mixed(extended(fes2(x@), len as nat), fes(q@), len as nat),
{
    let ghost rows = extended(fes2(x@), len as nat);
    proof {
        lemma_pow2_pos(n);
    }
    let flat = stack_rows(x, len);
    proof {
        lemma_pow2_adds(n, q@.len());
        assert(x@.len() * len == len * x@.len()) by (nonlinear_arith);
        assert(fes(flat@).len() == rows.len() * len);
        assert(pow2(n + q@.len()) == flat@.len());
        lemma_flog2_pow2(n + q@.len());
    }
    let ghost flat_len = flat@.len();
    let mut mle = Mle::new(flat);
    let ghost e = mle.table();
    proof {
        lemma_flog2_pow2(mle.num_vars as nat);
    }
    mle.fix_high_variables_in_place(q);
    proof {
        let a = column_evals(e, fes(q@), pow2(n));
        let b = mixed(rows, fes(q@), len as nat);
        assert forall|i: int| 0 <= i < len implies #[trigger] a[i] == b[i] by {
            let c = table_column(e, i, pow2(n), pow2(q@.len()));
            let d = Seq::new(rows.len(), |j: int| rows[j][i]);
            assert forall|j: int| 0 <= j < pow2(fes(q@).len()) implies #[trigger] c[j] == d[j] by {
                lemma_stacked(rows, len as nat, j, i);
            }
            lemma_mle_eq(c, d, fes(q@));
        }
        assert(a =~= b);
    }
    mle.evaluations
}

/// `n` empty vectors.
fn empty_rows(n: usize) -> (r: Vec<Vec<GoldilocksExt2>>)
    ensures
        r@.len() == n,
{
    let mut r: Vec<Vec<GoldilocksExt2>> = Vec::with_capacity(n);
    let mut i: usize = 0;
    while i < n
        invariant
            i <= n,
            r@.len() == i,
        decreases n - i,
    {
        r.push(Vec::new());
        i = i + 1;
    }
    r
}

/// The row of the Fourier matrix at `r1`, times `scale`, and the levels below it.
pub(crate) fn fourier_row(r1: &[GoldilocksExt2], scale: GoldilocksExt2, len: usize, is_fft: bool) -> (r: (
    Vec<GoldilocksExt2>,
    Vec<Vec<GoldilocksExt2>>,
))
    requires
        1 <= r1@.len() <= 32,
        len == pow2(r1@.len()),
    ensures
        ({
            let n = r1@.len();
            let ph = phase(n, is_fft);
            &&& fes(r.0@) == (if is_fft {
                level_table(fes(r1@), ph, scale.fe(), n, n)
            } else {
                half_table(fes(r1@), ph, scale.fe(), n)
            })
            &&& r.1@.len() == n - 1
            &&& forall|i: int|
                0 <= i < n - 1 ==> fes(#[trigger] r.1@[i]@) == level_table(
                    fes(r1@),
                    ph,
                    scale.fe(),
                    n,
                    (i + 1) as nat,
                )
        }),
{
    let n: usize = r1.len();
    let mut w_red = zero_vec(len);
    let mut f_middle = empty_rows(n - 1);
    let ghost zeros = w_red@;
    phi_g_init(&mut w_red, &mut f_middle, r1, scale, n, is_fft);
    proof {
        let ph = phase(n as nat, is_fft);
        lemma_pow2_unfold(n as nat);
        if is_fft {
            assert(fes(w_red@) =~= level_table(fes(r1@), ph, scale.fe(), n as nat, n as nat));
        } else {
            assert(fes(w_red@) =~= half_table(fes(r1@), ph, scale.fe(), n as nat)) by {
                assert forall|b: int| 0 <= b < len implies fes(w_red@)[b] == half_table(
                    fes(r1@),
                    ph,
                    scale.fe(),
                    n as nat,
                )[b] by {
                    if b >= pow2((n - 1) as nat) {
                        assert(w_red@[b] == zeros[b]);
                    }
                }
            }
        }
    }
    (w_red, f_middle)
}

/// The tables that show the transforms of the vectors `x`, each padded with zeros to twice its length, at
/// the point `r`.
pub fn batch_fft_tables(r: &[GoldilocksExt2], x: &Vec<Vec<GoldilocksExt2>>) -> (t: BatchTables)
    requires
        x@.len() > 0,
        ({
            let len = 2 * x@[0]@.len();
            &&& batch_ok(x@, len, flog2(len))
            &&& forall|j: int| 0 <= j < x@.len() ==> (#[trigger] x@[j])@.len() <= len
            &&& r@.len() >= flog2(len) + flog2(x@.len())
        }),
    ensures
        ({
            let len = 2 * x@[0]@.len();
            let n = flog2(len);
            let k = flog2(x@.len());
            let p = fes(r@).take(n as int);
            let q = fes(r@).subrange(n as int, (n + k) as int);
            &&& fes(t.r1@) == p
            &&& fes(t.f_m@) == mixed(extended(fes2(x@), len), q, len)
            &&& fes(t.f_red@) == half_table(p, phase(n, false), fone(), n)
            &&& t.f_middle@.len() == n - 1
            &&& forall|i: int|
                0 <= i < n - 1 ==> fes(#[trigger] t.f_middle@[i]@) == level_table(
                    p,
                    phase(n, false),
                    fone(),
                    n,
                    (i + 1) as nat,
                )
        }),
{
    let padded_rows: usize = 2 * x[0].len();
    let n = floor_log2(padded_rows);
    let k = floor_log2(x.len());
    proof {
        let e = choose|e: nat| #[trigger] pow2(e) == x@.len();
        lemma_flog2_pow2(e);
    }
    let r1 = slice_subrange(r, 0, n);
    let r2 = slice_subrange(r, n, n + k);
    let (f_red, f_middle) = fourier_row(r1, GoldilocksExt2::one(), padded_rows, false);
    let f_m = mix_rows(x, padded_rows, r2, Ghost(n as nat));
    proof {
        assert(fes(r1@) =~= fes(r@).take(n as int));
        assert(fes(r2@) =~= fes(r@).subrange(n as int, (n + k) as int));
    }
    BatchTables { f_m, f_red, f_middle, r1: copy_slice(r1) }
}

/// The tables that show the inverse transforms of the vectors `prod` at the point `r`, whose last coordinate
/// along the vectors is zero.
pub fn batch_ifft_tables(r: &[GoldilocksExt2], prod: &Vec<Vec<GoldilocksExt2>>) -> (t: BatchTables)
    requires
        prod@.len() > 0,
        ({
            let len = prod@[0]@.len();
            &&& batch_ok(prod@, len, flog2(len))
            &&& forall|j: int| 0 <= j < prod@.len() ==> (#[trigger] prod@[j])@.len() == len
            &&& r@.len() >= flog2(len) + flog2(prod@.len())
            &&& r@[flog2(len) - 1].fe() == fzero()
        }),
    ensures
        ({
            let len = prod@[0]@.len();
            let n = flog2(len);
            let k = flog2(prod@.len());
            let p = fes(r@).take(n as int);
            let q = fes(r@).subrange(n as int, (n + k) as int);
            &&& fes(t.r1@) == p
            &&& fes(t.f_m@) == mixed(fes2(prod@), q, len)
            &&& fes(t.f_red@) == level_table(p, phase(n, true), inverse_of_pow2(n), n, n)
            &&& t.f_middle@.len() == n - 1
            &&& forall|i: int|
                0 <= i < n - 1 ==> fes(#[trigger] t.f_middle@[i]@) == level_table(
                    p,
                    phase(n, true),
                    inverse_of_pow2(n),
                    n,
                    (i + 1) as nat,
                )
        }),
{
    let len: usize = prod[0].len();
    let n = floor_log2(len);
    let k = floor_log2(prod.len());
    proof {
        let e = choose|e: nat| #[trigger] pow2(e) == prod@.len();
        lemma_flog2_pow2(e);
        lemma2_to64();
        if n < 32 {
            lemma_pow2_strictly_increases(n as nat, 32);
        }
        lemma_inverse_of_pow2(n as nat);
    }
    let size = GoldilocksExt2::from_canonical_u64(len as u64);
    proof {
        vstd::arithmetic::div_mod::lemma_small_mod(len as nat, P as nat);
        lemma_pow2_pos(n as nat);
    }
    let scale = size.inverse();
    proof {
        lemma_fe_canon(scale);
        lemma_inverse_unique(fint(len as int), scale.fe(), inverse_of_pow2(n as nat));
    }
    let r1 = slice_subrange(r, 0, n);
    let r2 = slice_subrange(r, n, n + k);
    let (f_red, f_middle) = fourier_row(r1, scale, len, true);
    let f_m = mix_rows(prod, len, r2, Ghost(n as nat));
    proof {
        assert(fes(r1@) =~= fes(r@).take(n as int));
        assert(fes(r2@) =~= fes(r@).subrange(n as int, (n + k) as int));
        assert(extended(fes2(prod@), len as nat) =~= fes2(prod@)) by {
            assert forall|j: int| 0 <= j < prod@.len() implies extended(fes2(prod@), len as nat)[j] == fes2(prod@)[j] by {
                assert(prod@[j]@.len() == len);
                assert(zero_extended(fes(prod@[j]@), len as nat) =~= fes(prod@[j]@));
            }
        }
    }
    BatchTables { f_m, f_red, f_middle, r1: copy_slice(r1) }
}

} // verus!
