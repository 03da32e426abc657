//! Convolution by Fourier transform agrees with convolution by the definition.
use crate::algebra::{lemma_fsum_eq, lemma_fsum_split};
use crate::arith::{lemma_grid_bound, lemma_grid_digits, lemma_grid_split};
use crate::fft_laws::cyclic;
use crate::field::{
    canon, fadd, fint, fmul, fsum, fzero, law_field_roundtrip, lemma_fadd_comm, lemma_fadd_zero, lemma_fint_hom,
    lemma_fmul_zero, lemma_ops_canon, Fe, GoldilocksExt2, P,
};
use crate::number::{lemma_msum_grid, lemma_msum_truncate, msum, Element};
use crate::tensor::access::idx3;
use crate::tensor::concat_rows;
use crate::tensor::conv::{naive_channel_term, naive_filter_term, naive_row_term};
use crate::tensor::fft_conv::{
    chunk, conv_poly, fft_conv_ok, filter_of, lemma_concat_rows, padded_filter, read_poly, read_polys,
    reversed_chunk, zero_extended,
};
use crate::tensor::Tensor;
use vstd::arithmetic::div_mod::{lemma_mod_add_multiples_vanish, lemma_small_mod};
use vstd::prelude::*;

verus! {

proof fn lemma_fsum_msum(n: nat, f: spec_fn(int) -> Fe)
    ensures
        fsum(n, f) == msum::<GoldilocksExt2>(n, f),
    decreases n,
{
    if n > 0 {
        lemma_fsum_msum((n - 1) as nat, f);
    }
}

/// A sum of integers, taken in the field.
proof fn lemma_fint_msum(n: nat, g: spec_fn(int) -> int, f: spec_fn(int) -> Fe)
    requires
        forall|i: int| 0 <= i < n ==> #[trigger] f(i) == fint(g(i)),
    ensures
        fsum(n, f) == fint(msum::<Element>(n, g)),
    decreases n,
{
    if n > 0 {
        lemma_fint_msum((n - 1) as nat, g, f);
        assert(f(n - 1) == fint(g(n - 1)));
        lemma_fint_hom(msum::<Element>((n - 1) as nat, g), g(n - 1));
    }
}

/// A sum read from the back.
proof fn lemma_fsum_reverse(n: nat, f: spec_fn(int) -> Fe)
    requires
        forall|i: int| 0 <= i < n ==> canon(#[trigger] f(i)),
    ensures
        fsum(n, |t: int| f(n - 1 - t)) == fsum(n, f),
    decreases n,
{
    let g = |t: int| f(n - 1 - t);
    if n > 0 {
        let m = (n - 1) as nat;
        let h = |s: int| f(1 + s);
        assert forall|i: int| 0 <= i < m implies canon(#[trigger] h(i)) by {
            assert(canon(f(1 + i)));
        }
        lemma_fsum_reverse(m, h);
        let hr = |t: int| h(m - 1 - t);
        lemma_fsum_eq(m, g, hr);
        lemma_fsum_split(1, m, f);
        assert(fsum(1, f) == fadd(fsum(0, f), f(0)));
        assert(canon(f(0)));
        lemma_fadd_zero(f(0));
        lemma_fsum_eq(m, h, |i: int| f(1 + i));
        lemma_fadd_comm(f(0), fsum(m, h));
        assert(fsum(n, g) == fadd(fsum(m, g), g(n - 1)));
    }
}

/// One pair of channels: the coefficient of the cyclic convolution is the sum of products of the
/// filter with the window of the input.
#[verifier::spinoff_prover]
proof fn lemma_channel(
    x: Seq<Element>,
    w: Seq<Element>,
    f: int,
    kx: int,
    n: int,
    i: int,
    j: int,
    y: int,
    c: int,
)
    requires
        1 <= f <= n,
        0 <= j < kx,
        0 <= i,
        0 <= y,
        y + f <= n,
        0 <= c,
        c + f <= n,
        kx * (n * n) <= x.len(),
        (i * kx + j) * (f * f) + f * f <= w.len(),
        0 <= (i * kx + j) * (f * f),
    ensures
        ({
            let len = (2 * (n * n)) as nat;
            cyclic(
                zero_extended(reversed_chunk(x, n * n, j), len),
                padded_filter(filter_of(w, f, kx, i, j), f, n, len),
            )[n * n - 1 - (y * n + c)] == fint(
                naive_channel_term::<Element>(x, w, f, n, kx, i, y, c)(j),
            )
        }),
{
    let n2 = n * n;
    assert(n2 >= 1) by (nonlinear_arith)
        requires
            n >= 1,
            n2 == n * n,
    ;
    let len = (2 * n2) as nat;
    let p = y * n + c;
    lemma_grid_bound(y, n, c, n);
    let m = n2 - 1 - p;
    let w_off = (i * kx + j) * (f * f);
    let x_off = j * n2;
    assert(0 <= x_off && (j + 1) * n2 == x_off + n2 && (j + 1) * n2 <= kx * n2) by (nonlinear_arith)
        requires
            0 <= j < kx,
            n2 >= 0,
            x_off == j * n2,
    ;
    let part = chunk(x, n2, j);
    assert(part =~= x.subrange(x_off, x_off + n2));
    let xr = zero_extended(reversed_chunk(x, n2, j), len);
    let fil = filter_of(w, f, kx, i, j);
    let wp = padded_filter(fil, f, n, len);
    let aa = |a: int| fmul(xr[a], wp[(m - a) % (len as int)]);
    // only the lower half of the reversed input counts
    lemma_fsum_msum(len, aa);
    lemma_fsum_msum(n2 as nat, aa);
    assert forall|a: int| 0 <= a < len implies canon(#[trigger] aa(a)) by {
        lemma_ops_canon(xr[a], wp[(m - a) % (len as int)]);
    }
    assert forall|a: int| n2 <= a < len implies #[trigger] aa(a) == fzero() by {
        lemma_fmul_zero(wp[(m - a) % (len as int)]);
    }
    lemma_msum_truncate::<GoldilocksExt2>(len, n2 as nat, aa);
    // read it forwards
    lemma_fsum_reverse(n2 as nat, aa);
    let bb = |t: int| aa(n2 - 1 - t);
    let dd = |b: int|
        if b / n < f && b % n < f {
            fint(w[w_off + ((b / n) * f + b % n)] * x[x_off + (p + b)])
        } else {
            fzero()
        };
    assert forall|b: int| 0 <= b < n2 implies canon(#[trigger] dd(b)) by {
        lemma_fint_hom(w[w_off + ((b / n) * f + b % n)] * x[x_off + (p + b)], 0);
    }
    assert forall|t: int| 0 <= t < p implies #[trigger] bb(t) == fzero() by {
        lemma_mod_add_multiples_vanish(t - p, len as int);
        lemma_small_mod((len + t - p) as nat, len);
        let b = len + t - p;
        assert(b >= n2);
        assert(b / n >= n) by (nonlinear_arith)
            requires
                b >= n * n,
                n >= 1,
        ;
        assert(wp[b] == fzero());
        lemma_fmul_zero(xr[n2 - 1 - t]);
    }
    let cc = |b: int| bb(p + b);
    assert forall|b: int| 0 <= b < n2 - p implies #[trigger] cc(b) == dd(b) by {
        lemma_small_mod(b as nat, len);
        let a = n2 - 1 - (p + b);
        assert((m - a) % (len as int) == b);
        assert(xr[a] == fint(x[x_off + (p + b)] as int));
        if b / n < f && b % n < f {
            assert(0 <= b / n && 0 <= b % n) by (nonlinear_arith)
                requires
                    b >= 0,
                    n >= 1,
            ;
            lemma_grid_bound(b / n, f, b % n, f);
            assert(fil[(b / n) * f + b % n] == w[w_off + ((b / n) * f + b % n)]);
            let (u, v) = (x[x_off + (p + b)] as int, w[w_off + ((b / n) * f + b % n)] as int);
            lemma_fint_hom(u, v);
            assert(u * v == v * u) by (nonlinear_arith);
        } else {
            lemma_fmul_zero(xr[a]);
        }
    }
    lemma_fsum_split(p as nat, (n2 - p) as nat, bb);
    crate::algebra::lemma_fsum_zero(p as nat, bb);
    lemma_fsum_eq((n2 - p) as nat, |b: int| bb(p + b), cc);
    lemma_fsum_eq((n2 - p) as nat, cc, dd);
    crate::algebra::lemma_fsum_canon((n2 - p) as nat, dd);
    lemma_fadd_zero(fsum((n2 - p) as nat, dd));
    // places of the filter beyond the input do not occur
    assert forall|b: int| n2 - p <= b < n2 implies #[trigger] dd(b) == fzero() by {
        if b / n < f && b % n < f {
            lemma_grid_split(b, n, n);
            let (a, e) = (b / n, b % n);
            lemma_grid_bound(y + a, n, c + e, n);
            assert(p + b == (y + a) * n + (c + e)) by (nonlinear_arith)
                requires
                    p == y * n + c,
                    b == a * n + e,
            ;
            assert(false);
        }
    }
    lemma_fsum_msum(n2 as nat, dd);
    lemma_fsum_msum((n2 - p) as nat, dd);
    lemma_msum_truncate::<GoldilocksExt2>(n2 as nat, (n2 - p) as nat, dd);
    // sum along the rows of the filter
    lemma_msum_grid::<GoldilocksExt2>(n as nat, n as nat, dd);
    let rows = |a: int| msum::<GoldilocksExt2>(n as nat, |b: int| dd(a * n + b));
    let h = naive_filter_term::<Element>(x, w, f, n, w_off, x_off, y, c);
    assert forall|a: int| 0 <= a < n implies #[trigger] rows(a) == (if a < f {
        fint(h(a))
    } else {
        fzero()
    }) by {
        let r = |b: int| dd(a * n + b);
        let g = naive_row_term::<Element>(x, w, f, n, w_off, x_off, y, c, a);
        assert forall|b: int| 0 <= b < n implies #[trigger] r(b) == (if a < f && b < f {
            fint(g(b))
        } else {
            fzero()
        }) && canon(r(b)) by {
            lemma_grid_digits(a, b, n);
            lemma_grid_bound(a, n, b, n);
            assert(p + (a * n + b) == (a + y) * n + (b + c)) by (nonlinear_arith)
                requires
                    p == y * n + c,
            ;
            assert(canon(dd(a * n + b)));
        }
        if a < f {
            lemma_msum_truncate::<GoldilocksExt2>(n as nat, f as nat, r);
            lemma_fsum_msum(f as nat, r);
            lemma_fint_msum(f as nat, g, r);
        } else {
            lemma_msum_truncate::<GoldilocksExt2>(n as nat, 0, r);
        }
    }
    assert forall|a: int| 0 <= a < n implies canon(#[trigger] rows(a)) by {
        lemma_fint_hom(h(a), 0);
    }
    lemma_msum_truncate::<GoldilocksExt2>(n as nat, f as nat, rows);
    lemma_fsum_msum(f as nat, rows);
    lemma_fint_msum(f as nat, h, rows);
}

/// The entry at channel `i`, line `y` and column `c` of the direct convolution.
pub open spec fn direct_conv(
    x: Seq<Element>,
    w: Seq<Element>,
    f: int,
    n: int,
    kx: int,
    i: int,
    y: int,
    c: int,
) -> int {
    msum::<Element>(kx as nat, naive_channel_term::<Element>(x, w, f, n, kx, i, y, c))
}

/// Where the filter lies inside the input, the polynomial of the convolution by Fourier transform
/// holds the direct convolution, modulo the prime.
pub proof fn law_conv_poly(
    x: Seq<Element>,
    w: Seq<Element>,
    f: int,
    kx: int,
    n: int,
    i: int,
    y: int,
    c: int,
)
    requires
        1 <= f <= n,
        0 <= kx,
        0 <= i,
        0 <= y,
        y + f <= n,
        0 <= c,
        c + f <= n,
        kx * (n * n) <= x.len(),
        ((i + 1) * kx) * (f * f) <= w.len(),
    ensures
        conv_poly(x, w, f, kx, n, i)[n * n - 1 - (y * n + c)] == fint(
            direct_conv(x, w, f, n, kx, i, y, c),
        ),
{
    let n2 = n * n;
    lemma_grid_bound(y, n, c, n);
    let len = (2 * n2) as nat;
    let m = n2 - 1 - (y * n + c);
    let g = naive_channel_term::<Element>(x, w, f, n, kx, i, y, c);
    let t = |j: int|
        cyclic(
            zero_extended(reversed_chunk(x, n * n, j), len),
            padded_filter(filter_of(w, f, kx, i, j), f, n, len),
        )[m];
    assert forall|j: int| 0 <= j < kx implies #[trigger] t(j) == fint(g(j)) by {
        let (q, z, a) = (i * kx + j, (i + 1) * kx, f * f);
        assert(0 <= q < z) by (nonlinear_arith)
            requires
                0 <= i,
                0 <= j < kx,
                q == i * kx + j,
                z == (i + 1) * kx,
        ;
        assert(0 <= q * a && q * a + a <= z * a) by (nonlinear_arith)
            requires
                0 <= q < z,
                a >= 0,
        ;
        lemma_channel(x, w, f, kx, n, i, j, y, c);
    }
    lemma_fint_msum(kx as nat, g, t);
}

/// The convolution by Fourier transform gives the direct convolution wherever the filter lies
/// inside the input, as long as the sums stay within half the prime.
pub proof fn law_fft_conv_is_direct(
    filter: Tensor<Element>,
    x: Tensor<Element>,
    out: Seq<Element>,
    i: int,
    y: int,
    c: int,
)
    requires
        fft_conv_ok(&filter, &x),
        1 <= filter.og_shape@[2] <= filter.shape@[2],
        filter.shape@[1] * (filter.shape@[2] * filter.shape@[2]) <= x.data@.len(),
        out == read_polys(
            Seq::new(
                filter.shape@[0] as nat,
                |i: int|
                    conv_poly(
                        x.data@,
                        filter.data@,
                        filter.og_shape@[2] as int,
                        filter.shape@[1] as int,
                        filter.shape@[2] as int,
                        i,
                    ),
            ),
            filter.shape@[2] as int,
        ),
        0 <= i < filter.shape@[0],
        0 <= y,
        y + filter.og_shape@[2] <= filter.shape@[2],
        0 <= c,
        c + filter.og_shape@[2] <= filter.shape@[2],
        -(P / 2) <= direct_conv(
            x.data@,
            filter.data@,
            filter.og_shape@[2] as int,
            filter.shape@[2] as int,
            filter.shape@[1] as int,
            i,
            y,
            c,
        ) <= P / 2,
    ensures
        out[idx3(filter.shape@[2] as int, filter.shape@[2] as int, i, y, c)] == direct_conv(
            x.data@,
            filter.data@,
            filter.og_shape@[2] as int,
            filter.shape@[2] as int,
            filter.shape@[1] as int,
            i,
            y,
            c,
        ),
{
    let (f, n, kx, kw) = (
        filter.og_shape@[2] as int,
        filter.shape@[2] as int,
        filter.shape@[1] as int,
        filter.shape@[0] as int,
    );
    let polys = Seq::new(kw as nat, |i: int| conv_poly(x.data@, filter.data@, f, kx, n, i));
    let rows = polys.map_values(|u: Seq<Fe>| read_poly(u, n));
    let n2 = n * n;
    lemma_grid_bound(y, n, c, n);
    assert forall|k: int| 0 <= k < rows.len() implies (#[trigger] rows[k]).len() == n2 by {
        assert(polys[k].len() == 2 * n2);
    }
    lemma_concat_rows(rows, n2 as nat);
    assert(out == concat_rows(rows));
    let p = y * n + c;
    assert(concat_rows(rows)[i * (n2 as nat) + p] == rows[i][p]);
    let a = f * f;
    assert(((i + 1) * kx) * a <= (kw * kx) * a) by (nonlinear_arith)
        requires
            i + 1 <= kw,
            kx >= 0,
            a >= 0,
    ;
    assert(a >= 0) by (nonlinear_arith)
        requires
            a == f * f,
    ;
    law_conv_poly(x.data@, filter.data@, f, kx, n, i, y, c);
    law_field_roundtrip(direct_conv(x.data@, filter.data@, f, n, kx, i, y, c));
}

} // verus!
