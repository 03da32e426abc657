//! A padded convolution layer computes the convolution of the unpadded input with the unpadded filter.
use crate::algebra::{lemma_fsum_eq, lemma_fsum_split, lemma_fsum_zero};
use crate::arith::{lemma_grid_bound, lemma_grid_digits, lemma_npot, npot};
use crate::fft_laws::cyclic;
use crate::field::{fint, fmul, fsum, fzero, law_field_roundtrip, lemma_fadd_zero, lemma_fmul_zero, Fe, P};
use crate::layers::convolution::apply::{biased_at, full_sides, op_at, raw_output, transform_input};
use crate::layers::convolution::clearing::{lemma_strides_below, strides_below};
use crate::layers::convolution::input::{framed_entry, lemma_framed_input, lemma_padded3};
use crate::layers::convolution::shapes::{conv_shape_ok, height, width};
use crate::layers::convolution::Convolution;
use crate::number::{lemma_msum_eq, lemma_msum_grid, msum, Element, Number};
use crate::padding::PaddingMode;
use crate::shape::{flat, in_bounds, lemma_coords_flat, lemma_prod_of_rank, prod};
use crate::tensor::access::{dims4, idx3, idx4, is_framed, lemma_flat3, lemma_idx4};
use crate::tensor::conv::{conv2d_term, is_conv2d, naive_channel_term, naive_filter_term, naive_row_term};
use crate::tensor::conv_laws::{direct_conv, law_conv_poly};
use crate::tensor::fft_conv::{
    conv_poly, filter_of, lemma_concat_rows, padded_filter, read_poly, reversed_chunk, zero_extended,
};
use crate::tensor::pad::{npots, padded, padded_at};
use crate::tensor::{concat_rows, Tensor};
use vstd::prelude::*;

verus! {

pub proof fn lemma_flat4(s: Seq<usize>, n: int, c: int, h: int, w: int)
    requires
        s.len() == 4,
    ensures
        flat(s, seq![n, c, h, w]) == idx4(s[1] as int, s[2] as int, s[3] as int, n, c, h, w),
{
    let k = seq![n, c, h, w];
    let t = s.skip(1);
    assert(k.skip(1) =~= seq![c, h, w]);
    lemma_flat3(t, c, h, w);
    lemma_prod_of_rank(t);
}

/// An entry of a padded tensor of rank four.
pub proof fn lemma_padded4<T>(
    data: Seq<T>,
    s: Seq<usize>,
    t: Seq<usize>,
    fill: T,
    n: int,
    c: int,
    h: int,
    w: int,
)
    requires
        s.len() == 4,
        t.len() == 4,
        0 <= n < t[0],
        0 <= c < t[1],
        0 <= h < t[2],
        0 <= w < t[3],
    ensures
        ({
            let p = idx4(t[1] as int, t[2] as int, t[3] as int, n, c, h, w);
            &&& 0 <= p < prod(t)
            &&& padded_at(data, s, t, fill, p) == (if n < s[0] && c < s[1] && h < s[2] && w < s[3] {
                data[idx4(s[1] as int, s[2] as int, s[3] as int, n, c, h, w)]
            } else {
                fill
            })
        }),
{
    let k = seq![n, c, h, w];
    lemma_flat4(t, n, c, h, w);
    lemma_flat4(s, n, c, h, w);
    assert(in_bounds(t, k));
    lemma_coords_flat(t, k);
    lemma_prod_of_rank(t);
    lemma_idx4(t[0] as int, t[1] as int, t[2] as int, t[3] as int, n, c, h, w);
    if in_bounds(s, k) {
        assert(0 <= k[0] < s[0] && 0 <= k[1] < s[1] && 0 <= k[2] < s[2] && 0 <= k[3] < s[3]);
    }
}

/// The shape of a filter: `kw` by `kx` kernels of side `k`.
pub open spec fn is_filter_shape(s: Seq<usize>) -> bool {
    &&& s.len() == 4
    &&& s[2] == s[3]
    &&& s[0] > 0
    &&& s[1] > 0
    &&& s[2] > 0
    &&& forall|i: int| 0 <= i < 4 ==> npot(#[trigger] s[i] as nat) <= usize::MAX
}

/// Laid out for the transform, a padded kernel is the kernel itself, or zero for a channel that padding
/// added.
proof fn lemma_padded_kernel(w0: Seq<Element>, fs: Seq<usize>, n: int, i: int, j: int, len: nat)
    requires
        is_filter_shape(fs),
        w0.len() == prod(fs),
        0 <= i < fs[0],
        0 <= j < npots(fs)[1],
        npots(fs)[2] <= n,
        len == 2 * (n * n),
    ensures
        ({
            let t = npots(fs);
            let w = padded(w0, fs, t, 0i64);
            padded_filter(filter_of(w, t[2] as int, t[1] as int, i, j), t[2] as int, n, len) == (if j < fs[1] {
                padded_filter(filter_of(w0, fs[2] as int, fs[1] as int, i, j), fs[2] as int, n, len)
            } else {
                Seq::new(len, |b: int| fzero())
            })
        }),
{
    let t = npots(fs);
    let w = padded(w0, fs, t, 0i64);
    let (k, f, kx, kxp) = (fs[2] as int, t[2] as int, fs[1] as int, t[1] as int);
    lemma_npot(fs[0] as nat);
    lemma_npot(fs[1] as nat);
    lemma_npot(fs[2] as nat);
    assert(t[0] == npot(fs[0] as nat) && t[1] == npot(fs[1] as nat) && t[2] == npot(fs[2] as nat) && t[3] == t[2]);
    lemma_prod_of_rank(t);
    lemma_prod_of_rank(fs);
    let a = padded_filter(filter_of(w, f, kxp, i, j), f, n, len);
    let b = if j < kx {
        padded_filter(filter_of(w0, k, kx, i, j), k, n, len)
    } else {
        Seq::new(len, |b: int| fzero())
    };
    assert(fint(0) == fzero());
    assert forall|p: int| 0 <= p < len implies #[trigger] a[p] == b[p] by {
        let (y, x) = (p / n, p % n);
        vstd::arithmetic::div_mod::lemma_div_pos_is_pos(p, n);
        vstd::arithmetic::div_mod::lemma_mod_bound(p, n);
        if y < f && x < f {
            lemma_padded4(w0, fs, t, 0i64, i, j, y, x);
            let q = idx4(kxp, f, f, i, j, y, x);
            lemma_filter_index(kxp, f, i, j, y, x);
            lemma_filter_part(t[0] as int, kxp, f, i, j, y, x);
            assert(filter_of(w, f, kxp, i, j)[y * f + x] == w[q]);
            assert(a[p] == fint(w[q] as int));
            if j < kx && y < k && x < k {
                lemma_filter_index(kx, k, i, j, y, x);
                lemma_filter_part(fs[0] as int, kx, k, i, j, y, x);
                assert(filter_of(w0, k, kx, i, j)[y * k + x] == w0[idx4(kx, k, k, i, j, y, x)]);
            }
        }
    }
    assert(a =~= b);
}

/// Two ways to address a weight.
proof fn lemma_filter_index(kx: int, f: int, i: int, j: int, y: int, x: int)
    ensures
        idx4(kx, f, f, i, j, y, x) == (i * kx + j) * (f * f) + (y * f + x),
{
    let a = f * f;
    assert(i * (kx * a) + j * a == (i * kx + j) * a) by (nonlinear_arith);
}

/// The weights of one kernel lie inside the filter.
proof fn lemma_filter_part(kw: int, kx: int, f: int, i: int, j: int, y: int, x: int)
    requires
        0 <= i < kw,
        0 <= j < kx,
        0 <= y < f,
        0 <= x < f,
    ensures
        0 <= y * f + x < f * f,
        0 <= (i * kx + j) * (f * f),
        (i * kx + j) * (f * f) + f * f <= kw * (kx * (f * f)),
{
    lemma_grid_bound(y, f, x, f);
    lemma_grid_bound(i, kw, j, kx);
    let (q, m, a) = (i * kx + j, kw * kx, f * f);
    assert(0 <= q * a && q * a + a <= m * a) by (nonlinear_arith)
        requires
            0 <= q < m,
            a >= 0,
    ;
    assert((kw * kx) * a == kw * (kx * a)) by (nonlinear_arith);
}

/// Nothing comes of a kernel of zeros.
proof fn lemma_cyclic_zero(x: Seq<Fe>, z: Seq<Fe>, m: int)
    requires
        0 <= m < x.len(),
        z.len() == x.len(),
        forall|b: int| 0 <= b < z.len() ==> #[trigger] z[b] == fzero(),
    ensures
        cyclic(x, z)[m] == fzero(),
{
    let f = |a: int| fmul(x[a], z[(m - a) % (x.len() as int)]);
    assert forall|a: int| 0 <= a < x.len() implies #[trigger] f(a) == fzero() by {
        vstd::arithmetic::div_mod::lemma_mod_bound(m - a, x.len() as int);
        assert(z[(m - a) % (x.len() as int)] == fzero());
        lemma_fmul_zero(x[a]);
    }
    lemma_fsum_zero(x.len(), f);
}

/// Padding a filter does not change the polynomials of its convolution.
proof fn lemma_padded_conv_poly(x: Seq<Element>, w0: Seq<Element>, fs: Seq<usize>, n: int, i: int)
    requires
        is_filter_shape(fs),
        w0.len() == prod(fs),
        0 <= i < fs[0],
        npots(fs)[2] <= n,
    ensures
        conv_poly(
            x,
            padded(w0, fs, npots(fs), 0i64),
            npots(fs)[2] as int,
            npots(fs)[1] as int,
            n,
            i,
        ) == conv_poly(x, w0, fs[2] as int, fs[1] as int, n, i),
{
    let t = npots(fs);
    let w = padded(w0, fs, t, 0i64);
    let (k, f, kx, kxp) = (fs[2] as int, t[2] as int, fs[1] as int, t[1] as int);
    lemma_npot(fs[1] as nat);
    lemma_npot(fs[2] as nat);
    assert(t[1] == npot(fs[1] as nat) && t[2] == npot(fs[2] as nat));
    let len = (2 * (n * n)) as nat;
    assert(n * n >= 0) by (nonlinear_arith);
    let a = conv_poly(x, w, f, kxp, n, i);
    let b = conv_poly(x, w0, k, kx, n, i);
    assert forall|m: int| 0 <= m < len implies #[trigger] a[m] == b[m] by {
        let g = |j: int|
            cyclic(
                zero_extended(reversed_chunk(x, n * n, j), len),
                padded_filter(filter_of(w, f, kxp, i, j), f, n, len),
            )[m];
        let h = |j: int|
            cyclic(
                zero_extended(reversed_chunk(x, n * n, j), len),
                padded_filter(filter_of(w0, k, kx, i, j), k, n, len),
            )[m];
        assert forall|j: int| 0 <= j < kx implies #[trigger] g(j) == h(j) by {
            lemma_padded_kernel(w0, fs, n, i, j, len);
        }
        let rest = |j: int| g(kx + j);
        let extra = (kxp - kx) as nat;
        assert forall|j: int| 0 <= j < extra implies #[trigger] rest(j) == fzero() by {
            lemma_padded_kernel(w0, fs, n, i, kx + j, len);
            lemma_cyclic_zero(
                zero_extended(reversed_chunk(x, n * n, kx + j), len),
                padded_filter(filter_of(w, f, kxp, i, kx + j), f, n, len),
                m,
            );
        }
        lemma_fsum_split(kx as nat, extra, g);
        lemma_fsum_zero(extra, rest);
        lemma_fsum_eq(kx as nat, g, h);
        crate::algebra::lemma_fsum_canon(kx as nat, g);
        lemma_fadd_zero(fsum(kx as nat, g));
    }
    assert(a =~= b);
}

/// What is known of a layer that was padded from the filter `w0` of shape `fs` and the bias `b0`, for inputs
/// of side `n` after framing and padding.
pub open spec fn is_padded_layer(
    conv: &Convolution<Element>,
    w0: Seq<Element>,
    fs: Seq<usize>,
    b0: Seq<Element>,
    n: int,
) -> bool {
    &&& is_filter_shape(fs)
    &&& w0.len() == prod(fs)
    &&& b0.len() == fs[0]
    &&& conv.filter.data@ == padded(w0, fs, npots(fs), 0i64)
    &&& conv.filter.shape@.len() == 4
    &&& conv.filter.shape@[0] == npots(fs)[0]
    &&& conv.filter.shape@[1] == npots(fs)[1]
    &&& conv.filter.shape@[2] == n
    &&& conv.filter.og_shape@ == npots(fs)
    &&& conv.bias.data@ == padded(b0, seq![fs[0]], npots(seq![fs[0]]), 0i64)
    &&& conv.unpadded_shape@ == fs
    &&& npots(fs)[2] <= n
}

/// The entry of the transformed convolution at channel `o`, line `y` and column `c`, for a padded layer: the
/// direct convolution with the unpadded filter, plus the unpadded bias, wherever the unpadded kernel lies
/// inside the input.
pub proof fn law_padded_layer_is_direct(
    conv: &Convolution<Element>,
    w0: Seq<Element>,
    fs: Seq<usize>,
    b0: Seq<Element>,
    n: int,
    x: Seq<Element>,
    o: int,
    y: int,
    c: int,
)
    requires
        is_padded_layer(conv, w0, fs, b0, n),
        fs[1] * (n * n) <= x.len(),
        0 <= o < fs[0],
        0 <= y,
        y + fs[2] <= n,
        0 <= c,
        c + fs[2] <= n,
        -(P / 2) <= direct_conv(x, w0, fs[2] as int, n, fs[1] as int, o, y, c) <= P / 2,
    ensures
        biased_at(conv, x, idx3(n, n, o, y, c)) == direct_conv(x, w0, fs[2] as int, n, fs[1] as int, o, y, c)
            + b0[o],
{
    let t = npots(fs);
    let (k, f, kx, kxp, kw) = (fs[2] as int, t[2] as int, fs[1] as int, t[1] as int, t[0] as int);
    lemma_npot(fs[0] as nat);
    lemma_npot(fs[2] as nat);
    assert(t[0] == npot(fs[0] as nat) && t[2] == npot(fs[2] as nat));
    let polys = Seq::new(kw as nat, |i: int| conv_poly(x, conv.filter.data@, f, kxp, n, i));
    let rows = polys.map_values(|u: Seq<Fe>| read_poly(u, n));
    let n2 = n * n;
    lemma_grid_bound(y, n, c, n);
    assert forall|q: int| 0 <= q < rows.len() implies (#[trigger] rows[q]).len() == n2 by {
        assert(polys[q].len() == 2 * n2);
    }
    lemma_concat_rows(rows, n2 as nat);
    let p = y * n + c;
    assert(raw_output(&conv.filter, x) == concat_rows(rows));
    assert(concat_rows(rows)[o * (n2 as nat) + p] == rows[o][p]);
    lemma_padded_conv_poly(x, w0, fs, n, o);
    lemma_prod_of_rank(fs);
    let a = k * k;
    assert(((o + 1) * kx) * a <= fs[0] * (kx * a)) by {
        assert(a >= 0) by (nonlinear_arith)
            requires
                a == k * k,
        ;
        let (u, v) = ((o + 1) * kx, fs[0] * kx);
        assert(u <= v) by (nonlinear_arith)
            requires
                o + 1 <= fs[0],
                kx >= 0,
                u == (o + 1) * kx,
                v == fs[0] * kx,
        ;
        assert(u * a <= v * a) by (nonlinear_arith)
            requires
                u <= v,
                a >= 0,
        ;
        assert((fs[0] * kx) * a == fs[0] * (kx * a)) by (nonlinear_arith);
    }
    law_conv_poly(x, w0, k, kx, n, o, y, c);
    law_field_roundtrip(direct_conv(x, w0, k, n, kx, o, y, c));
    lemma_grid_digits(o, p, n2);
    lemma_bias_entry(b0, fs[0], o);
}

proof fn lemma_bias_entry(b0: Seq<Element>, kw: usize, o: int)
    requires
        0 <= o < kw,
        npot(kw as nat) <= usize::MAX,
    ensures
        padded(b0, seq![kw], npots(seq![kw]), 0i64)[o] == b0[o],
{
    let s = seq![kw];
    let t = npots(s);
    lemma_npot(kw as nat);
    assert(t =~= seq![npot(kw as nat) as usize]);
    let k = seq![o];
    crate::shape::lemma_prod1(kw);
    crate::shape::lemma_prod1(t[0]);
    assert(in_bounds(t, k) && in_bounds(s, k));
    lemma_coords_flat(t, k);
    lemma_flat1(t, o);
    lemma_flat1(s, o);
}

proof fn lemma_flat1(s: Seq<usize>, o: int)
    requires
        s.len() == 1,
    ensures
        flat(s, seq![o]) == o,
{
    reveal_with_fuel(flat, 2);
    assert(s.skip(1) =~= Seq::<usize>::empty());
    assert(prod(Seq::<usize>::empty()) == 1);
    assert(o * 1 == o);
}

/// `z` holds `kx` channels of `hs` lines and `ws` columns, which the input `x` of side `n` holds in its corner.
pub open spec fn holds_input(x: Seq<Element>, n: int, z: Seq<Element>, kx: int, hs: int, ws: int) -> bool {
    forall|j: int, y: int, c: int|
        0 <= j < kx && 0 <= y < hs && 0 <= c < ws ==> #[trigger] x[idx3(n, n, j, y, c)] == z[idx3(hs, ws, j, y, c)]
}

/// The direct convolution on the padded input is the convolution by its definition on the input itself.
#[verifier::spinoff_prover]
pub proof fn law_direct_is_conv2d(
    x: Seq<Element>,
    n: int,
    z: Seq<Element>,
    hs: int,
    ws: int,
    w0: Seq<Element>,
    k: int,
    kw: int,
    kx: int,
    stride: int,
    o: int,
    y: int,
    c: int,
)
    requires
        holds_input(x, n, z, kx, hs, ws),
        1 <= k,
        0 <= kx,
        stride > 0,
        0 <= y,
        y * stride + k <= hs,
        0 <= c,
        c * stride + k <= ws,
    ensures
        direct_conv(x, w0, k, n, kx, o, y * stride, c * stride) == msum::<Element>(
            (kx * (k * k)) as nat,
            conv2d_term::<Element>(z, w0, (1, kx, hs, ws), (kw, kx, k, k), stride, 0, o, y, c),
        ),
{
    let (yy, cc) = (y * stride, c * stride);
    assert(0 <= yy && 0 <= cc) by (nonlinear_arith)
        requires
            yy == y * stride,
            cc == c * stride,
            y >= 0,
            c >= 0,
            stride > 0,
    ;
    let t = conv2d_term::<Element>(z, w0, (1, kx, hs, ws), (kw, kx, k, k), stride, 0, o, y, c);
    let kk = k * k;
    assert(kk >= 0) by (nonlinear_arith)
        requires
            kk == k * k,
    ;
    lemma_msum_grid::<Element>(kx as nat, kk as nat, t);
    let g = naive_channel_term::<Element>(x, w0, k, n, kx, o, yy, cc);
    let rows = |j: int| msum::<Element>(kk as nat, |q: int| t(j * (kk as nat) + q));
    assert forall|j: int| 0 <= j < kx implies #[trigger] g(j) == rows(j) by {
        let tj = |q: int| t(j * (kk as nat) + q);
        lemma_msum_grid::<Element>(k as nat, k as nat, tj);
        let h = naive_filter_term::<Element>(x, w0, k, n, (o * kx + j) * (k * k), j * (n * n), yy, cc);
        let u = |a: int| msum::<Element>(k as nat, |b: int| tj(a * (k as nat) + b));
        assert forall|a: int| 0 <= a < k implies #[trigger] h(a) == u(a) by {
            let v = naive_row_term::<Element>(x, w0, k, n, (o * kx + j) * (k * k), j * (n * n), yy, cc, a);
            let ta = |b: int| tj(a * (k as nat) + b);
            assert forall|b: int| 0 <= b < k implies #[trigger] v(b) == ta(b) by {
                let q = a * k + b;
                lemma_grid_bound(a, k, b, k);
                lemma_grid_digits(j, q, kk);
                lemma_grid_digits(a, b, k);
                let p = j * kk + q;
                assert(p / (k * k) == j && (p % (k * k)) / k == a && (p % (k * k)) % k == b);
                assert(x[idx3(n, n, j, yy + a, cc + b)] == z[idx3(hs, ws, j, yy + a, cc + b)]);
                assert(0 * (kx * (hs * ws)) == 0);
                assert(j * (n * n) + ((a + yy) * n + (b + cc)) == idx3(n, n, j, yy + a, cc + b));
                assert(o * (kx * kk) + j * kk == (o * kx + j) * kk) by (nonlinear_arith);
                assert(o * (kx * (k * k)) + p == (o * kx + j) * (k * k) + (a * k + b));
                let (e, f) = (
                    w0[(o * kx + j) * (k * k) + (a * k + b)] as int,
                    x[j * (n * n) + ((a + yy) * n + (b + cc))] as int,
                );
                assert(e * f == f * e) by (nonlinear_arith);
            }
            lemma_msum_eq::<Element>(k as nat, v, ta);
        }
        lemma_msum_eq::<Element>(k as nat, h, u);
    }
    lemma_msum_eq::<Element>(kx as nat, g, rows);
}

/// The input of the transform holds the framed input, where the layer's input is `t0` padded with zeros until
/// every dimension is a power of two, and the two sides of the framed input are rounded up to the same power.
pub proof fn law_transform_input_holds_frame(
    t0: Seq<Element>,
    us: Seq<usize>,
    ph: int,
    pw: int,
    z: Seq<Element>,
    hs: int,
    ws: int,
)
    requires
        us.len() == 3,
        0 <= ph,
        0 <= pw,
        us[1] + 2 * ph == hs,
        us[2] + 2 * pw == ws,
        npot(hs as nat) == npot(ws as nat),
        forall|i: int| 0 <= i < 3 ==> npot(#[trigger] us[i] as nat) <= usize::MAX,
        forall|c: int, y: int, x: int|
            0 <= c < us[0] && 0 <= y < hs && 0 <= x < ws ==> #[trigger] z[idx3(hs, ws, c, y, x)]
                == framed_entry(t0, us, us, ph, pw, 0i64, c, y, x),
    ensures
        holds_input(
            transform_input(padded(t0, us, npots(us), 0i64), npots(us), us, ph, pw),
            npot(hs as nat) as int,
            z,
            us[0] as int,
            hs,
            ws,
        ),
{
    let t = npots(us);
    let d = padded(t0, us, t, 0i64);
    let n = npot(hs as nat) as int;
    let x = transform_input(d, t, us, ph, pw);
    lemma_npot(us[0] as nat);
    lemma_npot(us[1] as nat);
    lemma_npot(us[2] as nat);
    lemma_npot(hs as nat);
    lemma_npot(ws as nat);
    assert(t[0] == npot(us[0] as nat) && t[1] == npot(us[1] as nat) && t[2] == npot(us[2] as nat));
    assert forall|j: int, y: int, c: int| 0 <= j < us[0] && 0 <= y < hs && 0 <= c < ws implies #[trigger] x[idx3(
        n,
        n,
        j,
        y,
        c,
    )] == z[idx3(hs, ws, j, y, c)] by {
        assert(z[idx3(hs, ws, j, y, c)] == framed_entry(t0, us, us, ph, pw, 0i64, j, y, c));
        if ph <= y < ph + us[1] && pw <= c < pw + us[2] {
            lemma_padded3(t0, us, t, 0i64, j, y - ph, c - pw);
        }
        if !(ph == 0 && pw == 0) {
            lemma_framed_input(d, t, us, ph, pw, 0i64, j, y, c);
        }
    }
}

/// The output of a padded layer at channel `o`, line `y` and column `c` is the convolution by its definition
/// of the framed input `z`, of the given sides, with the unpadded filter and stride, plus the unpadded bias,
/// as long as the sum stays within half the prime.
pub proof fn law_op_is_conv2d(
    conv: &Convolution<Element>,
    w0: Seq<Element>,
    fs: Seq<usize>,
    b0: Seq<Element>,
    n: int,
    x: Seq<Element>,
    us: Seq<usize>,
    z: Seq<Element>,
    hs: int,
    ws: int,
    o: int,
    y: int,
    c: int,
)
    requires
        is_padded_layer(conv, w0, fs, b0, n),
        fs[1] * (n * n) <= x.len(),
        conv.steps().0 > 0,
        fs[2] <= hs <= n,
        fs[3] <= ws <= n,
        hs - fs[2] + 1 == full_sides(conv, us).0,
        ws - fs[3] + 1 == full_sides(conv, us).1,
        holds_input(x, n, z, fs[1] as int, hs, ws),
        0 <= o < fs[0],
        0 <= y < strides_below(full_sides(conv, us).0, conv.steps().0),
        0 <= c < strides_below(full_sides(conv, us).1, conv.steps().0),
        ({
            let sum = msum::<Element>(
                (fs[1] * (fs[2] * fs[2])) as nat,
                conv2d_term::<Element>(
                    z,
                    w0,
                    (1, fs[1] as int, hs, ws),
                    (fs[0] as int, fs[1] as int, fs[2] as int, fs[3] as int),
                    conv.steps().0,
                    0,
                    o,
                    y,
                    c,
                ),
            );
            -(P / 2) <= sum <= P / 2
        }),
    ensures
        op_at(conv, x, us, o, y, c) == msum::<Element>(
            (fs[1] * (fs[2] * fs[2])) as nat,
            conv2d_term::<Element>(
                z,
                w0,
                (1, fs[1] as int, hs, ws),
                (fs[0] as int, fs[1] as int, fs[2] as int, fs[3] as int),
                conv.steps().0,
                0,
                o,
                y,
                c,
            ),
        ) + b0[o],
{
    let s = conv.steps().0;
    let (m, l) = full_sides(conv, us);
    lemma_strides_below(m, s);
    lemma_strides_below(l, s);
    assert(0 <= y * s < m && 0 <= c * s < l);
    law_direct_is_conv2d(x, n, z, hs, ws, w0, fs[2] as int, fs[0] as int, fs[1] as int, s, o, y, c);
    law_padded_layer_is_direct(conv, w0, fs, b0, n, x, o, y * s, c * s);
}

/// The shape of the output is that of the framed input `z` convolved by its definition, without the batch in front.
pub proof fn law_output_shape_is_that_of_conv2d<T: Number>(
    conv: &Convolution<T>,
    input: &Tensor<T>,
    z: &Tensor<T>,
    y: &Tensor<T>,
    r: Seq<usize>,
)
    requires
        input.shape@.len() == 3,
        conv.filter.shape@.len() == 4,
        conv.unpadded_shape@ == conv.filter.shape@,
        conv.steps().0 == conv.steps().1,
        conv_shape_ok(
            input.shape@,
            conv.unpadded_shape@,
            conv.frame().0,
            conv.frame().1,
            conv.steps().0,
            conv.steps().1,
        ),
        is_framed(z, input, conv.frame().0, conv.frame().1),
        is_conv2d(y, z, &conv.filter, &conv.bias, conv.steps().0),
        conv.is_output_shape(r, input.shape@, PaddingMode::NoPadding),
    ensures
        y.shape@ == seq![1usize] + r,
{
    assert(dims4(z.shape@).2 == height(input.shape@) + 2 * conv.frame().0);
    assert(dims4(z.shape@).3 == width(input.shape@) + 2 * conv.frame().1);
    assert(y.shape@ =~= seq![1usize] + r);
}

} // verus!
