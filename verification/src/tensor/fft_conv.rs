//! Convolution by Fourier transform.
use crate::algebra::{
    lemma_fsum_canon, lemma_fsum_eq, lemma_fsum_scale, lemma_fsum_swap, lemma_root_of_unity, root_of_unity,
};
use crate::arith::{self, clog2, is_pow2, lemma_clog2_pow2, lemma_npot, npot};
use crate::fft::{dft, fes, fft, fft_len, idft};
use crate::fft_laws::{cyclic, law_convolution, law_idft_dft, primitive};
use crate::field::{
    canon, centered, fadd, fint, fmul, fpow, fsum, fzero, lemma_fmul_comm, to_element, to_field, Fe, GoldilocksExt2,
};
use crate::number::Element;
use crate::shape::{lemma_prod3, prod, Shape};
use crate::tensor::{concat_rows, copy_slice, Tensor};
use vstd::arithmetic::power2::{
    lemma2_to64, lemma_pow2_adds, lemma_pow2_strictly_increases, lemma_pow2_unfold, pow2,
};
use vstd::prelude::*;
use vstd::slice::slice_subrange;

verus! {

/// Entry `b` of a filter of side `f`, laid out in rows of length `n` and filled up with zeros.
pub open spec fn padded_filter_at(w: Seq<Element>, f: int, n: int, b: int) -> Fe {
    if b / n < f && b % n < f {
        fint(w[(b / n) * f + b % n] as int)
    } else {
        fzero()
    }
}

/// The filter of side `f`, laid out in rows of length `n` and filled up with zeros.
pub open spec fn padded_filter(w: Seq<Element>, f: int, n: int, len: nat) -> Seq<Fe> {
    Seq::new(len, |b: int| padded_filter_at(w, f, n, b))
}

/// The sequence filled up with zeros, or cut, to the given length.
pub open spec fn zero_extended(s: Seq<Fe>, len: nat) -> Seq<Fe> {
    Seq::new(
        len,
        |a: int|
            if a < s.len() {
                s[a]
            } else {
                fzero()
            },
    )
}

/// The number of chunks of length `c` that cover `len` entries.
pub open spec fn chunks(len: int, c: int) -> int {
    (len + c - 1) / c
}

/// Chunk `j` of length `c` of `x`; the last one can be shorter.
pub open spec fn chunk<T>(x: Seq<T>, c: int, j: int) -> Seq<T> {
    x.subrange(
        j * c,
        if (j + 1) * c <= x.len() {
            (j + 1) * c
        } else {
            x.len() as int
        },
    )
}

/// Chunk `j` of the input in reverse order.
pub open spec fn reversed_chunk(x: Seq<Element>, c: int, j: int) -> Seq<Fe> {
    let part = chunk(x, c, j);
    Seq::new(part.len(), |a: int| fint(part[part.len() - 1 - a] as int))
}

/// The filter from input channel `j` to output channel `i`.
pub open spec fn filter_of(w: Seq<Element>, f: int, kx: int, i: int, j: int) -> Seq<Element> {
    w.subrange((i * kx + j) * (f * f), (i * kx + j) * (f * f) + f * f)
}

/// The polynomial that the output channel `i` is read from: the sum, over the input channels, of
/// the cyclic convolutions of the reversed input with the filter.
pub open spec fn conv_poly(
    x: Seq<Element>,
    w: Seq<Element>,
    f: int,
    kx: int,
    n: int,
    i: int,
) -> Seq<Fe> {
    let len = (2 * (n * n)) as nat;
    Seq::new(
        len,
        |m: int|
            fsum(
                kx as nat,
                |j: int|
                    cyclic(
                        zero_extended(reversed_chunk(x, n * n, j), len),
                        padded_filter(filter_of(w, f, kx, i, j), f, n, len),
                    )[m],
            ),
    )
}

/// The entries that are read from a polynomial: its lower half backwards, as quantised values.
pub open spec fn read_poly(u: Seq<Fe>, n: int) -> Seq<Element> {
    Seq::new((u.len() / 2) as nat, |p: int| centered(u[n * n - 1 - p].0) as Element)
}

/// The filter of a convolution by Fourier transform, with weights `data` of the given side.
///
/// Entry `idx` of the result is the weight at row `idx / n` and column `idx % n` where the filter
/// has one, and zero otherwise.
pub fn index_w(w: &[Element], n_real: usize, n: usize, output_len: usize) -> (r: Vec<GoldilocksExt2>)
    requires
        output_len > 0 ==> n > 0,
        forall|idx: int|
            #![trigger idx / (n as int)]
            0 <= idx < output_len && idx / (n as int) < n_real && idx % (n as int) < n_real ==> (idx
                / (n as int)) * n_real + idx % (n as int) < w@.len(),
    ensures
        fes(r@) == padded_filter(w@, n_real as int, n as int, output_len as nat),
{
    let w_len = w.len();
    let mut r: Vec<GoldilocksExt2> = Vec::with_capacity(output_len);
    let mut idx: usize = 0;
    while idx < output_len
        invariant
            idx <= output_len,
            w_len == w@.len(),
            output_len > 0 ==> n > 0,
            r@.len() == idx,
            forall|idx: int|
                #![trigger idx / (n as int)]
                0 <= idx < output_len && idx / (n as int) < n_real && idx % (n as int) < n_real
                    ==> (idx / (n as int)) * n_real + idx % (n as int) < w@.len(),
            forall|b: int|
                0 <= b < idx ==> (#[trigger] r@[b]).fe() == padded_filter_at(
                    w@,
                    n_real as int,
                    n as int,
                    b,
                ),
        decreases output_len - idx,
    {
        let i = idx / n;
        let j = idx % n;
        if i < n_real && j < n_real {
            proof {
                assert((idx as int / (n as int)) * n_real + idx as int % (n as int) < w@.len());
                assert(0 <= i * n_real) by (nonlinear_arith)
                    requires
                        i >= 0,
                        n_real >= 0,
                ;
            }
            r.push(to_field(w[i * n_real + j]));
        } else {
            r.push(GoldilocksExt2::zero());
        }
        idx = idx + 1;
    }
    proof {
        assert(fes(r@) =~= padded_filter(w@, n_real as int, n as int, output_len as nat));
    }
    r
}

/// The first `u.len() / 2` entries of `u[n * n - 1], u[n * n - 2], ...`.
pub fn index_u(u: &[GoldilocksExt2], n: usize) -> (r: Vec<GoldilocksExt2>)
    requires
        n * n <= usize::MAX,
        u@.len() / 2 <= n * n,
        u@.len() / 2 > 0 ==> n * n <= u@.len(),
    ensures
        r@.len() == u@.len() / 2,
        forall|i: int| 0 <= i < r@.len() ==> #[trigger] r@[i] == u@[n * n - 1 - i],
{
    let len = n * n;
    let half = u.len() / 2;
    let mut r: Vec<GoldilocksExt2> = Vec::with_capacity(half);
    let mut i: usize = 0;
    while i < half
        invariant
            i <= half,
            half == u@.len() / 2,
            half <= len,
            len == n * n,
            half > 0 ==> len <= u@.len(),
            r@.len() == i,
            forall|j: int| 0 <= j < i ==> #[trigger] r@[j] == u@[n * n - 1 - j],
        decreases half - i,
    {
        r.push(u[len - 1 - i]);
        i = i + 1;
    }
    r
}

/// What a convolution by Fourier transform leaves behind for its proof.
#[derive(Debug)]
pub struct ConvData {
    /// The input, before the transform.
    pub real_input: Vec<GoldilocksExt2>,
    /// The reversed channels of the input.
    pub input: Vec<Vec<GoldilocksExt2>>,
    /// Their transforms.
    pub input_fft: Vec<Vec<GoldilocksExt2>>,
    /// The sums of products of transforms.
    pub prod: Vec<Vec<GoldilocksExt2>>,
    /// The inverse transforms of those.
    pub output: Vec<Vec<GoldilocksExt2>>,
    /// The output as quantised values.
    pub output_as_element: Vec<Element>,
}

/// The rows as field elements.
pub open spec fn fes2(v: Seq<Vec<GoldilocksExt2>>) -> Seq<Seq<Fe>> {
    v.map_values(|x: Vec<GoldilocksExt2>| fes(x@))
}

/// The entries read from each of the polynomials, one after the other.
pub open spec fn read_polys(v: Seq<Seq<Fe>>, n: int) -> Seq<Element> {
    concat_rows(v.map_values(|u: Seq<Fe>| read_poly(u, n)))
}

impl ConvData {
    pub fn new(
        real_input: Vec<GoldilocksExt2>,
        input: Vec<Vec<GoldilocksExt2>>,
        input_fft: Vec<Vec<GoldilocksExt2>>,
        prod: Vec<Vec<GoldilocksExt2>>,
        output: Vec<Vec<GoldilocksExt2>>,
        n_x: usize,
    ) -> (r: Self)
        requires
            n_x * n_x <= usize::MAX,
            forall|i: int|
                0 <= i < output@.len() ==> (#[trigger] output@[i])@.len() / 2 <= n_x * n_x,
            forall|i: int|
                0 <= i < output@.len() ==> ((#[trigger] output@[i])@.len() / 2 > 0 ==> n_x * n_x
                    <= output@[i]@.len()),
        ensures
            r.real_input@ == real_input@,
            r.input@ == input@,
            r.input_fft@ == input_fft@,
            r.prod@ == prod@,
            r.output@ == output@,
            r.output_as_element@ == read_polys(fes2(output@), n_x as int),
    {
        let mut elems: Vec<Element> = Vec::new();
        let ghost rows = fes2(output@).map_values(|u: Seq<Fe>| read_poly(u, n_x as int));
        let mut i: usize = 0;
        while i < output.len()
            invariant
                i <= output@.len(),
                n_x * n_x <= usize::MAX,
                forall|i: int|
                    0 <= i < output@.len() ==> (#[trigger] output@[i])@.len() / 2 <= n_x * n_x,
                forall|i: int|
                    0 <= i < output@.len() ==> ((#[trigger] output@[i])@.len() / 2 > 0 ==> n_x * n_x
                        <= output@[i]@.len()),
                rows == fes2(output@).map_values(|u: Seq<Fe>| read_poly(u, n_x as int)),
                elems@ == concat_rows(rows.take(i as int)),
            decreases output@.len() - i,
        {
            let e = index_u(&output[i], n_x);
            let ghost before = elems@;
            let mut j: usize = 0;
            while j < e.len()
                invariant
                    j <= e@.len(),
                    elems@.len() == before.len() + j,
                    elems@.take(before.len() as int) == before,
                    forall|p: int|
                        0 <= p < j ==> #[trigger] elems@[before.len() + p] == centered(e@[p].fe().0),
                decreases e@.len() - j,
            {
                elems.push(to_element(&e[j]));
                j = j + 1;
                proof {
                    assert(elems@.take(before.len() as int) =~= before);
                }
            }
            proof {
                let row = rows[i as int];
                assert(row == read_poly(fes(output@[i as int]@), n_x as int));
                assert(elems@ =~= before + row) by {
                    assert forall|p: int| 0 <= p < elems@.len() implies elems@[p] == (before + row)[p] by {
                        if p < before.len() {
                            assert(elems@.take(before.len() as int)[p] == elems@[p]);
                        } else {
                            let q = p - before.len();
                            assert(elems@[before.len() + q] == centered(e@[q].fe().0));
                            assert(e@[q] == output@[i as int]@[n_x * n_x - 1 - q]);
                        }
                    }
                }
                assert(rows.take(i + 1).drop_last() =~= rows.take(i as int));
                assert(rows.take(i + 1).last() == row);
            }
            i = i + 1;
        }
        proof {
            assert(rows.take(output@.len() as int) =~= rows);
        }
        ConvData { real_input, input, input_fft, prod, output, output_as_element: elems }
    }

    /// Replaces the output.
    pub fn set_output(&mut self, output: &[Element])
        ensures
            final(self).output_as_element@ == output@,
            final(self).real_input == old(self).real_input,
            final(self).input == old(self).input,
            final(self).input_fft == old(self).input_fft,
            final(self).prod == old(self).prod,
            final(self).output == old(self).output,
    {
        self.output_as_element = copy_slice(output);
    }
}

/// The inverse transform of the summed products is the summed cyclic convolution.
pub proof fn lemma_conv_row(
    xs: spec_fn(int) -> Seq<Fe>,
    ws: spec_fn(int) -> Seq<Fe>,
    kx: nat,
    k: nat,
    w: Fe,
    p: Seq<Fe>,
)
    requires
        primitive(w, k),
        p.len() == pow2(k),
        forall|j: int| 0 <= j < kx ==> (#[trigger] xs(j)).len() == pow2(k),
        forall|j: int| 0 <= j < kx ==> (#[trigger] ws(j)).len() == pow2(k),
        forall|q: int|
            0 <= q < pow2(k) ==> #[trigger] p[q] == fsum(
                kx,
                |j: int| fmul(dft(xs(j), w)[q], dft(ws(j), w)[q]),
            ),
    ensures
        idft(p, w) == Seq::new(pow2(k), |m: int| fsum(kx, |j: int| cyclic(xs(j), ws(j))[m])),
        p == dft(Seq::new(pow2(k), |m: int| fsum(kx, |j: int| cyclic(xs(j), ws(j))[m])), w),
{
    let n = pow2(k);
    let c = Seq::new(n, |m: int| fsum(kx, |j: int| cyclic(xs(j), ws(j))[m]));
    assert forall|m: int| 0 <= m < n implies canon(#[trigger] c[m]) by {
        lemma_fsum_canon(kx, |j: int| cyclic(xs(j), ws(j))[m]);
    }
    assert forall|q: int| 0 <= q < n implies #[trigger] p[q] == dft(c, w)[q] by {
        let a = |j: int| fmul(dft(xs(j), w)[q], dft(ws(j), w)[q]);
        let f = |j: int, m: int| fmul(cyclic(xs(j), ws(j))[m], fpow(w, (m * q) as nat));
        let rows = |j: int| fsum(n, |m: int| f(j, m));
        assert forall|j: int| 0 <= j < kx implies #[trigger] a(j) == rows(j) by {
            assert(xs(j).len() == n && ws(j).len() == n);
            law_convolution(xs(j), ws(j), w, k, q);
            lemma_fsum_eq(
                n,
                |m: int| f(j, m),
                |m: int| fmul(cyclic(xs(j), ws(j))[m], fpow(w, (m * q) as nat)),
            );
        }
        lemma_fsum_eq(kx, a, rows);
        lemma_fsum_swap(kx, n, f);
        let cols = |m: int| fsum(kx, |j: int| f(j, m));
        let want = |m: int| fmul(c[m], fpow(w, (m * q) as nat));
        assert forall|m: int| 0 <= m < n implies #[trigger] cols(m) == want(m) by {
            let t = fpow(w, (m * q) as nat);
            let g = |j: int| cyclic(xs(j), ws(j))[m];
            lemma_fsum_scale(kx, t, g);
            lemma_fmul_comm(t, fsum(kx, g));
            let u = |j: int| fmul(t, g(j));
            let v = |j: int| f(j, m);
            assert forall|j: int| 0 <= j < kx implies #[trigger] u(j) == v(j) by {
                lemma_fmul_comm(t, g(j));
            }
            lemma_fsum_eq(kx, u, v);
        }
        lemma_fsum_eq(n, cols, want);
    }
    assert(p =~= dft(c, w));
    law_idft_dft(c, w, k);
}

/// The length of the transforms that a convolution on inputs of side `n` uses.
pub open spec fn conv_side(n: int) -> bool {
    n >= 1 && is_pow2(n) && n <= 0x8000
}

pub proof fn lemma_conv_side(n: nat)
    requires
        conv_side(n as int),
    ensures
        fft_len(2 * (n * n)),
        2 * (n * n) <= 0x8000_0000,
        2 * (n * n) == pow2(clog2(2 * (n * n))),
        primitive(root_of_unity(clog2(2 * (n * n))), clog2(2 * (n * n))),
        n * n >= 1,
{
    let e = choose|e: nat| #[trigger] pow2(e) == n;
    lemma_pow2_adds(e, e);
    lemma_pow2_unfold(2 * e + 1);
    assert(pow2(2 * e + 1) == 2 * (n * n));
    lemma_clog2_pow2(2 * e + 1);
    assert(1 <= n * n <= 0x4000_0000) by (nonlinear_arith)
        requires
            1 <= n <= 0x8000,
    ;
    lemma2_to64();
    if e > 15 {
        lemma_pow2_strictly_increases(15, e);
    }
    lemma_root_of_unity(2 * e + 1);
}

/// The channels of the input, reversed, and their transforms.
fn transformed_chunks(real_input: &Vec<GoldilocksExt2>, n: usize, Ghost(x): Ghost<Seq<Element>>) -> (r: (
    Vec<Vec<GoldilocksExt2>>,
    Vec<Vec<GoldilocksExt2>>,
))
    requires
        conv_side(n as int),
        real_input@.len() == x.len(),
        forall|i: int| 0 <= i < x.len() ==> (#[trigger] real_input@[i]).fe() == fint(x[i] as int),
    ensures
        ({
            let len = (2 * (n * n)) as nat;
            let c = chunks(x.len() as int, n * n);
            &&& r.0@.len() == c
            &&& r.1@.len() == c
            &&& forall|j: int|
                0 <= j < c ==> fes(#[trigger] r.1@[j]@) == reversed_chunk(x, n * n, j)
            &&& forall|j: int|
                0 <= j < c ==> fes(#[trigger] r.0@[j]@) == dft(
                    zero_extended(reversed_chunk(x, n * n, j), len),
                    root_of_unity(clog2(len)),
                )
        }),
{
    proof {
        lemma_conv_side(n as nat);
        assert(n * n <= 0x8000_0000 && n * n >= 1);
    }
    let n2: usize = n * n;
    let len: usize = 2 * n2;
    let total = real_input.len();
    let mut x_vec: Vec<Vec<GoldilocksExt2>> = Vec::new();
    let mut input: Vec<Vec<GoldilocksExt2>> = Vec::new();
    let mut start: usize = 0;
    let ghost mut j: int = 0;
    proof {
        assert(0 * n2 == 0);
    }
    while start < total
        invariant
            n2 == n * n,
            n2 >= 1,
            len == 2 * n2,
            fft_len(len as nat),
            total == real_input@.len(),
            total == x.len(),
            0 <= j,
            start == (if j * n2 <= total {
                j * n2
            } else {
                total as int
            }),
            j > 0 ==> (j - 1) * n2 < total,
            x_vec@.len() == j,
            input@.len() == j,
            forall|i: int|
                0 <= i < x.len() ==> (#[trigger] real_input@[i]).fe() == fint(x[i] as int),
            forall|i: int|
                0 <= i < j ==> fes(#[trigger] input@[i]@) == reversed_chunk(x, n2 as int, i),
            forall|i: int|
                0 <= i < j ==> fes(#[trigger] x_vec@[i]@) == dft(
                    zero_extended(reversed_chunk(x, n2 as int, i), len as nat),
                    root_of_unity(clog2(len as nat)),
                ),
        decreases total - start,
    {
        let end: usize = if total - start < n2 {
            total
        } else {
            start + n2
        };
        proof {
            assert((j + 1) * n2 == j * n2 + n2) by (nonlinear_arith);
        }
        let ghost part = chunk(x, n2 as int, j);
        let ghost want = reversed_chunk(x, n2 as int, j);
        let mut xx: Vec<GoldilocksExt2> = Vec::with_capacity(end - start);
        let mut p: usize = end;
        while p > start
            invariant
                start <= p <= end <= total,
                total == real_input@.len(),
                total == x.len(),
                part == x.subrange(start as int, end as int),
                forall|i: int|
                    0 <= i < x.len() ==> (#[trigger] real_input@[i]).fe() == fint(x[i] as int),
                xx@.len() == end - p,
                forall|a: int|
                    0 <= a < end - p ==> (#[trigger] xx@[a]).fe() == fint(
                        part[part.len() - 1 - a] as int,
                    ),
            decreases p - start,
        {
            p = p - 1;
            xx.push(real_input[p]);
        }
        proof {
            assert(fes(xx@) =~= want);
        }
        let mut xf: Vec<GoldilocksExt2> = Vec::with_capacity(len);
        let mut a: usize = 0;
        while a < len
            invariant
                a <= len,
                xf@.len() == a,
                forall|b: int|
                    0 <= b < a ==> (#[trigger] xf@[b]).fe() == (if b < xx@.len() {
                        xx@[b].fe()
                    } else {
                        fzero()
                    }),
            decreases len - a,
        {
            if a < xx.len() {
                xf.push(xx[a]);
            } else {
                xf.push(GoldilocksExt2::zero());
            }
            a = a + 1;
        }
        proof {
            assert(fes(xf@) =~= zero_extended(want, len as nat));
        }
        fft(&mut xf, false);
        x_vec.push(xf);
        input.push(xx);
        proof {
            j = j + 1;
        }
        start = end;
    }
    proof {
        let q = (total + n2 - 1) as int;
        vstd::arithmetic::mul::lemma_mul_is_commutative(j, n2 as int);
        assert((j - 1) * n2 == j * n2 - n2) by (nonlinear_arith);
        vstd::arithmetic::div_mod::lemma_fundamental_div_mod_converse(
            q,
            n2 as int,
            j,
            q - j * n2,
        );
    }
    (x_vec, input)
}

/// Rows of one length lie behind one another.
pub proof fn lemma_concat_rows<T>(rows: Seq<Seq<T>>, len: nat)
    requires
        forall|i: int| 0 <= i < rows.len() ==> (#[trigger] rows[i]).len() == len,
    ensures
        concat_rows(rows).len() == rows.len() * len,
        forall|i: int, p: int|
            0 <= i < rows.len() && 0 <= p < len ==> #[trigger] concat_rows(rows)[i * len + p]
                == rows[i][p],
    decreases rows.len(),
{
    if rows.len() == 0 {
        assert(0 * len == 0);
    } else {
        let front = rows.drop_last();
        lemma_concat_rows(front, len);
        let k = front.len();
        assert((k + 1) * len == k * len + len) by (nonlinear_arith);
        assert(rows.last().len() == len);
        assert forall|i: int, p: int|
            0 <= i < rows.len() && 0 <= p < len implies #[trigger] concat_rows(rows)[i * len + p]
            == rows[i][p] by {
            if i < k {
                arith::lemma_grid_bound(i, k as int, p, len as int);
                assert(concat_rows(front)[i * len + p] == front[i][p]);
            }
        }
    }
}

/// What `fft_conv` asks of a filter and an input with `rows` rows and `len` entries: the padded filter has
/// the side `rows`, rounded up to a power of two, and there is an input channel for each that the filter
/// has.
pub open spec fn fft_conv_fits(filter: &Tensor<Element>, rows: nat, len: nat) -> bool {
    &&& filter.shape@.len() >= 3
    &&& filter.og_shape@.len() >= 3
    &&& conv_side(npot(rows) as int)
    &&& filter.shape@[2] == npot(rows)
    &&& (filter.shape@[0] * filter.shape@[1]) * (filter.og_shape@[2] * filter.og_shape@[2])
        <= filter.data@.len()
    &&& filter.shape@[1] <= chunks(len as int, filter.shape@[2] * filter.shape@[2])
}

/// The filter fits the input.
pub open spec fn fft_conv_ok(filter: &Tensor<Element>, x: &Tensor<Element>) -> bool {
    &&& x.shape@.len() >= 2
    &&& fft_conv_fits(filter, x.shape@[1] as nat, x.data@.len())
}

impl Tensor<Element> {
    /// The filter of a convolution by Fourier transform for inputs of the given shape. The weights
    /// stay as they are; the side becomes that of the output, rounded up to a power of two.
    pub fn into_fft_conv(self, input_shape: &Shape) -> (r: Self)
        requires
            self.wf(),
            self.shape@.len() == 4,
            is_pow2(self.shape@[2] as int),
            input_shape@.len() > 1,
            self.shape@[2] <= input_shape@[1],
            npot((input_shape@[1] - self.shape@[2] + 1) as nat) <= usize::MAX,
        ensures
            ({
                let n_w = npot((input_shape@[1] - self.shape@[2] + 1) as nat) as usize;
                &&& r.data@ == self.data@
                &&& r.shape@ == seq![self.shape@[0], self.shape@[1], n_w, n_w]
                &&& r.og_shape@ == self.shape@
            }),
    {
        let shape = self.shape;
        proof {
            lemma_npot(shape@[2] as nat);
        }
        let n_w = arith::next_power_of_two(input_shape.0[1] - shape.0[2] + 1);
        let dims: Vec<usize> = vec![shape.0[0], shape.0[1], n_w, n_w];
        proof {
            assert(dims@ =~= seq![shape@[0], shape@[1], n_w, n_w]);
        }
        Tensor { data: self.data, shape: Shape(dims), og_shape: shape }
    }

    /// The filter with the given shape and weights for inputs of the given shape.
    pub fn new_conv(shape: Shape, input_shape: Shape, data: Vec<Element>) -> (r: Self)
        requires
            prod(shape@) == data@.len(),
            shape@.len() == 4,
            is_pow2(shape@[2] as int),
            input_shape@.len() > 1,
            shape@[2] <= input_shape@[1],
            npot((input_shape@[1] - shape@[2] + 1) as nat) <= usize::MAX,
        ensures
            ({
                let n_w = npot((input_shape@[1] - shape@[2] + 1) as nat) as usize;
                &&& r.data@ == data@
                &&& r.shape@ == seq![shape@[0], shape@[1], n_w, n_w]
                &&& r.og_shape@ == shape@
            }),
    {
        Tensor::new(shape, data).into_fft_conv(&input_shape)
    }

    /// The weights of each filter, filled up with zeros to the padded side.
    pub fn get_real_weights(&self) -> (r: Vec<Vec<Vec<Element>>>)
        requires
            self.shape@.len() >= 3,
            self.og_shape@.len() >= 3,
            self.shape@[2] * self.shape@[2] <= usize::MAX,
            self.og_shape@[2] <= self.shape@[2],
            (self.shape@[0] * self.shape@[1]) * (self.og_shape@[2] * self.og_shape@[2])
                <= self.data@.len(),
        ensures
            r@.len() == self.shape@[0],
            forall|i: int| 0 <= i < r@.len() ==> (#[trigger] r@[i])@.len() == self.shape@[1],
            forall|i: int, j: int|
                0 <= i < self.shape@[0] && 0 <= j < self.shape@[1] ==> {
                    let f2 = self.og_shape@[2] * self.og_shape@[2];
                    (#[trigger] r@[i]@[j])@ == Seq::new(
                        (self.shape@[2] * self.shape@[2]) as nat,
                        |k: int|
                            if k < f2 {
                                self.data@[(i * self.shape@[1] + j) * f2 + k]
                            } else {
                                0
                            },
                    )
                },
    {
        let (kw, kx, n, f) = (self.kw(), self.kx(), self.nw(), self.real_nw());
        proof {
            assert(f * f <= n * n) by (nonlinear_arith)
                requires
                    0 <= f <= n,
            ;
        }
        let n2: usize = n * n;
        let f2: usize = f * f;
        let total = self.data.len();
        let mut r: Vec<Vec<Vec<Element>>> = Vec::new();
        let mut i: usize = 0;
        let mut ctr: usize = 0;
        proof {
            assert((0 * kx) * f2 == 0) by (nonlinear_arith);
        }
        while i < kw
            invariant
                i <= kw,
                kw == self.shape@[0],
                kx == self.shape@[1],
                n2 == self.shape@[2] * self.shape@[2],
                f2 == self.og_shape@[2] * self.og_shape@[2],
                f2 <= n2,
                total == self.data@.len(),
                (kw * kx) * f2 <= total,
                ctr == (i * kx) * f2,
                r@.len() == i,
                forall|a: int| 0 <= a < i ==> (#[trigger] r@[a])@.len() == kx,
                forall|a: int, b: int|
                    0 <= a < i && 0 <= b < kx ==> (#[trigger] r@[a]@[b])@ == Seq::new(
                        n2 as nat,
                        |k: int|
                            if k < f2 {
                                self.data@[(a * kx + b) * f2 + k]
                            } else {
                                0
                            },
                    ),
            decreases kw - i,
        {
            let mut rows: Vec<Vec<Element>> = Vec::new();
            let mut j: usize = 0;
            while j < kx
                invariant
                    i < kw,
                    j <= kx,
                    kw == self.shape@[0],
                    kx == self.shape@[1],
                    f2 <= n2,
                    total == self.data@.len(),
                    (kw * kx) * f2 <= total,
                    ctr == (i * kx + j) * f2,
                    rows@.len() == j,
                    forall|b: int|
                        0 <= b < j ==> (#[trigger] rows@[b])@ == Seq::new(
                            n2 as nat,
                            |k: int|
                                if k < f2 {
                                    self.data@[(i * kx + b) * f2 + k]
                                } else {
                                    0
                                },
                        ),
                decreases kx - j,
            {
                proof {
                    lemma_filter_range(kw as int, kx as int, f2 as int, i as int, j as int);
                }
                let mut v: Vec<Element> = Vec::with_capacity(n2);
                let mut k: usize = 0;
                while k < n2
                    invariant
                        k <= n2,
                        f2 <= n2,
                        total == self.data@.len(),
                        ctr + f2 <= total,
                        v@.len() == k,
                        forall|b: int|
                            0 <= b < k ==> #[trigger] v@[b] == (if b < f2 {
                                self.data@[ctr + b]
                            } else {
                                0
                            }),
                    decreases n2 - k,
                {
                    if k < f2 {
                        v.push(self.data[ctr + k]);
                    } else {
                        v.push(0);
                    }
                    k = k + 1;
                }
                proof {
                    assert(v@ =~= Seq::new(
                        n2 as nat,
                        |k: int|
                            if k < f2 {
                                self.data@[(i * kx + j) * f2 + k]
                            } else {
                                0
                            },
                    ));
                }
                rows.push(v);
                ctr = ctr + f2;
                j = j + 1;
            }
            proof {
                assert((i + 1) * kx == i * kx + kx) by (nonlinear_arith);
            }
            r.push(rows);
            i = i + 1;
        }
        r
    }

    /// Convolves `x` with this filter by Fourier transform, and keeps all intermediate values.
    ///
    /// Entry `p` of output channel `i` is the coefficient `n * n - 1 - p` of the polynomial
    /// `conv_poly`, as a quantised value; `n` is the side of the input.
    #[verifier::spinoff_prover]
    pub fn fft_conv(&self, x: &Tensor<Element>) -> (r: (Tensor<Element>, ConvData))
        requires
            fft_conv_ok(self, x),
        ensures
            ({
                let n = self.shape@[2] as int;
                let f = self.og_shape@[2] as int;
                let kx = self.shape@[1] as int;
                let len = (2 * (n * n)) as nat;
                let w = root_of_unity(clog2(len));
                let polys = Seq::new(
                    self.shape@[0] as nat,
                    |i: int| conv_poly(x.data@, self.data@, f, kx, n, i),
                );
                &&& r.0.wf()
                &&& r.0.shape@ == seq![self.shape@[0], self.shape@[2], self.shape@[2]]
                &&& r.0.og_shape@ == seq![0usize]
                &&& r.0.data@ == read_polys(polys, n)
                &&& r.1.output_as_element@ == read_polys(polys, n)
                &&& fes2(r.1.output@) == polys
                &&& fes(r.1.real_input@) == x.data@.map_values(|e: Element| fint(e as int))
                &&& r.1.input@.len() == chunks(x.data@.len() as int, n * n)
                &&& r.1.input_fft@.len() == r.1.input@.len()
                &&& forall|j: int|
                    0 <= j < r.1.input@.len() ==> fes(#[trigger] r.1.input@[j]@)
                        == reversed_chunk(x.data@, n * n, j)
                &&& forall|j: int|
                    0 <= j < r.1.input_fft@.len() ==> fes(#[trigger] r.1.input_fft@[j]@) == dft(
                        zero_extended(reversed_chunk(x.data@, n * n, j), len),
                        w,
                    )
                &&& r.1.prod@.len() == self.shape@[0]
                &&& forall|i: int|
                    0 <= i < self.shape@[0] ==> fes(#[trigger] r.1.prod@[i]@) == dft(polys[i], w)
            }),
    {
        proof {
            lemma_npot(x.shape@[1] as nat);
        }
        let n_x = arith::next_power_of_two(x.shape.0[1]);
        let (kw, kx, f) = (self.kw(), self.kx(), self.real_nw());
        let ghost n = n_x as int;
        proof {
            lemma_conv_side(n_x as nat);
        }
        let n2: usize = n_x * n_x;
        let len: usize = 2 * n2;
        let ghost w = root_of_unity(clog2(len as nat));
        let ghost k = clog2(len as nat);
        let real_input = x.evals_flat();
        let (x_vec, input) = transformed_chunks(&real_input, n_x, Ghost(x.data@));
        let mut prod_rows: Vec<Vec<GoldilocksExt2>> = Vec::new();
        let mut output: Vec<Vec<GoldilocksExt2>> = Vec::new();
        let ghost polys = Seq::new(
            kw as nat,
            |i: int| conv_poly(x.data@, self.data@, f as int, kx as int, n, i),
        );
        let mut i: usize = 0;
        while i < kw
            invariant
                i <= kw,
                self.shape@.len() >= 3,
                self.og_shape@.len() >= 3,
                conv_side(n_x as int),
                kw == self.shape@[0],
                kx == self.shape@[1],
                f == self.og_shape@[2],
                n == n_x,
                n2 == n_x * n_x,
                n2 >= 1,
                n_x >= 1,
                len == 2 * n2,
                len == pow2(k),
                k == clog2(len as nat),
                fft_len(len as nat),
                w == root_of_unity(k),
                primitive(w, k),
                (kw * kx) * (f * f) <= self.data@.len(),
                kx <= x_vec@.len(),
                forall|j: int|
                    0 <= j < kx ==> fes(#[trigger] x_vec@[j]@) == dft(
                        zero_extended(reversed_chunk(x.data@, n2 as int, j), len as nat),
                        w,
                    ),
                polys == Seq::new(
                    kw as nat,
                    |i: int| conv_poly(x.data@, self.data@, f as int, kx as int, n, i),
                ),
                prod_rows@.len() == i,
                output@.len() == i,
                forall|a: int| 0 <= a < i ==> fes(#[trigger] output@[a]@) == polys[a],
                forall|a: int| 0 <= a < i ==> fes(#[trigger] prod_rows@[a]@) == dft(polys[a], w),
            decreases kw - i,
        {
            let ghost xs = |j: int|
                zero_extended(reversed_chunk(x.data@, n * n, j), len as nat);
            let ghost ws = |j: int|
                padded_filter(
                    filter_of(self.data@, f as int, kx as int, i as int, j),
                    f as int,
                    n,
                    len as nat,
                );
            let mut row: Vec<GoldilocksExt2> = self.product_row(
                &x_vec,
                i,
                n_x,
                Ghost(x.data@),
                Ghost(w),
            );
            let kept = copy_slice(&row);
            proof {
                assert forall|q: int| 0 <= q < len implies #[trigger] fes(row@)[q] == fsum(
                    kx as nat,
                    |j: int| fmul(dft(xs(j), w)[q], dft(ws(j), w)[q]),
                ) by {
                    assert(row@[q].fe() == fes(row@)[q]);
                    lemma_fsum_eq(
                        kx as nat,
                        |j: int| fmul(dft(xs(j), w)[q], dft(ws(j), w)[q]),
                        |j: int|
                            fmul(
                                dft(
                                    zero_extended(reversed_chunk(x.data@, n * n, j), len as nat),
                                    w,
                                )[q],
                                dft(
                                    padded_filter(
                                        filter_of(self.data@, f as int, kx as int, i as int, j),
                                        f as int,
                                        n,
                                        len as nat,
                                    ),
                                    w,
                                )[q],
                            ),
                    );
                }
                lemma_conv_row(xs, ws, kx as nat, k, w, fes(row@));
                assert(Seq::new(
                    pow2(k),
                    |m: int| fsum(kx as nat, |j: int| cyclic(xs(j), ws(j))[m]),
                ) =~= polys[i as int]) by {
                    assert forall|m: int| 0 <= m < len implies fsum(
                        kx as nat,
                        |j: int| cyclic(xs(j), ws(j))[m],
                    ) == #[trigger] polys[i as int][m] by {
                        lemma_fsum_eq(
                            kx as nat,
                            |j: int| cyclic(xs(j), ws(j))[m],
                            |j: int|
                                cyclic(
                                    zero_extended(reversed_chunk(x.data@, n * n, j), len as nat),
                                    padded_filter(
                                        filter_of(self.data@, f as int, kx as int, i as int, j),
                                        f as int,
                                        n,
                                        len as nat,
                                    ),
                                )[m],
                        );
                    }
                }
            }
            fft(&mut row, true);
            prod_rows.push(kept);
            output.push(row);
            i = i + 1;
        }
        proof {
            assert(fes2(output@) =~= polys);
            assert forall|i: int| 0 <= i < output@.len() implies (#[trigger] output@[i])@.len()
                == len by {
                assert(fes(output@[i]@).len() == polys[i].len());
            }
        }
        let conv_data = ConvData::new(real_input, input, x_vec, prod_rows, output, n_x);
        proof {
            let rows = polys.map_values(|u: Seq<Fe>| read_poly(u, n));
            assert(rows == fes2(output@).map_values(|u: Seq<Fe>| read_poly(u, n)));
            lemma_concat_rows(rows, n2 as nat);
            lemma_prod3(kw, n_x, n_x);
            assert(fes(conv_data.real_input@) =~= x.data@.map_values(|e: Element| fint(e as int)));
        }
        let dims: Vec<usize> = vec![kw, n_x, n_x];
        proof {
            assert(dims@ =~= seq![kw, n_x, n_x]);
        }
        (Tensor::new(Shape(dims), copy_slice(&conv_data.output_as_element)), conv_data)
    }

    /// The sum, over the input channels, of the products of transforms for output channel `i`.
    fn product_row(
        &self,
        x_vec: &Vec<Vec<GoldilocksExt2>>,
        i: usize,
        n_x: usize,
        Ghost(x): Ghost<Seq<Element>>,
        Ghost(w): Ghost<Fe>,
    ) -> (row: Vec<GoldilocksExt2>)
        requires
            self.shape@.len() >= 3,
            self.og_shape@.len() >= 3,
            i < self.shape@[0],
            conv_side(n_x as int),
            w == root_of_unity(clog2((2 * (n_x * n_x)) as nat)),
            (self.shape@[0] * self.shape@[1]) * (self.og_shape@[2] * self.og_shape@[2])
                <= self.data@.len(),
            self.shape@[1] <= x_vec@.len(),
            forall|j: int|
                0 <= j < self.shape@[1] ==> fes(#[trigger] x_vec@[j]@) == dft(
                    zero_extended(reversed_chunk(x, n_x * n_x, j), (2 * (n_x * n_x)) as nat),
                    w,
                ),
        ensures
            ({
                let n = n_x as int;
                let f = self.og_shape@[2] as int;
                let kx = self.shape@[1] as int;
                let len = (2 * (n * n)) as nat;
                &&& row@.len() == len
                &&& forall|q: int|
                    0 <= q < len ==> (#[trigger] row@[q]).fe() == fsum(
                        kx as nat,
                        |j: int|
                            fmul(
                                dft(zero_extended(reversed_chunk(x, n * n, j), len), w)[q],
                                dft(
                                    padded_filter(
                                        filter_of(self.data@, f, kx, i as int, j),
                                        f,
                                        n,
                                        len,
                                    ),
                                    w,
                                )[q],
                            ),
                    )
            }),
    {
        proof {
            lemma_conv_side(n_x as nat);
        }
        let (kw, kx, f) = (self.kw(), self.kx(), self.real_nw());
        let total = self.data.len();
        let n2: usize = n_x * n_x;
        let len: usize = 2 * n2;
        let ghost term = |q: int|
            |j: int|
                fmul(
                    dft(zero_extended(reversed_chunk(x, n_x * n_x, j), len as nat), w)[q],
                    dft(
                        padded_filter(
                            filter_of(self.data@, f as int, kx as int, i as int, j),
                            f as int,
                            n_x as int,
                            len as nat,
                        ),
                        w,
                    )[q],
                );
        let mut row: Vec<GoldilocksExt2> = Vec::with_capacity(len);
        let mut a: usize = 0;
        while a < len
            invariant
                a <= len,
                row@.len() == a,
                forall|b: int| 0 <= b < a ==> (#[trigger] row@[b]).fe() == fzero(),
            decreases len - a,
        {
            row.push(GoldilocksExt2::zero());
            a = a + 1;
        }
        let mut j: usize = 0;
        while j < kx
            invariant
                j <= kx,
                i < kw,
                self.shape@.len() >= 3,
                kw == self.shape@[0],
                kx == self.shape@[1],
                f == self.og_shape@[2],
                n_x >= 1,
                n2 == n_x * n_x,
                len == 2 * n2,
                fft_len(len as nat),
                w == root_of_unity(clog2(len as nat)),
                total == self.data@.len(),
                (kw * kx) * (f * f) <= total,
                kx <= x_vec@.len(),
                forall|j: int|
                    0 <= j < kx ==> fes(#[trigger] x_vec@[j]@) == dft(
                        zero_extended(reversed_chunk(x, n_x * n_x, j), len as nat),
                        w,
                    ),
                term == |q: int|
                    |j: int|
                        fmul(
                            dft(zero_extended(reversed_chunk(x, n_x * n_x, j), len as nat), w)[q],
                            dft(
                                padded_filter(
                                    filter_of(self.data@, f as int, kx as int, i as int, j),
                                    f as int,
                                    n_x as int,
                                    len as nat,
                                ),
                                w,
                            )[q],
                        ),
                row@.len() == len,
                forall|q: int|
                    0 <= q < len ==> (#[trigger] row@[q]).fe() == fsum(j as nat, term(q)),
            decreases kx - j,
        {
            let ghost f2 = (f * f) as int;
            proof {
                lemma_filter_range(kw as int, kx as int, f2, i as int, j as int);
            }
            let (start, end): (usize, usize) = if f == 0 {
                (0, 0)
            } else {
                proof {
                    let m = (kw * kx) as int;
                    assert(f2 >= 1) by (nonlinear_arith)
                        requires
                            f >= 1,
                            f2 == f * f,
                    ;
                    assert(m <= m * f2 && f2 <= m * f2) by (nonlinear_arith)
                        requires
                            m >= 1,
                            f2 >= 1,
                    ;
                }
                ((i * kx + j) * (f * f), (i * kx + j) * (f * f) + f * f)
            };
            proof {
                assert(f == 0 ==> f * f == 0 && (i * kx + j) * (f * f) == 0) by (nonlinear_arith);
            }
            let part = slice_subrange(self.data.as_slice(), start, end);
            let ghost fil = filter_of(self.data@, f as int, kx as int, i as int, j as int);
            proof {
                assert(part@ =~= fil);
                assert forall|idx: int|
                    #![trigger idx / (n_x as int)]
                    0 <= idx < len && idx / (n_x as int) < f && idx % (n_x as int) < f implies (idx
                    / (n_x as int)) * f + idx % (n_x as int) < part@.len() by {
                    vstd::arithmetic::div_mod::lemma_div_pos_is_pos(idx, n_x as int);
                    vstd::arithmetic::div_mod::lemma_mod_bound(idx, n_x as int);
                    arith::lemma_grid_bound(
                        idx / (n_x as int),
                        f as int,
                        idx % (n_x as int),
                        f as int,
                    );
                }
            }
            let mut wf = index_w(part, f, n_x, len);
            proof {
                assert(fes(wf@).len() == len);
            }
            fft(&mut wf, false);
            let ghost before = row@;
            let mut q: usize = 0;
            while q < len
                invariant
                    q <= len,
                    len == row@.len(),
                    len == before.len(),
                    len == wf@.len(),
                    j < x_vec@.len(),
                    x_vec@[j as int]@.len() == len,
                    forall|p: int| q <= p < len ==> #[trigger] row@[p] == before[p],
                    forall|p: int|
                        0 <= p < q ==> (#[trigger] row@[p]).fe() == fadd(
                            before[p].fe(),
                            fmul(x_vec@[j as int]@[p].fe(), wf@[p].fe()),
                        ),
                decreases len - q,
            {
                let t = x_vec[j][q].times(&wf[q]);
                let s = row[q].plus(&t);
                row.set(q, s);
                q = q + 1;
            }
            proof {
                assert forall|p: int| 0 <= p < len implies (#[trigger] row@[p]).fe() == fsum(
                    (j + 1) as nat,
                    term(p),
                ) by {
                    assert(before[p].fe() == fsum(j as nat, term(p)));
                    assert(fes(x_vec@[j as int]@)[p] == x_vec@[j as int]@[p].fe());
                    assert(fes(wf@)[p] == wf@[p].fe());
                    assert(term(p)(j as int) == fmul(x_vec@[j as int]@[p].fe(), wf@[p].fe()));
                }
            }
            j = j + 1;
        }
        proof {
            assert forall|q: int| 0 <= q < len implies (#[trigger] row@[q]).fe() == fsum(
                kx as nat,
                |j: int|
                    fmul(
                        dft(
                            zero_extended(reversed_chunk(x, n_x * n_x, j), len as nat),
                            w,
                        )[q],
                        dft(
                            padded_filter(
                                filter_of(self.data@, f as int, kx as int, i as int, j),
                                f as int,
                                n_x as int,
                                len as nat,
                            ),
                            w,
                        )[q],
                    ),
            ) by {
                lemma_fsum_eq(
                    kx as nat,
                    term(q),
                    |j: int|
                        fmul(
                            dft(
                                zero_extended(reversed_chunk(x, n_x * n_x, j), len as nat),
                                w,
                            )[q],
                            dft(
                                padded_filter(
                                    filter_of(self.data@, f as int, kx as int, i as int, j),
                                    f as int,
                                    n_x as int,
                                    len as nat,
                                ),
                                w,
                            )[q],
                        ),
                );
            }
        }
        row
    }
}

/// The product of transforms that output channel `i` of `fft_conv_old` is read from: the weights
/// already are transforms, of length `2 * n * n` each.
pub open spec fn transformed_product(x: Seq<Element>, w: Seq<Element>, n: int, i: int) -> Seq<Fe> {
    let len = (2 * (n * n)) as nat;
    let c = chunks(x.len() as int, n * n);
    Seq::new(
        len,
        |q: int|
            fsum(
                c as nat,
                |j: int|
                    fmul(
                        dft(
                            zero_extended(reversed_chunk(x, n * n, j), len),
                            root_of_unity(clog2(len)),
                        )[q],
                        fint(w[(i * c + j) * len + q] as int),
                    ),
            ),
    )
}

impl Tensor<Element> {
    /// Convolves `x` with a filter whose weights are transforms already.
    pub fn fft_conv_old(&self, x: &Tensor<Element>) -> (r: (Tensor<Element>, ConvData))
        requires
            self.shape@.len() >= 1,
            x.shape@.len() >= 2,
            x.data@.len() > 0,
            conv_side(npot(x.shape@[1] as nat) as int),
            ({
                let n = npot(x.shape@[1] as nat) as int;
                (self.shape@[0] * chunks(x.data@.len() as int, n * n)) * (2 * (n * n))
                    <= self.data@.len()
            }),
        ensures
            ({
                let n = npot(x.shape@[1] as nat) as int;
                let len = (2 * (n * n)) as nat;
                let w = root_of_unity(clog2(len));
                let prods = Seq::new(
                    self.shape@[0] as nat,
                    |i: int| transformed_product(x.data@, self.data@, n, i),
                );
                let outs = prods.map_values(|p: Seq<Fe>| idft(p, w));
                &&& r.0.wf()
                &&& r.0.shape@ == seq![self.shape@[0], n as usize, n as usize]
                &&& r.0.og_shape@ == seq![0usize]
                &&& r.0.data@ == read_polys(outs, n)
                &&& r.1.output_as_element@ == read_polys(outs, n)
                &&& fes2(r.1.prod@) == prods
                &&& fes2(r.1.output@) == outs
                &&& fes(r.1.real_input@) == x.data@.map_values(|e: Element| fint(e as int))
                &&& r.1.input@.len() == chunks(x.data@.len() as int, n * n)
                &&& r.1.input_fft@.len() == r.1.input@.len()
                &&& forall|j: int|
                    0 <= j < r.1.input@.len() ==> fes(#[trigger] r.1.input@[j]@)
                        == reversed_chunk(x.data@, n * n, j)
                &&& forall|j: int|
                    0 <= j < r.1.input_fft@.len() ==> fes(#[trigger] r.1.input_fft@[j]@) == dft(
                        zero_extended(reversed_chunk(x.data@, n * n, j), len),
                        w,
                    )
            }),
    {
        proof {
            lemma_npot(x.shape@[1] as nat);
        }
        let n_x = arith::next_power_of_two(x.shape.0[1]);
        proof {
            lemma_conv_side(n_x as nat);
        }
        let n2: usize = n_x * n_x;
        let len: usize = 2 * n2;
        let ghost w = root_of_unity(clog2(len as nat));
        let real_input = x.evals_flat();
        let w_fft = self.evals_flat();
        let total = self.data.len();
        let (x_vec, input) = transformed_chunks(&real_input, n_x, Ghost(x.data@));
        let kw = self.kw();
        let c = x_vec.len();
        let ghost prods = Seq::new(
            kw as nat,
            |i: int| transformed_product(x.data@, self.data@, n_x as int, i),
        );
        let ghost outs = prods.map_values(|p: Seq<Fe>| idft(p, w));
        let mut prod_rows: Vec<Vec<GoldilocksExt2>> = Vec::new();
        let mut output: Vec<Vec<GoldilocksExt2>> = Vec::new();
        let mut i: usize = 0;
        let mut base: usize = 0;
        proof {
            assert((0 * c) * len == 0) by (nonlinear_arith);
        }
        while i < kw
            invariant
                i <= kw,
                n2 == n_x * n_x,
                len == 2 * n2,
                fft_len(len as nat),
                w == root_of_unity(clog2(len as nat)),
                c == chunks(x.data@.len() as int, n_x * n_x),
                c == x_vec@.len(),
                total == self.data@.len(),
                total == w_fft@.len(),
                (kw * c) * len <= total,
                base == (i * c) * len,
                forall|i: int|
                    0 <= i < w_fft@.len() ==> (#[trigger] w_fft@[i]).fe() == fint(
                        self.data@[i] as int,
                    ),
                forall|j: int|
                    0 <= j < c ==> fes(#[trigger] x_vec@[j]@) == dft(
                        zero_extended(reversed_chunk(x.data@, n2 as int, j), len as nat),
                        w,
                    ),
                prods == Seq::new(
                    kw as nat,
                    |i: int| transformed_product(x.data@, self.data@, n_x as int, i),
                ),
                outs == prods.map_values(|p: Seq<Fe>| idft(p, w)),
                prod_rows@.len() == i,
                output@.len() == i,
                forall|a: int| 0 <= a < i ==> fes(#[trigger] output@[a]@) == outs[a],
                forall|a: int| 0 <= a < i ==> fes(#[trigger] prod_rows@[a]@) == prods[a],
            decreases kw - i,
        {
            let mut row: Vec<GoldilocksExt2> = Vec::with_capacity(len);
            let mut q: usize = 0;
            while q < len
                invariant
                    q <= len,
                    i < kw,
                    n2 == n_x * n_x,
                    len == 2 * n2,
                    w == root_of_unity(clog2(len as nat)),
                    c == chunks(x.data@.len() as int, n_x * n_x),
                    c == x_vec@.len(),
                    total == self.data@.len(),
                    total == w_fft@.len(),
                    (kw * c) * len <= total,
                    base == (i * c) * len,
                    forall|i: int|
                        0 <= i < w_fft@.len() ==> (#[trigger] w_fft@[i]).fe() == fint(
                            self.data@[i] as int,
                        ),
                    forall|j: int|
                        0 <= j < c ==> fes(#[trigger] x_vec@[j]@) == dft(
                            zero_extended(reversed_chunk(x.data@, n2 as int, j), len as nat),
                            w,
                        ),
                    row@.len() == q,
                    forall|p: int|
                        0 <= p < q ==> (#[trigger] row@[p]).fe() == transformed_product(
                            x.data@,
                            self.data@,
                            n_x as int,
                            i as int,
                        )[p],
                decreases len - q,
            {
                let ghost term = |j: int|
                    fmul(
                        dft(
                            zero_extended(reversed_chunk(x.data@, n_x * n_x, j), len as nat),
                            root_of_unity(clog2(len as nat)),
                        )[q as int],
                        fint(self.data@[(i * c + j) * len + q] as int),
                    );
                let mut sum = GoldilocksExt2::zero();
                let mut j: usize = 0;
                let mut place: usize = base;
                while j < c
                    invariant
                        j <= c,
                        i < kw,
                        q < len,
                        n2 == n_x * n_x,
                        len == 2 * n2,
                        w == root_of_unity(clog2(len as nat)),
                        c == x_vec@.len(),
                        total == self.data@.len(),
                        total == w_fft@.len(),
                        (kw * c) * len <= total,
                        place == (i * c + j) * len,
                        forall|i: int|
                            0 <= i < w_fft@.len() ==> (#[trigger] w_fft@[i]).fe() == fint(
                                self.data@[i] as int,
                            ),
                        forall|j: int|
                            0 <= j < c ==> fes(#[trigger] x_vec@[j]@) == dft(
                                zero_extended(reversed_chunk(x.data@, n2 as int, j), len as nat),
                                w,
                            ),
                        term == |j: int|
                            fmul(
                                dft(
                                    zero_extended(
                                        reversed_chunk(x.data@, n_x * n_x, j),
                                        len as nat,
                                    ),
                                    root_of_unity(clog2(len as nat)),
                                )[q as int],
                                fint(self.data@[(i * c + j) * len + q] as int),
                            ),
                        sum.fe() == fsum(j as nat, term),
                    decreases c - j,
                {
                    proof {
                        lemma_filter_range(kw as int, c as int, len as int, i as int, j as int);
                        assert(fes(x_vec@[j as int]@).len() == len);
                        assert(fes(x_vec@[j as int]@)[q as int] == x_vec@[j as int]@[q as int].fe());
                        assert(w_fft@[place + q].fe() == fint(self.data@[place + q] as int));
                    }
                    let t = x_vec[j][q].times(&w_fft[place + q]);
                    sum = sum.plus(&t);
                    place = place + len;
                    j = j + 1;
                }
                row.push(sum);
                q = q + 1;
            }
            proof {
                assert(fes(row@) =~= prods[i as int]);
                assert((i + 1) * c == i * c + c) by (nonlinear_arith);
                assert((i * c + c) * len == (i * c) * len + c * len) by (nonlinear_arith);
                lemma_chunk_rows(kw as int, c as int, len as int, i as int);
            }
            let kept = copy_slice(&row);
            fft(&mut row, true);
            prod_rows.push(kept);
            output.push(row);
            base = base + c * len;
            i = i + 1;
        }
        proof {
            assert(fes2(output@) =~= outs);
            assert(fes2(prod_rows@) =~= prods);
            assert forall|i: int| 0 <= i < output@.len() implies (#[trigger] output@[i])@.len()
                == len by {
                assert(fes(output@[i]@).len() == outs[i].len());
            }
        }
        let conv_data = ConvData::new(real_input, input, x_vec, prod_rows, output, n_x);
        proof {
            let rows = outs.map_values(|u: Seq<Fe>| read_poly(u, n_x as int));
            lemma_concat_rows(rows, n2 as nat);
            lemma_prod3(kw, n_x, n_x);
            assert(fes(conv_data.real_input@) =~= x.data@.map_values(|e: Element| fint(e as int)));
        }
        let dims: Vec<usize> = vec![kw, n_x, n_x];
        proof {
            assert(dims@ =~= seq![kw, n_x, n_x]);
        }
        (Tensor::new(Shape(dims), copy_slice(&conv_data.output_as_element)), conv_data)
    }
}

proof fn lemma_chunk_rows(kw: int, c: int, len: int, i: int)
    requires
        0 <= i < kw,
        0 <= c,
        0 <= len,
    ensures
        (i * c) * len + c * len <= (kw * c) * len,
        c * len <= (kw * c) * len,
{
    assert(i * c + c <= kw * c && 0 <= i * c) by (nonlinear_arith)
        requires
            0 <= i < kw,
            0 <= c,
    ;
    let (a, b) = (i * c + c, kw * c);
    assert(a * len <= b * len) by (nonlinear_arith)
        requires
            a <= b,
            0 <= len,
    ;
    assert((i * c + c) * len == (i * c) * len + c * len) by (nonlinear_arith);
    assert(0 <= (i * c) * len) by (nonlinear_arith)
        requires
            0 <= i * c,
            0 <= len,
    ;
}

/// The place of a filter among all filters.
proof fn lemma_filter_range(kw: int, kx: int, f2: int, i: int, j: int)
    requires
        0 <= i < kw,
        0 <= j < kx,
        0 <= f2,
    ensures
        0 <= (i * kx + j) * f2,
        (i * kx + j) * f2 + f2 <= (kw * kx) * f2,
        (i * kx + (j + 1)) * f2 == (i * kx + j) * f2 + f2,
        0 <= i * kx,
        i * kx + j < kw * kx,
{
    arith::lemma_grid_bound(i, kw, j, kx);
    let q = i * kx + j;
    let n = kw * kx;
    assert(0 <= q * f2 && q * f2 + f2 <= n * f2) by (nonlinear_arith)
        requires
            0 <= q < n,
            0 <= f2,
    ;
    assert((i * kx + (j + 1)) * f2 == (i * kx + j) * f2 + f2) by (nonlinear_arith);
    assert(0 <= i * kx) by (nonlinear_arith)
        requires
            0 <= i,
            0 <= kx,
    ;
}

} // verus!
