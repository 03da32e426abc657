//! The tables of the proof of a convolution layer.
use crate::algebra::{lemma_fsum_eq, lemma_fsum_scale, lemma_fsum_swap, root_of_unity};
use crate::arith::{self, clog2, flog2, floor_log2, lemma_flog2_pow2, lemma_grid_bound};
use crate::fft::{dft, fes, fft, fft_len};
use crate::field::{
    fint, fmul, fone, fpow, fsum, fzero, lemma_fmul_assoc, lemma_fmul_comm, to_field, Fe, GoldilocksExt2,
};
use crate::iop::batch::{
    fourier_row, lemma_mixed_product, lemma_stacked, lemma_stacked_mle, mixed, stacked, BatchTables,
};
use crate::iop::delegation::{betas, half_table};
use crate::iop::fourier::{level_table, phase};
use crate::layers::convolution::Convolution;
use crate::mle::{chi, compute_betas_eval, lemma_fsum_grid, lemma_mle_eq, mle_eval, mle_term};
use crate::number::Element;
use crate::tensor::copy_slice;
use crate::tensor::fft_conv::{fes2, filter_of, padded_filter};
use crate::tensor::Tensor;
use vstd::arithmetic::power2::{lemma2_to64, pow2};
use vstd::prelude::*;
use vstd::slice::slice_subrange;

verus! {

/// Entry `b` of a kernel of side `n_real`, laid out in rows of length `n` and filled up with zeros.
pub open spec fn laid_out_at(w: Seq<Fe>, n_real: int, n: int, b: int) -> Fe {
    if b / n < n_real && b % n < n_real {
        w[(b / n) * n_real + b % n]
    } else {
        fzero()
    }
}

/// The kernel of side `n_real`, laid out in rows of length `n` and filled up with zeros.
pub open spec fn laid_out(w: Seq<Fe>, n_real: int, n: int, len: nat) -> Seq<Fe> {
    Seq::new(len, |b: int| laid_out_at(w, n_real, n, b))
}

/// Lays out the kernel `w` of side `n_real` in rows of length `n`, and fills it up with zeros to the length
/// `output_len`.
pub fn index_wf(w: &[GoldilocksExt2], n_real: usize, n: usize, output_len: usize) -> (r: Vec<GoldilocksExt2>)
    requires
        n > 0,
        n_real * n_real <= w@.len(),
    ensures
        fes(r@) == laid_out(fes(w@), n_real as int, n as int, output_len as nat),
{
    let total: usize = w.len();
    let mut r: Vec<GoldilocksExt2> = Vec::with_capacity(output_len);
    let mut idx: usize = 0;
    while idx < output_len
        invariant
            idx <= output_len,
            n > 0,
            total == w@.len(),
            n_real * n_real <= total,
            r@.len() == idx,
            forall|b: int|
                0 <= b < idx ==> (#[trigger] r@[b]).fe() == laid_out_at(fes(w@), n_real as int, n as int, b),
        decreases output_len - idx,
    {
        let i: usize = idx / n;
        let j: usize = idx % n;
        if i < n_real && j < n_real {
            proof {
                lemma_grid_bound(i as int, n_real as int, j as int, n_real as int);
                assert(0 <= i * n_real) by (nonlinear_arith);
            }
            r.push(w[i * n_real + j]);
        } else {
            r.push(GoldilocksExt2::zero());
        }
        idx = idx + 1;
    }
    proof {
        assert(fes(r@) =~= laid_out(fes(w@), n_real as int, n as int, output_len as nat));
    }
    r
}

/// The weights of all kernels of the filter, mixed by `beta`: entry `k` is the sum over the kernels `q` of
/// `beta[q]` times their entry `k`. There are `count` kernels of `size` entries; kernel `q` starts at
/// `(off + q * step) * size`.
pub open spec fn mixed_kernel_at(
    w: Seq<Element>,
    beta: spec_fn(int) -> Fe,
    count: nat,
    off: int,
    step: int,
    size: int,
    k: int,
) -> Fe {
    fsum(count, |q: int| fmul(beta(q), fint(w[(off + q * step) * size + k] as int)))
}

/// The mixed kernels.
pub open spec fn mixed_kernel(
    w: Seq<Element>,
    beta: spec_fn(int) -> Fe,
    count: nat,
    off: int,
    step: int,
    size: nat,
) -> Seq<Fe> {
    Seq::new(size, |k: int| mixed_kernel_at(w, beta, count, off, step, size as int, k))
}

/// Mixes kernels by `beta`.
fn mix_kernels(
    w: &Vec<Element>,
    beta: &Vec<GoldilocksExt2>,
    count: usize,
    off: usize,
    step: usize,
    size: usize,
    Ghost(point): Ghost<Seq<Fe>>,
) -> (r: Vec<GoldilocksExt2>)
    requires
        count <= beta@.len(),
        forall|q: int| 0 <= q < count ==> (#[trigger] beta@[q]).fe() == chi(q, point),
        forall|q: int| 0 <= q < count ==> 0 <= #[trigger] ((off + q * step) * size) <= w@.len() - size,
        forall|q: int| 0 <= q < count ==> 0 <= #[trigger] (q * step) && off + q * step <= usize::MAX,
    ensures
        fes(r@) == mixed_kernel(w@, |q: int| chi(q, point), count as nat, off as int, step as int, size as nat),
{
    let ghost b = |q: int| chi(q, point);
    let mut r: Vec<GoldilocksExt2> = Vec::with_capacity(size);
    let mut k: usize = 0;
    while k < size
        invariant
            k <= size,
            count <= beta@.len(),
            b == (|q: int| chi(q, point)),
            forall|q: int| 0 <= q < count ==> (#[trigger] beta@[q]).fe() == chi(q, point),
            forall|q: int| 0 <= q < count ==> 0 <= #[trigger] ((off + q * step) * size) <= w@.len() - size,
            forall|q: int| 0 <= q < count ==> 0 <= #[trigger] (q * step) && off + q * step <= usize::MAX,
            r@.len() == k,
            forall|j: int|
                0 <= j < k ==> (#[trigger] r@[j]).fe() == mixed_kernel_at(
                    w@,
                    b,
                    count as nat,
                    off as int,
                    step as int,
                    size as int,
                    j,
                ),
        decreases size - k,
    {
        let ghost f = |q: int| fmul(b(q), fint(w@[(off + q * step) * size + k] as int));
        let mut acc = GoldilocksExt2::zero();
        let mut q: usize = 0;
        while q < count
            invariant
                q <= count,
                k < size,
                count <= beta@.len(),
                f == (|q: int| fmul(b(q), fint(w@[(off + q * step) * size + k] as int))),
                b == (|q: int| chi(q, point)),
                forall|q: int| 0 <= q < count ==> (#[trigger] beta@[q]).fe() == chi(q, point),
                forall|q: int| 0 <= q < count ==> 0 <= #[trigger] ((off + q * step) * size) <= w@.len() - size,
                forall|q: int| 0 <= q < count ==> 0 <= #[trigger] (q * step) && off + q * step <= usize::MAX,
                acc.fe() == fsum(q as nat, f),
            decreases count - q,
        {
            proof {
                assert(0 <= (off + q * step) * size <= w@.len() - size);
                assert(0 <= q * step && off + q * step <= usize::MAX);
                assert(w@.len() == w.len());
            }
            let index: usize = (off + q * step) * size + k;
            acc = acc.plus(&beta[q].times(&to_field(w[index])));
            q = q + 1;
        }
        r.push(acc);
        k = k + 1;
    }
    proof {
        assert(fes(r@) =~= mixed_kernel(w@, b, count as nat, off as int, step as int, size as nat));
    }
    r
}

/// The tables that show the transforms of the weights, and the mixed weights themselves.
#[derive(Debug)]
pub struct WeightTables {
    pub tables: BatchTables,
    pub partial_evals: Vec<GoldilocksExt2>,
}

/// The filter can be transformed: it has `kw * kx` kernels of side `f`, and its padded side is `n`.
pub open spec fn filter_ok(filter: &Tensor<Element>) -> bool {
    let n = filter.shape@[2] as int;
    let f = filter.og_shape@[2] as int;
    &&& filter.shape@.len() == 4
    &&& filter.og_shape@.len() > 2
    &&& fft_len((2 * (n * n)) as nat)
    &&& 2 * (n * n) <= usize::MAX
    &&& 1 <= f <= n
    &&& filter.shape@[0] > 0
    &&& filter.shape@[1] > 0
    &&& (filter.shape@[0] * filter.shape@[1]) * (f * f) <= filter.data@.len()
}

/// The length of the transforms and its logarithm.
pub open spec fn transform_len(filter: &Tensor<Element>) -> nat {
    (2 * (filter.shape@[2] * filter.shape@[2])) as nat
}

pub proof fn lemma_transform_len(filter: &Tensor<Element>)
    requires
        filter_ok(filter),
    ensures
        pow2(flog2(transform_len(filter))) == transform_len(filter),
        1 <= flog2(transform_len(filter)) <= 32,
        clog2(transform_len(filter)) == flog2(transform_len(filter)),
{
    let len = transform_len(filter);
    let e = choose|e: nat| #[trigger] pow2(e) == len;
    lemma_flog2_pow2(e);
    arith::lemma_clog2_pow2(e);
    lemma2_to64();
    if e == 0 {
        assert(false);
    }
    if e > 32 {
        vstd::arithmetic::power2::lemma_pow2_strictly_increases(32, e);
    }
}

proof fn lemma_kernel_places(kw: int, kx: int, size: int, total: int)
    requires
        0 < kw,
        0 < kx,
        0 < size,
        (kw * kx) * size <= total,
        total <= usize::MAX,
    ensures
        forall|q: int| 0 <= q < kw * kx ==> 0 <= #[trigger] ((0 + q * 1) * size) <= total - size,
        forall|q: int| 0 <= q < kw * kx ==> 0 <= #[trigger] (q * 1) && 0 + q * 1 <= usize::MAX,
        forall|i: int, q: int|
            0 <= i < kx && 0 <= q < kw ==> 0 <= #[trigger] ((i + q * kx) * size) <= total - size,
        forall|i: int, q: int| 0 <= i < kx && 0 <= q < kw ==> 0 <= q * kx && #[trigger] (i + q * kx) <= usize::MAX,
        0 < kw * kx <= usize::MAX,
{
    let m = kw * kx;
    assert(0 < m) by (nonlinear_arith)
        requires
            m == kw * kx,
            kw > 0,
            kx > 0,
    ;
    assert(m <= m * size) by (nonlinear_arith)
        requires
            m > 0,
            size >= 1,
    ;
    assert forall|q: int| 0 <= q < m implies 0 <= #[trigger] ((0 + q * 1) * size) <= total - size by {
        assert(0 <= q * size && q * size + size <= m * size) by (nonlinear_arith)
            requires
                0 <= q < m,
                size > 0,
        ;
        assert((0 + q * 1) * size == q * size) by (nonlinear_arith);
    }
    assert forall|q: int| 0 <= q < m implies 0 <= #[trigger] (q * 1) && 0 + q * 1 <= usize::MAX by {
        assert(q * 1 == q) by (nonlinear_arith);
    }
    assert forall|i: int, q: int| 0 <= i < kx && 0 <= q < kw implies 0 <= #[trigger] ((i + q * kx) * size)
        <= total - size by {
        lemma_grid_bound(q, kw, i, kx);
        let p = i + q * kx;
        assert(0 <= p * size && p * size + size <= m * size) by (nonlinear_arith)
            requires
                0 <= p < m,
                size > 0,
        ;
    }
    assert forall|i: int, q: int| 0 <= i < kx && 0 <= q < kw implies 0 <= q * kx && #[trigger] (i + q * kx)
        <= usize::MAX by {
        lemma_grid_bound(q, kw, i, kx);
        assert(0 <= q * kx) by (nonlinear_arith)
            requires
                q >= 0,
                kx >= 0,
        ;
    }
}

impl Convolution<Element> {
    /// The tables that show the transforms of the kernels at the point `r`.
    pub fn batch_fft_weights_tables(&self, r: &[GoldilocksExt2]) -> (t: WeightTables)
        requires
            filter_ok(&self.filter),
            r@.len() >= flog2(transform_len(&self.filter)),
            pow2((r@.len() - flog2(transform_len(&self.filter))) as nat) <= usize::MAX,
            self.filter.shape@[0] * self.filter.shape@[1] <= pow2(
                (r@.len() - flog2(transform_len(&self.filter))) as nat,
            ),
        ensures
            ({
                let len = transform_len(&self.filter);
                let n = flog2(len);
                let f = self.filter.og_shape@[2] as int;
                let p = fes(r@).take(n as int);
                let q = fes(r@).skip(n as int);
                let kernels = (self.filter.shape@[0] * self.filter.shape@[1]) as nat;
                let mix = mixed_kernel(self.filter.data@, |i: int| chi(i, q), kernels, 0, 1, (f * f) as nat);
                &&& fes(t.partial_evals@) == mix
                &&& fes(t.tables.r1@) == p
                &&& fes(t.tables.f_m@) == laid_out(mix, f, self.filter.shape@[2] as int, len)
                &&& fes(t.tables.f_red@) == half_table(p, phase(n, false), fone(), n)
                &&& t.tables.f_middle@.len() == n - 1
                &&& forall|i: int|
                    0 <= i < n - 1 ==> fes(#[trigger] t.tables.f_middle@[i]@) == level_table(
                        p,
                        phase(n, false),
                        fone(),
                        n,
                        (i + 1) as nat,
                    )
            }),
    {
        let ghost len = transform_len(&self.filter);
        proof {
            lemma_transform_len(&self.filter);
            let (nn, ff) = (self.filter.shape@[2] as int, self.filter.og_shape@[2] as int);
            assert(1 <= ff * ff <= nn * nn) by (nonlinear_arith)
                requires
                    1 <= ff <= nn,
            ;
            assert(self.filter.data@.len() == self.filter.data.len());
            lemma_kernel_places(
                self.filter.shape@[0] as int,
                self.filter.shape@[1] as int,
                ff * ff,
                self.filter.data@.len() as int,
            );
        }
        let nw = self.filter.nw();
        let side = self.filter.real_nw();
        let padded_rows: usize = 2 * (nw * nw);
        let n = floor_log2(padded_rows);
        let total: usize = r.len();
        let r1 = slice_subrange(r, 0, n);
        let r2 = slice_subrange(r, n, total);
        let beta = compute_betas_eval(r2);
        let (f_red, f_middle) = fourier_row(r1, GoldilocksExt2::one(), padded_rows, false);
        let kernels: usize = self.filter.kw() * self.filter.kx();
        let size: usize = side * side;
        let ghost q = fes(r2@);
        proof {
            assert(q =~= fes(r@).skip(n as int));
            assert(fes(r1@) =~= fes(r@).take(n as int));
        }
        let partial_evals = mix_kernels(&self.filter.data, &beta, kernels, 0, 1, size, Ghost(q));
        proof {
            assert(fes(partial_evals@).len() == size);
        }
        let f_m = index_wf(&partial_evals, side, nw, padded_rows);
        WeightTables { tables: BatchTables { f_m, f_red, f_middle, r1: copy_slice(r1) }, partial_evals }
    }
}

/// The tables of the sum that shows the products of transforms: the transformed kernels of each input
/// channel, mixed along the output channels; the transformed input; and the corner polynomials of the low
/// part of the point, once for each input channel.
#[derive(Debug)]
pub struct HadamardTables {
    pub f1: Vec<GoldilocksExt2>,
    pub f2: Vec<GoldilocksExt2>,
    pub f3: Vec<GoldilocksExt2>,
}

/// The kernels of input channel `j`, mixed along the output channels at `q` and laid out.
pub open spec fn channel_kernel(filter: &Tensor<Element>, q: Seq<Fe>, j: int) -> Seq<Fe> {
    let f = filter.og_shape@[2] as int;
    laid_out(
        mixed_kernel(
            filter.data@,
            |i: int| chi(i, q),
            filter.shape@[0] as nat,
            j,
            filter.shape@[1] as int,
            (f * f) as nat,
        ),
        f,
        filter.shape@[2] as int,
        transform_len(filter),
    )
}

/// The transforms of the mixed kernels, one for each input channel.
pub open spec fn channel_transforms(filter: &Tensor<Element>, q: Seq<Fe>) -> Seq<Seq<Fe>> {
    Seq::new(
        filter.shape@[1] as nat,
        |j: int| dft(channel_kernel(filter, q, j), root_of_unity(clog2(transform_len(filter)))),
    )
}

/// The same table `n` times.
pub open spec fn repeated(v: Seq<Fe>, n: nat) -> Seq<Seq<Fe>> {
    Seq::new(n, |j: int| v)
}

/// Appends the entries of `s`.
fn append_copy(v: &mut Vec<GoldilocksExt2>, s: &Vec<GoldilocksExt2>)
    ensures
        final(v)@ == old(v)@ + s@,
{
    let mut c = copy_slice(s);
    v.append(&mut c);
}

/// Rows of one length, one behind the other, with one more row.
proof fn lemma_stacked_push(rows: Seq<Seq<Fe>>, row: Seq<Fe>, len: nat)
    requires
        row.len() == len,
        len > 0,
    ensures
        stacked(rows.push(row), len) == stacked(rows, len) + row,
{
    let n = rows.len();
    assert((n + 1) * len == n * len + len) by (nonlinear_arith);
    let a = stacked(rows.push(row), len);
    let b = stacked(rows, len) + row;
    assert forall|p: int| 0 <= p < a.len() implies a[p] == b[p] by {
        arith::lemma_grid_split(p, (n + 1) as int, len as int);
        let (j, i) = (p / (len as int), p % (len as int));
        if j < n {
            assert((j + 1) * len <= n * len) by (nonlinear_arith)
                requires
                    j + 1 <= n,
            ;
            assert((j + 1) * len == j * len + len) by (nonlinear_arith);
        } else {
            assert(j == n);
        }
    }
    assert(a =~= b);
}

impl Convolution<Element> {
    /// The tables that show the products of transforms at the point `r2 + r1`, for the transformed input
    /// channels `input_fft`.
    pub fn hadamard_tables(
        &self,
        input_fft: &Vec<Vec<GoldilocksExt2>>,
        r1: &[GoldilocksExt2],
        r2: &[GoldilocksExt2],
    ) -> (t: HadamardTables)
        requires
            filter_ok(&self.filter),
            self.filter.shape@[0] <= pow2(r1@.len()) <= usize::MAX,
            transform_len(&self.filter) == pow2(r2@.len()),
            input_fft@.len() == self.filter.shape@[1],
            forall|j: int|
                0 <= j < input_fft@.len() ==> (#[trigger] input_fft@[j])@.len() == transform_len(&self.filter),
        ensures
            ({
                let len = transform_len(&self.filter);
                let kx = self.filter.shape@[1] as nat;
                &&& fes(t.f1@) == stacked(channel_transforms(&self.filter, fes(r1@)), len)
                &&& fes(t.f2@) == stacked(fes2(input_fft@), len)
                &&& fes(t.f3@) == stacked(repeated(betas(fes(r2@)), kx), len)
            }),
    {
        let ghost len = transform_len(&self.filter);
        let ghost q = fes(r1@);
        let ghost p = fes(r2@);
        let kw = self.filter.kw();
        let kx = self.filter.kx();
        let nw = self.filter.nw();
        let side = self.filter.real_nw();
        proof {
            lemma_transform_len(&self.filter);
            assert(1 <= side * side <= nw * nw) by (nonlinear_arith)
                requires
                    1 <= side <= nw,
            ;
            assert(self.filter.data@.len() == self.filter.data.len());
            lemma_kernel_places(kw as int, kx as int, side * side, self.filter.data@.len() as int);
        }
        let beta1 = compute_betas_eval(r1);
        let beta2 = compute_betas_eval(r2);
        let out_len: usize = 2 * (nw * nw);
        let size: usize = side * side;
        let mut f1: Vec<GoldilocksExt2> = Vec::new();
        let mut f2: Vec<GoldilocksExt2> = Vec::new();
        let mut f3: Vec<GoldilocksExt2> = Vec::new();
        let ghost rows1 = channel_transforms(&self.filter, q);
        let ghost rows2 = fes2(input_fft@);
        let ghost rows3 = repeated(betas(p), kx as nat);
        proof {
            assert(fes(beta2@) =~= betas(p));
            assert(fes(f1@) =~= stacked(rows1.take(0), len)) by {
                assert(0 * len == 0);
            }
            assert(fes(f2@) =~= stacked(rows2.take(0), len)) by {
                assert(0 * len == 0);
            }
            assert(fes(f3@) =~= stacked(rows3.take(0), len)) by {
                assert(0 * len == 0);
            }
        }
        let mut i: usize = 0;
        while i < kx
            invariant
                i <= kx,
                kx == self.filter.shape@[1],
                kw == self.filter.shape@[0],
                nw == self.filter.shape@[2],
                side == self.filter.og_shape@[2],
                filter_ok(&self.filter),
                kw > 0,
                kx > 0,
                len == transform_len(&self.filter),
                out_len == len,
                len > 0,
                size == side * side,
                size >= 1,
                (kw * kx) * size <= self.filter.data@.len(),
                self.filter.data@.len() <= usize::MAX,
                kw <= beta1@.len(),
                q == fes(r1@),
                forall|a: int| 0 <= a < beta1@.len() ==> (#[trigger] beta1@[a]).fe() == chi(a, q),
                fes(beta2@) == betas(p),
                beta2@.len() == len,
                input_fft@.len() == kx,
                forall|j: int| 0 <= j < input_fft@.len() ==> (#[trigger] input_fft@[j])@.len() == len,
                rows1 == channel_transforms(&self.filter, q),
                rows2 == fes2(input_fft@),
                rows3 == repeated(betas(p), kx as nat),
                fes(f1@) == stacked(rows1.take(i as int), len),
                fes(f2@) == stacked(rows2.take(i as int), len),
                fes(f3@) == stacked(rows3.take(i as int), len),
            decreases kx - i,
        {
            proof {
                lemma_kernel_places(kw as int, kx as int, size as int, self.filter.data@.len() as int);
                assert forall|a: int| 0 <= a < kw implies 0 <= #[trigger] ((i + a * kx) * size)
                    <= self.filter.data@.len() - size by {}
                assert forall|a: int| 0 <= a < kw implies 0 <= #[trigger] (a * kx) && i + a * kx <= usize::MAX by {
                    assert(i + a * kx <= usize::MAX);
                }
            }
            let mixed_w = mix_kernels(&self.filter.data, &beta1, kw, i, kx, size, Ghost(q));
            proof {
                assert(fes(mixed_w@).len() == size);
            }
            let mut part = index_wf(&mixed_w, side, nw, out_len);
            proof {
                assert(fes(part@).len() == out_len);
                assert(fes(part@) == channel_kernel(&self.filter, q, i as int));
            }
            fft(&mut part, false);
            let ghost (v1, v2, v3) = (f1@, f2@, f3@);
            append_copy(&mut f1, &part);
            append_copy(&mut f2, &input_fft[i]);
            append_copy(&mut f3, &beta2);
            proof {
                assert(fes(part@) == rows1[i as int]);
                assert(rows1.take(i + 1) =~= rows1.take(i as int).push(rows1[i as int]));
                assert(rows2.take(i + 1) =~= rows2.take(i as int).push(rows2[i as int]));
                assert(rows3.take(i + 1) =~= rows3.take(i as int).push(rows3[i as int]));
                assert(fes(input_fft@[i as int]@).len() == len);
                lemma_stacked_push(rows1.take(i as int), rows1[i as int], len);
                lemma_stacked_push(rows2.take(i as int), rows2[i as int], len);
                lemma_stacked_push(rows3.take(i as int), rows3[i as int], len);
                assert(fes(f1@) =~= fes(v1) + fes(part@));
                assert(fes(f2@) =~= fes(v2) + fes(input_fft@[i as int]@));
                assert(fes(f3@) =~= fes(v3) + fes(beta2@));
            }
            i = i + 1;
        }
        proof {
            assert(rows1.take(kx as int) =~= rows1);
            assert(rows2.take(kx as int) =~= rows2);
            assert(rows3.take(kx as int) =~= rows3);
        }
        HadamardTables { f1, f2, f3 }
    }
}

/// Mixing kernels commutes with laying them out and transforming them.
pub proof fn law_mixed_kernels(filter: &Tensor<Element>, q: Seq<Fe>, j: int, m: int)
    requires
        filter_ok(filter),
        0 <= j < filter.shape@[1],
        0 <= m < transform_len(filter),
    ensures
        ({
            let len = transform_len(filter);
            let root = root_of_unity(clog2(len));
            let (f, n, kx) = (filter.og_shape@[2] as int, filter.shape@[2] as int, filter.shape@[1] as int);
            dft(channel_kernel(filter, q, j), root)[m] == fsum(
                filter.shape@[0] as nat,
                |i: int|
                    fmul(
                        chi(i, q),
                        dft(padded_filter(filter_of(filter.data@, f, kx, i, j), f, n, len), root)[m],
                    ),
            )
        }),
{
    let len = transform_len(filter);
    let root = root_of_unity(clog2(len));
    let (f, n, kx) = (filter.og_shape@[2] as int, filter.shape@[2] as int, filter.shape@[1] as int);
    let kw = filter.shape@[0] as nat;
    let a = f * f;
    assert(a >= 0) by (nonlinear_arith)
        requires
            a == f * f,
    ;
    let v = channel_kernel(filter, q, j);
    let ker = |i: int| padded_filter(filter_of(filter.data@, f, kx, i, j), f, n, len);
    let t = |b: int, i: int| fmul(chi(i, q), fmul(ker(i)[b], fpow(root, (b * m) as nat)));
    let lhs = |b: int| fmul(v[b], fpow(root, (b * m) as nat));
    let rows = |b: int| fsum(kw, |i: int| t(b, i));
    assert forall|b: int| 0 <= b < len implies #[trigger] lhs(b) == rows(b) by {
        let z = fpow(root, (b * m) as nat);
        let g = |i: int| fmul(chi(i, q), ker(i)[b]);
        assert(v[b] == fsum(kw, g)) by {
            vstd::arithmetic::div_mod::lemma_div_pos_is_pos(b, n);
            vstd::arithmetic::div_mod::lemma_mod_bound(b, n);
            if b / n < f && b % n < f {
                let k = (b / n) * f + b % n;
                lemma_grid_bound(b / n, f, b % n, f);
                let h = |i: int| fmul(chi(i, q), fint(filter.data@[(j + i * kx) * a + k] as int));
                assert forall|i: int| 0 <= i < kw implies #[trigger] g(i) == h(i) by {
                    assert(ker(i)[b] == fint(filter_of(filter.data@, f, kx, i, j)[k] as int));
                    lemma_kernel_range(kw as int, kx, a, i, j, filter.data@.len() as int);
                    assert(filter_of(filter.data@, f, kx, i, j)[k] == filter.data@[(i * kx + j) * a + k]);
                    assert(i * kx + j == j + i * kx);
                }
                lemma_fsum_eq(kw, g, h);
                let beta = |i: int| chi(i, q);
                lemma_fsum_eq(kw, h, |i: int| fmul(beta(i), fint(filter.data@[(j + i * kx) * a + k] as int)));
            } else {
                assert forall|i: int| 0 <= i < kw implies #[trigger] g(i) == fzero() by {
                    assert(ker(i)[b] == fzero());
                    crate::field::lemma_fmul_zero(chi(i, q));
                }
                crate::algebra::lemma_fsum_zero(kw, g);
            }
        }
        lemma_fsum_scale(kw, z, g);
        lemma_fmul_comm(z, fsum(kw, g));
        let u = |i: int| fmul(z, g(i));
        let w = |i: int| t(b, i);
        assert forall|i: int| 0 <= i < kw implies #[trigger] u(i) == w(i) by {
            let (c, x) = (chi(i, q), ker(i)[b]);
            lemma_fmul_comm(z, fmul(c, x));
            lemma_fmul_assoc(c, x, z);
        }
        lemma_fsum_eq(kw, u, w);
    }
    lemma_fsum_eq(len, lhs, rows);
    lemma_fsum_swap(len, kw, t);
    let cols = |i: int| fsum(len, |b: int| t(b, i));
    let want = |i: int| fmul(chi(i, q), dft(ker(i), root)[m]);
    assert forall|i: int| 0 <= i < kw implies #[trigger] cols(i) == want(i) by {
        let g = |b: int| fmul(ker(i)[b], fpow(root, (b * m) as nat));
        lemma_fsum_scale(len, chi(i, q), g);
        lemma_fsum_eq(len, |b: int| t(b, i), |b: int| fmul(chi(i, q), g(b)));
    }
    lemma_fsum_eq(kw, cols, want);
    lemma_fsum_eq(
        kw,
        want,
        |i: int|
            fmul(
                chi(i, q),
                dft(padded_filter(filter_of(filter.data@, f, kx, i, j), f, n, len), root)[m],
            ),
    );
}

proof fn lemma_kernel_range(kw: int, kx: int, a: int, i: int, j: int, total: int)
    requires
        0 <= i < kw,
        0 <= j < kx,
        0 <= a,
        (kw * kx) * a <= total,
    ensures
        0 <= (i * kx + j) * a,
        (i * kx + j) * a + a <= total,
{
    lemma_grid_bound(i, kw, j, kx);
    let (p, m) = (i * kx + j, kw * kx);
    assert(0 <= p * a && p * a + a <= m * a) by (nonlinear_arith)
        requires
            0 <= p < m,
            a >= 0,
    ;
}

/// The sum of the products of the three tables is the extension, at `p + q`, of the sums of products of
/// transforms that the convolution inverts.
#[verifier::spinoff_prover]
pub proof fn law_hadamard_sum(
    filter: &Tensor<Element>,
    xs: Seq<Seq<Fe>>,
    prod: Seq<Seq<Fe>>,
    p: Seq<Fe>,
    q: Seq<Fe>,
)
    requires
        filter_ok(filter),
        transform_len(filter) == pow2(p.len()),
        filter.shape@[0] == pow2(q.len()),
        xs.len() == filter.shape@[1],
        prod.len() == filter.shape@[0],
        forall|i: int| 0 <= i < prod.len() ==> (#[trigger] prod[i]).len() == transform_len(filter),
        forall|i: int, m: int|
            0 <= i < prod.len() && 0 <= m < transform_len(filter) ==> #[trigger] prod[i][m] == fsum(
                filter.shape@[1] as nat,
                |j: int|
                    fmul(
                        xs[j][m],
                        dft(
                            padded_filter(
                                filter_of(
                                    filter.data@,
                                    filter.og_shape@[2] as int,
                                    filter.shape@[1] as int,
                                    i,
                                    j,
                                ),
                                filter.og_shape@[2] as int,
                                filter.shape@[2] as int,
                                transform_len(filter),
                            ),
                            root_of_unity(clog2(transform_len(filter))),
                        )[m],
                    ),
            ),
    ensures
        ({
            let len = transform_len(filter);
            let kx = filter.shape@[1] as nat;
            let f1 = stacked(channel_transforms(filter, q), len);
            let f2 = stacked(xs, len);
            let f3 = stacked(repeated(betas(p), kx), len);
            mle_eval(stacked(prod, len), p + q) == fsum(
                kx * len,
                |t: int| fmul(fmul(f1[t], f2[t]), f3[t]),
            )
        }),
{
    let len = transform_len(filter);
    let (f, n) = (filter.og_shape@[2] as int, filter.shape@[2] as int);
    let kx = filter.shape@[1] as nat;
    let kw = filter.shape@[0] as nat;
    let root = root_of_unity(clog2(len));
    let ds = channel_transforms(filter, q);
    let f1 = stacked(ds, len);
    let f2 = stacked(xs, len);
    let f3 = stacked(repeated(betas(p), kx), len);
    let w = |i: int, j: int, m: int|
        dft(padded_filter(filter_of(filter.data@, f, kx as int, i, j), f, n, len), root)[m];
    // the extension is the sum over the entries of the mixed products
    lemma_stacked_mle(prod, p, q);
    lemma_mixed_product(prod, q, len, betas(p));
    let a = Seq::new(prod.len(), |i: int| mle_eval(prod[i], p));
    let b = Seq::new(prod.len(), |i: int| fsum(len, |m: int| fmul(prod[i][m], betas(p)[m])));
    assert forall|i: int| 0 <= i < pow2(q.len()) implies #[trigger] a[i] == b[i] by {
        lemma_fsum_eq(len, mle_term(prod[i], p), |m: int| fmul(prod[i][m], betas(p)[m]));
    }
    lemma_mle_eq(a, b, q);
    let mix = mixed(prod, q, len);
    let s = |m: int| fmul(mix[m], betas(p)[m]);
    // each mixed entry is a sum over the input channels
    let t = |m: int, j: int| fmul(fmul(ds[j][m], xs[j][m]), chi(m, p));
    let rows = |m: int| fsum(kx, |j: int| t(m, j));
    assert forall|m: int| 0 <= m < len implies #[trigger] s(m) == rows(m) by {
        let c = Seq::new(prod.len(), |i: int| prod[i][m]);
        let g = |i: int, j: int| fmul(fmul(xs[j][m], w(i, j, m)), chi(i, q));
        let mt = mle_term(c, q);
        let gr = |i: int| fsum(kx, |j: int| g(i, j));
        assert forall|i: int| 0 <= i < kw implies #[trigger] mt(i) == gr(i) by {
            assert(prod[i][m] == c[i]);
            let h = |j: int| fmul(xs[j][m], w(i, j, m));
            lemma_fsum_eq(
                kx,
                h,
                |j: int|
                    fmul(
                        xs[j][m],
                        dft(padded_filter(filter_of(filter.data@, f, kx as int, i, j), f, n, len), root)[m],
                    ),
            );
            lemma_fsum_scale(kx, chi(i, q), h);
            lemma_fmul_comm(chi(i, q), fsum(kx, h));
            let u = |j: int| fmul(chi(i, q), h(j));
            let v = |j: int| g(i, j);
            assert forall|j: int| 0 <= j < kx implies #[trigger] u(j) == v(j) by {
                lemma_fmul_comm(chi(i, q), h(j));
            }
            lemma_fsum_eq(kx, u, v);
        }
        lemma_fsum_eq(kw, mt, gr);
        lemma_fsum_swap(kw, kx, g);
        let gc = |j: int| fsum(kw, |i: int| g(i, j));
        let d = |j: int| fmul(ds[j][m], xs[j][m]);
        assert forall|j: int| 0 <= j < kx implies #[trigger] gc(j) == d(j) by {
            law_mixed_kernels(filter, q, j, m);
            let h = |i: int| fmul(chi(i, q), w(i, j, m));
            lemma_fsum_eq(
                kw,
                h,
                |i: int|
                    fmul(
                        chi(i, q),
                        dft(padded_filter(filter_of(filter.data@, f, kx as int, i, j), f, n, len), root)[m],
                    ),
            );
            lemma_fsum_scale(kw, xs[j][m], h);
            lemma_fmul_comm(xs[j][m], fsum(kw, h));
            let u = |i: int| fmul(xs[j][m], h(i));
            let v = |i: int| g(i, j);
            assert forall|i: int| 0 <= i < kw implies #[trigger] u(i) == v(i) by {
                let (x, y, z) = (xs[j][m], chi(i, q), w(i, j, m));
                lemma_fmul_comm(y, z);
                lemma_fmul_assoc(x, z, y);
            }
            lemma_fsum_eq(kw, u, v);
        }
        lemma_fsum_eq(kx, gc, d);
        assert(mix[m] == fsum(kx, d));
        let z = chi(m, p);
        lemma_fsum_scale(kx, z, d);
        lemma_fmul_comm(z, fsum(kx, d));
        let u = |j: int| fmul(z, d(j));
        let v = |j: int| t(m, j);
        assert forall|j: int| 0 <= j < kx implies #[trigger] u(j) == v(j) by {
            lemma_fmul_comm(z, d(j));
        }
        lemma_fsum_eq(kx, u, v);
    }
    lemma_fsum_eq(len, s, rows);
    lemma_fsum_swap(len, kx, t);
    // the other side, row by row
    let full = |k: int| fmul(fmul(f1[k], f2[k]), f3[k]);
    lemma_fsum_grid(kx, len, full);
    let cols = |j: int| fsum(len, |m: int| t(m, j));
    let fr = |j: int| fsum(len, |m: int| full(j * len + m));
    assert forall|j: int| 0 <= j < kx implies #[trigger] cols(j) == fr(j) by {
        let u = |m: int| t(m, j);
        let v = |m: int| full(j * len + m);
        assert forall|m: int| 0 <= m < len implies #[trigger] u(m) == v(m) by {
            lemma_stacked(ds, len, j, m);
            lemma_stacked(xs, len, j, m);
            lemma_stacked(repeated(betas(p), kx), len, j, m);
        }
        lemma_fsum_eq(len, u, v);
    }
    lemma_fsum_eq(kx, cols, fr);
}

} // verus!
