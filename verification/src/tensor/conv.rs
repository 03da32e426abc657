//! Direct convolution.
use crate::arith::lemma_grid_bound;
use crate::number::{lemma_msum_eq, msum, sum_fits, Element, Number};
use crate::shape::{lemma_prod3, lemma_prod4, lemma_prod_of_rank, prod, Shape};
use crate::tensor::access::{
    dims4, idx3, idx4, lemma_idx3, lemma_idx4, lemma_idx4_digits, lemma_idx4_parts,
    lemma_idx4_split,
};
use crate::tensor::{no_shape, Tensor};
use vstd::prelude::*;

verus! {

/// The number of places that a window of size `k` takes with the given stride.
pub open spec fn windows(n: int, k: int, stride: int) -> int {
    (n - k) / stride + 1
}

/// The `t`-th product in the output entry at batch `n`, channel `o`, line `oh` and column `ow`:
/// entry `t` of kernel `o` times the entry of the window that it lies on.
pub open spec fn conv2d_term<T: Number>(
    x: Seq<T>,
    kernel: Seq<T>,
    d: (int, int, int, int),
    k: (int, int, int, int),
    stride: int,
    n: int,
    o: int,
    oh: int,
    ow: int,
) -> spec_fn(int) -> T::M {
    |t: int|
        T::m_mul(
            x[idx4(
                d.1,
                d.2,
                d.3,
                n,
                t / (k.2 * k.3),
                oh * stride + (t % (k.2 * k.3)) / k.3,
                ow * stride + (t % (k.2 * k.3)) % k.3,
            )].value(),
            kernel[o * (k.1 * (k.2 * k.3)) + t].value(),
        )
}

/// What `conv2d` asks of its arguments: the shapes fit each other, and every sum can be represented.
pub open spec fn conv2d_ok<T: Number>(t: &Tensor<T>, kernels: &Tensor<T>, bias: &Tensor<T>, stride: int) -> bool {
    &&& t.wf()
    &&& kernels.wf()
    &&& bias.wf()
    &&& 0 < t.shape@.len() <= 4
    &&& 0 < kernels.shape@.len() <= 4
    &&& dims4(t.shape@).1 == dims4(kernels.shape@).1
    &&& bias.shape@ == seq![dims4(kernels.shape@).0 as usize]
    &&& stride > 0
    &&& dims4(kernels.shape@).2 <= dims4(t.shape@).2
    &&& dims4(kernels.shape@).3 <= dims4(t.shape@).3
    &&& {
        let d = dims4(t.shape@);
        let k = dims4(kernels.shape@);
        let oh = windows(d.2, k.2, stride);
        let ow = windows(d.3, k.3, stride);
        &&& oh <= usize::MAX
        &&& ow <= usize::MAX
        &&& oh * ow <= usize::MAX
        &&& k.0 * (oh * ow) <= usize::MAX
        &&& d.0 * (k.0 * (oh * ow)) <= usize::MAX
        &&& k.2 * k.3 <= usize::MAX
        &&& k.1 * (k.2 * k.3) <= usize::MAX
        &&& d.2 * d.3 <= usize::MAX
        &&& d.1 * (d.2 * d.3) <= usize::MAX
        &&& forall|n: int, o: int, y: int, x: int|
            0 <= n < d.0 && 0 <= o < k.0 && 0 <= y < oh && 0 <= x < ow ==> {
                let f = #[trigger] conv2d_term::<T>(
                    t.data@,
                    kernels.data@,
                    d,
                    k,
                    stride,
                    n,
                    o,
                    y,
                    x,
                );
                &&& sum_fits::<T>((k.1 * (k.2 * k.3)) as nat, f)
                &&& T::fits(
                    T::m_add(
                        msum::<T>((k.1 * (k.2 * k.3)) as nat, f),
                        bias.data@[o].value(),
                    ),
                )
            }
    }
}

/// `r` is the convolution of `t` with `kernels`, plus the bias of each output channel.
pub open spec fn is_conv2d<T: Number>(
    r: &Tensor<T>,
    t: &Tensor<T>,
    kernels: &Tensor<T>,
    bias: &Tensor<T>,
    stride: int,
) -> bool {
    let d = dims4(t.shape@);
    let k = dims4(kernels.shape@);
    let oh = windows(d.2, k.2, stride);
    let ow = windows(d.3, k.3, stride);
    &&& r.wf()
    &&& r.shape@ == seq![d.0 as usize, k.0 as usize, oh as usize, ow as usize]
    &&& r.og_shape@ == seq![0usize]
    &&& forall|n: int, o: int, y: int, x: int|
        0 <= n < d.0 && 0 <= o < k.0 && 0 <= y < oh && 0 <= x < ow ==> (
        #[trigger] r.data@[idx4(k.0, oh, ow, n, o, y, x)]).value() == T::m_add(
            msum::<T>(
                (k.1 * (k.2 * k.3)) as nat,
                conv2d_term::<T>(
                    t.data@,
                    kernels.data@,
                    d,
                    k,
                    stride,
                    n,
                    o,
                    y,
                    x,
                ),
            ),
            bias.data@[o].value(),
        )
}

impl<T: Number> Tensor<T> {
    /// The convolution with `kernels`, plus the bias of each output channel.
    pub fn conv2d(&self, kernels: &Tensor<T>, bias: &Tensor<T>, stride: usize) -> (r: Tensor<T>)
        requires
            conv2d_ok(self, kernels, bias, stride as int),
        ensures
            is_conv2d(&r, self, kernels, bias, stride as int),
    {
        let (n_size, c_size, h_size, w_size) = self.get4d();
        let (k_n, k_c, k_h, k_w) = kernels.get4d();
        let ghost d = dims4(self.shape@);
        let ghost k = dims4(kernels.shape@);
        let out_h: usize = (h_size - k_h) / stride + 1;
        let out_w: usize = (w_size - k_w) / stride + 1;
        let plane: usize = out_h * out_w;
        let block: usize = k_n * plane;
        let len: usize = n_size * block;
        let ckk: usize = k_c * (k_h * k_w);
        proof {
            lemma_dims4_prod(self.shape@);
            lemma_dims4_prod(kernels.shape@);
            lemma_prod_of_rank(bias.shape@);
        }
        let mut data: Vec<T> = Vec::with_capacity(len);
        let mut p: usize = 0;
        while p < len
            invariant
                p <= len,
                d == (n_size as int, c_size as int, h_size as int, w_size as int),
                k == (k_n as int, k_c as int, k_h as int, k_w as int),
                d == dims4(self.shape@),
                k == dims4(kernels.shape@),
                c_size == k_c,
                stride > 0,
                k_h <= h_size,
                k_w <= w_size,
                out_h == windows(d.2, k.2, stride as int),
                out_w == windows(d.3, k.3, stride as int),
                plane == out_h * out_w,
                block == k_n * plane,
                len == n_size * block,
                ckk == k.1 * (k.2 * k.3),
                k.2 * k.3 <= usize::MAX,
                d.2 * d.3 <= usize::MAX,
                d.1 * (d.2 * d.3) <= usize::MAX,
                0 < self.shape@.len() <= 4,
                0 < kernels.shape@.len() <= 4,
                self.data@.len() == d.0 * (d.1 * (d.2 * d.3)),
                kernels.data@.len() == k.0 * (k.1 * (k.2 * k.3)),
                bias.data@.len() == k_n,
                data@.len() == p,
                forall|n: int, o: int, y: int, x: int|
                    0 <= n < d.0 && 0 <= o < k.0 && 0 <= y < out_h && 0 <= x < out_w ==> {
                        let f = #[trigger] conv2d_term::<T>(
                            self.data@,
                            kernels.data@,
                            d,
                            k,
                            stride as int,
                            n,
                            o,
                            y,
                            x,
                        );
                        &&& sum_fits::<T>(ckk as nat, f)
                        &&& T::fits(
                            T::m_add(msum::<T>(ckk as nat, f), bias.data@[o].value()),
                        )
                    },
                forall|q: int|
                    0 <= q < p ==> (#[trigger] data@[q]).value() == T::m_add(
                        msum::<T>(
                            ckk as nat,
                            conv2d_term::<T>(
                                self.data@,
                                kernels.data@,
                                d,
                                k,
                                stride as int,
                                q / (block as int),
                                (q % (block as int)) / (plane as int),
                                ((q % (block as int)) % (plane as int)) / (out_w as int),
                                ((q % (block as int)) % (plane as int)) % (out_w as int),
                            ),
                        ),
                        bias.data@[(q % (block as int)) / (plane as int)].value(),
                    ),
            decreases len - p,
        {
            proof {
                lemma_idx4_split(n_size as int, k_n as int, out_h as int, out_w as int, p as int);
            }
            let n = p / block;
            let rem1 = p % block;
            let o = rem1 / plane;
            let rem2 = rem1 % plane;
            let oh = rem2 / out_w;
            let ow = rem2 % out_w;
            let ghost f = conv2d_term::<T>(
                self.data@,
                kernels.data@,
                d,
                k,
                stride as int,
                n as int,
                o as int,
                oh as int,
                ow as int,
            );
            proof {
                assert(sum_fits::<T>(ckk as nat, f));
                lemma_window(h_size as int, k_h as int, stride as int, oh as int);
                lemma_window(w_size as int, k_w as int, stride as int, ow as int);
            }
            let mut sum = T::zero();
            let mut c: usize = 0;
            let ghost mut t: int = 0;
            proof {
                assert(0 * (k_h * k_w) == 0);
            }
            while c < c_size
                invariant
                    c <= c_size,
                    c_size == k_c,
                    n < n_size,
                    o < k_n,
                    d == (n_size as int, c_size as int, h_size as int, w_size as int),
                    k == (k_n as int, k_c as int, k_h as int, k_w as int),
                    d == dims4(self.shape@),
                    k == dims4(kernels.shape@),
                    0 <= oh * stride,
                    0 <= ow * stride,
                    oh * stride + k_h <= h_size,
                    ow * stride + k_w <= w_size,
                    0 < self.shape@.len() <= 4,
                    0 < kernels.shape@.len() <= 4,
                    self.data@.len() == d.0 * (d.1 * (d.2 * d.3)),
                    kernels.data@.len() == k.0 * (k.1 * (k.2 * k.3)),
                    ckk == k.1 * (k.2 * k.3),
                    k.2 * k.3 <= usize::MAX,
                    d.2 * d.3 <= usize::MAX,
                    d.1 * (d.2 * d.3) <= usize::MAX,
                    f == conv2d_term::<T>(
                        self.data@,
                        kernels.data@,
                        d,
                        k,
                        stride as int,
                        n as int,
                        o as int,
                        oh as int,
                        ow as int,
                    ),
                    sum_fits::<T>(ckk as nat, f),
                    t == c * (k_h * k_w),
                    sum.value() == msum::<T>(t as nat, f),
                decreases c_size - c,
            {
                let mut kh: usize = 0;
                proof {
                    assert(0 * k_w == 0);
                }
                while kh < k_h
                    invariant
                        c < c_size,
                        kh <= k_h,
                        c_size == k_c,
                        n < n_size,
                        o < k_n,
                        d == (n_size as int, c_size as int, h_size as int, w_size as int),
                        k == (k_n as int, k_c as int, k_h as int, k_w as int),
                        d == dims4(self.shape@),
                        k == dims4(kernels.shape@),
                        0 <= oh * stride,
                        0 <= ow * stride,
                        oh * stride + k_h <= h_size,
                        ow * stride + k_w <= w_size,
                        0 < self.shape@.len() <= 4,
                        0 < kernels.shape@.len() <= 4,
                        self.data@.len() == d.0 * (d.1 * (d.2 * d.3)),
                        kernels.data@.len() == k.0 * (k.1 * (k.2 * k.3)),
                        ckk == k.1 * (k.2 * k.3),
                        k.2 * k.3 <= usize::MAX,
                        d.2 * d.3 <= usize::MAX,
                        d.1 * (d.2 * d.3) <= usize::MAX,
                        f == conv2d_term::<T>(
                            self.data@,
                            kernels.data@,
                            d,
                            k,
                            stride as int,
                            n as int,
                            o as int,
                            oh as int,
                            ow as int,
                        ),
                        sum_fits::<T>(ckk as nat, f),
                        t == c * (k_h * k_w) + kh * k_w,
                        sum.value() == msum::<T>(t as nat, f),
                    decreases k_h - kh,
                {
                    let mut kw: usize = 0;
                    while kw < k_w
                        invariant
                            c < c_size,
                            kh < k_h,
                            kw <= k_w,
                            c_size == k_c,
                            n < n_size,
                            o < k_n,
                            d == (n_size as int, c_size as int, h_size as int, w_size as int),
                            k == (k_n as int, k_c as int, k_h as int, k_w as int),
                            d == dims4(self.shape@),
                            k == dims4(kernels.shape@),
                            0 <= oh * stride,
                            0 <= ow * stride,
                            oh * stride + k_h <= h_size,
                            ow * stride + k_w <= w_size,
                            0 < self.shape@.len() <= 4,
                            0 < kernels.shape@.len() <= 4,
                            self.data@.len() == d.0 * (d.1 * (d.2 * d.3)),
                            kernels.data@.len() == k.0 * (k.1 * (k.2 * k.3)),
                            ckk == k.1 * (k.2 * k.3),
                            k.2 * k.3 <= usize::MAX,
                            d.2 * d.3 <= usize::MAX,
                            d.1 * (d.2 * d.3) <= usize::MAX,
                            f == conv2d_term::<T>(
                                self.data@,
                                kernels.data@,
                                d,
                                k,
                                stride as int,
                                n as int,
                                o as int,
                                oh as int,
                                ow as int,
                            ),
                            sum_fits::<T>(ckk as nat, f),
                            t == c * (k_h * k_w) + kh * k_w + kw,
                            sum.value() == msum::<T>(t as nat, f),
                        decreases k_w - kw,
                    {
                        let h: usize = oh * stride + kh;
                        let w: usize = ow * stride + kw;
                        proof {
                            lemma_idx4(
                                d.0,
                                d.1,
                                d.2,
                                d.3,
                                n as int,
                                c as int,
                                h as int,
                                w as int,
                            );
                            lemma_idx4(
                                k.0,
                                k.1,
                                k.2,
                                k.3,
                                o as int,
                                c as int,
                                kh as int,
                                kw as int,
                            );
                            lemma_idx3(k.1, k.2, k.3, c as int, kh as int, kw as int);
                            assert(t == idx3(k.2, k.3, c as int, kh as int, kw as int));
                            lemma_idx4_digits(
                                k.1,
                                k.2,
                                k.3,
                                0,
                                c as int,
                                kh as int,
                                kw as int,
                            );
                            assert(0 * (k.1 * (k.2 * k.3)) == 0);
                            vstd::arithmetic::div_mod::lemma_small_mod(t as nat, ckk as nat);
                            assert(T::fits(f(t)));
                            assert(msum::<T>((t + 1) as nat, f) == T::m_add(
                                msum::<T>(t as nat, f),
                                f(t),
                            ));
                        }
                        let v = self.get_at_4d(n, c, h, w).times(&kernels.get_at_4d(o, c, kh, kw));
                        sum = sum.plus(&v);
                        kw = kw + 1;
                        proof {
                            t = t + 1;
                        }
                    }
                    proof {
                        assert((kh + 1) * k_w == kh * k_w + k_w) by (nonlinear_arith);
                    }
                    kh = kh + 1;
                }
                proof {
                    assert((c + 1) * (k_h * k_w) == c * (k_h * k_w) + k_h * k_w)
                        by (nonlinear_arith);
                }
                c = c + 1;
            }
            data.push(sum.plus(&bias.data[o]));
            p = p + 1;
        }
        let dims: Vec<usize> = vec![n_size, k_n, out_h, out_w];
        proof {
            assert(dims@ =~= seq![n_size, k_n, out_h, out_w]);
            lemma_prod4(n_size, k_n, out_h, out_w);
            assert forall|n: int, o: int, y: int, x: int|
                0 <= n < d.0 && 0 <= o < k.0 && 0 <= y < out_h && 0 <= x < out_w implies (
            #[trigger] data@[idx4(k.0, out_h as int, out_w as int, n, o, y, x)]).value()
                == T::m_add(
                msum::<T>(
                    ckk as nat,
                    conv2d_term::<T>(
                        self.data@,
                        kernels.data@,
                        d,
                        k,
                        stride as int,
                        n,
                        o,
                        y,
                        x,
                    ),
                ),
                bias.data@[o].value(),
            ) by {
                lemma_idx4(d.0, k.0, out_h as int, out_w as int, n, o, y, x);
                lemma_idx4_digits(k.0, out_h as int, out_w as int, n, o, y, x);
            }
        }
        Tensor { data, shape: Shape(dims), og_shape: no_shape() }
    }
}

/// A shape of at most four dimensions has as many positions as its reading in four dimensions.
pub proof fn lemma_dims4_prod(s: Seq<usize>)
    requires
        0 < s.len() <= 4,
    ensures
        ({
            let d = dims4(s);
            prod(s) == d.0 * (d.1 * (d.2 * d.3))
        }),
{
    lemma_prod_of_rank(s);
    let d = dims4(s);
    if s.len() == 1 {
        assert(d.0 * (1 * (1 * 1)) == d.0) by (nonlinear_arith);
    } else if s.len() == 2 {
        assert(d.1 * (1 * 1) == d.1) by (nonlinear_arith);
    } else if s.len() == 3 {
        assert(1 * (d.1 * (d.2 * d.3)) == d.1 * (d.2 * d.3)) by (nonlinear_arith);
    }
}

/// A window lies inside.
pub proof fn lemma_window(n: int, k: int, stride: int, i: int)
    requires
        0 < stride,
        0 <= k <= n,
        0 <= i < windows(n, k, stride),
    ensures
        0 <= i * stride,
        i * stride + k <= n,
{
    let q = (n - k) / stride;
    vstd::arithmetic::div_mod::lemma_fundamental_div_mod(n - k, stride);
    vstd::arithmetic::div_mod::lemma_mod_bound(n - k, stride);
    assert(0 <= i * stride <= stride * q) by (nonlinear_arith)
        requires
            0 <= i <= q,
            0 < stride,
    ;
}

/// The sum along row `a` of a filter at place `(ii, jj)` of the input.
pub open spec fn row_term<T: Number>(
    x: Seq<Vec<T>>,
    w: Seq<Vec<T>>,
    ii: int,
    jj: int,
    a: int,
) -> spec_fn(int) -> T::M {
    |b: int| T::m_mul(w[a]@[b].value(), x[a + ii]@[b + jj].value())
}

/// The sums along the rows of a filter at place `(ii, jj)` of the input.
pub open spec fn rows_term<T: Number>(x: Seq<Vec<T>>, w: Seq<Vec<T>>, ii: int, jj: int) -> spec_fn(
    int,
) -> T::M {
    |a: int| msum::<T>(w[a]@.len(), row_term::<T>(x, w, ii, jj, a))
}

/// What the sum of products of a filter with the input at place `(ii, jj)` asks for.
pub open spec fn conv_prod_ok<T: Number>(
    x: Seq<Vec<T>>,
    w: Seq<Vec<T>>,
    ii: int,
    jj: int,
) -> bool {
    &&& w.len() + ii <= x.len()
    &&& forall|a: int|
        0 <= a < w.len() ==> (#[trigger] w[a])@.len() + jj <= x[a + ii]@.len()
    &&& forall|a: int|
        0 <= a < w.len() ==> sum_fits::<T>(w[a]@.len(), #[trigger] row_term::<T>(x, w, ii, jj, a))
    &&& sum_fits::<T>(w.len(), rows_term::<T>(x, w, ii, jj))
}

impl<T: Number> Tensor<T> {
    /// The sum of the products of the filter `w` with the input `x` at place `(ii, jj)`.
    pub fn conv_prod(&self, x: &[Vec<T>], w: &[Vec<T>], ii: usize, jj: usize) -> (r: T)
        requires
            conv_prod_ok::<T>(x@, w@, ii as int, jj as int),
        ensures
            r.value() == msum::<T>(w@.len(), rows_term::<T>(x@, w@, ii as int, jj as int)),
    {
        let ghost g = rows_term::<T>(x@, w@, ii as int, jj as int);
        let rows = w.len();
        let x_rows = x.len();
        let mut sum = T::zero();
        let mut i: usize = 0;
        while i < rows
            invariant
                i <= rows,
                rows == w@.len(),
                x_rows == x@.len(),
                conv_prod_ok::<T>(x@, w@, ii as int, jj as int),
                g == rows_term::<T>(x@, w@, ii as int, jj as int),
                sum.value() == msum::<T>(i as nat, g),
            decreases rows - i,
        {
            let ghost f = row_term::<T>(x@, w@, ii as int, jj as int, i as int);
            let cols = w[i].len();
            let x_cols = x[i + ii].len();
            proof {
                assert(sum_fits::<T>(w@[i as int]@.len(), f));
                assert(w@[i as int]@.len() + jj <= x@[i + ii]@.len());
            }
            let mut inner = T::zero();
            let mut j: usize = 0;
            while j < cols
                invariant
                    i < rows,
                    j <= cols,
                    rows == w@.len(),
                    x_rows == x@.len(),
                    i + ii < x_rows,
                    cols == w@[i as int]@.len(),
                    x_cols == x@[i + ii]@.len(),
                    cols + jj <= x_cols,
                    f == row_term::<T>(x@, w@, ii as int, jj as int, i as int),
                    sum_fits::<T>(cols as nat, f),
                    inner.value() == msum::<T>(j as nat, f),
                decreases cols - j,
            {
                proof {
                    assert(T::fits(f(j as int)));
                    assert(msum::<T>((j + 1) as nat, f) == T::m_add(
                        msum::<T>(j as nat, f),
                        f(j as int),
                    ));
                }
                let v = w[i][j].times(&x[i + ii][j + jj]);
                inner = inner.plus(&v);
                j = j + 1;
            }
            proof {
                assert(g(i as int) == inner.value());
                assert(T::fits(g(i as int)));
                assert(msum::<T>((i + 1) as nat, g) == T::m_add(
                    msum::<T>(i as nat, g),
                    g(i as int),
                ));
            }
            sum = sum.plus(&inner);
            i = i + 1;
        }
        sum
    }

    /// The convolution of a single channel `x` with a single filter `w`.
    pub fn single_naive_conv(&self, w: &[Vec<T>], x: &[Vec<T>]) -> (r: Vec<Vec<T>>)
        requires
            w@.len() > 0,
            x@.len() > 0,
            w@.len() <= x@.len(),
            w@[0]@.len() <= x@[0]@.len(),
            x@.len() - w@.len() + 1 <= usize::MAX,
            x@[0]@.len() - w@[0]@.len() + 1 <= usize::MAX,
            forall|i: int, j: int|
                0 <= i <= x@.len() - w@.len() && 0 <= j <= x@[0]@.len() - w@[0]@.len()
                    ==> #[trigger] conv_prod_ok::<T>(x@, w@, i, j),
        ensures
            r@.len() == x@.len() - w@.len() + 1,
            forall|i: int|
                0 <= i < r@.len() ==> (#[trigger] r@[i])@.len() == x@[0]@.len() - w@[0]@.len() + 1,
            forall|i: int, j: int|
                0 <= i < r@.len() && 0 <= j <= x@[0]@.len() - w@[0]@.len() ==> (
                #[trigger] r@[i]@[j]).value() == msum::<T>(
                    w@.len(),
                    rows_term::<T>(x@, w@, i, j),
                ),
    {
        let rows: usize = x.len() - w.len() + 1;
        let cols: usize = x[0].len() - w[0].len() + 1;
        let mut out: Vec<Vec<T>> = Vec::new();
        let mut i: usize = 0;
        while i < rows
            invariant
                i <= rows,
                rows == x@.len() - w@.len() + 1,
                cols == x@[0]@.len() - w@[0]@.len() + 1,
                forall|i: int, j: int|
                    0 <= i <= x@.len() - w@.len() && 0 <= j <= x@[0]@.len() - w@[0]@.len()
                        ==> #[trigger] conv_prod_ok::<T>(x@, w@, i, j),
                out@.len() == i,
                forall|a: int| 0 <= a < i ==> (#[trigger] out@[a])@.len() == cols,
                forall|a: int, b: int|
                    0 <= a < i && 0 <= b < cols ==> (#[trigger] out@[a]@[b]).value() == msum::<T>(
                        w@.len(),
                        rows_term::<T>(x@, w@, a, b),
                    ),
            decreases rows - i,
        {
            let mut row: Vec<T> = Vec::with_capacity(cols);
            let mut j: usize = 0;
            while j < cols
                invariant
                    i < rows,
                    j <= cols,
                    rows == x@.len() - w@.len() + 1,
                    cols == x@[0]@.len() - w@[0]@.len() + 1,
                    forall|i: int, j: int|
                        0 <= i <= x@.len() - w@.len() && 0 <= j <= x@[0]@.len() - w@[0]@.len()
                            ==> #[trigger] conv_prod_ok::<T>(x@, w@, i, j),
                    row@.len() == j,
                    forall|b: int|
                        0 <= b < j ==> (#[trigger] row@[b]).value() == msum::<T>(
                            w@.len(),
                            rows_term::<T>(x@, w@, i as int, b),
                        ),
                decreases cols - j,
            {
                proof {
                    assert(conv_prod_ok::<T>(x@, w@, i as int, j as int));
                }
                row.push(self.conv_prod(x, w, i, j));
                j = j + 1;
            }
            out.push(row);
            i = i + 1;
        }
        out
    }

    /// The sum of two matrices; the shape is that of the first.
    pub fn add_matrix(&self, m1: &[Vec<T>], m2: Vec<Vec<T>>) -> (r: Vec<Vec<T>>)
        requires
            m1@.len() > 0,
            m1@.len() <= m2@.len(),
            forall|i: int|
                0 <= i < m1@.len() ==> (#[trigger] m1@[i])@.len() >= m1@[0]@.len(),
            forall|i: int|
                0 <= i < m1@.len() ==> (#[trigger] m2@[i])@.len() >= m1@[0]@.len(),
            forall|i: int, j: int|
                0 <= i < m1@.len() && 0 <= j < m1@[0]@.len() ==> T::fits(
                    T::m_add((#[trigger] m1@[i]@[j]).value(), m2@[i]@[j].value()),
                ),
        ensures
            r@.len() == m1@.len(),
            forall|i: int| 0 <= i < r@.len() ==> (#[trigger] r@[i])@.len() == m1@[0]@.len(),
            forall|i: int, j: int|
                0 <= i < m1@.len() && 0 <= j < m1@[0]@.len() ==> (#[trigger] r@[i]@[j]).value()
                    == T::m_add(m1@[i]@[j].value(), m2@[i]@[j].value()),
    {
        let rows = m1.len();
        let cols = m1[0].len();
        let mut m: Vec<Vec<T>> = Vec::new();
        let mut i: usize = 0;
        while i < rows
            invariant
                i <= rows,
                rows == m1@.len(),
                rows <= m2@.len(),
                cols == m1@[0]@.len(),
                forall|i: int| 0 <= i < rows ==> (#[trigger] m1@[i])@.len() >= cols,
                forall|i: int| 0 <= i < rows ==> (#[trigger] m2@[i])@.len() >= cols,
                forall|i: int, j: int|
                    0 <= i < rows && 0 <= j < cols ==> T::fits(
                        T::m_add((#[trigger] m1@[i]@[j]).value(), m2@[i]@[j].value()),
                    ),
                m@.len() == i,
                forall|a: int| 0 <= a < i ==> (#[trigger] m@[a])@.len() == cols,
                forall|a: int, b: int|
                    0 <= a < i && 0 <= b < cols ==> (#[trigger] m@[a]@[b]).value() == T::m_add(
                        m1@[a]@[b].value(),
                        m2@[a]@[b].value(),
                    ),
            decreases rows - i,
        {
            let mut row: Vec<T> = Vec::with_capacity(cols);
            let mut j: usize = 0;
            while j < cols
                invariant
                    i < rows,
                    j <= cols,
                    rows == m1@.len(),
                    rows <= m2@.len(),
                    m1@[i as int]@.len() >= cols,
                    m2@[i as int]@.len() >= cols,
                    forall|i: int, j: int|
                        0 <= i < rows && 0 <= j < cols ==> T::fits(
                            T::m_add((#[trigger] m1@[i]@[j]).value(), m2@[i]@[j].value()),
                        ),
                    row@.len() == j,
                    forall|b: int|
                        0 <= b < j ==> (#[trigger] row@[b]).value() == T::m_add(
                            m1@[i as int]@[b].value(),
                            m2@[i as int]@[b].value(),
                        ),
                decreases cols - j,
            {
                proof {
                    assert(T::fits(
                        T::m_add(
                            m1@[i as int]@[j as int].value(),
                            m2@[i as int]@[j as int].value(),
                        ),
                    ));
                }
                row.push(m1[i][j].plus(&m2[i][j]));
                j = j + 1;
            }
            m.push(row);
            i = i + 1;
        }
        m
    }
}

/// The `b`-th product along row `a` of the filter at place `w_off`, on the channel at place
/// `x_off` of the input of side `n`, at line `y` and column `x`.
pub open spec fn naive_row_term<T: Number>(
    xs: Seq<T>,
    ws: Seq<T>,
    f: int,
    n: int,
    w_off: int,
    x_off: int,
    y: int,
    x: int,
    a: int,
) -> spec_fn(int) -> T::M {
    |b: int|
        T::m_mul(ws[w_off + (a * f + b)].value(), xs[x_off + ((a + y) * n + (b + x))].value())
}

/// The sums along the rows of a filter.
pub open spec fn naive_filter_term<T: Number>(
    xs: Seq<T>,
    ws: Seq<T>,
    f: int,
    n: int,
    w_off: int,
    x_off: int,
    y: int,
    x: int,
) -> spec_fn(int) -> T::M {
    |a: int| msum::<T>(f as nat, naive_row_term::<T>(xs, ws, f, n, w_off, x_off, y, x, a))
}

/// The sums over the filters of output channel `i`, one per input channel.
pub open spec fn naive_channel_term<T: Number>(
    xs: Seq<T>,
    ws: Seq<T>,
    f: int,
    n: int,
    kx: int,
    i: int,
    y: int,
    x: int,
) -> spec_fn(int) -> T::M {
    |j: int|
        msum::<T>(
            f as nat,
            naive_filter_term::<T>(xs, ws, f, n, (i * kx + j) * (f * f), j * (n * n), y, x),
        )
}

/// Every sum of the direct convolution can be represented at output `(i, y, x)`.
pub open spec fn naive_fits<T: Number>(
    xs: Seq<T>,
    ws: Seq<T>,
    f: int,
    n: int,
    kx: int,
    i: int,
    y: int,
    x: int,
) -> bool {
    &&& sum_fits::<T>(kx as nat, naive_channel_term::<T>(xs, ws, f, n, kx, i, y, x))
    &&& forall|j: int|
        0 <= j < kx ==> sum_fits::<T>(
            f as nat,
            #[trigger] naive_filter_term::<T>(
                xs,
                ws,
                f,
                n,
                (i * kx + j) * (f * f),
                j * (n * n),
                y,
                x,
            ),
        )
    &&& forall|j: int, a: int|
        0 <= j < kx && 0 <= a < f ==> sum_fits::<T>(
            f as nat,
            #[trigger] naive_row_term::<T>(
                xs,
                ws,
                f,
                n,
                (i * kx + j) * (f * f),
                j * (n * n),
                y,
                x,
                a,
            ),
        )
}

/// The square matrix of side `n` that starts at place `start`.
fn square_at<T: Number>(data: &Vec<T>, start: usize, n: usize) -> (r: Vec<Vec<T>>)
    requires
        start + n * n <= data@.len(),
    ensures
        r@.len() == n,
        forall|a: int| 0 <= a < n ==> (#[trigger] r@[a])@.len() == n,
        forall|a: int, b: int|
            0 <= a < n && 0 <= b < n ==> #[trigger] r@[a]@[b] == data@[start + (a * n + b)],
{
    let mut r: Vec<Vec<T>> = Vec::new();
    let mut i: usize = 0;
    let mut at: usize = start;
    proof {
        assert(data@.len() == data.len());
        assert(0 * n == 0);
    }
    while i < n
        invariant
            i <= n,
            start + n * n <= data@.len(),
            data@.len() <= usize::MAX,
            at == start + i * n,
            r@.len() == i,
            forall|a: int| 0 <= a < i ==> (#[trigger] r@[a])@.len() == n,
            forall|a: int, b: int|
                0 <= a < i && 0 <= b < n ==> #[trigger] r@[a]@[b] == data@[start + (a * n + b)],
        decreases n - i,
    {
        proof {
            assert((i + 1) * n == i * n + n) by (nonlinear_arith);
            assert((i + 1) * n <= n * n) by (nonlinear_arith)
                requires
                    i + 1 <= n,
            ;
        }
        let mut row: Vec<T> = Vec::with_capacity(n);
        let mut j: usize = 0;
        while j < n
            invariant
                j <= n,
                at + n <= data@.len(),
                data@.len() <= usize::MAX,
                row@.len() == j,
                forall|b: int| 0 <= b < j ==> #[trigger] row@[b] == data@[at + b],
            decreases n - j,
        {
            row.push(data[at + j]);
            j = j + 1;
        }
        r.push(row);
        at = at + n;
        i = i + 1;
    }
    r
}

/// The rows of a matrix one after the other, behind `before`.
fn push_rows<T: Number>(all: &mut Vec<T>, m: &Vec<Vec<T>>, n: usize)
    requires
        m@.len() == n,
        forall|a: int| 0 <= a < n ==> (#[trigger] m@[a])@.len() == n,
    ensures
        final(all)@.len() == old(all)@.len() + n * n,
        forall|p: int| 0 <= p < old(all)@.len() ==> #[trigger] final(all)@[p] == old(all)@[p],
        forall|a: int, b: int|
            0 <= a < n && 0 <= b < n ==> #[trigger] final(all)@[old(all)@.len() + (a * n + b)]
                == m@[a]@[b],
{
    let ghost before = all@;
    let mut i: usize = 0;
    proof {
        assert(0 * n == 0);
    }
    while i < n
        invariant
            i <= n,
            m@.len() == n,
            forall|a: int| 0 <= a < n ==> (#[trigger] m@[a])@.len() == n,
            all@.len() == before.len() + i * n,
            forall|p: int| 0 <= p < before.len() ==> #[trigger] all@[p] == before[p],
            forall|a: int, b: int|
                0 <= a < i && 0 <= b < n ==> #[trigger] all@[before.len() + (a * n + b)]
                    == m@[a]@[b],
        decreases n - i,
    {
        let mut j: usize = 0;
        while j < n
            invariant
                i < n,
                j <= n,
                m@.len() == n,
                m@[i as int]@.len() == n,
                all@.len() == before.len() + i * n + j,
                forall|p: int| 0 <= p < before.len() ==> #[trigger] all@[p] == before[p],
                forall|a: int, b: int|
                    0 <= a < i && 0 <= b < n ==> #[trigger] all@[before.len() + (a * n + b)]
                        == m@[a]@[b],
                forall|b: int|
                    0 <= b < j ==> #[trigger] all@[before.len() + (i * n + b)] == m@[i as int]@[b],
            decreases n - j,
        {
            let ghost prev = all@;
            all.push(m[i][j]);
            proof {
                assert forall|a: int, b: int|
                    0 <= a < i && 0 <= b < n implies #[trigger] all@[before.len() + (a * n + b)]
                    == m@[a]@[b] by {
                    lemma_grid_bound(a, i as int, b, n as int);
                    assert(all@[before.len() + (a * n + b)] == prev[before.len() + (a * n + b)]);
                }
            }
            j = j + 1;
        }
        proof {
            assert((i + 1) * n == i * n + n) by (nonlinear_arith);
        }
        i = i + 1;
    }
}

impl<T: Number> Tensor<T> {
    /// The convolution of a square input with this filter, by the definition.
    pub fn cnn_naive_convolution(&self, xt: &Tensor<T>) -> (r: Tensor<T>)
        requires
            self.shape@.len() >= 3,
            xt.shape@.len() >= 2,
            xt.shape@[0] == self.shape@[1],
            1 <= self.shape@[2] <= xt.shape@[1],
            xt.shape@[1] < usize::MAX,
            self.shape@[0] * self.shape@[1] * (self.shape@[2] * self.shape@[2]) <= self.data@.len(),
            xt.shape@[0] * (xt.shape@[1] * xt.shape@[1]) <= xt.data@.len(),
            ({
                let m = xt.shape@[1] - self.shape@[2] + 1;
                &&& m * m <= usize::MAX
                &&& self.shape@[0] * (m * m) <= usize::MAX
                &&& forall|i: int, y: int, x: int|
                    0 <= i < self.shape@[0] && 0 <= y < m && 0 <= x < m
                        ==> #[trigger] naive_fits::<T>(
                        xt.data@,
                        self.data@,
                        self.shape@[2] as int,
                        xt.shape@[1] as int,
                        self.shape@[1] as int,
                        i,
                        y,
                        x,
                    )
            }),
        ensures
            ({
                let m = xt.shape@[1] - self.shape@[2] + 1;
                &&& r.wf()
                &&& r.shape@ == seq![self.shape@[0], m as usize, m as usize]
                &&& r.og_shape@ == seq![0usize]
                &&& forall|i: int, y: int, x: int|
                    0 <= i < self.shape@[0] && 0 <= y < m && 0 <= x < m ==> (
                    #[trigger] r.data@[idx3(m, m, i, y, x)]).value() == msum::<T>(
                        self.shape@[1] as nat,
                        naive_channel_term::<T>(
                            xt.data@,
                            self.data@,
                            self.shape@[2] as int,
                            xt.shape@[1] as int,
                            self.shape@[1] as int,
                            i,
                            y,
                            x,
                        ),
                    )
            }),
    {
        let (k_w, k_x, n_w) = (self.shape.0[0], self.shape.0[1], self.shape.0[2]);
        let n = xt.shape.0[1];
        let m: usize = n - n_w + 1;
        let ghost f = n_w as int;
        proof {
            assert(self.data@.len() == self.data.len());
            assert(xt.data@.len() == xt.data.len());
            assert(n_w * n_w >= 0 && n * n >= 0) by (nonlinear_arith);
        }
        let mut all: Vec<T> = Vec::new();
        let mut i: usize = 0;
        proof {
            assert(0 * (m * m) == 0);
        }
        while i < k_w
            invariant
                i <= k_w,
                self.shape@.len() >= 3,
                xt.shape@.len() >= 2,
                k_w == self.shape@[0],
                k_x == self.shape@[1],
                n_w == self.shape@[2],
                f == n_w,
                n == xt.shape@[1],
                1 <= n_w <= n,
                n < usize::MAX,
                m == n - n_w + 1,
                k_w * k_x * (n_w * n_w) <= self.data@.len(),
                k_x * (n * n) <= xt.data@.len(),
                self.data@.len() <= usize::MAX,
                xt.data@.len() <= usize::MAX,
                forall|i: int, y: int, x: int|
                    0 <= i < k_w && 0 <= y < m && 0 <= x < m ==> #[trigger] naive_fits::<T>(
                        xt.data@,
                        self.data@,
                        f,
                        n as int,
                        k_x as int,
                        i,
                        y,
                        x,
                    ),
                all@.len() == i * (m * m),
                forall|a: int, y: int, x: int|
                    0 <= a < i && 0 <= y < m && 0 <= x < m ==> (#[trigger] all@[idx3(
                        m as int,
                        m as int,
                        a,
                        y,
                        x,
                    )]).value() == msum::<T>(
                        k_x as nat,
                        naive_channel_term::<T>(
                            xt.data@,
                            self.data@,
                            f,
                            n as int,
                            k_x as int,
                            a,
                            y,
                            x,
                        ),
                    ),
            decreases k_w - i,
        {
            let conv = self.naive_channel(xt, i);
            let ghost before = all@;
            push_rows(&mut all, &conv, m);
            proof {
                assert((i + 1) * (m * m) == i * (m * m) + m * m) by (nonlinear_arith);
                assert forall|a: int, y: int, x: int|
                    0 <= a < i + 1 && 0 <= y < m && 0 <= x < m implies (#[trigger] all@[idx3(
                    m as int,
                    m as int,
                    a,
                    y,
                    x,
                )]).value() == msum::<T>(
                    k_x as nat,
                    naive_channel_term::<T>(
                        xt.data@,
                        self.data@,
                        f,
                        n as int,
                        k_x as int,
                        a,
                        y,
                        x,
                    ),
                ) by {
                    if a < i {
                        lemma_idx3(i as int, m as int, m as int, a, y, x);
                        assert(all@[idx3(m as int, m as int, a, y, x)] == before[idx3(
                            m as int,
                            m as int,
                            a,
                            y,
                            x,
                        )]);
                    } else {
                        assert(all@[before.len() + (y * m + x)] == conv@[y]@[x]);
                    }
                }
            }
            i = i + 1;
        }
        let dims: Vec<usize> = vec![k_w, m, m];
        proof {
            assert(dims@ =~= seq![k_w, m, m]);
            lemma_prod3(k_w, m, m);
        }
        Tensor::new(Shape(dims), all)
    }

    /// One output channel of the direct convolution.
    fn naive_channel(&self, xt: &Tensor<T>, i: usize) -> (conv: Vec<Vec<T>>)
        requires
            self.shape@.len() >= 3,
            xt.shape@.len() >= 2,
            i < self.shape@[0],
            1 <= self.shape@[2] <= xt.shape@[1],
            xt.shape@[1] < usize::MAX,
            self.shape@[0] * self.shape@[1] * (self.shape@[2] * self.shape@[2]) <= self.data@.len(),
            self.shape@[1] * (xt.shape@[1] * xt.shape@[1]) <= xt.data@.len(),
            forall|y: int, x: int|
                0 <= y <= xt.shape@[1] - self.shape@[2] && 0 <= x <= xt.shape@[1] - self.shape@[2]
                    ==> naive_fits::<T>(
                    xt.data@,
                    self.data@,
                    self.shape@[2] as int,
                    xt.shape@[1] as int,
                    self.shape@[1] as int,
                    i as int,
                    y,
                    x,
                ),
        ensures
            ({
                let m = xt.shape@[1] - self.shape@[2] + 1;
                &&& conv@.len() == m
                &&& forall|y: int| 0 <= y < m ==> (#[trigger] conv@[y])@.len() == m
                &&& forall|y: int, x: int|
                    0 <= y < m && 0 <= x < m ==> (#[trigger] conv@[y]@[x]).value() == msum::<T>(
                        self.shape@[1] as nat,
                        naive_channel_term::<T>(
                            xt.data@,
                            self.data@,
                            self.shape@[2] as int,
                            xt.shape@[1] as int,
                            self.shape@[1] as int,
                            i as int,
                            y,
                            x,
                        ),
                    )
            }),
    {
        let (k_w, k_x, n_w) = (self.shape.0[0], self.shape.0[1], self.shape.0[2]);
        let n = xt.shape.0[1];
        let m: usize = n - n_w + 1;
        let ghost f = n_w as int;
        let mut conv: Vec<Vec<T>> = Vec::new();
        let mut r: usize = 0;
        while r < m
            invariant
                r <= m,
                conv@.len() == r,
                forall|a: int| 0 <= a < r ==> (#[trigger] conv@[a])@.len() == m,
                forall|a: int, b: int|
                    0 <= a < r && 0 <= b < m ==> #[trigger] conv@[a]@[b] == T::s_zero(),
            decreases m - r,
        {
            conv.push(crate::tensor::filled(T::zero(), m));
            r = r + 1;
        }
        let mut j: usize = 0;
        proof {
            T::s_zero().law_value();
            assert(self.data@.len() == self.data.len());
            assert(xt.data@.len() == xt.data.len());
        }
        while j < k_x
            invariant
                j <= k_x,
                i < k_w,
                k_w == self.shape@[0],
                k_x == self.shape@[1],
                n_w == self.shape@[2],
                f == n_w,
                n == xt.shape@[1],
                1 <= n_w <= n,
                m == n - n_w + 1,
                k_w * k_x * (n_w * n_w) <= self.data@.len(),
                k_x * (n * n) <= xt.data@.len(),
                self.data@.len() <= usize::MAX,
                xt.data@.len() <= usize::MAX,
                forall|y: int, x: int|
                    0 <= y < m && 0 <= x < m ==> naive_fits::<T>(
                        xt.data@,
                        self.data@,
                        f,
                        n as int,
                        k_x as int,
                        i as int,
                        y,
                        x,
                    ),
                conv@.len() == m,
                forall|a: int| 0 <= a < m ==> (#[trigger] conv@[a])@.len() == m,
                forall|y: int, x: int|
                    0 <= y < m && 0 <= x < m ==> (#[trigger] conv@[y]@[x]).value() == msum::<T>(
                        j as nat,
                        naive_channel_term::<T>(
                            xt.data@,
                            self.data@,
                            f,
                            n as int,
                            k_x as int,
                            i as int,
                            y,
                            x,
                        ),
                    ),
            decreases k_x - j,
        {
            let ghost f2 = f * f;
            proof {
                lemma_filter_places(
                    k_w as int,
                    k_x as int,
                    n_w as int,
                    n as int,
                    i as int,
                    j as int,
                );
                assert(k_w * k_x * f2 == (k_w * k_x) * f2);
            }
            let w_off: usize = (i * k_x + j) * (n_w * n_w);
            let x_off: usize = j * (n * n);
            let w = square_at(&self.data, w_off, n_w);
            let x = square_at(&xt.data, x_off, n);
            proof {
                assert forall|y: int, c: int|
                    0 <= y <= x@.len() - w@.len() && 0 <= c <= x@[0]@.len() - w@[0]@.len()
                    implies #[trigger] conv_prod_ok::<T>(x@, w@, y, c) by {
                    lemma_naive_conv_ok::<T>(
                        xt.data@,
                        self.data@,
                        x@,
                        w@,
                        f,
                        n as int,
                        k_x as int,
                        i as int,
                        j as int,
                        y,
                        c,
                    );
                }
            }
            let temp = self.single_naive_conv(&w, &x);
            proof {
                assert forall|y: int, c: int| 0 <= y < m && 0 <= c < m implies (
                #[trigger] temp@[y]@[c]).value() == naive_channel_term::<T>(
                    xt.data@,
                    self.data@,
                    f,
                    n as int,
                    k_x as int,
                    i as int,
                    y,
                    c,
                )(j as int) by {
                    lemma_naive_conv_ok::<T>(
                        xt.data@,
                        self.data@,
                        x@,
                        w@,
                        f,
                        n as int,
                        k_x as int,
                        i as int,
                        j as int,
                        y,
                        c,
                    );
                }
                assert forall|y: int, c: int| 0 <= y < conv@.len() && 0 <= c < conv@[0]@.len()
                    implies T::fits(
                    T::m_add((#[trigger] conv@[y]@[c]).value(), temp@[y]@[c].value()),
                ) by {
                    let g = naive_channel_term::<T>(
                        xt.data@,
                        self.data@,
                        f,
                        n as int,
                        k_x as int,
                        i as int,
                        y,
                        c,
                    );
                    assert(naive_fits::<T>(
                        xt.data@,
                        self.data@,
                        f,
                        n as int,
                        k_x as int,
                        i as int,
                        y,
                        c,
                    ));
                    assert(temp@[y]@[c].value() == g(j as int));
                    assert(T::fits(g(j as int)));
                    assert(msum::<T>((j + 1) as nat, g) == T::m_add(
                        msum::<T>(j as nat, g),
                        g(j as int),
                    ));
                }
            }
            let ghost old_conv = conv@;
            conv = self.add_matrix(&conv, temp);
            proof {
                assert forall|y: int, c: int| 0 <= y < m && 0 <= c < m implies (
                #[trigger] conv@[y]@[c]).value() == msum::<T>(
                    (j + 1) as nat,
                    naive_channel_term::<T>(
                        xt.data@,
                        self.data@,
                        f,
                        n as int,
                        k_x as int,
                        i as int,
                        y,
                        c,
                    ),
                ) by {
                    let g = naive_channel_term::<T>(
                        xt.data@,
                        self.data@,
                        f,
                        n as int,
                        k_x as int,
                        i as int,
                        y,
                        c,
                    );
                    assert(old_conv[y]@[c].value() == msum::<T>(j as nat, g));
                    assert(temp@[y]@[c].value() == g(j as int));
                    assert(msum::<T>((j + 1) as nat, g) == T::m_add(
                        msum::<T>(j as nat, g),
                        g(j as int),
                    ));
                }
            }
            j = j + 1;
        }
        conv
    }
}

/// Where the filter and the input channel of a pair of channels lie.
proof fn lemma_filter_places(kw: int, kx: int, f: int, n: int, i: int, j: int)
    requires
        0 <= i < kw,
        0 <= j < kx,
        1 <= f <= n,
    ensures
        0 <= i * kx,
        0 <= i * kx + j < kw * kx,
        i * kx + j <= (i * kx + j) * (f * f),
        1 <= f * f,
        (i * kx + j) * (f * f) + f * f <= (kw * kx) * (f * f),
        0 <= j * (n * n),
        j * (n * n) + n * n <= kx * (n * n),
        1 <= n * n,
        0 <= (i * kx + j) * (f * f),
{
    lemma_grid_bound(i, kw, j, kx);
    assert(0 <= i * kx) by (nonlinear_arith)
        requires
            0 <= i,
            0 <= kx,
    ;
    assert(1 <= f * f && 1 <= n * n) by (nonlinear_arith)
        requires
            1 <= f,
            1 <= n,
    ;
    let (q, t, a, b) = (i * kx + j, kw * kx, f * f, n * n);
    assert(q <= q * a && q * a + a <= t * a && 0 <= q * a) by (nonlinear_arith)
        requires
            0 <= q < t,
            1 <= a,
    ;
    assert(0 <= j * b && j * b + b <= kx * b) by (nonlinear_arith)
        requires
            0 <= j < kx,
            1 <= b,
    ;
}

/// The sums over the cut out squares are those over the data.
proof fn lemma_naive_conv_ok<T: Number>(
    xs: Seq<T>,
    ws: Seq<T>,
    x: Seq<Vec<T>>,
    w: Seq<Vec<T>>,
    f: int,
    n: int,
    kx: int,
    i: int,
    j: int,
    y: int,
    c: int,
)
    requires
        1 <= f <= n,
        0 <= j < kx,
        0 <= y <= n - f,
        0 <= c <= n - f,
        naive_fits::<T>(xs, ws, f, n, kx, i, y, c),
        w.len() == f,
        x.len() == n,
        forall|a: int| 0 <= a < f ==> (#[trigger] w[a])@.len() == f,
        forall|a: int| 0 <= a < n ==> (#[trigger] x[a])@.len() == n,
        forall|a: int, b: int|
            0 <= a < f && 0 <= b < f ==> #[trigger] w[a]@[b] == ws[(i * kx + j) * (f * f) + (a * f
                + b)],
        forall|a: int, b: int|
            0 <= a < n && 0 <= b < n ==> #[trigger] x[a]@[b] == xs[j * (n * n) + (a * n + b)],
    ensures
        conv_prod_ok::<T>(x, w, y, c),
        msum::<T>(f as nat, rows_term::<T>(x, w, y, c)) == naive_channel_term::<T>(
            xs,
            ws,
            f,
            n,
            kx,
            i,
            y,
            c,
        )(j),
{
    let w_off = (i * kx + j) * (f * f);
    let x_off = j * (n * n);
    let h = naive_filter_term::<T>(xs, ws, f, n, w_off, x_off, y, c);
    let g = rows_term::<T>(x, w, y, c);
    assert(sum_fits::<T>(f as nat, h));
    assert forall|a: int| 0 <= a < f implies #[trigger] g(a) == h(a) && sum_fits::<T>(
        w[a]@.len(),
        row_term::<T>(x, w, y, c, a),
    ) by {
        let u = row_term::<T>(x, w, y, c, a);
        let v = naive_row_term::<T>(xs, ws, f, n, w_off, x_off, y, c, a);
        assert(sum_fits::<T>(f as nat, v));
        assert(w[a]@.len() == f);
        assert forall|b: int| 0 <= b < f implies #[trigger] u(b) == v(b) by {
            assert(w[a]@[b] == ws[w_off + (a * f + b)]);
            assert(x[a + y]@[b + c] == xs[x_off + ((a + y) * n + (b + c))]);
        }
        lemma_msum_eq::<T>(f as nat, u, v);
        assert forall|k: int| 0 <= k < f implies T::fits(#[trigger] u(k)) && T::fits(
            msum::<T>((k + 1) as nat, u),
        ) by {
            lemma_msum_eq::<T>((k + 1) as nat, u, v);
            assert(u(k) == v(k));
            assert(T::fits(v(k)));
        }
    }
    lemma_msum_eq::<T>(f as nat, g, h);
    assert forall|k: int| 0 <= k < f implies T::fits(#[trigger] g(k)) && T::fits(
        msum::<T>((k + 1) as nat, g),
    ) by {
        lemma_msum_eq::<T>((k + 1) as nat, g, h);
        assert(g(k) == h(k));
        assert(T::fits(h(k)));
    }
    assert forall|a: int| 0 <= a < w.len() implies (#[trigger] w[a])@.len() + c <= x[a
        + y]@.len() by {
        assert(x[a + y]@.len() == n);
    }
    assert forall|a: int| 0 <= a < w.len() implies sum_fits::<T>(
        w[a]@.len(),
        #[trigger] row_term::<T>(x, w, y, c, a),
    ) by {
        assert(g(a) == h(a));
    }
}

/// Does the direct convolution agree with the corner of the one by Fourier transform?
pub fn check_tensor_consistency(real_tensor: Tensor<Element>, padded_tensor: Tensor<Element>) -> (r: bool)
    requires
        real_tensor.shape@.len() >= 2,
        padded_tensor.shape@.len() >= 2,
        real_tensor.shape@[1] <= padded_tensor.shape@[1],
        real_tensor.shape@[0] * (real_tensor.shape@[1] * real_tensor.shape@[1])
            <= real_tensor.data@.len(),
        real_tensor.shape@[0] * (padded_tensor.shape@[1] * padded_tensor.shape@[1])
            <= padded_tensor.data@.len(),
    ensures
        r == (forall|i: int, j: int, k: int|
            0 <= i < real_tensor.shape@[0] && 0 <= j < real_tensor.shape@[1] && 0 <= k
                < real_tensor.shape@[1] ==> #[trigger] real_tensor.data@[idx3(
                real_tensor.shape@[1] as int,
                real_tensor.shape@[1] as int,
                i,
                j,
                k,
            )] == padded_tensor.data@[idx3(
                padded_tensor.shape@[1] as int,
                padded_tensor.shape@[1] as int,
                i,
                j,
                k,
            )]),
{
    let n_x = padded_tensor.shape.0[1];
    let (c, m) = (real_tensor.shape.0[0], real_tensor.shape.0[1]);
    proof {
        assert(real_tensor.data@.len() == real_tensor.data.len());
        assert(padded_tensor.data@.len() == padded_tensor.data.len());
    }
    let mut i: usize = 0;
    while i < c
        invariant
            i <= c,
            m <= n_x,
            c * (m * m) <= real_tensor.data@.len(),
            c * (n_x * n_x) <= padded_tensor.data@.len(),
            real_tensor.data@.len() <= usize::MAX,
            padded_tensor.data@.len() <= usize::MAX,
            n_x == padded_tensor.shape@[1],
            c == real_tensor.shape@[0],
            m == real_tensor.shape@[1],
            forall|a: int, j: int, k: int|
                0 <= a < i && 0 <= j < m && 0 <= k < m ==> #[trigger] real_tensor.data@[idx3(
                    m as int,
                    m as int,
                    a,
                    j,
                    k,
                )] == padded_tensor.data@[idx3(n_x as int, n_x as int, a, j, k)],
        decreases c - i,
    {
        let mut j: usize = 0;
        while j < m
            invariant
                i < c,
                j <= m,
                m <= n_x,
                c * (m * m) <= real_tensor.data@.len(),
                c * (n_x * n_x) <= padded_tensor.data@.len(),
                real_tensor.data@.len() <= usize::MAX,
                padded_tensor.data@.len() <= usize::MAX,
                n_x == padded_tensor.shape@[1],
                c == real_tensor.shape@[0],
                m == real_tensor.shape@[1],
                forall|a: int, b: int, k: int|
                    (0 <= a < i && 0 <= b < m || a == i && 0 <= b < j) && 0 <= k < m
                        ==> #[trigger] real_tensor.data@[idx3(m as int, m as int, a, b, k)]
                        == padded_tensor.data@[idx3(n_x as int, n_x as int, a, b, k)],
            decreases m - j,
        {
            let mut k: usize = 0;
            while k < m
                invariant
                    i < c,
                    j < m,
                    k <= m,
                    m <= n_x,
                    c * (m * m) <= real_tensor.data@.len(),
                    c * (n_x * n_x) <= padded_tensor.data@.len(),
                    real_tensor.data@.len() <= usize::MAX,
                    padded_tensor.data@.len() <= usize::MAX,
                    n_x == padded_tensor.shape@[1],
                    c == real_tensor.shape@[0],
                    m == real_tensor.shape@[1],
                    forall|a: int, b: int, d: int|
                        (0 <= a < i && 0 <= b < m || a == i && 0 <= b < j) && 0 <= d < m || (a == i
                            && b == j && 0 <= d < k) ==> #[trigger] real_tensor.data@[idx3(
                            m as int,
                            m as int,
                            a,
                            b,
                            d,
                        )] == padded_tensor.data@[idx3(n_x as int, n_x as int, a, b, d)],
                decreases m - k,
            {
                proof {
                    lemma_idx3(c as int, m as int, m as int, i as int, j as int, k as int);
                    lemma_idx3(c as int, n_x as int, n_x as int, i as int, j as int, k as int);
                    lemma_idx4_parts(
                        1,
                        c as int,
                        m as int,
                        m as int,
                        0,
                        i as int,
                        j as int,
                        k as int,
                    );
                    lemma_idx4_parts(
                        1,
                        c as int,
                        n_x as int,
                        n_x as int,
                        0,
                        i as int,
                        j as int,
                        k as int,
                    );
                }
                let a = real_tensor.data[i * (m * m) + (j * m + k)];
                let b = padded_tensor.data[i * (n_x * n_x) + (j * n_x + k)];
                if a != b {
                    proof {
                        assert(real_tensor.data@[idx3(
                            m as int,
                            m as int,
                            i as int,
                            j as int,
                            k as int,
                        )] != padded_tensor.data@[idx3(
                            n_x as int,
                            n_x as int,
                            i as int,
                            j as int,
                            k as int,
                        )]);
                    }
                    return false;
                }
                k = k + 1;
            }
            j = j + 1;
        }
        i = i + 1;
    }
    true
}

} // verus!
