//! Maximum pooling.
use crate::arith::lemma_grid_digits;
use crate::number::{larger, Number};
use crate::shape::{lemma_prod2, lemma_prod_append, prod, Shape};
use crate::tensor::access::{idx3, lemma_idx3, lemma_idx4_split};
use crate::tensor::conv::{lemma_window, windows};
use crate::tensor::{no_shape, Tensor};
use vstd::prelude::*;

verus! {

/// Side and stride of the windows of maximum pooling.
pub const MAXPOOL2D_KERNEL_SIZE: usize = 2;

/// `r` is the greatest entry of the window of side `k` whose corner is at line `y` and column `x`
/// of plane `n`.
pub open spec fn is_window_max<T: Number>(
    data: Seq<T>,
    h: int,
    w: int,
    n: int,
    y: int,
    x: int,
    k: int,
    r: T,
) -> bool {
    &&& exists|a: int, b: int|
        0 <= a < k && 0 <= b < k && r == #[trigger] data[idx3(h, w, n, y + a, x + b)]
    &&& forall|a: int, b: int|
        0 <= a < k && 0 <= b < k ==> !T::m_lt(
            r.value(),
            (#[trigger] data[idx3(h, w, n, y + a, x + b)]).value(),
        )
}

/// The number of planes of a tensor whose last two dimensions are height and width.
pub open spec fn planes(s: Seq<usize>) -> nat {
    prod(s.take(s.len() - 2))
}

pub proof fn lemma_planes(s: Seq<usize>)
    requires
        s.len() >= 2,
    ensures
        prod(s) == planes(s) * (s[s.len() - 2] * s[s.len() - 1]),
{
    let k = s.len() - 2;
    assert(s =~= s.take(k) + s.skip(k));
    lemma_prod_append(s.take(k), s.skip(k));
    assert(s.skip(k) =~= seq![s[k], s[k + 1]]);
    lemma_prod2(s[k], s[k + 1]);
}

/// Windows of side `k` fit into the last two dimensions.
pub open spec fn poolable(s: Seq<usize>, k: int, stride: int) -> bool {
    &&& s.len() >= 2
    &&& stride > 0
    &&& 0 < k <= s[s.len() - 2]
    &&& k <= s[s.len() - 1]
}

/// The shape of the largest entries of the windows of a tensor of the given shape.
pub open spec fn pooled_shape(s: Seq<usize>, k: int, stride: int) -> Seq<usize> {
    let n = s.len() - 2;
    s.update(n, windows(s[n] as int, k, stride) as usize).update(
        n + 1,
        windows(s[n + 1] as int, k, stride) as usize,
    )
}

/// `r` holds the largest entry of every window of side `k`, `stride` apart, in every plane of `t`.
pub open spec fn is_pooled<T: Number>(r: &Tensor<T>, t: &Tensor<T>, k: int, stride: int) -> bool {
    let n = t.shape@.len() - 2;
    let (h, w) = (t.shape@[n] as int, t.shape@[n + 1] as int);
    let oh = windows(h, k, stride);
    let ow = windows(w, k, stride);
    &&& r.wf()
    &&& r.shape@ == pooled_shape(t.shape@, k, stride)
    &&& r.og_shape@ == seq![0usize]
    &&& 0 < oh <= h
    &&& 0 < ow <= w
    &&& r.data@.len() == planes(t.shape@) * (oh * ow)
    &&& forall|p: int, i: int, j: int|
        0 <= p < planes(t.shape@) && 0 <= i < oh && 0 <= j < ow ==> is_window_max(
            t.data@,
            h,
            w,
            p,
            i * stride,
            j * stride,
            k,
            #[trigger] r.data@[idx3(oh, ow, p, i, j)],
        )
}

impl<T: Number> Tensor<T> {
    /// The greatest entry of each window of side `kernel_size`, in the last two dimensions.
    pub fn maxpool2d(&self, kernel_size: usize, stride: usize) -> (r: Tensor<T>)
        requires
            self.wf(),
            poolable(self.shape@, kernel_size as int, stride as int),
        ensures
            is_pooled(&r, self, kernel_size as int, stride as int),
    {
        let dims = self.shape.rank();
        let (h, w) = (self.shape.0[dims - 2], self.shape.0[dims - 1]);
        proof {
            lemma_window_count(h as int, kernel_size as int, stride as int);
            lemma_window_count(w as int, kernel_size as int, stride as int);
            lemma_planes(self.shape@);
            assert(self.data@.len() == self.data.len());
            let (ns, a) = (planes(self.shape@) as int, h * w);
            assert(a >= 1) by (nonlinear_arith)
                requires
                    a == h * w,
                    h >= 1,
                    w >= 1,
            ;
            assert(ns <= ns * a) by (nonlinear_arith)
                requires
                    ns >= 0,
                    a >= 1,
            ;
        }
        let out_h: usize = (h - kernel_size) / stride + 1;
        let out_w: usize = (w - kernel_size) / stride + 1;
        let outer = self.shape.slice(0, dims - 2);
        proof {
            assert(outer@ =~= self.shape@.take(dims - 2));
        }
        let outer_dims: usize = outer.product();
        let ghost ns = outer_dims as int;
        proof {
            assert(out_h * out_w <= h * w) by (nonlinear_arith)
                requires
                    0 <= out_h <= h,
                    0 <= out_w <= w,
            ;
            assert(ns * (out_h * out_w) <= ns * (h * w)) by (nonlinear_arith)
                requires
                    0 <= ns,
                    out_h * out_w <= h * w,
            ;
            assert(out_h * out_w >= 1) by (nonlinear_arith)
                requires
                    out_h >= 1,
                    out_w >= 1,
            ;
            assert(ns >= 1 ==> out_h * out_w <= ns * (out_h * out_w)) by (nonlinear_arith)
                requires
                    out_h * out_w >= 1,
            ;
            assert(0 * (out_h * out_w) == 0);
        }
        let plane: usize = if outer_dims == 0 {
            1
        } else {
            out_h * out_w
        };
        let len: usize = outer_dims * plane;
        let mut data: Vec<T> = Vec::with_capacity(len);
        let mut p: usize = 0;
        while p < len
            invariant
                p <= len,
                outer_dims > 0 ==> plane == out_h * out_w,
                outer_dims == 0 ==> len == 0,
                len == outer_dims * plane,
                ns == outer_dims,
                out_h == windows(h as int, kernel_size as int, stride as int),
                out_w == windows(w as int, kernel_size as int, stride as int),
                stride > 0,
                0 < kernel_size <= h,
                kernel_size <= w,
                self.data@.len() == ns * (h * w),
                self.data@.len() <= usize::MAX,
                data@.len() == p,
                forall|q: int|
                    0 <= q < p ==> is_window_max(
                        self.data@,
                        h as int,
                        w as int,
                        q / (plane as int),
                        ((q % (plane as int)) / (out_w as int)) * stride,
                        ((q % (plane as int)) % (out_w as int)) * stride,
                        kernel_size as int,
                        #[trigger] data@[q],
                    ),
            decreases len - p,
        {
            proof {
                assert(1 * (ns * plane) == ns * plane);
                lemma_idx4_split(1, ns, out_h as int, out_w as int, p as int);
                vstd::arithmetic::div_mod::lemma_small_mod(p as nat, len as nat);
            }
            let n = p / plane;
            let q = p % plane;
            let i = q / out_w;
            let j = q % out_w;
            proof {
                lemma_window(h as int, kernel_size as int, stride as int, i as int);
                lemma_window(w as int, kernel_size as int, stride as int, j as int);
            }
            let x = self.window_max(n, i * stride, j * stride, kernel_size, h, w, outer_dims);
            data.push(x);
            p = p + 1;
        }
        let mut new_dims = crate::shape::usize_vec(&self.shape.0);
        new_dims.set(dims - 2, out_h);
        new_dims.set(dims - 1, out_w);
        proof {
            let s2 = new_dims@;
            assert(s2 =~= self.shape@.update(dims - 2, out_h).update(dims - 1, out_w));
            lemma_planes(s2);
            assert(s2.take(dims - 2) =~= self.shape@.take(dims - 2));
            assert forall|n: int, i: int, j: int|
                0 <= n < ns && 0 <= i < out_h && 0 <= j < out_w implies is_window_max(
                self.data@,
                h as int,
                w as int,
                n,
                i * stride,
                j * stride,
                kernel_size as int,
                #[trigger] data@[idx3(out_h as int, out_w as int, n, i, j)],
            ) by {
                lemma_idx3(ns, out_h as int, out_w as int, n, i, j);
                lemma_grid_digits(n, i * out_w + j, plane as int);
                lemma_grid_digits(i, j, out_w as int);
            }
        }
        Tensor { data, shape: Shape(new_dims), og_shape: no_shape() }
    }

    /// The greatest entry of one window.
    fn window_max(
        &self,
        n: usize,
        y: usize,
        x: usize,
        k: usize,
        h: usize,
        w: usize,
        planes: usize,
    ) -> (r: T)
        requires
            self.data@.len() == planes * (h * w),
            self.data@.len() <= usize::MAX,
            n < planes,
            0 < k,
            y + k <= h,
            x + k <= w,
        ensures
            is_window_max(
                self.data@,
                h as int,
                w as int,
                n as int,
                y as int,
                x as int,
                k as int,
                r,
            ),
    {
        proof {
            lemma_idx3(planes as int, h as int, w as int, n as int, y as int, x as int);
            crate::tensor::access::lemma_idx4_parts(
                1,
                planes as int,
                h as int,
                w as int,
                0,
                n as int,
                y as int,
                x as int,
            );
        }
        let base: usize = n * (h * w);
        let mut max_val = self.data[base + (y * w + x)];
        let ghost mut wa: int = 0;
        let ghost mut wb: int = 0;
        let mut ki: usize = 0;
        while ki < k
            invariant
                ki <= k,
                self.data@.len() == planes * (h * w),
                self.data@.len() <= usize::MAX,
                n < planes,
                y + k <= h,
                x + k <= w,
                base == n * (h * w),
                0 <= wa < k,
                0 <= wb < k,
                max_val == self.data@[idx3(h as int, w as int, n as int, y + wa, x + wb)],
                forall|a: int, b: int|
                    0 <= a < ki && 0 <= b < k ==> !T::m_lt(
                        max_val.value(),
                        (#[trigger] self.data@[idx3(
                            h as int,
                            w as int,
                            n as int,
                            y + a,
                            x + b,
                        )]).value(),
                    ),
            decreases k - ki,
        {
            let mut kj: usize = 0;
            while kj < k
                invariant
                    ki < k,
                    kj <= k,
                    self.data@.len() == planes * (h * w),
                    self.data@.len() <= usize::MAX,
                    n < planes,
                    y + k <= h,
                    x + k <= w,
                    base == n * (h * w),
                    0 <= wa < k,
                    0 <= wb < k,
                    max_val == self.data@[idx3(h as int, w as int, n as int, y + wa, x + wb)],
                    forall|a: int, b: int|
                        0 <= a < ki && 0 <= b < k || a == ki && 0 <= b < kj ==> !T::m_lt(
                            max_val.value(),
                            (#[trigger] self.data@[idx3(
                                h as int,
                                w as int,
                                n as int,
                                y + a,
                                x + b,
                            )]).value(),
                        ),
                decreases k - kj,
            {
                proof {
                    lemma_idx3(
                        planes as int,
                        h as int,
                        w as int,
                        n as int,
                        y + ki,
                        x + kj,
                    );
                    crate::tensor::access::lemma_idx4_parts(
                        1,
                        planes as int,
                        h as int,
                        w as int,
                        0,
                        n as int,
                        y + ki,
                        x + kj,
                    );
                }
                let value = self.data[base + ((y + ki) * w + (x + kj))];
                let ghost before = max_val;
                max_val = larger(&max_val, &value);
                proof {
                    let (m, v) = (before.value(), value.value());
                    T::law_order(m, v, m);
                    T::law_order(v, v, v);
                    assert forall|a: int, b: int|
                        0 <= a < ki && 0 <= b < k || a == ki && 0 <= b < kj + 1 implies !T::m_lt(
                        max_val.value(),
                        (#[trigger] self.data@[idx3(
                            h as int,
                            w as int,
                            n as int,
                            y + a,
                            x + b,
                        )]).value(),
                    ) by {
                        let z = self.data@[idx3(
                            h as int,
                            w as int,
                            n as int,
                            y + a,
                            x + b,
                        )].value();
                        T::law_order(m, v, z);
                        T::law_order(v, z, m);
                        T::law_order(m, z, v);
                    }
                    if T::m_lt(m, v) {
                        wa = ki as int;
                        wb = kj as int;
                    }
                }
                kj = kj + 1;
            }
            ki = ki + 1;
        }
        max_val
    }

    /// Maximum pooling, and the input with every entry replaced by the maximum of its window.
    pub fn padded_maxpool2d(&self) -> (r: (Tensor<T>, Tensor<T>))
        requires
            self.wf(),
            self.shape@.len() >= 2,
            self.shape@[self.shape@.len() - 2] > 0,
            self.shape@[self.shape@.len() - 1] > 0,
            self.shape@[self.shape@.len() - 2] % MAXPOOL2D_KERNEL_SIZE == 0,
            self.shape@[self.shape@.len() - 1] % MAXPOOL2D_KERNEL_SIZE == 0,
        ensures
            ({
                let k = self.shape@.len() - 2;
                let (h, w) = (self.shape@[k] as int, self.shape@[k + 1] as int);
                let (oh, ow) = (h / 2, w / 2);
                &&& r.0.wf()
                &&& r.0.shape@ == self.shape@.update(k, oh as usize).update(k + 1, ow as usize)
                &&& r.0.og_shape@ == seq![0usize]
                &&& forall|n: int, i: int, j: int|
                    0 <= n < planes(self.shape@) && 0 <= i < oh && 0 <= j < ow ==> is_window_max(
                        self.data@,
                        h,
                        w,
                        n,
                        i * 2,
                        j * 2,
                        2,
                        #[trigger] r.0.data@[idx3(oh, ow, n, i, j)],
                    )
                &&& r.1.wf()
                &&& r.1.shape@ == self.shape@
                &&& r.1.og_shape@ == seq![0usize]
                &&& forall|n: int, y: int, x: int|
                    0 <= n < planes(self.shape@) && 0 <= y < h && 0 <= x < w
                        ==> #[trigger] r.1.data@[idx3(h, w, n, y, x)] == r.0.data@[idx3(
                        oh,
                        ow,
                        n,
                        y / 2,
                        x / 2,
                    )]
            }),
    {
        let kernel_size = MAXPOOL2D_KERNEL_SIZE;
        let dims = self.shape.rank();
        let (h, w) = (self.shape.0[dims - 2], self.shape.0[dims - 1]);
        proof {
            assert(self.shape@[dims - 2] > 0 && self.shape@[dims - 1] > 0);
            assert(windows(h as int, 2, 2) == h / 2);
            assert(windows(w as int, 2, 2) == w / 2);
        }
        let maxpool_result = self.maxpool2d(kernel_size, kernel_size);
        let (mh, mw): (usize, usize) = (h / 2, w / 2);
        let ghost ns = planes(self.shape@) as int;
        proof {
            lemma_planes(self.shape@);
            assert(self.data@.len() == self.data.len());
            assert(maxpool_result.data@.len() == maxpool_result.data.len());
        }
        let len = self.data.len();
        let plane: usize = if len == 0 {
            1
        } else {
            proof {
                assert(h * w >= 0) by (nonlinear_arith)
                    requires
                        h >= 0,
                        w >= 0,
                ;
                assert(h * w <= ns * (h * w)) by (nonlinear_arith)
                    requires
                        ns * (h * w) > 0,
                        ns >= 0,
                        h * w >= 0,
                ;
            }
            h * w
        };
        let mut data: Vec<T> = Vec::with_capacity(len);
        let mut p: usize = 0;
        while p < len
            invariant
                p <= len,
                len > 0 ==> plane == h * w,
                len == ns * (h * w),
                mh == h / 2,
                mw == w / 2,
                h % 2 == 0,
                w % 2 == 0,
                h > 0,
                w > 0,
                ns >= 0,
                maxpool_result.data@.len() == ns * (mh * mw),
                maxpool_result.data@.len() <= usize::MAX,
                data@.len() == p,
                forall|q: int|
                    0 <= q < p ==> #[trigger] data@[q] == maxpool_result.data@[idx3(
                        mh as int,
                        mw as int,
                        q / (plane as int),
                        ((q % (plane as int)) / (w as int)) / 2,
                        ((q % (plane as int)) % (w as int)) / 2,
                    )],
            decreases len - p,
        {
            proof {
                assert(1 * (ns * (h * w)) == ns * (h * w));
                lemma_idx4_split(1, ns, h as int, w as int, p as int);
                vstd::arithmetic::div_mod::lemma_small_mod(p as nat, len as nat);
            }
            let n = p / plane;
            let q = p % plane;
            let i = (q / w) / 2;
            let j = (q % w) / 2;
            proof {
                lemma_idx3(ns, mh as int, mw as int, n as int, i as int, j as int);
                crate::tensor::access::lemma_idx4_parts(
                    1,
                    ns,
                    mh as int,
                    mw as int,
                    0,
                    n as int,
                    i as int,
                    j as int,
                );
            }
            data.push(maxpool_result.data[n * (mh * mw) + (i * mw + j)]);
            p = p + 1;
        }
        proof {
            assert forall|n: int, y: int, x: int|
                0 <= n < ns && 0 <= y < h && 0 <= x < w implies #[trigger] data@[idx3(
                h as int,
                w as int,
                n,
                y,
                x,
            )] == maxpool_result.data@[idx3(mh as int, mw as int, n, y / 2, x / 2)] by {
                lemma_idx3(ns, h as int, w as int, n, y, x);
                lemma_grid_digits(n, y * w + x, plane as int);
                lemma_grid_digits(y, x, w as int);
            }
        }
        let padded = Tensor { data, shape: self.shape.clone(), og_shape: no_shape() };
        (maxpool_result, padded)
    }
}

/// There is a window, and no more windows than places.
pub proof fn lemma_window_count(n: int, k: int, stride: int)
    requires
        0 < stride,
        0 < k <= n,
    ensures
        1 <= windows(n, k, stride) <= n,
{
    let q = (n - k) / stride;
    vstd::arithmetic::div_mod::lemma_fundamental_div_mod(n - k, stride);
    vstd::arithmetic::div_mod::lemma_mod_bound(n - k, stride);
    assert(0 <= q <= n - k) by (nonlinear_arith)
        requires
            n - k == stride * q + (n - k) % stride,
            0 <= (n - k) % stride < stride,
            0 <= n - k,
            1 <= stride,
    ;
}

} // verus!
