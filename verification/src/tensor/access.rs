//! Addressing of entries, and spatial padding and cropping.
use crate::arith::{lemma_grid_bound, lemma_grid_digits, lemma_grid_split};
use crate::number::Number;
use crate::shape::{flat, lemma_prod1, lemma_prod2, lemma_prod3, lemma_prod4, lemma_prod_of_rank, prod, Shape};
use crate::tensor::Tensor;
use vstd::prelude::*;

verus! {

/// The shape read as batch, channels, height and width. A shape of rank three has one batch;
/// dimensions that are missing are one.
pub open spec fn dims4(s: Seq<usize>) -> (int, int, int, int) {
    let off: int = if s.len() == 3 {
        0
    } else {
        1
    };
    (
        if s.len() == 3 || s.len() == 0 {
            1
        } else {
            s[0] as int
        },
        if off < s.len() {
            s[off] as int
        } else {
            1
        },
        if off + 1 < s.len() {
            s[off + 1] as int
        } else {
            1
        },
        if off + 2 < s.len() {
            s[off + 2] as int
        } else {
            1
        },
    )
}

/// The place of channel `c`, line `h` and column `w`.
pub open spec fn idx3(hs: int, ws: int, c: int, h: int, w: int) -> int {
    c * (hs * ws) + (h * ws + w)
}

/// `r` holds the corner of shape `target` of a tensor of rank three.
pub open spec fn is_corner<T>(r: Seq<T>, target: Seq<usize>, data: Seq<T>, shape: Seq<usize>) -> bool {
    forall|c: int, h: int, w: int|
        0 <= c < target[0] && 0 <= h < target[1] && 0 <= w < target[2] ==> #[trigger] r[idx3(
            target[1] as int,
            target[2] as int,
            c,
            h,
            w,
        )] == data[idx3(shape[1] as int, shape[2] as int, c, h, w)]
}

/// The place of batch `n`, channel `c`, line `h` and column `w`.
pub open spec fn idx4(cs: int, hs: int, ws: int, n: int, c: int, h: int, w: int) -> int {
    n * (cs * (hs * ws)) + idx3(hs, ws, c, h, w)
}

pub proof fn lemma_idx3(cs: int, hs: int, ws: int, c: int, h: int, w: int)
    requires
        0 <= c < cs,
        0 <= h < hs,
        0 <= w < ws,
    ensures
        0 <= idx3(hs, ws, c, h, w) < cs * (hs * ws),
        0 <= h * ws + w < hs * ws,
{
    lemma_grid_bound(h, hs, w, ws);
    lemma_grid_bound(c, cs, h * ws + w, hs * ws);
}

/// The place of a position in a shape of rank three.
pub proof fn lemma_flat3(s: Seq<usize>, c: int, h: int, w: int)
    requires
        s.len() == 3,
    ensures
        flat(s, seq![c, h, w]) == idx3(s[1] as int, s[2] as int, c, h, w),
{
    let k = seq![c, h, w];
    reveal_with_fuel(flat, 4);
    assert(k.skip(1) =~= seq![h, w]);
    assert(k.skip(1).skip(1) =~= seq![w]);
    assert(s.skip(1).skip(1) =~= seq![s[2]]);
    assert(s.skip(1) =~= seq![s[1], s[2]]);
    lemma_prod2(s[1], s[2]);
    lemma_prod1(s[2]);
    assert(s.skip(1).skip(1).skip(1) =~= Seq::<usize>::empty());
    assert(prod(Seq::<usize>::empty()) == 1);
    assert(w * 1 == w);
}

pub proof fn lemma_idx4(ns: int, cs: int, hs: int, ws: int, n: int, c: int, h: int, w: int)
    requires
        0 <= n < ns,
        0 <= c < cs,
        0 <= h < hs,
        0 <= w < ws,
    ensures
        0 <= idx4(cs, hs, ws, n, c, h, w) < ns * (cs * (hs * ws)),
{
    lemma_idx3(cs, hs, ws, c, h, w);
    lemma_grid_bound(n, ns, idx3(hs, ws, c, h, w), cs * (hs * ws));
}

/// The digits of a place in a tensor of rank four.
pub proof fn lemma_idx4_digits(cs: int, hs: int, ws: int, n: int, c: int, h: int, w: int)
    requires
        0 <= c < cs,
        0 <= h < hs,
        0 <= w < ws,
    ensures
        ({
            let p = idx4(cs, hs, ws, n, c, h, w);
            let q = p % (cs * (hs * ws));
            let r = q % (hs * ws);
            &&& p / (cs * (hs * ws)) == n
            &&& q == idx3(hs, ws, c, h, w)
            &&& q / (hs * ws) == c
            &&& r == h * ws + w
            &&& r / ws == h
            &&& r % ws == w
        }),
{
    lemma_idx3(cs, hs, ws, c, h, w);
    lemma_grid_digits(n, idx3(hs, ws, c, h, w), cs * (hs * ws));
    lemma_grid_digits(c, h * ws + w, hs * ws);
    lemma_grid_digits(h, w, ws);
}

/// A place of a tensor of rank four is put together from its digits.
pub proof fn lemma_idx4_split(ns: int, cs: int, hs: int, ws: int, p: int)
    requires
        0 <= ns,
        0 <= cs,
        0 <= hs,
        0 <= ws,
        0 <= p < ns * (cs * (hs * ws)),
    ensures
        ({
            let q = p % (cs * (hs * ws));
            let r = q % (hs * ws);
            &&& 0 <= p / (cs * (hs * ws)) < ns
            &&& 0 <= q / (hs * ws) < cs
            &&& 0 <= r / ws < hs
            &&& 0 <= r % ws < ws
            &&& p == idx4(cs, hs, ws, p / (cs * (hs * ws)), q / (hs * ws), r / ws, r % ws)
            &&& cs * (hs * ws) > 0
            &&& hs * ws > 0
            &&& ws > 0
        }),
{
    assert(hs * ws >= 0) by (nonlinear_arith)
        requires
            hs >= 0,
            ws >= 0,
    ;
    let b = hs * ws;
    assert(cs * b >= 0) by (nonlinear_arith)
        requires
            cs >= 0,
            b >= 0,
    ;
    let a = cs * b;
    if a == 0 {
        assert(ns * a == 0) by (nonlinear_arith)
            requires
                a == 0,
        ;
    }
    if b == 0 {
        assert(cs * b == 0) by (nonlinear_arith)
            requires
                b == 0,
        ;
    }
    if ws == 0 {
        assert(hs * ws == 0) by (nonlinear_arith)
            requires
                ws == 0,
        ;
    }
    lemma_grid_split(p, ns, a);
    lemma_grid_split(p % a, cs, b);
    lemma_grid_split((p % a) % b, hs, ws);
}

impl<T: Copy> Tensor<T> {
    /// The shape as batch, channels, height and width.
    pub fn get4d(&self) -> (r: (usize, usize, usize, usize))
        ensures
            (r.0 as int, r.1 as int, r.2 as int, r.3 as int) == dims4(self.shape@),
    {
        let rank = self.shape.0.len();
        let (n_size, offset): (usize, usize) = if rank == 3 {
            (1, 0)
        } else if rank == 0 {
            (1, 1)
        } else {
            (self.shape.0[0], 1)
        };
        let c_size: usize = if offset < rank {
            self.shape.0[offset]
        } else {
            1
        };
        let h_size: usize = if offset + 1 < rank {
            self.shape.0[offset + 1]
        } else {
            1
        };
        let w_size: usize = if offset + 2 < rank {
            self.shape.0[offset + 2]
        } else {
            1
        };
        (n_size, c_size, h_size, w_size)
    }

    /// The entry at batch `n`, channel `c`, line `h` and column `w`.
    pub fn get_at_4d(&self, n: usize, c: usize, h: usize, w: usize) -> (r: T)
        requires
            self.shape@.len() <= 4,
            n < dims4(self.shape@).0,
            ({
                let (ns, cs, hs, ws) = dims4(self.shape@);
                &&& hs * ws <= usize::MAX
                &&& cs * (hs * ws) <= usize::MAX
                &&& idx4(cs, hs, ws, n as int, c as int, h as int, w as int) < self.data@.len()
            }),
        ensures
            ({
                let (ns, cs, hs, ws) = dims4(self.shape@);
                r == self.data@[idx4(cs, hs, ws, n as int, c as int, h as int, w as int)]
            }),
    {
        let (n_size, c_size, h_size, w_size) = self.get4d();
        proof {
            let (cs, hs, ws) = (c_size as int, h_size as int, w_size as int);
            assert(self.data@.len() == self.data.len());
            assert(0 <= n * (cs * (hs * ws)) && 0 <= c * (hs * ws) && 0 <= h * ws) by {
                assert(0 <= hs * ws) by (nonlinear_arith)
                    requires
                        hs >= 0,
                        ws >= 0,
                ;
                let b = hs * ws;
                assert(0 <= cs * b && 0 <= c * b) by (nonlinear_arith)
                    requires
                        cs >= 0,
                        c >= 0,
                        b >= 0,
                ;
                let a = cs * b;
                assert(0 <= n * a) by (nonlinear_arith)
                    requires
                        n >= 0,
                        a >= 0,
                ;
                assert(0 <= h * ws) by (nonlinear_arith)
                    requires
                        h >= 0,
                        ws >= 0,
                ;
            }
        }
        let flat_index = n * (c_size * (h_size * w_size)) + (c * (h_size * w_size) + (h * w_size
            + w));
        self.data[flat_index]
    }

    /// The place that the accessors, one per dimension, address in row major order.
    fn get_idx(&self, accessors: &Vec<usize>) -> (r: usize)
        requires
            self.shape@.len() == accessors@.len(),
            accessors@.len() > 0,
            forall|i: int|
                0 <= i < accessors@.len() - 1 ==> #[trigger] accessors@[i] < self.shape@[i],
            forall|k: int| 0 <= k < self.shape@.len() ==> #[trigger] prod(self.shape@.skip(k))
                <= usize::MAX,
            flat(self.shape@, accessors@.map_values(|a: usize| a as int)) <= usize::MAX,
        ensures
            r == flat(self.shape@, accessors@.map_values(|a: usize| a as int)),
    {
        let rank = accessors.len();
        let ghost s = self.shape@;
        let ghost c = accessors@.map_values(|a: usize| a as int);
        let mut k: usize = rank - 1;
        let mut flat_index: usize = accessors[k];
        let mut multiplier: usize = self.shape.0[k];
        proof {
            assert(s.skip(k as int) =~= seq![s[k as int]]);
            crate::shape::lemma_prod1(s[k as int]);
            assert(c.skip(k as int) =~= seq![c[k as int]]);
            assert(s.skip(k as int).skip(1) =~= Seq::<usize>::empty());
            assert(prod(Seq::<usize>::empty()) == 1);
            assert(flat(s.skip(k as int), c.skip(k as int)) == c[k as int] * 1 + flat(
                Seq::<usize>::empty(),
                c.skip(k as int).skip(1),
            ));
        }
        while k > 0
            invariant
                k < rank,
                rank == s.len(),
                rank == accessors@.len(),
                s == self.shape@,
                c == accessors@.map_values(|a: usize| a as int),
                forall|i: int| 0 <= i < rank - 1 ==> #[trigger] accessors@[i] < s[i],
                forall|k: int| 0 <= k < s.len() ==> #[trigger] prod(s.skip(k)) <= usize::MAX,
                flat(s, c) <= usize::MAX,
                flat_index == flat(s.skip(k as int), c.skip(k as int)),
                multiplier == prod(s.skip(k as int)),
            decreases k,
        {
            proof {
                let j = k - 1;
                assert(s.skip(j).skip(1) =~= s.skip(k as int));
                assert(c.skip(j).skip(1) =~= c.skip(k as int));
                lemma_flat_suffix(s, c, j);
                assert(prod(s.skip(j)) <= usize::MAX);
                assert(prod(s.skip(j)) == s[j] as nat * multiplier);
                assert(multiplier * s[j] == s[j] as nat * multiplier) by (nonlinear_arith);
                assert(0 <= c[j] * multiplier) by (nonlinear_arith)
                    requires
                        c[j] >= 0,
                        multiplier >= 0,
                ;
            }
            k = k - 1;
            flat_index = flat_index + accessors[k] * multiplier;
            multiplier = multiplier * self.shape.0[k];
        }
        proof {
            assert(s.skip(0) =~= s);
            assert(c.skip(0) =~= c);
        }
        flat_index
    }

    /// The entry that the accessors, one per dimension and counted from zero, address in row major
    /// order.
    pub fn get(&self, accessors: Vec<usize>) -> (r: T)
        requires
            self.shape@.len() == accessors@.len(),
            accessors@.len() > 0,
            forall|i: int|
                0 <= i < accessors@.len() - 1 ==> #[trigger] accessors@[i] < self.shape@[i],
            forall|k: int| 0 <= k < self.shape@.len() ==> #[trigger] prod(self.shape@.skip(k))
                <= usize::MAX,
            flat(self.shape@, accessors@.map_values(|a: usize| a as int)) < self.data@.len(),
        ensures
            r == self.data@[flat(self.shape@, accessors@.map_values(|a: usize| a as int))],
    {
        proof {
            assert(self.data@.len() == self.data.len());
        }
        let i = self.get_idx(&accessors);
        self.data[i]
    }
}

/// The place of the trailing part of a position is at most that of the position.
proof fn lemma_flat_suffix(s: Seq<usize>, c: Seq<int>, k: int)
    requires
        s.len() == c.len(),
        0 <= k <= s.len(),
        forall|i: int| 0 <= i < c.len() ==> #[trigger] c[i] >= 0,
    ensures
        0 <= flat(s.skip(k), c.skip(k)) <= flat(s, c),
    decreases k,
{
    if k == 0 {
        assert(s.skip(0) =~= s);
        assert(c.skip(0) =~= c);
        lemma_flat_nonneg(s, c);
    } else {
        lemma_flat_suffix(s.skip(1), c.skip(1), k - 1);
        assert(s.skip(1).skip(k - 1) =~= s.skip(k));
        assert(c.skip(1).skip(k - 1) =~= c.skip(k));
        assert(0 <= c[0] * prod(s.skip(1))) by (nonlinear_arith)
            requires
                c[0] >= 0,
                prod(s.skip(1)) >= 0,
        ;
    }
}

proof fn lemma_flat_nonneg(s: Seq<usize>, c: Seq<int>)
    requires
        s.len() == c.len(),
        forall|i: int| 0 <= i < c.len() ==> #[trigger] c[i] >= 0,
    ensures
        0 <= flat(s, c),
    decreases s.len(),
{
    if s.len() > 0 {
        lemma_flat_nonneg(s.skip(1), c.skip(1));
        assert(0 <= c[0] * prod(s.skip(1))) by (nonlinear_arith)
            requires
                c[0] >= 0,
                prod(s.skip(1)) >= 0,
        ;
    }
}

/// The entry at `(n, c, y, x)` of data framed by `ph` lines and `pw` columns of `fill`.
pub open spec fn framed_at<T>(
    data: Seq<T>,
    d: (int, int, int, int),
    ph: int,
    pw: int,
    fill: T,
    n: int,
    c: int,
    y: int,
    x: int,
) -> T {
    if ph <= y < ph + d.2 && pw <= x < pw + d.3 {
        data[idx4(d.1, d.2, d.3, n, c, y - ph, x - pw)]
    } else {
        fill
    }
}

/// The framed tensor is not too large, and the data reaches as far as the shape.
pub open spec fn frameable<T>(t: &Tensor<T>, pad_h: int, pad_w: int) -> bool {
    pad_h == 0 && pad_w == 0 || ({
        let (ns, cs, hs, ws) = dims4(t.shape@);
        &&& ns * (cs * (hs * ws)) <= t.data@.len()
        &&& hs + 2 * pad_h <= usize::MAX
        &&& ws + 2 * pad_w <= usize::MAX
        &&& (hs + 2 * pad_h) * (ws + 2 * pad_w) <= usize::MAX
        &&& cs * ((hs + 2 * pad_h) * (ws + 2 * pad_w)) <= usize::MAX
        &&& ns * (cs * ((hs + 2 * pad_h) * (ws + 2 * pad_w))) <= usize::MAX
    })
}

/// `r` is `t` with each channel framed by `pad_h` lines of zeros above and below, and `pad_w` columns of zeros
/// left and right.
pub open spec fn is_framed<T: Number>(r: &Tensor<T>, t: &Tensor<T>, pad_h: int, pad_w: int) -> bool {
    &&& pad_h == 0 && pad_w == 0 ==> {
        &&& r.data@ == t.data@
        &&& r.shape@ == t.shape@
        &&& r.og_shape@ == t.og_shape@
    }
    &&& !(pad_h == 0 && pad_w == 0) ==> ({
        let d = dims4(t.shape@);
        let (hp, wp) = (d.2 + 2 * pad_h, d.3 + 2 * pad_w);
        &&& r.wf()
        &&& r.og_shape@ == seq![0usize]
        &&& r.shape@ == (if t.shape@.len() == 3 {
            seq![d.1 as usize, hp as usize, wp as usize]
        } else {
            seq![d.0 as usize, d.1 as usize, hp as usize, wp as usize]
        })
        &&& forall|n: int, c: int, y: int, x: int|
            0 <= n < d.0 && 0 <= c < d.1 && 0 <= y < hp && 0 <= x < wp
                ==> #[trigger] r.data@[idx4(d.1, hp, wp, n, c, y, x)] == framed_at(
                t.data@,
                d,
                pad_h,
                pad_w,
                T::s_zero(),
                n,
                c,
                y,
                x,
            )
    })
}

impl<T: Number> Tensor<T> {
    /// Frames each channel with `pad_h` lines of zeros above and below, and `pad_w` columns of
    /// zeros left and right.
    pub fn zero_pad_spatial(&self, pad_h: usize, pad_w: usize) -> (r: Self)
        requires
            frameable(self, pad_h as int, pad_w as int),
        ensures
            is_framed(&r, self, pad_h as int, pad_w as int),
    {
        if pad_h == 0 && pad_w == 0 {
            return self.clone();
        }
        let (n, c, h, w) = self.get4d();
        let new_h: usize = h + 2 * pad_h;
        let new_w: usize = w + 2 * pad_w;
        let plane: usize = new_h * new_w;
        let block: usize = c * plane;
        let new_len: usize = n * block;
        let ghost d = dims4(self.shape@);
        proof {
            assert(self.data@.len() == self.data.len());
        }
        let total = self.data.len();
        let mut data: Vec<T> = Vec::with_capacity(new_len);
        let mut p: usize = 0;
        while p < new_len
            invariant
                p <= new_len,
                d == (n as int, c as int, h as int, w as int),
                d == dims4(self.shape@),
                new_h == h + 2 * pad_h,
                new_w == w + 2 * pad_w,
                plane == new_h * new_w,
                block == c * plane,
                new_len == n * block,
                total == self.data@.len(),
                n * (c * (h * w)) <= total,
                data@.len() == p,
                forall|q: int|
                    0 <= q < p ==> #[trigger] data@[q] == framed_at(
                        self.data@,
                        d,
                        pad_h as int,
                        pad_w as int,
                        T::s_zero(),
                        q / (block as int),
                        (q % (block as int)) / (plane as int),
                        ((q % (block as int)) % (plane as int)) / (new_w as int),
                        ((q % (block as int)) % (plane as int)) % (new_w as int),
                    ),
            decreases new_len - p,
        {
            proof {
                lemma_idx4_split(n as int, c as int, new_h as int, new_w as int, p as int);
            }
            let ni = p / block;
            let q = p % block;
            let ci = q / plane;
            let r = q % plane;
            let y = r / new_w;
            let x = r % new_w;
            if pad_h <= y && y - pad_h < h && pad_w <= x && x - pad_w < w {
                let (hi, wi) = (y - pad_h, x - pad_w);
                proof {
                    lemma_idx4(
                        n as int,
                        c as int,
                        h as int,
                        w as int,
                        ni as int,
                        ci as int,
                        hi as int,
                        wi as int,
                    );
                    lemma_idx4_parts(
                        n as int,
                        c as int,
                        h as int,
                        w as int,
                        ni as int,
                        ci as int,
                        hi as int,
                        wi as int,
                    );
                }
                let src: usize = ni * (c * (h * w)) + (ci * (h * w) + (hi * w + wi));
                data.push(self.data[src]);
            } else {
                data.push(T::zero());
            }
            p = p + 1;
        }
        proof {
            assert forall|nn: int, cc: int, y: int, x: int|
                0 <= nn < d.0 && 0 <= cc < d.1 && 0 <= y < new_h && 0 <= x < new_w
                implies #[trigger] data@[idx4(d.1, new_h as int, new_w as int, nn, cc, y, x)]
                == framed_at(
                self.data@,
                d,
                pad_h as int,
                pad_w as int,
                T::s_zero(),
                nn,
                cc,
                y,
                x,
            ) by {
                lemma_idx4(d.0, d.1, new_h as int, new_w as int, nn, cc, y, x);
                lemma_idx4_digits(d.1, new_h as int, new_w as int, nn, cc, y, x);
            }
            lemma_prod3(c, new_h, new_w);
            lemma_prod4(n, c, new_h, new_w);
            assert(1 * block == block);
        }
        let dims: Vec<usize> = if self.shape.0.len() == 3 {
            vec![c, new_h, new_w]
        } else {
            vec![n, c, new_h, new_w]
        };
        proof {
            if self.shape@.len() == 3 {
                assert(dims@ =~= seq![c, new_h, new_w]);
            } else {
                assert(dims@ =~= seq![n, c, new_h, new_w]);
            }
        }
        Tensor::new(Shape::new(dims), data)
    }

    /// The corner of the given shape. A tensor that has the shape already is left as it is; others
    /// must be of rank three.
    pub fn crop_to(&self, target_shape: &Shape) -> (r: Self)
        requires
            self.wf(),
            self.shape@.len() == target_shape@.len(),
            self.shape@ == target_shape@ || ({
                &&& target_shape@.len() == 3
                &&& target_shape@[0] <= self.shape@[0]
                &&& target_shape@[1] <= self.shape@[1]
                &&& target_shape@[2] <= self.shape@[2]
            }),
        ensures
            r.wf(),
            r.shape@ == target_shape@,
            self.shape@ == target_shape@ ==> r.data@ == self.data@ && r.og_shape@ == self.og_shape@,
            self.shape@ != target_shape@ ==> r.og_shape@ == seq![0usize],
            target_shape@.len() == 3 ==> is_corner(r.data@, target_shape@, self.data@, self.shape@),
    {
        if self.shape.same(target_shape) {
            return self.clone();
        }
        let (c, h, w) = (target_shape.0[0], target_shape.0[1], target_shape.0[2]);
        let (cp, hp, wp) = (self.shape.0[0], self.shape.0[1], self.shape.0[2]);
        proof {
            lemma_prod_of_rank(self.shape@);
            lemma_prod_of_rank(target_shape@);
            assert(self.data@.len() == self.data.len());
            assert(h * w <= hp * wp) by (nonlinear_arith)
                requires
                    0 <= h <= hp,
                    0 <= w <= wp,
            ;
            assert(c * (h * w) <= cp * (hp * wp)) by (nonlinear_arith)
                requires
                    0 <= c <= cp,
                    0 <= h * w <= hp * wp,
            ;
            if c > 0 && h > 0 && w > 0 {
                lemma_idx4_parts(1, cp as int, hp as int, wp as int, 0, cp - 1, hp - 1, wp - 1);
                lemma_idx3(cp as int, hp as int, wp as int, cp - 1, hp - 1, wp - 1);
            }
        }
        let total = self.data.len();
        let mut data: Vec<T> = Vec::new();
        let mut ci: usize = 0;
        proof {
            assert(0 * (h * w) == 0);
        }
        while ci < c
            invariant
                ci <= c,
                c <= cp,
                h <= hp,
                w <= wp,
                total == self.data@.len(),
                total == cp * (hp * wp),
                data@.len() == ci * (h * w),
                forall|a: int, b: int, d: int|
                    0 <= a < ci && 0 <= b < h && 0 <= d < w ==> #[trigger] data@[idx3(
                        h as int,
                        w as int,
                        a,
                        b,
                        d,
                    )] == self.data@[idx3(hp as int, wp as int, a, b, d)],
            decreases c - ci,
        {
            let mut hi: usize = 0;
            proof {
                assert(0 * w == 0);
            }
            while hi < h
                invariant
                    ci < c,
                    hi <= h,
                    c <= cp,
                    h <= hp,
                    w <= wp,
                    total == self.data@.len(),
                    total == cp * (hp * wp),
                    data@.len() == ci * (h * w) + hi * w,
                    forall|a: int, b: int, d: int|
                        (0 <= a < ci && 0 <= b < h || a == ci && 0 <= b < hi) && 0 <= d < w
                            ==> #[trigger] data@[idx3(h as int, w as int, a, b, d)]
                            == self.data@[idx3(hp as int, wp as int, a, b, d)],
                decreases h - hi,
            {
                let mut wi: usize = 0;
                while wi < w
                    invariant
                        ci < c,
                        hi < h,
                        wi <= w,
                        c <= cp,
                        h <= hp,
                        w <= wp,
                        total == self.data@.len(),
                        total == cp * (hp * wp),
                        data@.len() == ci * (h * w) + hi * w + wi,
                        forall|a: int, b: int, d: int|
                            ((0 <= a < ci && 0 <= b < h || a == ci && 0 <= b < hi) && 0 <= d < w) || (a
                                == ci && b == hi && 0 <= d < wi) ==> #[trigger] data@[idx3(
                                h as int,
                                w as int,
                                a,
                                b,
                                d,
                            )] == self.data@[idx3(hp as int, wp as int, a, b, d)],
                    decreases w - wi,
                {
                    proof {
                        lemma_idx3(
                            cp as int,
                            hp as int,
                            wp as int,
                            ci as int,
                            hi as int,
                            wi as int,
                        );
                        lemma_idx4_parts(
                            1,
                            cp as int,
                            hp as int,
                            wp as int,
                            0,
                            ci as int,
                            hi as int,
                            wi as int,
                        );
                    }
                    let src: usize = ci * (hp * wp) + (hi * wp + wi);
                    let ghost before = data@;
                    data.push(self.data[src]);
                    proof {
                        assert forall|a: int, b: int, d: int|
                            ((0 <= a < ci && 0 <= b < h || a == ci && 0 <= b < hi) && 0 <= d < w) || (a
                                == ci && b == hi && 0 <= d < wi + 1) implies #[trigger] data@[idx3(
                            h as int,
                            w as int,
                            a,
                            b,
                            d,
                        )] == self.data@[idx3(hp as int, wp as int, a, b, d)] by {
                            if !(a == ci && b == hi && d == wi) {
                                lemma_idx3_before(
                                    h as int,
                                    w as int,
                                    a,
                                    b,
                                    d,
                                    ci as int,
                                    hi as int,
                                    wi as int,
                                );
                                assert(data@[idx3(h as int, w as int, a, b, d)] == before[idx3(
                                    h as int,
                                    w as int,
                                    a,
                                    b,
                                    d,
                                )]);
                            }
                        }
                    }
                    wi = wi + 1;
                }
                proof {
                    assert((hi + 1) * w == hi * w + w) by (nonlinear_arith);
                }
                hi = hi + 1;
            }
            proof {
                assert((ci + 1) * (h * w) == ci * (h * w) + h * w) by (nonlinear_arith);
            }
            ci = ci + 1;
        }
        Tensor::new(target_shape.clone(), data)
    }
}

/// Places come in the order of their positions.
proof fn lemma_idx3_before(hs: int, ws: int, a: int, b: int, d: int, c: int, h: int, w: int)
    requires
        0 <= a,
        0 <= b < hs,
        0 <= d < ws,
        0 <= h < hs,
        0 <= w < ws,
        a < c || (a == c && b < h) || (a == c && b == h && d < w),
    ensures
        0 <= idx3(hs, ws, a, b, d) < idx3(hs, ws, c, h, w),
{
    lemma_grid_bound(b, hs, d, ws);
    lemma_grid_bound(h, hs, w, ws);
    let pl = hs * ws;
    if a < c {
        let (x, y) = (b * ws + d, h * ws + w);
        assert(0 <= a * pl + x < c * pl + y) by (nonlinear_arith)
            requires
                0 <= a < c,
                0 <= x < pl,
                0 <= y,
        ;
    } else {
        assert(0 <= a * pl) by (nonlinear_arith)
            requires
                0 <= a,
                0 <= pl,
        ;
        if b < h {
            assert(b * ws + d < h * ws + w) by (nonlinear_arith)
                requires
                    b < h,
                    0 <= d < ws,
                    0 <= w,
            ;
        }
    }
}

/// The parts of a place are no larger than the place, nor the strides than the tensor.
pub proof fn lemma_idx4_parts(ns: int, cs: int, hs: int, ws: int, n: int, c: int, h: int, w: int)
    requires
        0 <= n < ns,
        0 <= c < cs,
        0 <= h < hs,
        0 <= w < ws,
    ensures
        0 <= h * ws,
        0 <= c * (hs * ws),
        0 <= n * (cs * (hs * ws)),
        0 <= hs * ws <= cs * (hs * ws) <= ns * (cs * (hs * ws)),
{
    assert(0 <= h * ws && 1 <= hs * ws) by (nonlinear_arith)
        requires
            0 <= h < hs,
            1 <= ws,
    ;
    let b = hs * ws;
    assert(0 <= c * b && b <= cs * b) by (nonlinear_arith)
        requires
            0 <= c < cs,
            1 <= b,
    ;
    let a = cs * b;
    assert(0 <= n * a && a <= ns * a) by (nonlinear_arith)
        requires
            0 <= n < ns,
            1 <= a,
    ;
}

} // verus!
