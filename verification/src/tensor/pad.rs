//! Padding to larger shapes, and cropping back.
use crate::arith::{
    self, is_pow2, lemma_grid_bound, lemma_grid_digits, lemma_grid_split, lemma_npot, npot,
};
use crate::number::Number;
use crate::shape::{
    coords, flat, in_bounds, lemma_coords_flat, lemma_flat_bound, lemma_flat_coords, lemma_prod_of_rank,
    lemma_prod_positive, lemma_prod_suffix, nonzero, prod, Shape,
};
use crate::tensor::{filled, Tensor};
use vstd::prelude::*;
use vstd::slice::slice_subrange;

verus! {

/// The entry at place `p` of the data of shape `s` padded to shape `t` with `fill`.
pub open spec fn padded_at<T>(data: Seq<T>, s: Seq<usize>, t: Seq<usize>, fill: T, p: int) -> T {
    let c = coords(t, p);
    if in_bounds(s, c) {
        data[flat(s, c)]
    } else {
        fill
    }
}

/// The data of shape `s` in the corner of a tensor of shape `t` that holds `fill` elsewhere.
pub open spec fn padded<T>(data: Seq<T>, s: Seq<usize>, t: Seq<usize>, fill: T) -> Seq<T> {
    Seq::new(prod(t), |p: int| padded_at(data, s, t, fill, p))
}

/// Every dimension rounded up to a power of two.
pub open spec fn npots(s: Seq<usize>) -> Seq<usize> {
    s.map_values(|d: usize| npot(d as nat) as usize)
}

/// Every dimension can be rounded up to a power of two.
pub open spec fn npots_fit(s: Seq<usize>) -> bool {
    forall|i: int| 0 <= i < s.len() ==> npot(#[trigger] s[i] as nat) <= usize::MAX
}

/// Every dimension is a power of two.
pub open spec fn all_pow2(s: Seq<usize>) -> bool {
    forall|i: int| 0 <= i < s.len() ==> is_pow2(#[trigger] s[i] as int)
}

/// The data fills the shape, and the padded tensor is not too large.
pub open spec fn paddable<T>(t: &Tensor<T>) -> bool {
    &&& t.wf()
    &&& t.shape@.len() == 1 || nonzero(t.shape@)
    &&& npots_fit(t.shape@)
    &&& prod(npots(t.shape@)) <= usize::MAX
}

/// The entries of a padded tensor, one slice along the first dimension at a time.
proof fn lemma_padded_slice<T>(data: Seq<T>, s: Seq<usize>, t: Seq<usize>, fill: T, i: int, r: int)
    requires
        s.len() == t.len(),
        s.len() >= 1,
        data.len() == prod(s),
        0 <= i < t[0],
        0 <= r < prod(t.skip(1)),
    ensures
        ({
            let inner = prod(s.skip(1)) as int;
            padded_at(data, s, t, fill, i * prod(t.skip(1)) + r) == (if i < s[0] {
                padded_at(
                    data.subrange(i * inner, (i + 1) * inner),
                    s.skip(1),
                    t.skip(1),
                    fill,
                    r,
                )
            } else {
                fill
            })
        }),
{
    let outer = prod(t.skip(1)) as int;
    let inner = prod(s.skip(1)) as int;
    let p = i * outer + r;
    lemma_grid_digits(i, r, outer);
    let c = coords(t, p);
    let d = coords(t.skip(1), r);
    lemma_flat_coords(t.skip(1), r);
    assert(c =~= seq![i] + d);
    assert(c.skip(1) =~= d);
    assert(in_bounds(s, c) == (i < s[0] && in_bounds(s.skip(1), d))) by {
        if i < s[0] && in_bounds(s.skip(1), d) {
            assert forall|k: int| 0 <= k < s.len() implies 0 <= #[trigger] c[k] < s[k] by {
                if k > 0 {
                    assert(c[k] == d[k - 1]);
                    assert(s.skip(1)[k - 1] == s[k]);
                }
            }
        }
        if in_bounds(s, c) {
            assert(0 <= c[0] < s[0]);
            assert forall|k: int| 0 <= k < s.skip(1).len() implies 0 <= #[trigger] d[k] < s.skip(
                1,
            )[k] by {
                assert(c[k + 1] == d[k]);
                assert(0 <= c[k + 1] < s[k + 1]);
            }
        }
    }
    if i < s[0] && in_bounds(s.skip(1), d) {
        lemma_flat_bound(s.skip(1), d);
        let f = flat(s.skip(1), d);
        lemma_grid_bound(i, s[0] as int, f, inner);
        assert((i + 1) * inner == i * inner + inner) by (nonlinear_arith);
        assert((i + 1) * inner <= s[0] * inner) by (nonlinear_arith)
            requires
                i + 1 <= s[0],
                inner >= 0,
        ;
        assert(flat(s, c) == i * inner + f);
        assert(data.subrange(i * inner, (i + 1) * inner)[f] == data[i * inner + f]);
    }
}

impl<T: Number> Tensor<T> {
    /// The tensor padded with zeros until every dimension is a power of two.
    pub fn pad_next_power_of_two(&self) -> (r: Self)
        requires
            self.shape@.len() > 0,
            all_pow2(self.shape@) || paddable(self),
        ensures
            r.shape@ == npots(self.shape@),
            all_pow2(self.shape@) ==> r.data@ == self.data@,
            self.wf() ==> {
                &&& r.wf()
                &&& r.data@ == padded(self.data@, self.shape@, npots(self.shape@), T::s_zero())
            },
            r.og_shape@ == (if npots(self.shape@) == self.shape@ {
                self.og_shape@
            } else {
                seq![0usize]
            }),
    {
        self.generic_pad_next_power_of_two(T::zero())
    }

    /// The tensor padded with `padding_value` until every dimension is a power of two.
    pub fn generic_pad_next_power_of_two(&self, padding_value: T) -> (r: Self)
        requires
            self.shape@.len() > 0,
            all_pow2(self.shape@) || paddable(self),
        ensures
            r.shape@ == npots(self.shape@),
            all_pow2(self.shape@) ==> r.data@ == self.data@,
            self.wf() ==> {
                &&& r.wf()
                &&& r.data@ == padded(self.data@, self.shape@, npots(self.shape@), padding_value)
            },
            r.og_shape@ == (if npots(self.shape@) == self.shape@ {
                self.og_shape@
            } else {
                seq![0usize]
            }),
    {
        let ghost s = self.shape@;
        let ghost t = npots(self.shape@);
        if self.shape.is_power_of_two() {
            proof {
                assert(t =~= s) by {
                    assert forall|i: int| 0 <= i < s.len() implies #[trigger] t[i] == s[i] by {
                        lemma_npot(s[i] as nat);
                        assert(is_pow2(s[i] as int));
                    }
                }
                if self.wf() {
                    assert(self.data@ =~= padded(self.data@, s, t, padding_value)) by {
                        assert forall|p: int| 0 <= p < self.data@.len() implies self.data@[p]
                            == padded_at(self.data@, s, t, padding_value, p) by {
                            lemma_flat_coords(s, p);
                        }
                    }
                }
            }
            return self.clone();
        }
        proof {
            if t == s {
                assert forall|i: int| 0 <= i < s.len() implies is_pow2(#[trigger] s[i] as int) by {
                    lemma_npot(s[i] as nat);
                    assert(t[i] == s[i]);
                    assert(npot(s[i] as nat) <= usize::MAX);
                }
                assert(false);
            }
        }
        let padded_data = Self::recursive_pad(&self.data, &self.shape.0, padding_value);
        let padded_shape = self.shape.next_power_of_two();
        proof {
            assert(padded_shape@ =~= t);
        }
        Tensor::new(padded_shape, padded_data)
    }

    /// The data of the given shape padded until every dimension is a power of two, one slice along
    /// the first dimension at a time.
    fn recursive_pad(data: &[T], remaining_dims: &[usize], padding_value: T) -> (r: Vec<T>)
        requires
            remaining_dims@.len() >= 1,
            remaining_dims@.len() == 1 || nonzero(remaining_dims@),
            data@.len() == prod(remaining_dims@),
            npots_fit(remaining_dims@),
            prod(npots(remaining_dims@)) <= usize::MAX,
        ensures
            r@ == padded(data@, remaining_dims@, npots(remaining_dims@), padding_value),
        decreases remaining_dims@.len(),
    {
        let ghost s = remaining_dims@;
        let ghost t = npots(remaining_dims@);
        let rank = remaining_dims.len();
        proof {
            assert(npot(s[0] as nat) <= usize::MAX);
        }
        let d0 = remaining_dims[0];
        let n0 = arith::next_power_of_two(d0);
        proof {
            assert(t[0] == n0);
        }
        if rank == 1 {
            let mut r: Vec<T> = Vec::with_capacity(n0);
            proof {
                lemma_prod_of_rank(s);
                lemma_prod_of_rank(t);
            }
            let mut i: usize = 0;
            while i < n0
                invariant
                    i <= n0,
                    s == remaining_dims@,
                    t == npots(s),
                    s.len() == 1,
                    t[0] == n0,
                    d0 == s[0],
                    data@.len() == prod(s),
                    data@.len() == d0,
                    r@.len() == i,
                    forall|p: int|
                        0 <= p < i ==> #[trigger] r@[p] == padded_at(
                            data@,
                            s,
                            t,
                            padding_value,
                            p,
                        ),
                decreases n0 - i,
            {
                proof {
                    assert(t.skip(1) =~= Seq::<usize>::empty());
                    assert(s.skip(1) =~= Seq::<usize>::empty());
                    assert(prod(Seq::<usize>::empty()) == 1);
                    lemma_padded_slice(data@, s, t, padding_value, i as int, 0);
                    let part = data@.subrange(i * 1, (i + 1) * 1);
                    assert(in_bounds(s.skip(1), coords(t.skip(1), 0)));
                }
                if i < d0 {
                    r.push(data[i]);
                } else {
                    r.push(padding_value);
                }
                i = i + 1;
            }
            proof {
                assert(r@ =~= padded(data@, s, t, padding_value));
            }
            return r;
        }
        let rest = slice_subrange(remaining_dims, 1, rank);
        let ghost inner = prod(s.skip(1)) as int;
        let ghost outer = prod(t.skip(1)) as int;
        proof {
            assert(rest@ =~= s.skip(1));
            assert(npots(s.skip(1)) =~= t.skip(1));
            assert forall|k: int| 0 <= k < s.skip(1).len() implies #[trigger] s.skip(1)[k] > 0 by {
                assert(s[k + 1] > 0);
            }
            assert forall|k: int| 0 <= k < s.skip(1).len() implies npot(
                #[trigger] s.skip(1)[k] as nat,
            ) <= usize::MAX by {
                assert(npot(s[k + 1] as nat) <= usize::MAX);
            }
            assert(nonzero(t)) by {
                assert forall|k: int| 0 <= k < t.len() implies #[trigger] t[k] > 0 by {
                    lemma_npot(s[k] as nat);
                    assert(npot(s[k] as nat) <= usize::MAX);
                }
            }
            lemma_prod_suffix(t, 1);
            lemma_prod_positive(s.skip(1));
            lemma_prod_suffix(s, 1);
        }
        let total = data.len();
        let chunk_size = Shape::from_it(rest).product();
        let mut r: Vec<T> = Vec::new();
        let mut i: usize = 0;
        let mut start: usize = 0;
        proof {
            assert(0 * inner == 0 && 0 * outer == 0);
        }
        while i < d0
            invariant
                i <= d0,
                s == remaining_dims@,
                t == npots(s),
                rank >= 2,
                rank == s.len(),
                rest@ == s.skip(1),
                npots(rest@) == t.skip(1),
                nonzero(rest@),
                npots_fit(rest@),
                prod(t.skip(1)) <= usize::MAX,
                inner == prod(s.skip(1)),
                outer == prod(t.skip(1)),
                d0 == s[0],
                n0 == t[0],
                d0 <= n0,
                chunk_size == inner,
                inner >= 1,
                total == data@.len(),
                total == prod(s),
                start == i * inner,
                r@.len() == i * outer,
                forall|a: int, b: int|
                    0 <= a < i && 0 <= b < outer ==> #[trigger] r@[a * outer + b] == padded_at(
                        data@,
                        s,
                        t,
                        padding_value,
                        a * outer + b,
                    ),
            decreases d0 - i,
        {
            proof {
                assert((i + 1) * inner == i * inner + inner) by (nonlinear_arith);
                assert((i + 1) * inner <= d0 * inner) by (nonlinear_arith)
                    requires
                        i + 1 <= d0,
                        inner >= 0,
                ;
            }
            let part = slice_subrange(data, start, start + chunk_size);
            let ghost before = r@;
            let mut row = Self::recursive_pad(part, rest, padding_value);
            r.append(&mut row);
            proof {
                assert((i + 1) * outer == i * outer + outer) by (nonlinear_arith);
                assert forall|a: int, b: int| 0 <= a < i + 1 && 0 <= b < outer implies #[trigger] r@[a
                    * outer + b] == padded_at(data@, s, t, padding_value, a * outer + b) by {
                    if a < i {
                        lemma_grid_bound(a, i as int, b, outer);
                        assert(r@[a * outer + b] == before[a * outer + b]);
                    } else {
                        lemma_padded_slice(data@, s, t, padding_value, a, b);
                        assert(part@ =~= data@.subrange(i * inner, (i + 1) * inner));
                    }
                }
            }
            start = start + chunk_size;
            i = i + 1;
        }
        let elem_size = r.len() / d0;
        proof {
            vstd::arithmetic::div_mod::lemma_div_multiples_vanish(outer, d0 as int);
            vstd::arithmetic::mul::lemma_mul_is_commutative(outer, d0 as int);
            assert(elem_size == outer);
        }
        while i < n0
            invariant
                d0 <= i <= n0,
                s == remaining_dims@,
                t == npots(s),
                rank >= 2,
                rank == s.len(),
                inner == prod(s.skip(1)),
                outer == prod(t.skip(1)),
                d0 == s[0],
                n0 == t[0],
                elem_size == outer,
                data@.len() == prod(s),
                r@.len() == i * outer,
                forall|a: int, b: int|
                    0 <= a < i && 0 <= b < outer ==> #[trigger] r@[a * outer + b] == padded_at(
                        data@,
                        s,
                        t,
                        padding_value,
                        a * outer + b,
                    ),
            decreases n0 - i,
        {
            let ghost before = r@;
            let mut row = filled(padding_value, elem_size);
            r.append(&mut row);
            proof {
                assert((i + 1) * outer == i * outer + outer) by (nonlinear_arith);
                assert forall|a: int, b: int| 0 <= a < i + 1 && 0 <= b < outer implies #[trigger] r@[a
                    * outer + b] == padded_at(data@, s, t, padding_value, a * outer + b) by {
                    if a < i {
                        lemma_grid_bound(a, i as int, b, outer);
                        assert(r@[a * outer + b] == before[a * outer + b]);
                    } else {
                        lemma_padded_slice(data@, s, t, padding_value, a, b);
                    }
                }
            }
            i = i + 1;
        }
        proof {
            assert(prod(t) == n0 * outer);
            assert forall|p: int| 0 <= p < prod(t) implies r@[p] == padded_at(
                data@,
                s,
                t,
                padding_value,
                p,
            ) by {
                lemma_grid_split(p, n0 as int, outer);
                assert(r@[(p / outer) * outer + p % outer] == padded_at(
                    data@,
                    s,
                    t,
                    padding_value,
                    (p / outer) * outer + p % outer,
                ));
            }
            assert(r@ =~= padded(data@, s, t, padding_value));
        }
        r
    }
}

/// What lies between the last position of shape `s` and that of the larger shape `t`.
spec fn gap(s: Seq<usize>, t: Seq<usize>) -> int
    decreases s.len(),
{
    if s.len() == 0 {
        0
    } else {
        (t[0] - s[0]) * prod(t.skip(1)) + gap(s.skip(1), t.skip(1))
    }
}

/// The last position of shape `s`.
spec fn last_of(s: Seq<usize>) -> Seq<int> {
    s.map_values(|d: usize| d - 1)
}

/// The place of the last position.
proof fn lemma_last(s: Seq<usize>, t: Seq<usize>)
    requires
        s.len() == t.len(),
    ensures
        flat(t, last_of(s)) == prod(t) - 1 - gap(s, t),
    decreases s.len(),
{
    if s.len() > 0 {
        lemma_last(s.skip(1), t.skip(1));
        assert(last_of(s).skip(1) =~= last_of(s.skip(1)));
        let (a, b, r) = (s[0] as int, t[0] as int, prod(t.skip(1)) as int);
        assert((a - 1) * r + r == b * r - (b - a) * r) by (nonlinear_arith);
    }
}

/// Nothing lies between a shape and itself.
proof fn lemma_gap_self(s: Seq<usize>)
    ensures
        gap(s, s) == 0,
    decreases s.len(),
{
    if s.len() > 0 {
        lemma_gap_self(s.skip(1));
        assert(0 * prod(s.skip(1)) == 0);
    }
}

/// The place of the first position.
proof fn lemma_first(t: Seq<usize>, c: Seq<int>)
    requires
        c.len() == t.len(),
        forall|q: int| 0 <= q < c.len() ==> #[trigger] c[q] == 0,
    ensures
        flat(t, c) == 0,
    decreases t.len(),
{
    if t.len() > 0 {
        lemma_first(t.skip(1), c.skip(1));
        assert(0 * prod(t.skip(1)) == 0);
    }
}

/// The position before `c`, where the digits behind `k` are zero and digit `k` is not.
spec fn pred(s: Seq<usize>, c: Seq<int>, k: int) -> Seq<int> {
    Seq::new(
        c.len(),
        |q: int|
            if q < k {
                c[q]
            } else if q == k {
                c[q] - 1
            } else {
                s[q] - 1
            },
    )
}

/// How far the place moves from a position to the one before.
proof fn lemma_pred(s: Seq<usize>, t: Seq<usize>, c: Seq<int>, k: int)
    requires
        s.len() == t.len(),
        c.len() == s.len(),
        0 <= k < s.len(),
        forall|q: int| k < q < c.len() ==> #[trigger] c[q] == 0,
    ensures
        flat(t, pred(s, c, k)) == flat(t, c) - 1 - gap(s.skip(k + 1), t.skip(k + 1)),
    decreases k,
{
    let d = pred(s, c, k);
    if k == 0 {
        let rest = d.skip(1);
        assert(rest =~= last_of(s.skip(1)));
        lemma_last(s.skip(1), t.skip(1));
        lemma_first(t.skip(1), c.skip(1));
        let r = prod(t.skip(1)) as int;
        assert((c[0] - 1) * r == c[0] * r - r) by (nonlinear_arith);
    } else {
        assert(d.skip(1) =~= pred(s.skip(1), c.skip(1), k - 1));
        lemma_pred(s.skip(1), t.skip(1), c.skip(1), k - 1);
        assert(s.skip(1).skip(k) =~= s.skip(k + 1));
        assert(t.skip(1).skip(k) =~= t.skip(k + 1));
    }
}

/// A position stands further back in the larger shape.
proof fn lemma_flat_grows(s: Seq<usize>, t: Seq<usize>, c: Seq<int>)
    requires
        s.len() == t.len(),
        in_bounds(s, c),
        forall|i: int| 0 <= i < s.len() ==> #[trigger] s[i] <= t[i],
    ensures
        flat(s, c) <= flat(t, c),
        prod(s) <= prod(t),
    decreases s.len(),
{
    if s.len() > 0 {
        assert(in_bounds(s.skip(1), c.skip(1)));
        assert forall|i: int| 0 <= i < s.skip(1).len() implies #[trigger] s.skip(1)[i] <= t.skip(
            1,
        )[i] by {
            assert(s[i + 1] <= t[i + 1]);
        }
        lemma_flat_grows(s.skip(1), t.skip(1), c.skip(1));
        let (a, b, x) = (prod(s.skip(1)) as int, prod(t.skip(1)) as int, c[0]);
        assert(x * a <= x * b) by (nonlinear_arith)
            requires
                a <= b,
                x >= 0,
        ;
        let (u, v) = (s[0] as int, t[0] as int);
        assert(u * a <= v * b) by (nonlinear_arith)
            requires
                0 <= u <= v,
                0 <= a <= b,
        ;
    }
}

/// The place in the larger shape of the position that stands at place `o`.
spec fn moved(s: Seq<usize>, t: Seq<usize>, o: int) -> int {
    flat(t, coords(s, o))
}

/// Positions keep their order when the shape grows, and move backwards only.
proof fn lemma_moved(s: Seq<usize>, t: Seq<usize>, o: int)
    requires
        s.len() == t.len(),
        forall|i: int| 0 <= i < s.len() ==> #[trigger] s[i] <= t[i],
        0 <= o < prod(s),
    ensures
        o <= moved(s, t, o) < prod(t),
        in_bounds(t, coords(s, o)),
        coords(t, moved(s, t, o)) == coords(s, o),
        prod(s) <= prod(t),
{
    lemma_flat_coords(s, o);
    let c = coords(s, o);
    assert(in_bounds(t, c)) by {
        assert forall|i: int| 0 <= i < t.len() implies 0 <= #[trigger] c[i] < t[i] by {
            assert(s[i] <= t[i]);
        }
    }
    lemma_flat_grows(s, t, c);
    lemma_flat_bound(t, c);
    lemma_coords_flat(t, c);
}

/// Two positions of a shape never meet in the larger one, and the later one stays later.
proof fn lemma_moved_order(s: Seq<usize>, t: Seq<usize>, a: int, b: int)
    requires
        s.len() == t.len(),
        forall|i: int| 0 <= i < s.len() ==> #[trigger] s[i] <= t[i],
        0 <= a < b < prod(s),
    ensures
        moved(s, t, a) < moved(s, t, b),
    decreases s.len(),
{
    if s.len() == 0 {
        assert(prod(s) == 1);
    } else {
        let (rs, rt) = (prod(s.skip(1)) as int, prod(t.skip(1)) as int);
        if rs == 0 {
            assert(s[0] as nat * 0 == 0);
            assert(false);
        }
        assert forall|i: int| 0 <= i < s.skip(1).len() implies #[trigger] s.skip(1)[i] <= t.skip(
            1,
        )[i] by {
            assert(s[i + 1] <= t[i + 1]);
        }
        lemma_grid_split(a, s[0] as int, rs);
        lemma_grid_split(b, s[0] as int, rs);
        let (ah, al, bh, bl) = (a / rs, a % rs, b / rs, b % rs);
        let ca = coords(s, a);
        let cb = coords(s, b);
        assert(ca.skip(1) =~= coords(s.skip(1), al));
        assert(cb.skip(1) =~= coords(s.skip(1), bl));
        lemma_moved(s.skip(1), t.skip(1), al);
        lemma_moved(s.skip(1), t.skip(1), bl);
        let (ma, mb) = (moved(s.skip(1), t.skip(1), al), moved(s.skip(1), t.skip(1), bl));
        assert(moved(s, t, a) == ah * rt + ma);
        assert(moved(s, t, b) == bh * rt + mb);
        if ah == bh {
            lemma_moved_order(s.skip(1), t.skip(1), al, bl);
        } else {
            assert(ah < bh) by (nonlinear_arith)
                requires
                    a == ah * rs + al,
                    b == bh * rs + bl,
                    a < b,
                    0 <= al < rs,
                    0 <= bl < rs,
                    ah != bh,
            ;
            assert(ah * rt + ma < bh * rt + mb) by (nonlinear_arith)
                requires
                    ah < bh,
                    0 <= ma < rt,
                    0 <= mb,
            ;
        }
    }
}

/// The data while it is being spread out: the entries from place `o` on have moved.
spec fn spread<T>(data: Seq<T>, s: Seq<usize>, t: Seq<usize>, fill: T, o: int, q: int) -> T {
    let c = coords(t, q);
    if in_bounds(s, c) && flat(s, c) >= o {
        data[flat(s, c)]
    } else if q < o {
        data[q]
    } else {
        fill
    }
}

impl<T: Number> Tensor<T> {
    /// Enlarges the tensor to the given shape and fills it up with zeros. The entries are moved in
    /// place, from the last to the first.
    pub fn pad_to_shape(&mut self, target_shape: Shape)
        requires
            old(self).wf(),
            old(self).shape@.len() == target_shape@.len(),
            nonzero(old(self).shape@),
            forall|i: int|
                0 <= i < target_shape@.len() ==> #[trigger] old(self).shape@[i] <= target_shape@[i],
            prod(target_shape@) <= usize::MAX,
        ensures
            final(self).wf(),
            final(self).shape@ == target_shape@,
            final(self).og_shape@ == old(self).og_shape@,
            final(self).data@ == padded(
                old(self).data@,
                old(self).shape@,
                target_shape@,
                T::s_zero(),
            ),
    {
        let ghost s = self.shape@;
        let ghost t = target_shape@;
        let ghost data0 = self.data@;
        let ghost zero = T::s_zero();
        let rank = self.shape.rank();
        let len = target_shape.product();
        let start_len = self.data.len();
        proof {
            assert forall|k: int| 0 <= k < t.len() implies #[trigger] t[k] > 0 by {
                assert(s[k] <= t[k]);
                assert(s[k] > 0);
            }
            assert forall|k: int| 0 <= k < t.len() implies #[trigger] prod(t.skip(k))
                <= usize::MAX by {
                lemma_prod_suffix(t, k);
            }
            lemma_prod_positive(s);
            lemma_prod_positive(t);
            lemma_moved(s, t, prod(s) - 1);
        }
        while self.data.len() < len
            invariant
                start_len == data0.len(),
                start_len <= self.data@.len() <= len,
                forall|q: int|
                    0 <= q < self.data@.len() ==> #[trigger] self.data@[q] == (if q < start_len {
                        data0[q]
                    } else {
                        zero
                    }),
                zero == T::s_zero(),
                self.shape@ == s,
                self.og_shape@ == old(self).og_shape@,
            decreases len - self.data@.len(),
        {
            self.data.push(T::zero());
        }
        let strides = target_shape.strides();
        let mut coord: Vec<usize> = Vec::with_capacity(rank);
        let mut distance: Vec<usize> = Vec::with_capacity(rank);
        let mut target: usize = 0;
        let mut k: usize = 0;
        proof {
            lemma_last(s, t);
            lemma_last(s, s);
            lemma_gap_self(s);
            assert(s.skip(0) =~= s);
            assert(t.skip(0) =~= t);
            assert(last_of(s).skip(0) =~= last_of(s));
            lemma_partial_bounds(s, t, 0);
        }
        while k < rank
            invariant
                k <= rank,
                rank == s.len(),
                rank == t.len(),
                self.shape@ == s,
                target_shape@ == t,
                nonzero(s),
                forall|i: int| 0 <= i < t.len() ==> #[trigger] s[i] <= t[i],
                prod(t) <= usize::MAX,
                prod(t) >= 1,
                strides@.len() == rank,
                forall|i: int| 0 <= i < rank ==> #[trigger] strides@[i] == prod(t.skip(i + 1)),
                coord@.len() == k,
                distance@.len() == k,
                forall|i: int| 0 <= i < k ==> #[trigger] coord@[i] == s[i] - 1,
                forall|i: int|
                    0 <= i < k ==> #[trigger] distance@[i] == (t[i] - s[i]) * prod(t.skip(i + 1)),
                target + flat(t.skip(k as int), last_of(s).skip(k as int)) == flat(t, last_of(s)),
                flat(t, last_of(s)) < prod(t),
            decreases rank - k,
        {
            proof {
                lemma_partial_bounds(s, t, k as int);
                let tk = t.skip(k as int);
                assert(tk.skip(1) =~= t.skip(k + 1));
                assert(last_of(s).skip(k as int).skip(1) =~= last_of(s).skip(k + 1));
                assert(strides@[k as int] == prod(t.skip(k + 1)));
                lemma_partial_bounds(s, t, k + 1);
            }
            let pos: usize = self.shape.0[k] - 1;
            let stride = strides[k];
            coord.push(pos);
            distance.push((target_shape.0[k] - self.shape.0[k]) * stride);
            target = target + pos * stride;
            k = k + 1;
        }
        let mut original: usize = start_len;
        let ghost mut c: Seq<int> = last_of(s);
        proof {
            assert(t.skip(rank as int) =~= Seq::<usize>::empty());
            assert(target == flat(t, last_of(s)));
            assert forall|q: int| 0 <= q < len implies #[trigger] self.data@[q] == spread(
                data0,
                s,
                t,
                zero,
                start_len as int,
                q,
            ) by {
                let cq = coords(t, q);
                if in_bounds(s, cq) {
                    lemma_flat_bound(s, cq);
                }
            }
        }
        loop
            invariant_except_break
                1 <= original <= start_len,
                target == flat(t, c),
                original - 1 == flat(s, c),
                in_bounds(s, c),
                coord@.len() == rank,
                forall|i: int| 0 <= i < rank ==> #[trigger] coord@[i] == c[i],
                forall|q: int|
                    0 <= q < len ==> #[trigger] self.data@[q] == spread(
                        data0,
                        s,
                        t,
                        zero,
                        original as int,
                        q,
                    ),
            invariant
                rank == s.len(),
                rank == t.len(),
                self.shape@ == s,
                target_shape@ == t,
                self.og_shape@ == old(self).og_shape@,
                nonzero(s),
                forall|i: int| 0 <= i < t.len() ==> #[trigger] s[i] <= t[i],
                len == prod(t),
                len == self.data@.len(),
                start_len == prod(s),
                start_len == data0.len(),
                distance@.len() == rank,
                forall|i: int|
                    0 <= i < rank ==> #[trigger] distance@[i] == (t[i] - s[i]) * prod(
                        t.skip(i + 1),
                    ),
            ensures
                forall|q: int|
                    0 <= q < len ==> #[trigger] self.data@[q] == spread(
                        data0,
                        s,
                        t,
                        zero,
                        0,
                        q,
                    ),
            decreases original,
        {
            original = original - 1;
            proof {
                lemma_coords_flat(s, c);
                lemma_moved(s, t, original as int);
            }
            let a = self.data[original];
            let b = self.data[target];
            let ghost before = self.data@;
            self.data.set(original, b);
            self.data.set(target, a);
            proof {
                lemma_swap_step(data0, s, t, zero, original as int, before, self.data@);
            }
            if original == 0 {
                break;
            }
            let ghost c0 = c;
            let ghost target0 = target;
            let mut pos: usize = rank;
            let mut done = false;
            proof {
                lemma_gap_end(s, t);
                assert(s.skip(rank as int) =~= Seq::<usize>::empty());
            }
            while pos > 0 && !done
                invariant
                    pos <= rank,
                    rank == s.len(),
                    rank == t.len(),
                    self.shape@ == s,
                    nonzero(s),
                    forall|i: int| 0 <= i < t.len() ==> #[trigger] s[i] <= t[i],
                    in_bounds(s, c0),
                    coord@.len() == rank,
                    distance@.len() == rank,
                    forall|i: int|
                        0 <= i < rank ==> #[trigger] distance@[i] == (t[i] - s[i]) * prod(
                            t.skip(i + 1),
                        ),
                    target0 == flat(t, c0),
                    original == flat(s, c0),
                    original > 0,
                    !done ==> {
                        &&& forall|i: int| pos <= i < rank ==> #[trigger] c0[i] == 0
                        &&& forall|i: int| pos <= i < rank ==> #[trigger] coord@[i] == s[i] - 1
                        &&& forall|i: int| 0 <= i < pos ==> #[trigger] coord@[i] == c0[i]
                        &&& target == target0 - gap(s.skip(pos as int), t.skip(pos as int))
                    },
                    done ==> {
                        &&& pos < rank
                        &&& c0[pos as int] > 0
                        &&& forall|i: int| pos < i < rank ==> #[trigger] c0[i] == 0
                        &&& forall|i: int|
                            0 <= i < rank ==> #[trigger] coord@[i] == pred(s, c0, pos as int)[i]
                        &&& target == flat(t, pred(s, c0, pos as int))
                    },
                decreases pos, (if done { 0int } else { 1int }),
            {
                pos = pos - 1;
                proof {
                    let p = pos as int;
                    assert(s.skip(p).skip(1) =~= s.skip(p + 1));
                    assert(t.skip(p).skip(1) =~= t.skip(p + 1));
                    assert(coord@[p] == c0[p]);
                    assert(distance@[p] == (t[p] - s[p]) * prod(t.skip(p + 1)));
                    lemma_pred_room(s, t, c0, p);
                }
                if coord[pos] == 0 {
                    coord.set(pos, self.shape.0[pos] - 1);
                    target = target - distance[pos];
                } else {
                    let x = coord[pos];
                    coord.set(pos, x - 1);
                    proof {
                        lemma_pred(s, t, c0, pos as int);
                    }
                    target = target - 1;
                    done = true;
                }
            }
            proof {
                if !done {
                    lemma_first(s, c0);
                    assert(false);
                }
                c = pred(s, c0, pos as int);
                lemma_pred(s, s, c0, pos as int);
                lemma_gap_self(s.skip(pos + 1));
                assert(in_bounds(s, c)) by {
                    assert forall|i: int| 0 <= i < s.len() implies 0 <= #[trigger] c[i] < s[i] by {
                        assert(0 <= c0[i] < s[i]);
                        assert(s[i] > 0);
                    }
                }
            }
        }
        proof {
            assert(self.data@ =~= padded(data0, s, t, zero)) by {
                assert forall|q: int| 0 <= q < len implies self.data@[q] == padded_at(
                    data0,
                    s,
                    t,
                    zero,
                    q,
                ) by {
                    assert(self.data@[q] == spread(data0, s, t, zero, 0, q));
                    let cq = coords(t, q);
                    if in_bounds(s, cq) {
                        lemma_flat_bound(s, cq);
                    }
                }
            }
        }
        self.shape = target_shape;
    }
}

proof fn lemma_gap_end(s: Seq<usize>, t: Seq<usize>)
    requires
        s.len() == t.len(),
    ensures
        gap(s.skip(s.len() as int), t.skip(s.len() as int)) == 0,
{
}

/// The partial place of the last position stays below the number of positions.
proof fn lemma_partial_bounds(s: Seq<usize>, t: Seq<usize>, k: int)
    requires
        s.len() == t.len(),
        nonzero(s),
        forall|i: int| 0 <= i < t.len() ==> #[trigger] s[i] <= t[i],
        0 <= k <= t.len(),
    ensures
        0 <= flat(t.skip(k), last_of(s).skip(k)) < prod(t.skip(k)),
        prod(t.skip(k)) <= prod(t),
        k < t.len() ==> {
            &&& 0 <= (s[k] - 1) * prod(t.skip(k + 1)) <= flat(t.skip(k), last_of(s).skip(k))
            &&& 0 <= (t[k] - s[k]) * prod(t.skip(k + 1)) <= prod(t.skip(k))
        },
{
    assert(nonzero(t)) by {
        assert forall|i: int| 0 <= i < t.len() implies #[trigger] t[i] > 0 by {
            assert(s[i] <= t[i] && s[i] > 0);
        }
    }
    lemma_prod_suffix(t, k);
    let c = last_of(s).skip(k);
    let tk = t.skip(k);
    assert(in_bounds(tk, c)) by {
        assert forall|i: int| 0 <= i < tk.len() implies 0 <= #[trigger] c[i] < tk[i] by {
            assert(s[i + k] <= t[i + k] && s[i + k] > 0);
        }
    }
    lemma_flat_bound(tk, c);
    if k < t.len() {
        assert(tk.skip(1) =~= t.skip(k + 1));
        assert(c.skip(1) =~= last_of(s).skip(k + 1));
        let d = c.skip(1);
        let tn = t.skip(k + 1);
        assert(in_bounds(tn, d)) by {
            assert forall|i: int| 0 <= i < tn.len() implies 0 <= #[trigger] d[i] < tn[i] by {
                assert(s[i + k + 1] <= t[i + k + 1] && s[i + k + 1] > 0);
            }
        }
        lemma_flat_bound(tn, d);
        let (a, b, r) = (s[k] as int, t[k] as int, prod(tn) as int);
        assert(0 <= (a - 1) * r && 0 <= (b - a) * r <= b * r) by (nonlinear_arith)
            requires
                1 <= a <= b,
                r >= 0,
        ;
        assert(c[0] == a - 1);
    }
}

/// While digits are borrowed the place does not drop below zero.
proof fn lemma_pred_room(s: Seq<usize>, t: Seq<usize>, c: Seq<int>, p: int)
    requires
        s.len() == t.len(),
        in_bounds(s, c),
        nonzero(s),
        forall|i: int| 0 <= i < t.len() ==> #[trigger] s[i] <= t[i],
        0 <= p < s.len(),
        forall|i: int| p < i < s.len() ==> #[trigger] c[i] == 0,
        flat(s, c) > 0,
    ensures
        c[p] > 0 ==> flat(t, c) >= 1 + gap(s.skip(p + 1), t.skip(p + 1)),
        c[p] == 0 ==> flat(t, c) >= (t[p] - s[p]) * prod(t.skip(p + 1)) + gap(
            s.skip(p + 1),
            t.skip(p + 1),
        ),
        gap(s.skip(p + 1), t.skip(p + 1)) >= 0,
        (t[p] - s[p]) * prod(t.skip(p + 1)) >= 0,
        gap(s.skip(p), t.skip(p)) == (t[p] - s[p]) * prod(t.skip(p + 1)) + gap(
            s.skip(p + 1),
            t.skip(p + 1),
        ),
{
    assert(s.skip(p).skip(1) =~= s.skip(p + 1));
    assert(t.skip(p).skip(1) =~= t.skip(p + 1));
    lemma_gap_nonneg(s.skip(p + 1), t.skip(p + 1));
    lemma_gap_nonneg(s.skip(p), t.skip(p));
    assert((t[p] - s[p]) * prod(t.skip(p + 1)) >= 0) by (nonlinear_arith)
        requires
            t[p] >= s[p],
            prod(t.skip(p + 1)) >= 0,
    ;
    // the first digit that is not zero, from the back
    let k = last_digit(c, p);
    lemma_last_digit(s, c, p);
    lemma_pred(s, t, c, k);
    let d = pred(s, c, k);
    assert(in_bounds(t, d)) by {
        assert forall|i: int| 0 <= i < t.len() implies 0 <= #[trigger] d[i] < t[i] by {
            assert(0 <= c[i] < s[i]);
            assert(s[i] <= t[i]);
        }
    }
    lemma_flat_bound(t, d);
    if c[p] == 0 {
        lemma_gap_suffix(s, t, k + 1, p);
    }
}

/// The last digit up to `p` that is not zero, or -1.
spec fn last_digit(c: Seq<int>, p: int) -> int
    decreases p + 1,
{
    if p < 0 || c[p] != 0 {
        p
    } else {
        last_digit(c, p - 1)
    }
}

proof fn lemma_last_digit(s: Seq<usize>, c: Seq<int>, p: int)
    requires
        in_bounds(s, c),
        -1 <= p < s.len(),
        forall|i: int| p < i < s.len() ==> #[trigger] c[i] == 0,
        flat(s, c) > 0,
    ensures
        0 <= last_digit(c, p) <= p,
        c[last_digit(c, p)] > 0,
        forall|i: int| last_digit(c, p) < i < s.len() ==> #[trigger] c[i] == 0,
        p >= 0 && c[p] > 0 ==> last_digit(c, p) == p,
    decreases p + 1,
{
    if p < 0 {
        lemma_first(s, c);
    } else {
        assert(0 <= c[p] < s[p]);
        if c[p] == 0 {
            lemma_last_digit(s, c, p - 1);
        }
    }
}

proof fn lemma_gap_nonneg(s: Seq<usize>, t: Seq<usize>)
    requires
        s.len() == t.len(),
        forall|i: int| 0 <= i < t.len() ==> #[trigger] s[i] <= t[i],
    ensures
        gap(s, t) >= 0,
    decreases s.len(),
{
    if s.len() > 0 {
        assert forall|i: int| 0 <= i < t.skip(1).len() implies #[trigger] s.skip(1)[i] <= t.skip(
            1,
        )[i] by {
            assert(s[i + 1] <= t[i + 1]);
        }
        lemma_gap_nonneg(s.skip(1), t.skip(1));
        assert((t[0] - s[0]) * prod(t.skip(1)) >= 0) by (nonlinear_arith)
            requires
                t[0] >= s[0],
                prod(t.skip(1)) >= 0,
        ;
    }
}

proof fn lemma_gap_suffix(s: Seq<usize>, t: Seq<usize>, a: int, b: int)
    requires
        s.len() == t.len(),
        forall|i: int| 0 <= i < t.len() ==> #[trigger] s[i] <= t[i],
        0 <= a <= b <= s.len(),
    ensures
        gap(s.skip(a), t.skip(a)) >= gap(s.skip(b), t.skip(b)),
    decreases b - a,
{
    if a < b {
        lemma_gap_suffix(s, t, a + 1, b);
        assert(s.skip(a).skip(1) =~= s.skip(a + 1));
        assert(t.skip(a).skip(1) =~= t.skip(a + 1));
        assert((t[a] - s[a]) * prod(t.skip(a + 1)) >= 0) by (nonlinear_arith)
            requires
                t[a] >= s[a],
                prod(t.skip(a + 1)) >= 0,
        ;
    }
}

/// Moving the entry at place `o` keeps the data spread out from there on.
proof fn lemma_swap_step<T>(
    data0: Seq<T>,
    s: Seq<usize>,
    t: Seq<usize>,
    zero: T,
    o: int,
    before: Seq<T>,
    after: Seq<T>,
)
    requires
        s.len() == t.len(),
        forall|i: int| 0 <= i < s.len() ==> #[trigger] s[i] <= t[i],
        0 <= o < prod(s),
        data0.len() == prod(s),
        before.len() == prod(t),
        forall|q: int|
            0 <= q < prod(t) ==> #[trigger] before[q] == spread(data0, s, t, zero, o + 1, q),
        after == before.update(o, before[moved(s, t, o)]).update(moved(s, t, o), before[o]),
    ensures
        forall|q: int|
            0 <= q < prod(t) ==> #[trigger] after[q] == spread(data0, s, t, zero, o, q),
{
    let m = moved(s, t, o);
    lemma_moved(s, t, o);
    lemma_flat_coords(s, o);
    assert forall|q: int| 0 <= q < prod(t) implies #[trigger] after[q] == spread(
        data0,
        s,
        t,
        zero,
        o,
        q,
    ) by {
        let c = coords(t, q);
        if in_bounds(s, c) {
            let f = flat(s, c);
            lemma_flat_bound(s, c);
            lemma_coords_flat(s, c);
            lemma_flat_coords(t, q);
            assert(moved(s, t, f) == q);
            if f > o {
                lemma_moved_order(s, t, o, f);
            } else if f < o {
                lemma_moved_order(s, t, f, o);
            }
        }
        // what stands at place o before the move
        let co = coords(t, o);
        if in_bounds(s, co) {
            let fo = flat(s, co);
            lemma_flat_bound(s, co);
            lemma_coords_flat(s, co);
            lemma_flat_coords(t, o);
            assert(moved(s, t, fo) == o);
            lemma_moved(s, t, fo);
        }
        assert(before[o] == spread(data0, s, t, zero, o + 1, o));
        assert(before[m] == spread(data0, s, t, zero, o + 1, m));
        assert(before[q] == spread(data0, s, t, zero, o + 1, q));
        if q == m {
            assert(c == coords(s, o));
        }
    }
}

} // verus!
