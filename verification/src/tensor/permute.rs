//! Permuted and expanded tensors.
use crate::arith::{lemma_grid_bound, lemma_grid_digits};
use crate::shape::{
    coords, flat, in_bounds, lemma_flat_append, lemma_flat_bound, lemma_flat_coords, lemma_prod_append,
    lemma_prod_of_rank, lemma_prod_positive, nonzero, padded_dim, prod, Shape,
};
use crate::tensor::access::{idx3, lemma_flat3, lemma_idx3, lemma_idx4_parts, lemma_idx4_split};
use crate::tensor::{copy_slice, Tensor, TensorError};
use vstd::prelude::*;

verus! {

/// The three numbers are 0, 1 and 2 in some order.
pub open spec fn is_order3(o: Seq<usize>) -> bool {
    &&& o.len() == 3
    &&& o[0] < 3 && o[1] < 3 && o[2] < 3
    &&& o[0] != o[1] && o[0] != o[2] && o[1] != o[2]
}

/// One of three numbers.
pub open spec fn pick3(k: usize, a: int, b: int, c: int) -> int {
    if k == 0 {
        a
    } else if k == 1 {
        b
    } else {
        c
    }
}

/// `r` is `t` with its dimensions in another order: dimension `i` of `r` is dimension `o[i]` of `t`.
pub open spec fn is_permuted<T>(r: &Tensor<T>, t: &Tensor<T>, o: Seq<usize>) -> bool {
    &&& r.shape@ == o.map_values(|k: usize| t.shape@[k as int])
    &&& forall|i: int, j: int, k: int|
        0 <= i < t.shape@[0] && 0 <= j < t.shape@[1] && 0 <= k < t.shape@[2] ==> r.data@[idx3(
            r.shape@[1] as int,
            r.shape@[2] as int,
            pick3(o[0], i, j, k),
            pick3(o[1], i, j, k),
            pick3(o[2], i, j, k),
        )] == #[trigger] t.data@[idx3(t.shape@[1] as int, t.shape@[2] as int, i, j, k)]
}

/// Permuting by the inverse order gives the tensor back.
pub proof fn law_permute_back<T>(t: &Tensor<T>, r: &Tensor<T>, u: &Tensor<T>, o: Seq<usize>, q: Seq<usize>)
    requires
        t.wf(),
        u.wf(),
        t.shape@.len() == 3,
        is_order3(o),
        is_order3(q),
        forall|i: int| 0 <= i < 3 ==> o[#[trigger] q[i] as int] == i,
        is_permuted(r, t, o),
        is_permuted(u, r, q),
    ensures
        u.shape@ == t.shape@,
        u.data@ == t.data@,
{
    let s = t.shape@;
    assert(o[q[0] as int] == 0 && o[q[1] as int] == 1 && o[q[2] as int] == 2);
    assert(u.shape@ =~= s);
    lemma_prod_of_rank(s);
    assert forall|p: int| 0 <= p < t.data@.len() implies u.data@[p] == t.data@[p] by {
        let c = coords(s, p);
        lemma_flat_coords(s, p);
        assert(c =~= seq![c[0], c[1], c[2]]);
        lemma_flat3(s, c[0], c[1], c[2]);
        let (i, j, k) = (c[0], c[1], c[2]);
        assert(0 <= i < s[0] && 0 <= j < s[1] && 0 <= k < s[2]);
        let (x, y, z) = (pick3(o[0], i, j, k), pick3(o[1], i, j, k), pick3(o[2], i, j, k));
        assert(r.data@[idx3(r.shape@[1] as int, r.shape@[2] as int, x, y, z)] == t.data@[p]);
        assert(0 <= x < r.shape@[0] && 0 <= y < r.shape@[1] && 0 <= z < r.shape@[2]);
        assert(pick3(q[0], x, y, z) == i && pick3(q[1], x, y, z) == j && pick3(q[2], x, y, z) == k);
    }
    assert(u.data@ =~= t.data@);
}

impl<T: Copy> Tensor<T> {
    /// The tensor with its dimensions in another order: dimension `i` of the result is dimension
    /// `order[i]` of this one.
    pub fn permute3d(&self, order: &[usize]) -> (r: Self)
        requires
            self.wf(),
            self.shape@.len() == 3,
            is_order3(order@),
        ensures
            r.wf(),
            r.og_shape@ == self.shape@,
            is_permuted(&r, self, order@),
    {
        let (a, b, c) = (self.shape.0[0], self.shape.0[1], self.shape.0[2]);
        let (o0, o1, o2) = (order[0], order[1], order[2]);
        let new_shape = self.shape.permute(order);
        let (na, nb, nc) = (new_shape.0[0], new_shape.0[1], new_shape.0[2]);
        proof {
            lemma_prod_of_rank(self.shape@);
            lemma_prod_of_rank(new_shape@);
            assert(na == pick3(o0, a as int, b as int, c as int));
            assert(nb == pick3(o1, a as int, b as int, c as int));
            assert(nc == pick3(o2, a as int, b as int, c as int));
            assert(na * (nb * nc) == a * (b * c)) by {
                assert(a * (b * c) == a * (c * b)) by (nonlinear_arith);
                assert(a * (b * c) == b * (a * c)) by (nonlinear_arith);
                assert(a * (b * c) == b * (c * a)) by (nonlinear_arith);
                assert(a * (b * c) == c * (a * b)) by (nonlinear_arith);
                assert(a * (b * c) == c * (b * a)) by (nonlinear_arith);
            }
            assert(self.data@.len() == self.data.len());
        }
        let len = self.data.len();
        let plane: usize = if len == 0 {
            1
        } else {
            proof {
                assert(1 * (na * (nb * nc)) == na * (nb * nc));
                lemma_idx4_split(1, na as int, nb as int, nc as int, 0);
                assert(nb * nc <= na * (nb * nc)) by (nonlinear_arith)
                    requires
                        na * (nb * nc) > 0,
                        na >= 0,
                        nb * nc >= 0,
                ;
            }
            nb * nc
        };
        let mut data: Vec<T> = Vec::with_capacity(len);
        let mut p: usize = 0;
        while p < len
            invariant
                p <= len,
                len == self.data@.len(),
                len == na * (nb * nc),
                len == a * (b * c),
                len > 0 ==> plane == nb * nc,
                is_order3(seq![o0, o1, o2]),
                na == pick3(o0, a as int, b as int, c as int),
                nb == pick3(o1, a as int, b as int, c as int),
                nc == pick3(o2, a as int, b as int, c as int),
                data@.len() == p,
                forall|q: int|
                    0 <= q < p ==> #[trigger] data@[q] == self.data@[source3(
                        seq![o0, o1, o2],
                        b as int,
                        c as int,
                        q / (plane as int),
                        (q % (plane as int)) / (nc as int),
                        (q % (plane as int)) % (nc as int),
                    )],
            decreases len - p,
        {
            proof {
                assert(1 * (na * (nb * nc)) == na * (nb * nc));
                lemma_idx4_split(1, na as int, nb as int, nc as int, p as int);
                vstd::arithmetic::div_mod::lemma_small_mod(p as nat, len as nat);
            }
            let x = p / plane;
            let q = p % plane;
            let y = q / nc;
            let z = q % nc;
            let i = if o0 == 0 {
                x
            } else if o1 == 0 {
                y
            } else {
                z
            };
            let j = if o0 == 1 {
                x
            } else if o1 == 1 {
                y
            } else {
                z
            };
            let k = if o0 == 2 {
                x
            } else if o1 == 2 {
                y
            } else {
                z
            };
            proof {
                lemma_idx3(a as int, b as int, c as int, i as int, j as int, k as int);
                lemma_idx4_parts(
                    1,
                    a as int,
                    b as int,
                    c as int,
                    0,
                    i as int,
                    j as int,
                    k as int,
                );
            }
            data.push(self.data[i * (b * c) + (j * c + k)]);
            p = p + 1;
        }
        proof {
            assert forall|i: int, j: int, k: int|
                0 <= i < a && 0 <= j < b && 0 <= k < c implies data@[idx3(
                nb as int,
                nc as int,
                pick3(o0, i, j, k),
                pick3(o1, i, j, k),
                pick3(o2, i, j, k),
            )] == #[trigger] self.data@[idx3(b as int, c as int, i, j, k)] by {
                let (x, y, z) = (pick3(o0, i, j, k), pick3(o1, i, j, k), pick3(o2, i, j, k));
                lemma_idx3(na as int, nb as int, nc as int, x, y, z);
                lemma_grid_digits(x, y * nc + z, plane as int);
                lemma_grid_digits(y, z, nc as int);
            }
        }
        Tensor { data, shape: new_shape, og_shape: self.shape.clone() }
    }
}

/// The place that position `(x, y, z)` of the permuted tensor takes its entry from.
spec fn source3(o: Seq<usize>, b: int, c: int, x: int, y: int, z: int) -> int {
    idx3(
        b,
        c,
        if o[0] == 0 {
            x
        } else if o[1] == 0 {
            y
        } else {
            z
        },
        if o[0] == 1 {
            x
        } else if o[1] == 1 {
            y
        } else {
            z
        },
        if o[0] == 2 {
            x
        } else if o[1] == 2 {
            y
        } else {
            z
        },
    )
}

/// The shape `s` brought to rank `n` by dimensions of size one in front.
pub open spec fn padded_dims(s: Seq<usize>, n: nat) -> Seq<usize> {
    Seq::new(n, |i: int| padded_dim(s, n, i))
}

/// The dimension `d` can be expanded to `e`.
pub open spec fn expands_to(d: usize, e: usize) -> bool {
    e != 0 && (d == 1 || d == e)
}

/// A tensor of shape `s` can be expanded to the shape `es`.
pub open spec fn expandable(s: Seq<usize>, es: Seq<usize>) -> bool {
    &&& s.len() <= es.len()
    &&& forall|i: int|
        0 <= i < es.len() ==> expands_to(padded_dims(s, es.len())[i], #[trigger] es[i])
}

/// The position that an expanded position repeats: zero along the expanded dimensions.
pub open spec fn clamped(ps: Seq<usize>, c: Seq<int>) -> Seq<int> {
    Seq::new(
        c.len(),
        |i: int|
            if ps[i] == 1 {
                0
            } else {
                c[i]
            },
    )
}

/// The entry at place `p` of the data of shape `ps` expanded to the shape `es`.
pub open spec fn expanded_at<T>(data: Seq<T>, ps: Seq<usize>, es: Seq<usize>, p: int) -> T {
    data[flat(ps, clamped(ps, coords(es, p)))]
}

/// Each of the leading dimensions before `k` as in `ps`, the others as in `es`.
spec fn mixed(ps: Seq<usize>, es: Seq<usize>, k: int) -> Seq<usize> {
    ps.take(k) + es.skip(k)
}

/// The data is expanded from dimension `k` on.
spec fn expanded_from<T>(acc: Seq<T>, data: Seq<T>, ps: Seq<usize>, es: Seq<usize>, k: int) -> bool {
    &&& acc.len() == prod(mixed(ps, es, k))
    &&& forall|c: Seq<int>|
        in_bounds(mixed(ps, es, k), c) ==> #[trigger] acc[flat(mixed(ps, es, k), c)] == data[flat(
            ps,
            clamped(ps, c),
        )]
}

/// Each chunk of length `size` repeated `times` times.
fn repeat_chunks<T: Copy>(acc: &Vec<T>, size: usize, count: usize, times: usize) -> (r: Vec<T>)
    requires
        size > 0,
        acc@.len() == count * size,
    ensures
        r@.len() == (count * times) * size,
        forall|i: int, t: int, b: int|
            0 <= i < count && 0 <= t < times && 0 <= b < size ==> #[trigger] r@[(i * times + t)
                * size + b] == acc@[i * size + b],
{
    let mut r: Vec<T> = Vec::new();
    let mut i: usize = 0;
    let mut base: usize = 0;
    proof {
        assert(acc@.len() == acc.len());
        assert(0 * size == 0);
        assert((0 * times) * size == 0) by (nonlinear_arith);
    }
    while i < count
        invariant
            i <= count,
            size > 0,
            acc@.len() == count * size,
            acc@.len() <= usize::MAX,
            base == i * size,
            r@.len() == (i * times) * size,
            forall|a: int, t: int, b: int|
                0 <= a < i && 0 <= t < times && 0 <= b < size ==> #[trigger] r@[(a * times + t)
                    * size + b] == acc@[a * size + b],
        decreases count - i,
    {
        proof {
            assert((i + 1) * size == i * size + size) by (nonlinear_arith);
            assert((i + 1) * size <= count * size) by (nonlinear_arith)
                requires
                    i + 1 <= count,
                    size >= 0,
            ;
            assert((i * times + 0) * size == (i * times) * size);
        }
        let mut t: usize = 0;
        while t < times
            invariant
                i < count,
                t <= times,
                size > 0,
                acc@.len() == count * size,
                acc@.len() <= usize::MAX,
                base == i * size,
                base + size <= acc@.len(),
                r@.len() == (i * times + t) * size,
                forall|a: int, u: int, b: int|
                    (0 <= a < i && 0 <= u < times || a == i && 0 <= u < t) && 0 <= b < size
                        ==> #[trigger] r@[(a * times + u) * size + b] == acc@[a * size + b],
            decreases times - t,
        {
            let ghost before = r@;
            let mut b: usize = 0;
            while b < size
                invariant
                    b <= size,
                    base + size <= acc@.len(),
                    acc@.len() <= usize::MAX,
                    r@.len() == before.len() + b,
                    forall|q: int| 0 <= q < before.len() ==> #[trigger] r@[q] == before[q],
                    forall|q: int| 0 <= q < b ==> #[trigger] r@[before.len() + q] == acc@[base + q],
                decreases size - b,
            {
                r.push(acc[base + b]);
                b = b + 1;
            }
            proof {
                assert((i * times + (t + 1)) * size == (i * times + t) * size + size)
                    by (nonlinear_arith);
                assert forall|a: int, u: int, d: int|
                    (0 <= a < i && 0 <= u < times || a == i && 0 <= u < t + 1) && 0 <= d < size
                    implies #[trigger] r@[(a * times + u) * size + d] == acc@[a * size + d] by {
                    if a == i && u == t {
                        assert(r@[before.len() + d] == acc@[base + d]);
                    } else {
                        let (x, y) = (a * times + u, i * times + t);
                        if a < i {
                            assert(x < y) by (nonlinear_arith)
                                requires
                                    0 <= a < i,
                                    0 <= u < times,
                                    0 <= t,
                                    x == a * times + u,
                                    y == i * times + t,
                            ;
                        }
                        assert(0 <= a * times) by (nonlinear_arith)
                            requires
                                0 <= a,
                                0 <= times,
                        ;
                        lemma_grid_bound(x, y, d, size as int);
                        assert(r@[x * size + d] == before[x * size + d]);
                    }
                }
            }
            t = t + 1;
        }
        proof {
            assert(i * times + times == (i + 1) * times) by (nonlinear_arith);
        }
        base = base + size;
        i = i + 1;
    }
    r
}

impl<T: Copy> Tensor<T> {
    /// Repeats the tensor along dimensions of size one until it has the given shape. The shape may
    /// have further dimensions in front.
    pub fn expand(&self, expansion_shape: &Shape) -> (r: Result<Tensor<T>, TensorError>)
        requires
            self.wf(),
            expandable(self.shape@, expansion_shape@) ==> prod(expansion_shape@) <= usize::MAX,
        ensures
            ({
                let n = expansion_shape@.len();
                let ps = padded_dims(self.shape@, n);
                match r {
                    Ok(t) => {
                        &&& expandable(self.shape@, expansion_shape@)
                        &&& t.wf()
                        &&& t.shape@ == expansion_shape@
                        &&& t.og_shape@ == seq![0usize]
                        &&& forall|p: int|
                            0 <= p < t.data@.len() ==> #[trigger] t.data@[p] == expanded_at(
                                self.data@,
                                ps,
                                expansion_shape@,
                                p,
                            )
                    },
                    Err(TensorError::RankTooSmall) => n < self.shape@.len(),
                    Err(e) => {
                        &&& n >= self.shape@.len()
                        &&& exists|i: int|
                            {
                                &&& 0 <= i < n
                                &&& !expands_to(ps[i], #[trigger] expansion_shape@[i])
                                &&& forall|j: int|
                                    0 <= j < i ==> expands_to(ps[j], #[trigger] expansion_shape@[j])
                                &&& e == (if expansion_shape@[i] == 0 {
                                    TensorError::ZeroDimension
                                } else {
                                    TensorError::IncompatibleDimension
                                })
                            }
                    },
                }
            }),
    {
        let n = expansion_shape.rank();
        let rank = self.rank();
        if n < rank {
            return Err(TensorError::RankTooSmall);
        }
        let ghost es = expansion_shape@;
        let ghost ps = padded_dims(self.shape@, n as nat);
        let diff = n - rank;
        let mut padded: Vec<usize> = Vec::with_capacity(n);
        let mut i: usize = 0;
        while i < n
            invariant
                i <= n,
                n == es.len(),
                es == expansion_shape@,
                rank == self.shape@.len(),
                rank <= n,
                diff == n - rank,
                ps == padded_dims(self.shape@, n as nat),
                padded@.len() == i,
                forall|j: int| 0 <= j < i ==> #[trigger] padded@[j] == ps[j],
                forall|j: int| 0 <= j < i ==> expands_to(ps[j], #[trigger] es[j]),
            decreases n - i,
        {
            let d: usize = if i < diff {
                1
            } else {
                self.shape.0[i - diff]
            };
            let e = expansion_shape.0[i];
            proof {
                assert(d == ps[i as int]);
                assert(e == es[i as int]);
            }
            if e == 0 {
                proof {
                    assert(!expands_to(ps[i as int], es[i as int]));
                }
                return Err(TensorError::ZeroDimension);
            }
            if d != 1 && d != e {
                proof {
                    assert(!expands_to(ps[i as int], es[i as int]));
                }
                return Err(TensorError::IncompatibleDimension);
            }
            padded.push(d);
            i = i + 1;
        }
        let mut acc = copy_slice(&self.data);
        let mut chunk_size: usize = 1;
        let mut k: usize = n;
        proof {
            lemma_expand_start(self.data@, self.shape@, ps, es);
            assert(es.skip(n as int) =~= Seq::<usize>::empty());
            assert(expandable(self.shape@, es));
            assert(nonzero(es)) by {
                assert forall|q: int| 0 <= q < es.len() implies #[trigger] es[q] > 0 by {
                    assert(expands_to(ps[q], es[q]));
                }
            }
            assert forall|k: int| 0 <= k <= n implies #[trigger] prod(es.skip(k)) <= usize::MAX by {
                crate::shape::lemma_prod_suffix(es, k);
            }
        }
        while k > 0
            invariant
                k <= n,
                n == es.len(),
                n == ps.len(),
                es == expansion_shape@,
                padded@ =~= ps,
                forall|j: int| 0 <= j < n ==> expands_to(ps[j], #[trigger] es[j]),
                forall|k: int| 0 <= k <= n ==> #[trigger] prod(es.skip(k)) <= usize::MAX,
                chunk_size == prod(es.skip(k as int)),
                expanded_from(acc@, self.data@, ps, es, k as int),
            decreases k,
        {
            let ghost j = k - 1;
            proof {
                assert(expands_to(ps[j], es[j]));
                assert(es.skip(j).skip(1) =~= es.skip(k as int));
                assert(prod(es.skip(j)) <= usize::MAX);
                assert(prod(es.skip(j)) == es[j] as nat * chunk_size);
                assert(chunk_size * es[j] == es[j] as nat * chunk_size) by (nonlinear_arith);
                assert(nonzero(es.skip(k as int))) by {
                    assert forall|q: int| 0 <= q < es.skip(k as int).len() implies #[trigger] es.skip(
                        k as int,
                    )[q] > 0 by {
                        assert(expands_to(ps[q + k], es[q + k]));
                    }
                }
                lemma_prod_positive(es.skip(k as int));
            }
            k = k - 1;
            let exp_dim = expansion_shape.0[k];
            if padded[k] == exp_dim {
                proof {
                    assert(mixed(ps, es, j) =~= mixed(ps, es, j + 1));
                }
            } else {
                let ghost a = prod(ps.take(j));
                proof {
                    lemma_mixed_prod(ps, es, j);
                    assert(a * 1 == a);
                    assert(acc@.len() == a * chunk_size);
                    lemma_grid_digits(a as int, 0, chunk_size as int);
                    assert(acc@.len() == acc.len());
                }
                let count: usize = acc.len() / chunk_size;
                let ghost before = acc@;
                acc = repeat_chunks(&acc, chunk_size, count, exp_dim);
                proof {
                    lemma_expand_step(before, acc@, self.data@, ps, es, j);
                }
            }
            chunk_size = chunk_size * exp_dim;
        }
        proof {
            assert(mixed(ps, es, 0) =~= es);
            assert forall|p: int| 0 <= p < acc@.len() implies #[trigger] acc@[p] == expanded_at(
                self.data@,
                ps,
                es,
                p,
            ) by {
                lemma_flat_coords(es, p);
                let c = coords(es, p);
                assert(acc@[flat(mixed(ps, es, 0), c)] == self.data@[flat(ps, clamped(ps, c))]);
            }
        }
        Ok(Tensor::new(expansion_shape.clone(), acc))
    }
}

/// Dimensions of size one in front change nothing.
proof fn lemma_expand_start<T>(data: Seq<T>, s: Seq<usize>, ps: Seq<usize>, es: Seq<usize>)
    requires
        s.len() <= es.len(),
        ps == padded_dims(s, es.len()),
        data.len() == prod(s),
    ensures
        expanded_from(data, data, ps, es, es.len() as int),
        prod(ps) == prod(s),
{
    let n = es.len();
    let m = mixed(ps, es, n as int);
    assert(m =~= ps);
    lemma_ones_prod(s, n);
    assert forall|c: Seq<int>| in_bounds(m, c) implies #[trigger] data[flat(m, c)] == data[flat(
        ps,
        clamped(ps, c),
    )] by {
        assert(clamped(ps, c) =~= c);
    }
}

proof fn lemma_ones_prod(s: Seq<usize>, n: nat)
    requires
        s.len() <= n,
    ensures
        prod(padded_dims(s, n)) == prod(s),
    decreases n - s.len(),
{
    let ps = padded_dims(s, n);
    if n == s.len() {
        assert(ps =~= s);
    } else {
        let m = (n - 1) as nat;
        lemma_ones_prod(s, m);
        assert(ps.skip(1) =~= padded_dims(s, m));
        assert(1 * prod(s) == prod(s));
    }
}

/// The number of entries once the dimensions from `j + 1` on are expanded.
proof fn lemma_mixed_prod(ps: Seq<usize>, es: Seq<usize>, j: int)
    requires
        ps.len() == es.len(),
        0 <= j < ps.len(),
    ensures
        prod(mixed(ps, es, j + 1)) == (prod(ps.take(j)) * ps[j] as nat) * prod(es.skip(j + 1)),
        prod(mixed(ps, es, j)) == (prod(ps.take(j)) * es[j] as nat) * prod(es.skip(j + 1)),
{
    let a = ps.take(j);
    let b = es.skip(j + 1);
    assert(mixed(ps, es, j + 1) =~= (a + seq![ps[j]]) + b);
    assert(mixed(ps, es, j) =~= (a + seq![es[j]]) + b);
    lemma_prod_append(a + seq![ps[j]], b);
    lemma_prod_append(a, seq![ps[j]]);
    lemma_prod_append(a + seq![es[j]], b);
    lemma_prod_append(a, seq![es[j]]);
    crate::shape::lemma_prod1(ps[j]);
    crate::shape::lemma_prod1(es[j]);
}

/// Repeating the chunks expands one dimension more.
proof fn lemma_expand_step<T>(
    before: Seq<T>,
    after: Seq<T>,
    data: Seq<T>,
    ps: Seq<usize>,
    es: Seq<usize>,
    j: int,
)
    requires
        ps.len() == es.len(),
        0 <= j < ps.len(),
        ps[j] == 1,
        expanded_from(before, data, ps, es, j + 1),
        ({
            let a = prod(ps.take(j)) as int;
            let size = prod(es.skip(j + 1)) as int;
            let times = es[j] as int;
            &&& after.len() == (a * times) * size
            &&& forall|i: int, t: int, b: int|
                0 <= i < a && 0 <= t < times && 0 <= b < size ==> #[trigger] after[(i * times + t)
                    * size + b] == before[i * size + b]
        }),
    ensures
        expanded_from(after, data, ps, es, j),
{
    let front = ps.take(j);
    let back = es.skip(j + 1);
    let a = prod(front) as int;
    let size = prod(back) as int;
    let times = es[j] as int;
    lemma_mixed_prod(ps, es, j);
    let m0 = mixed(ps, es, j);
    let m1 = mixed(ps, es, j + 1);
    assert forall|c: Seq<int>| in_bounds(m0, c) implies #[trigger] after[flat(m0, c)] == data[flat(
        ps,
        clamped(ps, c),
    )] by {
        let cf = c.take(j);
        let cb = c.skip(j + 1);
        let t = c[j];
        let c1 = (cf + seq![0int]) + cb;
        assert(m0 =~= (front + seq![es[j]]) + back);
        assert(m1 =~= (front + seq![1usize]) + back);
        assert(c =~= (cf + seq![t]) + cb);
        lemma_flat_append(front + seq![es[j]], back, cf + seq![t], cb);
        lemma_flat_append(front, seq![es[j]], cf, seq![t]);
        lemma_flat_append(front + seq![1usize], back, cf + seq![0int], cb);
        lemma_flat_append(front, seq![1usize], cf, seq![0int]);
        lemma_flat1(es[j], t);
        lemma_flat1(1, 0);
        assert(in_bounds(front, cf)) by {
            assert forall|q: int| 0 <= q < front.len() implies 0 <= #[trigger] cf[q] < front[q] by {
                assert(0 <= c[q] < m0[q]);
            }
        }
        assert(in_bounds(back, cb)) by {
            assert forall|q: int| 0 <= q < back.len() implies 0 <= #[trigger] cb[q] < back[q] by {
                assert(0 <= c[q + j + 1] < m0[q + j + 1]);
            }
        }
        assert(0 <= c[j] < m0[j]);
        lemma_flat_bound(front, cf);
        lemma_flat_bound(back, cb);
        let i = flat(front, cf);
        let b = flat(back, cb);
        crate::shape::lemma_prod1(es[j]);
        crate::shape::lemma_prod1(1);
        assert(flat(m0, c) == (i * times + t) * size + b);
        assert(i * 1 == i) by (nonlinear_arith);
        assert(flat(m1, c1) == i * size + b);
        assert(in_bounds(m1, c1)) by {
            assert forall|q: int| 0 <= q < m1.len() implies 0 <= #[trigger] c1[q] < m1[q] by {
                if q != j {
                    assert(0 <= c[q] < m0[q]);
                }
            }
        }
        assert(before[flat(m1, c1)] == data[flat(ps, clamped(ps, c1))]);
        assert(clamped(ps, c1) =~= clamped(ps, c));
    }
}

proof fn lemma_flat1(d: usize, t: int)
    ensures
        flat(seq![d], seq![t]) == t,
{
    let s = seq![d];
    let c = seq![t];
    assert(s.skip(1) =~= Seq::<usize>::empty());
    assert(prod(Seq::<usize>::empty()) == 1);
    assert(flat(s, c) == c[0] * prod(s.skip(1)) + flat(s.skip(1), c.skip(1)));
}

} // verus!
