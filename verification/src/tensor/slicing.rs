//! Slices of tensors, and putting tensors together.
use crate::arith::lemma_grid_split;
use crate::shape::{lemma_prod2, lemma_prod3, lemma_prod_append, lemma_prod_of_rank, prod, Shape};
use crate::tensor::fft_conv::{chunk, chunks, lemma_concat_rows};
use crate::tensor::{concat_rows, copy_slice, no_shape, Tensor, TensorError};
use vstd::prelude::*;
use vstd::slice::slice_subrange;

verus! {

impl<T: Copy> Tensor<T> {
    /// The part `start..end` along the first of three dimensions.
    pub fn slice_3d(&self, start: usize, end: usize) -> (r: Self)
        requires
            self.wf(),
            self.shape@.len() == 3,
            start < self.shape@[0],
            start <= end <= self.shape@[0],
        ensures
            r.wf(),
            r.shape@ == seq![(end - start) as usize, self.shape@[1], self.shape@[2]],
            r.og_shape@ == seq![0usize],
            r.data@ == self.data@.subrange(
                (self.shape@[1] * self.shape@[2]) * start,
                (self.shape@[1] * self.shape@[2]) * end,
            ),
    {
        let (a, b, c) = (self.shape.0[0], self.shape.0[1], self.shape.0[2]);
        proof {
            lemma_prod_of_rank(self.shape@);
            assert(self.data@.len() == self.data.len());
            let z = b * c;
            assert(z >= 0) by (nonlinear_arith)
                requires
                    z == b * c,
                    b >= 0,
                    c >= 0,
            ;
            assert(0 <= z <= a * z && 0 <= z * start <= z * end <= a * z && z * end - z * start == (
            end - start) * z) by (nonlinear_arith)
                requires
                    z >= 0,
                    0 <= start <= end <= a,
                    a >= 1,
            ;
        }
        let blocks: usize = b * c;
        let part = slice_subrange(self.data.as_slice(), blocks * start, blocks * end);
        let data = copy_slice(part);
        let slices: usize = end - start;
        let dims: Vec<usize> = vec![slices, b, c];
        proof {
            assert(dims@ =~= seq![(end - start) as usize, b, c]);
            lemma_prod3((end - start) as usize, b, c);
        }
        Tensor { data, shape: Shape(dims), og_shape: no_shape() }
    }

    /// The rows `dim2_start..dim2_end` of a matrix.
    pub fn slice_2d(&self, dim2_start: usize, dim2_end: usize) -> (r: Self)
        requires
            self.wf(),
            self.shape@.len() == 2,
            dim2_start <= dim2_end,
            dim2_end * self.shape@[1] <= self.data@.len(),
        ensures
            r.wf(),
            r.shape@ == seq![(dim2_end - dim2_start) as usize, self.shape@[1]],
            r.og_shape@ == seq![0usize],
            r.data@ == self.data@.subrange(
                dim2_start * self.shape@[1],
                dim2_end * self.shape@[1],
            ),
    {
        let cols = self.shape.0[1];
        proof {
            assert(self.data@.len() == self.data.len());
            assert(0 <= dim2_start * cols <= dim2_end * cols && dim2_end * cols - dim2_start * cols
                == (dim2_end - dim2_start) * cols) by (nonlinear_arith)
                requires
                    0 <= dim2_start <= dim2_end,
                    cols >= 0,
            ;
        }
        let part = slice_subrange(self.data.as_slice(), dim2_start * cols, dim2_end * cols);
        let data = copy_slice(part);
        let rows: usize = dim2_end - dim2_start;
        let dims: Vec<usize> = vec![rows, cols];
        proof {
            assert(dims@ =~= seq![(dim2_end - dim2_start) as usize, cols]);
            lemma_prod2((dim2_end - dim2_start) as usize, cols);
        }
        Tensor { data, shape: Shape(dims), og_shape: no_shape() }
    }
}

/// The shape of the slices along dimension `dim`: the dimensions behind it, or the whole shape
/// from the last one on.
pub open spec fn slice_shape(s: Seq<usize>, dim: int) -> Seq<usize> {
    if dim < s.len() - 1 {
        s.skip(dim + 1)
    } else {
        s
    }
}

/// The slices along dimension `dim` have the size of their shape, there is one for every position in the dimensions up
/// to `dim`, or a single one from the last dimension on, and one behind the other they are the tensor.
pub proof fn law_slices<T>(data: Seq<T>, s: Seq<usize>, dim: int)
    requires
        data.len() == prod(s),
        data.len() > 0,
        dim >= 0,
    ensures
        ({
            let stride = prod(slice_shape(s, dim)) as int;
            let n = chunks(data.len() as int, stride);
            &&& n == (if dim < s.len() - 1 {
                prod(s.take(dim + 1)) as int
            } else {
                1
            })
            &&& forall|i: int| 0 <= i < n ==> (#[trigger] chunk(data, stride, i)).len() == stride
            &&& concat_rows(Seq::new(n as nat, |i: int| chunk(data, stride, i))) == data
        }),
{
    let stride = prod(slice_shape(s, dim)) as int;
    let n: int = if dim < s.len() - 1 {
        prod(s.take(dim + 1)) as int
    } else {
        1
    };
    let len = data.len() as int;
    assert(len == n * stride) by {
        if dim < s.len() - 1 {
            assert(s =~= s.take(dim + 1) + s.skip(dim + 1));
            lemma_prod_append(s.take(dim + 1), s.skip(dim + 1));
        }
    }
    assert(stride > 0 && n > 0) by (nonlinear_arith)
        requires
            len == n * stride,
            len > 0,
            n >= 0,
            stride >= 0,
    ;
    assert((len + stride - 1) / stride == n) by {
        assert(stride * n == n * stride) by (nonlinear_arith);
        vstd::arithmetic::div_mod::lemma_fundamental_div_mod_converse(len + stride - 1, stride, n, stride - 1);
    }
    let rows = Seq::new(n as nat, |i: int| chunk(data, stride, i));
    assert forall|i: int| 0 <= i < n implies (#[trigger] chunk(data, stride, i)).len() == stride && chunk(
        data,
        stride,
        i,
    ) == data.subrange(i * stride, i * stride + stride) by {
        assert(0 <= i * stride && i * stride + stride <= n * stride && (i + 1) * stride == i * stride + stride)
            by (nonlinear_arith)
            requires
                0 <= i < n,
                stride > 0,
        ;
    }
    assert forall|i: int| 0 <= i < rows.len() implies (#[trigger] rows[i]).len() == stride by {
        assert(chunk(data, stride, i).len() == stride);
    }
    lemma_concat_rows(rows, stride as nat);
    let all = concat_rows(rows);
    assert forall|p: int| 0 <= p < len implies all[p] == data[p] by {
        lemma_grid_split(p, n, stride);
        let (i, k) = (p / stride, p % stride);
        assert(all[i * (stride as nat) + k] == rows[i][k]);
        assert(chunk(data, stride, i) == data.subrange(i * stride, i * stride + stride));
        assert(0 <= i * stride && i * stride + stride <= n * stride) by (nonlinear_arith)
            requires
                0 <= i < n,
                stride > 0,
        ;
        assert(i * (stride as nat) + k == p);
    }
    assert(all =~= data);
}

impl<T> Tensor<T> {
    /// The slices of the last dimension.
    pub fn slice_last_dim(&self) -> (r: Vec<&[T]>)
        requires
            self.shape@.len() >= 2,
            0 < prod(slice_shape(self.shape@, self.shape@.len() - 2)) <= usize::MAX,
        ensures
            ({
                let stride = prod(slice_shape(self.shape@, self.shape@.len() - 2)) as int;
                &&& r@.len() == chunks(self.data@.len() as int, stride)
                &&& forall|i: int|
                    0 <= i < r@.len() ==> (#[trigger] r@[i])@ == chunk(self.data@, stride, i)
            }),
    {
        let (slices, _shape) = self.slice_on_dim(self.shape.rank() - 2);
        slices
    }

    /// The slices of the space that dimension `dim` addresses, and their shape. From the last dimension on
    /// this is the whole tensor.
    pub fn slice_on_dim(&self, dim: usize) -> (r: (Vec<&[T]>, Shape))
        requires
            0 < prod(slice_shape(self.shape@, dim as int)) <= usize::MAX,
        ensures
            r.1@ == slice_shape(self.shape@, dim as int),
            ({
                let stride = prod(slice_shape(self.shape@, dim as int)) as int;
                &&& r.0@.len() == chunks(self.data@.len() as int, stride)
                &&& forall|i: int|
                    0 <= i < r.0@.len() ==> (#[trigger] r.0@[i])@ == chunk(self.data@, stride, i)
            }),
    {
        let rank = self.shape.rank();
        let shape = if rank > 0 && dim < rank - 1 {
            self.shape.slice(dim + 1, rank)
        } else {
            self.shape.clone()
        };
        proof {
            assert(shape@ =~= slice_shape(self.shape@, dim as int));
        }
        let stride = shape.product();
        let total = self.data.len();
        let mut slices: Vec<&[T]> = Vec::new();
        let mut start: usize = 0;
        let ghost mut j: int = 0;
        proof {
            assert(0 * stride == 0);
        }
        while start < total
            invariant
                stride > 0,
                total == self.data@.len(),
                0 <= j,
                start == (if j * stride <= total {
                    j * stride
                } else {
                    total as int
                }),
                j > 0 ==> (j - 1) * stride < total,
                slices@.len() == j,
                forall|i: int|
                    0 <= i < j ==> (#[trigger] slices@[i])@ == chunk(
                        self.data@,
                        stride as int,
                        i,
                    ),
            decreases total - start,
        {
            let end: usize = if total - start < stride {
                total
            } else {
                start + stride
            };
            proof {
                assert((j + 1) * stride == j * stride + stride) by (nonlinear_arith);
            }
            slices.push(slice_subrange(self.data.as_slice(), start, end));
            proof {
                j = j + 1;
            }
            start = end;
        }
        proof {
            let q = (total + stride - 1) as int;
            vstd::arithmetic::mul::lemma_mul_is_commutative(j, stride as int);
            assert((j - 1) * stride == j * stride - stride) by (nonlinear_arith);
            vstd::arithmetic::div_mod::lemma_fundamental_div_mod_converse(
                q,
                stride as int,
                j,
                q - j * stride,
            );
        }
        (slices, shape)
    }

    /// `other` can be put behind a tensor of shape `s`: it has the same dimensions but the first,
    /// or it lacks the first.
    pub open spec fn stacks_on(other: &Tensor<T>, s: Seq<usize>) -> bool {
        &&& s.len() > 0
        &&& other.wf()
        &&& (other.shape@.len() == s.len() && other.shape@.skip(1) == s.skip(1)) || other.shape@
            == s.skip(1)
    }

    /// How many slices along the first dimension of shape `s` the tensor adds.
    pub open spec fn stacked_slices(other: &Tensor<T>, s: Seq<usize>) -> nat {
        if other.shape@.len() < s.len() {
            1
        } else {
            other.shape@[0] as nat
        }
    }

    /// Puts `other` behind this tensor along the first dimension.
    pub fn concat(&mut self, other: Self)
        requires
            old(self).wf(),
            Self::stacks_on(&other, old(self).shape@),
            old(self).shape@[0] + Self::stacked_slices(&other, old(self).shape@) <= usize::MAX,
            old(self).data@.len() + other.data@.len() <= usize::MAX,
        ensures
            final(self).wf(),
            final(self).data@ == old(self).data@ + other.data@,
            final(self).shape@ == old(self).shape@.update(
                0,
                (old(self).shape@[0] + Self::stacked_slices(&other, old(self).shape@)) as usize,
            ),
            final(self).og_shape@ == old(self).og_shape@,
    {
        let ghost s = self.shape@;
        let added: usize = if other.shape.rank() < self.shape.rank() {
            1
        } else {
            other.shape.0[0]
        };
        let first: usize = self.shape.0[0] + added;
        let mut dims = crate::shape::usize_vec(&self.shape.0);
        dims.set(0, first);
        proof {
            let rest = prod(s.skip(1));
            assert(dims@ =~= s.update(0, first));
            assert(dims@.skip(1) =~= s.skip(1));
            if other.shape@.len() < s.len() {
                assert(other.shape@ == s.skip(1));
                assert(1 * rest == rest);
            } else {
                assert(prod(other.shape@) == other.shape@[0] as nat * rest);
            }
            let (a, b) = (s[0] as nat, added as nat);
            assert((a + b) * rest == a * rest + b * rest) by (nonlinear_arith);
        }
        let mut other = other;
        self.data.append(&mut other.data);
        self.shape = Shape(dims);
    }
}

/// The data of the tensors.
pub open spec fn datas<T>(ts: Seq<Tensor<T>>) -> Seq<Seq<T>> {
    ts.map_values(|t: Tensor<T>| t.data@)
}

/// The number of slices of shape `s` that the tensors from the second on add.
pub open spec fn added_slices<T>(ts: Seq<Tensor<T>>, s: Seq<usize>) -> nat
    decreases ts.len(),
{
    if ts.len() <= 1 {
        0
    } else {
        added_slices(ts.drop_last(), s) + Tensor::stacked_slices(&ts.last(), s)
    }
}

proof fn lemma_added_slices_monotone<T>(ts: Seq<Tensor<T>>, s: Seq<usize>, k: int)
    requires
        1 <= k <= ts.len(),
    ensures
        added_slices(ts.take(k), s) <= added_slices(ts, s),
    decreases ts.len() - k,
{
    if k < ts.len() {
        lemma_added_slices_monotone(ts, s, k + 1);
        assert(ts.take(k + 1).drop_last() =~= ts.take(k));
    } else {
        assert(ts.take(k) =~= ts);
    }
}

proof fn lemma_concat_rows_monotone<T>(rows: Seq<Seq<T>>, k: int)
    requires
        0 <= k <= rows.len(),
    ensures
        concat_rows(rows.take(k)).len() <= concat_rows(rows).len(),
    decreases rows.len() - k,
{
    if k < rows.len() {
        lemma_concat_rows_monotone(rows, k + 1);
        assert(rows.take(k + 1).drop_last() =~= rows.take(k));
    } else {
        assert(rows.take(k) =~= rows);
    }
}

impl<T> Tensor<T> {
    /// Puts all tensors behind one another along the first dimension.
    pub fn stack_all(tensors: Vec<Self>) -> (r: Result<Self, TensorError>)
        requires
            tensors@.len() > 0 ==> tensors@[0].wf(),
            forall|i: int|
                1 <= i < tensors@.len() ==> Self::stacks_on(
                    #[trigger] &tensors@[i],
                    tensors@[0].shape@,
                ),
            tensors@.len() > 1 ==> tensors@[0].shape@[0] + added_slices(
                tensors@,
                tensors@[0].shape@,
            ) <= usize::MAX,
            concat_rows(datas(tensors@)).len() <= usize::MAX,
        ensures
            match r {
                Ok(t) => {
                    &&& tensors@.len() > 0
                    &&& t.wf()
                    &&& t.data@ == concat_rows(datas(tensors@))
                    &&& t.og_shape@ == tensors@[0].og_shape@
                    &&& tensors@.len() == 1 ==> t.shape@ == tensors@[0].shape@
                    &&& tensors@.len() > 1 ==> t.shape@ == tensors@[0].shape@.update(
                        0,
                        (tensors@[0].shape@[0] + added_slices(
                            tensors@,
                            tensors@[0].shape@,
                        )) as usize,
                    )
                },
                Err(e) => tensors@.len() == 0 && e == TensorError::NothingToStack,
            },
    {
        let n = tensors.len();
        if n == 0 {
            return Err(TensorError::NothingToStack);
        }
        let ghost all = tensors@;
        let ghost s = all[0].shape@;
        let mut rest = tensors;
        let mut first = rest.remove(0);
        let mut i: usize = 1;
        proof {
            assert(datas(all).take(1).drop_last() =~= Seq::<Seq<T>>::empty());
            assert(datas(all).take(1).last() == all[0].data@);
            assert(concat_rows(Seq::<Seq<T>>::empty()) =~= Seq::<T>::empty());
            assert(first.data@ =~= concat_rows(datas(all).take(1)));
            assert(all.take(1).len() == 1);
            if n > 1 {
                assert(Self::stacks_on(&all[1], s));
                assert(first.shape@ =~= s.update(
                    0,
                    (s[0] + added_slices(all.take(1), s)) as usize,
                ));
            }
        }
        while i < n
            invariant
                1 <= i <= n,
                n == all.len(),
                s == all[0].shape@,
                rest@ =~= all.skip(i as int),
                forall|k: int| 1 <= k < n ==> Self::stacks_on(#[trigger] &all[k], s),
                n > 1 ==> s[0] + added_slices(all, s) <= usize::MAX,
                concat_rows(datas(all)).len() <= usize::MAX,
                first.wf(),
                first.data@ == concat_rows(datas(all).take(i as int)),
                first.og_shape@ == all[0].og_shape@,
                i == 1 ==> first.shape@ == s,
                n > 1 ==> first.shape@ == s.update(
                    0,
                    (s[0] + added_slices(all.take(i as int), s)) as usize,
                ),
            decreases n - i,
        {
            let t = rest.remove(0);
            proof {
                assert(t == all[i as int]);
                assert(Self::stacks_on(&all[i as int], s));
                lemma_added_slices_monotone(all, s, i + 1);
                lemma_added_slices_monotone(all, s, i as int);
                lemma_concat_rows_monotone(datas(all), i + 1);
                assert(all.take(i + 1).drop_last() =~= all.take(i as int));
                assert(all.take(i + 1).last() == t);
                assert(datas(all).take(i + 1).drop_last() =~= datas(all).take(i as int));
                assert(datas(all).take(i + 1).last() == t.data@);
                assert(first.shape@.skip(1) =~= s.skip(1));
            }
            first.concat(t);
            proof {
                assert(first.shape@ =~= s.update(
                    0,
                    (s[0] + added_slices(all.take(i + 1), s)) as usize,
                ));
            }
            i = i + 1;
        }
        proof {
            assert(datas(all).take(n as int) =~= datas(all));
            assert(all.take(n as int) =~= all);
        }
        Ok(first)
    }
}

/// A part of a tensor along its first dimension.
pub struct TensorSlice<'a, T> {
    pub data: &'a [T],
    pub shape: Shape,
}

impl<'a, T> TensorSlice<'a, T> {
    /// The whole tensor as a slice.
    pub fn from_tensor(value: &'a Tensor<T>) -> (r: Self)
        ensures
            r.data@ == value.data@,
            r.shape@ == value.shape@,
    {
        TensorSlice { data: value.data.as_slice(), shape: value.shape.clone() }
    }

    pub fn get_shape(&self) -> (r: Shape)
        ensures
            r@ == self.shape@,
    {
        self.shape.clone()
    }

    pub fn get_data(&self) -> (r: &[T])
        ensures
            r@ == self.data@,
    {
        self.data
    }

    /// The rows `dim2_start..dim2_end`.
    pub fn slice_over_first_dim(&self, dim2_start: usize, dim2_end: usize) -> (r: Self)
        requires
            self.shape@.len() >= 2,
            dim2_start <= dim2_end,
            dim2_end * self.shape@[1] <= self.data@.len(),
        ensures
            r.shape@ == self.shape@.update(0, (dim2_end - dim2_start) as usize),
            r.data@ == self.data@.subrange(
                dim2_start * self.shape@[1],
                dim2_end * self.shape@[1],
            ),
    {
        let cols = self.shape.0[1];
        let total = self.data.len();
        proof {
            assert(0 <= dim2_start * cols <= dim2_end * cols) by (nonlinear_arith)
                requires
                    0 <= dim2_start <= dim2_end,
                    cols >= 0,
            ;
        }
        let data = slice_subrange(self.data, dim2_start * cols, dim2_end * cols);
        let mut dims = crate::shape::usize_vec(&self.shape.0);
        dims.set(0, dim2_end - dim2_start);
        TensorSlice { data, shape: Shape(dims) }
    }
}

} // verus!
