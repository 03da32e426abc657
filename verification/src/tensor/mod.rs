//! Tensors: data in row major order together with a shape.
pub mod access;
pub mod conv;
pub mod conv_laws;
pub mod elementwise;
pub mod extension;
pub mod fft_conv;
pub mod garbage;
pub mod laws;
pub mod linear;
pub mod pad;
pub mod permute;
pub mod pool;
pub mod random;
pub mod roundtrip;
pub mod slicing;

use crate::arith::{self, flog2};
use crate::field::{fint, to_field, GoldilocksExt2};
use crate::number::{greater_of, is_less, larger, lesser_of, smaller, Element, Number};
use crate::shape::{lemma_prod1, lemma_prod2, prod, Shape};
use vstd::prelude::*;

verus! {

/// A tensor.
#[derive(Debug)]
pub struct Tensor<T> {
    pub data: Vec<T>,
    pub shape: Shape,
    /// The shape before padding, for the filter of a convolution; `[0]` otherwise.
    pub og_shape: Shape,
}

/// What can be wrong with the arguments of a fallible operation on tensors.
#[derive(Debug, Clone, Copy, PartialEq, Eq, Structural)]
pub enum TensorError {
    /// The rows of a matrix do not all have the same number of entries.
    RaggedMatrix,
    /// The shape to expand to has too few dimensions.
    RankTooSmall,
    /// The shape to expand to has a dimension that is zero.
    ZeroDimension,
    /// A dimension other than one would have to change.
    IncompatibleDimension,
    /// There is no tensor to stack.
    NothingToStack,
}

/// A copy of the entries of a slice.
pub(crate) fn copy_slice<T: Copy>(s: &[T]) -> (r: Vec<T>)
    ensures
        r@ == s@,
{
    let mut r: Vec<T> = Vec::with_capacity(s.len());
    let mut i: usize = 0;
    while i < s.len()
        invariant
            i <= s.len(),
            r@ == s@.take(i as int),
        decreases s.len() - i,
    {
        r.push(s[i]);
        i = i + 1;
        proof {
            assert(s@.take(i as int) =~= s@.take(i - 1).push(s@[i - 1]));
        }
    }
    proof {
        assert(s@.take(s@.len() as int) =~= s@);
    }
    r
}

/// `n` copies of a value.
pub(crate) fn filled<T: Copy>(x: T, n: usize) -> (r: Vec<T>)
    ensures
        r@ == Seq::new(n as nat, |i: int| x),
{
    let mut r: Vec<T> = Vec::with_capacity(n);
    let mut i: usize = 0;
    while i < n
        invariant
            i <= n,
            r.len() == i,
            forall|j: int| 0 <= j < i ==> r@[j] == x,
        decreases n - i,
    {
        r.push(x);
        i = i + 1;
    }
    proof {
        assert(r@ =~= Seq::new(n as nat, |i: int| x));
    }
    r
}

/// The shape `[0]` of a tensor that is no padded filter.
pub(crate) fn no_shape() -> (r: Shape)
    ensures
        r@ == seq![0usize],
{
    Shape(vec![0])
}

impl<T> Tensor<T> {
    /// The data fills the shape.
    pub open spec fn wf(&self) -> bool {
        prod(self.shape@) == self.data@.len()
    }

    /// The tensor with the given shape and data.
    pub fn new(shape: Shape, data: Vec<T>) -> (r: Self)
        requires
            prod(shape@) == data@.len(),
        ensures
            r.wf(),
            r.data@ == data@,
            r.shape@ == shape@,
            r.og_shape@ == seq![0usize],
    {
        Tensor { data, shape, og_shape: no_shape() }
    }

    /// Does the tensor have no dimension?
    pub fn is_empty(&self) -> (r: bool)
        ensures
            r == (self.shape@.len() == 0),
    {
        self.shape.0.len() == 0
    }

    /// Is the tensor a vector, as such or as a matrix of one row?
    pub fn is_vector(&self) -> (r: bool)
        requires
            self.shape@.len() > 0,
        ensures
            r == (self.shape@.len() == 1 || (self.shape@.len() == 2 && self.shape@[0] == 1)),
    {
        self.shape.0.len() == 1 || (self.shape.0.len() == 2 && self.shape.0[0] == 1)
    }

    pub fn is_matrix(&self) -> (r: bool)
        requires
            self.shape@.len() > 0,
        ensures
            r == (self.shape@.len() == 2),
    {
        self.shape.0.len() == 2
    }

    pub fn is_convolution(&self) -> (r: bool)
        requires
            self.shape@.len() > 0,
        ensures
            r == (self.shape@.len() == 4),
    {
        self.shape.0.len() == 4
    }

    /// The number of rows of the tensor as a matrix.
    pub open spec fn spec_nrows_2d(&self) -> int {
        if self.shape@.len() == 2 {
            self.shape@[0] as int
        } else {
            self.shape@[0] * self.shape@[2] * self.shape@[2]
        }
    }

    /// The number of columns of the tensor as a matrix.
    pub open spec fn spec_ncols_2d(&self) -> int {
        if self.shape@.len() == 2 {
            self.shape@[1] as int
        } else {
            self.shape@[1] * self.shape@[2] * self.shape@[2]
        }
    }

    /// The number of rows of a matrix, or of the filter of a convolution as a matrix.
    pub fn nrows_2d(&self) -> (r: usize)
        requires
            self.shape@.len() == 2 || self.shape@.len() == 4,
            0 < self.spec_nrows_2d() <= usize::MAX,
        ensures
            r == self.spec_nrows_2d(),
    {
        if self.is_matrix() {
            self.shape.0[0]
        } else {
            proof {
                let (a, b) = (self.shape@[0] as int, self.shape@[2] as int);
                assert(a * b <= a * b * b) by (nonlinear_arith)
                    requires
                        a >= 0,
                        b >= 0,
                        a * b * b > 0,
                ;
            }
            self.shape.0[0] * self.shape.0[2] * self.shape.0[2]
        }
    }

    /// The number of columns of a matrix, or of the filter of a convolution as a matrix.
    pub fn ncols_2d(&self) -> (r: usize)
        requires
            self.shape@.len() == 2 || self.shape@.len() == 4,
            0 < self.spec_ncols_2d() <= usize::MAX,
        ensures
            r == self.spec_ncols_2d(),
    {
        if self.is_matrix() {
            self.shape.0[1]
        } else {
            proof {
                let (a, b) = (self.shape@[1] as int, self.shape@[2] as int);
                assert(a * b <= a * b * b) by (nonlinear_arith)
                    requires
                        a >= 0,
                        b >= 0,
                        a * b * b > 0,
                ;
            }
            self.shape.0[1] * self.shape.0[2] * self.shape.0[2]
        }
    }

    /// The number of boolean variables that address a row, and that address a column.
    pub fn num_vars_2d(&self) -> (r: (usize, usize))
        requires
            self.shape@.len() == 2,
            self.shape@[0] > 0,
            self.shape@[1] > 0,
        ensures
            r.0 == flog2(self.shape@[0] as nat),
            r.1 == flog2(self.shape@[1] as nat),
    {
        (arith::floor_log2(self.nrows_2d()), arith::floor_log2(self.ncols_2d()))
    }

    /// The shape of a tensor that is not empty.
    pub fn get_shape(&self) -> (r: Shape)
        requires
            self.shape@.len() > 0,
        ensures
            r@ == self.shape@,
    {
        self.shape.clone()
    }

    /// The number of dimensions.
    pub fn rank(&self) -> (r: usize)
        ensures
            r == self.shape@.len(),
    {
        self.shape.rank()
    }

    /// The shape that the filter of a convolution had before padding.
    pub fn get_input_shape(&self) -> (r: Shape)
        requires
            self.shape@.len() > 0,
        ensures
            r@ == self.og_shape@,
    {
        self.og_shape.clone()
    }

    pub fn get_data(&self) -> (r: &[T])
        ensures
            r@ == self.data@,
    {
        self.data.as_slice()
    }

    pub fn get_data_into(self) -> (r: Vec<T>)
        ensures
            r@ == self.data@,
    {
        self.data
    }

    /// The number of input channels of a filter.
    pub fn kx(&self) -> (r: usize)
        requires
            self.shape@.len() > 1,
        ensures
            r == self.shape@[1],
    {
        self.shape.0[1]
    }

    /// The number of output channels of a filter.
    pub fn kw(&self) -> (r: usize)
        requires
            self.shape@.len() > 0,
        ensures
            r == self.shape@[0],
    {
        self.shape.0[0]
    }

    /// The side of a filter.
    pub fn nw(&self) -> (r: usize)
        requires
            self.shape@.len() > 2,
        ensures
            r == self.shape@[2],
    {
        self.shape.0[2]
    }

    /// The side of a filter before padding.
    pub fn real_nw(&self) -> (r: usize)
        requires
            self.og_shape@.len() > 2,
        ensures
            r == self.og_shape@[2],
    {
        self.og_shape.0[2]
    }

    /// The shape of a filter before padding.
    pub fn real_shape(&self) -> (r: Shape)
        ensures
            r@ == self.og_shape@,
    {
        self.og_shape.clone()
    }

    /// The number of entries of a single filter.
    pub fn filter_size(&self) -> (r: usize)
        requires
            self.shape@.len() > 2,
            self.shape@[2] * self.shape@[2] <= usize::MAX,
        ensures
            r == self.shape@[2] * self.shape@[2],
    {
        self.shape.0[2] * self.shape.0[2]
    }

    /// The same data with a further dimension of size one at `index`.
    pub fn unsqueeze(self, index: usize) -> (r: Self)
        requires
            index <= self.shape@.len(),
        ensures
            r.data@ == self.data@,
            r.shape@ == self.shape@.insert(index as int, 1),
            r.og_shape@ == self.og_shape@,
            self.wf() ==> r.wf(),
    {
        let shape = self.shape.insert(index, 1);
        proof {
            let s = self.shape@;
            let a = s.take(index as int);
            let b = s.skip(index as int);
            assert(s =~= a + b);
            assert(shape@ =~= (a + seq![1usize]) + b);
            crate::shape::lemma_prod_append(a, b);
            crate::shape::lemma_prod_append(a, seq![1usize]);
            crate::shape::lemma_prod_append(a + seq![1usize], b);
            lemma_prod1(1);
            assert(prod(a) * 1 == prod(a));
        }
        Tensor { data: self.data, shape, og_shape: self.og_shape }
    }

    /// Gives the tensor another shape with the same number of positions.
    pub(crate) fn reshape_in_place(&mut self, new_shape: Shape)
        requires
            prod(old(self).shape@) == prod(new_shape@),
        ensures
            final(self).data@ == old(self).data@,
            final(self).shape@ == new_shape@,
            final(self).og_shape@ == old(self).og_shape@,
            old(self).wf() ==> final(self).wf(),
    {
        self.shape = new_shape;
    }

    /// The same data in another shape with the same number of positions.
    pub fn reshape(self, new_shape: Shape) -> (r: Tensor<T>)
        requires
            prod(self.shape@) == prod(new_shape@),
        ensures
            r.data@ == self.data@,
            r.shape@ == new_shape@,
            r.og_shape@ == self.og_shape@,
            self.wf() ==> r.wf(),
    {
        let mut t = self;
        t.reshape_in_place(new_shape);
        t
    }
}

impl<T: Copy> Clone for Tensor<T> {
    fn clone(&self) -> (r: Self)
        ensures
            r.data@ == self.data@,
            r.shape@ == self.shape@,
            r.og_shape@ == self.og_shape@,
    {
        Tensor {
            data: copy_slice(&self.data),
            shape: self.shape.clone(),
            og_shape: self.og_shape.clone(),
        }
    }
}

/// The rows of a matrix one after the other.
pub open spec fn concat_rows<T>(rows: Seq<Seq<T>>) -> Seq<T>
    decreases rows.len(),
{
    if rows.len() == 0 {
        Seq::empty()
    } else {
        concat_rows(rows.drop_last()) + rows.last()
    }
}

/// The entries of the vectors, as sequences.
pub open spec fn views<T>(v: Seq<Vec<T>>) -> Seq<Seq<T>> {
    v.map_values(|x: Vec<T>| x@)
}

impl<T: Copy> Tensor<T> {
    /// The data as a vector.
    pub fn flatten(&self) -> (r: Self)
        ensures
            r.wf(),
            r.data@ == self.data@,
            r.shape@ == seq![self.data@.len() as usize],
            r.og_shape@ == seq![0usize],
    {
        let dims: Vec<usize> = vec![self.data.len()];
        proof {
            lemma_prod1(self.data.len());
            assert(dims@ =~= seq![self.data.len()]);
        }
        Tensor { data: copy_slice(&self.data), shape: Shape(dims), og_shape: no_shape() }
    }

    /// The matrix with the given rows. It has as many columns as the first row has entries; the
    /// number of entries must be that of rows times columns.
    pub fn matrix_from_coeffs(data: Vec<Vec<T>>) -> (r: Result<Self, TensorError>)
        requires
            data@.len() > 0,
            concat_rows(views(data@)).len() <= usize::MAX,
            data@.len() * data@[0]@.len() <= usize::MAX,
        ensures
            ({
                let rows = data@.len();
                let cols = data@[0]@.len();
                let all = concat_rows(views(data@));
                match r {
                    Ok(t) => {
                        &&& all.len() == rows * cols
                        &&& t.wf()
                        &&& t.data@ == all
                        &&& t.shape@ == seq![rows as usize, cols as usize]
                        &&& t.og_shape@ == seq![0usize]
                    },
                    Err(e) => all.len() != rows * cols && e == TensorError::RaggedMatrix,
                }
            }),
    {
        let n_rows = data.len();
        let n_cols = data[0].len();
        let mut all: Vec<T> = Vec::new();
        let mut i: usize = 0;
        while i < n_rows
            invariant
                i <= n_rows,
                n_rows == data@.len(),
                all@ == concat_rows(views(data@).take(i as int)),
                concat_rows(views(data@)).len() <= usize::MAX,
            decreases n_rows - i,
        {
            let mut row = copy_slice(&data[i]);
            proof {
                let v = views(data@);
                assert(v.take(i + 1).drop_last() =~= v.take(i as int));
                assert(v.take(i + 1).last() == data@[i as int]@);
            }
            all.append(&mut row);
            i = i + 1;
        }
        proof {
            assert(views(data@).take(n_rows as int) =~= views(data@));
            lemma_prod2(n_rows, n_cols);
        }
        if all.len() != n_rows * n_cols {
            return Err(TensorError::RaggedMatrix);
        }
        Ok(Tensor { data: all, shape: Shape(vec![n_rows, n_cols]), og_shape: no_shape() })
    }
}

/// The place of the first greatest number.
pub open spec fn is_first_max<T: Number>(s: Seq<T>, r: int) -> bool {
    &&& 0 <= r < s.len()
    &&& forall|j: int| 0 <= j < s.len() ==> !T::m_lt(s[r].value(), (#[trigger] s[j]).value())
    &&& forall|j: int| 0 <= j < r ==> T::m_lt((#[trigger] s[j]).value(), s[r].value())
}

/// `r` is the greatest among `first` and the mathematical values `f(0)`, ..., `f(n - 1)`.
pub open spec fn is_max_of<T: Number>(first: T::M, n: nat, f: spec_fn(int) -> T::M, r: T::M) -> bool {
    &&& r == first || exists|j: int| 0 <= j < n && r == #[trigger] f(j)
    &&& !T::m_lt(r, first)
    &&& forall|j: int| 0 <= j < n ==> !T::m_lt(r, #[trigger] f(j))
}

/// `r` is the least among `first` and the mathematical values `f(0)`, ..., `f(n - 1)`.
pub open spec fn is_min_of<T: Number>(first: T::M, n: nat, f: spec_fn(int) -> T::M, r: T::M) -> bool {
    &&& r == first || exists|j: int| 0 <= j < n && r == #[trigger] f(j)
    &&& !T::m_lt(first, r)
    &&& forall|j: int| 0 <= j < n ==> !T::m_lt(#[trigger] f(j), r)
}

impl<T: Number> Tensor<T> {
    /// A tensor of zeros.
    pub fn new_from_shape(shape: Shape) -> (r: Self)
        requires
            prod(shape@) <= usize::MAX,
        ensures
            r.wf(),
            r.shape@ == shape@,
            r.og_shape@ == seq![0usize],
            forall|i: int| 0 <= i < r.data@.len() ==> #[trigger] r.data@[i] == T::s_zero(),
    {
        Self::zeros(shape)
    }

    /// A tensor of zeros.
    pub fn zeros(shape: Shape) -> (r: Self)
        requires
            prod(shape@) <= usize::MAX,
        ensures
            r.wf(),
            r.shape@ == shape@,
            r.og_shape@ == seq![0usize],
            forall|i: int| 0 <= i < r.data@.len() ==> #[trigger] r.data@[i] == T::s_zero(),
    {
        let size = shape.product();
        Tensor { data: filled(T::zero(), size), shape, og_shape: no_shape() }
    }

    /// The place of the first greatest entry; zero where there is no entry.
    pub fn argmax(&self) -> (r: usize)
        ensures
            self.data@.len() == 0 ==> r == 0,
            self.data@.len() > 0 ==> is_first_max(self.data@, r as int),
    {
        let mut best: usize = 0;
        let mut top = T::min_number();
        let mut i: usize = 0;
        while i < self.data.len()
            invariant
                i <= self.data@.len(),
                best <= i,
                i > 0 ==> best < i,
                i == 0 ==> top.value() == T::m_min(),
                i > 0 ==> top.value() == self.data@[best as int].value(),
                forall|j: int|
                    0 <= j < i ==> !T::m_lt(top.value(), (#[trigger] self.data@[j]).value()),
                forall|j: int|
                    0 <= j < best ==> T::m_lt((#[trigger] self.data@[j]).value(), top.value()),
                i == 0 ==> best == 0,
            decreases self.data@.len() - i,
        {
            let x = self.data[i];
            proof {
                x.law_min();
                T::law_order(x.value(), T::m_min(), x.value());
                T::law_order(x.value(), top.value(), x.value());
                assert forall|j: int| 0 <= j < i && T::m_lt(top.value(), x.value()) implies T::m_lt(
                    (#[trigger] self.data@[j]).value(),
                    x.value(),
                ) && !T::m_lt(x.value(), self.data@[j].value()) by {
                    let y = self.data@[j].value();
                    T::law_order(y, top.value(), x.value());
                    T::law_order(top.value(), y, x.value());
                    T::law_order(y, x.value(), y);
                }
                T::law_order(x.value(), x.value(), x.value());
            }
            if is_less(&top, &x) {
                best = i;
                top = x;
            }
            i = i + 1;
        }
        best
    }

    /// The greatest absolute value, and zero where that is negative or there is no entry.
    pub fn max_abs_output(&self) -> (r: T)
        requires
            forall|i: int|
                0 <= i < self.data@.len() ==> T::fits(T::m_abs((#[trigger] self.data@[i]).value())),
        ensures
            is_max_of::<T>(
                T::m_zero(),
                self.data@.len(),
                |i: int| T::m_abs(self.data@[i].value()),
                r.value(),
            ),
    {
        let ghost f = |i: int| T::m_abs(self.data@[i].value());
        let mut top = T::zero();
        let mut i: usize = 0;
        proof {
            T::law_order(top.value(), top.value(), top.value());
        }
        while i < self.data.len()
            invariant
                i <= self.data@.len(),
                f == |i: int| T::m_abs(self.data@[i].value()),
                is_max_of::<T>(T::m_zero(), i as nat, f, top.value()),
                forall|i: int|
                    0 <= i < self.data@.len() ==> T::fits(
                        T::m_abs((#[trigger] self.data@[i]).value()),
                    ),
            decreases self.data@.len() - i,
        {
            proof {
                assert(T::fits(T::m_abs(self.data@[i as int].value())));
            }
            let x = self.data[i].absolute_value();
            proof {
                assert(x.value() == f(i as int));
                lemma_max_step(T::m_zero(), i as nat, f, top, x);
            }
            top = larger(&top, &x);
            i = i + 1;
        }
        top
    }

    /// The greatest entry; the least number where there is no entry.
    pub fn max_value(&self) -> (r: T)
        ensures
            is_max_of::<T>(T::m_min(), self.data@.len(), |i: int| self.data@[i].value(), r.value()),
    {
        let ghost f = |i: int| self.data@[i].value();
        let mut top = T::min_number();
        let mut i: usize = 0;
        proof {
            T::law_order(top.value(), top.value(), top.value());
        }
        while i < self.data.len()
            invariant
                i <= self.data@.len(),
                f == |i: int| self.data@[i].value(),
                is_max_of::<T>(T::m_min(), i as nat, f, top.value()),
            decreases self.data@.len() - i,
        {
            let x = self.data[i];
            proof {
                assert(x.value() == f(i as int));
                lemma_max_step(T::m_min(), i as nat, f, top, x);
            }
            top = larger(&top, &x);
            i = i + 1;
        }
        top
    }

    /// The least among the entries and the greatest number.
    pub fn min_value(&self) -> (r: T)
        ensures
            is_min_of::<T>(T::m_max(), self.data@.len(), |i: int| self.data@[i].value(), r.value()),
    {
        let ghost f = |i: int| self.data@[i].value();
        let mut low = T::max_number();
        let mut i: usize = 0;
        proof {
            T::law_order(low.value(), low.value(), low.value());
        }
        while i < self.data.len()
            invariant
                i <= self.data@.len(),
                f == |i: int| self.data@[i].value(),
                is_min_of::<T>(T::m_max(), i as nat, f, low.value()),
            decreases self.data@.len() - i,
        {
            let x = self.data[i];
            proof {
                assert(x.value() == f(i as int));
                lemma_min_step(T::m_max(), i as nat, f, low, x);
            }
            low = smaller(&low, &x);
            i = i + 1;
        }
        low
    }

    /// Do the two tensors have the same shape and entries?
    pub fn same(&self, other: &Self) -> (r: bool)
        ensures
            r == (self.shape@ == other.shape@ && same_values(self.data@, other.data@)),
    {
        if !self.shape.same(&other.shape) || self.data.len() != other.data.len() {
            return false;
        }
        let mut i: usize = 0;
        while i < self.data.len()
            invariant
                i <= self.data@.len(),
                self.data@.len() == other.data@.len(),
                forall|j: int|
                    0 <= j < i ==> (#[trigger] self.data@[j]).value() == other.data@[j].value(),
            decreases self.data@.len() - i,
        {
            if !self.data[i].same(&other.data[i]) {
                proof {
                    assert(self.data@[i as int].value() != other.data@[i as int].value());
                }
                return false;
            }
            i = i + 1;
        }
        true
    }
}

/// The two sequences stand for the same numbers.
pub open spec fn same_values<T: Number>(a: Seq<T>, b: Seq<T>) -> bool {
    a.len() == b.len() && forall|i: int|
        0 <= i < a.len() ==> (#[trigger] a[i]).value() == b[i].value()
}

impl<T: Number> PartialEq for Tensor<T> {
    fn eq(&self, other: &Self) -> (r: bool) {
        self.same(other)
    }
}

impl<T: Number> vstd::std_specs::cmp::PartialEqSpecImpl for Tensor<T> {
    open spec fn obeys_eq_spec() -> bool {
        true
    }

    open spec fn eq_spec(&self, other: &Self) -> bool {
        self.shape@ == other.shape@ && same_values(self.data@, other.data@)
    }
}

proof fn lemma_max_step<T: Number>(first: T::M, n: nat, f: spec_fn(int) -> T::M, top: T, x: T)
    requires
        is_max_of::<T>(first, n, f, top.value()),
        x.value() == f(n as int),
    ensures
        is_max_of::<T>(first, n + 1, f, greater_of(top, x).value()),
{
    let (t, y) = (top.value(), x.value());
    T::law_order(t, y, first);
    T::law_order(first, t, y);
    T::law_order(y, t, first);
    T::law_order(y, y, y);
    let r = greater_of(top, x).value();
    assert forall|j: int| 0 <= j < n + 1 implies !T::m_lt(r, #[trigger] f(j)) by {
        T::law_order(t, y, f(j));
        T::law_order(y, f(j), t);
        T::law_order(t, f(j), y);
    }
}

proof fn lemma_min_step<T: Number>(first: T::M, n: nat, f: spec_fn(int) -> T::M, low: T, x: T)
    requires
        is_min_of::<T>(first, n, f, low.value()),
        x.value() == f(n as int),
    ensures
        is_min_of::<T>(first, n + 1, f, lesser_of(low, x).value()),
{
    let (t, y) = (low.value(), x.value());
    T::law_order(t, y, first);
    T::law_order(first, t, y);
    T::law_order(first, y, t);
    T::law_order(y, y, y);
    let r = lesser_of(low, x).value();
    assert forall|j: int| 0 <= j < n + 1 implies !T::m_lt(#[trigger] f(j), r) by {
        T::law_order(f(j), y, t);
        T::law_order(y, t, f(j));
        T::law_order(f(j), t, y);
    }
}

impl Tensor<Element> {
    /// The number of bits of an entry of the product of this matrix with another.
    pub fn matmul_output_bitsize(
        &self,
        quantized_self_input_range: Option<usize>,
        quantized_other_input_range: Option<usize>,
        bit_len: usize,
    ) -> (r: usize)
        requires
            self.shape@.len() == 2,
            1 <= bit_len <= 64,
        ensures
            r == (match quantized_self_input_range {
                Some(range) => arith::clog2(range as nat) as int,
                None => bit_len - 1,
            }) + (match quantized_other_input_range {
                Some(range) => arith::clog2(range as nat) as int,
                None => bit_len - 1,
            }) + arith::clog2(self.shape@[1] as nat) + 1,
    {
        self.shape.matmul_output_bitsize(
            quantized_self_input_range,
            quantized_other_input_range,
            bit_len,
        )
    }

    /// The entries of a matrix as field elements.
    pub fn evals_2d(&self) -> (r: Vec<GoldilocksExt2>)
        requires
            self.shape@.len() == 2,
        ensures
            r@.len() == self.data@.len(),
            forall|i: int|
                0 <= i < r@.len() ==> (#[trigger] r@[i]).fe() == fint(self.data@[i] as int),
    {
        self.evals_flat()
    }

    /// The entries as field elements.
    pub fn evals_flat(&self) -> (r: Vec<GoldilocksExt2>)
        ensures
            r@.len() == self.data@.len(),
            forall|i: int|
                0 <= i < r@.len() ==> (#[trigger] r@[i]).fe() == fint(self.data@[i] as int),
    {
        let mut r: Vec<GoldilocksExt2> = Vec::with_capacity(self.data.len());
        let mut i: usize = 0;
        while i < self.data.len()
            invariant
                i <= self.data@.len(),
                r@.len() == i,
                forall|j: int|
                    0 <= j < i ==> (#[trigger] r@[j]).fe() == fint(self.data@[j] as int),
            decreases self.data@.len() - i,
        {
            r.push(to_field(self.data[i]));
            i = i + 1;
        }
        r
    }

    /// The weights of a filter as field elements.
    pub fn get_conv_weights(&self) -> (r: Vec<GoldilocksExt2>)
        ensures
            r@.len() == self.data@.len(),
            forall|i: int|
                0 <= i < r@.len() ==> (#[trigger] r@[i]).fe() == fint(self.data@[i] as int),
    {
        self.evals_flat()
    }

    /// The tensor of the entries as field elements.
    pub fn to_field_tensor(&self) -> (r: Tensor<GoldilocksExt2>)
        ensures
            r.shape@ == self.shape@,
            r.og_shape@ == self.og_shape@,
            r.data@.len() == self.data@.len(),
            forall|i: int|
                0 <= i < r.data@.len() ==> (#[trigger] r.data@[i]).fe() == fint(
                    self.data@[i] as int,
                ),
    {
        Tensor {
            data: self.evals_flat(),
            shape: self.shape.clone(),
            og_shape: self.og_shape.clone(),
        }
    }
}

} // verus!
