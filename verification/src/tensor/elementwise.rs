//! Operations that work on each entry by itself.
use crate::number::Number;
use crate::shape::{lemma_prod1, lemma_prod_of_rank, prod, Shape};
use crate::tensor::{no_shape, Tensor};
use vstd::prelude::*;

verus! {

/// `y` is what `f` can give for `x`.
pub open spec fn maps_to<T, E, F: Fn(&T) -> Result<T, E>>(f: F, x: T, y: T) -> bool {
    call_ensures(f, (&x,), Ok::<T, E>(y))
}

/// `f` can give a value for `x`.
pub open spec fn can_map<T, E, F: Fn(&T) -> Result<T, E>>(f: F, x: T) -> bool {
    exists|y: T| maps_to::<T, E, F>(f, x, y)
}

impl<T: Number> Tensor<T> {
    /// The sums of the entries at the same place; the shape is that of the first tensor.
    pub fn add(&self, other: &Tensor<T>) -> (r: Tensor<T>)
        requires
            self.wf(),
            other.wf(),
            prod(self.shape@) == prod(other.shape@),
            forall|i: int|
                0 <= i < self.data@.len() ==> T::fits(
                    T::m_add((#[trigger] self.data@[i]).value(), other.data@[i].value()),
                ),
        ensures
            r.wf(),
            r.shape@ == self.shape@,
            r.og_shape@ == seq![0usize],
            forall|i: int|
                0 <= i < r.data@.len() ==> (#[trigger] r.data@[i]).value() == T::m_add(
                    self.data@[i].value(),
                    other.data@[i].value(),
                ),
    {
        let n = self.data.len();
        let mut data: Vec<T> = Vec::with_capacity(n);
        let mut i: usize = 0;
        while i < n
            invariant
                i <= n,
                n == self.data@.len(),
                n == other.data@.len(),
                data@.len() == i,
                forall|i: int|
                    0 <= i < n ==> T::fits(
                        T::m_add((#[trigger] self.data@[i]).value(), other.data@[i].value()),
                    ),
                forall|j: int|
                    0 <= j < i ==> (#[trigger] data@[j]).value() == T::m_add(
                        self.data@[j].value(),
                        other.data@[j].value(),
                    ),
            decreases n - i,
        {
            proof {
                assert(T::fits(
                    T::m_add(self.data@[i as int].value(), other.data@[i as int].value()),
                ));
            }
            data.push(self.data[i].plus(&other.data[i]));
            i = i + 1;
        }
        Tensor { data, shape: self.shape.clone(), og_shape: no_shape() }
    }

    /// The vector `other` added to each row of this matrix.
    pub fn add_dim2(&self, other: &Tensor<T>) -> (r: Tensor<T>)
        requires
            self.wf(),
            other.wf(),
            self.shape@.len() == 2,
            other.shape@.len() == 1,
            self.shape@[1] == other.shape@[0],
            self.shape@[1] > 0,
            forall|i: int|
                0 <= i < self.data@.len() ==> T::fits(
                    T::m_add(
                        (#[trigger] self.data@[i]).value(),
                        other.data@[i % (self.shape@[1] as int)].value(),
                    ),
                ),
        ensures
            r.wf(),
            r.shape@ == self.shape@,
            r.og_shape@ == self.og_shape@,
            forall|i: int|
                0 <= i < r.data@.len() ==> (#[trigger] r.data@[i]).value() == T::m_add(
                    self.data@[i].value(),
                    other.data@[i % (self.shape@[1] as int)].value(),
                ),
    {
        let n = self.data.len();
        let cols = self.shape.0[1];
        let mut data: Vec<T> = Vec::with_capacity(n);
        proof {
            lemma_prod_of_rank(other.shape@);
        }
        let mut i: usize = 0;
        while i < n
            invariant
                i <= n,
                n == self.data@.len(),
                cols == other.data@.len(),
                cols == self.shape@[1],
                cols > 0,
                data@.len() == i,
                forall|i: int|
                    0 <= i < n ==> T::fits(
                        T::m_add(
                            (#[trigger] self.data@[i]).value(),
                            other.data@[i % (self.shape@[1] as int)].value(),
                        ),
                    ),
                forall|j: int|
                    0 <= j < i ==> (#[trigger] data@[j]).value() == T::m_add(
                        self.data@[j].value(),
                        other.data@[j % (self.shape@[1] as int)].value(),
                    ),
            decreases n - i,
        {
            proof {
                assert(T::fits(
                    T::m_add(
                        self.data@[i as int].value(),
                        other.data@[i as int % (cols as int)].value(),
                    ),
                ));
            }
            data.push(self.data[i].plus(&other.data[i % cols]));
            i = i + 1;
        }
        Tensor { data, shape: self.shape.clone(), og_shape: self.og_shape.clone() }
    }

    /// The differences of the entries at the same place of two tensors of one shape.
    pub fn sub(&self, other: &Tensor<T>) -> (r: Tensor<T>)
        requires
            self.wf(),
            other.wf(),
            self.shape@ == other.shape@,
            forall|i: int|
                0 <= i < self.data@.len() ==> T::fits(
                    T::m_sub((#[trigger] self.data@[i]).value(), other.data@[i].value()),
                ),
        ensures
            r.wf(),
            r.shape@ == self.shape@,
            r.og_shape@ == seq![0usize],
            forall|i: int|
                0 <= i < r.data@.len() ==> (#[trigger] r.data@[i]).value() == T::m_sub(
                    self.data@[i].value(),
                    other.data@[i].value(),
                ),
    {
        let n = self.data.len();
        let mut data: Vec<T> = Vec::with_capacity(n);
        let mut i: usize = 0;
        while i < n
            invariant
                i <= n,
                n == self.data@.len(),
                n == other.data@.len(),
                data@.len() == i,
                forall|i: int|
                    0 <= i < n ==> T::fits(
                        T::m_sub((#[trigger] self.data@[i]).value(), other.data@[i].value()),
                    ),
                forall|j: int|
                    0 <= j < i ==> (#[trigger] data@[j]).value() == T::m_sub(
                        self.data@[j].value(),
                        other.data@[j].value(),
                    ),
            decreases n - i,
        {
            proof {
                assert(T::fits(
                    T::m_sub(self.data@[i as int].value(), other.data@[i as int].value()),
                ));
            }
            data.push(self.data[i].minus(&other.data[i]));
            i = i + 1;
        }
        Tensor { data, shape: self.shape.clone(), og_shape: no_shape() }
    }

    /// The products of the entries at the same place; the shape is that of the first tensor.
    pub fn mul(&self, other: &Tensor<T>) -> (r: Tensor<T>)
        requires
            self.wf(),
            other.wf(),
            prod(self.shape@) == prod(other.shape@),
            forall|i: int|
                0 <= i < self.data@.len() ==> T::fits(
                    T::m_mul((#[trigger] self.data@[i]).value(), other.data@[i].value()),
                ),
        ensures
            r.wf(),
            r.shape@ == self.shape@,
            r.og_shape@ == seq![0usize],
            forall|i: int|
                0 <= i < r.data@.len() ==> (#[trigger] r.data@[i]).value() == T::m_mul(
                    self.data@[i].value(),
                    other.data@[i].value(),
                ),
    {
        let n = self.data.len();
        let mut data: Vec<T> = Vec::with_capacity(n);
        let mut i: usize = 0;
        while i < n
            invariant
                i <= n,
                n == self.data@.len(),
                n == other.data@.len(),
                data@.len() == i,
                forall|i: int|
                    0 <= i < n ==> T::fits(
                        T::m_mul((#[trigger] self.data@[i]).value(), other.data@[i].value()),
                    ),
                forall|j: int|
                    0 <= j < i ==> (#[trigger] data@[j]).value() == T::m_mul(
                        self.data@[j].value(),
                        other.data@[j].value(),
                    ),
            decreases n - i,
        {
            proof {
                assert(T::fits(
                    T::m_mul(self.data@[i as int].value(), other.data@[i as int].value()),
                ));
            }
            data.push(self.data[i].times(&other.data[i]));
            i = i + 1;
        }
        Tensor { data, shape: self.shape.clone(), og_shape: no_shape() }
    }

    /// Each entry multiplied by a number.
    pub fn scalar_mul(&self, scalar: &T) -> (r: Tensor<T>)
        requires
            forall|i: int|
                0 <= i < self.data@.len() ==> T::fits(
                    T::m_mul((#[trigger] self.data@[i]).value(), scalar.value()),
                ),
        ensures
            r.shape@ == self.shape@,
            r.og_shape@ == seq![0usize],
            r.data@.len() == self.data@.len(),
            forall|i: int|
                0 <= i < r.data@.len() ==> (#[trigger] r.data@[i]).value() == T::m_mul(
                    self.data@[i].value(),
                    scalar.value(),
                ),
    {
        let n = self.data.len();
        let mut data: Vec<T> = Vec::with_capacity(n);
        let mut i: usize = 0;
        while i < n
            invariant
                i <= n,
                n == self.data@.len(),
                data@.len() == i,
                forall|i: int|
                    0 <= i < n ==> T::fits(
                        T::m_mul((#[trigger] self.data@[i]).value(), scalar.value()),
                    ),
                forall|j: int|
                    0 <= j < i ==> (#[trigger] data@[j]).value() == T::m_mul(
                        self.data@[j].value(),
                        scalar.value(),
                    ),
            decreases n - i,
        {
            proof {
                assert(T::fits(T::m_mul(self.data@[i as int].value(), scalar.value())));
            }
            data.push(self.data[i].times(scalar));
            i = i + 1;
        }
        Tensor { data, shape: self.shape.clone(), og_shape: no_shape() }
    }

    /// A vector cut, or filled up with zeros, to the given length.
    pub fn pad_1d(self, new_len: usize) -> (r: Self)
        requires
            self.wf(),
            self.shape@.len() == 1,
        ensures
            r.wf(),
            r.shape@ == seq![new_len],
            r.og_shape@ == self.og_shape@,
            forall|i: int|
                0 <= i < new_len ==> #[trigger] r.data@[i] == (if i < self.data@.len() {
                    self.data@[i]
                } else {
                    T::s_zero()
                }),
    {
        let mut data: Vec<T> = Vec::with_capacity(new_len);
        let mut i: usize = 0;
        while i < new_len
            invariant
                i <= new_len,
                data@.len() == i,
                forall|j: int|
                    0 <= j < i ==> #[trigger] data@[j] == (if j < self.data@.len() {
                        self.data@[j]
                    } else {
                        T::s_zero()
                    }),
            decreases new_len - i,
        {
            if i < self.data.len() {
                data.push(self.data[i]);
            } else {
                data.push(T::zero());
            }
            i = i + 1;
        }
        let dims: Vec<usize> = vec![new_len];
        proof {
            lemma_prod1(new_len);
            assert(dims@ =~= seq![new_len]);
        }
        Tensor { data, shape: Shape(dims), og_shape: self.og_shape }
    }

    /// Applies a fallible function to each entry, and gives the first error where there is one.
    pub fn try_map<E, F: Fn(&T) -> Result<T, E>>(&self, f: F) -> (r: Result<Self, E>)
        requires
            forall|i: int|
                0 <= i < self.data@.len() ==> call_requires(f, (&#[trigger] self.data@[i],)),
        ensures
            match r {
                Ok(t) => {
                    &&& t.shape@ == self.shape@
                    &&& t.og_shape@ == self.og_shape@
                    &&& t.data@.len() == self.data@.len()
                    &&& forall|i: int|
                        0 <= i < self.data@.len() ==> call_ensures(
                            f,
                            (&self.data@[i],),
                            Ok::<T, E>(#[trigger] t.data@[i]),
                        )
                },
                Err(e) => exists|i: int|
                    {
                        &&& 0 <= i < self.data@.len()
                        &&& call_ensures(f, (&#[trigger] self.data@[i],), Err::<T, E>(e))
                        &&& forall|j: int|
                            0 <= j < i ==> can_map::<T, E, F>(f, #[trigger] self.data@[j])
                    },
            },
    {
        let n = self.data.len();
        let mut data: Vec<T> = Vec::with_capacity(n);
        let mut i: usize = 0;
        while i < n
            invariant
                i <= n,
                n == self.data@.len(),
                data@.len() == i,
                forall|i: int|
                    0 <= i < self.data@.len() ==> call_requires(f, (&#[trigger] self.data@[i],)),
                forall|j: int|
                    0 <= j < i ==> call_ensures(
                        f,
                        (&self.data@[j],),
                        Ok::<T, E>(#[trigger] data@[j]),
                    ),
            decreases n - i,
        {
            match f(&self.data[i]) {
                Ok(y) => {
                    data.push(y);
                },
                Err(e) => {
                    proof {
                        assert(call_ensures(f, (&self.data@[i as int],), Err::<T, E>(e)));
                        assert forall|j: int| 0 <= j < i implies can_map::<T, E, F>(
                            f,
                            #[trigger] self.data@[j],
                        ) by {
                            assert(maps_to::<T, E, F>(f, self.data@[j], data@[j]));
                        }
                    }
                    return Err(e);
                },
            }
            i = i + 1;
        }
        Ok(Tensor { data, shape: self.shape.clone(), og_shape: self.og_shape.clone() })
    }
}

} // verus!
