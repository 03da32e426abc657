//! Matrices: products, transposition, and padding that ignores garbage.
use crate::arith::{lemma_grid_bound, lemma_grid_digits, lemma_grid_split};
use crate::number::{msum, sum_fits, Number};
use crate::shape::{lemma_prod1, lemma_prod2, lemma_prod3, lemma_prod_of_rank, Shape};
use crate::tensor::{no_shape, Tensor};
use vstd::prelude::*;

verus! {

/// The `k`-th product in entry `(i, j)` of the product of two matrices.
pub open spec fn matmul_term<T: Number>(a: Seq<T>, b: Seq<T>, n: int, p: int, i: int, j: int) -> spec_fn(
    int,
) -> T::M {
    |k: int| T::m_mul(a[i * n + k].value(), b[k * p + j].value())
}

/// The `j`-th product in entry `i` of the product of a matrix with a vector.
pub open spec fn matvec_term<T: Number>(a: Seq<T>, v: Seq<T>, n: int, i: int) -> spec_fn(int) -> T::M {
    |j: int| T::m_mul(a[i * n + j].value(), v[j].value())
}

impl<T: Number> Tensor<T> {
    /// The product of two matrices.
    pub fn matmul(&self, other: &Tensor<T>) -> (r: Tensor<T>)
        requires
            self.wf(),
            other.wf(),
            self.shape@.len() == 2,
            other.shape@.len() == 2,
            self.shape@[1] == other.shape@[0],
            self.shape@[0] * other.shape@[1] <= usize::MAX,
            forall|i: int, j: int|
                0 <= i < self.shape@[0] && 0 <= j < other.shape@[1] ==> sum_fits::<T>(
                    self.shape@[1] as nat,
                    #[trigger] matmul_term::<T>(
                        self.data@,
                        other.data@,
                        self.shape@[1] as int,
                        other.shape@[1] as int,
                        i,
                        j,
                    ),
                ),
        ensures
            r.wf(),
            r.shape@ == seq![self.shape@[0], other.shape@[1]],
            r.og_shape@ == seq![0usize],
            forall|i: int, j: int|
                0 <= i < self.shape@[0] && 0 <= j < other.shape@[1] ==> (#[trigger] r.data@[i
                    * other.shape@[1] + j]).value() == msum::<T>(
                    self.shape@[1] as nat,
                    matmul_term::<T>(
                        self.data@,
                        other.data@,
                        self.shape@[1] as int,
                        other.shape@[1] as int,
                        i,
                        j,
                    ),
                ),
    {
        let (m, n) = (self.shape.0[0], self.shape.0[1]);
        let p = other.shape.0[1];
        proof {
            lemma_prod_of_rank(self.shape@);
            lemma_prod_of_rank(other.shape@);
            lemma_prod2(m, p);
            assert(self.data@.len() == self.data.len());
            assert(other.data@.len() == other.data.len());
        }
        let mut data: Vec<T> = Vec::with_capacity(m * p);
        let mut i: usize = 0;
        let mut row: usize = 0;
        proof {
            assert(0 * n == 0 && 0 * p == 0);
        }
        while i < m
            invariant
                i <= m,
                m == self.shape@[0],
                n == self.shape@[1],
                p == other.shape@[1],
                self.data@.len() == m * n,
                other.data@.len() == n * p,
                m * p <= usize::MAX,
                m * n <= usize::MAX,
                n * p <= usize::MAX,
                row == i * n,
                data@.len() == i * p,
                forall|i: int, j: int|
                    0 <= i < m && 0 <= j < p ==> sum_fits::<T>(
                        n as nat,
                        #[trigger] matmul_term::<T>(
                            self.data@,
                            other.data@,
                            n as int,
                            p as int,
                            i,
                            j,
                        ),
                    ),
                forall|a: int, b: int|
                    0 <= a < i && 0 <= b < p ==> (#[trigger] data@[a * p + b]).value() == msum::<T>(
                        n as nat,
                        matmul_term::<T>(self.data@, other.data@, n as int, p as int, a, b),
                    ),
            decreases m - i,
        {
            let mut j: usize = 0;
            while j < p
                invariant
                    i < m,
                    j <= p,
                    self.data@.len() == m * n,
                    other.data@.len() == n * p,
                    m * n <= usize::MAX,
                    n * p <= usize::MAX,
                    row == i * n,
                    data@.len() == i * p + j,
                    forall|i: int, j: int|
                        0 <= i < m && 0 <= j < p ==> sum_fits::<T>(
                            n as nat,
                            #[trigger] matmul_term::<T>(
                                self.data@,
                                other.data@,
                                n as int,
                                p as int,
                                i,
                                j,
                            ),
                        ),
                    forall|a: int, b: int|
                        0 <= a < i && 0 <= b < p ==> (#[trigger] data@[a * p + b]).value()
                            == msum::<T>(
                            n as nat,
                            matmul_term::<T>(self.data@, other.data@, n as int, p as int, a, b),
                        ),
                    forall|b: int|
                        0 <= b < j ==> (#[trigger] data@[i * p + b]).value() == msum::<T>(
                            n as nat,
                            matmul_term::<T>(
                                self.data@,
                                other.data@,
                                n as int,
                                p as int,
                                i as int,
                                b,
                            ),
                        ),
                decreases p - j,
            {
                let ghost f = matmul_term::<T>(
                    self.data@,
                    other.data@,
                    n as int,
                    p as int,
                    i as int,
                    j as int,
                );
                let mut sum = T::zero();
                let mut k: usize = 0;
                let mut place: usize = j;
                proof {
                    assert(0 * p == 0);
                }
                while k < n
                    invariant
                        i < m,
                        j < p,
                        k <= n,
                        self.data@.len() == m * n,
                        other.data@.len() == n * p,
                        m * n <= usize::MAX,
                        n * p <= usize::MAX,
                        row == i * n,
                        k < n ==> place == k * p + j,
                        f == matmul_term::<T>(
                            self.data@,
                            other.data@,
                            n as int,
                            p as int,
                            i as int,
                            j as int,
                        ),
                        sum_fits::<T>(n as nat, f),
                        sum.value() == msum::<T>(k as nat, f),
                    decreases n - k,
                {
                    proof {
                        lemma_grid_bound(i as int, m as int, k as int, n as int);
                        lemma_grid_bound(k as int, n as int, j as int, p as int);
                        assert(T::fits(f(k as int)));
                        assert(msum::<T>((k + 1) as nat, f) == T::m_add(
                            msum::<T>(k as nat, f),
                            f(k as int),
                        ));
                        if k + 1 < n {
                            lemma_grid_bound((k + 1) as int, n as int, j as int, p as int);
                            assert((k + 1) * p + j == k * p + j + p) by (nonlinear_arith);
                        }
                    }
                    let t = self.data[row + k].times(&other.data[place]);
                    sum = sum.plus(&t);
                    k = k + 1;
                    if k < n {
                        place = place + p;
                    }
                }
                let ghost before = data@;
                data.push(sum);
                proof {
                    assert forall|a: int, b: int|
                        0 <= a < i && 0 <= b < p implies (#[trigger] data@[a * p + b]).value()
                        == msum::<T>(
                        n as nat,
                        matmul_term::<T>(self.data@, other.data@, n as int, p as int, a, b),
                    ) by {
                        lemma_grid_bound(a, i as int, b, p as int);
                        assert(data@[a * p + b] == before[a * p + b]);
                    }
                    assert forall|b: int| 0 <= b < j + 1 implies (#[trigger] data@[i * p
                        + b]).value() == msum::<T>(
                        n as nat,
                        matmul_term::<T>(self.data@, other.data@, n as int, p as int, i as int, b),
                    ) by {
                        if b < j {
                            assert(data@[i * p + b] == before[i * p + b]);
                        }
                    }
                }
                j = j + 1;
            }
            proof {
                assert((i + 1) * p == i * p + p) by (nonlinear_arith);
                assert((i + 1) * n == i * n + n) by (nonlinear_arith);
                assert((i + 1) * n <= m * n) by (nonlinear_arith)
                    requires
                        i + 1 <= m,
                        n >= 0,
                ;
                assert forall|a: int, b: int|
                    0 <= a < i + 1 && 0 <= b < p implies (#[trigger] data@[a * p + b]).value()
                    == msum::<T>(
                    n as nat,
                    matmul_term::<T>(self.data@, other.data@, n as int, p as int, a, b),
                ) by {
                    if a == i {
                        assert(data@[i * p + b].value() == msum::<T>(
                            n as nat,
                            matmul_term::<T>(
                                self.data@,
                                other.data@,
                                n as int,
                                p as int,
                                i as int,
                                b,
                            ),
                        ));
                    }
                }
            }
            row = row + n;
            i = i + 1;
        }
        let dims: Vec<usize> = vec![m, p];
        proof {
            assert(dims@ =~= seq![m, p]);
        }
        Tensor { data, shape: Shape(dims), og_shape: no_shape() }
    }

    /// The product of a matrix with a vector.
    pub fn matvec(&self, vector: &Tensor<T>) -> (r: Tensor<T>)
        requires
            self.wf(),
            self.shape@.len() == 2,
            vector.shape@.len() == 1 || (vector.shape@.len() == 2 && vector.shape@[0] == 1),
            self.shape@[1] == vector.shape@[0],
            self.shape@[1] <= vector.data@.len(),
            forall|i: int|
                0 <= i < self.shape@[0] ==> sum_fits::<T>(
                    self.shape@[1] as nat,
                    #[trigger] matvec_term::<T>(
                        self.data@,
                        vector.data@,
                        self.shape@[1] as int,
                        i,
                    ),
                ),
        ensures
            r.wf(),
            r.shape@ == seq![self.shape@[0]],
            r.og_shape@ == seq![0usize],
            forall|i: int|
                0 <= i < self.shape@[0] ==> (#[trigger] r.data@[i]).value() == msum::<T>(
                    self.shape@[1] as nat,
                    matvec_term::<T>(self.data@, vector.data@, self.shape@[1] as int, i),
                ),
    {
        let (m, n) = (self.shape.0[0], self.shape.0[1]);
        proof {
            lemma_prod_of_rank(self.shape@);
            lemma_prod1(m);
            assert(self.data@.len() == self.data.len());
        }
        let mut data: Vec<T> = Vec::with_capacity(m);
        let mut i: usize = 0;
        let mut row: usize = 0;
        proof {
            assert(0 * n == 0);
        }
        while i < m
            invariant
                i <= m,
                self.data@.len() == m * n,
                n <= vector.data@.len(),
                m * n <= usize::MAX,
                row == i * n,
                data@.len() == i,
                forall|i: int|
                    0 <= i < m ==> sum_fits::<T>(
                        n as nat,
                        #[trigger] matvec_term::<T>(self.data@, vector.data@, n as int, i),
                    ),
                forall|a: int|
                    0 <= a < i ==> (#[trigger] data@[a]).value() == msum::<T>(
                        n as nat,
                        matvec_term::<T>(self.data@, vector.data@, n as int, a),
                    ),
            decreases m - i,
        {
            let ghost f = matvec_term::<T>(self.data@, vector.data@, n as int, i as int);
            let mut sum = T::zero();
            let mut j: usize = 0;
            while j < n
                invariant
                    i < m,
                    j <= n,
                    self.data@.len() == m * n,
                    n <= vector.data@.len(),
                    m * n <= usize::MAX,
                    row == i * n,
                    f == matvec_term::<T>(self.data@, vector.data@, n as int, i as int),
                    sum_fits::<T>(n as nat, f),
                    sum.value() == msum::<T>(j as nat, f),
                decreases n - j,
            {
                proof {
                    lemma_grid_bound(i as int, m as int, j as int, n as int);
                    assert(T::fits(f(j as int)));
                    assert(msum::<T>((j + 1) as nat, f) == T::m_add(
                        msum::<T>(j as nat, f),
                        f(j as int),
                    ));
                }
                let t = self.data[row + j].times(&vector.data[j]);
                sum = sum.plus(&t);
                j = j + 1;
            }
            proof {
                assert((i + 1) * n == i * n + n) by (nonlinear_arith);
                assert((i + 1) * n <= m * n) by (nonlinear_arith)
                    requires
                        i + 1 <= m,
                        n >= 0,
                ;
            }
            data.push(sum);
            row = row + n;
            i = i + 1;
        }
        let dims: Vec<usize> = vec![m];
        proof {
            assert(dims@ =~= seq![m]);
        }
        Tensor { data, shape: Shape(dims), og_shape: no_shape() }
    }

    /// The transposed matrix.
    pub fn transpose(&self) -> (r: Tensor<T>)
        requires
            self.wf(),
            self.shape@.len() == 2,
        ensures
            r.wf(),
            r.shape@ == seq![self.shape@[1], self.shape@[0]],
            r.og_shape@ == seq![0usize],
            forall|i: int, j: int|
                0 <= i < self.shape@[0] && 0 <= j < self.shape@[1] ==> #[trigger] r.data@[j
                    * self.shape@[0] + i] == self.data@[i * self.shape@[1] + j],
    {
        let (m, n) = (self.shape.0[0], self.shape.0[1]);
        proof {
            lemma_prod_of_rank(self.shape@);
            lemma_prod2(n, m);
            assert(n * m == m * n) by (nonlinear_arith);
        }
        let total = self.data.len();
        let mut data: Vec<T> = Vec::with_capacity(total);
        let mut idx: usize = 0;
        while idx < total
            invariant
                idx <= total,
                total == self.data@.len(),
                total == m * n,
                total == n * m,
                data@.len() == idx,
                forall|q: int|
                    0 <= q < idx ==> #[trigger] data@[q] == self.data@[(q % (m as int)) * n + q / (
                    m as int)],
            decreases total - idx,
        {
            proof {
                if m == 0 {
                    assert(m * n == 0) by (nonlinear_arith)
                        requires
                            m == 0,
                    ;
                }
                lemma_grid_split(idx as int, n as int, m as int);
                lemma_grid_bound(
                    idx as int % m as int,
                    m as int,
                    idx as int / m as int,
                    n as int,
                );
                assert((idx % m) * n >= 0) by (nonlinear_arith)
                    requires
                        idx % m >= 0,
                        n >= 0,
                ;
            }
            let i = idx % m;
            let j = idx / m;
            data.push(self.data[i * n + j]);
            idx = idx + 1;
        }
        let dims: Vec<usize> = vec![n, m];
        proof {
            assert(dims@ =~= seq![n, m]);
            assert forall|i: int, j: int|
                0 <= i < self.shape@[0] && 0 <= j < self.shape@[1] implies #[trigger] data@[j
                * self.shape@[0] + i] == self.data@[i * self.shape@[1] + j] by {
                lemma_grid_bound(j, n as int, i, m as int);
                lemma_grid_digits(j, i, m as int);
            }
        }
        Tensor { data, shape: Shape(dims), og_shape: no_shape() }
    }

    /// The matrix with the vector as a further, last column.
    pub fn concat_matvec_col(&self, vector: &Tensor<T>) -> (r: Tensor<T>)
        requires
            self.wf(),
            self.shape@.len() == 2,
            vector.shape@.len() == 1 || (vector.shape@.len() == 2 && vector.shape@[0] == 1),
            self.shape@[0] == vector.shape@[0],
            self.shape@[0] <= vector.data@.len(),
            self.shape@[1] < usize::MAX,
            self.shape@[0] * (self.shape@[1] + 1) <= usize::MAX,
        ensures
            r.wf(),
            r.shape@ == seq![self.shape@[0], (self.shape@[1] + 1) as usize],
            r.og_shape@ == seq![0usize],
            forall|i: int, j: int|
                0 <= i < self.shape@[0] && 0 <= j <= self.shape@[1] ==> #[trigger] r.data@[i * (
                self.shape@[1] + 1) + j] == (if j < self.shape@[1] {
                    self.data@[i * self.shape@[1] + j]
                } else {
                    vector.data@[i]
                }),
    {
        let (rows, cols) = (self.shape.0[0], self.shape.0[1]);
        let new_cols = cols + 1;
        proof {
            lemma_prod_of_rank(self.shape@);
            lemma_prod2(rows, new_cols);
            assert(self.data@.len() == self.data.len());
        }
        let mut data: Vec<T> = Vec::with_capacity(rows * new_cols);
        let mut i: usize = 0;
        let mut row: usize = 0;
        proof {
            assert(0 * cols == 0 && 0 * new_cols == 0);
        }
        while i < rows
            invariant
                i <= rows,
                new_cols == cols + 1,
                self.data@.len() == rows * cols,
                rows <= vector.data@.len(),
                rows * cols <= usize::MAX,
                row == i * cols,
                data@.len() == i * new_cols,
                forall|a: int, b: int|
                    0 <= a < i && 0 <= b < new_cols ==> #[trigger] data@[a * new_cols + b] == (if b
                        < cols {
                        self.data@[a * cols + b]
                    } else {
                        vector.data@[a]
                    }),
            decreases rows - i,
        {
            let mut j: usize = 0;
            while j < new_cols
                invariant
                    i < rows,
                    j <= new_cols,
                    new_cols == cols + 1,
                    self.data@.len() == rows * cols,
                    rows <= vector.data@.len(),
                    rows * cols <= usize::MAX,
                    row == i * cols,
                    data@.len() == i * new_cols + j,
                    forall|a: int, b: int|
                        0 <= a < i && 0 <= b < new_cols ==> #[trigger] data@[a * new_cols + b] == (
                        if b < cols {
                            self.data@[a * cols + b]
                        } else {
                            vector.data@[a]
                        }),
                    forall|b: int|
                        0 <= b < j ==> #[trigger] data@[i * new_cols + b] == (if b < cols {
                            self.data@[i * cols + b]
                        } else {
                            vector.data@[i as int]
                        }),
                decreases new_cols - j,
            {
                let ghost before = data@;
                if j < cols {
                    proof {
                        lemma_grid_bound(i as int, rows as int, j as int, cols as int);
                    }
                    data.push(self.data[row + j]);
                } else {
                    data.push(vector.data[i]);
                }
                proof {
                    assert forall|a: int, b: int|
                        0 <= a < i && 0 <= b < new_cols implies #[trigger] data@[a * new_cols + b]
                        == (if b < cols {
                        self.data@[a * cols + b]
                    } else {
                        vector.data@[a]
                    }) by {
                        lemma_grid_bound(a, i as int, b, new_cols as int);
                        assert(data@[a * new_cols + b] == before[a * new_cols + b]);
                    }
                }
                j = j + 1;
            }
            proof {
                assert((i + 1) * new_cols == i * new_cols + new_cols) by (nonlinear_arith);
                assert((i + 1) * cols == i * cols + cols) by (nonlinear_arith);
                assert((i + 1) * cols <= rows * cols) by (nonlinear_arith)
                    requires
                        i + 1 <= rows,
                        cols >= 0,
                ;
                assert forall|a: int, b: int|
                    0 <= a < i + 1 && 0 <= b < new_cols implies #[trigger] data@[a * new_cols + b]
                    == (if b < cols {
                    self.data@[a * cols + b]
                } else {
                    vector.data@[a]
                }) by {
                    if a == i {
                        assert(data@[i * new_cols + b] == (if b < cols {
                            self.data@[i * cols + b]
                        } else {
                            vector.data@[i as int]
                        }));
                    }
                }
            }
            row = row + cols;
            i = i + 1;
        }
        let dims: Vec<usize> = vec![rows, new_cols];
        proof {
            assert(dims@ =~= seq![rows, new_cols]);
        }
        Tensor { data, shape: Shape(dims), og_shape: no_shape() }
    }

    /// Enlarges the matrix to the given shape and fills it up with zeros.
    pub fn reshape_to_fit_inplace_2d(&mut self, new_shape: Shape)
        requires
            old(self).shape@.len() == 2 || old(self).shape@.len() == 4,
            0 < old(self).spec_nrows_2d() <= usize::MAX,
            0 < old(self).spec_ncols_2d() <= usize::MAX,
            old(self).spec_nrows_2d() * old(self).spec_ncols_2d() <= old(self).data@.len(),
            new_shape@.len() == 2,
            old(self).spec_nrows_2d() <= new_shape@[0],
            old(self).spec_ncols_2d() <= new_shape@[1],
            new_shape@[0] * new_shape@[1] <= usize::MAX,
        ensures
            final(self).wf(),
            final(self).shape@ == new_shape@,
            final(self).og_shape@ == seq![0usize],
            forall|i: int, j: int|
                0 <= i < new_shape@[0] && 0 <= j < new_shape@[1] ==> #[trigger] final(self).data@[i
                    * new_shape@[1] + j] == (if i < old(self).spec_nrows_2d() && j
                    < old(self).spec_ncols_2d() {
                    old(self).data@[i * old(self).spec_ncols_2d() + j]
                } else {
                    T::s_zero()
                }),
    {
        let old_rows = self.nrows_2d();
        let old_cols = self.ncols_2d();
        let total = self.data.len();
        let (new_rows, new_cols) = (new_shape.0[0], new_shape.0[1]);
        let len: usize = new_rows * new_cols;
        let ghost src = self.data@;
        let mut data: Vec<T> = Vec::with_capacity(len);
        let mut idx: usize = 0;
        while idx < len
            invariant
                idx <= len,
                len == new_rows * new_cols,
                new_cols > 0,
                src == self.data@,
                total == src.len(),
                old_rows * old_cols <= total,
                data@.len() == idx,
                forall|q: int|
                    0 <= q < idx ==> #[trigger] data@[q] == (if q / (new_cols as int) < old_rows
                        && q % (new_cols as int) < old_cols {
                        src[(q / (new_cols as int)) * old_cols + q % (new_cols as int)]
                    } else {
                        T::s_zero()
                    }),
            decreases len - idx,
        {
            let i = idx / new_cols;
            let j = idx % new_cols;
            if i < old_rows && j < old_cols {
                proof {
                    lemma_grid_bound(i as int, old_rows as int, j as int, old_cols as int);
                    assert(i * old_cols >= 0) by (nonlinear_arith)
                        requires
                            i >= 0,
                            old_cols >= 0,
                    ;
                }
                data.push(self.data[i * old_cols + j]);
            } else {
                data.push(T::zero());
            }
            idx = idx + 1;
        }
        proof {
            lemma_prod_of_rank(new_shape@);
            assert forall|i: int, j: int|
                0 <= i < new_rows && 0 <= j < new_cols implies #[trigger] data@[i * new_cols + j]
                == (if i < old_rows && j < old_cols {
                src[i * old_cols + j]
            } else {
                T::s_zero()
            }) by {
                lemma_grid_bound(i, new_rows as int, j, new_cols as int);
                lemma_grid_digits(i, j, new_cols as int);
            }
        }
        *self = Tensor::new(new_shape, data);
    }

    /// A batch of lower triangular matrices of ones.
    pub fn tril(matrix_dim: usize, num_matrices: usize, diag: i32) -> (r: Tensor<T>)
        requires
            matrix_dim <= i32::MAX,
            matrix_dim + diag <= i32::MAX,
            num_matrices * (matrix_dim * matrix_dim) <= usize::MAX,
            matrix_dim * matrix_dim <= usize::MAX,
        ensures
            r.wf(),
            r.shape@ == seq![num_matrices, matrix_dim, matrix_dim],
            r.og_shape@ == seq![0usize],
            forall|b: int, i: int, j: int|
                0 <= b < num_matrices && 0 <= i < matrix_dim && 0 <= j < matrix_dim ==> (
                #[trigger] r.data@[b * (matrix_dim * matrix_dim) + (i * matrix_dim + j)]).value()
                    == (if j <= i + diag {
                    T::m_one()
                } else {
                    T::m_zero()
                }),
    {
        Self::tri(matrix_dim, num_matrices, diag, T::unit(), T::zero())
    }

    /// A batch of square matrices: `lower_val` up to `diag` places right of the diagonal, and
    /// `upper_val` beyond.
    pub fn tri(
        matrix_dim: usize,
        num_matrices: usize,
        diag: i32,
        lower_val: T,
        upper_val: T,
    ) -> (r: Tensor<T>)
        requires
            matrix_dim <= i32::MAX,
            matrix_dim + diag <= i32::MAX,
            num_matrices * (matrix_dim * matrix_dim) <= usize::MAX,
            matrix_dim * matrix_dim <= usize::MAX,
        ensures
            r.wf(),
            r.shape@ == seq![num_matrices, matrix_dim, matrix_dim],
            r.og_shape@ == seq![0usize],
            forall|b: int, i: int, j: int|
                0 <= b < num_matrices && 0 <= i < matrix_dim && 0 <= j < matrix_dim
                    ==> #[trigger] r.data@[b * (matrix_dim * matrix_dim) + (i * matrix_dim + j)]
                    == (if j <= i + diag {
                    lower_val
                } else {
                    upper_val
                }),
    {
        let d = matrix_dim;
        let size: usize = d * d;
        let len: usize = num_matrices * size;
        let mut data: Vec<T> = Vec::with_capacity(len);
        let mut idx: usize = 0;
        while idx < len
            invariant
                idx <= len,
                size == d * d,
                len == num_matrices * size,
                d <= i32::MAX,
                d + diag <= i32::MAX,
                data@.len() == idx,
                forall|q: int|
                    0 <= q < idx ==> #[trigger] data@[q] == (if (q % (size as int)) % (d as int) <= (
                    q % (size as int)) / (d as int) + diag {
                        lower_val
                    } else {
                        upper_val
                    }),
            decreases len - idx,
        {
            proof {
                if d == 0 {
                    assert(num_matrices * (d * d) == 0) by (nonlinear_arith)
                        requires
                            d == 0,
                    ;
                }
                assert(size >= 1) by (nonlinear_arith)
                    requires
                        size == d * d,
                        d >= 1,
                ;
                lemma_grid_split(idx as int, num_matrices as int, size as int);
                lemma_grid_split(idx as int % size as int, d as int, d as int);
            }
            let place = idx % size;
            let (i, j) = (place / d, place % d);
            let limit: i64 = i as i64 + diag as i64;
            if j as i64 <= limit {
                data.push(lower_val);
            } else {
                data.push(upper_val);
            }
            idx = idx + 1;
        }
        let dims: Vec<usize> = vec![num_matrices, d, d];
        proof {
            assert(dims@ =~= seq![num_matrices, d, d]);
            lemma_prod3(num_matrices, d, d);
            assert forall|b: int, i: int, j: int|
                0 <= b < num_matrices && 0 <= i < matrix_dim && 0 <= j < matrix_dim
                implies #[trigger] data@[b * (matrix_dim * matrix_dim) + (i * matrix_dim + j)] == (
            if j <= i + diag {
                lower_val
            } else {
                upper_val
            }) by {
                lemma_grid_bound(i, d as int, j, d as int);
                lemma_grid_bound(b, num_matrices as int, i * d + j, size as int);
                lemma_grid_digits(b, i * d + j, size as int);
                lemma_grid_digits(i, j, d as int);
            }
        }
        Tensor::new(Shape(dims), data)
    }
}

/// Transposing twice gives the matrix back.
pub proof fn law_transpose_involution<T: Number>(a: Tensor<T>, b: Tensor<T>, c: Tensor<T>)
    requires
        a.wf(),
        a.shape@.len() == 2,
        is_transpose(b, a),
        is_transpose(c, b),
    ensures
        c.shape@ == a.shape@,
        c.data@ == a.data@,
{
    let (m, n) = (a.shape@[0] as int, a.shape@[1] as int);
    lemma_prod_of_rank(a.shape@);
    lemma_prod_of_rank(c.shape@);
    assert(c.shape@ =~= a.shape@);
    assert forall|q: int| 0 <= q < a.data@.len() implies c.data@[q] == a.data@[q] by {
        if n == 0 {
            assert(m * n == 0) by (nonlinear_arith)
                requires
                    n == 0,
            ;
        }
        lemma_grid_split(q, m, n);
        let (i, j) = (q / n, q % n);
        assert(b.data@[j * m + i] == a.data@[i * n + j]);
        assert(c.data@[i * n + j] == b.data@[j * m + i]);
    }
    assert(c.data@ =~= a.data@);
}

/// `b` is the transposed matrix of `a`, as `transpose` gives it.
pub open spec fn is_transpose<T>(b: Tensor<T>, a: Tensor<T>) -> bool {
    &&& a.shape@.len() == 2
    &&& b.wf()
    &&& b.shape@ == seq![a.shape@[1], a.shape@[0]]
    &&& forall|i: int, j: int|
        0 <= i < a.shape@[0] && 0 <= j < a.shape@[1] ==> #[trigger] b.data@[j * a.shape@[0] + i]
            == a.data@[i * a.shape@[1] + j]
}

} // verus!
