//! Matrices that ignore the garbage in the padded output of an attention layer.
use crate::arith::{lemma_grid_bound, lemma_grid_digits, lemma_grid_split};
use crate::number::{lemma_msum_eq, lemma_msum_grid, lemma_msum_truncate, lemma_msum_zero, msum, Number};
use crate::shape::{lemma_prod_of_rank, Shape};
use crate::tensor::linear::matmul_term;
use crate::tensor::Tensor;
use vstd::prelude::*;

verus! {

/// Why a matrix cannot be padded to ignore garbage.
#[derive(Debug, Clone, Copy, PartialEq, Eq, Structural)]
pub enum GarbageError {
    /// The shapes of the output before and after padding have different ranks.
    Ranks,
    /// The shapes of the output do not have rank three.
    NotThree,
    /// The shape to pad to is not that of a matrix.
    Target,
    /// What is to be padded is not a matrix.
    Matrix,
}

/// The row of the matrix that stands in row `row` of the padded one; none where that row meets garbage. Heads of
/// width `dim` lie in heads of width `padded_dim`.
pub open spec fn head_row(row: int, heads: int, dim: int, padded_dim: int) -> Option<int> {
    if row % padded_dim < dim && row / padded_dim < heads {
        Some(row / padded_dim * dim + row % padded_dim)
    } else {
        None
    }
}

/// The number of rows of the padded matrix.
pub open spec fn padded_rows(padded_mha: Seq<usize>, target: Seq<usize>) -> int {
    if target[0] >= padded_mha[1] * padded_mha[2] {
        target[0] as int
    } else {
        padded_mha[1] * padded_mha[2]
    }
}

/// The shapes are those of an output of an attention layer and of matrices.
pub open spec fn garbage_error<T>(
    m: &Tensor<T>,
    og: Seq<usize>,
    pad: Seq<usize>,
    target: Seq<usize>,
) -> Option<GarbageError> {
    if og.len() != pad.len() {
        Some(GarbageError::Ranks)
    } else if og.len() != 3 {
        Some(GarbageError::NotThree)
    } else if target.len() != 2 {
        Some(GarbageError::Target)
    } else if m.shape@.len() != 2 {
        Some(GarbageError::Matrix)
    } else {
        None
    }
}

/// The padded matrix can be held, and the rows that it takes are there.
pub open spec fn mha_paddable<T>(m: &Tensor<T>, og: Seq<usize>, pad: Seq<usize>, target: Seq<usize>) -> bool {
    let rows = padded_rows(pad, target);
    &&& m.wf()
    &&& pad[1] * pad[2] <= usize::MAX
    &&& rows * target[1] <= usize::MAX
    &&& rows * target[1] > 0 ==> pad[2] > 0
    &&& forall|row: int|
        0 <= row < rows && target[1] > 0 && m.shape@[1] > 0 ==> (match #[trigger] head_row(
            row,
            og[1] as int,
            og[2] as int,
            pad[2] as int,
        ) {
            Some(k) => k < m.shape@[0],
            None => true,
        })
}

/// `r` is `m` with its rows moved to where the heads lie after padding, and zeros elsewhere.
pub open spec fn is_mha_padded<T: Number>(r: &Tensor<T>, m: &Tensor<T>, heads: int, dim: int, padded_dim: int) -> bool {
    let cols = r.shape@[1] as int;
    &&& r.wf()
    &&& r.shape@.len() == 2
    &&& forall|row: int, col: int|
        0 <= row < r.shape@[0] && 0 <= col < cols ==> #[trigger] r.data@[row * cols + col] == (match head_row(
            row,
            heads,
            dim,
            padded_dim,
        ) {
            Some(k) => if col < m.shape@[1] {
                m.data@[k * m.shape@[1] + col]
            } else {
                T::s_zero()
            },
            None => T::s_zero(),
        })
}

/// The matrix, padded so that a product with the padded output of an attention layer ignores its garbage.
pub fn pad_matrix_to_ignore_mha_garbage<T: Number>(
    matrix: &Tensor<T>,
    unpadded_mha_shape: &Shape,
    padded_mha_shape: &Shape,
    padded_shape: Shape,
) -> (r: Result<Tensor<T>, GarbageError>)
    requires
        garbage_error(matrix, unpadded_mha_shape@, padded_mha_shape@, padded_shape@) is None ==> mha_paddable(
            matrix,
            unpadded_mha_shape@,
            padded_mha_shape@,
            padded_shape@,
        ),
    ensures
        match r {
            Ok(t) => {
                &&& garbage_error(matrix, unpadded_mha_shape@, padded_mha_shape@, padded_shape@) is None
                &&& t.shape@.len() == 2
                &&& t.shape@[0] == padded_rows(padded_mha_shape@, padded_shape@)
                &&& t.shape@[1] == padded_shape@[1]
                &&& t.og_shape@ == seq![0usize]
                &&& is_mha_padded(
                    &t,
                    matrix,
                    unpadded_mha_shape@[1] as int,
                    unpadded_mha_shape@[2] as int,
                    padded_mha_shape@[2] as int,
                )
            },
            Err(e) => garbage_error(matrix, unpadded_mha_shape@, padded_mha_shape@, padded_shape@) == Some(e),
        },
{
    if unpadded_mha_shape.rank() != padded_mha_shape.rank() {
        return Err(GarbageError::Ranks);
    }
    if unpadded_mha_shape.rank() != 3 {
        return Err(GarbageError::NotThree);
    }
    if !padded_shape.is_matrix() {
        return Err(GarbageError::Target);
    }
    if !matrix.shape.is_matrix() {
        return Err(GarbageError::Matrix);
    }
    let heads = unpadded_mha_shape.0[1];
    let dim = unpadded_mha_shape.0[2];
    let padded_dim = padded_mha_shape.0[2];
    let needed: usize = padded_mha_shape.0[1] * padded_dim;
    let nrows: usize = if padded_shape.0[0] >= needed {
        padded_shape.0[0]
    } else {
        needed
    };
    let ncols = padded_shape.0[1];
    let cols = matrix.shape.0[1];
    let len: usize = nrows * ncols;
    let mut data: Vec<T> = Vec::with_capacity(len);
    proof {
        lemma_prod_of_rank(matrix.shape@);
    }
    let mut i: usize = 0;
    while i < len
        invariant
            i <= len,
            len == nrows * ncols,
            nrows == padded_rows(padded_mha_shape@, padded_shape@),
            ncols == padded_shape@[1],
            heads == unpadded_mha_shape@[1],
            dim == unpadded_mha_shape@[2],
            padded_dim == padded_mha_shape@[2],
            matrix.shape@.len() == 2,
            cols == matrix.shape@[1],
            matrix.data@.len() == matrix.shape@[0] * cols,
            mha_paddable(matrix, unpadded_mha_shape@, padded_mha_shape@, padded_shape@),
            data@.len() == i,
            forall|p: int|
                0 <= p < i ==> #[trigger] data@[p] == (match head_row(
                    p / (ncols as int),
                    heads as int,
                    dim as int,
                    padded_dim as int,
                ) {
                    Some(k) => if p % (ncols as int) < cols {
                        matrix.data@[k * cols + p % (ncols as int)]
                    } else {
                        T::s_zero()
                    },
                    None => T::s_zero(),
                }),
        decreases len - i,
    {
        proof {
            lemma_grid_split(i as int, nrows as int, ncols as int);
        }
        let row = i / ncols;
        let col = i % ncols;
        if row % padded_dim < dim && row / padded_dim < heads && col < cols {
            proof {
                assert(head_row(row as int, heads as int, dim as int, padded_dim as int) is Some);
                let k = row as int / padded_dim as int * dim + row as int % padded_dim as int;
                assert(k < matrix.shape@[0]);
                assert(row as int / padded_dim as int * dim >= 0) by (nonlinear_arith)
                    requires
                        row as int / padded_dim as int >= 0,
                        dim >= 0,
                ;
                lemma_grid_bound(k, matrix.shape@[0] as int, col as int, cols as int);
                assert(k * cols >= 0) by (nonlinear_arith)
                    requires
                        k >= 0,
                        cols >= 0,
                ;
                assert(matrix.data@.len() == matrix.data.len());
            }
            let original_row: usize = row / padded_dim * dim + row % padded_dim;
            data.push(matrix.data[original_row * cols + col]);
        } else {
            data.push(T::zero());
        }
        i = i + 1;
    }
    let shape = Shape::new(vec![nrows, ncols]);
    proof {
        lemma_prod_of_rank(shape@);
        assert forall|row: int, col: int| 0 <= row < nrows && 0 <= col < ncols implies #[trigger] data@[row * ncols
            + col] == (match head_row(row, heads as int, dim as int, padded_dim as int) {
            Some(k) => if col < cols {
                matrix.data@[k * cols + col]
            } else {
                T::s_zero()
            },
            None => T::s_zero(),
        }) by {
            lemma_grid_bound(row, nrows as int, col, ncols as int);
            lemma_grid_digits(row, col, ncols as int);
        }
    }
    Ok(Tensor::new(shape, data))
}

/// The products of the entries of `x` with those of column `j` of a matrix with `p` columns.
pub open spec fn column_term<T: Number>(x: Seq<T>, b: Seq<T>, p: int, j: int) -> spec_fn(int) -> T::M {
    |t: int| T::m_mul(x[t].value(), b[t * p + j].value())
}

/// Entry `d` of head `h` of the padded row `xp` is that of the row `x`; the other entries are anything.
pub open spec fn holds_heads<T: Number>(xp: Seq<T>, x: Seq<T>, heads: int, dim: int, padded_dim: int) -> bool {
    forall|h: int, d: int|
        0 <= h < heads && 0 <= d < dim ==> (#[trigger] xp[h * padded_dim + d]).value() == x[h * dim + d].value()
}

/// A padded row of the output of an attention layer times the padded matrix is the row times the matrix, whatever
/// garbage the padded row holds; the further columns are zero.
pub proof fn law_mha_garbage_is_ignored<T: Number>(
    m: &Tensor<T>,
    padded: &Tensor<T>,
    x: Seq<T>,
    xp: Seq<T>,
    heads: nat,
    dim: nat,
    padded_dim: nat,
    col: int,
)
    requires
        m.wf(),
        m.shape@.len() == 2,
        m.shape@[0] == heads * dim,
        is_mha_padded(padded, m, heads as int, dim as int, padded_dim as int),
        dim <= padded_dim,
        0 < padded_dim,
        heads * padded_dim <= padded.shape@[0],
        x.len() == m.shape@[0],
        xp.len() == padded.shape@[0],
        holds_heads(xp, x, heads as int, dim as int, padded_dim as int),
        0 <= col < padded.shape@[1],
    ensures
        msum::<T>(padded.shape@[0] as nat, column_term(xp, padded.data@, padded.shape@[1] as int, col)) == (if col
            < m.shape@[1] {
            msum::<T>(m.shape@[0] as nat, column_term(x, m.data@, m.shape@[1] as int, col))
        } else {
            T::m_zero()
        }),
{
    let rows = padded.shape@[0] as nat;
    let cols = padded.shape@[1] as int;
    let mc = m.shape@[1] as int;
    let f = column_term(xp, padded.data@, cols, col);
    let g = column_term(x, m.data@, mc, col);
    let n = heads * padded_dim;
    assert(0 <= n) by (nonlinear_arith)
        requires
            n == heads * padded_dim,
    ;
    lemma_prod_of_rank(m.shape@);
    lemma_prod_of_rank(padded.shape@);
    assert forall|t: int| 0 <= t < rows implies T::m_valid(#[trigger] f(t)) && (t >= n ==> f(t) == T::m_zero()) by {
        let (a, b) = (xp[t].value(), padded.data@[t * cols + col].value());
        xp[t].law_value();
        padded.data@[t * cols + col].law_value();
        T::law_closed(a, b);
        T::law_ring(a, b, b);
        if t >= n {
            assert(t / padded_dim as int >= heads) by (nonlinear_arith)
                requires
                    t >= heads * padded_dim,
                    padded_dim > 0,
            ;
        }
    }
    lemma_msum_truncate::<T>(rows, n, f);
    lemma_msum_grid::<T>(heads, padded_dim, f);
    assert forall|t: int| 0 <= t < heads * dim && col < mc implies T::m_valid(#[trigger] g(t)) by {
        let (a, b) = (x[t].value(), m.data@[t * mc + col].value());
        x[t].law_value();
        m.data@[t * mc + col].law_value();
        T::law_closed(a, b);
    }
    let fr = |h: int| msum::<T>(padded_dim, |d: int| f(h * padded_dim + d));
    let gr = |h: int| msum::<T>(dim, |d: int| g(h * dim + d));
    assert forall|h: int| 0 <= h < heads implies #[trigger] fr(h) == (if col < mc {
        gr(h)
    } else {
        T::m_zero()
    }) by {
        let fh = |d: int| f(h * padded_dim + d);
        let gh = |d: int| g(h * dim + d);
        assert forall|d: int| 0 <= d < padded_dim implies T::m_valid(#[trigger] fh(d)) && fh(d) == (if d < dim && col < mc {
            gh(d)
        } else {
            T::m_zero()
        }) by {
            lemma_grid_bound(h, heads as int, d, padded_dim as int);
            lemma_grid_digits(h, d, padded_dim as int);
            let t = h * padded_dim + d;
            assert(T::m_valid(f(t)));
            let (a, b) = (xp[t].value(), padded.data@[t * cols + col].value());
            xp[t].law_value();
            padded.data@[t * cols + col].law_value();
            T::law_ring(a, b, b);
            if d < dim {
                lemma_grid_bound(h, heads as int, d, dim as int);
                assert(xp[h * padded_dim + d].value() == x[h * dim + d].value());
            }
        }
        if col < mc {
            lemma_msum_truncate::<T>(padded_dim, dim, fh);
            lemma_msum_eq::<T>(dim, fh, gh);
        } else {
            lemma_msum_zero::<T>(padded_dim, fh);
        }
    }
    if col < mc {
        lemma_msum_eq::<T>(heads, fr, gr);
        lemma_msum_grid::<T>(heads, dim, g);
    } else {
        lemma_msum_zero::<T>(heads, fr);
    }
}

/// Row `i` of the product of a padded output of an attention layer with the padded matrix is that of the product of the
/// output with the matrix, whatever garbage the padded output holds; the further columns are zero.
pub proof fn law_mha_garbage_in_products<T: Number>(
    m: &Tensor<T>,
    padded: &Tensor<T>,
    x: Seq<T>,
    xp: Seq<T>,
    heads: nat,
    dim: nat,
    padded_dim: nat,
    i: int,
    col: int,
)
    requires
        m.wf(),
        m.shape@.len() == 2,
        m.shape@[0] == heads * dim,
        is_mha_padded(padded, m, heads as int, dim as int, padded_dim as int),
        dim <= padded_dim,
        0 < padded_dim,
        heads * padded_dim <= padded.shape@[0],
        0 <= i,
        (i + 1) * m.shape@[0] <= x.len(),
        (i + 1) * padded.shape@[0] <= xp.len(),
        forall|h: int, d: int|
            0 <= h < heads && 0 <= d < dim ==> (#[trigger] xp[i * padded.shape@[0] + (h * padded_dim + d)]).value()
                == x[i * m.shape@[0] + (h * dim + d)].value(),
        0 <= col < padded.shape@[1],
    ensures
        msum::<T>(
            padded.shape@[0] as nat,
            matmul_term::<T>(xp, padded.data@, padded.shape@[0] as int, padded.shape@[1] as int, i, col),
        ) == (if col < m.shape@[1] {
            msum::<T>(
                m.shape@[0] as nat,
                matmul_term::<T>(x, m.data@, m.shape@[0] as int, m.shape@[1] as int, i, col),
            )
        } else {
            T::m_zero()
        }),
{
    let (n, np) = (m.shape@[0] as int, padded.shape@[0] as int);
    assert((i + 1) * n == i * n + n && (i + 1) * np == i * np + np && i * n >= 0 && i * np >= 0) by (nonlinear_arith)
        requires
            i >= 0,
            n >= 0,
            np >= 0,
    ;
    let row = x.subrange(i * n, (i + 1) * n);
    let rowp = xp.subrange(i * np, (i + 1) * np);
    assert forall|h: int, d: int| 0 <= h < heads && 0 <= d < dim implies (#[trigger] rowp[h * padded_dim + d]).value()
        == row[h * dim + d].value() by {
        lemma_grid_bound(h, heads as int, d, padded_dim as int);
        lemma_grid_bound(h, heads as int, d, dim as int);
        assert(0 <= h * padded_dim && 0 <= h * dim) by (nonlinear_arith)
            requires
                h >= 0,
                padded_dim >= 0,
                dim >= 0,
        ;
        assert(xp[i * np + (h * padded_dim + d)].value() == x[i * n + (h * dim + d)].value());
    }
    law_mha_garbage_is_ignored(m, padded, row, rowp, heads, dim, padded_dim, col);
    lemma_msum_eq::<T>(
        np as nat,
        matmul_term::<T>(xp, padded.data@, np, padded.shape@[1] as int, i, col),
        column_term(rowp, padded.data@, padded.shape@[1] as int, col),
    );
    lemma_msum_eq::<T>(
        n as nat,
        matmul_term::<T>(x, m.data@, n, m.shape@[1] as int, i, col),
        column_term(row, m.data@, m.shape@[1] as int, col),
    );
}

} // verus!
