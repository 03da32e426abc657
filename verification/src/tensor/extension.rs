//! Tensors as tables of multilinear extensions.
use crate::arith::{flog2, is_pow2, lemma_flog2_pow2, lemma_grid_bound};
use crate::fft::fes;
use crate::field::{fint, Fe, GoldilocksExt2};
use crate::mle::{bits, law_mle_at_corner, lemma_bits_append, mle_eval, to_bits, Mle};
use crate::number::Element;
use crate::shape::lemma_prod_of_rank;
use crate::tensor::{copy_slice, Tensor};
use vstd::arithmetic::power2::{lemma_pow2_adds, pow2};
use vstd::prelude::*;

verus! {

/// The number of rows and the number of columns are powers of two.
pub open spec fn is_pow2_matrix<T>(t: &Tensor<T>) -> bool {
    &&& t.wf()
    &&& t.shape@.len() == 2
    &&& is_pow2(t.shape@[0] as int)
    &&& is_pow2(t.shape@[1] as int)
}

/// The entries as field elements.
pub open spec fn field_table(t: &Tensor<Element>) -> Seq<Fe> {
    Seq::new(t.data@.len(), |i: int| fint(t.data@[i] as int))
}

proof fn lemma_pow2_matrix<T>(t: &Tensor<T>)
    requires
        is_pow2_matrix(t),
    ensures
        t.data@.len() == pow2(flog2(t.shape@[0] as nat) + flog2(t.shape@[1] as nat)),
        t.shape@[0] == pow2(flog2(t.shape@[0] as nat)),
        t.shape@[1] == pow2(flog2(t.shape@[1] as nat)),
        t.data@.len() == t.shape@[0] * t.shape@[1],
{
    let a = choose|e: nat| #[trigger] pow2(e) == t.shape@[0];
    let b = choose|e: nat| #[trigger] pow2(e) == t.shape@[1];
    lemma_flog2_pow2(a);
    lemma_flog2_pow2(b);
    lemma_pow2_adds(a, b);
    lemma_prod_of_rank(t.shape@);
}

impl Tensor<Element> {
    /// The extension of a matrix, whose columns are addressed by the low variables and whose rows are
    /// addressed by the high ones.
    pub fn to_2d_mle(&self) -> (r: Mle)
        requires
            is_pow2_matrix(self),
        ensures
            r.wf(),
            r.num_vars == flog2(self.shape@[0] as nat) + flog2(self.shape@[1] as nat),
            r.table() == field_table(self),
    {
        let t = self.to_field_tensor();
        let r = t.to_mle_2d();
        proof {
            assert(r.table() =~= field_table(self));
        }
        r
    }

    /// The extension of the entries in their order.
    pub fn to_mle_flat(&self) -> (r: Mle)
        requires
            is_pow2(self.data@.len() as int),
        ensures
            r.wf(),
            r.num_vars == flog2(self.data@.len()),
            r.table() == field_table(self),
    {
        let r = Mle::new(self.evals_flat());
        proof {
            assert(r.table() =~= field_table(self));
            lemma_flog2_pow2(r.num_vars as nat);
        }
        r
    }
}

impl Tensor<GoldilocksExt2> {
    /// The extension of a matrix, whose columns are addressed by the low variables and whose rows are
    /// addressed by the high ones.
    pub fn to_mle_2d(&self) -> (r: Mle)
        requires
            is_pow2_matrix(self),
        ensures
            r.wf(),
            r.num_vars == flog2(self.shape@[0] as nat) + flog2(self.shape@[1] as nat),
            r.table() == fes(self.data@),
    {
        proof {
            lemma_pow2_matrix(self);
            lemma_flog2_pow2(flog2(self.shape@[0] as nat) + flog2(self.shape@[1] as nat));
            let e = flog2(self.shape@[0] as nat) + flog2(self.shape@[1] as nat);
            assert(pow2(e) == self.data@.len());
        }
        let r = Mle::new(copy_slice(&self.data));
        proof {
            lemma_flog2_pow2(r.num_vars as nat);
        }
        r
    }
}

impl<T> Tensor<T> {
    /// The coordinates of a row of a matrix.
    pub fn row_to_boolean_2d(&self, row: usize) -> (r: Vec<GoldilocksExt2>)
        requires
            self.shape@.len() == 2,
            self.shape@[0] > 0,
            self.shape@[1] > 0,
        ensures
            fes(r@) == bits(row as int, flog2(self.shape@[0] as nat)),
    {
        let (nvars_rows, _) = self.num_vars_2d();
        to_bits(row, nvars_rows)
    }

    /// The coordinates of a column of a matrix.
    pub fn col_to_boolean_2d(&self, col: usize) -> (r: Vec<GoldilocksExt2>)
        requires
            self.shape@.len() == 2,
            self.shape@[0] > 0,
            self.shape@[1] > 0,
        ensures
            fes(r@) == bits(col as int, flog2(self.shape@[1] as nat)),
    {
        let (_, nvars_col) = self.num_vars_2d();
        to_bits(col, nvars_col)
    }

    /// The coordinates of a place of a matrix: those of the column, then those of the row.
    pub fn position_to_boolean_2d(&self, row: usize, col: usize) -> (r: Vec<GoldilocksExt2>)
        requires
            self.shape@.len() == 2,
            self.shape@[0] > 0,
            self.shape@[1] > 0,
        ensures
            fes(r@) == bits(col as int, flog2(self.shape@[1] as nat)) + bits(
                row as int,
                flog2(self.shape@[0] as nat),
            ),
    {
        let mut r = self.col_to_boolean_2d(col);
        let mut rows = self.row_to_boolean_2d(row);
        let ghost (a, b) = (r@, rows@);
        r.append(&mut rows);
        proof {
            assert(fes(a + b) =~= fes(a) + fes(b));
        }
        r
    }
}

/// The extension of a matrix, at the coordinates of a place, is the entry at that place.
pub proof fn law_matrix_mle_at_position(t: &Tensor<Element>, row: int, col: int)
    requires
        is_pow2_matrix(t),
        0 <= row < t.shape@[0],
        0 <= col < t.shape@[1],
    ensures
        mle_eval(
            field_table(t),
            bits(col, flog2(t.shape@[1] as nat)) + bits(row, flog2(t.shape@[0] as nat)),
        ) == fint(t.data@[row * t.shape@[1] + col] as int),
{
    let nr = flog2(t.shape@[0] as nat);
    let nc = flog2(t.shape@[1] as nat);
    lemma_pow2_matrix(t);
    lemma_bits_append(col, nc, row, nr);
    lemma_grid_bound(row, t.shape@[0] as int, col, t.shape@[1] as int);
    let e = field_table(t);
    assert forall|i: int| 0 <= i < e.len() implies crate::field::canon(#[trigger] e[i]) by {
        crate::field::lemma_fint_hom(t.data@[i] as int, 0);
    }
    assert(nc + nr == nr + nc);
    law_mle_at_corner(e, row * t.shape@[1] + col, nc + nr);
}

} // verus!
