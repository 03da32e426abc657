//! Padding of layers with weights.
use crate::arith::{lemma_npot, npot};
use crate::number::{lemma_msum_eq, lemma_msum_truncate, lemma_msum_zero, msum, Element};
use crate::padding::{
    is_removed, minimum, pad_minimum, removable, removal_error, GarbageDims, PadError, ShapeData, ShapeDims, ShapeInfo,
};
use crate::shape::{lemma_prod1, lemma_prod_of_rank, nonzero, prod, Shape};
use crate::tensor::linear::matvec_term;
use crate::tensor::pad::{all_pow2, padded};
use crate::tensor::Tensor;
use vstd::prelude::*;

verus! {

/// `r` is the matrix with further rows and columns of zeros.
pub open spec fn is_fitted(r: &Tensor<Element>, m: &Tensor<Element>, rows: int, cols: int) -> bool {
    &&& r.wf()
    &&& r.shape@.len() == 2
    &&& r.shape@[0] == rows
    &&& r.shape@[1] == cols
    &&& r.og_shape@ == seq![0usize]
    &&& forall|i: int, j: int|
        0 <= i < rows && 0 <= j < cols ==> #[trigger] r.data@[i * cols + j] == (if i < m.shape@[0] && j < m.shape@[1] {
            m.data@[i * m.shape@[1] + j]
        } else {
            0
        })
}

/// The matrix can be enlarged to the given size.
pub open spec fn fittable(m: &Tensor<Element>, rows: int, cols: int) -> bool {
    &&& m.wf()
    &&& m.shape@.len() == 2
    &&& 0 < m.shape@[0] <= rows
    &&& 0 < m.shape@[1] <= cols
    &&& rows * cols <= usize::MAX
}

fn fit(m: &mut Tensor<Element>, rows: usize, cols: usize)
    requires
        fittable(old(m), rows as int, cols as int),
    ensures
        is_fitted(final(m), old(m), rows as int, cols as int),
{
    proof {
        lemma_prod_of_rank(m.shape@);
    }
    m.reshape_to_fit_inplace_2d(Shape::new(vec![rows, cols]));
}

/// A padded matrix times a padded vector is the matrix times the vector, whatever the padded vector holds beyond the
/// entries of the vector; the further rows give zero.
pub proof fn law_fitted_product(
    r: &Tensor<Element>,
    m: &Tensor<Element>,
    rows: int,
    cols: int,
    x: Seq<Element>,
    xp: Seq<Element>,
    i: int,
)
    requires
        is_fitted(r, m, rows, cols),
        m.shape@.len() == 2,
        m.shape@[1] <= cols,
        forall|j: int| 0 <= j < m.shape@[1] ==> #[trigger] xp[j] == x[j],
        0 <= i < rows,
    ensures
        msum::<Element>(cols as nat, matvec_term::<Element>(r.data@, xp, cols, i)) == (if i < m.shape@[0] {
            msum::<Element>(m.shape@[1] as nat, matvec_term::<Element>(m.data@, x, m.shape@[1] as int, i))
        } else {
            0
        }),
{
    let n = m.shape@[1] as nat;
    let f = matvec_term::<Element>(r.data@, xp, cols, i);
    let g = matvec_term::<Element>(m.data@, x, n as int, i);
    assert forall|j: int| 0 <= j < cols implies #[trigger] f(j) == (if i < m.shape@[0] && j < n {
        g(j)
    } else {
        0
    }) by {
        let y = xp[j] as int;
        assert(r.data@[i * cols + j] == (if i < m.shape@[0] && j < n {
            m.data@[i * n + j]
        } else {
            0
        }));
        assert(0 * y == 0);
    }
    if i < m.shape@[0] {
        lemma_msum_truncate::<Element>(cols as nat, n, f);
        lemma_msum_eq::<Element>(n, f, g);
    } else {
        lemma_msum_zero::<Element>(cols as nat, f);
    }
}

/// A layer that multiplies a vector by a matrix and adds a bias.
#[derive(Debug)]
pub struct Dense<T> {
    pub matrix: Tensor<T>,
    pub bias: Tensor<T>,
}

/// The number of entries of the padded input of a dense layer.
pub open spec fn dense_width(d: ShapeDims) -> nat {
    if d.padded.len() == 1 {
        d.padded[0] as nat
    } else {
        prod(d.padded)
    }
}

/// The padded size of the matrix of a dense layer.
pub open spec fn dense_target(d: &Dense<Element>, dims: ShapeDims) -> Seq<usize> {
    seq![minimum(d.matrix.shape@[0] as nat) as usize, minimum(dense_width(dims)) as usize]
}

/// What keeps a dense layer from being padded.
pub open spec fn dense_error(d: &Dense<Element>, ds: Seq<ShapeDims>) -> Option<PadError> {
    if ds.len() != 1 {
        Some(PadError::InputCount)
    } else if d.bias.data@.len() != d.matrix.shape@[0] {
        Some(PadError::Bias)
    } else if !all_pow2(ds[0].padded) {
        Some(PadError::NotPadded)
    } else if d.matrix.shape@[1] > dense_width(ds[0]) {
        Some(PadError::TooManyColumns)
    } else {
        match ds[0].garbage {
            Some(g) => match removal_error(g, &d.matrix, dense_target(d, ds[0])) {
                Some(e) => Some(PadError::Unremovable(e)),
                None => None,
            },
            None => None,
        }
    }
}

/// The layer and its input are of a form that can be padded.
pub open spec fn dense_ok(d: &Dense<Element>, ds: Seq<ShapeDims>) -> bool {
    let t = dense_target(d, ds[0]);
    &&& d.matrix.shape@.len() == 2
    &&& d.matrix.shape@[0] > 0
    &&& d.matrix.shape@[1] > 0
    &&& d.bias.wf()
    &&& d.bias.shape@.len() == 1
    &&& npot(d.matrix.shape@[0] as nat) <= usize::MAX
    &&& ds.len() == 1 ==> {
        &&& dense_width(ds[0]) <= usize::MAX
        &&& npot(dense_width(ds[0])) <= usize::MAX
        &&& match ds[0].garbage {
            Some(g) => removable(g, &d.matrix, t),
            None => d.matrix.wf() && t[0] * t[1] <= usize::MAX,
        }
    }
}

/// `r` is what padding the layer for the shapes `ds` gives, and `after` are the shapes then.
pub open spec fn is_dense_padding(
    r: Result<Dense<Element>, PadError>,
    after: Seq<ShapeDims>,
    d: &Dense<Element>,
    ds: Seq<ShapeDims>,
) -> bool {
    let rows = d.matrix.shape@[0];
    let dims = ds[0];
    let t = dense_target(d, dims);
    match r {
        Ok(q) => {
            &&& dense_error(d, ds) is None
            &&& match dims.garbage {
                Some(g) => is_removed(g, &q.matrix, &d.matrix, t),
                None => is_fitted(&q.matrix, &d.matrix, t[0] as int, t[1] as int),
            }
            &&& q.bias.wf()
            &&& q.bias.shape@ == seq![t[0]]
            &&& q.bias.og_shape@ == d.bias.og_shape@
            &&& forall|i: int|
                0 <= i < t[0] ==> #[trigger] q.bias.data@[i] == (if i < rows {
                    d.bias.data@[i]
                } else {
                    0
                })
            &&& after == seq![ShapeDims { padded: seq![t[0]], garbage: None, og: seq![rows] }]
        },
        Err(e) => {
            &&& dense_error(d, ds) == Some(e)
            &&& after == (if e == PadError::InputCount {
                ds
            } else if e == PadError::Bias || e == PadError::NotPadded {
                seq![ShapeDims { padded: dims.padded, garbage: dims.garbage, og: seq![rows] }]
            } else {
                seq![
                    ShapeDims {
                        padded: seq![dense_width(dims) as usize],
                        garbage: dims.garbage,
                        og: seq![rows],
                    },
                ]
            })
        },
    }
}

/// Padding of a dense layer. Where it fails, the shapes of the input are those that it had found until then.
pub fn pad_dense(d: Dense<Element>, si: &mut ShapeInfo) -> (r: Result<Dense<Element>, PadError>)
    requires
        dense_ok(&d, old(si)@),
    ensures
        is_dense_padding(r, final(si)@, &d, old(si)@),
{
    if si.shapes.len() != 1 {
        return Err(PadError::InputCount);
    }
    let mut d = d;
    let ghost m0 = d.matrix;
    let ghost dims = si@[0];
    let nrows = d.matrix.shape.nrows();
    let og: Vec<usize> = vec![nrows];
    proof {
        assert(og@ =~= seq![nrows]);
        lemma_prod1(nrows);
    }
    let data = ShapeData { input_shape_og: Shape(og), ..si.shapes[0].clone() };
    let garbage = data.ignore_garbage_pad.clone();
    si.shapes.set(0, data);
    proof {
        assert(si@ =~= seq![data@]);
    }
    if d.bias.data.len() != nrows {
        return Err(PadError::Bias);
    }
    if !si.shapes[0].input_shape_padded.is_power_of_two() {
        return Err(PadError::NotPadded);
    }
    let width: usize = if si.shapes[0].input_shape_padded.rank() != 1 {
        si.shapes[0].input_shape_padded.product()
    } else {
        si.shapes[0].input_shape_padded.0[0]
    };
    let wide: Vec<usize> = vec![width];
    proof {
        assert(wide@ =~= seq![width]);
        if dims.padded.len() == 1 {
            assert(dims.padded =~= seq![width]);
        }
    }
    let data = ShapeData { input_shape_padded: Shape(wide), ..si.shapes[0].clone() };
    si.shapes.set(0, data);
    proof {
        assert(si@ =~= seq![data@]);
    }
    if d.matrix.ncols_2d() > width {
        return Err(PadError::TooManyColumns);
    }
    let ncols = pad_minimum(width);
    let nrows = pad_minimum(d.matrix.nrows_2d());
    let target: Vec<usize> = vec![nrows, ncols];
    let ghost t = dense_target(&d, dims);
    proof {
        assert(target@ =~= t);
        lemma_npot(width as nat);
        lemma_npot(d.matrix.shape@[0] as nat);
    }
    match garbage {
        Some(g) => {
            match g.pad_matrix_to_ignore_garbage(&mut d.matrix, Shape(target)) {
                Ok(_) => {},
                Err(e) => {
                    return Err(PadError::Unremovable(e));
                },
            }
        },
        None => {
            fit(&mut d.matrix, nrows, ncols);
        },
    }
    let bias = d.bias.pad_1d(nrows);
    let padded: Vec<usize> = vec![nrows];
    let data = ShapeData {
        input_shape_padded: Shape(padded),
        ignore_garbage_pad: None,
        input_shape_og: si.shapes[0].input_shape_og.clone(),
    };
    proof {
        assert(padded@ =~= seq![t[0]]);
    }
    si.shapes.set(0, data);
    proof {
        assert(si@ =~= seq![data@]);
    }
    Ok(Dense { matrix: d.matrix, bias })
}

/// One of the factors of a product of matrices.
#[derive(Debug)]
pub enum OperandMatrix<T> {
    Weight(Tensor<T>),
    Input,
}

/// A product of two matrices, at least one of them an input, with a bias.
#[derive(Debug)]
pub struct MatMul<T> {
    pub left_matrix: OperandMatrix<T>,
    pub right_matrix: OperandMatrix<T>,
    pub bias: Option<Tensor<T>>,
    pub right_transposed: bool,
}

impl MatMul<Element> {
    /// The number of factors that are inputs.
    pub open spec fn inputs(self) -> nat {
        (if self.left_matrix is Input {
            1nat
        } else {
            0
        }) + (if self.right_matrix is Input {
            1nat
        } else {
            0
        })
    }

    pub fn num_inputs(&self) -> (r: usize)
        ensures
            r == self.inputs(),
    {
        match (&self.left_matrix, &self.right_matrix) {
            (OperandMatrix::Input, OperandMatrix::Input) => 2,
            (OperandMatrix::Weight(_), OperandMatrix::Weight(_)) => 0,
            _ => 1,
        }
    }

    /// The padded shape of the left factor.
    pub open spec fn left_shape(self, ds: Seq<ShapeDims>) -> Seq<usize> {
        match self.left_matrix {
            OperandMatrix::Weight(m) => seq![minimum(m.shape@[0] as nat) as usize, ds[0].padded[0]],
            OperandMatrix::Input => ds[0].padded,
        }
    }

    /// The padded shape that the right factor is given.
    pub open spec fn right_target(self, ds: Seq<ShapeDims>) -> Seq<usize> {
        match self.right_matrix {
            OperandMatrix::Weight(m) => seq![ds[0].padded[1], minimum(m.shape@[1] as nat) as usize],
            OperandMatrix::Input => ds.last().padded,
        }
    }

    /// The padded shape of the right factor as it is stored: removing garbage may ask for more rows.
    pub open spec fn right_stored(self, ds: Seq<ShapeDims>) -> Seq<usize> {
        let t = self.right_target(ds);
        match (self.right_matrix, ds[0].garbage) {
            (OperandMatrix::Weight(_), Some(GarbageDims::MHA(_, pad))) => seq![
                crate::layers::transformer::mha::garbage::padded_rows(pad, t) as usize,
                t[1],
            ],
            _ => t,
        }
    }

    /// The padded shape of the right factor in the product.
    pub open spec fn right_shape(self, ds: Seq<ShapeDims>) -> Seq<usize> {
        let s = self.right_stored(ds);
        if self.right_transposed {
            seq![s[1], s[0]]
        } else {
            s
        }
    }

    /// The shapes once the garbage of the left factor is removed.
    pub open spec fn cleaned(self, ds: Seq<ShapeDims>) -> Seq<ShapeDims> {
        if self.right_matrix is Weight {
            seq![ShapeDims { padded: ds[0].padded, garbage: None, og: ds[0].og }]
        } else {
            ds
        }
    }
}

/// All shapes of the inputs are those of matrices.
pub open spec fn all_matrices(ds: Seq<ShapeDims>) -> bool {
    forall|i: int| 0 <= i < ds.len() ==> (#[trigger] ds[i]).og.len() == 2 && ds[i].padded.len() == 2
}

/// No input has garbage.
pub open spec fn all_clean(ds: Seq<ShapeDims>) -> bool {
    forall|i: int| 0 <= i < ds.len() ==> (#[trigger] ds[i]).garbage is None
}

/// What keeps a product of matrices from being padded, before the weights are considered.
pub open spec fn matmul_input_error(m: &MatMul<Element>, ds: Seq<ShapeDims>, num_outputs: nat) -> Option<PadError> {
    if ds.len() != m.inputs() {
        Some(PadError::InputCount)
    } else if !all_matrices(ds) {
        Some(PadError::InputRank)
    } else if num_outputs != 1 {
        Some(PadError::OutputCount)
    } else {
        match (m.right_matrix, ds[0].garbage) {
            (OperandMatrix::Weight(w), Some(g)) => match removal_error(g, &w, m.right_target(ds)) {
                Some(e) => Some(PadError::Unremovable(e)),
                None => None,
            },
            _ => None,
        }
    }
}

/// What keeps a product of matrices from being padded.
pub open spec fn matmul_error(m: &MatMul<Element>, ds: Seq<ShapeDims>, num_outputs: nat) -> Option<PadError> {
    if matmul_input_error(m, ds, num_outputs) is Some {
        matmul_input_error(m, ds, num_outputs)
    } else if m.left_shape(ds)[1] != m.right_shape(ds)[0] {
        Some(PadError::Factors)
    } else if !all_clean(m.cleaned(ds)) {
        Some(PadError::Garbage)
    } else {
        None
    }
}

/// The weights are of a form that can be padded.
pub open spec fn matmul_ok(m: &MatMul<Element>, ds: Seq<ShapeDims>) -> bool {
    &&& m.inputs() > 0
    &&& ds.len() == m.inputs() && all_matrices(ds) ==> {
        &&& match m.left_matrix {
            OperandMatrix::Weight(w) => {
                let t = m.left_shape(ds);
                &&& w.shape@.len() == 2
                &&& npot(w.shape@[0] as nat) <= usize::MAX
                &&& fittable(&w, t[0] as int, t[1] as int)
            },
            OperandMatrix::Input => true,
        }
        &&& match m.right_matrix {
            OperandMatrix::Weight(w) => {
                let t = m.right_target(ds);
                &&& w.shape@.len() == 2
                &&& w.shape@[1] > 0
                &&& npot(w.shape@[1] as nat) <= usize::MAX
                &&& match ds[0].garbage {
                    Some(g) => removable(g, &w, t),
                    None => fittable(&w, t[0] as int, t[1] as int),
                }
            },
            OperandMatrix::Input => true,
        }
        &&& m.bias matches Some(b) ==> {
            &&& b.wf()
            &&& b.shape@.len() == 1
            &&& 0 < b.shape@[0] <= m.right_shape(ds)[1]
        }
    }
}

/// The weights of `r` are those of `m`, padded.
pub open spec fn is_padded_matmul(r: &MatMul<Element>, m: &MatMul<Element>, ds: Seq<ShapeDims>) -> bool {
    let l = m.left_shape(ds);
    let t = m.right_target(ds);
    &&& r.right_transposed == m.right_transposed
    &&& match (r.left_matrix, m.left_matrix) {
        (OperandMatrix::Weight(a), OperandMatrix::Weight(b)) => is_fitted(&a, &b, l[0] as int, l[1] as int),
        (OperandMatrix::Input, OperandMatrix::Input) => true,
        _ => false,
    }
    &&& match (r.right_matrix, m.right_matrix) {
        (OperandMatrix::Weight(a), OperandMatrix::Weight(b)) => match ds[0].garbage {
            Some(g) => is_removed(g, &a, &b, t),
            None => is_fitted(&a, &b, t[0] as int, t[1] as int),
        },
        (OperandMatrix::Input, OperandMatrix::Input) => true,
        _ => false,
    }
    &&& match (r.bias, m.bias) {
        (Some(a), Some(b)) => {
            let s = seq![m.right_shape(ds)[1]];
            &&& a.wf()
            &&& a.shape@ == s
            &&& a.og_shape@ == b.og_shape@
            &&& a.data@ == padded(b.data@, b.shape@, s, 0)
        },
        (None, None) => true,
        _ => false,
    }
}

/// `r` is what padding the product for the shapes `ds` gives, where its outputs have the given shapes before padding;
/// `after` are the shapes then.
pub open spec fn is_matmul_padding(
    r: Result<MatMul<Element>, PadError>,
    after: Seq<ShapeDims>,
    mat: &MatMul<Element>,
    ds: Seq<ShapeDims>,
    outputs: Seq<Shape>,
) -> bool {
    let n = outputs.len();
    match r {
        Ok(q) => {
            &&& matmul_error(mat, ds, n) is None
            &&& is_padded_matmul(&q, mat, ds)
            &&& after == seq![
                ShapeDims {
                    padded: seq![mat.left_shape(ds)[0], mat.right_shape(ds)[1]],
                    garbage: None,
                    og: outputs[0]@,
                },
            ]
        },
        Err(e) => {
            &&& matmul_error(mat, ds, n) == Some(e)
            &&& after == (if e == PadError::Factors || e == PadError::Garbage {
                mat.cleaned(ds)
            } else {
                ds
            })
        },
    }
}

/// Padding of a product of matrices, given the shapes of its output before padding.
pub fn pad_matmul(mat: MatMul<Element>, si: &mut ShapeInfo, unpadded_output_shapes: Vec<Shape>) -> (r: Result<
    MatMul<Element>,
    PadError,
>)
    requires
        matmul_ok(&mat, old(si)@),
    ensures
        is_matmul_padding(r, final(si)@, &mat, old(si)@, unpadded_output_shapes@),
{
    let ghost ds = si@;
    let ghost mat0 = mat;
    let mut unpadded_output_shapes = unpadded_output_shapes;
    if si.shapes.len() != mat.num_inputs() {
        return Err(PadError::InputCount);
    }
    if !are_matrices(si) {
        return Err(PadError::InputRank);
    }
    if unpadded_output_shapes.len() != 1 {
        return Err(PadError::OutputCount);
    }
    proof {
        assert(si@[0] == si.shapes@[0]@);
        assert(ds[0].og.len() == 2 && ds[0].padded.len() == 2);
    }
    let first = si.shapes[0].clone();
    let MatMul { left_matrix, right_matrix, bias, right_transposed } = mat;
    let left_shape: Shape;
    let right_stored: Shape;
    let left: OperandMatrix<Element>;
    let right: OperandMatrix<Element>;
    match left_matrix {
        OperandMatrix::Weight(m) => {
            let mut m = m;
            let nrows = pad_minimum(m.nrows_2d());
            let ncols = first.input_shape_padded.0[0];
            fit(&mut m, nrows, ncols);
            left_shape = m.shape.clone();
            proof {
                assert(left_shape@ =~= mat0.left_shape(ds));
            }
            left = OperandMatrix::Weight(m);
        },
        OperandMatrix::Input => {
            left_shape = first.input_shape_padded.clone();
            left = OperandMatrix::Input;
        },
    }
    match right_matrix {
        OperandMatrix::Weight(m) => {
            let mut m = m;
            let nrows = first.input_shape_padded.0[1];
            let ncols = pad_minimum(m.ncols_2d());
            let target: Vec<usize> = vec![nrows, ncols];
            proof {
                assert(target@ =~= mat0.right_target(ds));
                assert(left is Input);
                assert(ds.len() == 1);
            }
            match first.ignore_garbage_pad {
                Some(g) => {
                    match g.pad_matrix_to_ignore_garbage(&mut m, Shape(target)) {
                        Ok(_) => {},
                        Err(e) => {
                            return Err(PadError::Unremovable(e));
                        },
                    }
                    let data = ShapeData { ignore_garbage_pad: None, ..si.shapes[0].clone() };
                    si.shapes.set(0, data);
                    proof {
                        assert(si@ =~= seq![data@]);
                    }
                },
                None => {
                    fit(&mut m, nrows, ncols);
                },
            }
            right_stored = m.shape.clone();
            proof {
                assert(right_stored@ =~= mat0.right_stored(ds));
                assert(si@ =~= mat0.cleaned(ds));
            }
            right = OperandMatrix::Weight(m);
        },
        OperandMatrix::Input => {
            let last: usize = si.shapes.len() - 1;
            proof {
                assert(ds[last as int].padded.len() == 2);
                assert(si@[last as int] == si.shapes@[last as int]@);
            }
            right_stored = si.shapes[last].input_shape_padded.clone();
            right = OperandMatrix::Input;
        },
    }
    let (rows, cols) = if right_transposed {
        (right_stored.0[1], right_stored.0[0])
    } else {
        (right_stored.0[0], right_stored.0[1])
    };
    if left_shape.0[1] != rows {
        return Err(PadError::Factors);
    }
    if !si.is_clean() {
        return Err(PadError::Garbage);
    }
    let padded: Vec<usize> = vec![left_shape.0[0], cols];
    proof {
        assert(padded@ =~= seq![mat0.left_shape(ds)[0], mat0.right_shape(ds)[1]]);
    }
    let og = unpadded_output_shapes.remove(0);
    let data = ShapeData { input_shape_padded: Shape(padded), ignore_garbage_pad: None, input_shape_og: og };
    let mut shapes: Vec<ShapeData> = Vec::with_capacity(1);
    shapes.push(data);
    si.shapes = shapes;
    proof {
        assert(si@ =~= seq![data@]);
    }
    let bias = match bias {
        Some(b) => {
            let mut b = b;
            let target: Vec<usize> = vec![cols];
            proof {
                assert(target@ =~= seq![cols]);
                lemma_prod1(cols);
                assert(nonzero(b.shape@));
            }
            b.pad_to_shape(Shape(target));
            Some(b)
        },
        None => None,
    };
    Ok(MatMul { left_matrix: left, right_matrix: right, bias, right_transposed })
}

fn are_matrices(si: &ShapeInfo) -> (r: bool)
    ensures
        r == all_matrices(si@),
{
    let mut i: usize = 0;
    while i < si.shapes.len()
        invariant
            i <= si@.len(),
            si@.len() == si.shapes@.len(),
            forall|j: int| 0 <= j < i ==> (#[trigger] si@[j]).og.len() == 2 && si@[j].padded.len() == 2,
        decreases si@.len() - i,
    {
        let sd = &si.shapes[i];
        if sd.input_shape_og.rank() != 2 || sd.input_shape_padded.rank() != 2 {
            assert(si@[i as int].og.len() != 2 || si@[i as int].padded.len() != 2);
            return false;
        }
        i = i + 1;
    }
    true
}

} // verus!
