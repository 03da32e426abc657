//! Padding of a matrix that multiplies the padded output of a convolution.
use crate::arith::{lemma_grid_bound, lemma_grid_digits, lemma_grid_split};
use crate::number::{
    lemma_msum_eq, lemma_msum_grid, lemma_msum_truncate, lemma_msum_valid, lemma_msum_zero, msum,
    Number,
};
use crate::shape::{lemma_prod_of_rank, prod, Shape};
use crate::tensor::linear::matvec_term;
use crate::tensor::Tensor;
use vstd::prelude::*;

verus! {

/// The row, channel, line and column that place `loc` of the padded matrix stands for.
pub open spec fn garbage_digits(loc: int, pad: Seq<usize>, cols_pad: int) -> (int, int, int, int) {
    (
        loc / cols_pad,
        (loc / (pad[1] * pad[2])) % (pad[0] as int),
        (loc / (pad[2] as int)) % (pad[1] as int),
        loc % (pad[2] as int),
    )
}

/// The place in the matrix that place `loc` of the padded matrix takes its value from.
pub open spec fn garbage_source(
    loc: int,
    og: Seq<usize>,
    pad: Seq<usize>,
    mat_og: Seq<usize>,
    cols_pad: int,
) -> Option<int> {
    let (row, channel, h, w) = garbage_digits(loc, pad, cols_pad);
    if row < mat_og[0] && channel < og[0] && h < og[1] && w < og[2] {
        Some(channel * og[1] * og[2] + h * og[2] + w + row * mat_og[1])
    } else {
        None
    }
}

/// The padded matrix can be held, and the entries that it takes are there.
pub open spec fn garbage_paddable<T>(m: &Tensor<T>, og: Seq<usize>, pad: Seq<usize>, target: Seq<usize>) -> bool {
    &&& og.len() == 3
    &&& pad.len() == 3
    &&& target.len() == 2
    &&& m.shape@.len() == 2
    &&& target[0] * target[1] <= usize::MAX
    &&& target[0] * target[1] > 0 ==> {
        &&& pad[0] > 0
        &&& pad[1] > 0
        &&& pad[2] > 0
        &&& pad[1] * pad[2] <= usize::MAX
    }
    &&& forall|loc: int|
        0 <= loc < target[0] * target[1] ==> (match #[trigger] garbage_source(
            loc,
            og,
            pad,
            m.shape@,
            target[1] as int,
        ) {
            Some(p) => p < m.data@.len(),
            None => true,
        })
}

impl<T: Number> Tensor<T> {
    /// The matrix padded so that its product with the padded output of a convolution is that of
    /// the matrix with the output itself.
    ///
    /// The output of shape `conv_shape_og` lies in the corner of one of shape `conv_shape_pad`. The
    /// columns that meet it keep their entries, all others are zero, and so are further rows.
    pub fn pad_matrix_to_ignore_garbage(
        &self,
        conv_shape_og: &[usize],
        conv_shape_pad: &[usize],
        mat_shp_pad: &Shape,
    ) -> (r: Self)
        requires
            garbage_paddable(self, conv_shape_og@, conv_shape_pad@, mat_shp_pad@),
        ensures
            r.shape@ == mat_shp_pad@,
            r.og_shape@ == seq![0usize],
            ignores_garbage(r, *self, conv_shape_og@, conv_shape_pad@),
    {
        let (og0, og1, og2) = (conv_shape_og[0], conv_shape_og[1], conv_shape_og[2]);
        let (p0, p1, p2) = (conv_shape_pad[0], conv_shape_pad[1], conv_shape_pad[2]);
        let (rows, cols) = (self.shape.0[0], self.shape.0[1]);
        let cols_pad = mat_shp_pad.0[1];
        let total = self.data.len();
        let len: usize = mat_shp_pad.0[0] * cols_pad;
        let mut data: Vec<T> = Vec::with_capacity(len);
        let mut loc: usize = 0;
        while loc < len
            invariant
                loc <= len,
                len == mat_shp_pad@[0] * cols_pad,
                cols_pad == mat_shp_pad@[1],
                conv_shape_og@.len() == 3,
                conv_shape_pad@.len() == 3,
                og0 == conv_shape_og@[0],
                og1 == conv_shape_og@[1],
                og2 == conv_shape_og@[2],
                p0 == conv_shape_pad@[0],
                p1 == conv_shape_pad@[1],
                p2 == conv_shape_pad@[2],
                len > 0 ==> p0 > 0 && p1 > 0 && p2 > 0 && p1 * p2 <= usize::MAX,
                self.shape@.len() == 2,
                rows == self.shape@[0],
                cols == self.shape@[1],
                total == self.data@.len(),
                data@.len() == loc,
                forall|loc: int|
                    0 <= loc < len ==> (match #[trigger] garbage_source(
                        loc,
                        conv_shape_og@,
                        conv_shape_pad@,
                        self.shape@,
                        cols_pad as int,
                    ) {
                        Some(p) => p < total,
                        None => true,
                    }),
                forall|q: int|
                    0 <= q < loc ==> #[trigger] data@[q] == (match garbage_source(
                        q,
                        conv_shape_og@,
                        conv_shape_pad@,
                        self.shape@,
                        cols_pad as int,
                    ) {
                        Some(p) => self.data@[p],
                        None => T::s_zero(),
                    }),
            decreases len - loc,
        {
            proof {
                if cols_pad == 0 {
                    assert(mat_shp_pad@[0] * cols_pad == 0) by (nonlinear_arith)
                        requires
                            cols_pad == 0,
                    ;
                }
                assert(p1 * p2 >= 1) by (nonlinear_arith)
                    requires
                        p1 >= 1,
                        p2 >= 1,
                ;
            }
            let row = loc / cols_pad;
            let channel = (loc / (p1 * p2)) % p0;
            let h_in = (loc / p2) % p1;
            let w_in = loc % p2;
            let ghost source = garbage_source(
                loc as int,
                conv_shape_og@,
                conv_shape_pad@,
                self.shape@,
                cols_pad as int,
            );
            if row < rows && channel < og0 && h_in < og1 && w_in < og2 {
                proof {
                    assert(source == Some(channel * og1 * og2 + h_in * og2 + w_in + row * cols));
                    assert(0 <= channel * og1 <= channel * og1 * og2) by (nonlinear_arith)
                        requires
                            channel >= 0,
                            og1 >= 1,
                            og2 >= 1,
                    ;
                    assert(0 <= h_in * og2 && 0 <= row * cols) by (nonlinear_arith)
                        requires
                            h_in >= 0,
                            og2 >= 0,
                            row >= 0,
                            cols >= 0,
                    ;
                }
                let old_loc: usize = channel * og1 * og2 + h_in * og2 + w_in + row * cols;
                data.push(self.data[old_loc]);
            } else {
                data.push(T::zero());
            }
            loc = loc + 1;
        }
        proof {
            lemma_prod_of_rank(mat_shp_pad@);
        }
        Tensor::new(mat_shp_pad.clone(), data)
    }
}

/// `padded` is `m` padded by `pad_matrix_to_ignore_garbage`.
pub open spec fn ignores_garbage<T: Number>(
    padded: Tensor<T>,
    m: Tensor<T>,
    og: Seq<usize>,
    pad: Seq<usize>,
) -> bool {
    &&& padded.wf()
    &&& padded.shape@.len() == 2
    &&& m.shape@.len() == 2
    &&& forall|loc: int|
        0 <= loc < padded.data@.len() ==> #[trigger] padded.data@[loc] == (match garbage_source(
            loc,
            og,
            pad,
            m.shape@,
            padded.shape@[1] as int,
        ) {
            Some(p) => m.data@[p],
            None => T::s_zero(),
        })
}

/// The tensor with data `xp` of shape `pad` holds the one with data `x` of shape `og` in its
/// corner, and anything else elsewhere.
pub open spec fn holds_in_corner<T: Number>(
    xp: Seq<T>,
    x: Seq<T>,
    og: Seq<usize>,
    pad: Seq<usize>,
) -> bool {
    forall|c: int, h: int, w: int|
        0 <= c < og[0] && 0 <= h < og[1] && 0 <= w < og[2] ==> (#[trigger] xp[c * (pad[1] * pad[2])
            + (h * pad[2] + w)]).value() == x[c * (og[1] * og[2]) + (h * og[2] + w)].value()
}

/// A padded matrix times a padded output of a convolution is the matrix times the output,
/// whatever garbage the padded output holds; the further rows give zero.
pub proof fn law_garbage_is_ignored<T: Number>(
    m: Tensor<T>,
    padded: Tensor<T>,
    x: Seq<T>,
    xp: Seq<T>,
    og: Seq<usize>,
    pad: Seq<usize>,
    row: int,
)
    requires
        m.wf(),
        og.len() == 3,
        pad.len() == 3,
        og[0] <= pad[0],
        og[1] <= pad[1],
        og[2] <= pad[2],
        ignores_garbage(padded, m, og, pad),
        m.shape@[1] == prod(og),
        padded.shape@[1] == prod(pad),
        x.len() == prod(og),
        xp.len() == prod(pad),
        holds_in_corner(xp, x, og, pad),
        0 <= row < padded.shape@[0],
    ensures
        msum::<T>(
            padded.shape@[1] as nat,
            matvec_term::<T>(padded.data@, xp, padded.shape@[1] as int, row),
        ) == (if row < m.shape@[0] {
            msum::<T>(m.shape@[1] as nat, matvec_term::<T>(m.data@, x, m.shape@[1] as int, row))
        } else {
            T::m_zero()
        }),
{
    if row < m.shape@[0] {
        lemma_row_of_the_matrix(m, padded, x, xp, og, pad, row);
    } else {
        lemma_prod_of_rank(padded.shape@);
        let cp = padded.shape@[1] as nat;
        let f = matvec_term::<T>(padded.data@, xp, cp as int, row);
        assert forall|q: int| 0 <= q < cp implies #[trigger] f(q) == T::m_zero() by {
            lemma_grid_bound(row, padded.shape@[0] as int, q, cp as int);
            lemma_grid_digits(row, q, cp as int);
            let (a, b) = (padded.data@[row * cp + q].value(), xp[q].value());
            padded.data@[row * cp + q].law_value();
            xp[q].law_value();
            T::law_ring(b, a, a);
        }
        lemma_msum_zero::<T>(cp, f);
    }
}

/// A row of a padded matrix times a padded output is the row of the matrix times the output.
proof fn lemma_row_of_the_matrix<T: Number>(
    m: Tensor<T>,
    padded: Tensor<T>,
    x: Seq<T>,
    xp: Seq<T>,
    og: Seq<usize>,
    pad: Seq<usize>,
    row: int,
)
    requires
        m.wf(),
        og.len() == 3,
        pad.len() == 3,
        og[0] <= pad[0],
        og[1] <= pad[1],
        og[2] <= pad[2],
        ignores_garbage(padded, m, og, pad),
        m.shape@[1] == prod(og),
        padded.shape@[1] == prod(pad),
        x.len() == prod(og),
        xp.len() == prod(pad),
        holds_in_corner(xp, x, og, pad),
        0 <= row < m.shape@[0],
        row < padded.shape@[0],
    ensures
        msum::<T>(
            padded.shape@[1] as nat,
            matvec_term::<T>(padded.data@, xp, padded.shape@[1] as int, row),
        ) == msum::<T>(
            m.shape@[1] as nat,
            matvec_term::<T>(m.data@, x, m.shape@[1] as int, row),
        ),
{
    let (o0, o1, o2) = (og[0] as nat, og[1] as nat, og[2] as nat);
    let (p0, p1, p2) = (pad[0] as nat, pad[1] as nat, pad[2] as nat);
    lemma_prod_of_rank(og);
    lemma_prod_of_rank(pad);
    lemma_prod_of_rank(m.shape@);
    lemma_prod_of_rank(padded.shape@);
    let cp = padded.shape@[1] as nat;
    let co = m.shape@[1] as nat;
    let f = matvec_term::<T>(padded.data@, xp, cp as int, row);
    let g = matvec_term::<T>(m.data@, x, co as int, row);
    assert forall|q: int| 0 <= q < cp implies T::m_valid(#[trigger] f(q)) by {
        padded.data@[row * cp + q].law_value();
        xp[q].law_value();
        T::law_closed(padded.data@[row * cp + q].value(), xp[q].value());
    }
    assert forall|q: int| 0 <= q < co implies T::m_valid(#[trigger] g(q)) by {
        m.data@[row * co + q].law_value();
        x[q].law_value();
        T::law_closed(m.data@[row * co + q].value(), x[q].value());
    }
    let f1 = |c: int| msum::<T>(p1 * p2, |r: int| f(c * (p1 * p2) + r));
    let g1 = |c: int| msum::<T>(o1 * o2, |r: int| g(c * (o1 * o2) + r));
    lemma_msum_grid::<T>(p0, p1 * p2, f);
    lemma_msum_grid::<T>(o0, o1 * o2, g);
    assert forall|c: int| 0 <= c < p0 implies #[trigger] f1(c) == (if c < o0 {
        g1(c)
    } else {
        T::m_zero()
    }) && T::m_valid(f1(c)) by {
        lemma_channel_sums(m, padded, x, xp, og, pad, row, c);
        let fc = |r: int| f(c * (p1 * p2) + r);
        assert forall|r: int| 0 <= r < p1 * p2 implies T::m_valid(#[trigger] fc(r)) by {
            lemma_grid_bound(c, p0 as int, r, (p1 * p2) as int);
            assert(T::m_valid(f(c * (p1 * p2) + r)));
        }
        lemma_msum_valid::<T>(p1 * p2, fc);
    }
    lemma_msum_truncate::<T>(p0, o0, f1);
    lemma_msum_eq::<T>(o0, f1, g1);
}

/// The sum over one channel of the padded row is that over the channel of the row, or zero.
proof fn lemma_channel_sums<T: Number>(
    m: Tensor<T>,
    padded: Tensor<T>,
    x: Seq<T>,
    xp: Seq<T>,
    og: Seq<usize>,
    pad: Seq<usize>,
    row: int,
    c: int,
)
    requires
        m.wf(),
        og.len() == 3,
        pad.len() == 3,
        og[0] <= pad[0],
        og[1] <= pad[1],
        og[2] <= pad[2],
        ignores_garbage(padded, m, og, pad),
        m.shape@[1] == prod(og),
        padded.shape@[1] == prod(pad),
        x.len() == prod(og),
        xp.len() == prod(pad),
        holds_in_corner(xp, x, og, pad),
        0 <= row < m.shape@[0],
        row < padded.shape@[0],
        0 <= c < pad[0],
    ensures
        msum::<T>(
            (pad[1] * pad[2]) as nat,
            |r: int|
                matvec_term::<T>(padded.data@, xp, padded.shape@[1] as int, row)(
                    c * (pad[1] * pad[2]) + r,
                ),
        ) == (if c < og[0] {
            msum::<T>(
                (og[1] * og[2]) as nat,
                |r: int|
                    matvec_term::<T>(m.data@, x, m.shape@[1] as int, row)(c * (og[1] * og[2]) + r),
            )
        } else {
            T::m_zero()
        }),
{
    let (o0, o1, o2) = (og[0] as nat, og[1] as nat, og[2] as nat);
    let (p0, p1, p2) = (pad[0] as nat, pad[1] as nat, pad[2] as nat);
    lemma_prod_of_rank(og);
    lemma_prod_of_rank(pad);
    lemma_prod_of_rank(m.shape@);
    lemma_prod_of_rank(padded.shape@);
    let cp = padded.shape@[1] as nat;
    let co = m.shape@[1] as nat;
    let f = matvec_term::<T>(padded.data@, xp, cp as int, row);
    let g = matvec_term::<T>(m.data@, x, co as int, row);
    let fc = |r: int| f(c * (p1 * p2) + r);
    let gc = |r: int| g(c * (o1 * o2) + r);
    assert forall|h: int, w: int| 0 <= h < p1 && 0 <= w < p2 implies #[trigger] fc(h * p2 + w) == (if c
        < o0 && h < o1 && w < o2 {
        gc(h * o2 + w)
    } else {
        T::m_zero()
    }) && T::m_valid(fc(h * p2 + w)) by {
        lemma_grid_bound(h, p1 as int, w, p2 as int);
        let r = h * p2 + w;
        lemma_grid_bound(c, p0 as int, r, (p1 * p2) as int);
        let q = c * (p1 * p2) + r;
        lemma_grid_bound(row, padded.shape@[0] as int, q, cp as int);
        let loc = row * cp + q;
        lemma_garbage_digits(row, c, h, w, pad, cp as int);
        padded.data@[loc].law_value();
        xp[q].law_value();
        let (a, b) = (padded.data@[loc].value(), xp[q].value());
        T::law_closed(a, b);
        T::law_ring(b, a, a);
        T::law_ring(a, b, b);
        assert(garbage_digits(loc, pad, cp as int) == (row, c, h, w));
        if c < o0 && h < o1 && w < o2 {
            assert(c * o1 * o2 == c * (o1 * o2)) by (nonlinear_arith);
            assert(xp[c * (pad[1] * pad[2]) + (h * pad[2] + w)].value() == x[c * (og[1] * og[2]) + (h
                * og[2] + w)].value());
        } else {
            assert(padded.data@[loc] == T::s_zero());
        }
    }
    assert forall|r: int| 0 <= r < p1 * p2 implies T::m_valid(#[trigger] fc(r)) by {
        if p2 == 0 {
            assert(p1 * p2 == 0) by (nonlinear_arith)
                requires
                    p2 == 0,
            ;
        }
        lemma_grid_split(r, p1 as int, p2 as int);
        assert(T::m_valid(fc((r / p2 as int) * p2 + r % p2 as int)));
    }
    lemma_msum_grid::<T>(p1, p2, fc);
    let fr = |h: int| msum::<T>(p2, |w: int| fc(h * p2 + w));
    if c < o0 {
        assert forall|r: int| 0 <= r < o1 * o2 implies T::m_valid(#[trigger] gc(r)) by {
            lemma_grid_bound(c, o0 as int, r, (o1 * o2) as int);
            let q = c * (o1 * o2) + r;
            m.data@[row * co + q].law_value();
            x[q].law_value();
            T::law_closed(m.data@[row * co + q].value(), x[q].value());
        }
        lemma_msum_grid::<T>(o1, o2, gc);
        let gr = |h: int| msum::<T>(o2, |w: int| gc(h * o2 + w));
        assert forall|h: int| 0 <= h < p1 implies #[trigger] fr(h) == (if h < o1 {
            gr(h)
        } else {
            T::m_zero()
        }) && T::m_valid(fr(h)) by {
            let fw = |w: int| fc(h * p2 + w);
            assert forall|w: int| 0 <= w < p2 implies T::m_valid(#[trigger] fw(w)) by {
                assert(T::m_valid(fc(h * p2 + w)));
            }
            lemma_msum_valid::<T>(p2, fw);
            if h < o1 {
                assert forall|w: int| o2 <= w < p2 implies #[trigger] fw(w) == T::m_zero() by {
                    assert(fc(h * p2 + w) == T::m_zero());
                }
                lemma_msum_truncate::<T>(p2, o2, fw);
                let gw = |w: int| gc(h * o2 + w);
                assert forall|w: int| 0 <= w < o2 implies #[trigger] fw(w) == gw(w) by {
                    assert(fc(h * p2 + w) == gc(h * o2 + w));
                }
                lemma_msum_eq::<T>(o2, fw, gw);
            } else {
                assert forall|w: int| 0 <= w < p2 implies #[trigger] fw(w) == T::m_zero() by {
                    assert(fc(h * p2 + w) == T::m_zero());
                }
                lemma_msum_zero::<T>(p2, fw);
            }
        }
        lemma_msum_truncate::<T>(p1, o1, fr);
        lemma_msum_eq::<T>(o1, fr, gr);
    } else {
        assert forall|h: int| 0 <= h < p1 implies #[trigger] fr(h) == T::m_zero() by {
            let fw = |w: int| fc(h * p2 + w);
            assert forall|w: int| 0 <= w < p2 implies #[trigger] fw(w) == T::m_zero() by {
                assert(fc(h * p2 + w) == T::m_zero());
            }
            lemma_msum_zero::<T>(p2, fw);
        }
        lemma_msum_zero::<T>(p1, fr);
    }
}

/// The digits of a place put together from its digits.
proof fn lemma_garbage_digits(row: int, c: int, h: int, w: int, pad: Seq<usize>, cols: int)
    requires
        pad.len() == 3,
        0 <= row,
        0 <= c < pad[0],
        0 <= h < pad[1],
        0 <= w < pad[2],
        cols == pad[0] * (pad[1] * pad[2]),
    ensures
        garbage_digits(row * cols + (c * (pad[1] * pad[2]) + (h * pad[2] + w)), pad, cols) == (
            row,
            c,
            h,
            w,
        ),
{
    let (p0, p1, p2) = (pad[0] as int, pad[1] as int, pad[2] as int);
    let r = h * p2 + w;
    lemma_grid_bound(h, p1, w, p2);
    let q = c * (p1 * p2) + r;
    lemma_grid_bound(c, p0, r, p1 * p2);
    let loc = row * cols + q;
    lemma_grid_digits(row, q, cols);
    // the place is (row * p0 + c) channels and r places further on
    let rc = row * p0 + c;
    assert(loc == rc * (p1 * p2) + r) by (nonlinear_arith)
        requires
            loc == row * cols + (c * (p1 * p2) + r),
            cols == p0 * (p1 * p2),
            rc == row * p0 + c,
    ;
    lemma_grid_digits(rc, r, p1 * p2);
    lemma_grid_digits(row, c, p0);
    // and ((row * p0 + c) * p1 + h) lines and w columns
    let rch = rc * p1 + h;
    assert(loc == rch * p2 + w) by (nonlinear_arith)
        requires
            loc == rc * (p1 * p2) + (h * p2 + w),
            rch == rc * p1 + h,
    ;
    lemma_grid_digits(rch, w, p2);
    lemma_grid_digits(rc, h, p1);
}

} // verus!
