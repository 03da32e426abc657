//! Layers that average every plane.
use crate::layers::convolution::shapes::has_dims;
use crate::layers::pooling::GlobalAvgPool2D;
use crate::number::{msum, sum_fits, Element};
use crate::shape::{lemma_prod_of_rank, Shape};
use crate::tensor::Tensor;
use vstd::prelude::*;

verus! {

/// The quotient rounded toward zero.
pub open spec fn trunc_div(a: int, n: int) -> int {
    if a >= 0 {
        a / n
    } else {
        -((-a) / n)
    }
}

/// The entries of plane `c`, with `size` entries each.
pub open spec fn plane_term(data: Seq<Element>, size: int, c: int) -> spec_fn(int) -> int {
    |p: int| data[c * size + p] as int
}

/// The average of every plane can be computed.
pub open spec fn average_ok(gap: GlobalAvgPool2D, input: &Tensor<Element>) -> bool {
    let size = input.shape@[1] * input.shape@[2];
    &&& input.wf()
    &&& input.shape@.len() == 3
    &&& gap.spatial_size > 0
    &&& forall|c: int|
        0 <= c < input.shape@[0] ==> sum_fits::<Element>(size as nat, #[trigger] plane_term(input.data@, size, c))
}

/// `r` holds the sum of every plane, divided by the number of entries and rounded toward zero.
pub open spec fn is_average(gap: GlobalAvgPool2D, r: &Tensor<Element>, input: &Tensor<Element>) -> bool {
    let size = input.shape@[1] * input.shape@[2];
    &&& r.wf()
    &&& has_dims(r.shape@, input.shape@[0] as int, 1, 1)
    &&& r.data@.len() == input.shape@[0]
    &&& forall|c: int|
        0 <= c < r.data@.len() ==> #[trigger] r.data@[c] == trunc_div(
            msum::<Element>(size as nat, plane_term(input.data@, size, c)),
            gap.spatial_size as int,
        )
}

fn divide(a: Element, n: usize) -> (r: Element)
    requires
        n > 0,
    ensures
        r == trunc_div(a as int, n as int),
{
    if a >= 0 {
        let q: u64 = (a as u64) / (n as u64);
        proof {
            assert(0 <= a as int / n as int <= a) by (nonlinear_arith)
                requires
                    a >= 0,
                    n > 0,
            ;
        }
        q as i64
    } else {
        let b: u128 = (-(a as i128)) as u128;
        let q: u128 = b / (n as u128);
        proof {
            assert(0 <= b as int / n as int <= b) by (nonlinear_arith)
                requires
                    b >= 0,
                    n > 0,
            ;
        }
        (-(q as i128)) as i64
    }
}

impl GlobalAvgPool2D {
    pub fn new(spatial_size: usize) -> (r: Self)
        ensures
            r.spatial_size == spatial_size,
    {
        GlobalAvgPool2D { spatial_size }
    }

    /// The shape of the output: one entry for every channel.
    pub fn output_shape(&self, input_shape: &Shape) -> (r: Shape)
        requires
            input_shape@.len() >= 1,
        ensures
            has_dims(r@, input_shape@[0] as int, 1, 1),
    {
        let c = input_shape.0[0];
        Shape::new(vec![c, 1, 1])
    }

    /// The sum of every plane, divided by the number of entries and rounded toward zero.
    pub fn op(&self, input: &Tensor<Element>) -> (r: Tensor<Element>)
        requires
            average_ok(*self, input),
        ensures
            is_average(*self, &r, input),
    {
        let (c, h, w) = (input.shape.0[0], input.shape.0[1], input.shape.0[2]);
        let ghost size = h * w;
        let mut data: Vec<Element> = Vec::with_capacity(c);
        proof {
            lemma_prod_of_rank(input.shape@);
        }
        let mut ci: usize = 0;
        while ci < c
            invariant
                ci <= c,
                average_ok(*self, input),
                c == input.shape@[0],
                h == input.shape@[1],
                w == input.shape@[2],
                size == h * w,
                input.data@.len() == c * size,
                data@.len() == ci,
                forall|i: int|
                    0 <= i < ci ==> #[trigger] data@[i] == trunc_div(
                        msum::<Element>(size as nat, plane_term(input.data@, size, i)),
                        self.spatial_size as int,
                    ),
            decreases c - ci,
        {
            let ghost f = plane_term(input.data@, size, ci as int);
            assert(sum_fits::<Element>(size as nat, f));
            assert(input.data@.len() == input.data.len());
            proof {
                assert(size >= 0) by (nonlinear_arith)
                    requires
                        size == h * w,
                ;
                assert((ci + 1) * size <= c * size) by (nonlinear_arith)
                    requires
                        ci + 1 <= c,
                        size >= 0,
                ;
                assert((ci + 1) * size == ci * size + size) by (nonlinear_arith);
                assert(0 <= ci * size) by (nonlinear_arith)
                    requires
                        size >= 0,
                ;
            }
            let start: usize = ci * (h * w);
            let mut sum: Element = 0;
            let mut p: usize = 0;
            while p < h * w
                invariant
                    p <= size,
                    size == h * w,
                    start == ci * size,
                    start + size <= input.data@.len() <= usize::MAX,
                    f == plane_term(input.data@, size, ci as int),
                    sum_fits::<Element>(size as nat, f),
                    sum == msum::<Element>(p as nat, f),
                decreases size - p,
            {
                proof {
                    assert(msum::<Element>((p + 1) as nat, f) == msum::<Element>(p as nat, f) + f(p as int));
                }
                sum = sum + input.data[start + p];
                p = p + 1;
            }
            data.push(divide(sum, self.spatial_size));
            ci = ci + 1;
        }
        let shape = Shape::new(vec![c, 1, 1]);
        proof {
            lemma_prod_of_rank(shape@);
            assert(c * (1 * 1) == c) by (nonlinear_arith);
        }
        Tensor::new(shape, data)
    }
}

} // verus!
