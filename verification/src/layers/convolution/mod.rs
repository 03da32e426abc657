//! Convolution layers.
pub mod acceptance;
pub mod agreement;
pub mod apply;
pub mod claims;
pub mod clearing;
pub mod clearing_sizes;
pub mod completeness;
pub mod context;
pub mod handed_on;
pub mod input;
pub mod laws;
pub mod prove;
pub mod prover;
pub mod rejection;
pub mod schoolbook;
pub mod shape_laws;
pub mod shapes;
pub mod sizes;
pub mod stages;
pub mod strided;
pub mod sums;
pub mod verify;

use crate::arith::{lemma_grid_split, npot};
use crate::layers::convolution::shapes::{
    conv2d_shape_with_padding_and_stride, conv_shape_ok, conv_shape_pads, has_dims, out_height, out_width,
    padded_conv2d_shape_with_padding_and_stride,
};
use crate::number::Number;
use crate::padding::PaddingMode;
use crate::shape::{lemma_prod_of_rank, Shape};
use crate::tensor::access::{dims4, idx4, lemma_idx4, lemma_idx4_parts};
use crate::tensor::conv::lemma_dims4_prod;
use crate::tensor::Tensor;
use vstd::prelude::*;

verus! {

/// A convolution layer.
#[derive(Debug)]
pub struct Convolution<T> {
    /// The filter. It is kept for the Fourier transform once the layer is padded.
    pub filter: Tensor<T>,
    pub bias: Tensor<T>,
    /// The shape of the filter before padding.
    pub unpadded_shape: Shape,
    /// The number of lines and of columns of zeros on each side of the input.
    pub input_padding: [usize; 2],
    /// The vertical and the horizontal stride.
    pub stride: [usize; 2],
}

/// The stride of a layer that names none.
pub fn default_stride() -> (r: [usize; 2])
    ensures
        r@ == seq![1usize, 1usize],
{
    let r: [usize; 2] = [1, 1];
    proof {
        assert(r@ =~= seq![1usize, 1usize]);
    }
    r
}

impl<T: Number> Convolution<T> {
    /// The number of lines and of columns that frame the input.
    pub open spec fn frame(self) -> (int, int) {
        (self.input_padding@[0] as int, self.input_padding@[1] as int)
    }

    /// The vertical and the horizontal stride.
    pub open spec fn steps(self) -> (int, int) {
        (self.stride@[0] as int, self.stride@[1] as int)
    }

    /// The layer without frame and stride.
    pub fn new(filter: Tensor<T>, bias: Tensor<T>) -> (r: Self)
        requires
            filter.shape@.len() == 4,
            bias.shape@.len() > 0,
            filter.shape@[0] == bias.shape@[0],
        ensures
            r.filter == filter,
            r.bias == bias,
            r.unpadded_shape@ == filter.shape@,
            r.frame() == (0int, 0int),
            r.steps() == (1int, 1int),
    {
        let filter_shape = filter.get_shape();
        Self::new_padded(filter, bias, &filter_shape)
    }

    /// The layer with a frame and without stride.
    pub fn new_with_padding(filter: Tensor<T>, bias: Tensor<T>, input_padding: [usize; 2]) -> (r: Self)
        requires
            filter.shape@.len() == 4,
            bias.shape@.len() > 0,
            filter.shape@[0] == bias.shape@[0],
        ensures
            r.filter == filter,
            r.bias == bias,
            r.unpadded_shape@ == filter.shape@,
            r.input_padding == input_padding,
            r.steps() == (1int, 1int),
    {
        let filter_shape = filter.get_shape();
        Convolution { filter, bias, unpadded_shape: filter_shape, input_padding, stride: default_stride() }
    }

    /// The layer with a frame and a stride.
    pub fn new_with_padding_and_stride(
        filter: Tensor<T>,
        bias: Tensor<T>,
        input_padding: [usize; 2],
        stride: [usize; 2],
    ) -> (r: Self)
        requires
            filter.shape@.len() == 4,
            bias.shape@.len() > 0,
            filter.shape@[0] == bias.shape@[0],
        ensures
            r.filter == filter,
            r.bias == bias,
            r.unpadded_shape@ == filter.shape@,
            r.input_padding == input_padding,
            r.stride == stride,
    {
        let filter_shape = filter.get_shape();
        Convolution { filter, bias, unpadded_shape: filter_shape, input_padding, stride }
    }

    /// The layer whose bias is zero.
    pub fn new_without_bias(filter: Tensor<T>) -> (r: Self)
        requires
            filter.shape@.len() == 4,
        ensures
            r.filter == filter,
            r.bias.shape@ == seq![filter.shape@[0]],
            r.bias.data@.len() == filter.shape@[0],
            forall|i: int| 0 <= i < r.bias.data@.len() ==> #[trigger] r.bias.data@[i] == T::s_zero(),
            r.unpadded_shape@ == filter.shape@,
            r.frame() == (0int, 0int),
            r.steps() == (1int, 1int),
    {
        let kw = filter.kw();
        let dims: Vec<usize> = vec![kw];
        proof {
            assert(dims@ =~= seq![kw]);
            lemma_prod_of_rank(dims@);
        }
        let bias: Tensor<T> = Tensor::zeros(Shape::new(dims));
        Self::new(filter, bias)
    }

    /// The layer whose filter had another shape before padding.
    pub fn new_padded(filter: Tensor<T>, bias: Tensor<T>, unpadded_shape: &Shape) -> (r: Self)
        requires
            filter.shape@.len() > 0,
            bias.shape@.len() > 0,
            filter.shape@[0] == bias.shape@[0],
        ensures
            r.filter == filter,
            r.bias == bias,
            r.unpadded_shape@ == unpadded_shape@,
            r.frame() == (0int, 0int),
            r.steps() == (1int, 1int),
    {
        Convolution {
            filter,
            bias,
            unpadded_shape: unpadded_shape.clone(),
            input_padding: [0, 0],
            stride: default_stride(),
        }
    }

    /// The shape of the filter that counts for the output: the one before padding, or the padded one.
    pub open spec fn counted_shape(self, padding_mode: PaddingMode) -> Seq<usize> {
        match padding_mode {
            PaddingMode::NoPadding => self.unpadded_shape@,
            PaddingMode::Padding => self.filter.og_shape@,
        }
    }

    /// `r` is the shape of the output for an input of the given shape.
    pub open spec fn is_output_shape(self, r: Seq<usize>, input: Seq<usize>, padding_mode: PaddingMode) -> bool {
        let f = self.counted_shape(padding_mode);
        let h = out_height(input, f, self.frame().0, self.steps().0);
        let w = out_width(input, f, self.frame().1, self.steps().1);
        match padding_mode {
            PaddingMode::NoPadding => has_dims(r, f[0] as int, h, w),
            PaddingMode::Padding => has_dims(
                r,
                npot(f[0] as nat) as int,
                npot(h as nat) as int,
                npot(w as nat) as int,
            ),
        }
    }

    /// The shape of the output for an input of the given shape.
    pub fn output_shape(&self, input_shape: &Shape, padding_mode: PaddingMode) -> (r: Shape)
        requires
            conv_shape_ok(
                input_shape@,
                self.counted_shape(padding_mode),
                self.frame().0,
                self.frame().1,
                self.steps().0,
                self.steps().1,
            ),
            padding_mode == PaddingMode::Padding ==> conv_shape_pads(
                input_shape@,
                self.counted_shape(padding_mode),
                self.frame().0,
                self.frame().1,
                self.steps().0,
                self.steps().1,
            ),
        ensures
            self.is_output_shape(r@, input_shape@, padding_mode),
    {
        let (ph, pw) = (self.input_padding[0], self.input_padding[1]);
        let (sh, sw) = (self.stride[0], self.stride[1]);
        match padding_mode {
            PaddingMode::NoPadding => conv2d_shape_with_padding_and_stride(
                input_shape,
                &self.unpadded_shape,
                ph,
                pw,
                sh,
                sw,
            ),
            PaddingMode::Padding => padded_conv2d_shape_with_padding_and_stride(
                input_shape,
                &self.filter.real_shape(),
                ph,
                pw,
                sh,
                sw,
            ),
        }
    }

    /// The output with the bias of each channel added to its entries.
    pub fn add_bias(&self, conv_out: &Tensor<T>) -> (r: Tensor<T>)
        requires
            conv_out.wf(),
            conv_out.shape@.len() > 2,
            conv_out.data@.len() == conv_out.shape@[0] * (conv_out.shape@[2] * conv_out.shape@[2]),
            self.bias.data@.len() >= conv_out.shape@[0],
            forall|p: int|
                0 <= p < conv_out.data@.len() ==> T::fits(
                    T::m_add(
                        (#[trigger] conv_out.data@[p]).value(),
                        self.bias.data@[p / (conv_out.shape@[2] * conv_out.shape@[2])].value(),
                    ),
                ),
        ensures
            r.wf(),
            r.shape@ == conv_out.shape@,
            r.og_shape@ == seq![0usize],
            forall|p: int|
                0 <= p < r.data@.len() ==> (#[trigger] r.data@[p]).value() == T::m_add(
                    conv_out.data@[p].value(),
                    self.bias.data@[p / (conv_out.shape@[2] * conv_out.shape@[2])].value(),
                ),
    {
        let n: usize = conv_out.data.len();
        let ghost fs = conv_out.shape@[2] * conv_out.shape@[2];
        let mut arr: Vec<T> = Vec::with_capacity(n);
        let mut p: usize = 0;
        while p < n
            invariant
                p <= n,
                n == conv_out.data@.len(),
                n == conv_out.data.len(),
                conv_out.shape@.len() > 2,
                fs == conv_out.shape@[2] * conv_out.shape@[2],
                n == conv_out.shape@[0] * fs,
                self.bias.data@.len() >= conv_out.shape@[0],
                forall|p: int|
                    0 <= p < n ==> T::fits(
                        T::m_add((#[trigger] conv_out.data@[p]).value(), self.bias.data@[p / fs].value()),
                    ),
                arr@.len() == p,
                forall|q: int|
                    0 <= q < p ==> (#[trigger] arr@[q]).value() == T::m_add(
                        conv_out.data@[q].value(),
                        self.bias.data@[q / fs].value(),
                    ),
            decreases n - p,
        {
            proof {
                let (a, b) = (conv_out.shape@[0] as int, fs);
                assert(b >= 0) by (nonlinear_arith)
                    requires
                        b == conv_out.shape@[2] * conv_out.shape@[2],
                ;
                if b == 0 {
                    assert(a * b == 0) by (nonlinear_arith)
                        requires
                            b == 0,
                    ;
                }
                lemma_grid_split(p as int, a, b);
                assert(b <= a * b) by (nonlinear_arith)
                    requires
                        a >= 1,
                        b >= 0,
                ;
                assert(T::fits(T::m_add(conv_out.data@[p as int].value(), self.bias.data@[p as int / fs].value())));
            }
            let size: usize = conv_out.filter_size();
            let i: usize = p / size;
            arr.push(conv_out.data[p].plus(&self.bias.data[i]));
            p = p + 1;
        }
        Tensor::new(conv_out.get_shape(), arr)
    }

    /// The weight from input channel `c` to output channel `n` at `(h, w)`.
    pub fn get(&self, n: usize, c: usize, h: usize, w: usize) -> (r: T)
        requires
            self.filter.wf(),
            0 < self.filter.shape@.len() <= 4,
            n < dims4(self.filter.shape@).0,
            c < dims4(self.filter.shape@).1,
            h < dims4(self.filter.shape@).2,
            w < dims4(self.filter.shape@).3,
        ensures
            ({
                let d = dims4(self.filter.shape@);
                r == self.filter.data@[idx4(d.1, d.2, d.3, n as int, c as int, h as int, w as int)]
            }),
    {
        proof {
            let d = dims4(self.filter.shape@);
            let (i, j, y, x) = (n as int, c as int, h as int, w as int);
            lemma_dims4_prod(self.filter.shape@);
            lemma_idx4(d.0, d.1, d.2, d.3, i, j, y, x);
            lemma_idx4_parts(d.0, d.1, d.2, d.3, i, j, y, x);
            assert(self.filter.data@.len() == self.filter.data.len());
        }
        self.filter.get_at_4d(n, c, h, w)
    }

    pub fn get_shape(&self) -> (r: Shape)
        requires
            self.filter.shape@.len() > 0,
        ensures
            r@ == self.filter.shape@,
    {
        self.filter.get_shape()
    }

    /// The number of output channels.
    pub fn kw(&self) -> (r: usize)
        requires
            self.filter.shape@.len() > 0,
        ensures
            r == self.filter.shape@[0],
    {
        self.filter.kw()
    }

    /// The number of input channels.
    pub fn kx(&self) -> (r: usize)
        requires
            self.filter.shape@.len() > 1,
        ensures
            r == self.filter.shape@[1],
    {
        self.filter.kx()
    }

    /// The side of the filter.
    pub fn nw(&self) -> (r: usize)
        requires
            self.filter.shape@.len() > 2,
        ensures
            r == self.filter.shape@[2],
    {
        self.filter.nw()
    }

    /// The number of columns of the filter as a matrix.
    pub fn ncols_2d(&self) -> (r: usize)
        requires
            self.filter.shape@.len() == 2 || self.filter.shape@.len() == 4,
            0 < self.filter.spec_ncols_2d() <= usize::MAX,
        ensures
            r == self.filter.spec_ncols_2d(),
    {
        self.filter.ncols_2d()
    }

    /// The number of rows of the filter as a matrix.
    pub fn nrows_2d(&self) -> (r: usize)
        requires
            self.filter.shape@.len() == 2 || self.filter.shape@.len() == 4,
            0 < self.filter.spec_nrows_2d() <= usize::MAX,
        ensures
            r == self.filter.spec_nrows_2d(),
    {
        self.filter.nrows_2d()
    }

    /// The number of entries of a single filter.
    pub fn filter_size(&self) -> (r: usize)
        requires
            self.filter.shape@.len() > 2,
            self.filter.shape@[2] * self.filter.shape@[2] <= usize::MAX,
        ensures
            r == self.filter.shape@[2] * self.filter.shape@[2],
    {
        self.filter.filter_size()
    }

    /// A convolution has one output for its one input.
    pub fn num_outputs(num_inputs: usize) -> (r: usize)
        requires
            num_inputs == 1,
        ensures
            r == 1,
    {
        num_inputs
    }
}

} // verus!
