//! The layers of a model from those that were read.
use crate::layers::convolution::Convolution;
use crate::layers::Layer;
use crate::padding::weights::Dense;
use crate::parser::dispatch::ParsedLayer;
use crate::shape::{lemma_prod_of_rank, Shape};
use crate::tensor::Tensor;
use vstd::prelude::*;

verus! {

/// The filter of a convolution has a bias for every channel of its output.
pub open spec fn can_be_built<T>(p: ParsedLayer<T>) -> bool {
    match p {
        ParsedLayer::Conv { filter, filter_bias } => {
            &&& filter.shape@.len() == 4
            &&& filter_bias matches Some(b) ==> b.shape@.len() > 0 && b.shape@[0] == filter.shape@[0]
        },
        _ => true,
    }
}

/// `c` is the convolution with the filter and the bias, without frame and stride; its bias is zero where there is none.
pub open spec fn is_convolution<T>(c: &Convolution<T>, filter: Tensor<T>, bias: Option<Tensor<T>>, zero: T) -> bool {
    &&& c.filter == filter
    &&& c.unpadded_shape@ == filter.shape@
    &&& c.input_padding@ == seq![0usize, 0usize]
    &&& c.stride@ == seq![1usize, 1usize]
    &&& match bias {
        Some(b) => c.bias == b,
        None => {
            &&& c.bias.wf()
            &&& c.bias.shape@ == seq![filter.shape@[0]]
            &&& c.bias.data@ == Seq::new(filter.shape@[0] as nat, |i: int| zero)
        },
    }
}

/// `l` is the layer with the weights that were read.
pub open spec fn is_layer_of<T>(l: Layer<T>, p: ParsedLayer<T>, zero: T) -> bool {
    match p {
        ParsedLayer::Conv { filter, filter_bias } => {
            l matches Layer::Convolution(c) && is_convolution(&c, filter, filter_bias, zero)
        },
        ParsedLayer::Dense { weight, bias } => l == Layer::Dense(Dense { matrix: weight, bias }),
        ParsedLayer::Relu => l is Activation,
        ParsedLayer::Flatten => l is Flatten,
        ParsedLayer::Pooling(q) => l == Layer::<T>::Pooling(q),
    }
}

/// A bias of zeros.
fn zero_bias<T: Copy>(n: usize, zero: T) -> (r: Tensor<T>)
    ensures
        r.wf(),
        r.shape@ == seq![n],
        r.data@ == Seq::new(n as nat, |i: int| zero),
{
    let mut data: Vec<T> = Vec::with_capacity(n);
    let mut i: usize = 0;
    while i < n
        invariant
            i <= n,
            data@ == Seq::new(i as nat, |j: int| zero),
        decreases n - i,
    {
        data.push(zero);
        i = i + 1;
    }
    let dims: Vec<usize> = vec![n];
    proof {
        assert(dims@ =~= seq![n]);
        lemma_prod_of_rank(dims@);
    }
    Tensor::new(Shape(dims), data)
}

impl<T: Copy> ParsedLayer<T> {
    /// The layer with the weights that were read.
    pub fn into_layer(self, zero: T) -> (r: Layer<T>)
        requires
            can_be_built(self),
        ensures
            is_layer_of(r, self, zero),
    {
        match self {
            ParsedLayer::Conv { filter, filter_bias } => {
                let bias = match filter_bias {
                    Some(b) => b,
                    None => zero_bias(filter.shape.0[0], zero),
                };
                let unpadded_shape = filter.shape.clone();
                let c = Convolution { filter, bias, unpadded_shape, input_padding: [0, 0], stride: [1, 1] };
                proof {
                    assert(c.input_padding@ =~= seq![0usize, 0usize]);
                    assert(c.stride@ =~= seq![1usize, 1usize]);
                }
                Layer::Convolution(c)
            },
            ParsedLayer::Dense { weight, bias } => Layer::Dense(Dense { matrix: weight, bias }),
            ParsedLayer::Relu => Layer::Activation,
            ParsedLayer::Flatten => Layer::Flatten,
            ParsedLayer::Pooling(q) => Layer::Pooling(q),
        }
    }
}

} // verus!
