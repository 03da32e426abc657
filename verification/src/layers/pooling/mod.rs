//! Pooling layers.
pub mod average;
pub mod average_proof;
pub mod claims;
pub mod handed_on;
pub mod laws;
pub mod maxpool;
pub mod terms;
pub mod witness;

use crate::arith::{ceil_log2, clog2};
use crate::iop::context::{ContextAux, TableType};
use crate::layers::convolution::shapes::has_dims;
use crate::layers::LayerError;
use crate::layers::pooling::average::{average_ok, is_average};
use crate::number::{Element, Number};
use crate::padding::PaddingMode;
use crate::shape::{prod, usize_vec, Shape};
use crate::tensor::pad::{npots, npots_fit};
use crate::tensor::pool::{is_pooled, lemma_window_count, poolable, pooled_shape};
use crate::tensor::Tensor;
use vstd::prelude::*;

verus! {

/// The side of the windows of a maximum layer, and the distance between them.
pub const MAXPOOL2D_KERNEL_SIZE: usize = 2;

/// A layer that takes the largest entry of every window.
#[derive(Debug, Clone, Copy, PartialEq, Eq, PartialOrd, Ord, Hash, Structural)]
pub struct Maxpool2D {
    pub kernel_size: usize,
    pub stride: usize,
}

/// A layer that takes the average of every plane.
///
/// The factor `1 / spatial_size` is left to the requantization that follows: what is proved is
/// `spatial_size * output[c] = sum of input[c, h, w] over h and w`.
#[derive(Debug, Clone, Copy, PartialEq, Eq, Structural)]
pub struct GlobalAvgPool2D {
    /// The number of entries of a plane, before padding.
    pub spatial_size: usize,
}

/// A pooling layer.
#[derive(Debug, Clone, Copy, PartialEq, Eq, Structural)]
pub enum Pooling {
    Maxpool2D(Maxpool2D),
    GlobalAvgPool2D(GlobalAvgPool2D),
}

/// Which pooling layer a context belongs to.
#[derive(Debug, Clone, Copy, PartialEq, Eq, Structural)]
pub enum PoolKind {
    MaxPool(Maxpool2D),
    GlobalAvgPool(GlobalAvgPool2D),
}

/// What the proof of a pooling layer knows of it beforehand.
#[derive(Debug, Clone, Copy, PartialEq, Eq, Structural)]
pub struct PoolingCtx {
    pub pool_kind: PoolKind,
    pub node_id: usize,
    /// The number of variables of the output.
    pub num_vars: usize,
}

/// The width of an input; one that is not made of channels, lines and columns counts as square.
pub open spec fn plane_width(s: Seq<usize>) -> int {
    if s.len() == 3 {
        s[2] as int
    } else {
        s[1] as int
    }
}

/// A window of side two fits on the input.
pub open spec fn has_windows(s: Seq<usize>) -> bool {
    s.len() >= 2 && s[1] >= 2 && plane_width(s) >= 2
}

/// The shape of the output of a maximum layer with windows of side two that are two apart.
pub fn maxpool2d_shape(input_shape: &Shape) -> (r: Shape)
    requires
        has_windows(input_shape@),
    ensures
        has_dims(r@, input_shape@[0] as int, input_shape@[1] as int / 2, plane_width(input_shape@) / 2),
{
    let stride: usize = 2;
    let padding: usize = 0;
    let kernel: usize = 2;
    let dilation: usize = 1;
    let d1 = input_shape.0[0];
    let width: usize = if input_shape.0.len() == 3 {
        input_shape.0[2]
    } else {
        input_shape.0[1]
    };
    let d2 = (input_shape.0[1] + 2 * padding - dilation * (kernel - 1) - 1) / stride + 1;
    let d3 = (width + 2 * padding - dilation * (kernel - 1) - 1) / stride + 1;
    Shape::new(vec![d1, d2, d3])
}

/// The shape of the output is that of what the layer computes.
pub proof fn law_maxpool_output_shape(s: Seq<usize>, r: Seq<usize>)
    requires
        s.len() == 3,
        has_windows(s),
        has_dims(r, s[0] as int, s[1] as int / 2, plane_width(s) / 2),
    ensures
        r == pooled_shape(s, MAXPOOL2D_KERNEL_SIZE as int, MAXPOOL2D_KERNEL_SIZE as int),
{
    assert(r =~= pooled_shape(s, 2, 2));
}

impl Default for Maxpool2D {
    fn default() -> (r: Self)
        ensures
            r.kernel_size == MAXPOOL2D_KERNEL_SIZE,
            r.stride == MAXPOOL2D_KERNEL_SIZE,
    {
        Maxpool2D { kernel_size: MAXPOOL2D_KERNEL_SIZE, stride: MAXPOOL2D_KERNEL_SIZE }
    }
}

impl Maxpool2D {
    /// The windows are those that the layer supports.
    pub open spec fn supported(self) -> bool {
        &&& self.kernel_size == MAXPOOL2D_KERNEL_SIZE
        &&& self.stride == MAXPOOL2D_KERNEL_SIZE
    }

    /// The largest entry of every window of the last two dimensions.
    pub fn op<T: Number>(&self, input: &Tensor<T>) -> (r: Tensor<T>)
        requires
            self.supported(),
            input.wf(),
            poolable(input.shape@, self.kernel_size as int, self.stride as int),
        ensures
            is_pooled(&r, input, self.kernel_size as int, self.stride as int),
    {
        input.maxpool2d(self.kernel_size, self.stride)
    }

    /// The shape of the output for an input of the given shape.
    pub fn output_shape(&self, input_shape: &Shape) -> (r: Shape)
        requires
            has_windows(input_shape@),
        ensures
            has_dims(r@, input_shape@[0] as int, input_shape@[1] as int / 2, plane_width(input_shape@) / 2),
    {
        maxpool2d_shape(input_shape)
    }
}

/// The number of variables of a table of the given shape.
pub open spec fn vars_of(s: Seq<usize>) -> nat
    decreases s.len(),
{
    if s.len() == 0 {
        0
    } else {
        vars_of(s.drop_last()) + clog2(s.last() as nat)
    }
}

proof fn lemma_vars_of_prefix(s: Seq<usize>, i: int)
    requires
        0 <= i <= s.len(),
    ensures
        vars_of(s.take(i)) <= vars_of(s),
    decreases s.len() - i,
{
    if i < s.len() {
        lemma_vars_of_prefix(s, i + 1);
        assert(s.take(i + 1).drop_last() =~= s.take(i));
    } else {
        assert(s.take(i) =~= s);
    }
}

fn num_vars_of(shape: &Shape) -> (r: usize)
    requires
        vars_of(shape@) <= usize::MAX,
        npots_fit(shape@),
    ensures
        r == vars_of(shape@),
{
    let mut r: usize = 0;
    let mut i: usize = 0;
    while i < shape.0.len()
        invariant
            i <= shape@.len(),
            vars_of(shape@) <= usize::MAX,
            npots_fit(shape@),
            r == vars_of(shape@.take(i as int)),
        decreases shape@.len() - i,
    {
        proof {
            lemma_vars_of_prefix(shape@, i + 1);
            assert(shape@.take(i + 1).drop_last() =~= shape@.take(i as int));
            assert(crate::arith::npot(shape@[i as int] as nat) <= usize::MAX);
        }
        r = r + ceil_log2(shape.0[i]);
        i = i + 1;
    }
    proof {
        assert(shape@.take(i as int) =~= shape@);
    }
    r
}

/// The shape of the output of a pooling layer in the context.
pub open spec fn context_shape(pool: Pooling, s: Seq<usize>) -> Seq<usize> {
    match pool {
        Pooling::Maxpool2D(info) => pooled_shape(s, info.kernel_size as int, info.stride as int),
        Pooling::GlobalAvgPool2D(_) => s.update(1, 1).update(2, 1),
    }
}

/// The number of variables of the output of a pooling layer.
pub open spec fn context_vars(pool: Pooling, s: Seq<usize>) -> nat {
    match pool {
        Pooling::Maxpool2D(_) => vars_of(context_shape(pool, s)),
        Pooling::GlobalAvgPool2D(_) => clog2(s[0] as nat),
    }
}

/// The layer takes inputs of the given shape.
pub open spec fn context_rank(pool: Pooling, s: Seq<usize>) -> bool {
    pool is GlobalAvgPool2D ==> s.len() == 3
}

/// The output for an input of the given shape, and its number of variables, can be held.
pub open spec fn context_fits(pool: Pooling, s: Seq<usize>) -> bool {
    let t = context_shape(pool, s);
    &&& pool matches Pooling::Maxpool2D(info) ==> poolable(s, info.kernel_size as int, info.stride as int)
    &&& context_rank(pool, s) ==> {
        &&& vars_of(t) <= usize::MAX
        &&& npots_fit(t)
        &&& prod(npots(t)) <= usize::MAX
    }
}

/// The larger of `start` and the sizes of the padded outputs.
pub open spec fn longest(start: nat, ss: Seq<Seq<usize>>) -> nat
    decreases ss.len(),
{
    if ss.len() == 0 {
        start
    } else {
        let n = longest(start, ss.drop_last());
        let m = prod(npots(ss.last()));
        if m > n {
            m
        } else {
            n
        }
    }
}

/// The dimensions of every shape.
pub open spec fn dims_of(shapes: Seq<Shape>) -> Seq<Seq<usize>> {
    Seq::new(shapes.len(), |i: int| shapes[i]@)
}

fn longest_poly(start: usize, shapes: &Vec<Shape>) -> (r: usize)
    requires
        forall|i: int|
            0 <= i < shapes@.len() ==> npots_fit(#[trigger] shapes@[i]@) && prod(npots(shapes@[i]@))
                <= usize::MAX,
    ensures
        r == longest(start as nat, dims_of(shapes@)),
{
    let mut r: usize = start;
    let mut i: usize = 0;
    proof {
        assert(dims_of(shapes@).take(0) =~= Seq::empty());
    }
    while i < shapes.len()
        invariant
            i <= shapes@.len(),
            forall|i: int|
                0 <= i < shapes@.len() ==> npots_fit(#[trigger] shapes@[i]@) && prod(npots(shapes@[i]@))
                    <= usize::MAX,
            r == longest(start as nat, dims_of(shapes@).take(i as int)),
        decreases shapes@.len() - i,
    {
        proof {
            let s = shapes@[i as int]@;
            assert(npots_fit(s));
            assert forall|j: int| 0 <= j < s.len() implies crate::arith::npot(#[trigger] s[j] as nat)
                <= usize::MAX by {}
        }
        let p = shapes[i].next_power_of_two();
        proof {
            let s = shapes@[i as int]@;
            assert(p@ =~= npots(s));
            let all = dims_of(shapes@);
            assert(all.take(i + 1).drop_last() =~= all.take(i as int));
            assert(all.take(i + 1).last() == s);
        }
        let n = p.product();
        if n > r {
            r = n;
        }
        i = i + 1;
    }
    proof {
        assert(dims_of(shapes@).take(i as int) =~= dims_of(shapes@));
    }
    r
}

/// `r` is what the layer hands on after `aux`: its context, the shapes of its outputs, the length of the longest
/// polynomial, and the tables in use. It fails where an input has another rank, or where the outputs do not all have the
/// same number of variables.
pub open spec fn is_step_info(
    r: Result<(PoolingCtx, ContextAux), LayerError>,
    pool: Pooling,
    id: usize,
    aux: &ContextAux,
) -> bool {
    let ins = dims_of(aux.last_output_shape@);
    let ranks = forall|i: int| 0 <= i < ins.len() ==> context_rank(pool, #[trigger] ins[i]);
    let vars = forall|i: int|
        0 <= i < ins.len() ==> context_vars(pool, #[trigger] ins[i]) == context_vars(pool, ins[0]);
    match r {
        Ok((ctx, out)) => {
            let outs = dims_of(out.last_output_shape@);
            &&& ranks
            &&& vars
            &&& ctx.node_id == id
            &&& ctx.num_vars == context_vars(pool, ins[0])
            &&& ctx.pool_kind == (match pool {
                Pooling::Maxpool2D(info) => PoolKind::MaxPool(info),
                Pooling::GlobalAvgPool2D(gap) => PoolKind::GlobalAvgPool(gap),
            })
            &&& outs.len() == ins.len()
            &&& forall|i: int|
                0 <= i < outs.len() ==> #[trigger] outs[i] == context_shape(pool, ins[i])
            &&& out.last_unpadded_output_shape == aux.last_unpadded_output_shape
            &&& out.model_polys is None
            &&& out.max_poly_len == longest(aux.max_poly_len as nat, outs)
            &&& out.tables@ == (if pool is Maxpool2D && !aux.tables@.contains(TableType::Range) {
                aux.tables@.push(TableType::Range)
            } else {
                aux.tables@
            })
        },
        Err(e) => {
            ||| e == LayerError::InputRank && !ranks
            ||| e == LayerError::NumVars && ranks && !vars
        },
    }
}

impl Pooling {
    /// A pooling layer has one output for every input.
    pub fn num_outputs(num_inputs: usize) -> (r: usize)
        ensures
            r == num_inputs,
    {
        num_inputs
    }

    /// Every pooling layer can be proved.
    pub fn is_provable(&self) -> (r: bool)
        ensures
            r,
    {
        true
    }

    /// The layer can be applied to the input.
    pub open spec fn applies(self, input: &Tensor<Element>) -> bool {
        match self {
            Pooling::Maxpool2D(info) => {
                &&& info.supported()
                &&& input.wf()
                &&& poolable(input.shape@, info.kernel_size as int, info.stride as int)
            },
            Pooling::GlobalAvgPool2D(gap) => average_ok(gap, input),
        }
    }

    /// `r` is the output for the input.
    pub open spec fn is_output(self, r: &Tensor<Element>, input: &Tensor<Element>) -> bool {
        match self {
            Pooling::Maxpool2D(info) => is_pooled(r, input, info.kernel_size as int, info.stride as int),
            Pooling::GlobalAvgPool2D(gap) => is_average(gap, r, input),
        }
    }

    /// The output for the input.
    pub fn op(&self, input: &Tensor<Element>) -> (r: Tensor<Element>)
        requires
            self.applies(input),
        ensures
            self.is_output(&r, input),
    {
        match self {
            Pooling::Maxpool2D(info) => info.op(input),
            Pooling::GlobalAvgPool2D(gap) => gap.op(input),
        }
    }

    /// The output for the one input.
    pub fn evaluate(&self, inputs: &Vec<Tensor<Element>>) -> (r: Result<Tensor<Element>, LayerError>)
        requires
            inputs@.len() == 1 ==> self.applies(&inputs@[0]),
        ensures
            match r {
                Ok(t) => inputs@.len() == 1 && self.is_output(&t, &inputs@[0]),
                Err(e) => e == LayerError::InputCount && inputs@.len() != 1,
            },
    {
        if inputs.len() != 1 {
            return Err(LayerError::InputCount);
        }
        Ok(self.op(&inputs[0]))
    }

    /// The shape of the output can be computed.
    pub open spec fn has_shape(self, s: Seq<usize>) -> bool {
        match self {
            Pooling::Maxpool2D(_) => has_windows(s),
            Pooling::GlobalAvgPool2D(_) => s.len() >= 1,
        }
    }

    /// `r` is the shape of the output for an input of shape `s`.
    pub open spec fn is_shape(self, r: Seq<usize>, s: Seq<usize>) -> bool {
        match self {
            Pooling::Maxpool2D(_) => has_dims(r, s[0] as int, s[1] as int / 2, plane_width(s) / 2),
            Pooling::GlobalAvgPool2D(_) => has_dims(r, s[0] as int, 1, 1),
        }
    }

    fn shape_for(&self, input_shape: &Shape) -> (r: Shape)
        requires
            self.has_shape(input_shape@),
        ensures
            self.is_shape(r@, input_shape@),
    {
        match self {
            Pooling::Maxpool2D(info) => info.output_shape(input_shape),
            Pooling::GlobalAvgPool2D(gap) => gap.output_shape(input_shape),
        }
    }

    /// The shapes of the outputs for inputs of the given shapes.
    pub fn output_shapes(&self, input_shapes: &Vec<Shape>, _padding_mode: PaddingMode) -> (r: Vec<Shape>)
        requires
            forall|i: int| 0 <= i < input_shapes@.len() ==> self.has_shape((#[trigger] input_shapes@[i])@),
        ensures
            r@.len() == input_shapes@.len(),
            forall|i: int| 0 <= i < r@.len() ==> self.is_shape((#[trigger] r@[i])@, input_shapes@[i]@),
    {
        let mut r: Vec<Shape> = Vec::with_capacity(input_shapes.len());
        let mut i: usize = 0;
        while i < input_shapes.len()
            invariant
                i <= input_shapes@.len(),
                forall|i: int|
                    0 <= i < input_shapes@.len() ==> self.has_shape((#[trigger] input_shapes@[i])@),
                r@.len() == i,
                forall|j: int| 0 <= j < i ==> self.is_shape((#[trigger] r@[j])@, input_shapes@[j]@),
            decreases input_shapes@.len() - i,
        {
            assert(self.has_shape(input_shapes@[i as int]@));
            r.push(self.shape_for(&input_shapes[i]));
            i = i + 1;
        }
        r
    }

    /// The shape of the output in the context.
    fn shape_in_context(&self, shape: &Shape) -> (r: Shape)
        requires
            context_rank(*self, shape@),
            context_fits(*self, shape@),
        ensures
            r@ == context_shape(*self, shape@),
    {
        let mut dims = usize_vec(&shape.0);
        match self {
            Pooling::Maxpool2D(info) => {
                let n: usize = dims.len() - 2;
                let h = dims[n];
                let w = dims[n + 1];
                proof {
                    lemma_window_count(h as int, info.kernel_size as int, info.stride as int);
                    lemma_window_count(w as int, info.kernel_size as int, info.stride as int);
                }
                dims.set(n, (h - info.kernel_size) / info.stride + 1);
                dims.set(n + 1, (w - info.kernel_size) / info.stride + 1);
            },
            Pooling::GlobalAvgPool2D(_) => {
                dims.set(1, 1);
                dims.set(2, 1);
            },
        }
        Shape(dims)
    }

    /// The context of the layer, and what it hands on.
    pub fn step_info(&self, id: usize, aux: ContextAux) -> (r: Result<(PoolingCtx, ContextAux), LayerError>)
        requires
            aux.last_output_shape@.len() > 0,
            forall|i: int|
                0 <= i < aux.last_output_shape@.len() ==> context_fits(
                    *self,
                    (#[trigger] aux.last_output_shape@[i])@,
                ),
        ensures
            is_step_info(r, *self, id, &aux),
    {
        let ghost ins = dims_of(aux.last_output_shape@);
        let mut next = aux;
        let pool_kind = match self {
            Pooling::Maxpool2D(info) => {
                next.use_table(TableType::Range);
                PoolKind::MaxPool(*info)
            },
            Pooling::GlobalAvgPool2D(gap) => PoolKind::GlobalAvgPool(*gap),
        };
        let count: usize = next.last_output_shape.len();
        let mut i: usize = 0;
        while i < count
            invariant
                i <= count,
                count == next.last_output_shape@.len(),
                next.last_output_shape@ == aux.last_output_shape@,
                ins == dims_of(aux.last_output_shape@),
                forall|j: int| 0 <= j < i ==> context_rank(*self, #[trigger] ins[j]),
            decreases count - i,
        {
            let bad: bool = match self {
                Pooling::Maxpool2D(_) => false,
                Pooling::GlobalAvgPool2D(_) => next.last_output_shape[i].rank() != 3,
            };
            if bad {
                assert(!context_rank(*self, ins[i as int]));
                return Err(LayerError::InputRank);
            }
            assert(context_rank(*self, ins[i as int]));
            i = i + 1;
        }
        let mut outs: Vec<Shape> = Vec::with_capacity(count);
        let mut num_vars: usize = 0;
        let mut k: usize = 0;
        while k < count
            invariant
                k <= count,
                count == next.last_output_shape@.len(),
                next.last_output_shape@ == aux.last_output_shape@,
                ins == dims_of(aux.last_output_shape@),
                forall|j: int| 0 <= j < count ==> context_rank(*self, #[trigger] ins[j]),
                forall|j: int|
                    0 <= j < count ==> context_fits(*self, (#[trigger] aux.last_output_shape@[j])@),
                outs@.len() == k,
                forall|j: int|
                    0 <= j < k ==> (#[trigger] outs@[j])@ == context_shape(*self, ins[j]),
                forall|j: int|
                    0 <= j < k ==> context_vars(*self, #[trigger] ins[j]) == num_vars,
                k > 0 ==> num_vars == context_vars(*self, ins[0]),
            decreases count - k,
        {
            let ghost s = ins[k as int];
            proof {
                assert(s == aux.last_output_shape@[k as int]@);
                assert(context_fits(*self, s));
                assert(context_rank(*self, s));
            }
            let out = self.shape_in_context(&next.last_output_shape[k]);
            let v: usize = match self {
                Pooling::Maxpool2D(_) => num_vars_of(&out),
                Pooling::GlobalAvgPool2D(_) => {
                    proof {
                        assert(out@[0] == s[0]);
                        assert(crate::arith::npot(out@[0] as nat) <= usize::MAX);
                    }
                    ceil_log2(out.0[0])
                },
            };
            if k > 0 && v != num_vars {
                assert(context_vars(*self, ins[k as int]) != context_vars(*self, ins[0]));
                return Err(LayerError::NumVars);
            }
            num_vars = v;
            outs.push(out);
            k = k + 1;
        }
        proof {
            assert forall|j: int| 0 <= j < outs@.len() implies npots_fit(#[trigger] outs@[j]@) && prod(
                npots(outs@[j]@),
            ) <= usize::MAX by {
                assert(context_rank(*self, ins[j]));
                assert(context_fits(*self, aux.last_output_shape@[j]@));
            }
        }
        next.max_poly_len = longest_poly(next.max_poly_len, &outs);
        next.model_polys = None;
        next.last_output_shape = outs;
        Ok((PoolingCtx { pool_kind, node_id: id, num_vars }, next))
    }
}

impl PoolingCtx {
    /// The layer of the context.
    pub open spec fn layer(self) -> Pooling {
        match self.pool_kind {
            PoolKind::MaxPool(info) => Pooling::Maxpool2D(info),
            PoolKind::GlobalAvgPool(gap) => Pooling::GlobalAvgPool2D(gap),
        }
    }

    fn pooling(&self) -> (r: Pooling)
        ensures
            r == self.layer(),
    {
        match self.pool_kind {
            PoolKind::MaxPool(info) => Pooling::Maxpool2D(info),
            PoolKind::GlobalAvgPool(gap) => Pooling::GlobalAvgPool2D(gap),
        }
    }

    /// The shape of the output for an input of the given shape.
    pub fn output_shape(&self, input_shape: &Shape) -> (r: Shape)
        requires
            self.layer().has_shape(input_shape@),
        ensures
            self.layer().is_shape(r@, input_shape@),
    {
        self.pooling().shape_for(input_shape)
    }

    /// The shapes of the outputs for inputs of the given shapes.
    pub fn output_shapes(&self, input_shapes: &Vec<Shape>, padding_mode: PaddingMode) -> (r: Vec<Shape>)
        requires
            forall|i: int|
                0 <= i < input_shapes@.len() ==> self.layer().has_shape((#[trigger] input_shapes@[i])@),
        ensures
            r@.len() == input_shapes@.len(),
            forall|i: int|
                0 <= i < r@.len() ==> self.layer().is_shape((#[trigger] r@[i])@, input_shapes@[i]@),
    {
        self.pooling().output_shapes(input_shapes, padding_mode)
    }

    /// A pooling layer has one output for every input.
    pub fn num_outputs(&self, num_inputs: usize) -> (r: usize)
        ensures
            r == num_inputs,
    {
        Pooling::num_outputs(num_inputs)
    }

    /// Every pooling layer can be proved.
    pub fn is_provable(&self) -> (r: bool)
        ensures
            r,
    {
        true
    }
}

} // verus!
