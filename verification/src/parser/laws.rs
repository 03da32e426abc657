//! What holds of the layers that are read, whatever way their nodes are written in.
use crate::layers::pooling::{GlobalAvgPool2D, Maxpool2D, Pooling};
use crate::layers::Layer;
use crate::parser::dispatch::{
    edge_of, holds, is_chain, is_choice, is_layer, layer_error, matches_key, stands_at, LayerKey, ParsedLayer,
    ParsedNode,
};
use crate::parser::gemm_laws::differ_by_a_swap;
use crate::parser::layers::{can_be_built, is_layer_of};
use crate::parser::nodes::{average_error, axes_size, default_maxpool, reshape_error};
use crate::parser::onnx::{
    concrete, conv_error, maxpool_error, numbers, unbatched, Dim, Link, OnnxError, OnnxModel, OnnxNode, Op, PaddingSpec,
    PoolSpec,
};
use crate::shape::{lemma_prod1, prod};
use vstd::prelude::*;

verus! {

/// Every entry is the given one.
pub open spec fn constant(v: Seq<usize>, x: int) -> bool {
    v == Seq::new(v.len(), |i: int| x as usize)
}

/// Nothing is added around the input.
pub open spec fn adds_nothing(p: PaddingSpec) -> bool {
    match p {
        PaddingSpec::Explicit(a, b) => constant(a@, 0) && constant(b@, 0),
        PaddingSpec::ExplicitOnnxPool(a, b) => constant(a@, 0) && constant(b@, 0),
        PaddingSpec::Valid => true,
        PaddingSpec::Automatic => false,
    }
}

proof fn lemma_constant(v: Seq<usize>, x: usize)
    ensures
        constant(v, x as int) <==> crate::parser::onnx::all_equal(v, x),
{
    if constant(v, x as int) {
        assert forall|i: int| 0 <= i < v.len() implies #[trigger] v[i] == x by {
            assert(Seq::new(v.len(), |i: int| x)[i] == x);
        }
    }
    if crate::parser::onnx::all_equal(v, x) {
        assert(v =~= Seq::new(v.len(), |i: int| x));
    }
}

/// A maximum layer has the windows of the node: as large as the kernel in each direction, as far apart as the strides
/// say, on an input to which nothing is added; and every node with windows of the layer's size is read.
pub proof fn law_windows_of_maximum(p: PoolSpec, m: Maxpool2D)
    requires
        default_maxpool() == Pooling::Maxpool2D(m),
    ensures
        maxpool_error(p) is None <==> {
            &&& constant(p.kernel_shape@, m.kernel_size as int)
            &&& p.strides matches Some(s) ==> constant(s@, m.stride as int)
            &&& p.dilations matches Some(d) ==> constant(d@, 1)
            &&& adds_nothing(p.padding)
        },
        m.kernel_size == 2,
        m.stride == 2,
{
    lemma_constant(p.kernel_shape@, 2);
    if let Some(s) = p.strides {
        lemma_constant(s@, 2);
    }
    if let Some(d) = p.dilations {
        lemma_constant(d@, 1);
    }
    match p.padding {
        PaddingSpec::Explicit(a, b) => {
            lemma_constant(a@, 0);
            lemma_constant(b@, 0);
        },
        PaddingSpec::ExplicitOnnxPool(a, b) => {
            lemma_constant(a@, 0);
            lemma_constant(b@, 0);
        },
        _ => {},
    }
}

/// The windows of a convolution are supported exactly where it has a square kernel of more than one entry in each
/// direction, is moved by one, and nothing is added around its input.
pub proof fn law_windows_of_convolution(p: PoolSpec)
    ensures
        conv_error(p) is None <==> {
            &&& p.kernel_shape@.len() == 2
            &&& p.kernel_shape@[0] == p.kernel_shape@[1]
            &&& p.kernel_shape@[0] >= 2
            &&& p.strides matches Some(s) && constant(s@, 1)
            &&& p.dilations matches Some(d) && constant(d@, 1)
            &&& p.padding is Explicit && adds_nothing(p.padding)
        },
{
    if let Some(s) = p.strides {
        lemma_constant(s@, 1);
    }
    if let Some(d) = p.dilations {
        lemma_constant(d@, 1);
    }
    if let PaddingSpec::Explicit(a, b) = p.padding {
        lemma_constant(a@, 0);
        lemma_constant(b@, 0);
    }
}

/// An attribute that is not supported is reported, whatever the attributes that are looked at later are.
pub proof fn law_first_unsupported_attribute(p: PoolSpec, q: PoolSpec)
    requires
        p.strides == q.strides,
    ensures
        maxpool_error(p) == Some(OnnxError::Strides) ==> maxpool_error(q) == Some(OnnxError::Strides),
        conv_error(p) == Some(OnnxError::Strides) ==> conv_error(q) == Some(OnnxError::Strides),
        p.padding == q.padding && maxpool_error(p) == Some(OnnxError::Padding) ==> maxpool_error(q) == Some(
            OnnxError::Padding,
        ),
        p.padding == q.padding && conv_error(p) == Some(OnnxError::Padding) ==> conv_error(q) == Some(
            OnnxError::Padding,
        ),
{
}

/// A flattening layer keeps the number of entries: a reshape that is read has a single dimension, which is the number of
/// entries of its input.
pub proof fn law_reshapes_flatten<T>(node: OnnxNode<T>, from: Vec<Dim>, to: Vec<Dim>)
    requires
        node.op == (Op::<T>::Reshape { from, to }),
    ensures
        reshape_error(node) is None <==> {
            &&& node.inputs@.len() == 1
            &&& concrete(from@)
            &&& to@.len() == 1
            &&& to@[0] matches Dim::Val(v) && v as usize == prod(numbers(from@))
        },
{
    if to@.len() == 1 && to@[0] is Val {
        assert(concrete(to@));
        assert(numbers(to@) =~= seq![to@[0]->Val_0 as usize]);
        lemma_prod1(to@[0]->Val_0 as usize);
    }
    if concrete(to@) && to@.len() == 1 {
        assert(to@[0] is Val);
    }
}

/// The order of the dimensions that a reshape flattens does not matter, nor do further dimensions of one.
pub proof fn law_reshapes_with_the_same_size<T>(a: OnnxNode<T>, b: OnnxNode<T>)
    requires
        a.inputs == b.inputs,
        a.op is Reshape,
        b.op is Reshape,
        concrete(a.op->from@),
        concrete(b.op->from@),
        prod(numbers(a.op->from@)) == prod(numbers(b.op->from@)),
        a.op->to == b.op->to,
    ensures
        reshape_error(a) == reshape_error(b),
{
}

/// A rectifier takes the input that is not constant, at whichever place it stands.
pub proof fn law_rectified_input<T>(
    r: &ParsedNode<T>,
    model: &OnnxModel<T>,
    id: usize,
    next: Option<usize>,
    first: bool,
    zero: T,
    k: int,
)
    requires
        model.wf(),
        id < model.nodes@.len(),
        model.nodes@[id as int].inputs@.len() == 2,
        0 <= k < 2,
        model.source(model.nodes@[id as int].inputs@[k]).op is Const,
        !(model.source(model.nodes@[id as int].inputs@[1 - k]).op is Const),
    ensures
        layer_error(model, LayerKey::Relu, id, next) is None,
        is_layer(r, model, LayerKey::Relu, id, next, first, zero) ==> {
            &&& r.layer is Relu
            &&& !r.consumed
            &&& r.id == id
            &&& r.input.index == model.nodes@[id as int].inputs@[1 - k].slot
            &&& !first ==> r.input.node == Some(model.nodes@[id as int].inputs@[1 - k].node)
            &&& first ==> r.input.node is None
        },
{
}

/// Swapping the inputs of a rectifier changes nothing of what is read, where only one of them is constant.
pub proof fn law_inputs_of_the_rectifier_commute<T>(
    r: &ParsedNode<T>,
    a: &OnnxModel<T>,
    b: &OnnxModel<T>,
    id: usize,
    next: Option<usize>,
    first: bool,
    zero: T,
)
    requires
        a.wf(),
        b.wf(),
        differ_by_a_swap(a, b, id),
        a.source(a.nodes@[id as int].inputs@[0]).op is Const != a.source(a.nodes@[id as int].inputs@[1]).op is Const,
    ensures
        layer_error(a, LayerKey::Relu, id, next) is None,
        layer_error(b, LayerKey::Relu, id, next) is None,
        is_layer(r, a, LayerKey::Relu, id, next, first, zero) == is_layer(r, b, LayerKey::Relu, id, next, first, zero),
{
    assert(a.node_wf(a.nodes@[id as int]));
    let (p, q) = (a.nodes@[id as int].inputs@[0], a.nodes@[id as int].inputs@[1]);
    assert(a.nodes@[p.node as int].op == b.nodes@[p.node as int].op);
    assert(a.nodes@[q.node as int].op == b.nodes@[q.node as int].op);
}

/// An average divides by the number of entries of a plane: where the sum goes over the last two of four dimensions, in
/// either order, that is the product of the two, and the node that follows belongs to the layer.
pub proof fn law_average_of_planes<T>(
    r: &ParsedNode<T>,
    model: &OnnxModel<T>,
    id: usize,
    n: usize,
    first: bool,
    zero: T,
)
    requires
        model.wf(),
        id < model.nodes@.len(),
        n < model.nodes@.len(),
        ({
            let node = model.nodes@[id as int];
            let l = node.inputs@[0];
            let s = model.source(l).outputs@[l.slot as int];
            &&& node.op matches Op::Reduce { sum, axes } && sum && (axes@ == seq![2usize, 3usize] || axes@ == seq![
                3usize,
                2usize,
            ])
            &&& node.inputs@.len() == 1
            &&& s is Some && s->0@.len() == 4
            &&& 0 < s->0@[2] * s->0@[3] <= usize::MAX
        }),
    ensures
        layer_error(model, LayerKey::ReduceSum, id, Some(n)) is None <==> model.nodes@[n as int].op is BinOp,
        layer_error(model, LayerKey::ReduceSum, id, None) == Some(OnnxError::Normalization),
        is_layer(r, model, LayerKey::ReduceSum, id, Some(n), first, zero) ==> {
            let l = model.nodes@[id as int].inputs@[0];
            let s = model.source(l).outputs@[l.slot as int]->0@;
            &&& r.id == n
            &&& r.consumed
            &&& r.layer matches ParsedLayer::Pooling(Pooling::GlobalAvgPool2D(g)) && g.spatial_size == s[2] * s[3]
            &&& r.input.index == l.slot
        },
{
    let node = model.nodes@[id as int];
    let l = node.inputs@[0];
    let s = model.source(l).outputs@[l.slot as int]->0@;
    let axes = node.op->Reduce_axes@;
    reveal_with_fuel(axes_size, 3);
    assert(axes_size(s, axes, 2) == s[2] * s[3]) by {
        assert(axes_size(s, axes, 0) == 1);
        assert(axes_size(s, axes, 1) == s[axes[0] as int]);
        assert(axes_size(s, axes, 2) == s[axes[0] as int] * s[axes[1] as int]);
        assert(s[3] * s[2] == s[2] * s[3]) by (nonlinear_arith);
    }
}

/// Sums over other axes than those of the planes, and reductions other than sums, are not averages.
pub proof fn law_other_reductions<T>(model: &OnnxModel<T>, id: usize, next: Option<usize>, axes: Vec<usize>, i: int)
    requires
        id < model.nodes@.len(),
        0 <= i < axes@.len(),
    ensures
        model.nodes@[id as int].op == (Op::<T>::Reduce { sum: false, axes }) ==> average_error(model, id, next) == Some(
            OnnxError::Reducer,
        ),
        model.nodes@[id as int].op == (Op::<T>::Reduce { sum: true, axes }) && axes@[i] < 2 ==> average_error(
            model,
            id,
            next,
        ) == Some(OnnxError::Axes),
{
}

/// Dropping a batch of one keeps the number of entries, and what is left does not depend on whether the batch was there.
pub proof fn law_batch_of_one(s: Seq<usize>)
    requires
        s.len() > 0,
    ensures
        prod(unbatched(s)) == prod(s),
        unbatched(seq![1usize] + s) == s,
        s[0] != 1 ==> unbatched(s) == s,
        s[0] == 1 ==> unbatched(s).len() == s.len() - 1,
{
    assert((seq![1usize] + s).skip(1) =~= s);
    assert(1 * prod(s.skip(1)) == prod(s.skip(1)));
}

/// A convolution takes its first input, its filter is the second and its bias is the third: swapping the last two
/// gives the filter for the bias.
pub proof fn law_parts_of_a_convolution<T>(
    r: &ParsedNode<T>,
    model: &OnnxModel<T>,
    id: usize,
    next: Option<usize>,
    first: bool,
    zero: T,
    filter: Vec<T>,
    bias: Vec<T>,
)
    requires
        model.wf(),
        id < model.nodes@.len(),
        ({
            let node = model.nodes@[id as int];
            &&& node.op matches Op::Conv(p) && conv_error(p) is None
            &&& node.inputs@.len() == 3
            &&& model.source(node.inputs@[1]).op == Op::Const(Some(filter))
            &&& model.source(node.inputs@[2]).op == Op::Const(Some(bias))
            &&& model.source(node.inputs@[1]).outputs@.len() == 1
            &&& model.source(node.inputs@[2]).outputs@.len() == 1
            &&& model.source(node.inputs@[1]).outputs@[0] is Some
            &&& model.source(node.inputs@[2]).outputs@[0] is Some
        }),
    ensures
        layer_error(model, LayerKey::Conv, id, next) is None,
        is_layer(r, model, LayerKey::Conv, id, next, first, zero) ==> {
            let node = model.nodes@[id as int];
            let b = model.source(node.inputs@[2]).outputs@[0]->0@;
            &&& r.input.index == node.inputs@[0].slot
            &&& !first ==> r.input.node == Some(node.inputs@[0].node)
            &&& first ==> r.input.node is None
            &&& r.layer matches ParsedLayer::Conv { filter: f, filter_bias } && {
                &&& f.data@ == filter@
                &&& f.shape@ == model.source(node.inputs@[1]).outputs@[0]->0@
                &&& filter_bias is Some <==> b.len() > 0
                &&& filter_bias matches Some(t) ==> t.data@ == bias@ && t.shape@ == b
            }
        },
{
}

/// A layer that takes one input is read as that of its name, takes that input, and is known by its own node.
pub proof fn law_layers_with_one_input<T>(
    r: &ParsedNode<T>,
    model: &OnnxModel<T>,
    key: LayerKey,
    id: usize,
    next: Option<usize>,
    first: bool,
    zero: T,
)
    requires
        key == LayerKey::Flatten || key == LayerKey::Reshape || key == LayerKey::Pool,
        is_layer(r, model, key, id, next, first, zero),
        layer_error(model, key, id, next) is None,
    ensures
        model.nodes@[id as int].inputs@.len() == 1,
        r.id == id,
        !r.consumed,
        r.input.index == model.nodes@[id as int].inputs@[0].slot,
        first ==> r.input.node is None,
        !first ==> r.input.node == Some(model.nodes@[id as int].inputs@[0].node),
        r.layer is Flatten <==> key != LayerKey::Pool,
        key == LayerKey::Pool ==> (r.layer matches ParsedLayer::Pooling(Pooling::Maxpool2D(m)) && m.kernel_size == 2
            && m.stride == 2),
{
}

/// The names of the layers, as text.
pub proof fn law_names_of_layers(key: LayerKey, i: int)
    ensures
        ({
            let name = match key {
                LayerKey::Conv => "Conv"@,
                LayerKey::GemmAb => "Gemm.ab"@,
                LayerKey::MatMul => "MatMul"@,
                LayerKey::Relu => "Relu"@,
                LayerKey::Flatten => "Flatten"@,
                LayerKey::Pool => "Pool"@,
                LayerKey::Reshape => "Reshape"@,
                LayerKey::ReduceSum => "Reduce<Sum>"@,
            };
            &&& key.text().len() == name.len()
            &&& 0 <= i < name.len() ==> key.text()[i] as char == name[i]
        }),
{
    reveal_strlit("Conv");
    reveal_strlit("Gemm.ab");
    reveal_strlit("MatMul");
    reveal_strlit("Relu");
    reveal_strlit("Flatten");
    reveal_strlit("Pool");
    reveal_strlit("Reshape");
    reveal_strlit("Reduce<Sum>");
}

/// A layer is found by its name wherever that stands in the name of the node or of its operation.
pub proof fn law_names_are_found<T>(node: OnnxNode<T>, key: LayerKey, before: Seq<u8>, after: Seq<u8>)
    requires
        node.name@ == before + key.text() + after || node.op_name@ == before + key.text() + after,
    ensures
        matches_key(node, key),
        forall|k: LayerKey| #[trigger] is_choice(node, k) ==> k.text().len() >= key.text().len(),
{
    let s = before + key.text() + after;
    let i = before.len() as int;
    assert(s.subrange(i, i + key.text().len()) =~= key.text());
    assert(stands_at(s, key.text(), i));
    assert(holds(s, key.text()));
    assert(matches_key(node, key));
}

/// A sum over planes is read as an average also where its name speaks of a pool, and a flattening reshape is never
/// taken for a shorter name.
pub proof fn law_longest_name<T>(node: OnnxNode<T>, key: LayerKey)
    requires
        is_choice(node, key),
    ensures
        matches_key(node, LayerKey::ReduceSum) ==> key == LayerKey::ReduceSum,
        matches_key(node, LayerKey::Reshape) || matches_key(node, LayerKey::Flatten) || matches_key(
            node,
            LayerKey::GemmAb,
        ) ==> key != LayerKey::Pool && key != LayerKey::Conv && key != LayerKey::Relu && key != LayerKey::MatMul,
        matches_key(node, LayerKey::MatMul) ==> key != LayerKey::Pool && key != LayerKey::Conv && key
            != LayerKey::Relu,
{
}

/// The input of the first layer is the input of the model; that of every other layer is the output of a node.
pub proof fn law_where_inputs_come_from(l: Link, m: Link, first: bool)
    ensures
        edge_of(l, true).node is None,
        edge_of(l, false).node == Some(l.node),
        edge_of(l, first).index == l.slot,
        edge_of(l, false) == edge_of(m, false) <==> l == m,
{
}

/// The number of the nodes that are part of the layer before them.
pub open spec fn consumed_nodes<T>(nodes: Seq<ParsedNode<T>>) -> nat
    decreases nodes.len(),
{
    if nodes.len() == 0 {
        0
    } else {
        consumed_nodes(nodes.drop_last()) + (if nodes.last().consumed {
            1nat
        } else {
            0nat
        })
    }
}

/// Every node is read once, as a layer of its own or as part of the layer before it.
pub proof fn law_every_node_is_read_once<T>(
    nodes: Seq<ParsedNode<T>>,
    ks: Seq<int>,
    model: &OnnxModel<T>,
    order: Seq<usize>,
    zero: T,
)
    requires
        is_chain(nodes, ks, model, order, zero),
    ensures
        ks.last() == nodes.len() + consumed_nodes(nodes),
    decreases nodes.len(),
{
    if nodes.len() > 0 {
        let n = nodes.len() - 1;
        let (fewer, ls) = (nodes.drop_last(), ks.drop_last());
        assert forall|i: int| 0 <= i < fewer.len() implies {
            &&& 0 <= ls[i] < order.len()
            &&& crate::parser::dispatch::is_read(&#[trigger] fewer[i], model, order, ls[i], i == 0, zero)
            &&& ls[i + 1] == ls[i] + (if fewer[i].consumed {
                2int
            } else {
                1
            })
        } by {
            assert(nodes[i] == fewer[i]);
        }
        law_every_node_is_read_once(fewer, ls, model, order, zero);
        assert(nodes[n] == nodes.last());
        assert(ls.last() == ks[n]);
    }
}

/// A layer that was read is built as the layer of the same kind, with the parameters that were read; a convolution
/// without a bias adds nothing.
pub proof fn law_built_layers<T>(l: Layer<T>, p: ParsedLayer<T>, zero: T)
    requires
        can_be_built(p),
        is_layer_of(l, p, zero),
    ensures
        p is Conv <==> l is Convolution,
        p is Dense <==> l is Dense,
        p is Relu <==> l is Activation,
        p is Flatten <==> l is Flatten,
        p is Pooling <==> l is Pooling,
        p matches ParsedLayer::Dense { weight, bias } ==> (l matches Layer::Dense(d) && d.matrix == weight && d.bias
            == bias),
        p matches ParsedLayer::Conv { filter, filter_bias } ==> (l matches Layer::Convolution(c) && {
            &&& c.filter == filter
            &&& c.unpadded_shape@ == filter.shape@
            &&& c.input_padding@[0] == 0 && c.input_padding@[1] == 0
            &&& c.stride@[0] == 1 && c.stride@[1] == 1
            &&& c.bias.shape@[0] == filter.shape@[0]
            &&& filter_bias matches Some(b) ==> c.bias == b
            &&& filter_bias is None ==> c.bias.data@.len() == filter.shape@[0] && forall|i: int|
                0 <= i < filter.shape@[0] ==> #[trigger] c.bias.data@[i] == zero
        }),
        p matches ParsedLayer::Pooling(q) ==> (l matches Layer::Pooling(s) && s == q),
{
}

} // verus!
