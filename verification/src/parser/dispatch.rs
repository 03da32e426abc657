//! Reading of the nodes of a model one after the other.
use crate::layers::pooling::Pooling;
use crate::padding::model::Edge;
use crate::parser::gemm::{gemm_error, gemm_fits, is_gemm, load_gemm, GemmNode};
use crate::parser::nodes::{
    average_error, average_fits, default_maxpool, flatten_error, is_constant, load_conv, load_conv_error,
    load_flatten, load_globalavgpool, load_maxpool, load_maxpool_error, load_relu, load_reshape, plane_size,
    relu_error, reshape_error, reshape_fits,
};
use crate::parser::onnx::{Link, OnnxError, OnnxModel, OnnxNode};
use crate::layers::pooling::GlobalAvgPool2D;
use crate::tensor::Tensor;
use vstd::prelude::*;

verus! {

/// The names that layers are known by.
#[derive(Debug, Clone, Copy, PartialEq, Eq, Structural)]
pub enum LayerKey {
    Conv,
    GemmAb,
    MatMul,
    Relu,
    Flatten,
    Pool,
    Reshape,
    /// A sum over planes, which an average starts with.
    ReduceSum,
}

impl LayerKey {
    /// The bytes of the name.
    pub open spec fn text(self) -> Seq<u8> {
        match self {
            // Conv
            LayerKey::Conv => seq![67u8, 111u8, 110u8, 118u8],
            // Gemm.ab
            LayerKey::GemmAb => seq![71u8, 101u8, 109u8, 109u8, 46u8, 97u8, 98u8],
            // MatMul
            LayerKey::MatMul => seq![77u8, 97u8, 116u8, 77u8, 117u8, 108u8],
            // Relu
            LayerKey::Relu => seq![82u8, 101u8, 108u8, 117u8],
            // Flatten
            LayerKey::Flatten => seq![70u8, 108u8, 97u8, 116u8, 116u8, 101u8, 110u8],
            // Pool
            LayerKey::Pool => seq![80u8, 111u8, 111u8, 108u8],
            // Reshape
            LayerKey::Reshape => seq![82u8, 101u8, 115u8, 104u8, 97u8, 112u8, 101u8],
            // Reduce<Sum>
            LayerKey::ReduceSum => seq![82u8, 101u8, 100u8, 117u8, 99u8, 101u8, 60u8, 83u8, 117u8, 109u8, 62u8],
        }
    }

    fn bytes(self) -> (r: Vec<u8>)
        ensures
            r@ == self.text(),
    {
        let r: Vec<u8> = match self {
            LayerKey::Conv => vec![67, 111, 110, 118],
            LayerKey::GemmAb => vec![71, 101, 109, 109, 46, 97, 98],
            LayerKey::MatMul => vec![77, 97, 116, 77, 117, 108],
            LayerKey::Relu => vec![82, 101, 108, 117],
            LayerKey::Flatten => vec![70, 108, 97, 116, 116, 101, 110],
            LayerKey::Pool => vec![80, 111, 111, 108],
            LayerKey::Reshape => vec![82, 101, 115, 104, 97, 112, 101],
            LayerKey::ReduceSum => vec![82, 101, 100, 117, 99, 101, 60, 83, 117, 109, 62],
        };
        proof {
            assert(r@ =~= self.text());
        }
        r
    }
}

/// The key stands at place `i` of the name.
pub open spec fn stands_at(name: Seq<u8>, key: Seq<u8>, i: int) -> bool {
    0 <= i && i + key.len() <= name.len() && name.subrange(i, i + key.len()) == key
}

/// The name holds the key.
pub open spec fn holds(name: Seq<u8>, key: Seq<u8>) -> bool {
    exists|i: int| #[trigger] stands_at(name, key, i)
}

fn key_at(name: &[u8], key: &[u8], i: usize) -> (r: bool)
    requires
        i + key@.len() <= name@.len(),
    ensures
        r == stands_at(name@, key@, i as int),
{
    let mut j: usize = 0;
    while j < key.len()
        invariant
            j <= key@.len(),
            i + key@.len() <= name.len(),
            forall|k: int| 0 <= k < j ==> #[trigger] key@[k] == name@[i + k],
        decreases key@.len() - j,
    {
        if name[i + j] != key[j] {
            assert(name@.subrange(i as int, i + key@.len())[j as int] == name@[i + j]);
            return false;
        }
        j = j + 1;
    }
    proof {
        assert(name@.subrange(i as int, i + key@.len()) =~= key@);
    }
    true
}

fn contains_key(name: &[u8], key: &[u8]) -> (r: bool)
    ensures
        r == holds(name@, key@),
{
    if key.len() > name.len() {
        return false;
    }
    let last: usize = name.len() - key.len();
    let mut i: usize = 0;
    while i < last
        invariant
            i <= last,
            last + key@.len() == name@.len(),
            forall|k: int| 0 <= k < i ==> !#[trigger] stands_at(name@, key@, k),
        decreases last - i,
    {
        if key_at(name, key, i) {
            return true;
        }
        i = i + 1;
    }
    key_at(name, key, last)
}

/// The node is one of the layers with that name: its own name or that of its operation holds the key.
pub open spec fn matches_key<T>(node: OnnxNode<T>, key: LayerKey) -> bool {
    holds(node.name@, key.text()) || holds(node.op_name@, key.text())
}

/// The key is the longest of those that match; there may be others of the same length.
pub open spec fn is_choice<T>(node: OnnxNode<T>, key: LayerKey) -> bool {
    &&& matches_key(node, key)
    &&& forall|k: LayerKey| #[trigger] matches_key(node, k) ==> k.text().len() <= key.text().len()
}

/// Chooses the layer of a node.
pub fn choose_layer<T>(node: &OnnxNode<T>) -> (r: Option<LayerKey>)
    ensures
        match r {
            Some(k) => is_choice(*node, k),
            None => forall|k: LayerKey| !#[trigger] matches_key(*node, k),
        },
{
    let keys: [LayerKey; 8] = [
        LayerKey::ReduceSum,
        LayerKey::GemmAb,
        LayerKey::Flatten,
        LayerKey::Reshape,
        LayerKey::MatMul,
        LayerKey::Conv,
        LayerKey::Relu,
        LayerKey::Pool,
    ];
    let mut i: usize = 0;
    while i < 8
        invariant
            i <= 8,
            keys@ == seq![
                LayerKey::ReduceSum,
                LayerKey::GemmAb,
                LayerKey::Flatten,
                LayerKey::Reshape,
                LayerKey::MatMul,
                LayerKey::Conv,
                LayerKey::Relu,
                LayerKey::Pool,
            ],
            forall|j: int| 0 <= j < i ==> !matches_key(*node, #[trigger] keys@[j]),
        decreases 8 - i,
    {
        let key = keys[i];
        let text = key.bytes();
        if contains_key(&node.name, &text) || contains_key(&node.op_name, &text) {
            proof {
                assert forall|k: LayerKey| #[trigger] matches_key(*node, k) implies k.text().len() <= key.text().len() by {
                    lemma_order(keys@, i as int, k);
                }
            }
            return Some(key);
        }
        i = i + 1;
    }
    proof {
        assert forall|k: LayerKey| !#[trigger] matches_key(*node, k) by {
            lemma_order(keys@, 8, k);
        }
    }
    None
}

/// A key is among the first `i`, or is at most as long as the one at `i`.
proof fn lemma_order(keys: Seq<LayerKey>, i: int, k: LayerKey)
    requires
        keys == seq![
            LayerKey::ReduceSum,
            LayerKey::GemmAb,
            LayerKey::Flatten,
            LayerKey::Reshape,
            LayerKey::MatMul,
            LayerKey::Conv,
            LayerKey::Relu,
            LayerKey::Pool,
        ],
        0 <= i <= 8,
    ensures
        (exists|j: int| 0 <= j < i && #[trigger] keys[j] == k) || (i < 8 && k.text().len() <= keys[i].text().len()),
{
    let j: int = match k {
        LayerKey::ReduceSum => 0,
        LayerKey::GemmAb => 1,
        LayerKey::Flatten => 2,
        LayerKey::Reshape => 3,
        LayerKey::MatMul => 4,
        LayerKey::Conv => 5,
        LayerKey::Relu => 6,
        LayerKey::Pool => 7,
    };
    assert(keys[j] == k);
}

/// A layer that was read.
#[derive(Debug)]
pub enum ParsedLayer<T> {
    Conv { filter: Tensor<T>, filter_bias: Option<Tensor<T>> },
    Dense { weight: Tensor<T>, bias: Tensor<T> },
    Relu,
    Flatten,
    Pooling(Pooling),
}

/// A node that was read: what later nodes know it by, where its input comes from, and the layer.
#[derive(Debug)]
pub struct ParsedNode<T> {
    pub id: usize,
    pub input: Edge,
    pub layer: ParsedLayer<T>,
    /// The node that follows belongs to the layer.
    pub consumed: bool,
}

/// What keeps a node from being read as the given layer.
pub open spec fn layer_error<T>(model: &OnnxModel<T>, key: LayerKey, id: usize, next: Option<usize>) -> Option<OnnxError> {
    let node = model.nodes@[id as int];
    match key {
        LayerKey::Conv => load_conv_error(model, node),
        LayerKey::GemmAb => gemm_error(model, id, next),
        LayerKey::MatMul => gemm_error(model, id, next),
        LayerKey::Relu => relu_error(model, node),
        LayerKey::Flatten => flatten_error(node),
        LayerKey::Pool => load_maxpool_error(node),
        LayerKey::Reshape => reshape_error(node),
        LayerKey::ReduceSum => average_error(model, id, next),
    }
}

/// Where the input of a layer comes from; that of the first layer is the input of the model.
pub open spec fn edge_of(l: Link, first: bool) -> Edge {
    Edge {
        node: if first {
            None
        } else {
            Some(l.node)
        },
        index: l.slot,
    }
}

/// `r` is the node read as the given layer.
pub open spec fn is_layer<T>(
    r: &ParsedNode<T>,
    model: &OnnxModel<T>,
    key: LayerKey,
    id: usize,
    next: Option<usize>,
    first: bool,
    zero: T,
) -> bool {
    let node = model.nodes@[id as int];
    match key {
        LayerKey::Conv => {
            let b = model.source(node.inputs@[2]);
            &&& r.id == id
            &&& !r.consumed
            &&& r.input == edge_of(node.inputs@[0], first)
            &&& r.layer matches ParsedLayer::Conv { filter, filter_bias } && {
                &&& is_constant(&filter, model.source(node.inputs@[1]))
                &&& match filter_bias {
                    Some(t) => b.outputs@[0]->0@.len() > 0 && is_constant(&t, b),
                    None => b.outputs@[0]->0@.len() == 0,
                }
            }
        },
        LayerKey::GemmAb | LayerKey::MatMul => exists|g: GemmNode<T>| #[trigger]
            is_gemm(&g, model, id, next, zero) && {
                &&& r.id == g.id
                &&& r.consumed == g.consumed
                &&& r.input == edge_of(g.input, first)
                &&& r.layer == (ParsedLayer::Dense { weight: g.weight, bias: g.bias })
            },
        LayerKey::Relu => {
            &&& r.id == id
            &&& !r.consumed
            &&& r.layer is Relu
            &&& r.input == edge_of(
                if model.source(node.inputs@[1]).op is Const {
                    node.inputs@[0]
                } else {
                    node.inputs@[1]
                },
                first,
            )
        },
        LayerKey::Flatten | LayerKey::Reshape => {
            &&& r.id == id
            &&& !r.consumed
            &&& r.layer is Flatten
            &&& r.input == edge_of(node.inputs@[0], first)
        },
        LayerKey::Pool => {
            &&& r.id == id
            &&& !r.consumed
            &&& r.layer == ParsedLayer::<T>::Pooling(default_maxpool())
            &&& r.input == edge_of(node.inputs@[0], first)
        },
        LayerKey::ReduceSum => {
            &&& Some(r.id) == next
            &&& r.consumed
            &&& r.layer == ParsedLayer::<T>::Pooling(
                Pooling::GlobalAvgPool2D(GlobalAvgPool2D { spatial_size: plane_size(model, id) as usize }),
            )
            &&& r.input == edge_of(node.inputs@[0], first)
        },
    }
}

/// The sizes of a node can be held.
pub open spec fn node_fits<T>(model: &OnnxModel<T>, node: OnnxNode<T>) -> bool {
    gemm_fits(model, node) && reshape_fits(node) && average_fits(model, node)
}

fn edge(l: Link, first: bool) -> (r: Edge)
    ensures
        r == edge_of(l, first),
{
    if first {
        Edge { node: None, index: l.slot }
    } else {
        Edge { node: Some(l.node), index: l.slot }
    }
}

/// Reads a node as the given layer, given the node that follows. `first` says that it is the first one of the model.
pub fn load_layer<T: Copy>(
    model: &OnnxModel<T>,
    key: LayerKey,
    node_id: usize,
    next: Option<usize>,
    first: bool,
    zero: T,
) -> (r: Result<ParsedNode<T>, OnnxError>)
    requires
        model.wf(),
        node_id < model.nodes@.len(),
        next matches Some(n) ==> n < model.nodes@.len(),
        node_fits(model, model.nodes@[node_id as int]),
    ensures
        match r {
            Ok(p) => {
                &&& layer_error(model, key, node_id, next) is None
                &&& is_layer(&p, model, key, node_id, next, first, zero)
            },
            Err(e) => layer_error(model, key, node_id, next) == Some(e),
        },
{
    let node = &model.nodes[node_id];
    match key {
        LayerKey::Conv => match load_conv(model, node_id) {
            Ok(c) => Ok(
                ParsedNode {
                    id: node_id,
                    input: edge(c.input, first),
                    layer: ParsedLayer::Conv { filter: c.filter, filter_bias: c.bias },
                    consumed: false,
                },
            ),
            Err(e) => Err(e),
        },
        LayerKey::GemmAb | LayerKey::MatMul => match load_gemm(model, node_id, next, zero) {
            Ok(g) => {
                let ghost g0 = g;
                let r = ParsedNode {
                    id: g.id,
                    input: edge(g.input, first),
                    layer: ParsedLayer::Dense { weight: g.weight, bias: g.bias },
                    consumed: g.consumed,
                };
                assert(is_gemm(&g0, model, node_id, next, zero));
                Ok(r)
            },
            Err(e) => Err(e),
        },
        LayerKey::Relu => match load_relu(model, node_id) {
            Ok(l) => Ok(
                ParsedNode { id: node_id, input: edge(l, first), layer: ParsedLayer::Relu, consumed: false },
            ),
            Err(e) => Err(e),
        },
        LayerKey::Flatten => match load_flatten(node) {
            Ok(l) => Ok(
                ParsedNode { id: node_id, input: edge(l, first), layer: ParsedLayer::Flatten, consumed: false },
            ),
            Err(e) => Err(e),
        },
        LayerKey::Reshape => match load_reshape(node) {
            Ok(l) => Ok(
                ParsedNode { id: node_id, input: edge(l, first), layer: ParsedLayer::Flatten, consumed: false },
            ),
            Err(e) => Err(e),
        },
        LayerKey::Pool => match load_maxpool(node) {
            Ok((l, p)) => Ok(
                ParsedNode { id: node_id, input: edge(l, first), layer: ParsedLayer::Pooling(p), consumed: false },
            ),
            Err(e) => Err(e),
        },
        LayerKey::ReduceSum => match load_globalavgpool(model, node_id, next) {
            Ok((l, p, id)) => Ok(
                ParsedNode { id, input: edge(l, first), layer: ParsedLayer::Pooling(p), consumed: true },
            ),
            Err(e) => Err(e),
        },
    }
}

/// The node at place `k` of the order, and the one that follows.
pub open spec fn next_in(order: Seq<usize>, k: int) -> Option<usize> {
    if k + 1 < order.len() {
        Some(order[k + 1])
    } else {
        None
    }
}

/// The node at place `k` is read as `r`.
pub open spec fn is_read<T>(
    r: &ParsedNode<T>,
    model: &OnnxModel<T>,
    order: Seq<usize>,
    k: int,
    first: bool,
    zero: T,
) -> bool {
    let (id, next) = (order[k], next_in(order, k));
    exists|key: LayerKey| #[trigger]
        is_choice(model.nodes@[id as int], key) && layer_error(model, key, id, next) is None && is_layer(
            r,
            model,
            key,
            id,
            next,
            first,
            zero,
        )
}

/// The node at place `k` cannot be read.
pub open spec fn is_unreadable<T>(e: OnnxError, model: &OnnxModel<T>, order: Seq<usize>, k: int) -> bool {
    let (id, next) = (order[k], next_in(order, k));
    let node = model.nodes@[id as int];
    ||| e == OnnxError::UnknownNode && forall|key: LayerKey| !#[trigger] matches_key(node, key)
    ||| exists|key: LayerKey| #[trigger] is_choice(node, key) && layer_error(model, key, id, next) == Some(e)
}

/// Reads the node at place `k` of the order.
pub fn parse_node<T: Copy>(model: &OnnxModel<T>, order: &[usize], k: usize, first: bool, zero: T) -> (r: Result<
    ParsedNode<T>,
    OnnxError,
>)
    requires
        model.wf(),
        k < order@.len(),
        forall|i: int| 0 <= i < order@.len() ==> #[trigger] order@[i] < model.nodes@.len(),
        node_fits(model, model.nodes@[order@[k as int] as int]),
    ensures
        match r {
            Ok(p) => {
                &&& is_read(&p, model, order@, k as int, first, zero)
                &&& p.consumed ==> k + 1 < order@.len()
            },
            Err(e) => is_unreadable(e, model, order@, k as int),
        },
{
    let id = order[k];
    let next: Option<usize> = if k < order.len() - 1 {
        Some(order[k + 1])
    } else {
        None
    };
    match choose_layer(&model.nodes[id]) {
        None => Err(OnnxError::UnknownNode),
        Some(key) => {
            let r = load_layer(model, key, id, next, first, zero);
            assert(is_choice(model.nodes@[id as int], key));
            r
        },
    }
}

/// `nodes` are read one after the other, the `i`-th at place `ks[i]`.
pub open spec fn is_chain<T>(
    nodes: Seq<ParsedNode<T>>,
    ks: Seq<int>,
    model: &OnnxModel<T>,
    order: Seq<usize>,
    zero: T,
) -> bool {
    &&& ks.len() == nodes.len() + 1
    &&& ks[0] == 0
    &&& forall|i: int|
        0 <= i < nodes.len() ==> {
            &&& 0 <= ks[i] < order.len()
            &&& is_read(&#[trigger] nodes[i], model, order, ks[i], i == 0, zero)
            &&& ks[i + 1] == ks[i] + (if nodes[i].consumed {
                2int
            } else {
                1
            })
        }
}

/// `nodes` are all the nodes in the order.
pub open spec fn reads_all<T>(nodes: Seq<ParsedNode<T>>, model: &OnnxModel<T>, order: Seq<usize>, zero: T) -> bool {
    exists|ks: Seq<int>| #[trigger] is_chain(nodes, ks, model, order, zero) && ks.last() == order.len()
}

/// The model is sound, the order is one of its nodes, and the sizes that reading them computes can be held.
pub open spec fn is_readable<T>(model: &OnnxModel<T>, order: Seq<usize>) -> bool {
    &&& model.wf()
    &&& forall|i: int| 0 <= i < order.len() ==> #[trigger] order[i] < model.nodes@.len()
    &&& forall|i: int| 0 <= i < order.len() ==> node_fits(model, model.nodes@[#[trigger] order[i] as int])
}

/// Reads all nodes in the given order.
pub fn parse_nodes<T: Copy>(model: &OnnxModel<T>, order: &[usize], zero: T) -> (r: Result<
    Vec<ParsedNode<T>>,
    OnnxError,
>)
    requires
        is_readable(model, order@),
    ensures
        match r {
            Ok(nodes) => reads_all(nodes@, model, order@, zero),
            Err(e) => exists|nodes: Seq<ParsedNode<T>>, ks: Seq<int>| #[trigger]
                is_chain(nodes, ks, model, order@, zero) && ks.last() < order@.len() && is_unreadable(
                    e,
                    model,
                    order@,
                    ks.last(),
                ),
        },
{
    let mut nodes: Vec<ParsedNode<T>> = Vec::new();
    let mut k: usize = 0;
    let ghost mut ks: Seq<int> = seq![0int];
    while k < order.len()
        invariant
            k <= order@.len(),
            model.wf(),
            forall|i: int| 0 <= i < order@.len() ==> #[trigger] order@[i] < model.nodes@.len(),
            forall|i: int| 0 <= i < order@.len() ==> node_fits(model, model.nodes@[#[trigger] order@[i] as int]),
            is_chain(nodes@, ks, model, order@, zero),
            ks.last() == k,
            k == 0 <==> nodes@.len() == 0,
        decreases order@.len() - k,
    {
        let first = nodes.len() == 0;
        match parse_node(model, order, k, first, zero) {
            Err(e) => {
                return Err(e);
            },
            Ok(p) => {
                let ghost (nodes0, ks0) = (nodes@, ks);
                let step: usize = if p.consumed {
                    2
                } else {
                    1
                };
                nodes.push(p);
                k = k + step;
                proof {
                    ks = ks0.push(k as int);
                    let i0 = nodes0.len() as int;
                    assert forall|i: int| 0 <= i < nodes@.len() implies {
                        &&& 0 <= ks[i] < order@.len()
                        &&& is_read(&#[trigger] nodes@[i], model, order@, ks[i], i == 0, zero)
                        &&& ks[i + 1] == ks[i] + (if nodes@[i].consumed {
                            2int
                        } else {
                            1
                        })
                    } by {
                        if i < i0 {
                            assert(nodes@[i] == nodes0[i]);
                            assert(ks[i] == ks0[i] && ks[i + 1] == ks0[i + 1]);
                        }
                    }
                }
            },
        }
    }
    proof {
        assert(is_chain(nodes@, ks, model, order@, zero) && ks.last() == order@.len());
    }
    Ok(nodes)
}

/// Is one of the outputs an output of the last node that was read?
pub fn outputs_last(outputs: &[Link], last_node_id: usize) -> (r: bool)
    ensures
        r == (exists|i: int| 0 <= i < outputs@.len() && (#[trigger] outputs@[i]).node == last_node_id),
{
    let mut i: usize = 0;
    while i < outputs.len()
        invariant
            i <= outputs@.len(),
            forall|j: int| 0 <= j < i ==> (#[trigger] outputs@[j]).node != last_node_id,
        decreases outputs@.len() - i,
    {
        if outputs[i].node == last_node_id {
            return true;
        }
        i = i + 1;
    }
    false
}

} // verus!
