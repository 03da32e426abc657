//! Padding of the nodes of a model, and the shapes that they receive.
use crate::layers::Layer;
use crate::number::Element;
use crate::padding::layer::{is_layer_padding, layer_ok, LayerShapes};
use crate::padding::{PadError, PaddingMode, ShapeData, ShapeDims, ShapeInfo};
use crate::shape::Shape;
use std::collections::HashMap;
use vstd::prelude::*;

verus! {

broadcast use vstd::std_specs::hash::group_hash_axioms;

/// Where an input of a node comes from: an output of another node, or an input of the model.
#[derive(Debug, Clone, Copy, PartialEq, Eq, Structural)]
pub struct Edge {
    pub node: Option<usize>,
    pub index: usize,
}

/// The shapes that an edge chooses from.
pub open spec fn sources(e: Edge, infos: Map<usize, ShapeInfo>, inputs: Seq<ShapeDims>) -> Option<Seq<ShapeDims>> {
    match e.node {
        Some(n) => if infos.contains_key(n) {
            Some(infos[n]@)
        } else {
            None
        },
        None => Some(inputs),
    }
}

/// What is wrong with an edge.
pub open spec fn edge_error(e: Edge, infos: Map<usize, ShapeInfo>, inputs: Seq<ShapeDims>) -> Option<PadError> {
    match sources(e, infos, inputs) {
        None => Some(PadError::UnknownNode),
        Some(s) => if e.index < s.len() {
            None
        } else {
            Some(PadError::UnknownOutput)
        },
    }
}

/// `si` are the shapes that the edges choose.
pub open spec fn are_chosen(
    si: Seq<ShapeDims>,
    edges: Seq<Edge>,
    infos: Map<usize, ShapeInfo>,
    inputs: Seq<ShapeDims>,
) -> bool {
    &&& si.len() == edges.len()
    &&& forall|i: int|
        0 <= i < edges.len() ==> {
            &&& edge_error(#[trigger] edges[i], infos, inputs) is None
            &&& si[i] == sources(edges[i], infos, inputs)->0[edges[i].index as int]
        }
}

/// `e` is what is wrong with the first edge that something is wrong with.
pub open spec fn is_edge_error(
    e: PadError,
    edges: Seq<Edge>,
    infos: Map<usize, ShapeInfo>,
    inputs: Seq<ShapeDims>,
) -> bool {
    exists|k: int|
        {
            &&& 0 <= k < edges.len()
            &&& edge_error(#[trigger] edges[k], infos, inputs) == Some(e)
            &&& forall|i: int| 0 <= i < k ==> edge_error(#[trigger] edges[i], infos, inputs) is None
        }
}

/// The shapes of the inputs of a node, from those of the outputs of the nodes before it and of the inputs of the
/// model.
pub fn node_input_shapes(
    edges: &Vec<Edge>,
    shape_infos: &HashMap<usize, ShapeInfo>,
    input_si: &ShapeInfo,
) -> (r: Result<ShapeInfo, PadError>)
    ensures
        match r {
            Ok(si) => are_chosen(si@, edges@, shape_infos@, input_si@),
            Err(e) => is_edge_error(e, edges@, shape_infos@, input_si@),
        },
{
    let mut shapes: Vec<ShapeData> = Vec::with_capacity(edges.len());
    let mut i: usize = 0;
    while i < edges.len()
        invariant
            i <= edges@.len(),
            shapes@.len() == i,
            forall|j: int|
                0 <= j < i ==> {
                    &&& edge_error(#[trigger] edges@[j], shape_infos@, input_si@) is None
                    &&& shapes@[j]@ == sources(edges@[j], shape_infos@, input_si@)->0[edges@[j].index as int]
                },
        decreases edges@.len() - i,
    {
        let edge = edges[i];
        let ghost s = sources(edge, shape_infos@, input_si@);
        match edge.node {
            Some(n) => {
                match shape_infos.get(&n) {
                    None => {
                        assert(edge_error(edges@[i as int], shape_infos@, input_si@) == Some(PadError::UnknownNode));
                        return Err(PadError::UnknownNode);
                    },
                    Some(si) => {
                        if edge.index >= si.shapes.len() {
                            assert(edge_error(edges@[i as int], shape_infos@, input_si@) == Some(
                                PadError::UnknownOutput,
                            ));
                            return Err(PadError::UnknownOutput);
                        }
                        shapes.push(si.shapes[edge.index].clone());
                    },
                }
            },
            None => {
                if edge.index >= input_si.shapes.len() {
                    assert(edge_error(edges@[i as int], shape_infos@, input_si@) == Some(PadError::UnknownOutput));
                    return Err(PadError::UnknownOutput);
                }
                shapes.push(input_si.shapes[edge.index].clone());
            },
        }
        i = i + 1;
    }
    Ok(ShapeInfo { shapes })
}

/// The shapes of the inputs of a model, from those before and after padding, as far as there are both.
pub open spec fn model_inputs(unpadded: Seq<Shape>, padded: Seq<Shape>) -> Seq<ShapeDims> {
    Seq::new(
        if unpadded.len() <= padded.len() {
            unpadded.len()
        } else {
            padded.len()
        },
        |i: int| ShapeDims { padded: padded[i]@, garbage: None, og: unpadded[i]@ },
    )
}

/// The shapes of the inputs of a model, from those before and after padding, as far as there are both.
pub fn model_input_shapes(unpadded: &Vec<Shape>, padded: &Vec<Shape>) -> (r: ShapeInfo)
    ensures
        r@ == model_inputs(unpadded@, padded@),
{
    let n: usize = if unpadded.len() <= padded.len() {
        unpadded.len()
    } else {
        padded.len()
    };
    let mut shapes: Vec<ShapeData> = Vec::with_capacity(n);
    let mut i: usize = 0;
    while i < n
        invariant
            i <= n,
            n <= unpadded@.len(),
            n <= padded@.len(),
            shapes@.len() == i,
            forall|j: int|
                0 <= j < i ==> (#[trigger] shapes@[j])@ == (ShapeDims {
                    padded: padded@[j]@,
                    garbage: None,
                    og: unpadded@[j]@,
                }),
        decreases n - i,
    {
        shapes.push(
            ShapeData {
                input_shape_padded: padded[i].clone(),
                ignore_garbage_pad: None,
                input_shape_og: unpadded[i].clone(),
            },
        );
        i = i + 1;
    }
    ShapeInfo { shapes }
}

/// A node of a model: where its inputs come from, where each of its outputs goes, and its layer.
#[derive(Debug)]
pub struct Node<T> {
    pub inputs: Vec<Edge>,
    pub outputs: Vec<Vec<Edge>>,
    pub operation: Layer<T>,
}

impl<T> Node<T> {
    pub fn is_provable(&self) -> (r: bool)
        ensures
            r == self.operation.provable(),
    {
        self.operation.is_provable()
    }
}

impl Node<Element> {
    /// Pads the layer of the node. The inputs and outputs are those of the node.
    pub fn pad_node(self, si: &mut ShapeInfo, given: LayerShapes) -> (r: Result<Self, PadError>)
        requires
            layer_ok(&self.operation, old(si)@, given),
        ensures
            match r {
                Ok(q) => {
                    &&& q.inputs == self.inputs
                    &&& q.outputs == self.outputs
                    &&& q.operation.same_kind(self.operation)
                    &&& is_layer_padding(Ok(q.operation), final(si)@, &self.operation, old(si)@, given)
                },
                Err(e) => is_layer_padding(Err(e), final(si)@, &self.operation, old(si)@, given),
            },
    {
        match self.operation.pad_node(si, given) {
            Ok(operation) => Ok(Node { inputs: self.inputs, outputs: self.outputs, operation }),
            Err(e) => Err(e),
        }
    }
}

/// A model: the shapes of its inputs before padding, and its nodes with their ids, each after those that it reads from.
#[derive(Debug)]
pub struct Model<T> {
    pub unpadded_input_shapes: Vec<Shape>,
    pub padding_mode: PaddingMode,
    pub nodes: Vec<(usize, Node<T>)>,
}

/// How the nodes of a model are padded: node `i` receives the shapes `ins[i]`, is told `given[i]`, and hands on the
/// shapes `outs[i]`.
pub struct Run {
    pub ins: Seq<ShapeInfo>,
    pub given: Seq<LayerShapes>,
    pub outs: Seq<ShapeInfo>,
}

/// The shapes of the outputs of the first `k` nodes, where node `i` has the outputs `outs[i]`.
pub open spec fn known_shapes(
    nodes: Seq<(usize, Node<Element>)>,
    outs: Seq<ShapeInfo>,
    k: int,
) -> Map<usize, ShapeInfo>
    decreases k,
{
    if k <= 0 {
        Map::empty()
    } else {
        known_shapes(nodes, outs, k - 1).insert(nodes[k - 1].0, outs[k - 1])
    }
}

/// `q` is the node padded: it keeps its inputs, its outputs and the kind of its layer.
pub open spec fn is_padded_node(
    q: &Node<Element>,
    n: &Node<Element>,
    si: Seq<ShapeDims>,
    given: LayerShapes,
    out: Seq<ShapeDims>,
) -> bool {
    &&& q.inputs == n.inputs
    &&& q.outputs == n.outputs
    &&& q.operation.same_kind(n.operation)
    &&& is_layer_padding(Ok(q.operation), out, &n.operation, si, given)
}

/// The nodes in `r` are the first nodes of the model, padded in the given run: each receives the shapes of the outputs
/// that its edges choose, and `shapes` tells it what it needs.
pub open spec fn are_padded<F: Fn(&Layer<Element>, &ShapeInfo) -> LayerShapes>(
    r: Seq<(usize, Node<Element>)>,
    nodes: Seq<(usize, Node<Element>)>,
    run: Run,
    inputs: Seq<ShapeDims>,
    shapes: F,
) -> bool {
    &&& r.len() <= nodes.len()
    &&& run.ins.len() == r.len()
    &&& run.given.len() == r.len()
    &&& run.outs.len() == r.len()
    &&& forall|i: int|
        0 <= i < r.len() ==> {
            &&& (#[trigger] r[i]).0 == nodes[i].0
            &&& are_chosen(run.ins[i]@, nodes[i].1.inputs@, known_shapes(nodes, run.outs, i), inputs)
            &&& call_ensures(shapes, (&nodes[i].1.operation, &run.ins[i]), run.given[i])
            &&& is_padded_node(&r[i].1, &nodes[i].1, run.ins[i]@, run.given[i], run.outs[i]@)
        }
}

/// The node is told what it needs, and can be padded for the shapes that its edges choose.
pub open spec fn paddable_node<F: Fn(&Layer<Element>, &ShapeInfo) -> LayerShapes>(
    node: &Node<Element>,
    infos: Map<usize, ShapeInfo>,
    inputs: Seq<ShapeDims>,
    shapes: F,
) -> bool {
    forall|si: ShapeInfo| #[trigger]
        are_chosen(si@, node.inputs@, infos, inputs) ==> {
            &&& call_requires(shapes, (&node.operation, &si))
            &&& forall|given: LayerShapes| #[trigger]
                call_ensures(shapes, (&node.operation, &si), given) ==> layer_ok(&node.operation, si@, given)
        }
}

/// Every node can be padded, whatever the nodes before it hand on.
pub open spec fn paddable_model<F: Fn(&Layer<Element>, &ShapeInfo) -> LayerShapes>(
    nodes: Seq<(usize, Node<Element>)>,
    inputs: Seq<ShapeDims>,
    shapes: F,
) -> bool {
    forall|r: Seq<(usize, Node<Element>)>, run: Run|
        r.len() < nodes.len() && #[trigger] are_padded(r, nodes, run, inputs, shapes) ==> paddable_node(
            &nodes[r.len() as int].1,
            known_shapes(nodes, run.outs, r.len() as int),
            inputs,
            shapes,
        )
}

/// Node `k` cannot be padded: something is wrong with its edges, or its layer cannot be padded for the shapes that they
/// choose.
pub open spec fn is_pad_error<F: Fn(&Layer<Element>, &ShapeInfo) -> LayerShapes>(
    e: PadError,
    nodes: Seq<(usize, Node<Element>)>,
    outs: Seq<ShapeInfo>,
    inputs: Seq<ShapeDims>,
    shapes: F,
    k: int,
) -> bool {
    let edges = nodes[k].1.inputs@;
    let operation = nodes[k].1.operation;
    let infos = known_shapes(nodes, outs, k);
    ||| is_edge_error(e, edges, infos, inputs)
    ||| exists|si: ShapeInfo, given: LayerShapes, after: Seq<ShapeDims>|
        {
            &&& are_chosen(si@, edges, infos, inputs)
            &&& #[trigger] call_ensures(shapes, (&operation, &si), given)
            &&& #[trigger] is_layer_padding(Err(e), after, &operation, si@, given)
        }
}

/// All nodes are padded.
pub open spec fn is_padded_model<F: Fn(&Layer<Element>, &ShapeInfo) -> LayerShapes>(
    r: Seq<(usize, Node<Element>)>,
    nodes: Seq<(usize, Node<Element>)>,
    inputs: Seq<ShapeDims>,
    shapes: F,
) -> bool {
    r.len() == nodes.len() && exists|run: Run| #[trigger] are_padded(r, nodes, run, inputs, shapes)
}

/// The nodes before one that cannot be padded are padded.
pub open spec fn is_unpaddable<F: Fn(&Layer<Element>, &ShapeInfo) -> LayerShapes>(
    e: PadError,
    nodes: Seq<(usize, Node<Element>)>,
    inputs: Seq<ShapeDims>,
    shapes: F,
) -> bool {
    exists|r: Seq<(usize, Node<Element>)>, run: Run| #[trigger]
        are_padded(r, nodes, run, inputs, shapes) && r.len() < nodes.len() && is_pad_error(
            e,
            nodes,
            run.outs,
            inputs,
            shapes,
            r.len() as int,
        )
}

/// The padded model has the nodes of the model: each keeps its id, its inputs, its outputs and the kind of its layer.
pub proof fn law_padding_keeps_the_nodes<F: Fn(&Layer<Element>, &ShapeInfo) -> LayerShapes>(
    r: Seq<(usize, Node<Element>)>,
    nodes: Seq<(usize, Node<Element>)>,
    inputs: Seq<ShapeDims>,
    shapes: F,
    i: int,
)
    requires
        is_padded_model(r, nodes, inputs, shapes),
        0 <= i < nodes.len(),
    ensures
        r.len() == nodes.len(),
        r[i].0 == nodes[i].0,
        r[i].1.inputs == nodes[i].1.inputs,
        r[i].1.outputs == nodes[i].1.outputs,
        r[i].1.operation.same_kind(nodes[i].1.operation),
{
    let run = choose|run: Run| #[trigger] are_padded(r, nodes, run, inputs, shapes);
    assert(r[i].0 == nodes[i].0);
}

/// What is known of the first nodes does not depend on what follows.
proof fn lemma_known_shapes(nodes: Seq<(usize, Node<Element>)>, a: Seq<ShapeInfo>, b: Seq<ShapeInfo>, k: int)
    requires
        forall|i: int| 0 <= i < k ==> #[trigger] a[i] == b[i],
    ensures
        known_shapes(nodes, a, k) == known_shapes(nodes, b, k),
    decreases k,
{
    if k > 0 {
        lemma_known_shapes(nodes, a, b, k - 1);
        assert(a[k - 1] == b[k - 1]);
    }
}

/// Pads the nodes of a model one after the other, each for the shapes that the nodes before it hand on. `padded_inputs`
/// are the shapes of the inputs of the model after padding, and `shapes` tells a layer what it needs to know of its
/// shapes.
pub fn pad_model<F: Fn(&Layer<Element>, &ShapeInfo) -> LayerShapes>(
    model: Model<Element>,
    padded_inputs: Vec<Shape>,
    shapes: F,
) -> (r: Result<Model<Element>, PadError>)
    requires
        paddable_model(model.nodes@, model_inputs(model.unpadded_input_shapes@, padded_inputs@), shapes),
    ensures
        ({
            let inputs = model_inputs(model.unpadded_input_shapes@, padded_inputs@);
            match r {
                Ok(m) => {
                    &&& m.unpadded_input_shapes == model.unpadded_input_shapes
                    &&& m.padding_mode == PaddingMode::Padding
                    &&& is_padded_model(m.nodes@, model.nodes@, inputs, shapes)
                },
                Err(e) => is_unpaddable(e, model.nodes@, inputs, shapes),
            }
        }),
{
    let ghost inputs = model_inputs(model.unpadded_input_shapes@, padded_inputs@);
    let ghost all = model.nodes@;
    let input_si = model_input_shapes(&model.unpadded_input_shapes, &padded_inputs);
    let mut shape_infos: HashMap<usize, ShapeInfo> = HashMap::new();
    let mut rest = model.nodes;
    let mut r: Vec<(usize, Node<Element>)> = Vec::with_capacity(rest.len());
    let ghost mut run = Run { ins: Seq::empty(), given: Seq::empty(), outs: Seq::empty() };
    proof {
        assert(shape_infos@ =~= known_shapes(all, run.outs, 0));
        assert(rest@ =~= all.skip(0));
    }
    while rest.len() > 0
        invariant
            all == model.nodes@,
            inputs == model_inputs(model.unpadded_input_shapes@, padded_inputs@),
            input_si@ == inputs,
            paddable_model(all, inputs, shapes),
            r@.len() <= all.len(),
            rest@ == all.skip(r@.len() as int),
            are_padded(r@, all, run, inputs, shapes),
            shape_infos@ == known_shapes(all, run.outs, r@.len() as int),
        decreases rest@.len(),
    {
        let ghost k = r@.len() as int;
        let (id, node) = rest.remove(0);
        proof {
            assert((id, node) == all[k]);
        }
        let mut si = match node_input_shapes(&node.inputs, &shape_infos, &input_si) {
            Ok(si) => si,
            Err(e) => {
                assert(is_pad_error(e, all, run.outs, inputs, shapes, k));
                return Err(e);
            },
        };
        let ghost (node0, si0) = (node, si);
        assert(are_chosen(si0@, all[k].1.inputs@, known_shapes(all, run.outs, k), inputs));
        let given = shapes(&node.operation, &si);
        let ghost given0 = given;
        match node.pad_node(&mut si, given) {
            Err(e) => {
                proof {
                    assert(call_ensures(shapes, (&all[k].1.operation, &si0), given0));
                    assert(is_layer_padding(Err(e), si@, &all[k].1.operation, si0@, given0));
                    assert(is_pad_error(e, all, run.outs, inputs, shapes, k));
                }
                return Err(e);
            },
            Ok(padded) => {
                let ghost (r0, run0) = (r@, run);
                let ghost si1 = si;
                r.push((id, padded));
                shape_infos.insert(id, si);
                proof {
                    run = Run {
                        ins: run0.ins.push(si0),
                        given: run0.given.push(given0),
                        outs: run0.outs.push(si1),
                    };
                    assert forall|i: int| 0 <= i < r@.len() implies {
                        &&& (#[trigger] r@[i]).0 == all[i].0
                        &&& are_chosen(run.ins[i]@, all[i].1.inputs@, known_shapes(all, run.outs, i), inputs)
                        &&& call_ensures(shapes, (&all[i].1.operation, &run.ins[i]), run.given[i])
                        &&& is_padded_node(&r@[i].1, &all[i].1, run.ins[i]@, run.given[i], run.outs[i]@)
                    } by {
                        lemma_known_shapes(all, run0.outs, run.outs, i);
                        if i < k {
                            assert(r@[i] == r0[i]);
                        }
                    }
                    lemma_known_shapes(all, run0.outs, run.outs, k);
                    assert(shape_infos@ =~= known_shapes(all, run.outs, k + 1));
                    assert(rest@ =~= all.skip(k + 1));
                }
            },
        }
    }
    proof {
        assert(are_padded(r@, all, run, inputs, shapes));
    }
    Ok(Model { unpadded_input_shapes: model.unpadded_input_shapes, padding_mode: PaddingMode::Padding, nodes: r })
}

} // verus!
