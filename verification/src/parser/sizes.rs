//! Whether the sizes that reading a model computes can be held.
use crate::parser::dispatch::{is_readable, node_fits};
use crate::parser::gemm::gemm_fits;
use crate::parser::nodes::{average_fits, axes_in, axes_size, reshape_fits};
use crate::parser::onnx::{dims_to_shape, is_const, OnnxModel, OnnxNode, Op};
use crate::shape::{prod, Shape};
use vstd::prelude::*;

verus! {

/// Can the number of entries be held?
fn shape_fits(s: &Shape) -> (r: bool)
    ensures
        r == (prod(s@) <= usize::MAX),
{
    s.checked_product().is_some()
}

/// Can the sizes of a reshape be held?
fn check_reshape<T>(node: &OnnxNode<T>) -> (r: bool)
    ensures
        r == reshape_fits(*node),
{
    match &node.op {
        Op::Reshape { from, to } => match (dims_to_shape(from), dims_to_shape(to)) {
            (Ok(a), Ok(b)) => shape_fits(&a) && shape_fits(&b),
            _ => true,
        },
        _ => true,
    }
}

/// Can the products of the dimensions along the axes be held, as far as the axes are those of the shape?
fn axes_fit(s: &Shape, axes: &Vec<usize>) -> (r: bool)
    ensures
        r == forall|n: nat|
            n <= axes@.len() && axes_in(s@, axes@, n as int) ==> #[trigger] axes_size(s@, axes@, n) <= usize::MAX,
{
    let mut size: usize = 1;
    let mut i: usize = 0;
    while i < axes.len()
        invariant
            i <= axes@.len(),
            axes_in(s@, axes@, i as int),
            size == axes_size(s@, axes@, i as nat),
            forall|n: nat| n <= i ==> #[trigger] axes_size(s@, axes@, n) <= usize::MAX,
        decreases axes@.len() - i,
    {
        if axes[i] >= s.0.len() {
            proof {
                assert forall|n: nat| n <= axes@.len() && axes_in(s@, axes@, n as int) implies #[trigger]
                axes_size(s@, axes@, n) <= usize::MAX by {
                    if n > i {
                        assert(axes@[i as int] >= s@.len());
                    }
                }
            }
            return true;
        }
        match size.checked_mul(s.0[axes[i]]) {
            None => {
                proof {
                    assert(axes_size(s@, axes@, (i + 1) as nat) > usize::MAX);
                    assert(axes_in(s@, axes@, i + 1));
                }
                return false;
            },
            Some(x) => {
                size = x;
            },
        }
        i = i + 1;
    }
    true
}

/// Can the sizes of the planes of an average be held?
fn check_average<T>(model: &OnnxModel<T>, node: &OnnxNode<T>) -> (r: bool)
    requires
        node.inputs@.len() == 1 ==> node.inputs@[0].node < model.nodes@.len(),
    ensures
        r == average_fits(model, *node),
{
    match &node.op {
        Op::Reduce { sum: _, axes } => {
            if node.inputs.len() != 1 {
                return true;
            }
            let l = node.inputs[0];
            let source = &model.nodes[l.node];
            if l.slot >= source.outputs.len() {
                return false;
            }
            match &source.outputs[l.slot] {
                None => true,
                Some(s) => axes_fit(s, axes),
            }
        },
        _ => true,
    }
}

/// Can the sizes of the weights and of the input of a product be held?
fn check_gemm<T>(model: &OnnxModel<T>, node: &OnnxNode<T>) -> (r: bool)
    requires
        forall|j: int| 0 <= j < node.inputs@.len() ==> (#[trigger] node.inputs@[j]).node < model.nodes@.len(),
    ensures
        r == gemm_fits(model, *node),
{
    match &node.op {
        Op::EinSum => {},
        _ => {
            return true;
        },
    }
    if node.inputs.len() != 2 {
        return true;
    }
    let (a, b) = (node.inputs[0], node.inputs[1]);
    proof {
        assert(node.inputs@[0].node < model.nodes@.len() && node.inputs@[1].node < model.nodes@.len());
    }
    let w = if is_const(&model.nodes[b.node]) {
        b
    } else if is_const(&model.nodes[a.node]) {
        a
    } else {
        return true;
    };
    let c = &model.nodes[w.node];
    match &c.op {
        Op::Const(Some(_)) => {},
        _ => {
            return true;
        },
    }
    if c.outputs.len() != 1 {
        return true;
    }
    let l = if a.node != w.node {
        a
    } else if b.node != w.node {
        b
    } else {
        return true;
    };
    let source = &model.nodes[l.node];
    if l.slot >= source.outputs.len() {
        return true;
    }
    match (&c.outputs[0], &source.outputs[l.slot]) {
        (Some(s), Some(t)) => {
            let n: usize = s.rank();
            if n == 0 {
                return true;
            }
            let cols = s.slice(1, n);
            proof {
                assert(cols@ =~= s@.skip(1));
            }
            (n == 1 || shape_fits(&cols)) && shape_fits(t)
        },
        _ => true,
    }
}

impl<T> OnnxModel<T> {
    /// Are the inputs of the node outputs of nodes, and do the entries of a constant fill its shape?
    fn check_node(&self, node: &OnnxNode<T>) -> (r: bool)
        ensures
            r == self.node_wf(*node),
    {
        let mut j: usize = 0;
        while j < node.inputs.len()
            invariant
                j <= node.inputs@.len(),
                forall|k: int| 0 <= k < j ==> (#[trigger] node.inputs@[k]).node < self.nodes@.len(),
            decreases node.inputs@.len() - j,
        {
            if node.inputs[j].node >= self.nodes.len() {
                assert(node.inputs@[j as int].node >= self.nodes@.len());
                return false;
            }
            j = j + 1;
        }
        match &node.op {
            Op::Const(Some(data)) => if node.outputs.len() == 1 {
                match &node.outputs[0] {
                    Some(s) => match s.checked_product() {
                        Some(n) => data.len() == n,
                        None => {
                            proof {
                                assert(data@.len() == data.len());
                            }
                            false
                        },
                    },
                    None => true,
                }
            } else {
                true
            },
            _ => true,
        }
    }

    /// Is every input of a node an output of a node, and do the entries of every constant fill its shape?
    fn check(&self) -> (r: bool)
        ensures
            r == self.wf(),
    {
        let mut i: usize = 0;
        while i < self.nodes.len()
            invariant
                i <= self.nodes@.len(),
                forall|k: int| 0 <= k < i ==> self.node_wf(#[trigger] self.nodes@[k]),
            decreases self.nodes@.len() - i,
        {
            if !self.check_node(&self.nodes[i]) {
                assert(!self.node_wf(self.nodes@[i as int]));
                return false;
            }
            i = i + 1;
        }
        true
    }

    /// Can the nodes be read in the given order: is the model sound, and can all sizes be held?
    pub fn can_be_read(&self, order: &[usize]) -> (r: bool)
        ensures
            r == is_readable(self, order@),
    {
        if !self.check() {
            return false;
        }
        let mut i: usize = 0;
        while i < order.len()
            invariant
                i <= order@.len(),
                self.wf(),
                forall|k: int| 0 <= k < i ==> #[trigger] order@[k] < self.nodes@.len(),
                forall|k: int| 0 <= k < i ==> node_fits(self, self.nodes@[#[trigger] order@[k] as int]),
            decreases order@.len() - i,
        {
            let id: usize = order[i];
            if id >= self.nodes.len() {
                assert(order@[i as int] >= self.nodes@.len());
                return false;
            }
            let node = &self.nodes[id];
            proof {
                assert(self.node_wf(self.nodes@[id as int]));
            }
            if !(check_gemm(self, node) && check_reshape(node) && check_average(self, node)) {
                assert(!node_fits(self, self.nodes@[order@[i as int] as int]));
                return false;
            }
            i = i + 1;
        }
        true
    }
}

} // verus!
