//! Convenience constructors over the graph-building interface. Each helper
//! only appends nodes through [`Graph::input`], [`Graph::param`] and
//! [`Graph::op`]; none is part of the core execution contract.

use vstd::prelude::*;

use crate::backend::Backend;
use crate::graph::Graph;
use crate::node::Node;
use crate::node::Operation;
use crate::node::OpType;
use crate::tensor::Tensor;
use crate::types::NodeId;

verus! {

/// The node appended by a builder helper is an operation with the given
/// configuration and inputs; everything else about the graph is as one
/// `op` call leaves it.
pub open spec fn appended_op<B: Backend, C: Operation<B>>(
    pre: Graph<B, C>,
    post: Graph<B, C>,
    r: NodeId,
    op: OpType<C>,
    input_ids: Seq<NodeId>,
) -> bool {
    &&& r == NodeId(pre.nodes_view().len() as usize)
    &&& post.nodes_view().len() == pre.nodes_view().len() + 1
    &&& (post.nodes_view().last() matches Node::Op { op: o, inputs } && o == op && inputs@
        == input_ids)
    &&& forall|i: int|
        0 <= i < pre.nodes_view().len() ==> post.nodes_view()[i] == pre.nodes_view()[i]
    &&& post.values_view() == pre.values_view().push(None)
    &&& post.gradients_view() == pre.gradients_view().push(None)
    &&& post.has_backend() == pre.has_backend()
    &&& post.memory_plan_view() == pre.memory_plan_view()
}

impl<B: Backend, C: Operation<B>> Graph<B, C> {
    /// Appends an input node; a synonym kept for builder-style call sites.
    pub fn val(&mut self, tensor: Tensor) -> (r: NodeId)
        ensures
            r == NodeId(old(self).nodes_view().len() as usize),
            final(self).nodes_view() == old(self).nodes_view().push(Node::Input(tensor)),
            final(self).values_view() == old(self).values_view().push(None),
            final(self).gradients_view() == old(self).gradients_view().push(None),
            final(self).has_backend() == old(self).has_backend(),
            final(self).memory_plan_view() == old(self).memory_plan_view(),
    {
        self.input(tensor)
    }

    /// Appends a matrix-multiplication node.
    pub fn matmul(&mut self, a: NodeId, b: NodeId) -> (r: NodeId)
        ensures
            appended_op(*old(self), *final(self), r, OpType::MatMul, seq![a, b]),
    {
        let mut inputs: Vec<NodeId> = Vec::new();
        inputs.push(a);
        inputs.push(b);
        proof {
            assert(inputs@ =~= seq![a, b]);
        }
        self.op(OpType::MatMul, inputs)
    }

    /// Appends an elementwise-addition node.
    pub fn add(&mut self, a: NodeId, b: NodeId) -> (r: NodeId)
        ensures
            appended_op(*old(self), *final(self), r, OpType::Add, seq![a, b]),
    {
        let mut inputs: Vec<NodeId> = Vec::new();
        inputs.push(a);
        inputs.push(b);
        proof {
            assert(inputs@ =~= seq![a, b]);
        }
        self.op(OpType::Add, inputs)
    }

    /// Appends a linear transformation `x * w + b`: one matrix multiply
    /// followed by one addition.
    pub fn linear(&mut self, x: NodeId, w: NodeId, b: NodeId) -> (r: NodeId)
        ensures
            final(self).nodes_view().len() == old(self).nodes_view().len() + 2,
            r == NodeId((old(self).nodes_view().len() + 1) as usize),
            final(self).has_backend() == old(self).has_backend(),
    {
        let xw = self.matmul(x, w);
        self.add(xw, b)
    }

    /// Appends a rectifier node.
    pub fn relu(&mut self, x: NodeId) -> (r: NodeId)
        ensures
            appended_op(*old(self), *final(self), r, OpType::ReLU, seq![x]),
    {
        let mut inputs: Vec<NodeId> = Vec::new();
        inputs.push(x);
        proof {
            assert(inputs@ =~= seq![x]);
        }
        self.op(OpType::ReLU, inputs)
    }

    /// Appends a sigmoid node.
    pub fn sigmoid(&mut self, input: NodeId) -> (r: NodeId)
        ensures
            appended_op(*old(self), *final(self), r, OpType::Sigmoid, seq![input]),
    {
        let mut inputs: Vec<NodeId> = Vec::new();
        inputs.push(input);
        proof {
            assert(inputs@ =~= seq![input]);
        }
        self.op(OpType::Sigmoid, inputs)
    }

    /// Appends a hyperbolic-tangent node.
    pub fn tanh(&mut self, x: NodeId) -> (r: NodeId)
        ensures
            appended_op(*old(self), *final(self), r, OpType::Tanh, seq![x]),
    {
        let mut inputs: Vec<NodeId> = Vec::new();
        inputs.push(x);
        proof {
            assert(inputs@ =~= seq![x]);
        }
        self.op(OpType::Tanh, inputs)
    }

    /// Appends a 2-D convolution node.
    pub fn conv2d(&mut self, input: NodeId, weight: NodeId, stride: usize, padding: usize) -> (r:
        NodeId)
        ensures
            appended_op(
                *old(self),
                *final(self),
                r,
                OpType::Conv2D { stride, padding },
                seq![input, weight],
            ),
    {
        let mut inputs: Vec<NodeId> = Vec::new();
        inputs.push(input);
        inputs.push(weight);
        proof {
            assert(inputs@ =~= seq![input, weight]);
        }
        self.op(OpType::Conv2D { stride, padding }, inputs)
    }

    /// Appends a 2-D max-pooling node.
    pub fn max_pool2d(&mut self, input: NodeId, kernel_size: usize, stride: usize) -> (r: NodeId)
        ensures
            appended_op(
                *old(self),
                *final(self),
                r,
                OpType::MaxPool2D { kernel_size, stride },
                seq![input],
            ),
    {
        let mut inputs: Vec<NodeId> = Vec::new();
        inputs.push(input);
        proof {
            assert(inputs@ =~= seq![input]);
        }
        self.op(OpType::MaxPool2D { kernel_size, stride }, inputs)
    }

    /// Appends a reshape node.
    pub fn reshape(&mut self, input: NodeId, target_shape: Vec<usize>) -> (r: NodeId)
        ensures
            final(self).nodes_view().len() == old(self).nodes_view().len() + 1,
            r == NodeId(old(self).nodes_view().len() as usize),
            final(self).has_backend() == old(self).has_backend(),
            final(self).nodes_view().last() matches Node::Op { op, inputs } && (
            op matches OpType::Reshape { .. }) && inputs@ == seq![input],
    {
        let mut inputs: Vec<NodeId> = Vec::new();
        inputs.push(input);
        proof {
            assert(inputs@ =~= seq![input]);
        }
        self.op(OpType::Reshape { target_shape }, inputs)
    }
}

} // verus!
