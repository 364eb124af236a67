//! Graph nodes and the operation contract.
//!
//! Built-in operations form a closed, statically dispatched set
//! ([`OpType`]); one variant carries a user-supplied operation implementing
//! the open [`Operation`] interface, so new kernels can be added without
//! engine changes.

use vstd::prelude::*;

use crate::backend::matmul_out_shape;
use crate::backend::Backend;
use crate::errors::GPResult;
use crate::tensor::Tensor;
use crate::tensor::TensorView;
use crate::types::dim_product;
use crate::types::NodeId;

verus! {

/// The views of a list of tensors.
pub open spec fn tensor_views(ts: Seq<Tensor>) -> Seq<TensorView> {
    ts.map_values(|t: Tensor| t@)
}

/// The views of a list of dimension lists.
pub open spec fn shape_views(ss: Seq<Vec<usize>>) -> Seq<Seq<usize>> {
    ss.map_values(|s: Vec<usize>| s@)
}

/// Anything that can label itself for diagnostics.
pub trait OpLabel {
    /// A label for diagnostics.
    fn name(&self) -> &str;
}

/// A user-defined operation: the same three capabilities the built-in set
/// has (forward, backward, shape inference), plus an optional in-place
/// forward and a byte encoding so that graphs holding custom operations can
/// be persisted.
///
/// Every capability must be a deterministic function of its tensor inputs;
/// an implementation states what it computes through its `*_spec` functions
/// and discharges the shape laws below. Implementations outside the verified
/// core are trusted to honor this contract.
pub trait Operation<B: Backend>: OpLabel + Sized {
    /// What `forward` returns, or `None` where it fails.
    open spec fn forward_spec(&self, inputs: Seq<TensorView>) -> Option<TensorView> {
        None
    }

    /// What `backward` returns: one gradient per input, in input order.
    open spec fn backward_spec(&self, inputs: Seq<TensorView>, grad_output: TensorView) -> Option<
        Seq<TensorView>,
    > {
        None
    }

    /// What `output_shape` returns: pure shape inference.
    open spec fn shape_spec(&self, input_shapes: Seq<Seq<usize>>) -> Option<Seq<usize>> {
        None
    }

    /// The byte encoding `encode` produces.
    open spec fn encoding(&self) -> Seq<u8> {
        Seq::empty()
    }

    /// What `decode` recovers from a byte string, or `None` where it fails.
    open spec fn decode_spec(bytes: Seq<u8>) -> Option<Self> {
        None
    }

    /// A successful forward result is well formed and has exactly the shape
    /// that shape inference predicts from the input shapes.
    proof fn forward_shape_law(&self)
        ensures
            forall|inputs: Seq<TensorView>|
                #[trigger] self.forward_spec(inputs) matches Some(t) ==> t.wf()
                    && self.shape_spec(inputs.map_values(|v: TensorView| v.shape)) == Some(
                    t.shape,
                ),
    ;

    /// A successful backward result carries exactly one gradient per input.
    proof fn backward_shape_law(&self)
        ensures
            forall|inputs: Seq<TensorView>, grad_output: TensorView|
                #[trigger] self.backward_spec(inputs, grad_output) matches Some(gs) ==> gs.len()
                    == inputs.len(),
    ;

    /// Decoding an operation's own encoding recovers it, the encoding is
    /// canonical — nothing else decodes to this operation — and it fits in
    /// memory.
    proof fn codec_law(&self)
        ensures
            Self::decode_spec(self.encoding()) == Some(*self),
            forall|bs: Seq<u8>| #[trigger] Self::decode_spec(bs) == Some(*self) ==> bs
                == self.encoding(),
            self.encoding().len() <= usize::MAX,
    ;

    /// Computes the output tensor from the input tensors.
    fn forward(&self, inputs: &Vec<Tensor>, backend: &B) -> (r: GPResult<Tensor>)
        ensures
            r matches Ok(t) ==> self.forward_spec(tensor_views(inputs@)) == Some(t@),
            r is Err ==> self.forward_spec(tensor_views(inputs@)) is None,
    ;

    /// Computes one gradient per input from the output gradient.
    fn backward(&self, inputs: &Vec<Tensor>, grad_output: &Tensor, backend: &B) -> (r: GPResult<
        Vec<Tensor>,
    >)
        ensures
            r matches Ok(g) ==> self.backward_spec(tensor_views(inputs@), grad_output@) == Some(
                tensor_views(g@),
            ),
            r is Err ==> self.backward_spec(tensor_views(inputs@), grad_output@) is None,
    ;

    /// Pure shape inference, usable without a backend.
    fn output_shape(&self, input_shapes: &Vec<Vec<usize>>) -> (r: GPResult<Vec<usize>>)
        ensures
            r matches Ok(s) ==> self.shape_spec(shape_views(input_shapes@)) == Some(s@),
            r is Err ==> self.shape_spec(shape_views(input_shapes@)) is None,
    ;

    /// Writes the forward result into a pre-allocated buffer instead of
    /// allocating; same function of the inputs as `forward`.
    fn forward_inplace(&self, inputs: &Vec<Tensor>, out: &mut Tensor, backend: &B) -> (r: GPResult<
        (),
    >)
        ensures
            r is Ok <==> self.forward_spec(tensor_views(inputs@)) is Some,
            r is Ok ==> self.forward_spec(tensor_views(inputs@)) == Some(final(out)@),
    {
        match self.forward(inputs, backend) {
            Ok(t) => {
                *out = t;
                Ok(())
            },
            Err(e) => Err(e),
        }
    }

    /// Persists this operation's configuration as bytes.
    fn encode(&self) -> (r: Vec<u8>)
        ensures
            r@ == self.encoding(),
    ;

    /// Recovers an operation from its persisted bytes.
    fn decode(bytes: &Vec<u8>) -> (r: GPResult<Self>)
        ensures
            r matches Ok(c) ==> Self::decode_spec(bytes@) == Some(c),
            r is Err ==> Self::decode_spec(bytes@) is None,
    ;
}

/// The closed set of built-in operations, with one open extension point.
#[verifier::ext_equal]
pub enum OpType<C> {
    MatMul,
    Conv2D { stride: usize, padding: usize },
    MaxPool2D { kernel_size: usize, stride: usize },
    Add,
    ReLU,
    Sigmoid,
    Tanh,
    Reshape { target_shape: Vec<usize> },
    AddReLU,
    Custom(C),
}

/// The trailing broadcast axes found by walking the last `j` dimension
/// pairs from the right: an axis is reduced when the target holds size one
/// there but the gradient holds more.
pub open spec fn axes_to_reduce_upto(target_shape: Seq<usize>, grad_shape: Seq<usize>, j: int) -> Seq<
    usize,
>
    decreases j,
{
    if j <= 0 {
        Seq::empty()
    } else {
        let i = j - 1;
        let g_idx = grad_shape.len() - 1 - i;
        let t_idx = target_shape.len() - 1 - i;
        axes_to_reduce_upto(target_shape, grad_shape, i) + (if target_shape[t_idx] == 1
            && grad_shape[g_idx] > 1 {
            seq![g_idx as usize]
        } else {
            Seq::empty()
        })
    }
}

/// The axes a gradient must be summed over to shrink from `grad_shape` back
/// to `target_shape`: all leading dimensions the target lacks, then every
/// dimension that is one in the target but larger in the gradient.
pub open spec fn axes_to_reduce(target_shape: Seq<usize>, grad_shape: Seq<usize>) -> Seq<usize> {
    let lead = grad_shape.len() - target_shape.len();
    Seq::new(lead as nat, |i: int| i as usize) + axes_to_reduce_upto(
        target_shape,
        grad_shape,
        target_shape.len() as int,
    )
}

/// What resolving a (possibly broadcast) gradient back to an operand's shape
/// returns: the gradient unchanged when shapes already agree or nothing
/// needs reducing, otherwise a dimension-keeping sum over the broadcast axes
/// reshaped to the target.
pub open spec fn resolve_grad_spec<B: Backend>(target_shape: Seq<usize>, grad: TensorView) -> Option<
    TensorView,
> {
    if target_shape == grad.shape {
        Some(grad)
    } else if target_shape.len() > grad.shape.len() {
        None
    } else {
        let axes = axes_to_reduce(target_shape, grad.shape);
        if axes.len() == 0 {
            Some(grad)
        } else {
            match B::reduce_sum_spec(grad, axes, true) {
                Some(t) => {
                    if t.shape.len() != target_shape.len() {
                        if t.data.len() == dim_product(target_shape) {
                            Some(TensorView { data: t.data, shape: target_shape })
                        } else {
                            None
                        }
                    } else {
                        Some(t)
                    }
                },
                None => None,
            }
        }
    }
}

/// What a built-in operation's forward pass returns, or `None` where it
/// fails (wrong input count, or a kernel refusal).
pub open spec fn op_forward_spec<B: Backend, C: Operation<B>>(
    op: OpType<C>,
    inputs: Seq<TensorView>,
) -> Option<TensorView> {
    match op {
        OpType::MatMul => if inputs.len() == 2 {
            B::matmul_spec(inputs[0], inputs[1], false, false)
        } else {
            None
        },
        OpType::Conv2D { stride, padding } => if inputs.len() == 2 {
            B::conv2d_spec(inputs[0], inputs[1], stride, padding)
        } else {
            None
        },
        OpType::MaxPool2D { kernel_size, stride } => if inputs.len() == 1 {
            B::max_pool2d_spec(inputs[0], kernel_size, stride)
        } else {
            None
        },
        OpType::Add => if inputs.len() == 2 {
            B::add_spec(inputs[0], inputs[1])
        } else {
            None
        },
        OpType::ReLU => if inputs.len() == 1 {
            B::relu_spec(inputs[0])
        } else {
            None
        },
        OpType::Sigmoid => if inputs.len() == 1 {
            B::sigmoid_spec(inputs[0])
        } else {
            None
        },
        OpType::Tanh => if inputs.len() == 1 {
            B::tanh_spec(inputs[0])
        } else {
            None
        },
        OpType::Reshape { target_shape } => if inputs.len() == 1 && inputs[0].data.len()
            == dim_product(target_shape@) {
            Some(TensorView { data: inputs[0].data, shape: target_shape@ })
        } else {
            None
        },
        OpType::AddReLU => if inputs.len() == 2 {
            B::add_relu_spec(inputs[0], inputs[1])
        } else {
            None
        },
        OpType::Custom(c) => c.forward_spec(inputs),
    }
}

/// What a built-in operation's backward pass returns: one gradient per
/// input, in input order, or `None` where it fails.
pub open spec fn op_backward_spec<B: Backend, C: Operation<B>>(
    op: OpType<C>,
    inputs: Seq<TensorView>,
    grad: TensorView,
) -> Option<Seq<TensorView>> {
    match op {
        OpType::MatMul => if inputs.len() == 2 {
            match (B::matmul_spec(grad, inputs[1], false, true), B::matmul_spec(
                inputs[0],
                grad,
                true,
                false,
            )) {
                (Some(ga), Some(gb)) => Some(seq![ga, gb]),
                _ => None,
            }
        } else {
            None
        },
        OpType::Conv2D { stride, padding } => if inputs.len() == 2 {
            match B::conv2d_backward_spec(inputs[0], inputs[1], grad, stride, padding) {
                Some(g) => Some(seq![g.0, g.1]),
                None => None,
            }
        } else {
            None
        },
        OpType::MaxPool2D { kernel_size, stride } => if inputs.len() == 1 {
            match B::max_pool2d_backward_spec(inputs[0], grad, kernel_size, stride) {
                Some(g) => Some(seq![g]),
                None => None,
            }
        } else {
            None
        },
        OpType::Add => if inputs.len() == 2 {
            match (resolve_grad_spec::<B>(inputs[0].shape, grad), resolve_grad_spec::<B>(
                inputs[1].shape,
                grad,
            )) {
                (Some(ga), Some(gb)) => Some(seq![ga, gb]),
                _ => None,
            }
        } else {
            None
        },
        OpType::ReLU => if inputs.len() == 1 {
            match B::relu_backward_spec(inputs[0], grad) {
                Some(g) => Some(seq![g]),
                None => None,
            }
        } else {
            None
        },
        OpType::Sigmoid => if inputs.len() == 1 {
            match B::sigmoid_spec(inputs[0]) {
                Some(y) => match B::sigmoid_backward_spec(y, grad) {
                    Some(g) => Some(seq![g]),
                    None => None,
                },
                None => None,
            }
        } else {
            None
        },
        OpType::Tanh => if inputs.len() == 1 {
            match B::tanh_spec(inputs[0]) {
                Some(y) => match B::tanh_backward_spec(y, grad) {
                    Some(g) => Some(seq![g]),
                    None => None,
                },
                None => None,
            }
        } else {
            None
        },
        OpType::Reshape { .. } => if inputs.len() == 1 && grad.data.len() == dim_product(
            inputs[0].shape,
        ) {
            Some(seq![TensorView { data: grad.data, shape: inputs[0].shape }])
        } else {
            None
        },
        OpType::AddReLU => if inputs.len() == 2 {
            match B::add_spec(inputs[0], inputs[1]) {
                Some(s) => match B::relu_backward_spec(s, grad) {
                    Some(rg) => match (resolve_grad_spec::<B>(inputs[0].shape, rg),
                    resolve_grad_spec::<B>(inputs[1].shape, rg)) {
                        (Some(ga), Some(gb)) => Some(seq![ga, gb]),
                        _ => None,
                    },
                    None => None,
                },
                None => None,
            }
        } else {
            None
        },
        OpType::Custom(c) => c.backward_spec(inputs, grad),
    }
}

/// What a built-in operation's shape inference returns, or `None` where the
/// input shapes are rejected.
pub open spec fn op_shape_spec<B: Backend, C: Operation<B>>(
    op: OpType<C>,
    shapes: Seq<Seq<usize>>,
) -> Option<Seq<usize>> {
    match op {
        OpType::MatMul => if shapes.len() == 2 && shapes[0].len() == 2 && shapes[1].len() == 2
            && shapes[0][1] == shapes[1][0] {
            Some(matmul_out_shape(shapes[0], shapes[1], false, false))
        } else {
            None
        },
        OpType::Conv2D { stride, padding } => if shapes.len() == 2 && shapes[0].len() == 4
            && shapes[1].len() == 4 && stride >= 1 && 2 * padding <= usize::MAX && shapes[0][2] + 2
            * padding <= usize::MAX && shapes[0][3] + 2 * padding <= usize::MAX && shapes[0][2] + 2
            * padding >= shapes[1][2] && shapes[0][3] + 2 * padding >= shapes[1][3] && (shapes[0][2]
            + 2 * padding - shapes[1][2]) / (stride as int) + 1 <= usize::MAX && (shapes[0][3] + 2
            * padding - shapes[1][3]) / (stride as int) + 1 <= usize::MAX {
            Some(crate::backend::conv2d_out_shape(shapes[0], shapes[1], stride, padding))
        } else {
            None
        },
        OpType::MaxPool2D { kernel_size, stride } => if shapes.len() == 1 && shapes[0].len() == 4
            && stride >= 1 && shapes[0][2] >= kernel_size && shapes[0][3] >= kernel_size && (
        shapes[0][2] - kernel_size) / (stride as int) + 1 <= usize::MAX && (shapes[0][3]
            - kernel_size) / (stride as int) + 1 <= usize::MAX {
            Some(crate::backend::pool_out_shape(shapes[0], kernel_size, stride))
        } else {
            None
        },
        OpType::Add | OpType::AddReLU => if shapes.len() == 2 && crate::backend::broadcastable_to(
            shapes[1],
            shapes[0],
        ) {
            Some(crate::backend::broadcast_out_shape(shapes[0], shapes[1]))
        } else {
            None
        },
        OpType::ReLU | OpType::Sigmoid | OpType::Tanh => if shapes.len() == 1 {
            Some(shapes[0])
        } else {
            None
        },
        OpType::Reshape { target_shape } => Some(target_shape@),
        OpType::Custom(c) => c.shape_spec(shapes),
    }
}

/// A node in the computation graph. `Input` and `Param` own their tensors;
/// an `Op` owns only its configuration and references to strictly earlier
/// nodes.
#[verifier::ext_equal]
pub enum Node<C> {
    Input(Tensor),
    Param(Tensor),
    Op { op: OpType<C>, inputs: Vec<NodeId> },
}

impl<C> Node<C> {
    /// The operation of an `Op` node, if this is one.
    pub fn op(&self) -> (r: Option<&OpType<C>>)
        ensures
            match r {
                Some(op) => self matches Node::Op { op: o, .. } && o == *op,
                None => !(self matches Node::Op { .. }),
            },
    {
        match self {
            Node::Op { op, .. } => Some(op),
            _ => None,
        }
    }
}

} // verus!
