//! Executable dispatch for the built-in operation set.

use vstd::prelude::*;
use vstd::string::StringExecFns;

use crate::backend::Backend;
use crate::errors::GPError;
use crate::errors::GPResult;
use crate::node::axes_to_reduce_upto;
use crate::node::op_backward_spec;
use crate::node::op_forward_spec;
use crate::node::op_shape_spec;
use crate::node::resolve_grad_spec;
use crate::node::tensor_views;
use crate::node::shape_views;
use crate::node::OpType;
use crate::node::Operation;
use crate::tensor::Tensor;
use crate::tensor::TensorView;
use crate::types::slices_equal;

verus! {

/// Reduces a (possibly broadcast) gradient back to an operand's
/// pre-broadcast shape: leading dimensions the operand lacks, and
/// dimensions that were one in the operand but larger in the gradient, are
/// summed away; the result is then reshaped to the operand's shape.
pub fn resolve_grad<B: Backend>(target_shape: &[usize], grad: &Tensor, backend: &B) -> (r: GPResult<
    Tensor,
>)
    ensures
        r matches Ok(t) ==> resolve_grad_spec::<B>(target_shape@, grad@) == Some(t@),
        r is Err ==> resolve_grad_spec::<B>(target_shape@, grad@) is None,
{
    let grad_shape = grad.shape();
    if slices_equal(target_shape, grad_shape) {
        return Ok(grad.clone());
    }
    let target_dims = target_shape.len();
    let grad_dims = grad_shape.len();
    if target_dims > grad_dims {
        return Err(GPError::IncompatibleShapes {
            expected: crate::types::Shape::from_slice(target_shape).0,
            found: crate::types::Shape::from_slice(grad_shape).0,
            exp_len: target_dims,
            found_len: grad_dims,
        });
    }
    let lead = grad_dims - target_dims;
    let mut axes: Vec<usize> = Vec::new();
    let mut i: usize = 0;
    while i < lead
        invariant
            0 <= i <= lead,
            axes@ == Seq::new(i as nat, |k: int| k as usize),
        decreases lead - i,
    {
        axes.push(i);
        proof {
            assert(axes@ =~= Seq::new((i + 1) as nat, |k: int| k as usize));
        }
        i = i + 1;
    }
    let ghost lead_axes = axes@;
    let mut j: usize = 0;
    while j < target_dims
        invariant
            0 <= j <= target_dims,
            target_dims <= grad_dims,
            lead == grad_dims - target_dims,
            grad_dims == grad@.shape.len(),
            grad_shape@ == grad@.shape,
            target_dims == target_shape@.len(),
            lead_axes == Seq::new(lead as nat, |k: int| k as usize),
            axes@ == lead_axes + axes_to_reduce_upto(target_shape@, grad@.shape, j as int),
        decreases target_dims - j,
    {
        let g_idx = grad_dims - 1 - j;
        let t_idx = target_dims - 1 - j;
        if target_shape[t_idx] == 1 && grad_shape[g_idx] > 1 {
            axes.push(g_idx);
        }
        proof {
            assert(axes@ =~= lead_axes + axes_to_reduce_upto(
                target_shape@,
                grad@.shape,
                j + 1 as int,
            ));
        }
        j = j + 1;
    }
    proof {
        assert(axes@ == crate::node::axes_to_reduce(target_shape@, grad@.shape));
    }
    if axes.len() == 0 {
        return Ok(grad.clone());
    }
    let reduced = backend.reduce_sum(grad, &axes, true)?;
    if reduced.ndim() != target_dims {
        let reshaped = reduced.into_shape(target_shape)?;
        Ok(reshaped)
    } else {
        Ok(reduced)
    }
}

/// The diagnostic label of each built-in operation.
pub open spec fn op_name_spec<C>(op: OpType<C>) -> Seq<char> {
    match op {
        OpType::MatMul => "MatMul"@,
        OpType::Conv2D { .. } => "Conv2D"@,
        OpType::MaxPool2D { .. } => "MaxPool2D"@,
        OpType::Add => "Add"@,
        OpType::ReLU => "ReLU"@,
        OpType::Sigmoid => "Sigmoid"@,
        OpType::Tanh => "Tanh"@,
        OpType::Reshape { .. } => "Reshape"@,
        OpType::AddReLU => "AddReLU (Fused)"@,
        OpType::Custom(_) => Seq::empty(),
    }
}

impl<C> OpType<C> {
    /// A label for diagnostics; the fused kernel is marked as such, and a
    /// custom operation labels itself.
    pub fn name<B: Backend>(&self) -> (r: &str) where C: Operation<B>,

        ensures
            !(self matches OpType::Custom(_)) ==> r@ == op_name_spec(*self),
    {
        match self {
            OpType::MatMul => "MatMul",
            OpType::Conv2D { .. } => "Conv2D",
            OpType::MaxPool2D { .. } => "MaxPool2D",
            OpType::Add => "Add",
            OpType::ReLU => "ReLU",
            OpType::Sigmoid => "Sigmoid",
            OpType::Tanh => "Tanh",
            OpType::Reshape { .. } => "Reshape",
            OpType::AddReLU => "AddReLU (Fused)",
            OpType::Custom(c) => c.name(),
        }
    }

    /// Computes this operation's output from its input tensors.
    pub fn forward<B: Backend>(&self, inputs: &Vec<Tensor>, backend: &B) -> (r: GPResult<Tensor>) where
        C: Operation<B>,

        ensures
            r matches Ok(t) ==> op_forward_spec::<B, C>(*self, tensor_views(inputs@)) == Some(t@),
            r is Err ==> op_forward_spec::<B, C>(*self, tensor_views(inputs@)) is None,
    {
        match self {
            OpType::MatMul => {
                if inputs.len() != 2 {
                    return Err(arity_error());
                }
                backend.matmul_t(&inputs[0], &inputs[1], false, false)
            },
            OpType::Conv2D { stride, padding } => {
                if inputs.len() != 2 {
                    return Err(arity_error());
                }
                backend.conv2d(&inputs[0], &inputs[1], *stride, *padding)
            },
            OpType::MaxPool2D { kernel_size, stride } => {
                if inputs.len() != 1 {
                    return Err(arity_error());
                }
                backend.max_pool2d(&inputs[0], *kernel_size, *stride)
            },
            OpType::Add => {
                if inputs.len() != 2 {
                    return Err(arity_error());
                }
                backend.add(&inputs[0], &inputs[1])
            },
            OpType::ReLU => {
                if inputs.len() != 1 {
                    return Err(arity_error());
                }
                backend.relu(&inputs[0])
            },
            OpType::Sigmoid => {
                if inputs.len() != 1 {
                    return Err(arity_error());
                }
                backend.sigmoid(&inputs[0])
            },
            OpType::Tanh => {
                if inputs.len() != 1 {
                    return Err(arity_error());
                }
                backend.tanh(&inputs[0])
            },
            OpType::Reshape { target_shape } => {
                if inputs.len() != 1 {
                    return Err(arity_error());
                }
                let t = inputs[0].clone();
                let reshaped = t.into_shape(target_shape.as_slice())?;
                Ok(reshaped.into_dyn())
            },
            OpType::AddReLU => {
                if inputs.len() != 2 {
                    return Err(arity_error());
                }
                backend.add_relu(&inputs[0], &inputs[1])
            },
            OpType::Custom(c) => c.forward(inputs, backend),
        }
    }

    /// Computes one gradient per input from the output gradient, reading the
    /// inputs' forward values.
    pub fn backward<B: Backend>(&self, inputs: &Vec<Tensor>, grad_output: &Tensor, backend: &B) -> (r:
        GPResult<Vec<Tensor>>) where C: Operation<B>,

        ensures
            r matches Ok(g) ==> op_backward_spec::<B, C>(
                *self,
                tensor_views(inputs@),
                grad_output@,
            ) == Some(tensor_views(g@)),
            r is Err ==> op_backward_spec::<B, C>(
                *self,
                tensor_views(inputs@),
                grad_output@,
            ) is None,
    {
        match self {
            OpType::MatMul => {
                if inputs.len() != 2 {
                    return Err(arity_error());
                }
                let grad_a = backend.matmul_t(grad_output, &inputs[1], false, true)?;
                let grad_b = backend.matmul_t(&inputs[0], grad_output, true, false)?;
                let mut out: Vec<Tensor> = Vec::new();
                out.push(grad_a);
                out.push(grad_b);
                proof {
                    assert(tensor_views(out@) =~= seq![out@[0]@, out@[1]@]);
                }
                Ok(out)
            },
            OpType::Conv2D { stride, padding } => {
                if inputs.len() != 2 {
                    return Err(arity_error());
                }
                let (gi, gw) = backend.conv2d_backward(
                    &inputs[0],
                    &inputs[1],
                    grad_output,
                    *stride,
                    *padding,
                )?;
                let mut out: Vec<Tensor> = Vec::new();
                out.push(gi);
                out.push(gw);
                proof {
                    assert(tensor_views(out@) =~= seq![out@[0]@, out@[1]@]);
                }
                Ok(out)
            },
            OpType::MaxPool2D { kernel_size, stride } => {
                if inputs.len() != 1 {
                    return Err(arity_error());
                }
                let gi = backend.max_pool2d_backward(&inputs[0], grad_output, *kernel_size, *stride)?;
                let mut out: Vec<Tensor> = Vec::new();
                out.push(gi);
                proof {
                    assert(tensor_views(out@) =~= seq![out@[0]@]);
                }
                Ok(out)
            },
            OpType::Add => {
                if inputs.len() != 2 {
                    return Err(arity_error());
                }
                let ga = resolve_grad(inputs[0].shape(), grad_output, backend)?;
                let gb = resolve_grad(inputs[1].shape(), grad_output, backend)?;
                let mut out: Vec<Tensor> = Vec::new();
                out.push(ga);
                out.push(gb);
                proof {
                    assert(tensor_views(out@) =~= seq![out@[0]@, out@[1]@]);
                }
                Ok(out)
            },
            OpType::ReLU => {
                if inputs.len() != 1 {
                    return Err(arity_error());
                }
                let g = backend.relu_backward(&inputs[0], grad_output)?;
                let mut out: Vec<Tensor> = Vec::new();
                out.push(g);
                proof {
                    assert(tensor_views(out@) =~= seq![out@[0]@]);
                }
                Ok(out)
            },
            OpType::Sigmoid => {
                if inputs.len() != 1 {
                    return Err(arity_error());
                }
                let y = backend.sigmoid(&inputs[0])?;
                let g = backend.sigmoid_backward(&y, grad_output)?;
                let mut out: Vec<Tensor> = Vec::new();
                out.push(g);
                proof {
                    assert(tensor_views(out@) =~= seq![out@[0]@]);
                }
                Ok(out)
            },
            OpType::Tanh => {
                if inputs.len() != 1 {
                    return Err(arity_error());
                }
                let y = backend.tanh(&inputs[0])?;
                let g = backend.tanh_backward(&y, grad_output)?;
                let mut out: Vec<Tensor> = Vec::new();
                out.push(g);
                proof {
                    assert(tensor_views(out@) =~= seq![out@[0]@]);
                }
                Ok(out)
            },
            OpType::Reshape { .. } => {
                if inputs.len() != 1 {
                    return Err(arity_error());
                }
                let g = grad_output.clone();
                let reshaped = g.into_shape(inputs[0].shape())?;
                let mut out: Vec<Tensor> = Vec::new();
                out.push(reshaped.into_dyn());
                proof {
                    assert(tensor_views(out@) =~= seq![out@[0]@]);
                }
                Ok(out)
            },
            OpType::AddReLU => {
                if inputs.len() != 2 {
                    return Err(arity_error());
                }
                let s = backend.add(&inputs[0], &inputs[1])?;
                let rg = backend.relu_backward(&s, grad_output)?;
                let ga = resolve_grad(inputs[0].shape(), &rg, backend)?;
                let gb = resolve_grad(inputs[1].shape(), &rg, backend)?;
                let mut out: Vec<Tensor> = Vec::new();
                out.push(ga);
                out.push(gb);
                proof {
                    assert(tensor_views(out@) =~= seq![out@[0]@, out@[1]@]);
                }
                Ok(out)
            },
            OpType::Custom(c) => c.backward(inputs, grad_output, backend),
        }
    }

    /// Pure shape inference: the output shape this operation would produce
    /// from inputs of the given shapes, without running any kernel. Fails
    /// with an incompatible-shapes error on mismatch.
    pub fn output_shape<B: Backend>(&self, input_shapes: &Vec<Vec<usize>>) -> (r: GPResult<
        Vec<usize>,
    >) where C: Operation<B>,

        ensures
            r matches Ok(s) ==> op_shape_spec::<B, C>(*self, shape_views(input_shapes@)) == Some(
                s@,
            ),
            r is Err ==> op_shape_spec::<B, C>(*self, shape_views(input_shapes@)) is None,
    {
        match self {
            OpType::MatMul => {
                if input_shapes.len() != 2 {
                    return Err(arity_error());
                }
                let a = &input_shapes[0];
                let b = &input_shapes[1];
                if a.len() != 2 || b.len() != 2 {
                    return Err(shape_error(a, b));
                }
                if a[1] != b[0] {
                    return Err(shape_error(a, b));
                }
                let mut out: Vec<usize> = Vec::new();
                out.push(a[0]);
                out.push(b[1]);
                proof {
                    assert(out@ =~= crate::backend::matmul_out_shape(a@, b@, false, false));
                }
                Ok(out)
            },
            OpType::Conv2D { stride, padding } => {
                if input_shapes.len() != 2 {
                    return Err(arity_error());
                }
                let input = &input_shapes[0];
                let weight = &input_shapes[1];
                if input.len() != 4 || weight.len() != 4 || *stride == 0 {
                    return Err(shape_error(input, weight));
                }
                let h = input[2];
                let w = input[3];
                let kh = weight[2];
                let kw = weight[3];
                let pad2 = match padding.checked_mul(2) {
                    Some(p) => p,
                    None => {
                        return Err(shape_error(input, weight));
                    },
                };
                let hp = match h.checked_add(pad2) {
                    Some(p) => p,
                    None => {
                        return Err(shape_error(input, weight));
                    },
                };
                let wp = match w.checked_add(pad2) {
                    Some(p) => p,
                    None => {
                        return Err(shape_error(input, weight));
                    },
                };
                if hp < kh || wp < kw {
                    return Err(shape_error(input, weight));
                }
                let oh = match ((hp - kh) / *stride).checked_add(1) {
                    Some(p) => p,
                    None => {
                        return Err(shape_error(input, weight));
                    },
                };
                let ow = match ((wp - kw) / *stride).checked_add(1) {
                    Some(p) => p,
                    None => {
                        return Err(shape_error(input, weight));
                    },
                };
                let mut out: Vec<usize> = Vec::new();
                out.push(input[0]);
                out.push(weight[0]);
                out.push(oh);
                out.push(ow);
                proof {
                    assert(out@ =~= crate::backend::conv2d_out_shape(
                        input@,
                        weight@,
                        *stride,
                        *padding,
                    ));
                }
                Ok(out)
            },
            OpType::MaxPool2D { kernel_size, stride } => {
                if input_shapes.len() != 1 {
                    return Err(arity_error());
                }
                let input = &input_shapes[0];
                if input.len() != 4 || *stride == 0 || input[2] < *kernel_size || input[3]
                    < *kernel_size {
                    return Err(shape_error(input, input));
                }
                let oh = match ((input[2] - *kernel_size) / *stride).checked_add(1) {
                    Some(p) => p,
                    None => {
                        return Err(shape_error(input, input));
                    },
                };
                let ow = match ((input[3] - *kernel_size) / *stride).checked_add(1) {
                    Some(p) => p,
                    None => {
                        return Err(shape_error(input, input));
                    },
                };
                let mut out: Vec<usize> = Vec::new();
                out.push(input[0]);
                out.push(input[1]);
                out.push(oh);
                out.push(ow);
                proof {
                    assert(out@ =~= crate::backend::pool_out_shape(input@, *kernel_size, *stride));
                }
                Ok(out)
            },
            OpType::Add | OpType::AddReLU => {
                if input_shapes.len() != 2 {
                    return Err(arity_error());
                }
                if !crate::backend::is_broadcastable_to(&input_shapes[1], &input_shapes[0]) {
                    return Err(shape_error(&input_shapes[0], &input_shapes[1]));
                }
                Ok(crate::types::clone_dims(&input_shapes[0]))
            },
            OpType::ReLU | OpType::Sigmoid | OpType::Tanh => {
                if input_shapes.len() != 1 {
                    return Err(arity_error());
                }
                Ok(crate::types::clone_dims(&input_shapes[0]))
            },
            OpType::Reshape { target_shape } => Ok(crate::types::clone_dims(target_shape)),
            OpType::Custom(c) => c.output_shape(input_shapes),
        }
    }

    /// Writes this operation's forward result into an existing buffer,
    /// reusing its storage where shapes allow and replacing it otherwise;
    /// the same function of the inputs as `forward`.
    pub fn forward_inplace<B: Backend>(
        &self,
        inputs: &Vec<Tensor>,
        out: &mut Tensor,
        backend: &B,
    ) -> (r: GPResult<()>) where C: Operation<B>,

        ensures
            r is Ok <==> op_forward_spec::<B, C>(*self, tensor_views(inputs@)) is Some,
            r is Ok ==> op_forward_spec::<B, C>(*self, tensor_views(inputs@)) == Some(final(out)@),
    {
        match self {
            OpType::MatMul => {
                if inputs.len() == 2 {
                    match backend.matmul_into(&inputs[0], &inputs[1], false, false, out) {
                        Ok(()) => {
                            return Ok(());
                        },
                        Err(_) => {},
                    }
                }
                let t = self.forward(inputs, backend)?;
                *out = t;
                Ok(())
            },
            OpType::Add => {
                if inputs.len() == 2 {
                    match backend.add_into(&inputs[0], &inputs[1], out) {
                        Ok(()) => {
                            return Ok(());
                        },
                        Err(_) => {},
                    }
                }
                let t = self.forward(inputs, backend)?;
                *out = t;
                Ok(())
            },
            OpType::ReLU => {
                if inputs.len() == 1 && slices_equal(out.shape(), inputs[0].shape()) {
                    let copied = out.copy_from(&inputs[0]);
                    if copied.is_ok() {
                        proof {
                            assert(out@ =~= inputs@[0]@);
                        }
                        return backend.relu_inplace(out);
                    }
                }
                let t = self.forward(inputs, backend)?;
                *out = t;
                Ok(())
            },
            OpType::Sigmoid => {
                if inputs.len() == 1 && slices_equal(out.shape(), inputs[0].shape()) {
                    let copied = out.copy_from(&inputs[0]);
                    if copied.is_ok() {
                        proof {
                            assert(out@ =~= inputs@[0]@);
                        }
                        return backend.sigmoid_inplace(out);
                    }
                }
                let t = self.forward(inputs, backend)?;
                *out = t;
                Ok(())
            },
            OpType::Tanh => {
                if inputs.len() == 1 && slices_equal(out.shape(), inputs[0].shape()) {
                    let copied = out.copy_from(&inputs[0]);
                    if copied.is_ok() {
                        proof {
                            assert(out@ =~= inputs@[0]@);
                        }
                        return backend.tanh_inplace(out);
                    }
                }
                let t = self.forward(inputs, backend)?;
                *out = t;
                Ok(())
            },
            OpType::AddReLU => {
                if inputs.len() == 2 {
                    match backend.add_into(&inputs[0], &inputs[1], out) {
                        Ok(()) => {
                            proof {
                                B::add_relu_law(inputs@[0]@, inputs@[1]@);
                            }
                            return backend.relu_inplace(out);
                        },
                        Err(_) => {},
                    }
                }
                let t = self.forward(inputs, backend)?;
                *out = t;
                Ok(())
            },
            OpType::Custom(c) => c.forward_inplace(inputs, out, backend),
            _ => {
                // convolution, pooling and reshape always rebuild the buffer
                let t = self.forward(inputs, backend)?;
                *out = t;
                Ok(())
            },
        }
    }
}

/// The error reported when an operation is given the wrong number of inputs.
fn arity_error() -> (r: GPError)
    ensures
        r matches GPError::InferenceError(_),
{
    GPError::InferenceError(String::from_str("operation arity mismatch"))
}

/// The error reported when shape inference rejects the input shapes.
fn shape_error(expected: &Vec<usize>, found: &Vec<usize>) -> (r: GPError)
    ensures
        r matches GPError::IncompatibleShapes { .. },
{
    GPError::IncompatibleShapes {
        expected: crate::types::clone_dims(expected),
        found: crate::types::clone_dims(found),
        exp_len: expected.len(),
        found_len: found.len(),
    }
}

} // verus!
