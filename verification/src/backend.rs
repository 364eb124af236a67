//! The kernel capability surface.
//!
//! The engine schedules and differentiates but never computes element
//! values; every numeric kernel is reached through [`Backend`]. An
//! implementation supplies, for each kernel, an abstract function (`*_spec`)
//! saying what it returns — each kernel must be a deterministic function of
//! its inputs — and laws pinning the shapes of what it returns. The engine's
//! own contracts are proved against those laws alone.

use vstd::prelude::*;

use crate::errors::GPResult;
use crate::tensor::Tensor;
use crate::tensor::TensorView;

verus! {

/// Output shape of a (possibly transposed) 2-D matrix multiply.
pub open spec fn matmul_out_shape(a: Seq<usize>, b: Seq<usize>, trans_a: bool, trans_b: bool) -> Seq<
    usize,
> {
    seq![if trans_a { a[1] } else { a[0] }, if trans_b { b[0] } else { b[1] }]
}

/// The shared contraction length of a (possibly transposed) matrix multiply:
/// the column count of the left operand, which must equal the row count of
/// the right one.
pub open spec fn matmul_inner_ok(a: Seq<usize>, b: Seq<usize>, trans_a: bool, trans_b: bool) -> bool {
    (if trans_a {
        a[0]
    } else {
        a[1]
    }) == (if trans_b {
        b[1]
    } else {
        b[0]
    })
}

/// Output shape of a 2-D convolution of a `[n, ci, h, w]` input with a
/// `[co, ci, kh, kw]` weight.
pub open spec fn conv2d_out_shape(
    input: Seq<usize>,
    weight: Seq<usize>,
    stride: usize,
    padding: usize,
) -> Seq<usize> {
    let oh = (input[2] + 2 * padding - weight[2]) / (stride as int) + 1;
    let ow = (input[3] + 2 * padding - weight[3]) / (stride as int) + 1;
    seq![input[0], weight[0], oh as usize, ow as usize]
}

/// Output shape of 2-D max pooling of a `[n, c, h, w]` input.
pub open spec fn pool_out_shape(input: Seq<usize>, kernel_size: usize, stride: usize) -> Seq<usize> {
    let oh = (input[2] - kernel_size) / (stride as int) + 1;
    let ow = (input[3] - kernel_size) / (stride as int) + 1;
    seq![input[0], input[1], oh as usize, ow as usize]
}

/// `small` can be broadcast to `big`: it has no more dimensions, and each of
/// its dimensions, aligned from the right, either matches `big`'s or is one.
/// This is the one legal coercion between shapes; addition-like operations
/// broadcast their right operand to the left one's shape.
pub open spec fn broadcastable_to(small: Seq<usize>, big: Seq<usize>) -> bool {
    &&& small.len() <= big.len()
    &&& forall|k: int|
        0 <= k < small.len() ==> #[trigger] small[k] == big[k + big.len() - small.len()]
            || small[k] == 1
}

/// Decides [`broadcastable_to`] on dimension lists.
pub fn is_broadcastable_to(small: &Vec<usize>, big: &Vec<usize>) -> (r: bool)
    ensures
        r == broadcastable_to(small@, big@),
{
    if small.len() > big.len() {
        return false;
    }
    let blen = big.len();
    let offset = blen - small.len();
    let mut k: usize = 0;
    while k < small.len()
        invariant
            small@.len() <= big@.len(),
            blen == big@.len(),
            offset == big@.len() - small@.len(),
            0 <= k <= small@.len(),
            forall|j: int|
                0 <= j < k ==> #[trigger] small@[j] == big@[j + big@.len() - small@.len()]
                    || small@[j] == 1,
        decreases small@.len() - k,
    {
        if small[k] != big[k + offset] && small[k] != 1 {
            return false;
        }
        k = k + 1;
    }
    true
}

/// The shape a broadcast addition produces: the left operand's shape.
pub open spec fn broadcast_out_shape(a: Seq<usize>, b: Seq<usize>) -> Seq<usize> {
    a
}

/// The shape left by summing over `axes` while keeping dimensionality: every
/// reduced dimension collapses to size one.
pub open spec fn reduced_shape(shape: Seq<usize>, axes: Seq<usize>) -> Seq<usize> {
    Seq::new(shape.len(), |i: int| if axes.contains(i as usize) { 1usize } else { shape[i] })
}

/// Physical execution of tensor kernels.
///
/// The engine calls these but never implements them; a concrete backend
/// (plain CPU loops, a thread pool, an accelerator) lives outside the
/// verified core. Each kernel's result is pinned to the implementation's own
/// `*_spec` function, so that within one backend a kernel is a deterministic
/// function of its arguments; the `*_law` obligations fix the shapes of
/// whatever comes back. Nothing here promises that a kernel succeeds: when a
/// backend refuses a call, the engine reports the failure.
pub trait Backend: Sized {
    /// What `matmul_t` returns, or `None` where it fails.
    open spec fn matmul_spec(a: TensorView, b: TensorView, trans_a: bool, trans_b: bool) -> Option<
        TensorView,
    > {
        None
    }

    /// What `add` returns: elementwise addition, broadcasting the right
    /// operand to the left one's shape.
    open spec fn add_spec(a: TensorView, b: TensorView) -> Option<TensorView> {
        None
    }

    /// What `relu` returns.
    open spec fn relu_spec(x: TensorView) -> Option<TensorView> {
        None
    }

    /// What `sigmoid` returns.
    open spec fn sigmoid_spec(x: TensorView) -> Option<TensorView> {
        None
    }

    /// What `tanh` returns.
    open spec fn tanh_spec(x: TensorView) -> Option<TensorView> {
        None
    }

    /// What `add_relu` returns; the fusion law ties it to `add` then `relu`.
    open spec fn add_relu_spec(a: TensorView, b: TensorView) -> Option<TensorView> {
        None
    }

    /// What `relu_backward` returns: the incoming gradient masked by the
    /// sign of the forward input.
    open spec fn relu_backward_spec(input: TensorView, grad_output: TensorView) -> Option<TensorView> {
        None
    }

    /// What `sigmoid_backward` returns, given the forward *output*.
    open spec fn sigmoid_backward_spec(output: TensorView, grad_output: TensorView) -> Option<TensorView> {
        None
    }

    /// What `tanh_backward` returns, given the forward *output*.
    open spec fn tanh_backward_spec(output: TensorView, grad_output: TensorView) -> Option<TensorView> {
        None
    }

    /// What `conv2d` returns.
    open spec fn conv2d_spec(input: TensorView, weight: TensorView, stride: usize, padding: usize) -> Option<TensorView> {
        None
    }

    /// What `conv2d_backward` returns: gradients for input and weight.
    open spec fn conv2d_backward_spec(
        input: TensorView,
        weight: TensorView,
        grad_output: TensorView,
        stride: usize,
        padding: usize,
    ) -> Option<(TensorView, TensorView)> {
        None
    }

    /// What `max_pool2d` returns.
    open spec fn max_pool2d_spec(input: TensorView, kernel_size: usize, stride: usize) -> Option<TensorView> {
        None
    }

    /// What `max_pool2d_backward` returns.
    open spec fn max_pool2d_backward_spec(
        input: TensorView,
        grad_output: TensorView,
        kernel_size: usize,
        stride: usize,
    ) -> Option<TensorView> {
        None
    }

    /// What `reduce_sum` returns when dimensionality is kept.
    open spec fn reduce_sum_spec(input: TensorView, axes: Seq<usize>, keep_dims: bool) -> Option<TensorView> {
        None
    }

    /// What `update_parameter` leaves in the parameter: one gradient-descent
    /// step with the learning rate carried as a raw 32-bit word.
    open spec fn update_parameter_spec(param: TensorView, grad: TensorView, lr_bits: u32) -> Option<TensorView> {
        None
    }

    /// A successful matrix multiply is 2-D with agreeing inner dimensions
    /// and has the transposed-product shape.
    proof fn matmul_law(a: TensorView, b: TensorView, trans_a: bool, trans_b: bool)
        ensures
            Self::matmul_spec(a, b, trans_a, trans_b) matches Some(t) ==> {
                &&& a.shape.len() == 2
                &&& b.shape.len() == 2
                &&& matmul_inner_ok(a.shape, b.shape, trans_a, trans_b)
                &&& t.shape == matmul_out_shape(a.shape, b.shape, trans_a, trans_b)
                &&& t.wf()
            },
    ;

    /// A successful addition has the left operand's shape, and its right
    /// operand was broadcastable to it.
    proof fn add_law(a: TensorView, b: TensorView)
        ensures
            Self::add_spec(a, b) matches Some(t) ==> t.shape == a.shape && t.wf()
                && broadcastable_to(b.shape, a.shape),
    ;

    /// Activations keep their input's shape.
    proof fn activation_law(x: TensorView)
        ensures
            Self::relu_spec(x) matches Some(t) ==> t.shape == x.shape && t.wf(),
            Self::sigmoid_spec(x) matches Some(t) ==> t.shape == x.shape && t.wf(),
            Self::tanh_spec(x) matches Some(t) ==> t.shape == x.shape && t.wf(),
    ;

    /// Activation gradients keep the incoming gradient's shape.
    proof fn activation_backward_law(x: TensorView, grad_output: TensorView)
        ensures
            Self::relu_backward_spec(x, grad_output) matches Some(t) ==> t.shape
                == grad_output.shape && t.wf(),
            Self::sigmoid_backward_spec(x, grad_output) matches Some(t) ==> t.shape
                == grad_output.shape && t.wf(),
            Self::tanh_backward_spec(x, grad_output) matches Some(t) ==> t.shape
                == grad_output.shape && t.wf(),
    ;

    /// The fused add-then-rectify kernel computes exactly `relu(add(a, b))`,
    /// failing exactly where either step fails.
    proof fn add_relu_law(a: TensorView, b: TensorView)
        ensures
            Self::add_relu_spec(a, b) == (match Self::add_spec(a, b) {
                Some(s) => Self::relu_spec(s),
                None => None,
            }),
    ;

    /// A successful convolution takes 4-D operands, a positive stride, a
    /// kernel no larger than the padded input, and has the standard output
    /// shape.
    proof fn conv2d_law(input: TensorView, weight: TensorView, stride: usize, padding: usize)
        ensures
            Self::conv2d_spec(input, weight, stride, padding) matches Some(t) ==> {
                &&& input.shape.len() == 4
                &&& weight.shape.len() == 4
                &&& stride >= 1
                &&& 2 * padding <= usize::MAX
                &&& input.shape[2] + 2 * padding <= usize::MAX
                &&& input.shape[3] + 2 * padding <= usize::MAX
                &&& input.shape[2] + 2 * padding >= weight.shape[2]
                &&& input.shape[3] + 2 * padding >= weight.shape[3]
                &&& (input.shape[2] + 2 * padding - weight.shape[2]) / (stride as int) + 1
                    <= usize::MAX
                &&& (input.shape[3] + 2 * padding - weight.shape[3]) / (stride as int) + 1
                    <= usize::MAX
                &&& t.shape == conv2d_out_shape(input.shape, weight.shape, stride, padding)
                &&& t.wf()
            },
    ;

    /// Convolution gradients match the operands they are gradients of.
    proof fn conv2d_backward_law(
        input: TensorView,
        weight: TensorView,
        grad_output: TensorView,
        stride: usize,
        padding: usize,
    )
        ensures
            Self::conv2d_backward_spec(input, weight, grad_output, stride, padding) matches Some(
                g,
            ) ==> {
                &&& g.0.shape == input.shape
                &&& g.0.wf()
                &&& g.1.shape == weight.shape
                &&& g.1.wf()
            },
    ;

    /// Successful max pooling takes a 4-D input, a positive stride, a window
    /// no larger than the input, and has the standard output shape.
    proof fn max_pool2d_law(input: TensorView, kernel_size: usize, stride: usize)
        ensures
            Self::max_pool2d_spec(input, kernel_size, stride) matches Some(t) ==> {
                &&& input.shape.len() == 4
                &&& stride >= 1
                &&& input.shape[2] >= kernel_size
                &&& input.shape[3] >= kernel_size
                &&& (input.shape[2] - kernel_size) / (stride as int) + 1 <= usize::MAX
                &&& (input.shape[3] - kernel_size) / (stride as int) + 1 <= usize::MAX
                &&& t.shape == pool_out_shape(input.shape, kernel_size, stride)
                &&& t.wf()
            },
    ;

    /// The pooling gradient matches the forward input's shape.
    proof fn max_pool2d_backward_law(
        input: TensorView,
        grad_output: TensorView,
        kernel_size: usize,
        stride: usize,
    )
        ensures
            Self::max_pool2d_backward_spec(input, grad_output, kernel_size, stride) matches Some(
                t,
            ) ==> t.shape == input.shape && t.wf(),
    ;

    /// A successful dimension-keeping reduction sums over in-range axes and
    /// collapses exactly those axes to size one.
    proof fn reduce_sum_law(input: TensorView)
        ensures
            forall|axes: Seq<usize>|
                #[trigger] Self::reduce_sum_spec(input, axes, true) matches Some(t) ==> {
                    &&& forall|k: int| 0 <= k < axes.len() ==> (axes[k] as int) < input.shape.len()
                    &&& t.shape == reduced_shape(input.shape, axes)
                    &&& t.wf()
                },
    ;

    /// A parameter update keeps the parameter's shape.
    proof fn update_parameter_law(param: TensorView, grad: TensorView, lr_bits: u32)
        ensures
            Self::update_parameter_spec(param, grad, lr_bits) matches Some(t) ==> t.shape
                == param.shape && t.wf(),
    ;

    /// Matrix multiplication `a * b`, with transpose options; 2-D tensors.
    fn matmul_t(&self, a: &Tensor, b: &Tensor, trans_a: bool, trans_b: bool) -> (r: GPResult<
        Tensor,
    >)
        ensures
            r matches Ok(t) ==> Self::matmul_spec(a@, b@, trans_a, trans_b) == Some(t@),
            r is Err ==> Self::matmul_spec(a@, b@, trans_a, trans_b) is None,
    ;

    /// Matrix multiplication into an existing buffer of the right shape.
    fn matmul_into(&self, a: &Tensor, b: &Tensor, trans_a: bool, trans_b: bool, out: &mut Tensor) -> (r:
        GPResult<()>)
        ensures
            r is Ok <==> (Self::matmul_spec(a@, b@, trans_a, trans_b) matches Some(t) && old(
                out,
            )@.shape == t.shape),
            r is Ok ==> Self::matmul_spec(a@, b@, trans_a, trans_b) == Some(final(out)@),
            r is Err ==> final(out)@ == old(out)@,
    ;

    /// Matrix multiplication without transposes.
    fn matmul(&self, a: &Tensor, b: &Tensor) -> (r: GPResult<Tensor>)
        ensures
            r matches Ok(t) ==> Self::matmul_spec(a@, b@, false, false) == Some(t@),
            r is Err ==> Self::matmul_spec(a@, b@, false, false) is None,
    {
        self.matmul_t(a, b, false, false)
    }

    /// Gradients of a matrix multiply with respect to both operands.
    fn matmul_backward(&self, a: &Tensor, b: &Tensor, grad_output: &Tensor) -> (r: GPResult<
        Vec<Tensor>,
    >)
        ensures
            r matches Ok(g) ==> {
                &&& g@.len() == 2
                &&& Self::matmul_spec(grad_output@, b@, false, true) == Some(g@[0]@)
                &&& Self::matmul_spec(a@, grad_output@, true, false) == Some(g@[1]@)
            },
            r is Err ==> Self::matmul_spec(grad_output@, b@, false, true) is None || Self::matmul_spec(
                a@,
                grad_output@,
                true,
                false,
            ) is None,
    {
        let grad_a = self.matmul_t(grad_output, b, false, true)?;
        let grad_b = self.matmul_t(a, grad_output, true, false)?;
        let mut out: Vec<Tensor> = Vec::new();
        out.push(grad_a);
        out.push(grad_b);
        Ok(out)
    }

    /// 2-D convolution: `[n, ci, h, w] * [co, ci, kh, kw] -> [n, co, oh, ow]`.
    fn conv2d(&self, input: &Tensor, weight: &Tensor, stride: usize, padding: usize) -> (r:
        GPResult<Tensor>)
        ensures
            r matches Ok(t) ==> Self::conv2d_spec(input@, weight@, stride, padding) == Some(t@),
            r is Err ==> Self::conv2d_spec(input@, weight@, stride, padding) is None,
    ;

    /// Gradients of a 2-D convolution for input and weight.
    fn conv2d_backward(
        &self,
        input: &Tensor,
        weight: &Tensor,
        grad_output: &Tensor,
        stride: usize,
        padding: usize,
    ) -> (r: GPResult<(Tensor, Tensor)>)
        ensures
            r matches Ok(g) ==> Self::conv2d_backward_spec(
                input@,
                weight@,
                grad_output@,
                stride,
                padding,
            ) == Some((g.0@, g.1@)),
            r is Err ==> Self::conv2d_backward_spec(
                input@,
                weight@,
                grad_output@,
                stride,
                padding,
            ) is None,
    ;

    /// 2-D max pooling.
    fn max_pool2d(&self, input: &Tensor, kernel_size: usize, stride: usize) -> (r: GPResult<Tensor>)
        ensures
            r matches Ok(t) ==> Self::max_pool2d_spec(input@, kernel_size, stride) == Some(t@),
            r is Err ==> Self::max_pool2d_spec(input@, kernel_size, stride) is None,
    ;

    /// Gradient of 2-D max pooling.
    fn max_pool2d_backward(
        &self,
        input: &Tensor,
        grad_output: &Tensor,
        kernel_size: usize,
        stride: usize,
    ) -> (r: GPResult<Tensor>)
        ensures
            r matches Ok(t) ==> Self::max_pool2d_backward_spec(
                input@,
                grad_output@,
                kernel_size,
                stride,
            ) == Some(t@),
            r is Err ==> Self::max_pool2d_backward_spec(
                input@,
                grad_output@,
                kernel_size,
                stride,
            ) is None,
    ;

    /// Elementwise addition, broadcasting `b` to `a`'s shape.
    fn add(&self, a: &Tensor, b: &Tensor) -> (r: GPResult<Tensor>)
        ensures
            r matches Ok(t) ==> Self::add_spec(a@, b@) == Some(t@),
            r is Err ==> Self::add_spec(a@, b@) is None,
    ;

    /// Elementwise addition into an existing buffer; all three shapes must
    /// already agree.
    fn add_into(&self, a: &Tensor, b: &Tensor, out: &mut Tensor) -> (r: GPResult<()>)
        ensures
            r is Ok <==> (Self::add_spec(a@, b@) is Some && a@.shape == b@.shape && old(out)@.shape
                == a@.shape),
            r is Ok ==> Self::add_spec(a@, b@) == Some(final(out)@),
            r is Err ==> final(out)@ == old(out)@,
    ;

    /// Rectified linear unit.
    fn relu(&self, x: &Tensor) -> (r: GPResult<Tensor>)
        ensures
            r matches Ok(t) ==> Self::relu_spec(x@) == Some(t@),
            r is Err ==> Self::relu_spec(x@) is None,
    ;

    /// Rectified linear unit, in place.
    fn relu_inplace(&self, x: &mut Tensor) -> (r: GPResult<()>)
        ensures
            r is Ok <==> Self::relu_spec(old(x)@) is Some,
            r is Ok ==> Self::relu_spec(old(x)@) == Some(final(x)@),
            r is Err ==> final(x)@ == old(x)@,
    ;

    /// Logistic sigmoid.
    fn sigmoid(&self, x: &Tensor) -> (r: GPResult<Tensor>)
        ensures
            r matches Ok(t) ==> Self::sigmoid_spec(x@) == Some(t@),
            r is Err ==> Self::sigmoid_spec(x@) is None,
    ;

    /// Logistic sigmoid, in place.
    fn sigmoid_inplace(&self, x: &mut Tensor) -> (r: GPResult<()>)
        ensures
            r is Ok <==> Self::sigmoid_spec(old(x)@) is Some,
            r is Ok ==> Self::sigmoid_spec(old(x)@) == Some(final(x)@),
            r is Err ==> final(x)@ == old(x)@,
    ;

    /// Hyperbolic tangent.
    fn tanh(&self, x: &Tensor) -> (r: GPResult<Tensor>)
        ensures
            r matches Ok(t) ==> Self::tanh_spec(x@) == Some(t@),
            r is Err ==> Self::tanh_spec(x@) is None,
    ;

    /// Hyperbolic tangent, in place.
    fn tanh_inplace(&self, x: &mut Tensor) -> (r: GPResult<()>)
        ensures
            r is Ok <==> Self::tanh_spec(old(x)@) is Some,
            r is Ok ==> Self::tanh_spec(old(x)@) == Some(final(x)@),
            r is Err ==> final(x)@ == old(x)@,
    ;

    /// Gradient of the rectifier: `grad_output` masked by the sign of the
    /// forward input.
    fn relu_backward(&self, input: &Tensor, grad_output: &Tensor) -> (r: GPResult<Tensor>)
        ensures
            r matches Ok(t) ==> Self::relu_backward_spec(input@, grad_output@) == Some(t@),
            r is Err ==> Self::relu_backward_spec(input@, grad_output@) is None,
    ;

    /// Gradient of the sigmoid, given the forward output.
    fn sigmoid_backward(&self, output: &Tensor, grad_output: &Tensor) -> (r: GPResult<Tensor>)
        ensures
            r matches Ok(t) ==> Self::sigmoid_backward_spec(output@, grad_output@) == Some(t@),
            r is Err ==> Self::sigmoid_backward_spec(output@, grad_output@) is None,
    ;

    /// Gradient of the hyperbolic tangent, given the forward output.
    fn tanh_backward(&self, output: &Tensor, grad_output: &Tensor) -> (r: GPResult<Tensor>)
        ensures
            r matches Ok(t) ==> Self::tanh_backward_spec(output@, grad_output@) == Some(t@),
            r is Err ==> Self::tanh_backward_spec(output@, grad_output@) is None,
    ;

    /// Fused kernel computing `relu(a + b)` in one sweep.
    fn add_relu(&self, a: &Tensor, b: &Tensor) -> (r: GPResult<Tensor>)
        ensures
            r matches Ok(t) ==> Self::add_relu_spec(a@, b@) == Some(t@),
            r is Err ==> Self::add_relu_spec(a@, b@) is None,
    ;

    /// Sums the tensor over the given axes; with `keep_dims` the reduced
    /// axes stay as size-one dimensions.
    fn reduce_sum(&self, input: &Tensor, axes: &Vec<usize>, keep_dims: bool) -> (r: GPResult<Tensor>)
        ensures
            r matches Ok(t) ==> Self::reduce_sum_spec(input@, axes@, keep_dims) == Some(t@),
            r is Err ==> Self::reduce_sum_spec(input@, axes@, keep_dims) is None,
    ;

    /// One in-place gradient-descent step, `param -= lr * grad`, with the
    /// learning rate carried as a raw 32-bit word.
    fn update_parameter(&self, param: &mut Tensor, grad: &Tensor, lr_bits: u32) -> (r: GPResult<()>)
        ensures
            r is Ok <==> Self::update_parameter_spec(old(param)@, grad@, lr_bits) is Some,
            r is Ok ==> Self::update_parameter_spec(old(param)@, grad@, lr_bits) == Some(
                final(param)@,
            ),
            r is Err ==> final(param)@ == old(param)@,
    ;
}

} // verus!
