//! Library-provided operations implementing the open [`Operation`]
//! interface: the same kernels the built-in set dispatches to, packaged as
//! standalone operation objects so they can also travel through the custom
//! extension point.

use vstd::prelude::*;
use vstd::string::StringExecFns;

use crate::backend::Backend;
use crate::codec::lemma_u64_le_roundtrip;
use crate::codec::push_u64;
use crate::codec::read_u64;
use crate::codec::u64_le;
use crate::codec::u64_of_le;
use crate::errors::GPError;
use crate::errors::GPResult;
use crate::node::tensor_views;
use crate::node::OpLabel;
use crate::node::Operation;
use crate::node::OpType;
use crate::tensor::Tensor;
use crate::tensor::TensorView;

verus! {

/// Matrix multiplication as a standalone operation.
#[derive(PartialEq, Eq, Structural)]
pub struct MatMul;

/// Elementwise addition (with right-operand broadcasting) as a standalone
/// operation.
#[derive(PartialEq, Eq, Structural)]
pub struct Add;

/// The rectifier as a standalone operation.
#[derive(PartialEq, Eq, Structural)]
pub struct ReLUOp;

/// The logistic sigmoid as a standalone operation.
#[derive(PartialEq, Eq, Structural)]
pub struct SigmoidOp;

/// The fused add-then-rectify kernel as a standalone operation.
#[derive(PartialEq, Eq, Structural)]
pub struct AddReLUOp;

/// 2-D max pooling as a standalone operation.
#[derive(PartialEq, Eq, Structural)]
pub struct MaxPool2D {
    pub kernel_size: usize,
    pub stride: usize,
}

impl OpLabel for MatMul {
    fn name(&self) -> &str {
        "MatMul"
    }
}

impl OpLabel for Add {
    fn name(&self) -> &str {
        "Add"
    }
}

impl OpLabel for ReLUOp {
    fn name(&self) -> &str {
        "ReLU"
    }
}

impl OpLabel for SigmoidOp {
    fn name(&self) -> &str {
        "Sigmoid"
    }
}

impl OpLabel for AddReLUOp {
    fn name(&self) -> &str {
        "AddReLU (Fused)"
    }
}

impl OpLabel for MaxPool2D {
    fn name(&self) -> &str {
        "MaxPool2D"
    }
}

impl<B: Backend> Operation<B> for MatMul {
    open spec fn forward_spec(&self, inputs: Seq<TensorView>) -> Option<TensorView> {
        if inputs.len() == 2 {
            B::matmul_spec(inputs[0], inputs[1], false, false)
        } else {
            None
        }
    }

    open spec fn backward_spec(&self, inputs: Seq<TensorView>, grad_output: TensorView) -> Option<
        Seq<TensorView>,
    > {
        if inputs.len() == 2 {
            match (B::matmul_spec(grad_output, inputs[1], false, true), B::matmul_spec(
                inputs[0],
                grad_output,
                true,
                false,
            )) {
                (Some(ga), Some(gb)) => Some(seq![ga, gb]),
                _ => None,
            }
        } else {
            None
        }
    }

    open spec fn shape_spec(&self, input_shapes: Seq<Seq<usize>>) -> Option<Seq<usize>> {
        if input_shapes.len() == 2 && input_shapes[0].len() == 2 && input_shapes[1].len() == 2
            && input_shapes[0][1] == input_shapes[1][0] {
            Some(crate::backend::matmul_out_shape(input_shapes[0], input_shapes[1], false, false))
        } else {
            None
        }
    }

    open spec fn encoding(&self) -> Seq<u8> {
        seq![10u8]
    }

    open spec fn decode_spec(bytes: Seq<u8>) -> Option<Self> {
        if bytes == seq![10u8] {
            Some(MatMul)
        } else {
            None
        }
    }

    proof fn forward_shape_law(&self) {
        assert forall|inputs: Seq<TensorView>| match #[trigger] Operation::<B>::forward_spec(
            self,
            inputs,
        ) {
            Some(t) => t.wf() && Operation::<B>::shape_spec(
                self,
                inputs.map_values(|v: TensorView| v.shape),
            ) == Some(t.shape),
            None => true,
        } by {
            if Operation::<B>::forward_spec(self, inputs) is Some {
                B::matmul_law(inputs[0], inputs[1], false, false);
                assert(inputs.map_values(|v: TensorView| v.shape)[0] == inputs[0].shape);
                assert(inputs.map_values(|v: TensorView| v.shape)[1] == inputs[1].shape);
            }
        }
    }

    proof fn backward_shape_law(&self) {
    }

    proof fn codec_law(&self) {
    }

    fn forward(&self, inputs: &Vec<Tensor>, backend: &B) -> (r: GPResult<Tensor>) {
        if inputs.len() != 2 {
            return Err(GPError::InferenceError(String::from_str("operation arity mismatch")));
        }
        backend.matmul_t(&inputs[0], &inputs[1], false, false)
    }

    fn backward(&self, inputs: &Vec<Tensor>, grad_output: &Tensor, backend: &B) -> (r: GPResult<
        Vec<Tensor>,
    >) {
        if inputs.len() != 2 {
            return Err(GPError::InferenceError(String::from_str("operation arity mismatch")));
        }
        let ga = backend.matmul_t(grad_output, &inputs[1], false, true)?;
        let gb = backend.matmul_t(&inputs[0], grad_output, true, false)?;
        let mut out: Vec<Tensor> = Vec::new();
        out.push(ga);
        out.push(gb);
        proof {
            assert(tensor_views(out@) =~= seq![out@[0]@, out@[1]@]);
        }
        Ok(out)
    }

    fn output_shape(&self, input_shapes: &Vec<Vec<usize>>) -> (r: GPResult<Vec<usize>>) {
        if input_shapes.len() != 2 {
            return Err(GPError::InferenceError(String::from_str("operation arity mismatch")));
        }
        let a = &input_shapes[0];
        let b = &input_shapes[1];
        if a.len() != 2 || b.len() != 2 || a[1] != b[0] {
            return Err(GPError::IncompatibleShapes {
                expected: crate::types::clone_dims(a),
                found: crate::types::clone_dims(b),
                exp_len: a.len(),
                found_len: b.len(),
            });
        }
        let mut out: Vec<usize> = Vec::new();
        out.push(a[0]);
        out.push(b[1]);
        proof {
            assert(out@ =~= crate::backend::matmul_out_shape(a@, b@, false, false));
        }
        Ok(out)
    }

    fn encode(&self) -> (r: Vec<u8>) {
        let mut out: Vec<u8> = Vec::new();
        out.push(10u8);
        proof {
            assert(out@ =~= seq![10u8]);
        }
        out
    }

    fn decode(bytes: &Vec<u8>) -> (r: GPResult<Self>) {
        if bytes.len() == 1 && bytes[0] == 10u8 {
            proof {
                assert(bytes@ =~= seq![10u8]);
            }
            Ok(MatMul)
        } else {
            proof {
                assert(bytes@ != seq![10u8]);
            }
            Err(GPError::SerializationError(String::from_str("unrecognized operation bytes")))
        }
    }
}

impl<B: Backend> Operation<B> for Add {
    open spec fn forward_spec(&self, inputs: Seq<TensorView>) -> Option<TensorView> {
        if inputs.len() == 2 {
            B::add_spec(inputs[0], inputs[1])
        } else {
            None
        }
    }

    open spec fn backward_spec(&self, inputs: Seq<TensorView>, grad_output: TensorView) -> Option<
        Seq<TensorView>,
    > {
        if inputs.len() == 2 {
            match (crate::node::resolve_grad_spec::<B>(inputs[0].shape, grad_output),
            crate::node::resolve_grad_spec::<B>(inputs[1].shape, grad_output)) {
                (Some(ga), Some(gb)) => Some(seq![ga, gb]),
                _ => None,
            }
        } else {
            None
        }
    }

    open spec fn shape_spec(&self, input_shapes: Seq<Seq<usize>>) -> Option<Seq<usize>> {
        if input_shapes.len() == 2 && crate::backend::broadcastable_to(
            input_shapes[1],
            input_shapes[0],
        ) {
            Some(crate::backend::broadcast_out_shape(input_shapes[0], input_shapes[1]))
        } else {
            None
        }
    }

    open spec fn encoding(&self) -> Seq<u8> {
        seq![11u8]
    }

    open spec fn decode_spec(bytes: Seq<u8>) -> Option<Self> {
        if bytes == seq![11u8] {
            Some(Add)
        } else {
            None
        }
    }

    proof fn forward_shape_law(&self) {
        assert forall|inputs: Seq<TensorView>| match #[trigger] Operation::<B>::forward_spec(
            self,
            inputs,
        ) {
            Some(t) => t.wf() && Operation::<B>::shape_spec(
                self,
                inputs.map_values(|v: TensorView| v.shape),
            ) == Some(t.shape),
            None => true,
        } by {
            if Operation::<B>::forward_spec(self, inputs) is Some {
                B::add_law(inputs[0], inputs[1]);
                assert(inputs.map_values(|v: TensorView| v.shape)[0] == inputs[0].shape);
            }
        }
    }

    proof fn backward_shape_law(&self) {
    }

    proof fn codec_law(&self) {
    }

    fn forward(&self, inputs: &Vec<Tensor>, backend: &B) -> (r: GPResult<Tensor>) {
        if inputs.len() != 2 {
            return Err(GPError::InferenceError(String::from_str("operation arity mismatch")));
        }
        backend.add(&inputs[0], &inputs[1])
    }

    fn backward(&self, inputs: &Vec<Tensor>, grad_output: &Tensor, backend: &B) -> (r: GPResult<
        Vec<Tensor>,
    >) {
        if inputs.len() != 2 {
            return Err(GPError::InferenceError(String::from_str("operation arity mismatch")));
        }
        let ga = crate::op_exec::resolve_grad(inputs[0].shape(), grad_output, backend)?;
        let gb = crate::op_exec::resolve_grad(inputs[1].shape(), grad_output, backend)?;
        let mut out: Vec<Tensor> = Vec::new();
        out.push(ga);
        out.push(gb);
        proof {
            assert(tensor_views(out@) =~= seq![out@[0]@, out@[1]@]);
        }
        Ok(out)
    }

    fn output_shape(&self, input_shapes: &Vec<Vec<usize>>) -> (r: GPResult<Vec<usize>>) {
        if input_shapes.len() != 2 {
            return Err(GPError::InferenceError(String::from_str("operation arity mismatch")));
        }
        if !crate::backend::is_broadcastable_to(&input_shapes[1], &input_shapes[0]) {
            return Err(GPError::IncompatibleShapes {
                expected: crate::types::clone_dims(&input_shapes[0]),
                found: crate::types::clone_dims(&input_shapes[1]),
                exp_len: input_shapes[0].len(),
                found_len: input_shapes[1].len(),
            });
        }
        Ok(crate::types::clone_dims(&input_shapes[0]))
    }

    fn encode(&self) -> (r: Vec<u8>) {
        let mut out: Vec<u8> = Vec::new();
        out.push(11u8);
        proof {
            assert(out@ =~= seq![11u8]);
        }
        out
    }

    fn decode(bytes: &Vec<u8>) -> (r: GPResult<Self>) {
        if bytes.len() == 1 && bytes[0] == 11u8 {
            proof {
                assert(bytes@ =~= seq![11u8]);
            }
            Ok(Add)
        } else {
            proof {
                assert(bytes@ != seq![11u8]);
            }
            Err(GPError::SerializationError(String::from_str("unrecognized operation bytes")))
        }
    }
}

impl<B: Backend> Operation<B> for ReLUOp {
    open spec fn forward_spec(&self, inputs: Seq<TensorView>) -> Option<TensorView> {
        if inputs.len() == 1 {
            B::relu_spec(inputs[0])
        } else {
            None
        }
    }

    open spec fn backward_spec(&self, inputs: Seq<TensorView>, grad_output: TensorView) -> Option<
        Seq<TensorView>,
    > {
        if inputs.len() == 1 {
            match B::relu_backward_spec(inputs[0], grad_output) {
                Some(g) => Some(seq![g]),
                None => None,
            }
        } else {
            None
        }
    }

    open spec fn shape_spec(&self, input_shapes: Seq<Seq<usize>>) -> Option<Seq<usize>> {
        if input_shapes.len() == 1 {
            Some(input_shapes[0])
        } else {
            None
        }
    }

    open spec fn encoding(&self) -> Seq<u8> {
        seq![12u8]
    }

    open spec fn decode_spec(bytes: Seq<u8>) -> Option<Self> {
        if bytes == seq![12u8] {
            Some(ReLUOp)
        } else {
            None
        }
    }

    proof fn forward_shape_law(&self) {
        assert forall|inputs: Seq<TensorView>| match #[trigger] Operation::<B>::forward_spec(
            self,
            inputs,
        ) {
            Some(t) => t.wf() && Operation::<B>::shape_spec(
                self,
                inputs.map_values(|v: TensorView| v.shape),
            ) == Some(t.shape),
            None => true,
        } by {
            if Operation::<B>::forward_spec(self, inputs) is Some {
                B::activation_law(inputs[0]);
                assert(inputs.map_values(|v: TensorView| v.shape)[0] == inputs[0].shape);
            }
        }
    }

    proof fn backward_shape_law(&self) {
    }

    proof fn codec_law(&self) {
    }

    fn forward(&self, inputs: &Vec<Tensor>, backend: &B) -> (r: GPResult<Tensor>) {
        if inputs.len() != 1 {
            return Err(GPError::InferenceError(String::from_str("operation arity mismatch")));
        }
        backend.relu(&inputs[0])
    }

    fn backward(&self, inputs: &Vec<Tensor>, grad_output: &Tensor, backend: &B) -> (r: GPResult<
        Vec<Tensor>,
    >) {
        if inputs.len() != 1 {
            return Err(GPError::InferenceError(String::from_str("operation arity mismatch")));
        }
        let g = backend.relu_backward(&inputs[0], grad_output)?;
        let mut out: Vec<Tensor> = Vec::new();
        out.push(g);
        proof {
            assert(tensor_views(out@) =~= seq![out@[0]@]);
        }
        Ok(out)
    }

    fn output_shape(&self, input_shapes: &Vec<Vec<usize>>) -> (r: GPResult<Vec<usize>>) {
        if input_shapes.len() != 1 {
            return Err(GPError::InferenceError(String::from_str("operation arity mismatch")));
        }
        Ok(crate::types::clone_dims(&input_shapes[0]))
    }

    fn encode(&self) -> (r: Vec<u8>) {
        let mut out: Vec<u8> = Vec::new();
        out.push(12u8);
        proof {
            assert(out@ =~= seq![12u8]);
        }
        out
    }

    fn decode(bytes: &Vec<u8>) -> (r: GPResult<Self>) {
        if bytes.len() == 1 && bytes[0] == 12u8 {
            proof {
                assert(bytes@ =~= seq![12u8]);
            }
            Ok(ReLUOp)
        } else {
            proof {
                assert(bytes@ != seq![12u8]);
            }
            Err(GPError::SerializationError(String::from_str("unrecognized operation bytes")))
        }
    }
}

impl<B: Backend> Operation<B> for SigmoidOp {
    open spec fn forward_spec(&self, inputs: Seq<TensorView>) -> Option<TensorView> {
        if inputs.len() == 1 {
            B::sigmoid_spec(inputs[0])
        } else {
            None
        }
    }

    open spec fn backward_spec(&self, inputs: Seq<TensorView>, grad_output: TensorView) -> Option<
        Seq<TensorView>,
    > {
        if inputs.len() == 1 {
            match B::sigmoid_spec(inputs[0]) {
                Some(y) => match B::sigmoid_backward_spec(y, grad_output) {
                    Some(g) => Some(seq![g]),
                    None => None,
                },
                None => None,
            }
        } else {
            None
        }
    }

    open spec fn shape_spec(&self, input_shapes: Seq<Seq<usize>>) -> Option<Seq<usize>> {
        if input_shapes.len() == 1 {
            Some(input_shapes[0])
        } else {
            None
        }
    }

    open spec fn encoding(&self) -> Seq<u8> {
        seq![13u8]
    }

    open spec fn decode_spec(bytes: Seq<u8>) -> Option<Self> {
        if bytes == seq![13u8] {
            Some(SigmoidOp)
        } else {
            None
        }
    }

    proof fn forward_shape_law(&self) {
        assert forall|inputs: Seq<TensorView>| match #[trigger] Operation::<B>::forward_spec(
            self,
            inputs,
        ) {
            Some(t) => t.wf() && Operation::<B>::shape_spec(
                self,
                inputs.map_values(|v: TensorView| v.shape),
            ) == Some(t.shape),
            None => true,
        } by {
            if Operation::<B>::forward_spec(self, inputs) is Some {
                B::activation_law(inputs[0]);
                assert(inputs.map_values(|v: TensorView| v.shape)[0] == inputs[0].shape);
            }
        }
    }

    proof fn backward_shape_law(&self) {
    }

    proof fn codec_law(&self) {
    }

    fn forward(&self, inputs: &Vec<Tensor>, backend: &B) -> (r: GPResult<Tensor>) {
        if inputs.len() != 1 {
            return Err(GPError::InferenceError(String::from_str("operation arity mismatch")));
        }
        backend.sigmoid(&inputs[0])
    }

    fn backward(&self, inputs: &Vec<Tensor>, grad_output: &Tensor, backend: &B) -> (r: GPResult<
        Vec<Tensor>,
    >) {
        if inputs.len() != 1 {
            return Err(GPError::InferenceError(String::from_str("operation arity mismatch")));
        }
        let y = backend.sigmoid(&inputs[0])?;
        let g = backend.sigmoid_backward(&y, grad_output)?;
        let mut out: Vec<Tensor> = Vec::new();
        out.push(g);
        proof {
            assert(tensor_views(out@) =~= seq![out@[0]@]);
        }
        Ok(out)
    }

    fn output_shape(&self, input_shapes: &Vec<Vec<usize>>) -> (r: GPResult<Vec<usize>>) {
        if input_shapes.len() != 1 {
            return Err(GPError::InferenceError(String::from_str("operation arity mismatch")));
        }
        Ok(crate::types::clone_dims(&input_shapes[0]))
    }

    fn encode(&self) -> (r: Vec<u8>) {
        let mut out: Vec<u8> = Vec::new();
        out.push(13u8);
        proof {
            assert(out@ =~= seq![13u8]);
        }
        out
    }

    fn decode(bytes: &Vec<u8>) -> (r: GPResult<Self>) {
        if bytes.len() == 1 && bytes[0] == 13u8 {
            proof {
                assert(bytes@ =~= seq![13u8]);
            }
            Ok(SigmoidOp)
        } else {
            proof {
                assert(bytes@ != seq![13u8]);
            }
            Err(GPError::SerializationError(String::from_str("unrecognized operation bytes")))
        }
    }
}

impl<B: Backend> Operation<B> for AddReLUOp {
    open spec fn forward_spec(&self, inputs: Seq<TensorView>) -> Option<TensorView> {
        if inputs.len() == 2 {
            B::add_relu_spec(inputs[0], inputs[1])
        } else {
            None
        }
    }

    open spec fn backward_spec(&self, inputs: Seq<TensorView>, grad_output: TensorView) -> Option<
        Seq<TensorView>,
    > {
        if inputs.len() == 2 {
            match B::add_spec(inputs[0], inputs[1]) {
                Some(sum) => match B::relu_backward_spec(sum, grad_output) {
                    Some(rg) => match (crate::node::resolve_grad_spec::<B>(inputs[0].shape, rg),
                    crate::node::resolve_grad_spec::<B>(inputs[1].shape, rg)) {
                        (Some(ga), Some(gb)) => Some(seq![ga, gb]),
                        _ => None,
                    },
                    None => None,
                },
                None => None,
            }
        } else {
            None
        }
    }

    open spec fn shape_spec(&self, input_shapes: Seq<Seq<usize>>) -> Option<Seq<usize>> {
        if input_shapes.len() == 2 && crate::backend::broadcastable_to(
            input_shapes[1],
            input_shapes[0],
        ) {
            Some(crate::backend::broadcast_out_shape(input_shapes[0], input_shapes[1]))
        } else {
            None
        }
    }

    open spec fn encoding(&self) -> Seq<u8> {
        seq![14u8]
    }

    open spec fn decode_spec(bytes: Seq<u8>) -> Option<Self> {
        if bytes == seq![14u8] {
            Some(AddReLUOp)
        } else {
            None
        }
    }

    proof fn forward_shape_law(&self) {
        assert forall|inputs: Seq<TensorView>| match #[trigger] Operation::<B>::forward_spec(
            self,
            inputs,
        ) {
            Some(t) => t.wf() && Operation::<B>::shape_spec(
                self,
                inputs.map_values(|v: TensorView| v.shape),
            ) == Some(t.shape),
            None => true,
        } by {
            if Operation::<B>::forward_spec(self, inputs) is Some {
                B::add_relu_law(inputs[0], inputs[1]);
                B::add_law(inputs[0], inputs[1]);
                match B::add_spec(inputs[0], inputs[1]) {
                    Some(s) => {
                        B::activation_law(s);
                    },
                    None => {},
                }
                assert(inputs.map_values(|v: TensorView| v.shape)[0] == inputs[0].shape);
            }
        }
    }

    proof fn backward_shape_law(&self) {
    }

    proof fn codec_law(&self) {
    }

    fn forward(&self, inputs: &Vec<Tensor>, backend: &B) -> (r: GPResult<Tensor>) {
        if inputs.len() != 2 {
            return Err(GPError::InferenceError(String::from_str("operation arity mismatch")));
        }
        backend.add_relu(&inputs[0], &inputs[1])
    }

    fn backward(&self, inputs: &Vec<Tensor>, grad_output: &Tensor, backend: &B) -> (r: GPResult<
        Vec<Tensor>,
    >) {
        if inputs.len() != 2 {
            return Err(GPError::InferenceError(String::from_str("operation arity mismatch")));
        }
        let sum = backend.add(&inputs[0], &inputs[1])?;
        let rg = backend.relu_backward(&sum, grad_output)?;
        let ga = crate::op_exec::resolve_grad(inputs[0].shape(), &rg, backend)?;
        let gb = crate::op_exec::resolve_grad(inputs[1].shape(), &rg, backend)?;
        let mut out: Vec<Tensor> = Vec::new();
        out.push(ga);
        out.push(gb);
        proof {
            assert(tensor_views(out@) =~= seq![out@[0]@, out@[1]@]);
        }
        Ok(out)
    }

    fn output_shape(&self, input_shapes: &Vec<Vec<usize>>) -> (r: GPResult<Vec<usize>>) {
        if input_shapes.len() != 2 {
            return Err(GPError::InferenceError(String::from_str("operation arity mismatch")));
        }
        if !crate::backend::is_broadcastable_to(&input_shapes[1], &input_shapes[0]) {
            return Err(GPError::IncompatibleShapes {
                expected: crate::types::clone_dims(&input_shapes[0]),
                found: crate::types::clone_dims(&input_shapes[1]),
                exp_len: input_shapes[0].len(),
                found_len: input_shapes[1].len(),
            });
        }
        Ok(crate::types::clone_dims(&input_shapes[0]))
    }

    fn encode(&self) -> (r: Vec<u8>) {
        let mut out: Vec<u8> = Vec::new();
        out.push(14u8);
        proof {
            assert(out@ =~= seq![14u8]);
        }
        out
    }

    fn decode(bytes: &Vec<u8>) -> (r: GPResult<Self>) {
        if bytes.len() == 1 && bytes[0] == 14u8 {
            proof {
                assert(bytes@ =~= seq![14u8]);
            }
            Ok(AddReLUOp)
        } else {
            proof {
                assert(bytes@ != seq![14u8]);
            }
            Err(GPError::SerializationError(String::from_str("unrecognized operation bytes")))
        }
    }
}

impl<B: Backend> Operation<B> for MaxPool2D {
    open spec fn forward_spec(&self, inputs: Seq<TensorView>) -> Option<TensorView> {
        if inputs.len() == 1 {
            B::max_pool2d_spec(inputs[0], self.kernel_size, self.stride)
        } else {
            None
        }
    }

    open spec fn backward_spec(&self, inputs: Seq<TensorView>, grad_output: TensorView) -> Option<
        Seq<TensorView>,
    > {
        if inputs.len() == 1 {
            match B::max_pool2d_backward_spec(inputs[0], grad_output, self.kernel_size, self.stride) {
                Some(g) => Some(seq![g]),
                None => None,
            }
        } else {
            None
        }
    }

    open spec fn shape_spec(&self, input_shapes: Seq<Seq<usize>>) -> Option<Seq<usize>> {
        if input_shapes.len() == 1 && input_shapes[0].len() == 4 && self.stride >= 1
            && input_shapes[0][2] >= self.kernel_size && input_shapes[0][3] >= self.kernel_size
            && (input_shapes[0][2] - self.kernel_size) / (self.stride as int) + 1 <= usize::MAX
            && (input_shapes[0][3] - self.kernel_size) / (self.stride as int) + 1 <= usize::MAX {
            Some(crate::backend::pool_out_shape(input_shapes[0], self.kernel_size, self.stride))
        } else {
            None
        }
    }

    open spec fn encoding(&self) -> Seq<u8> {
        seq![15u8] + u64_le(self.kernel_size as u64) + u64_le(self.stride as u64)
    }

    open spec fn decode_spec(bytes: Seq<u8>) -> Option<Self> {
        if bytes.len() == 17 && bytes[0] == 15u8 && (u64_of_le(bytes.subrange(1, 9)) as int)
            <= usize::MAX && (u64_of_le(bytes.subrange(9, 17)) as int) <= usize::MAX {
            Some(
                MaxPool2D {
                    kernel_size: u64_of_le(bytes.subrange(1, 9)) as usize,
                    stride: u64_of_le(bytes.subrange(9, 17)) as usize,
                },
            )
        } else {
            None
        }
    }

    proof fn forward_shape_law(&self) {
        assert forall|inputs: Seq<TensorView>| match #[trigger] Operation::<B>::forward_spec(
            self,
            inputs,
        ) {
            Some(t) => t.wf() && Operation::<B>::shape_spec(
                self,
                inputs.map_values(|v: TensorView| v.shape),
            ) == Some(t.shape),
            None => true,
        } by {
            if Operation::<B>::forward_spec(self, inputs) is Some {
                B::max_pool2d_law(inputs[0], self.kernel_size, self.stride);
                assert(inputs.map_values(|v: TensorView| v.shape)[0] == inputs[0].shape);
            }
        }
    }

    proof fn backward_shape_law(&self) {
    }

    proof fn codec_law(&self) {
        let bytes = Operation::<B>::encoding(self);
        lemma_u64_le_roundtrip(self.kernel_size as u64);
        lemma_u64_le_roundtrip(self.stride as u64);
        assert(bytes.subrange(1, 9) =~= u64_le(self.kernel_size as u64));
        assert(bytes.subrange(9, 17) =~= u64_le(self.stride as u64));
        assert forall|bs: Seq<u8>|
            #[trigger] <Self as Operation<B>>::decode_spec(bs) == Some(*self) implies bs
            == Operation::<B>::encoding(self) by {
            crate::codec::lemma_le_of_u64_roundtrip(bs.subrange(1, 9));
            crate::codec::lemma_le_of_u64_roundtrip(bs.subrange(9, 17));
            assert((u64_of_le(bs.subrange(1, 9)) as usize) == self.kernel_size);
            assert((u64_of_le(bs.subrange(9, 17)) as usize) == self.stride);
            assert(bs.subrange(1, 9) == u64_le(self.kernel_size as u64));
            assert(bs.subrange(9, 17) == u64_le(self.stride as u64));
            assert(bs =~= Operation::<B>::encoding(self));
        }
    }

    fn forward(&self, inputs: &Vec<Tensor>, backend: &B) -> (r: GPResult<Tensor>) {
        if inputs.len() != 1 {
            return Err(GPError::InferenceError(String::from_str("operation arity mismatch")));
        }
        backend.max_pool2d(&inputs[0], self.kernel_size, self.stride)
    }

    fn backward(&self, inputs: &Vec<Tensor>, grad_output: &Tensor, backend: &B) -> (r: GPResult<
        Vec<Tensor>,
    >) {
        if inputs.len() != 1 {
            return Err(GPError::InferenceError(String::from_str("operation arity mismatch")));
        }
        let g = backend.max_pool2d_backward(&inputs[0], grad_output, self.kernel_size, self.stride)?;
        let mut out: Vec<Tensor> = Vec::new();
        out.push(g);
        proof {
            assert(tensor_views(out@) =~= seq![out@[0]@]);
        }
        Ok(out)
    }

    fn output_shape(&self, input_shapes: &Vec<Vec<usize>>) -> (r: GPResult<Vec<usize>>) {
        if input_shapes.len() != 1 {
            return Err(GPError::InferenceError(String::from_str("operation arity mismatch")));
        }
        let input = &input_shapes[0];
        if input.len() != 4 || self.stride == 0 || input[2] < self.kernel_size || input[3]
            < self.kernel_size {
            return Err(GPError::IncompatibleShapes {
                expected: crate::types::clone_dims(input),
                found: crate::types::clone_dims(input),
                exp_len: input.len(),
                found_len: input.len(),
            });
        }
        let oh = match ((input[2] - self.kernel_size) / self.stride).checked_add(1) {
            Some(p) => p,
            None => {
                return Err(GPError::IncompatibleShapes {
                    expected: crate::types::clone_dims(input),
                    found: crate::types::clone_dims(input),
                    exp_len: input.len(),
                    found_len: input.len(),
                });
            },
        };
        let ow = match ((input[3] - self.kernel_size) / self.stride).checked_add(1) {
            Some(p) => p,
            None => {
                return Err(GPError::IncompatibleShapes {
                    expected: crate::types::clone_dims(input),
                    found: crate::types::clone_dims(input),
                    exp_len: input.len(),
                    found_len: input.len(),
                });
            },
        };
        let mut out: Vec<usize> = Vec::new();
        out.push(input[0]);
        out.push(input[1]);
        out.push(oh);
        out.push(ow);
        proof {
            assert(out@ =~= crate::backend::pool_out_shape(input@, self.kernel_size, self.stride));
        }
        Ok(out)
    }

    fn encode(&self) -> (r: Vec<u8>) {
        let mut out: Vec<u8> = Vec::new();
        out.push(15u8);
        push_u64(&mut out, self.kernel_size as u64);
        push_u64(&mut out, self.stride as u64);
        proof {
            assert(out@ =~= Operation::<B>::encoding(self));
        }
        out
    }

    fn decode(bytes: &Vec<u8>) -> (r: GPResult<Self>) {
        if bytes.len() != 17 || bytes[0] != 15u8 {
            return Err(GPError::SerializationError(String::from_str(
                "unrecognized operation bytes",
            )));
        }
        let k = match read_u64(bytes, 1) {
            Some(x) => x,
            None => {
                return Err(GPError::SerializationError(String::from_str(
                    "unrecognized operation bytes",
                )));
            },
        };
        let s = match read_u64(bytes, 9) {
            Some(x) => x,
            None => {
                return Err(GPError::SerializationError(String::from_str(
                    "unrecognized operation bytes",
                )));
            },
        };
        proof {
            lemma_u64_le_roundtrip(k);
            lemma_u64_le_roundtrip(s);
        }
        if k > usize::MAX as u64 || s > usize::MAX as u64 {
            return Err(GPError::SerializationError(String::from_str(
                "unrecognized operation bytes",
            )));
        }
        Ok(MaxPool2D { kernel_size: k as usize, stride: s as usize })
    }
}

} // verus!
