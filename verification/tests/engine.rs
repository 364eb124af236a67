// End-to-end tests for the graph engine, run against a plain-Rust CPU
// backend that implements the library's kernel capability trait with
// single-precision arithmetic.

use std::cell::Cell;

use gran_prix::backend::Backend;
use gran_prix::codec::decode_graph;
use gran_prix::codec::encode_graph;
use gran_prix::graph::Graph;
use gran_prix::node::Node;
use gran_prix::node::OpLabel;
use gran_prix::node::Operation;
use gran_prix::node::OpType;
use gran_prix::optimizer::GraphOptimizer;
use gran_prix::shapes::Verifier;
use gran_prix::memory_planner::MemoryPlanner;
use gran_prix::buffer_pool::BufferPool;
use gran_prix::GPError;
use gran_prix::GPResult;
use gran_prix::NodeId;
use gran_prix::Shape;
use gran_prix::Tensor;
use gran_prix::TensorView;

fn tfrom(vals: &[f32], dims: &[usize]) -> Tensor {
    let bits: Vec<u32> = vals.iter().map(|v| v.to_bits()).collect();
    Tensor::from_bits(bits, dims.to_vec()).unwrap()
}

fn tvals(t: &Tensor) -> Vec<f32> {
    t.as_bits().iter().map(|b| f32::from_bits(*b)).collect()
}

fn shape_error(a: &Tensor, b: &Tensor) -> GPError {
    GPError::IncompatibleShapes {
        expected: a.shape().to_vec(),
        found: b.shape().to_vec(),
        exp_len: a.len(),
        found_len: b.len(),
    }
}

/// Row-major strides for a shape.
fn strides(dims: &[usize]) -> Vec<usize> {
    let mut s = vec![1usize; dims.len()];
    for i in (0..dims.len().saturating_sub(1)).rev() {
        s[i] = s[i + 1] * dims[i + 1];
    }
    s
}

/// Maps a flat output index to the flat index of the broadcast right
/// operand.
fn broadcast_index(flat: usize, out_dims: &[usize], rhs_dims: &[usize]) -> usize {
    let out_str = strides(out_dims);
    let rhs_str = strides(rhs_dims);
    let offset = out_dims.len() - rhs_dims.len();
    let mut idx = 0usize;
    for k in 0..rhs_dims.len() {
        let out_coord = (flat / out_str[k + offset]) % out_dims[k + offset];
        let coord = if rhs_dims[k] == 1 { 0 } else { out_coord };
        idx += coord * rhs_str[k];
    }
    idx
}

fn rhs_broadcastable(lhs: &[usize], rhs: &[usize]) -> bool {
    if rhs.len() > lhs.len() {
        return false;
    }
    let offset = lhs.len() - rhs.len();
    rhs.iter()
        .enumerate()
        .all(|(k, &d)| d == 1 || d == lhs[k + offset])
}

fn elementwise(t: &Tensor, f: impl Fn(f32) -> f32) -> Tensor {
    let vals: Vec<f32> = tvals(t).into_iter().map(f).collect();
    tfrom(&vals, t.shape())
}

#[derive(Debug)]
struct CpuBackend;

impl CpuBackend {
    fn add_vals(&self, a: &Tensor, b: &Tensor) -> GPResult<Vec<f32>> {
        if !rhs_broadcastable(a.shape(), b.shape()) {
            return Err(shape_error(a, b));
        }
        let av = tvals(a);
        let bv = tvals(b);
        let out: Vec<f32> = av
            .iter()
            .enumerate()
            .map(|(i, &x)| x + bv[broadcast_index(i, a.shape(), b.shape())])
            .collect();
        Ok(out)
    }
}

impl Backend for CpuBackend {
    fn matmul_law(_a: TensorView, _b: TensorView, _ta: bool, _tb: bool) {
    }
    fn add_law(_a: TensorView, _b: TensorView) {
    }
    fn activation_law(_x: TensorView) {
    }
    fn activation_backward_law(_x: TensorView, _g: TensorView) {
    }
    fn add_relu_law(_a: TensorView, _b: TensorView) {
    }
    fn conv2d_law(_i: TensorView, _w: TensorView, _s: usize, _p: usize) {
    }
    fn conv2d_backward_law(_i: TensorView, _w: TensorView, _g: TensorView, _s: usize, _p: usize) {
    }
    fn max_pool2d_law(_i: TensorView, _k: usize, _s: usize) {
    }
    fn max_pool2d_backward_law(_i: TensorView, _g: TensorView, _k: usize, _s: usize) {
    }
    fn reduce_sum_law(_i: TensorView) {
    }
    fn update_parameter_law(_p: TensorView, _g: TensorView, _lr: u32) {
    }

    fn matmul_t(&self, a: &Tensor, b: &Tensor, trans_a: bool, trans_b: bool) -> GPResult<Tensor> {
        if a.ndim() != 2 || b.ndim() != 2 {
            return Err(shape_error(a, b));
        }
        let (m, ka) = if trans_a {
            (a.shape()[1], a.shape()[0])
        } else {
            (a.shape()[0], a.shape()[1])
        };
        let (kb, n) = if trans_b {
            (b.shape()[1], b.shape()[0])
        } else {
            (b.shape()[0], b.shape()[1])
        };
        if ka != kb {
            return Err(shape_error(a, b));
        }
        let av = tvals(a);
        let bv = tvals(b);
        let (acols, bcols) = (a.shape()[1], b.shape()[1]);
        let mut out = vec![0f32; m * n];
        for i in 0..m {
            for j in 0..n {
                let mut sum = 0f32;
                for l in 0..ka {
                    let x = if trans_a { av[l * acols + i] } else { av[i * acols + l] };
                    let y = if trans_b { bv[j * bcols + l] } else { bv[l * bcols + j] };
                    sum += x * y;
                }
                out[i * n + j] = sum;
            }
        }
        Ok(tfrom(&out, &[m, n]))
    }

    fn matmul_into(
        &self,
        a: &Tensor,
        b: &Tensor,
        trans_a: bool,
        trans_b: bool,
        out: &mut Tensor,
    ) -> GPResult<()> {
        let r = self.matmul_t(a, b, trans_a, trans_b)?;
        if out.shape() != r.shape() {
            return Err(shape_error(out, &r));
        }
        out.copy_from(&r)
    }

    fn conv2d(&self, input: &Tensor, weight: &Tensor, stride: usize, padding: usize) -> GPResult<Tensor> {
        if input.ndim() != 4 || weight.ndim() != 4 || stride == 0 {
            return Err(shape_error(input, weight));
        }
        let (n, ci, h, w) = (input.shape()[0], input.shape()[1], input.shape()[2], input.shape()[3]);
        let (co, kh, kw) = (weight.shape()[0], weight.shape()[2], weight.shape()[3]);
        let oh = (h + 2 * padding - kh) / stride + 1;
        let ow = (w + 2 * padding - kw) / stride + 1;
        let iv = tvals(input);
        let wv = tvals(weight);
        let istr = strides(input.shape());
        let wstr = strides(weight.shape());
        let mut out = vec![0f32; n * co * oh * ow];
        let mut o = 0usize;
        for ni in 0..n {
            for coi in 0..co {
                for hi in 0..oh {
                    for wi in 0..ow {
                        let mut sum = 0f32;
                        for cii in 0..ci {
                            for khi in 0..kh {
                                for kwi in 0..kw {
                                    let in_h = (hi * stride + khi) as isize - padding as isize;
                                    let in_w = (wi * stride + kwi) as isize - padding as isize;
                                    if in_h >= 0 && (in_h as usize) < h && in_w >= 0 && (in_w as usize) < w {
                                        sum += iv[ni * istr[0] + cii * istr[1] + (in_h as usize) * istr[2] + in_w as usize]
                                            * wv[coi * wstr[0] + cii * wstr[1] + khi * wstr[2] + kwi];
                                    }
                                }
                            }
                        }
                        out[o] = sum;
                        o += 1;
                    }
                }
            }
        }
        Ok(tfrom(&out, &[n, co, oh, ow]))
    }

    fn conv2d_backward(
        &self,
        input: &Tensor,
        weight: &Tensor,
        grad_output: &Tensor,
        stride: usize,
        padding: usize,
    ) -> GPResult<(Tensor, Tensor)> {
        if input.ndim() != 4 || weight.ndim() != 4 || grad_output.ndim() != 4 || stride == 0 {
            return Err(shape_error(input, weight));
        }
        let (n, ci, h, w) = (input.shape()[0], input.shape()[1], input.shape()[2], input.shape()[3]);
        let (co, kh, kw) = (weight.shape()[0], weight.shape()[2], weight.shape()[3]);
        let (oh, ow) = (grad_output.shape()[2], grad_output.shape()[3]);
        let iv = tvals(input);
        let wv = tvals(weight);
        let gv = tvals(grad_output);
        let istr = strides(input.shape());
        let wstr = strides(weight.shape());
        let gstr = strides(grad_output.shape());
        let mut gi = vec![0f32; iv.len()];
        let mut gw = vec![0f32; wv.len()];
        for ni in 0..n {
            for coi in 0..co {
                for hi in 0..oh {
                    for wi in 0..ow {
                        let g = gv[ni * gstr[0] + coi * gstr[1] + hi * gstr[2] + wi];
                        for cii in 0..ci {
                            for khi in 0..kh {
                                for kwi in 0..kw {
                                    let in_h = (hi * stride + khi) as isize - padding as isize;
                                    let in_w = (wi * stride + kwi) as isize - padding as isize;
                                    if in_h >= 0 && (in_h as usize) < h && in_w >= 0 && (in_w as usize) < w {
                                        let ii = ni * istr[0] + cii * istr[1] + (in_h as usize) * istr[2] + in_w as usize;
                                        let wj = coi * wstr[0] + cii * wstr[1] + khi * wstr[2] + kwi;
                                        gi[ii] += g * wv[wj];
                                        gw[wj] += g * iv[ii];
                                    }
                                }
                            }
                        }
                    }
                }
            }
        }
        Ok((tfrom(&gi, input.shape()), tfrom(&gw, weight.shape())))
    }

    fn max_pool2d(&self, input: &Tensor, kernel_size: usize, stride: usize) -> GPResult<Tensor> {
        if input.ndim() != 4 || stride == 0 || kernel_size == 0 {
            return Err(shape_error(input, input));
        }
        let (n, c, h, w) = (input.shape()[0], input.shape()[1], input.shape()[2], input.shape()[3]);
        if h < kernel_size || w < kernel_size {
            return Err(shape_error(input, input));
        }
        let oh = (h - kernel_size) / stride + 1;
        let ow = (w - kernel_size) / stride + 1;
        let iv = tvals(input);
        let istr = strides(input.shape());
        let mut out = vec![0f32; n * c * oh * ow];
        let mut o = 0usize;
        for ni in 0..n {
            for ci in 0..c {
                for hi in 0..oh {
                    for wi in 0..ow {
                        let mut best = f32::NEG_INFINITY;
                        for kh in 0..kernel_size {
                            for kw in 0..kernel_size {
                                let v = iv[ni * istr[0] + ci * istr[1] + (hi * stride + kh) * istr[2] + wi * stride + kw];
                                if v > best {
                                    best = v;
                                }
                            }
                        }
                        out[o] = best;
                        o += 1;
                    }
                }
            }
        }
        Ok(tfrom(&out, &[n, c, oh, ow]))
    }

    fn max_pool2d_backward(
        &self,
        input: &Tensor,
        grad_output: &Tensor,
        kernel_size: usize,
        stride: usize,
    ) -> GPResult<Tensor> {
        if input.ndim() != 4 || grad_output.ndim() != 4 || stride == 0 || kernel_size == 0 {
            return Err(shape_error(input, grad_output));
        }
        let (n, c, h, w) = (input.shape()[0], input.shape()[1], input.shape()[2], input.shape()[3]);
        if h < kernel_size || w < kernel_size {
            return Err(shape_error(input, input));
        }
        let (oh, ow) = (grad_output.shape()[2], grad_output.shape()[3]);
        let iv = tvals(input);
        let gv = tvals(grad_output);
        let istr = strides(input.shape());
        let gstr = strides(grad_output.shape());
        let mut gi = vec![0f32; iv.len()];
        for ni in 0..n {
            for ci in 0..c {
                for hi in 0..oh {
                    for wi in 0..ow {
                        let g = gv[ni * gstr[0] + ci * gstr[1] + hi * gstr[2] + wi];
                        let mut best = f32::NEG_INFINITY;
                        let mut best_idx = 0usize;
                        for kh in 0..kernel_size {
                            for kw in 0..kernel_size {
                                let idx = ni * istr[0] + ci * istr[1] + (hi * stride + kh) * istr[2] + wi * stride + kw;
                                if iv[idx] > best {
                                    best = iv[idx];
                                    best_idx = idx;
                                }
                            }
                        }
                        gi[best_idx] += g;
                    }
                }
            }
        }
        Ok(tfrom(&gi, input.shape()))
    }

    fn add(&self, a: &Tensor, b: &Tensor) -> GPResult<Tensor> {
        let out = self.add_vals(a, b)?;
        Ok(tfrom(&out, a.shape()))
    }

    fn add_into(&self, a: &Tensor, b: &Tensor, out: &mut Tensor) -> GPResult<()> {
        if a.shape() != b.shape() || out.shape() != a.shape() {
            return Err(shape_error(a, b));
        }
        let r = self.add(a, b)?;
        out.copy_from(&r)
    }

    fn relu(&self, x: &Tensor) -> GPResult<Tensor> {
        Ok(elementwise(x, |v| if v < 0.0 { 0.0 } else { v }))
    }

    fn relu_inplace(&self, x: &mut Tensor) -> GPResult<()> {
        let r = elementwise(x, |v| if v < 0.0 { 0.0 } else { v });
        x.copy_from(&r)
    }

    fn sigmoid(&self, x: &Tensor) -> GPResult<Tensor> {
        Ok(elementwise(x, |v| 1.0 / (1.0 + (-v).exp())))
    }

    fn sigmoid_inplace(&self, x: &mut Tensor) -> GPResult<()> {
        let r = elementwise(x, |v| 1.0 / (1.0 + (-v).exp()));
        x.copy_from(&r)
    }

    fn tanh(&self, x: &Tensor) -> GPResult<Tensor> {
        Ok(elementwise(x, |v| v.tanh()))
    }

    fn tanh_inplace(&self, x: &mut Tensor) -> GPResult<()> {
        let r = elementwise(x, |v| v.tanh());
        x.copy_from(&r)
    }

    fn relu_backward(&self, input: &Tensor, grad_output: &Tensor) -> GPResult<Tensor> {
        if input.shape() != grad_output.shape() {
            return Err(shape_error(input, grad_output));
        }
        let iv = tvals(input);
        let gv = tvals(grad_output);
        let out: Vec<f32> = iv
            .iter()
            .zip(gv.iter())
            .map(|(&i, &g)| if i <= 0.0 { 0.0 } else { g })
            .collect();
        Ok(tfrom(&out, grad_output.shape()))
    }

    fn sigmoid_backward(&self, output: &Tensor, grad_output: &Tensor) -> GPResult<Tensor> {
        if output.shape() != grad_output.shape() {
            return Err(shape_error(output, grad_output));
        }
        let ov = tvals(output);
        let gv = tvals(grad_output);
        let out: Vec<f32> = ov.iter().zip(gv.iter()).map(|(&s, &g)| g * s * (1.0 - s)).collect();
        Ok(tfrom(&out, grad_output.shape()))
    }

    fn tanh_backward(&self, output: &Tensor, grad_output: &Tensor) -> GPResult<Tensor> {
        if output.shape() != grad_output.shape() {
            return Err(shape_error(output, grad_output));
        }
        let ov = tvals(output);
        let gv = tvals(grad_output);
        let out: Vec<f32> = ov.iter().zip(gv.iter()).map(|(&t, &g)| g * (1.0 - t * t)).collect();
        Ok(tfrom(&out, grad_output.shape()))
    }

    fn add_relu(&self, a: &Tensor, b: &Tensor) -> GPResult<Tensor> {
        let sum = self.add(a, b)?;
        self.relu(&sum)
    }

    fn reduce_sum(&self, input: &Tensor, axes: &Vec<usize>, keep_dims: bool) -> GPResult<Tensor> {
        if !keep_dims {
            return Err(GPError::NotImplemented("reduce without kept dims".to_string()));
        }
        let dims = input.shape().to_vec();
        if axes.iter().any(|&ax| ax >= dims.len()) {
            return Err(GPError::TensorError("axis out of range".to_string()));
        }
        let mut out_dims = dims.clone();
        for &ax in axes.iter() {
            out_dims[ax] = 1;
        }
        let in_str = strides(&dims);
        let out_str = strides(&out_dims);
        let iv = tvals(input);
        let total: usize = out_dims.iter().product();
        let mut out = vec![0f32; total];
        for (flat, &v) in iv.iter().enumerate() {
            let mut o = 0usize;
            for k in 0..dims.len() {
                let coord = (flat / in_str[k]) % dims[k];
                let c = if out_dims[k] == 1 { 0 } else { coord };
                o += c * out_str[k];
            }
            out[o] += v;
        }
        Ok(tfrom(&out, &out_dims))
    }

    fn update_parameter(&self, param: &mut Tensor, grad: &Tensor, lr_bits: u32) -> GPResult<()> {
        if param.shape() != grad.shape() {
            return Err(shape_error(param, grad));
        }
        let lr = f32::from_bits(lr_bits);
        let pv = tvals(param);
        let gv = tvals(grad);
        let out: Vec<f32> = pv.iter().zip(gv.iter()).map(|(&p, &g)| p - lr * g).collect();
        let r = tfrom(&out, grad.shape());
        param.copy_from(&r)
    }
}

/// A user-defined operation: elementwise addition routed through the
/// backend, with its own byte encoding so that it survives persistence.
#[derive(Debug, Clone, PartialEq)]
struct CustomAddOp;

impl OpLabel for CustomAddOp {
    fn name(&self) -> &str {
        "CustomAdd"
    }
}

impl Operation<CpuBackend> for CustomAddOp {
    fn forward_shape_law(&self) {
    }
    fn backward_shape_law(&self) {
    }
    fn codec_law(&self) {
    }

    fn forward(&self, inputs: &Vec<Tensor>, backend: &CpuBackend) -> GPResult<Tensor> {
        backend.add(&inputs[0], &inputs[1])
    }

    fn backward(
        &self,
        _inputs: &Vec<Tensor>,
        grad_output: &Tensor,
        _backend: &CpuBackend,
    ) -> GPResult<Vec<Tensor>> {
        Ok(vec![grad_output.clone(), grad_output.clone()])
    }

    fn output_shape(&self, input_shapes: &Vec<Vec<usize>>) -> GPResult<Vec<usize>> {
        Ok(input_shapes[0].clone())
    }

    fn encode(&self) -> Vec<u8> {
        vec![77u8]
    }

    fn decode(bytes: &Vec<u8>) -> GPResult<CustomAddOp> {
        if bytes.len() == 1 && bytes[0] == 77 {
            Ok(CustomAddOp)
        } else {
            Err(GPError::SerializationError("unknown custom operation".to_string()))
        }
    }
}

type G = Graph<CpuBackend, CustomAddOp>;

fn approx(a: f32, b: f32) -> bool {
    (a - b).abs() < 1e-6
}

#[test]
fn test_autograd_simple_chain() {
    let mut graph: G = Graph::new(CpuBackend);
    // y = ReLU(x + w)
    let x = graph.val(tfrom(&[1.0, -2.0], &[1, 2]));
    let w = graph.param(tfrom(&[0.5, 0.5], &[1, 2]));
    let sum = graph.add(x, w);
    let out = graph.relu(sum);

    let result = graph.execute(out).unwrap();
    assert_eq!(tvals(&result), vec![1.5, 0.0]);
    assert_eq!(result.shape(), &[1, 2]);

    graph.backward(out, tfrom(&[1.0, 1.0], &[1, 2])).unwrap();

    // grad wrt w: 1.0 for the first element, 0.0 for the second
    let grad_w = graph.get_gradient(w).unwrap();
    assert_eq!(tvals(grad_w), vec![1.0, 0.0]);
}

#[test]
fn test_autograd_matmul() {
    let mut graph: G = Graph::new(CpuBackend);
    // y = x * w
    let x = graph.val(tfrom(&[1.0, 2.0], &[1, 2]));
    let w = graph.param(tfrom(&[0.5, 0.1, 0.2, 0.4], &[2, 2]));
    let out = graph.matmul(x, w);

    graph.execute(out).unwrap();
    graph.backward(out, tfrom(&[1.0, 1.0], &[1, 2])).unwrap();

    // grad wrt w: x^T * grad_out = [[1, 1], [2, 2]]
    let grad_w = graph.get_gradient(w).unwrap();
    assert_eq!(tvals(grad_w), vec![1.0, 1.0, 2.0, 2.0]);
}

#[test]
fn test_branching_and_merging_gradients() {
    let mut graph: G = Graph::new(CpuBackend);
    // y = x + ReLU(x): residual-style fan-out
    let x = graph.param(tfrom(&[-1.0, 2.0], &[1, 2]));
    let path_b = graph.relu(x);
    let y = graph.add(x, path_b);

    let result = graph.execute(y).unwrap();
    assert_eq!(tvals(&result), vec![-1.0, 4.0]);

    graph.backward(y, tfrom(&[1.0, 1.0], &[1, 2])).unwrap();

    // dy/dx = 1 + d(ReLU)/dx: 1 at -1.0, 2 at 2.0
    let grad_x = graph.get_gradient(x).unwrap();
    assert_eq!(tvals(grad_x), vec![1.0, 2.0]);
}

#[test]
fn test_diamond_topology() {
    let mut graph: G = Graph::new(CpuBackend);
    let x = graph.param(tfrom(&[1.0, 1.0], &[1, 2]));
    let a = graph.relu(x);
    let b = graph.sigmoid(x);
    let y = graph.add(a, b);

    graph.execute(y).unwrap();
    graph.backward(y, tfrom(&[1.0, 1.0], &[1, 2])).unwrap();

    // d(ReLU)/dx + d(Sigmoid)/dx at x = 1: 1 + sigmoid(1) * (1 - sigmoid(1))
    let grad_x = graph.get_gradient(x).unwrap();
    let expected_at_1 = 1.0 + 0.7310586 * (1.0 - 0.7310586);
    assert!((tvals(grad_x)[0] - expected_at_1).abs() < 1e-6);
}

#[test]
fn test_deep_sequential_chain() {
    let mut graph: G = Graph::new(CpuBackend);
    let start_node = graph.param(tfrom(&[1.0, -1.0], &[1, 2]));
    let mut curr = start_node;
    for _ in 0..10 {
        curr = graph.relu(curr);
    }

    let res = graph.execute(curr).unwrap();
    assert_eq!(tvals(&res), vec![1.0, 0.0]);

    graph.backward(curr, tfrom(&[1.0, 1.0], &[1, 2])).unwrap();
    let grad = graph.get_gradient(start_node).unwrap();
    assert_eq!(tvals(grad), vec![1.0, 0.0]);
}

#[test]
fn test_kernel_fusion_add_relu() {
    let mut graph: G = Graph::new(CpuBackend);
    let h1 = graph.val(tfrom(&[1.0, -1.0], &[1, 2]));
    let h2 = graph.val(tfrom(&[0.5, 0.5], &[1, 2]));
    let sum = graph.add(h1, h2);
    let out = graph.relu(sum);
    let _ = sum;

    // before optimization, the last node is the rectifier
    assert_eq!(graph.nodes().len(), 4);
    assert!(graph.nodes()[3].op().unwrap().name().contains("ReLU"));

    GraphOptimizer::optimize(&mut graph).unwrap();

    // after optimization the rectifier was rewritten to the fused kernel
    assert!(graph.nodes()[3].op().unwrap().name().contains("Fused"));

    let res = graph.execute(out).unwrap();
    assert_eq!(tvals(&res), vec![1.5, 0.0]);
}

#[test]
fn test_fusion_transparency() {
    // the same graph executed before and after the optimizer yields the
    // same value
    let mut plain: G = Graph::new(CpuBackend);
    let a1 = plain.val(tfrom(&[1.0, -2.0], &[1, 2]));
    let b1 = plain.val(tfrom(&[0.5, 0.5], &[1, 2]));
    let s1 = plain.add(a1, b1);
    let o1 = plain.relu(s1);
    let before = plain.execute(o1).unwrap();

    let mut fused: G = Graph::new(CpuBackend);
    let a2 = fused.val(tfrom(&[1.0, -2.0], &[1, 2]));
    let b2 = fused.val(tfrom(&[0.5, 0.5], &[1, 2]));
    let s2 = fused.add(a2, b2);
    let o2 = fused.relu(s2);
    GraphOptimizer::optimize(&mut fused).unwrap();
    let after = fused.execute(o2).unwrap();

    assert_eq!(tvals(&before), vec![1.5, 0.0]);
    assert_eq!(tvals(&before), tvals(&after));
}

#[test]
fn test_buffer_recycling() {
    let mut graph: G = Graph::new(CpuBackend);
    let x = graph.val(tfrom(&[1.0, 1.0], &[1, 2]));
    let a = graph.relu(x);
    let b = graph.relu(a);
    let c = graph.relu(b);
    let _ = (a, b);

    let _res = graph.execute(c).unwrap();

    let planner = MemoryPlanner::plan(&graph).unwrap();
    assert!(planner.buffer_count > 0);
}

#[test]
fn test_memory_pool_allocation() {
    let mut pool = BufferPool::new(1);
    let shape = vec![2usize, 2];

    let b1 = pool.get_buffer(0, Shape::from_slice(&shape));
    assert_eq!(b1.shape(), &[2, 2]);

    // a mismatched matmul is rejected by static verification
    let mut graph: G = Graph::new(CpuBackend);
    let x = graph.val(tfrom(&[1.0, 2.0, 3.0], &[1, 3]));
    let w = graph.val(tfrom(&[0.1, 0.1, 0.1, 0.1], &[2, 2]));
    let _out = graph.matmul(x, w);

    let res = Verifier::verify(&graph);
    assert!(res.is_err());
    assert!(res.unwrap_err().message().contains("Shape mismatch"));
}

#[test]
fn test_memory_collision_safety() {
    let mut graph: G = Graph::new(CpuBackend);
    let x = graph.val(tfrom(&[1.0, 1.0], &[1, 2]));
    let a = graph.relu(x);
    let b = graph.sigmoid(x);
    let c = graph.add(a, b);
    let _d = graph.relu(c);

    let plan = MemoryPlanner::plan(&graph).unwrap();

    // nodes 1 and 2 are both consumed by node 3: buffers must differ
    let buffer_a = plan.plan[a.0].unwrap();
    let buffer_b = plan.plan[b.0].unwrap();
    assert_ne!(buffer_a, buffer_b, "Simultaneous buffers must be distinct");
}

#[test]
fn test_verifier_large_dimension_safety() {
    let mut graph: G = Graph::new(CpuBackend);
    let x = graph.val(tfrom(&vec![0.0; 100 * 50], &[100, 50]));
    let w = graph.val(tfrom(&vec![0.0; 40 * 100], &[40, 100]));
    let _out = graph.matmul(x, w);

    let res = Verifier::verify(&graph);
    assert!(res.is_err());
}

#[test]
fn test_verifier_accepts_consistent_graph() {
    let mut graph: G = Graph::new(CpuBackend);
    let x = graph.val(tfrom(&[1.0, 2.0], &[1, 2]));
    let w = graph.param(tfrom(&[0.5, 0.1, 0.2, 0.4], &[2, 2]));
    let m = graph.matmul(x, w);
    let out = graph.relu(m);

    let shapes = Verifier::verify(&graph).unwrap();
    assert_eq!(shapes.len(), 4);
    assert_eq!(shapes[m.0], vec![1, 2]);
    assert_eq!(shapes[out.0], vec![1, 2]);
}

#[test]
fn test_xor_convergence_dynamics() {
    let mut graph: G = Graph::new(CpuBackend);
    let x_in = graph.val(tfrom(&[0.0, 0.0], &[1, 2]));

    let w1 = graph.param(tfrom(&vec![0.5; 8], &[2, 4]));
    let b1 = graph.param(tfrom(&vec![0.0; 4], &[1, 4]));
    let h1 = graph.linear(x_in, w1, b1);
    let a1 = graph.sigmoid(h1);

    let w2 = graph.param(tfrom(&vec![0.5; 4], &[4, 1]));
    let b2 = graph.param(tfrom(&[0.0], &[1, 1]));
    let h2 = graph.linear(a1, w2, b2);
    let out = graph.sigmoid(h2);

    let _ = graph.execute(out).unwrap();
    graph.backward(out, tfrom(&[1.0], &[1, 1])).unwrap();

    assert!(graph.get_gradient(w1).is_some());
    assert!(graph.get_gradient(w2).is_some());
    assert!(graph.get_gradient(b1).is_some());
    assert!(graph.get_gradient(b2).is_some());
}

#[test]
fn test_dsl_macros() {
    let mut graph: G = Graph::new(CpuBackend);
    let x = graph.val(tfrom(&[1.0, 2.0], &[1, 2]));
    let w = graph.param(tfrom(&[0.5, 0.1, 0.2, 0.4], &[2, 2]));
    let b = graph.param(tfrom(&[0.1, 0.1], &[1, 2]));
    let target = graph.linear(x, w, b);

    let result = graph.execute(target).unwrap();
    // x * w + b = [[0.9 + 0.1, 0.9 + 0.1]]
    assert_eq!(tvals(&result), vec![1.0, 1.0]);
}

#[test]
fn test_multilayer_gradient_flow() {
    let mut graph: G = Graph::new(CpuBackend);
    let x = graph.val(tfrom(&vec![1.0; 2], &[1, 2]));

    let w1 = graph.param(tfrom(&vec![0.1; 16], &[2, 8]));
    let b1 = graph.param(tfrom(&vec![0.0; 8], &[1, 8]));
    let l1 = graph.matmul(x, w1);
    let l1 = graph.add(l1, b1);
    let a1 = graph.tanh(l1);

    let w2 = graph.param(tfrom(&vec![0.1; 32], &[8, 4]));
    let b2 = graph.param(tfrom(&vec![0.0; 4], &[1, 4]));
    let l2 = graph.matmul(a1, w2);
    let l2 = graph.add(l2, b2);
    let a2 = graph.tanh(l2);

    let w3 = graph.param(tfrom(&vec![0.1; 4], &[4, 1]));
    let b3 = graph.param(tfrom(&[0.0], &[1, 1]));
    let l3 = graph.matmul(a2, w3);
    let out = graph.add(l3, b3);

    let result = graph.execute(out).unwrap();
    // gradient of a sigmoid-with-logits loss against a unit target
    let pred = tvals(&result)[0];
    let sig = 1.0 / (1.0 + (-pred).exp());
    let grad_out = tfrom(&[sig - 1.0], &[1, 1]);

    graph.backward(out, grad_out).unwrap();

    let sum_abs = |id: NodeId| -> f32 {
        tvals(graph.get_gradient(id).expect("gradient missing"))
            .iter()
            .map(|v| v.abs())
            .sum()
    };
    assert!(sum_abs(w3) > 0.0, "W3 gradient is zero");
    assert!(sum_abs(w2) > 0.0, "W2 gradient is zero");
    assert!(sum_abs(w1) > 0.0, "W1 gradient is zero");

    // connectivity: overwriting the first weight changes the output
    let val1 = tvals(&graph.execute(out).unwrap())[0];
    graph.set_param(w1, tfrom(&vec![1.1; 16], &[2, 8])).unwrap();
    let val2 = tvals(&graph.execute(out).unwrap())[0];
    assert_ne!(val1, val2, "output did not change after overwriting a weight");
}

#[test]
fn test_multilayer_backprop_flow() {
    let mut graph: G = Graph::new(CpuBackend);
    let input_id = graph.val(tfrom(&[1.0, -1.0], &[1, 2]));

    let w1 = graph.param(tfrom(&[0.3, -0.2, 0.4, 0.1, -0.5, 0.2, 0.6, -0.1], &[2, 4]));
    let b1 = graph.param(tfrom(&vec![0.0; 4], &[1, 4]));
    let l1_matmul = graph.matmul(input_id, w1);
    let l1_add = graph.add(l1_matmul, b1);
    let l1_out = graph.tanh(l1_add);

    let w2 = graph.param(tfrom(&[0.7, -0.3, 0.2, 0.5], &[4, 1]));
    let b2 = graph.param(tfrom(&[0.0], &[1, 1]));
    let l2_matmul = graph.matmul(l1_out, w2);
    let output_node = graph.add(l2_matmul, b2);

    let pred = graph.execute(output_node).unwrap();
    let logits = tvals(&pred)[0];
    let sig = 1.0 / (1.0 + (-logits).exp());
    let grad_output = tfrom(&[sig - 1.0], &[1, 1]);

    graph.backward(output_node, grad_output).unwrap();

    let w2_grad = graph.get_gradient(w2).expect("W2 should have gradient");
    let w2_sum: f32 = tvals(w2_grad).iter().map(|x| x.abs()).sum();
    assert!(w2_sum > 0.0, "W2 (Output Layer) gradient is zero!");

    let w1_grad = graph.get_gradient(w1).expect("W1 should have gradient");
    let w1_sum: f32 = tvals(w1_grad).iter().map(|x| x.abs()).sum();
    assert!(w1_sum > 0.0, "W1 (Hidden Layer) gradient is zero! Signal lost at layer 2.");
}

#[test]
fn test_full_persistence_with_custom_op() {
    let mut graph: G = Graph::new(CpuBackend);
    let x = graph.val(tfrom(&[1.0, 1.0], &[1, 2]));
    let y = graph.val(tfrom(&[2.0, 2.0], &[1, 2]));
    let node = graph.op(OpType::Custom(CustomAddOp), vec![x, y]);

    let result = graph.execute(node).unwrap();
    assert_eq!(tvals(&result), vec![3.0, 3.0]);

    let bytes = encode_graph(&graph);
    let mut new_graph: G = decode_graph(&bytes).unwrap();
    new_graph.set_backend(CpuBackend);

    let result_loaded = new_graph.execute(node).unwrap();
    assert_eq!(tvals(&result_loaded), vec![3.0, 3.0]);
}

#[test]
fn test_persistence_round_trip_builtins() {
    let mut graph: G = Graph::new(CpuBackend);
    let x = graph.val(tfrom(&[1.0, 2.0], &[1, 2]));
    let w = graph.param(tfrom(&[0.5, 0.1, 0.2, 0.4], &[2, 2]));
    let m = graph.matmul(x, w);
    let out = graph.relu(m);
    let before = graph.execute(out).unwrap();

    let bytes = encode_graph(&graph);
    let mut reloaded: G = decode_graph(&bytes).unwrap();

    // a reloaded graph has no backend attached: execution must fail cleanly
    assert!(matches!(reloaded.execute(out), Err(GPError::BackendNotInitialized)));

    reloaded.set_backend(CpuBackend);
    let after = reloaded.execute(out).unwrap();
    assert_eq!(tvals(&before), tvals(&after));
    assert_eq!(before.shape(), after.shape());
}

#[test]
fn test_cycle_rejection() {
    let mut graph: G = Graph::new(CpuBackend);
    // two rectifiers referencing each other: a forced back-reference
    let n0 = graph.op(OpType::ReLU, vec![NodeId(1)]);
    let _n1 = graph.op(OpType::ReLU, vec![NodeId(0)]);

    let res = graph.topological_sort(n0);
    assert!(res.is_err());
    assert!(res.unwrap_err().message().contains("Cycle"));

    // execution surfaces the same structural failure
    assert!(graph.execute(n0).is_err());
}

#[test]
fn test_reexecution_returns_identical_result() {
    let mut graph: G = Graph::new(CpuBackend);
    let x = graph.val(tfrom(&[1.0, -2.0], &[1, 2]));
    let w = graph.param(tfrom(&[0.5, 0.5], &[1, 2]));
    let sum = graph.add(x, w);
    let out = graph.relu(sum);
    let _ = sum;

    let first = graph.execute(out).unwrap();
    let second = graph.execute(out).unwrap();
    assert_eq!(tvals(&first), tvals(&second));
    assert_eq!(first.shape(), second.shape());
}

#[test]
fn test_planning_is_transparent() {
    let mut without: G = Graph::new(CpuBackend);
    let x1 = without.val(tfrom(&[1.0, -2.0], &[1, 2]));
    let w1 = without.param(tfrom(&[0.5, 0.5], &[1, 2]));
    let s1 = without.add(x1, w1);
    let o1 = without.relu(s1);
    let plain = without.execute(o1).unwrap();

    let mut with_plan: G = Graph::new(CpuBackend);
    let x2 = with_plan.val(tfrom(&[1.0, -2.0], &[1, 2]));
    let w2 = with_plan.param(tfrom(&[0.5, 0.5], &[1, 2]));
    let s2 = with_plan.add(x2, w2);
    let o2 = with_plan.relu(s2);
    with_plan.plan_memory().unwrap();
    let planned = with_plan.execute(o2).unwrap();

    assert_eq!(tvals(&plain), tvals(&planned));
}

#[test]
fn test_broadcast_bias_gradient() {
    let mut graph: G = Graph::new(CpuBackend);
    // a [1, 2] tensor plus a [1, 1] bias, broadcast across the row
    let x = graph.val(tfrom(&[1.0, 2.0], &[1, 2]));
    let bias = graph.param(tfrom(&[0.5], &[1, 1]));
    let out = graph.add(x, bias);

    let result = graph.execute(out).unwrap();
    assert_eq!(tvals(&result), vec![1.5, 2.5]);

    graph.backward(out, tfrom(&[1.0, 2.0], &[1, 2])).unwrap();

    // the bias gradient folds back to the pre-broadcast shape: the sum of
    // both gradient elements
    let grad_bias = graph.get_gradient(bias).unwrap();
    assert_eq!(grad_bias.shape(), &[1, 1]);
    assert_eq!(tvals(grad_bias), vec![3.0]);
}

#[test]
fn test_update_parameters_applies_descent_step() {
    let mut graph: G = Graph::new(CpuBackend);
    let x = graph.val(tfrom(&[1.0, 1.0], &[1, 2]));
    let w = graph.param(tfrom(&[0.5, -0.5], &[1, 2]));
    let out = graph.add(x, w);

    graph.execute(out).unwrap();
    graph.backward(out, tfrom(&[1.0, 1.0], &[1, 2])).unwrap();
    graph.update_parameters(0.1f32.to_bits()).unwrap();

    // param -= lr * grad, with grad = [1, 1]
    match &graph.nodes()[w.0] {
        Node::Param(t) => {
            let vals = tvals(t);
            assert!(approx(vals[0], 0.4) && approx(vals[1], -0.6));
        }
        _ => panic!("expected a parameter node"),
    }

    // the refreshed parameter feeds the next forward pass
    let rerun = graph.execute(out).unwrap();
    assert!(approx(tvals(&rerun)[0], 1.4) && approx(tvals(&rerun)[1], 0.4));
}

#[test]
fn test_backend_not_initialized_error() {
    let mut graph: G = Graph::from_nodes(vec![Node::Input(tfrom(&[1.0], &[1, 1]))]);
    let res = graph.execute(NodeId(0));
    assert!(matches!(res, Err(GPError::BackendNotInitialized)));
}

#[test]
fn test_value_not_found_error() {
    let mut graph: G = Graph::new(CpuBackend);
    // an operation pointing at itself is rejected as a cycle
    let n = graph.op(OpType::ReLU, vec![NodeId(0)]);
    let res = graph.execute(n);
    assert!(res.is_err());
}

#[test]
fn test_tensor_shape_mismatch_error() {
    let r = Tensor::from_bits(vec![0u32; 3], vec![2, 2]);
    assert!(matches!(r, Err(GPError::IncompatibleShapes { .. })));
}

#[test]
fn test_clear_gradients_resets_accumulation() {
    let mut graph: G = Graph::new(CpuBackend);
    let x = graph.val(tfrom(&[1.0, 1.0], &[1, 2]));
    let w = graph.param(tfrom(&[0.5, 0.5], &[1, 2]));
    let out = graph.add(x, w);

    graph.execute(out).unwrap();
    graph.backward(out, tfrom(&[1.0, 1.0], &[1, 2])).unwrap();
    assert_eq!(tvals(graph.get_gradient(w).unwrap()), vec![1.0, 1.0]);

    // a second backward pass accumulates: the target's slot still holds the
    // first pass's gradient, so the new seed joins it before propagating
    graph.backward(out, tfrom(&[1.0, 1.0], &[1, 2])).unwrap();
    assert_eq!(tvals(graph.get_gradient(w).unwrap()), vec![3.0, 3.0]);

    graph.clear_gradients();
    assert!(graph.get_gradient(w).is_none());
}

#[test]
fn test_cpu_matmul() {
    let backend = CpuBackend;
    let a = tfrom(&[1.0, 2.0, 3.0, 4.0], &[2, 2]);
    let b = tfrom(&[5.0, 6.0, 7.0, 8.0], &[2, 2]);
    let res = backend.matmul_t(&a, &b, false, false).unwrap();
    assert_eq!(tvals(&res), vec![19.0, 22.0, 43.0, 50.0]);
}

#[test]
fn test_cpu_sigmoid() {
    let backend = CpuBackend;
    let x = tfrom(&[0.0, 1.0], &[1, 2]);
    let res = backend.sigmoid(&x).unwrap();
    let vals = tvals(&res);
    assert!((vals[0] - 0.5).abs() < 1e-6);
    assert!((vals[1] - 0.7310586).abs() < 1e-6);
}

#[test]
fn test_cpu_relu() {
    let backend = CpuBackend;
    let x = tfrom(&[-1.0, 2.0, 0.0], &[1, 3]);
    let res = backend.relu(&x).unwrap();
    assert_eq!(tvals(&res), vec![0.0, 2.0, 0.0]);
}

#[test]
fn test_cpu_add_relu_fused() {
    let backend = CpuBackend;
    let a = tfrom(&[-1.0, 1.0], &[1, 2]);
    let b = tfrom(&[-1.0, 1.0], &[1, 2]);
    let res = backend.add_relu(&a, &b).unwrap();
    assert_eq!(tvals(&res), vec![0.0, 2.0]);
}

/// A backend that counts allocating kernel calls, to observe buffer reuse.
#[derive(Debug)]
struct CountingBackend {
    inner: CpuBackend,
    allocations: std::rc::Rc<Cell<usize>>,
}

impl Backend for CountingBackend {
    fn matmul_law(_a: TensorView, _b: TensorView, _ta: bool, _tb: bool) {
    }
    fn add_law(_a: TensorView, _b: TensorView) {
    }
    fn activation_law(_x: TensorView) {
    }
    fn activation_backward_law(_x: TensorView, _g: TensorView) {
    }
    fn add_relu_law(_a: TensorView, _b: TensorView) {
    }
    fn conv2d_law(_i: TensorView, _w: TensorView, _s: usize, _p: usize) {
    }
    fn conv2d_backward_law(_i: TensorView, _w: TensorView, _g: TensorView, _s: usize, _p: usize) {
    }
    fn max_pool2d_law(_i: TensorView, _k: usize, _s: usize) {
    }
    fn max_pool2d_backward_law(_i: TensorView, _g: TensorView, _k: usize, _s: usize) {
    }
    fn reduce_sum_law(_i: TensorView) {
    }
    fn update_parameter_law(_p: TensorView, _g: TensorView, _lr: u32) {
    }

    fn matmul_t(&self, a: &Tensor, b: &Tensor, ta: bool, tb: bool) -> GPResult<Tensor> {
        self.allocations.set(self.allocations.get() + 1);
        self.inner.matmul_t(a, b, ta, tb)
    }
    fn matmul_into(&self, a: &Tensor, b: &Tensor, ta: bool, tb: bool, out: &mut Tensor) -> GPResult<()> {
        self.inner.matmul_into(a, b, ta, tb, out)
    }
    fn conv2d(&self, i: &Tensor, w: &Tensor, s: usize, p: usize) -> GPResult<Tensor> {
        self.inner.conv2d(i, w, s, p)
    }
    fn conv2d_backward(&self, i: &Tensor, w: &Tensor, g: &Tensor, s: usize, p: usize) -> GPResult<(Tensor, Tensor)> {
        self.inner.conv2d_backward(i, w, g, s, p)
    }
    fn max_pool2d(&self, i: &Tensor, k: usize, s: usize) -> GPResult<Tensor> {
        self.inner.max_pool2d(i, k, s)
    }
    fn max_pool2d_backward(&self, i: &Tensor, g: &Tensor, k: usize, s: usize) -> GPResult<Tensor> {
        self.inner.max_pool2d_backward(i, g, k, s)
    }
    fn add(&self, a: &Tensor, b: &Tensor) -> GPResult<Tensor> {
        self.allocations.set(self.allocations.get() + 1);
        self.inner.add(a, b)
    }
    fn add_into(&self, a: &Tensor, b: &Tensor, out: &mut Tensor) -> GPResult<()> {
        self.inner.add_into(a, b, out)
    }
    fn relu(&self, x: &Tensor) -> GPResult<Tensor> {
        self.allocations.set(self.allocations.get() + 1);
        self.inner.relu(x)
    }
    fn relu_inplace(&self, x: &mut Tensor) -> GPResult<()> {
        self.inner.relu_inplace(x)
    }
    fn sigmoid(&self, x: &Tensor) -> GPResult<Tensor> {
        self.allocations.set(self.allocations.get() + 1);
        self.inner.sigmoid(x)
    }
    fn sigmoid_inplace(&self, x: &mut Tensor) -> GPResult<()> {
        self.inner.sigmoid_inplace(x)
    }
    fn tanh(&self, x: &Tensor) -> GPResult<Tensor> {
        self.allocations.set(self.allocations.get() + 1);
        self.inner.tanh(x)
    }
    fn tanh_inplace(&self, x: &mut Tensor) -> GPResult<()> {
        self.inner.tanh_inplace(x)
    }
    fn relu_backward(&self, i: &Tensor, g: &Tensor) -> GPResult<Tensor> {
        self.inner.relu_backward(i, g)
    }
    fn sigmoid_backward(&self, o: &Tensor, g: &Tensor) -> GPResult<Tensor> {
        self.inner.sigmoid_backward(o, g)
    }
    fn tanh_backward(&self, o: &Tensor, g: &Tensor) -> GPResult<Tensor> {
        self.inner.tanh_backward(o, g)
    }
    fn add_relu(&self, a: &Tensor, b: &Tensor) -> GPResult<Tensor> {
        self.allocations.set(self.allocations.get() + 1);
        self.inner.add_relu(a, b)
    }
    fn reduce_sum(&self, i: &Tensor, axes: &Vec<usize>, k: bool) -> GPResult<Tensor> {
        self.inner.reduce_sum(i, axes, k)
    }
    fn update_parameter(&self, p: &mut Tensor, g: &Tensor, lr: u32) -> GPResult<()> {
        self.inner.update_parameter(p, g, lr)
    }
}

#[derive(Debug, Clone, PartialEq)]
struct NoCustom;

impl OpLabel for NoCustom {
    fn name(&self) -> &str {
        "NoCustom"
    }
}

impl Operation<CountingBackend> for NoCustom {
    fn forward_shape_law(&self) {
    }
    fn backward_shape_law(&self) {
    }
    fn codec_law(&self) {
    }

    fn forward(&self, _i: &Vec<Tensor>, _b: &CountingBackend) -> GPResult<Tensor> {
        Err(GPError::NotImplemented("no custom operation".to_string()))
    }
    fn backward(&self, _i: &Vec<Tensor>, _g: &Tensor, _b: &CountingBackend) -> GPResult<Vec<Tensor>> {
        Err(GPError::NotImplemented("no custom operation".to_string()))
    }
    fn output_shape(&self, _s: &Vec<Vec<usize>>) -> GPResult<Vec<usize>> {
        Err(GPError::NotImplemented("no custom operation".to_string()))
    }
    fn encode(&self) -> Vec<u8> {
        vec![0u8]
    }
    fn decode(bytes: &Vec<u8>) -> GPResult<NoCustom> {
        if bytes.len() == 1 && bytes[0] == 0 {
            Ok(NoCustom)
        } else {
            Err(GPError::SerializationError("unknown custom operation".to_string()))
        }
    }
}

#[test]
fn test_reexecution_reuses_buffers() {
    let counter = std::rc::Rc::new(Cell::new(0usize));
    let backend = CountingBackend { inner: CpuBackend, allocations: counter.clone() };
    let mut graph: Graph<CountingBackend, NoCustom> = Graph::new(backend);
    let x = graph.val(tfrom(&[1.0, -2.0], &[1, 2]));
    let w = graph.param(tfrom(&[0.5, 0.5], &[1, 2]));
    let sum = graph.add(x, w);
    let out = graph.relu(sum);
    let _ = (x, w, sum);

    let first = graph.execute(out).unwrap();
    let after_first = counter.get();
    assert!(after_first > 0);

    // the second run writes into the cached buffers: identical result, no
    // further allocating kernel calls
    let second = graph.execute(out).unwrap();
    assert_eq!(counter.get(), after_first);
    assert_eq!(tvals(&first), tvals(&second));
}

#[test]
fn test_decode_rejects_malformed_bytes() {
    let garbage = vec![9u8, 9, 9];
    let r: GPResult<G> = decode_graph(&garbage);
    assert!(matches!(r, Err(GPError::SerializationError(_))));
}

#[test]
fn test_decode_rejects_trailing_bytes() {
    let mut graph: G = Graph::new(CpuBackend);
    let x = graph.val(tfrom(&[1.0, 2.0], &[1, 2]));
    let _r = graph.relu(x);
    let mut bytes = encode_graph(&graph);
    let intact: GPResult<G> = decode_graph(&bytes);
    assert!(intact.is_ok());
    bytes.push(0u8);
    let r: GPResult<G> = decode_graph(&bytes);
    assert!(matches!(r, Err(GPError::SerializationError(_))));
}

#[test]
fn test_decode_empty_graph() {
    let graph: G = Graph::new(CpuBackend);
    let bytes = encode_graph(&graph);
    let back: G = decode_graph(&bytes).unwrap();
    assert_eq!(encode_graph(&back), bytes);
}

#[test]
fn test_set_param_rejects_non_parameter() {
    let mut graph: G = Graph::new(CpuBackend);
    let x = graph.val(tfrom(&[1.0], &[1, 1]));
    let r = graph.set_param(x, tfrom(&[2.0], &[1, 1]));
    assert!(matches!(r, Err(GPError::InferenceError(_))));

    let w = graph.param(tfrom(&[1.0], &[1, 1]));
    assert!(graph.set_param(w, tfrom(&[2.0], &[1, 1])).is_ok());
}

#[test]
fn test_memory_plan_accessor() {
    let mut graph: G = Graph::new(CpuBackend);
    let x = graph.val(tfrom(&[1.0, 1.0], &[1, 2]));
    let _r = graph.relu(x);
    assert!(graph.memory_plan().is_none());
    graph.plan_memory().unwrap();
    let plan = graph.memory_plan().as_ref().unwrap();
    assert_eq!(plan.plan.len(), 2);
}

#[test]
fn test_execute_single_node_steps() {
    let mut graph: G = Graph::new(CpuBackend);
    let x = graph.val(tfrom(&[1.0, -2.0], &[1, 2]));
    let w = graph.param(tfrom(&[0.5, 0.5], &[1, 2]));
    let sum = graph.add(x, w);

    // an operation cannot step before its inputs are materialized
    assert!(graph.execute_single_node(sum).is_err());

    graph.execute_single_node(x).unwrap();
    graph.execute_single_node(w).unwrap();
    graph.execute_single_node(sum).unwrap();
    match &graph.values()[sum.0] {
        Some(t) => assert_eq!(tvals(t), vec![1.5, -1.5]),
        None => panic!("value missing after stepping"),
    }
}

#[test]
fn test_conv2d_autograd_complex() {
    let input_vals: Vec<f32> = (1..=16).map(|v| v as f32).collect();
    let weight_vals = vec![1.0f32; 9];
    let stride = 2;
    let padding = 1;
    let grad_out = tfrom(&vec![1.0; 4], &[1, 1, 2, 2]);

    let mut graph: G = Graph::new(CpuBackend);
    let x = graph.val(tfrom(&input_vals, &[1, 1, 4, 4]));
    let w = graph.param(tfrom(&weight_vals, &[1, 1, 3, 3]));
    let conv = graph.conv2d(x, w, stride, padding);

    let output = graph.execute(conv).unwrap();
    assert_eq!(output.shape(), &[1, 1, 2, 2]);

    graph.backward(conv, grad_out.clone()).unwrap();
    let grad_input = tvals(graph.get_gradient(x).unwrap());
    let grad_weight = tvals(graph.get_gradient(w).unwrap());

    // numerical gradient check against one weight and one input element
    let eps = 1e-4f32;
    let loss = |ivals: &[f32], wvals: &[f32]| -> f32 {
        let mut g: G = Graph::new(CpuBackend);
        let xi = g.val(tfrom(ivals, &[1, 1, 4, 4]));
        let wi = g.param(tfrom(wvals, &[1, 1, 3, 3]));
        let c = g.conv2d(xi, wi, stride, padding);
        let out = g.execute(c).unwrap();
        tvals(&out).iter().zip(tvals(&grad_out).iter()).map(|(k, v)| k * v).sum()
    };

    // weight element [0, 0, 1, 1] sits at flat index 4
    let mut w_plus = weight_vals.clone();
    w_plus[4] += eps;
    let mut w_minus = weight_vals.clone();
    w_minus[4] -= eps;
    let numerical_grad_w = (loss(&input_vals, &w_plus) - loss(&input_vals, &w_minus)) / (2.0 * eps);
    let diff = (grad_weight[4] - numerical_grad_w).abs();
    assert!(diff < 5e-2, "weight gradient mismatch: {} vs {}", grad_weight[4], numerical_grad_w);

    // input element [0, 0, 1, 1] sits at flat index 5
    let mut x_plus = input_vals.clone();
    x_plus[5] += eps;
    let mut x_minus = input_vals.clone();
    x_minus[5] -= eps;
    let numerical_grad_x = (loss(&x_plus, &weight_vals) - loss(&x_minus, &weight_vals)) / (2.0 * eps);
    let diff_x = (grad_input[5] - numerical_grad_x).abs();
    assert!(diff_x < 5e-2, "input gradient mismatch: {} vs {}", grad_input[5], numerical_grad_x);
}

#[test]
fn test_max_pool2d_autograd_complex() {
    let input_vals: Vec<f32> = (1..=16).map(|v| v as f32).collect();
    let grad_out = tfrom(&vec![1.0; 9], &[1, 1, 3, 3]);

    let mut graph: G = Graph::new(CpuBackend);
    let x = graph.val(tfrom(&input_vals, &[1, 1, 4, 4]));
    // stride 1, window 2: output 3x3
    let pool = graph.max_pool2d(x, 2, 1);

    let output = graph.execute(pool).unwrap();
    assert_eq!(output.shape(), &[1, 1, 3, 3]);

    graph.backward(pool, grad_out.clone()).unwrap();
    let grad_input = tvals(graph.get_gradient(x).unwrap());

    // numerical gradient check against input element [0, 0, 1, 1] (flat 5)
    let eps = 1e-4f32;
    let loss = |ivals: &[f32]| -> f32 {
        let mut g: G = Graph::new(CpuBackend);
        let xi = g.val(tfrom(ivals, &[1, 1, 4, 4]));
        let p = g.max_pool2d(xi, 2, 1);
        let out = g.execute(p).unwrap();
        tvals(&out).iter().zip(tvals(&grad_out).iter()).map(|(k, v)| k * v).sum()
    };
    let mut x_plus = input_vals.clone();
    x_plus[5] += eps;
    let mut x_minus = input_vals.clone();
    x_minus[5] -= eps;
    let numerical_grad_x = (loss(&x_plus) - loss(&x_minus)) / (2.0 * eps);
    let diff = (grad_input[5] - numerical_grad_x).abs();
    assert!(diff < 5e-2, "input gradient mismatch: {} vs {}", grad_input[5], numerical_grad_x);
}

#[test]
fn test_verifier_accepts_broadcast_bias() {
    // the one legal coercion: a right operand broadcastable to the left
    let mut graph: G = Graph::new(CpuBackend);
    let x = graph.val(tfrom(&[1.0, 2.0], &[1, 2]));
    let bias = graph.param(tfrom(&[0.5], &[1, 1]));
    let out = graph.add(x, bias);

    let shapes = Verifier::verify(&graph).unwrap();
    assert_eq!(shapes[out.0], vec![1, 2]);

    // the mirror case is rejected: the left operand never widens
    let mut bad: G = Graph::new(CpuBackend);
    let small = bad.val(tfrom(&[0.5], &[1, 1]));
    let wide = bad.val(tfrom(&[1.0, 2.0], &[1, 2]));
    let _ = bad.add(small, wide);
    assert!(Verifier::verify(&bad).is_err());
}
