// Property tests for the memory planner: over randomly generated graphs, two
// nodes whose live ranges overlap never share a buffer.

use rand::rngs::StdRng;
use rand::Rng;
use rand::SeedableRng;

use gran_prix::backend::Backend;
use gran_prix::graph::Graph;
use gran_prix::memory_planner::MemoryPlanner;
use gran_prix::node::Node;
use gran_prix::node::OpLabel;
use gran_prix::node::Operation;
use gran_prix::node::OpType;
use gran_prix::GPError;
use gran_prix::GPResult;
use gran_prix::NodeId;
use gran_prix::Tensor;
use gran_prix::TensorView;

/// A backend that refuses every kernel: planning never runs one.
#[derive(Debug)]
struct InertBackend;

impl Backend for InertBackend {
    fn matmul_law(_a: TensorView, _b: TensorView, _ta: bool, _tb: bool) {
    }
    fn add_law(_a: TensorView, _b: TensorView) {
    }
    fn activation_law(_x: TensorView) {
    }
    fn activation_backward_law(_x: TensorView, _g: TensorView) {
    }
    fn add_relu_law(_a: TensorView, _b: TensorView) {
    }
    fn conv2d_law(_i: TensorView, _w: TensorView, _s: usize, _p: usize) {
    }
    fn conv2d_backward_law(_i: TensorView, _w: TensorView, _g: TensorView, _s: usize, _p: usize) {
    }
    fn max_pool2d_law(_i: TensorView, _k: usize, _s: usize) {
    }
    fn max_pool2d_backward_law(_i: TensorView, _g: TensorView, _k: usize, _s: usize) {
    }
    fn reduce_sum_law(_i: TensorView) {
    }
    fn update_parameter_law(_p: TensorView, _g: TensorView, _lr: u32) {
    }

    fn matmul_t(&self, _a: &Tensor, _b: &Tensor, _ta: bool, _tb: bool) -> GPResult<Tensor> {
        Err(GPError::NotImplemented("inert".to_string()))
    }
    fn matmul_into(&self, _a: &Tensor, _b: &Tensor, _ta: bool, _tb: bool, _o: &mut Tensor) -> GPResult<()> {
        Err(GPError::NotImplemented("inert".to_string()))
    }
    fn conv2d(&self, _i: &Tensor, _w: &Tensor, _s: usize, _p: usize) -> GPResult<Tensor> {
        Err(GPError::NotImplemented("inert".to_string()))
    }
    fn conv2d_backward(&self, _i: &Tensor, _w: &Tensor, _g: &Tensor, _s: usize, _p: usize) -> GPResult<(Tensor, Tensor)> {
        Err(GPError::NotImplemented("inert".to_string()))
    }
    fn max_pool2d(&self, _i: &Tensor, _k: usize, _s: usize) -> GPResult<Tensor> {
        Err(GPError::NotImplemented("inert".to_string()))
    }
    fn max_pool2d_backward(&self, _i: &Tensor, _g: &Tensor, _k: usize, _s: usize) -> GPResult<Tensor> {
        Err(GPError::NotImplemented("inert".to_string()))
    }
    fn add(&self, _a: &Tensor, _b: &Tensor) -> GPResult<Tensor> {
        Err(GPError::NotImplemented("inert".to_string()))
    }
    fn add_into(&self, _a: &Tensor, _b: &Tensor, _o: &mut Tensor) -> GPResult<()> {
        Err(GPError::NotImplemented("inert".to_string()))
    }
    fn relu(&self, _x: &Tensor) -> GPResult<Tensor> {
        Err(GPError::NotImplemented("inert".to_string()))
    }
    fn relu_inplace(&self, _x: &mut Tensor) -> GPResult<()> {
        Err(GPError::NotImplemented("inert".to_string()))
    }
    fn sigmoid(&self, _x: &Tensor) -> GPResult<Tensor> {
        Err(GPError::NotImplemented("inert".to_string()))
    }
    fn sigmoid_inplace(&self, _x: &mut Tensor) -> GPResult<()> {
        Err(GPError::NotImplemented("inert".to_string()))
    }
    fn tanh(&self, _x: &Tensor) -> GPResult<Tensor> {
        Err(GPError::NotImplemented("inert".to_string()))
    }
    fn tanh_inplace(&self, _x: &mut Tensor) -> GPResult<()> {
        Err(GPError::NotImplemented("inert".to_string()))
    }
    fn relu_backward(&self, _i: &Tensor, _g: &Tensor) -> GPResult<Tensor> {
        Err(GPError::NotImplemented("inert".to_string()))
    }
    fn sigmoid_backward(&self, _o: &Tensor, _g: &Tensor) -> GPResult<Tensor> {
        Err(GPError::NotImplemented("inert".to_string()))
    }
    fn tanh_backward(&self, _o: &Tensor, _g: &Tensor) -> GPResult<Tensor> {
        Err(GPError::NotImplemented("inert".to_string()))
    }
    fn add_relu(&self, _a: &Tensor, _b: &Tensor) -> GPResult<Tensor> {
        Err(GPError::NotImplemented("inert".to_string()))
    }
    fn reduce_sum(&self, _i: &Tensor, _axes: &Vec<usize>, _k: bool) -> GPResult<Tensor> {
        Err(GPError::NotImplemented("inert".to_string()))
    }
    fn update_parameter(&self, _p: &mut Tensor, _g: &Tensor, _lr: u32) -> GPResult<()> {
        Err(GPError::NotImplemented("inert".to_string()))
    }
}

#[derive(Debug, Clone, PartialEq)]
struct NoCustom;

impl OpLabel for NoCustom {
    fn name(&self) -> &str {
        "NoCustom"
    }
}

impl Operation<InertBackend> for NoCustom {
    fn forward_shape_law(&self) {
    }
    fn backward_shape_law(&self) {
    }
    fn codec_law(&self) {
    }

    fn forward(&self, _i: &Vec<Tensor>, _b: &InertBackend) -> GPResult<Tensor> {
        Err(GPError::NotImplemented("inert".to_string()))
    }
    fn backward(&self, _i: &Vec<Tensor>, _g: &Tensor, _b: &InertBackend) -> GPResult<Vec<Tensor>> {
        Err(GPError::NotImplemented("inert".to_string()))
    }
    fn output_shape(&self, _s: &Vec<Vec<usize>>) -> GPResult<Vec<usize>> {
        Err(GPError::NotImplemented("inert".to_string()))
    }
    fn encode(&self) -> Vec<u8> {
        vec![0u8]
    }
    fn decode(bytes: &Vec<u8>) -> GPResult<NoCustom> {
        if bytes.len() == 1 && bytes[0] == 0 {
            Ok(NoCustom)
        } else {
            Err(GPError::SerializationError("unknown custom operation".to_string()))
        }
    }
}

fn leaf() -> Tensor {
    Tensor::from_bits(vec![0u32; 2], vec![1, 2]).unwrap()
}

/// The last node index that consumes `x`, or zero when nothing does.
fn last_use(nodes: &Vec<Node<NoCustom>>, x: usize) -> usize {
    let mut last = 0usize;
    for (i, node) in nodes.iter().enumerate() {
        if let Node::Op { inputs, .. } = node {
            if inputs.iter().any(|m| m.0 == x) {
                last = i;
            }
        }
    }
    last
}

#[test]
fn test_liveness_safety_on_random_graphs() {
    let mut rng = StdRng::seed_from_u64(20240517);
    for _round in 0..50 {
        let mut graph: Graph<InertBackend, NoCustom> = Graph::new(InertBackend);
        let node_count = rng.gen_range(2..30usize);
        graph.val(leaf());
        for i in 1..node_count {
            if rng.gen_bool(0.3) {
                if rng.gen_bool(0.5) {
                    graph.val(leaf());
                } else {
                    graph.param(leaf());
                }
            } else {
                let a = NodeId(rng.gen_range(0..i));
                let b = NodeId(rng.gen_range(0..i));
                if rng.gen_bool(0.5) {
                    graph.op(OpType::Add, vec![a, b]);
                } else {
                    graph.op(OpType::ReLU, vec![a]);
                }
            }
        }

        let plan = MemoryPlanner::plan(&graph).unwrap();
        let nodes = graph.nodes();
        assert_eq!(plan.plan.len(), nodes.len());

        for j1 in 0..nodes.len() {
            for j2 in (j1 + 1)..nodes.len() {
                // live ranges [j, last_use(j)] overlap when the later node
                // is created before the earlier one's last consumer runs
                if j2 <= last_use(nodes, j1) {
                    assert_ne!(
                        plan.plan[j1].unwrap(),
                        plan.plan[j2].unwrap(),
                        "overlapping live ranges must get distinct buffers",
                    );
                }
            }
        }
        assert!(plan.plan.iter().all(|b| b.unwrap() < plan.buffer_count));
    }
}

#[test]
fn test_planner_reuses_buffers_in_chains() {
    // a pure chain lets every intermediate reuse storage
    let mut graph: Graph<InertBackend, NoCustom> = Graph::new(InertBackend);
    let mut curr = graph.val(leaf());
    for _ in 0..9 {
        curr = graph.op(OpType::ReLU, vec![curr]);
    }
    let _ = curr;
    let plan = MemoryPlanner::plan(&graph).unwrap();
    assert_eq!(plan.plan.len(), 10);
    // far fewer buffers than nodes
    assert!(plan.buffer_count <= 3);
}
