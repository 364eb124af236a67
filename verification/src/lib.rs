//! A tensor computation engine built around a dynamically grown dataflow
//! graph: forward evaluation, reverse-mode automatic differentiation, static
//! shape checking, memory-reuse planning and kernel fusion.
//!
//! Numeric kernels (matrix multiply, activations, reductions) live behind the
//! [`backend::Backend`] capability trait; the engine schedules, caches and
//! differentiates but never computes a floating-point value itself. Tensor
//! payloads are carried as opaque 32-bit words.

pub mod backend;
pub mod buffer_pool;
pub mod codec;
pub mod dsl;
pub mod errors;
pub mod graph;
pub mod memory_planner;
pub mod node;
pub mod ops;
pub mod optimizer;
pub mod op_exec;
pub mod tensor;
pub mod types;
pub mod shapes;

pub use backend::Backend;
pub use errors::GPError;
pub use errors::GPResult;
pub use graph::Graph;
pub use memory_planner::MemoryPlanner;
pub use node::Node;
pub use node::Operation;
pub use node::OpType;
pub use optimizer::GraphOptimizer;
pub use shapes::Verifier;
pub use tensor::Tensor;
pub use tensor::TensorView;
pub use types::Device;
pub use types::NodeId;
pub use types::Shape;
