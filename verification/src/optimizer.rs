//! The kernel-fusion rewrite pass: a template for single-pattern rewrites,
//! not a general fusion compiler.

use vstd::prelude::*;

use crate::backend::Backend;
use crate::errors::GPResult;
use crate::graph::fused_to;
use crate::graph::Graph;
use crate::node::Operation;

verus! {

/// Rewrite passes over the execution graph.
pub struct GraphOptimizer;

impl GraphOptimizer {
    /// Fuses operations to reduce memory bandwidth: every rectifier whose
    /// sole input is an addition is rewritten in place to the fused
    /// add-then-rectify kernel on the addition's inputs ([`fused_to`] at
    /// every position). The fused kernel computes exactly the rectified sum
    /// — the backend's fusion law ties its result to addition followed by
    /// rectification — so execution results are unchanged.
    pub fn optimize<B: Backend, C: Operation<B>>(graph: &mut Graph<B, C>) -> (r: GPResult<()>)
        requires
            old(graph).wf(),
        ensures
            final(graph).wf(),
            r is Ok,
            final(graph).nodes_view().len() == old(graph).nodes_view().len(),
            forall|i: int|
                0 <= i < final(graph).nodes_view().len() ==> fused_to(
                    old(graph).nodes_view(),
                    final(graph).nodes_view(),
                    i,
                ),
            final(graph).values_view() == old(graph).values_view(),
            final(graph).gradients_view() == old(graph).gradients_view(),
            final(graph).has_backend() == old(graph).has_backend(),
            final(graph).memory_plan_view() == old(graph).memory_plan_view(),
    {
        graph.fuse_add_relu()
    }
}

} // verus!
