//! Liveness-based buffer-reuse planning.
//!
//! A single greedy pass, analogous to linear-scan register allocation: each
//! node's output is assigned a logical buffer index, and a buffer returns to
//! a free list once its owner's last consumer has run. The planner
//! guarantees that nodes whose live ranges overlap never share a buffer.

use vstd::prelude::*;

use crate::backend::Backend;
use crate::errors::GPResult;
use crate::graph::edge;
use crate::graph::Graph;
use crate::node::Node;
use crate::node::Operation;

verus! {

/// The index of the last operation (strictly below `n`) that consumes node
/// `x`, or zero when nothing below `n` consumes it.
pub open spec fn last_use_upto<C>(nodes: Seq<Node<C>>, x: int, n: int) -> int
    decreases n,
{
    if n <= 0 {
        0
    } else if edge(nodes, n - 1, x) {
        n - 1
    } else {
        last_use_upto(nodes, x, n - 1)
    }
}

/// The last-use index of node `x` over the whole node list: the end of its
/// live range `[x, last_use(x)]`.
pub open spec fn last_use<C>(nodes: Seq<Node<C>>, x: int) -> int {
    last_use_upto(nodes, x, nodes.len() as int)
}

proof fn lemma_last_use_upto_bounds<C>(nodes: Seq<Node<C>>, x: int, n: int)
    ensures
        0 <= last_use_upto(nodes, x, n),
        last_use_upto(nodes, x, n) < n || last_use_upto(nodes, x, n) == 0,
    decreases n,
{
    if n > 0 {
        lemma_last_use_upto_bounds(nodes, x, n - 1);
    }
}

/// Buffer index `b` is assigned to at least one node of the plan.
pub open spec fn buffer_assigned(plan: Seq<Option<usize>>, b: int) -> bool {
    exists|j: int| 0 <= j < plan.len() && #[trigger] plan[j] == Some(b as usize)
}

/// The buffer-reuse assignment for a graph: one logical buffer index per
/// node, and the total number of distinct buffers used.
pub struct MemoryPlanner {
    /// Maps node index to physical buffer index.
    pub plan: Vec<Option<usize>>,
    /// Total buffers required.
    pub buffer_count: usize,
}

impl MemoryPlanner {
    /// Plans buffer reuse for the whole node list.
    ///
    /// Every node receives a buffer index below `buffer_count`, and — the
    /// safety property of the planner — two nodes whose live ranges overlap
    /// never share one: whenever `j1 < j2` but node `j1` is still consumed
    /// at or after the step where `j2` is materialized, their buffers
    /// differ.
    pub fn plan<B: Backend, C: Operation<B>>(graph: &Graph<B, C>) -> (r: GPResult<MemoryPlanner>)
        ensures
            r is Ok,
            r matches Ok(planner) ==> {
                &&& planner.plan@.len() == graph.nodes_view().len()
                &&& forall|j: int|
                    0 <= j < planner.plan@.len() ==> match #[trigger] planner.plan@[j] {
                        Some(b) => (b as int) < planner.buffer_count,
                        None => false,
                    }
                &&& forall|j1: int, j2: int|
                    0 <= j1 < j2 < planner.plan@.len() && j2 <= last_use(
                        graph.nodes_view(),
                        j1,
                    ) ==> #[trigger] planner.plan@[j1] != #[trigger] planner.plan@[j2]
                &&& forall|b: int|
                    0 <= b < planner.buffer_count ==> #[trigger] buffer_assigned(planner.plan@, b)
            },
    {
        let nodes = graph.nodes();
        let node_count = nodes.len();
        let ghost nseq = graph.nodes_view();

        // 1. Liveness: the last node index that consumes each node.
        let mut liveness: Vec<usize> = Vec::new();
        let mut z: usize = 0;
        while z < node_count
            invariant
                liveness@.len() == z <= node_count,
                forall|x: int| 0 <= x < z ==> liveness@[x] == 0,
            decreases node_count - z,
        {
            liveness.push(0);
            z = z + 1;
        }
        proof {
            assert forall|x: int| 0 <= x < node_count implies liveness@[x] == last_use_upto(
                nseq,
                x,
                0,
            ) by {}
        }
        let mut i: usize = 0;
        while i < node_count
            invariant
                node_count == nseq.len(),
                nodes@ == nseq,
                liveness@.len() == node_count,
                0 <= i <= node_count,
                forall|x: int|
                    0 <= x < node_count ==> liveness@[x] == last_use_upto(nseq, x, i as int),
            decreases node_count - i,
        {
            match &nodes[i] {
                Node::Op { inputs, .. } => {
                    let mut k: usize = 0;
                    while k < inputs.len()
                        invariant
                            node_count == nseq.len(),
                            0 <= i < node_count,
                            nseq[i as int] matches Node::Op { inputs: inp, .. } && inp@ == inputs@,
                            liveness@.len() == node_count,
                            0 <= k <= inputs@.len(),
                            forall|x: int|
                                0 <= x < node_count ==> liveness@[x] == (
                                if exists|m: int|
                                    0 <= m < k && (#[trigger] inputs@[m]).0 == x {
                                    i as int
                                } else {
                                    last_use_upto(nseq, x, i as int)
                                }),
                        decreases inputs@.len() - k,
                    {
                        let m = inputs[k];
                        if m.0 < node_count {
                            liveness[m.0] = i;
                        }
                        k = k + 1;
                    }
                    proof {
                        assert forall|x: int| 0 <= x < node_count implies liveness@[x]
                            == last_use_upto(nseq, x, i + 1) by {
                            if edge(nseq, i as int, x) {
                                assert(last_use_upto(nseq, x, i + 1) == i);
                            } else {
                                assert(!exists|m: int|
                                    0 <= m < inputs@.len() && (#[trigger] inputs@[m]).0 == x);
                            }
                        }
                    }
                },
                _ => {
                    proof {
                        assert forall|x: int| 0 <= x < node_count implies liveness@[x]
                            == last_use_upto(nseq, x, i + 1) by {
                            assert(!edge(nseq, i as int, x));
                        }
                    }
                },
            }
            i = i + 1;
        }

        // 2. Greedy assignment with a free list.
        let mut plan: Vec<Option<usize>> = Vec::new();
        let mut p: usize = 0;
        while p < node_count
            invariant
                plan@.len() == p <= node_count,
                forall|x: int| 0 <= x < p ==> plan@[x] is None,
            decreases node_count - p,
        {
            plan.push(None);
            p = p + 1;
        }
        let mut free_buffers: Vec<usize> = Vec::new();
        // owner node of each buffer while it is in use
        let mut active: Vec<Option<usize>> = Vec::new();
        let mut buffer_count: usize = 0;

        proof {
            assert forall|x: int| 0 <= x < node_count implies 0 <= #[trigger] liveness@[x]
                < node_count || liveness@[x] == 0 by {
                lemma_last_use_upto_bounds(nseq, x, node_count as int);
            }
        }
        let mut j: usize = 0;
        while j < node_count
            invariant
                node_count == nseq.len(),
                liveness@.len() == node_count,
                forall|x: int| 0 <= x < node_count ==> liveness@[x] == last_use(nseq, x),
                forall|x: int|
                    0 <= x < node_count ==> 0 <= #[trigger] liveness@[x] < node_count || liveness@[x]
                        == 0,
                plan@.len() == node_count,
                active@.len() == buffer_count <= j,
                0 <= j <= node_count,
                // assigned prefix
                forall|x: int|
                    0 <= x < j ==> match #[trigger] plan@[x] {
                        Some(b) => (b as int) < buffer_count,
                        None => false,
                    },
                forall|x: int| j <= x < node_count ==> (#[trigger] plan@[x]) is None,
                // an active buffer's owner is an already-planned node holding it
                forall|b: int|
                    0 <= b < buffer_count ==> match #[trigger] active@[b] {
                        Some(x) => 0 <= (x as int) < j && plan@[x as int] == Some(b as usize),
                        None => true,
                    },
                // a node still live after step j-1 keeps its buffer active
                forall|x: int|
                    0 <= x < j && liveness@[x] as int >= j ==> match #[trigger] plan@[x] {
                        Some(b) => active@[b as int] == Some(x as usize),
                        None => false,
                    },
                // the free list holds real, inactive buffers, without repeats
                forall|f: int|
                    0 <= f < free_buffers@.len() ==> (#[trigger] free_buffers@[f] as int)
                        < buffer_count && active@[free_buffers@[f] as int] is None,
                forall|f1: int, f2: int|
                    0 <= f1 < f2 < free_buffers@.len() ==> free_buffers@[f1] != free_buffers@[f2],
                // the safety property, for what is planned so far
                forall|x1: int, x2: int|
                    0 <= x1 < x2 < j && x2 <= liveness@[x1] as int ==> #[trigger] plan@[x1]
                        != #[trigger] plan@[x2],
                // every minted buffer index is assigned to some node
                forall|b: int| 0 <= b < buffer_count ==> #[trigger] buffer_assigned(plan@, b),
            decreases node_count - j,
        {
            // take a buffer from the free list, or mint a fresh one
            let buf_idx: usize = match free_buffers.pop() {
                Some(f) => f,
                None => {
                    let fresh = buffer_count;
                    buffer_count = buffer_count + 1;
                    active.push(None);
                    fresh
                },
            };
            let ghost pre_plan = plan@;
            plan[j] = Some(buf_idx);
            active[buf_idx] = Some(j);
            proof {
                assert forall|bb: int|
                    0 <= bb < buffer_count implies #[trigger] buffer_assigned(plan@, bb) by {
                    if bb == buf_idx as int {
                        assert(plan@[j as int] == Some(bb as usize));
                    } else {
                        assert(buffer_assigned(pre_plan, bb));
                        let x = choose|x: int|
                            0 <= x < pre_plan.len() && #[trigger] pre_plan[x] == Some(bb as usize);
                        assert(x != j as int);
                        assert(plan@ == pre_plan.update(j as int, Some(buf_idx)));
                        assert(plan@[x] == Some(bb as usize));
                    }
                }
            }

            // return buffers whose owners are fully consumed by now
            let mut b: usize = 0;
            while b < buffer_count
                invariant
                    node_count == nseq.len(),
                    liveness@.len() == node_count,
                    plan@.len() == node_count,
                    active@.len() == buffer_count <= j + 1,
                    0 <= j < node_count,
                    0 <= b <= buffer_count,
                    plan@[j as int] == Some(buf_idx),
                    forall|x: int|
                        0 <= x <= j ==> match #[trigger] plan@[x] {
                            Some(bb) => (bb as int) < buffer_count,
                            None => false,
                        },
                    forall|x: int| j < x < node_count ==> (#[trigger] plan@[x]) is None,
                    forall|bb: int|
                        0 <= bb < buffer_count ==> match #[trigger] active@[bb] {
                            Some(x) => 0 <= (x as int) <= j && plan@[x as int] == Some(bb as usize),
                            None => true,
                        },
                    // owners scanned so far and still active are live past j
                    forall|x: int|
                        0 <= x <= j && liveness@[x] as int > j ==> match #[trigger] plan@[x] {
                            Some(bb) => active@[bb as int] == Some(x as usize),
                            None => false,
                        },
                    forall|bb: int|
                        0 <= bb < b ==> match #[trigger] active@[bb] {
                            Some(x) => liveness@[x as int] as int > j,
                            None => true,
                        },
                    forall|f: int|
                        0 <= f < free_buffers@.len() ==> (#[trigger] free_buffers@[f] as int)
                            < buffer_count && active@[free_buffers@[f] as int] is None,
                    forall|f1: int, f2: int|
                        0 <= f1 < f2 < free_buffers@.len() ==> free_buffers@[f1]
                            != free_buffers@[f2],
                    forall|x1: int, x2: int|
                        0 <= x1 < x2 <= j && x2 <= liveness@[x1] as int ==> #[trigger] plan@[x1]
                            != #[trigger] plan@[x2],
                    forall|bb: int| 0 <= bb < buffer_count ==> #[trigger] buffer_assigned(plan@, bb),
                decreases buffer_count - b,
            {
                let freeable = match active[b] {
                    Some(owner) => liveness[owner] <= j,
                    None => false,
                };
                if freeable {
                    active[b] = None;
                    free_buffers.push(b);
                }
                b = b + 1;
            }
            j = j + 1;
        }

        Ok(MemoryPlanner { plan, buffer_count })
    }
}

} // verus!
