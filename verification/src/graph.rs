//! The execution graph: node storage, value and gradient caches, forward
//! evaluation, reverse-mode differentiation and parameter updates.

use vstd::prelude::*;
use vstd::string::StringExecFns;

use crate::backend::Backend;
use crate::buffer_pool::BufferPool;
use crate::errors::GPError;
use crate::errors::GPResult;
use crate::memory_planner::MemoryPlanner;
use crate::node::op_backward_spec;
use crate::node::op_forward_spec;
use crate::node::tensor_views;
use crate::node::Node;
use crate::node::Operation;
use crate::node::OpType;
use crate::tensor::Tensor;
use crate::tensor::TensorView;
use crate::types::NodeId;

verus! {

/// Every operation node references only strictly earlier nodes: the shape a
/// graph has when it was grown through the construction interface alone.
/// The scheduler does not assume this; it re-checks defensively.
pub open spec fn nodes_wf<C>(nodes: Seq<Node<C>>) -> bool {
    forall|i: int|
        0 <= i < nodes.len() ==> match #[trigger] nodes[i] {
            Node::Op { inputs, .. } => forall|k: int|
                0 <= k < inputs@.len() ==> (#[trigger] inputs@[k]).0 < i,
            _ => true,
        }
}

/// There is a dependency edge from `a` to `b`: node `a` is an operation that
/// consumes node `b`'s value.
pub open spec fn edge<C>(nodes: Seq<Node<C>>, a: int, b: int) -> bool {
    &&& 0 <= a < nodes.len()
    &&& nodes[a] matches Node::Op { inputs, .. } && exists|k: int|
        0 <= k < inputs@.len() && (#[trigger] inputs@[k]).0 == b
}

/// `p` is a dependency path: consecutive elements are joined by edges.
pub open spec fn is_path<C>(nodes: Seq<Node<C>>, p: Seq<int>) -> bool {
    &&& p.len() >= 1
    &&& forall|i: int| 0 <= i < p.len() - 1 ==> edge(nodes, #[trigger] p[i], p[i + 1])
}

/// Node `to` is needed to produce node `from`: some dependency path leads
/// from `from` down to `to`. Every node reaches itself.
pub open spec fn reaches<C>(nodes: Seq<Node<C>>, from: int, to: int) -> bool {
    exists|p: Seq<int>| is_path(nodes, p) && p.first() == from && p.last() == to
}

/// Extending a path by one edge keeps reachability.
pub proof fn lemma_reaches_step<C>(nodes: Seq<Node<C>>, from: int, mid: int, to: int)
    requires
        reaches(nodes, from, mid),
        edge(nodes, mid, to),
    ensures
        reaches(nodes, from, to),
{
    let p = choose|p: Seq<int>| is_path(nodes, p) && p.first() == from && p.last() == mid;
    let q = p.push(to);
    assert(is_path(nodes, q)) by {
        assert(forall|i: int| 0 <= i < p.len() - 1 ==> edge(nodes, #[trigger] q[i], q[i + 1]));
        assert(q[p.len() - 1] == mid && q[p.len() as int] == to);
    }
    assert(q.first() == from && q.last() == to);
}

/// What the engine computes for a node: inputs and parameters yield their
/// stored tensors; an operation yields its forward result applied to the
/// values of its (strictly earlier) input nodes. `None` where the node is
/// out of range, references itself or a later node, or its kernel fails.
pub open spec fn eval<B: Backend, C: Operation<B>>(nodes: Seq<Node<C>>, id: int) -> Option<
    TensorView,
>
    decreases id, 1int, 0int,
{
    if 0 <= id < nodes.len() {
        match nodes[id] {
            Node::Input(t) => Some(t@),
            Node::Param(t) => Some(t@),
            Node::Op { op, inputs } => {
                if forall|k: int| 0 <= k < inputs@.len() ==> (#[trigger] inputs@[k]).0 < id {
                    match eval_inputs::<B, C>(nodes, inputs@, id) {
                        Some(vals) => op_forward_spec::<B, C>(op, vals),
                        None => None,
                    }
                } else {
                    None
                }
            },
        }
    } else {
        None
    }
}

/// The values of a list of input references, all strictly below `bound`;
/// `None` where any of them fails to evaluate.
pub open spec fn eval_inputs<B: Backend, C: Operation<B>>(
    nodes: Seq<Node<C>>,
    inputs: Seq<NodeId>,
    bound: int,
) -> Option<Seq<TensorView>>
    decreases bound, 0int, inputs.len(),
{
    if inputs.len() == 0 {
        Some(Seq::empty())
    } else if 0 <= (inputs[0].0 as int) < bound {
        match eval::<B, C>(nodes, inputs[0].0 as int) {
            Some(v) => match eval_inputs::<B, C>(nodes, inputs.drop_first(), bound) {
                Some(rest) => Some(seq![v] + rest),
                None => None,
            },
            None => None,
        }
    } else {
        None
    }
}

/// If any evaluated input fails, so does the whole list.
pub proof fn lemma_eval_inputs_fail<B: Backend, C: Operation<B>>(
    nodes: Seq<Node<C>>,
    inputs: Seq<NodeId>,
    bound: int,
    k: int,
)
    requires
        0 <= k < inputs.len(),
        eval::<B, C>(nodes, inputs[k].0 as int) is None || !(0 <= (inputs[k].0 as int) < bound),
    ensures
        eval_inputs::<B, C>(nodes, inputs, bound) is None,
    decreases inputs.len(),
{
    if k > 0 && 0 <= (inputs[0].0 as int) < bound && eval::<B, C>(nodes, inputs[0].0 as int) is Some {
        assert(inputs.drop_first()[k - 1] == inputs[k]);
        lemma_eval_inputs_fail::<B, C>(nodes, inputs.drop_first(), bound, k - 1);
    }
}

/// A failing dependency poisons everything that needs it: if `to` has no
/// value and `from` reaches it, `from` has no value either.
pub proof fn lemma_eval_propagates_failure<B: Backend, C: Operation<B>>(
    nodes: Seq<Node<C>>,
    p: Seq<int>,
)
    requires
        is_path(nodes, p),
        eval::<B, C>(nodes, p.last()) is None,
    ensures
        eval::<B, C>(nodes, p.first()) is None,
    decreases p.len(),
{
    if p.len() > 1 {
        let q = p.drop_first();
        assert(is_path(nodes, q)) by {
            assert(forall|i: int|
                0 <= i < q.len() - 1 ==> edge(nodes, #[trigger] q[i], q[i + 1]) && q[i] == p[i + 1]);
        }
        lemma_eval_propagates_failure::<B, C>(nodes, q);
        // q.first() has no value and p.first() consumes it
        let a = p.first();
        let b = q.first();
        assert(edge(nodes, a, b));
        if eval::<B, C>(nodes, a) is Some {
            let inputs = nodes[a]->Op_inputs;
            let k = choose|k: int| 0 <= k < inputs@.len() && (#[trigger] inputs@[k]).0 == b;
            lemma_eval_inputs_fail::<B, C>(nodes, inputs@, a, k);
            assert(false);
        }
    }
}

/// The number of `true` entries in a flag sequence.
pub open spec fn count_trues(s: Seq<bool>) -> int
    decreases s.len(),
{
    if s.len() == 0 {
        0
    } else {
        count_trues(s.drop_last()) + if s.last() {
            1int
        } else {
            0int
        }
    }
}

proof fn lemma_count_trues_bounds(s: Seq<bool>)
    ensures
        0 <= count_trues(s) <= s.len(),
    decreases s.len(),
{
    if s.len() > 0 {
        lemma_count_trues_bounds(s.drop_last());
    }
}

proof fn lemma_count_trues_update(s: Seq<bool>, i: int)
    requires
        0 <= i < s.len(),
        !s[i],
    ensures
        count_trues(s.update(i, true)) == count_trues(s) + 1,
    decreases s.len(),
{
    let t = s.update(i, true);
    if i == s.len() - 1 {
        assert(t.drop_last() =~= s.drop_last());
    } else {
        assert(t.drop_last() =~= s.drop_last().update(i, true));
        assert(t.last() == s.last());
        lemma_count_trues_update(s.drop_last(), i);
    }
}

proof fn lemma_count_trues_all_false(s: Seq<bool>)
    requires
        forall|i: int| 0 <= i < s.len() ==> !s[i],
    ensures
        count_trues(s) == 0,
    decreases s.len(),
{
    if s.len() > 0 {
        lemma_count_trues_all_false(s.drop_last());
    }
}

/// Node `y` appears somewhere in the schedule.
pub open spec fn scheduled(order: Seq<NodeId>, y: NodeId) -> bool {
    exists|l: int| 0 <= l < order.len() && order[l] == y
}

/// Walking a dependency path from a scheduled node through a schedule that
/// is closed under dependency edges stays inside the schedule.
proof fn lemma_scheduled_along_path<C>(nodes: Seq<Node<C>>, order: Seq<NodeId>, p: Seq<int>)
    requires
        is_path(nodes, p),
        exists|l: int| 0 <= l < order.len() && ((#[trigger] order[l]).0 as int) == p.first(),
        order_respects_deps(nodes, order),
    ensures
        exists|l: int| 0 <= l < order.len() && ((#[trigger] order[l]).0 as int) == p.last(),
    decreases p.len(),
{
    if p.len() > 1 {
        let a = p.first();
        let b = p[1];
        assert(edge(nodes, a, b));
        let inputs = nodes[a]->Op_inputs;
        assert(node_inputs_of(nodes, a) == inputs@);
        let m = choose|m: int| 0 <= m < inputs@.len() && (#[trigger] inputs@[m]).0 == b;
        let ka = choose|l: int| 0 <= l < order.len() && ((#[trigger] order[l]).0 as int) == a;
        assert(deps_before(nodes, order, ka));
        assert((order[ka]).0 as int == a);
        assert(scheduled_before(order, ka, node_inputs_of(nodes, (order[ka]).0 as int)[m]));
        let l = choose|l: int| 0 <= l < ka && order[l] == node_inputs_of(nodes, a)[m];
        assert(0 <= l < order.len() && ((order[l]).0 as int) == b);
        let q = p.drop_first();
        assert(is_path(nodes, q)) by {
            assert(forall|i: int|
                0 <= i < q.len() - 1 ==> edge(nodes, #[trigger] q[i], q[i + 1]) && q[i] == p[i + 1]);
        }
        assert(q.first() == b);
        lemma_scheduled_along_path(nodes, order, q);
        assert(q.last() == p.last());
    }
}

/// Emitting a node whose inputs are all scheduled keeps a schedule
/// dependency-respecting.
proof fn lemma_deps_push<C>(nodes: Seq<Node<C>>, pre: Seq<NodeId>, id: NodeId)
    requires
        order_respects_deps(nodes, pre),
        (id.0 as int) < nodes.len(),
        forall|m: int|
            0 <= m < node_inputs_of(nodes, id.0 as int).len() ==> scheduled(
                pre,
                #[trigger] node_inputs_of(nodes, id.0 as int)[m],
            ),
    ensures
        order_respects_deps(nodes, pre.push(id)),
{
    let order = pre.push(id);
    assert forall|k: int|
        0 <= k < order.len() implies ((#[trigger] order[k]).0 as int) < nodes.len() && deps_before(
        nodes,
        order,
        k,
    ) by {
        if k < order.len() - 1 {
            assert(order[k] == pre[k]);
            assert(deps_before(nodes, pre, k));
            let x = (order[k]).0 as int;
            assert(x == (pre[k]).0 as int);
            assert forall|m: int|
                0 <= m < node_inputs_of(nodes, x).len() implies scheduled_before(
                order,
                k,
                #[trigger] node_inputs_of(nodes, x)[m],
            ) by {
                assert(scheduled_before(pre, k, node_inputs_of(nodes, (pre[k]).0 as int)[m]));
                let l = choose|l: int|
                    0 <= l < k && pre[l] == node_inputs_of(nodes, (pre[k]).0 as int)[m];
                assert(0 <= l < k && order[l] == node_inputs_of(nodes, x)[m]);
            }
            assert(deps_before(nodes, order, k));
        } else {
            assert(order[k] == id);
            let x = (order[k]).0 as int;
            assert forall|m: int|
                0 <= m < node_inputs_of(nodes, x).len() implies scheduled_before(
                order,
                k,
                #[trigger] node_inputs_of(nodes, x)[m],
            ) by {
                assert(scheduled(pre, node_inputs_of(nodes, x)[m]));
                let l = choose|l: int| 0 <= l < pre.len() && pre[l] == node_inputs_of(nodes, x)[m];
                assert(0 <= l < k && order[l] == node_inputs_of(nodes, x)[m]);
            }
            assert(deps_before(nodes, order, k));
        }
    }
}

/// Evaluations of each input, assembled in order, give the whole input list
/// evaluation.
proof fn lemma_eval_inputs_build<B: Backend, C: Operation<B>>(
    nodes: Seq<Node<C>>,
    inputs: Seq<NodeId>,
    bound: int,
    vals: Seq<TensorView>,
)
    requires
        vals.len() == inputs.len(),
        forall|k: int|
            0 <= k < inputs.len() ==> 0 <= ((#[trigger] inputs[k]).0 as int) < bound && eval::<
                B,
                C,
            >(nodes, inputs[k].0 as int) == Some(vals[k]),
    ensures
        eval_inputs::<B, C>(nodes, inputs, bound) == Some(vals),
    decreases inputs.len(),
{
    if inputs.len() == 0 {
        assert(vals =~= Seq::<TensorView>::empty());
    } else {
        let rest = vals.drop_first();
        assert forall|k: int|
            0 <= k < inputs.drop_first().len() implies 0 <= ((
        #[trigger] inputs.drop_first()[k]).0 as int) < bound && eval::<B, C>(
            nodes,
            inputs.drop_first()[k].0 as int,
        ) == Some(rest[k]) by {
            assert(inputs.drop_first()[k] == inputs[k + 1]);
            assert(rest[k] == vals[k + 1]);
        }
        lemma_eval_inputs_build::<B, C>(nodes, inputs.drop_first(), bound, rest);
        assert(vals =~= seq![vals[0]] + rest);
    }
}

/// A node with no value poisons every node that needs it.
proof fn lemma_failure_reaches<B: Backend, C: Operation<B>>(nodes: Seq<Node<C>>, t: int, x: int)
    requires
        reaches(nodes, t, x),
        eval::<B, C>(nodes, x) is None,
    ensures
        eval::<B, C>(nodes, t) is None,
{
    let p = choose|p: Seq<int>| is_path(nodes, p) && p.first() == t && p.last() == x;
    lemma_eval_propagates_failure::<B, C>(nodes, p);
}

/// Appends one unprocessed stack entry per input reference.
fn push_pending(stack: &mut Vec<(NodeId, bool)>, inputs: &Vec<NodeId>)
    ensures
        final(stack)@ == old(stack)@ + Seq::new(inputs@.len(), |m: int| (inputs@[m], false)),
{
    let ghost base = stack@;
    let mut k: usize = 0;
    while k < inputs.len()
        invariant
            0 <= k <= inputs@.len(),
            stack@ == base + Seq::new(k as nat, |m: int| (inputs@[m], false)),
        decreases inputs@.len() - k,
    {
        stack.push((inputs[k], false));
        proof {
            assert(stack@ =~= base + Seq::new((k + 1) as nat, |m: int| (inputs@[m], false)));
        }
        k = k + 1;
    }
    proof {
        assert(stack@ =~= base + Seq::new(inputs@.len(), |m: int| (inputs@[m], false)));
    }
}

/// The input references of node `x`: empty for inputs and parameters.
pub open spec fn node_inputs_of<C>(nodes: Seq<Node<C>>, x: int) -> Seq<NodeId> {
    match nodes[x] {
        Node::Op { inputs, .. } => inputs@,
        _ => Seq::empty(),
    }
}

/// Node `y` appears in the schedule strictly before position `k`.
pub open spec fn scheduled_before(order: Seq<NodeId>, k: int, y: NodeId) -> bool {
    exists|l: int| 0 <= l < k && order[l] == y
}

/// The node scheduled at position `k` has each of its inputs scheduled at
/// some strictly earlier position.
pub open spec fn deps_before<C>(nodes: Seq<Node<C>>, order: Seq<NodeId>, k: int) -> bool {
    forall|m: int|
        0 <= m < node_inputs_of(nodes, (order[k]).0 as int).len() ==> scheduled_before(
            order,
            k,
            #[trigger] node_inputs_of(nodes, (order[k]).0 as int)[m],
        )
}

/// Every scheduled operation node has each of its inputs scheduled strictly
/// before it, and every scheduled node is in range.
pub open spec fn order_respects_deps<C>(nodes: Seq<Node<C>>, order: Seq<NodeId>) -> bool {
    forall|k: int|
        0 <= k < order.len() ==> ((#[trigger] order[k]).0 as int) < nodes.len() && deps_before(
            nodes,
            order,
            k,
        )
}

/// `order` is a valid schedule for `target`: a duplicate-free, in-bounds,
/// dependency-respecting enumeration of exactly the nodes needed to produce
/// `target`.
pub open spec fn topo_ok<C>(nodes: Seq<Node<C>>, target: int, order: Seq<NodeId>) -> bool {
    &&& order_respects_deps(nodes, order)
    &&& forall|k1: int, k2: int| 0 <= k1 < k2 < order.len() ==> order[k1] != order[k2]
    &&& exists|k: int| 0 <= k < order.len() && (#[trigger] order[k]).0 == target
    &&& forall|k: int| 0 <= k < order.len() ==> reaches(nodes, target, (#[trigger] order[k]).0 as int)
    &&& forall|x: int|
        #[trigger] reaches(nodes, target, x) ==> exists|k: int|
            0 <= k < order.len() && (#[trigger] order[k]).0 == x
}

/// Around any dependency cycle reachable from the target, no valid schedule
/// exists: a schedule would have to place some cycle member strictly before
/// itself.
pub proof fn lemma_cycle_unschedulable<C>(
    nodes: Seq<Node<C>>,
    target: int,
    p: Seq<int>,
    order: Seq<NodeId>,
)
    requires
        is_path(nodes, p),
        p.len() >= 2,
        p.first() == p.last(),
        reaches(nodes, target, p.first()),
    ensures
        !topo_ok(nodes, target, order),
{
    if topo_ok(nodes, target, order) {
        // every cycle member is reachable from the target, hence scheduled
        assert forall|i: int| 0 <= i < p.len() implies reaches(nodes, target, #[trigger] p[i]) by {
            lemma_path_prefix_reaches(nodes, target, p, i);
        }
        // positions strictly decrease along each edge of the path
        assert forall|i: int|
            0 <= i < p.len() - 1 implies position_of(order, p[i + 1]) < position_of(
            order,
            #[trigger] p[i],
        ) by {
            let ki = position_of(order, p[i]);
            let kj = position_of(order, p[i + 1]);
            lemma_position_of(nodes, target, order, p[i]);
            lemma_position_of(nodes, target, order, p[i + 1]);
            assert(edge(nodes, p[i], p[i + 1]));
            let inputs = nodes[p[i]]->Op_inputs;
            assert(node_inputs_of(nodes, p[i]) == inputs@);
            let m = choose|m: int| 0 <= m < inputs@.len() && (#[trigger] inputs@[m]).0 == p[i + 1];
            assert(deps_before(nodes, order, ki));
            assert((order[ki]).0 as int == p[i]);
            assert(scheduled_before(order, ki, node_inputs_of(nodes, (order[ki]).0 as int)[m]));
            let l = choose|l: int| 0 <= l < ki && order[l] == node_inputs_of(nodes, p[i])[m];
            assert(order[l].0 == p[i + 1]);
            // positions of a node are unique because the order has no duplicates
            if kj != l {
                assert(order[kj].0 == p[i + 1] as usize && order[l].0 == p[i + 1] as usize);
                assert(order[kj] == order[l]);
                assert(false);
            }
        }
        lemma_decreasing_chain(nodes, target, order, p, p.len() - 1);
        assert(p[p.len() - 1] == p.first());
        assert(position_of(order, p.first()) <= position_of(order, p.first()) - (p.len() - 1));
    }
}

/// The schedule position of node `x` (meaningful when `x` is scheduled).
pub open spec fn position_of(order: Seq<NodeId>, x: int) -> int {
    choose|k: int| 0 <= k < order.len() && (#[trigger] order[k]).0 == x
}

proof fn lemma_position_of<C>(nodes: Seq<Node<C>>, target: int, order: Seq<NodeId>, x: int)
    requires
        topo_ok(nodes, target, order),
        reaches(nodes, target, x),
    ensures
        0 <= position_of(order, x) < order.len(),
        (order[position_of(order, x)].0 as int) == x,
{
    assert(exists|k: int| 0 <= k < order.len() && (#[trigger] order[k]).0 == x);
}

proof fn lemma_path_prefix_reaches<C>(nodes: Seq<Node<C>>, target: int, p: Seq<int>, i: int)
    requires
        is_path(nodes, p),
        reaches(nodes, target, p.first()),
        0 <= i < p.len(),
    ensures
        reaches(nodes, target, p[i]),
    decreases i,
{
    if i > 0 {
        lemma_path_prefix_reaches(nodes, target, p, i - 1);
        lemma_reaches_step(nodes, target, p[i - 1], p[i]);
    }
}

proof fn lemma_decreasing_chain<C>(
    nodes: Seq<Node<C>>,
    target: int,
    order: Seq<NodeId>,
    p: Seq<int>,
    i: int,
)
    requires
        topo_ok(nodes, target, order),
        is_path(nodes, p),
        reaches(nodes, target, p.first()),
        p.len() >= 2,
        p.first() == p.last(),
        0 <= i < p.len(),
        forall|j: int|
            0 <= j < p.len() - 1 ==> position_of(order, p[j + 1]) < position_of(
                order,
                #[trigger] p[j],
            ),
    ensures
        position_of(order, p[i]) <= position_of(order, p.first()) - i,
    decreases i,
{
    if i > 0 {
        lemma_decreasing_chain(nodes, target, order, p, i - 1);
        assert(position_of(order, p[i]) < position_of(order, p[i - 1]));
    } else {
        assert(position_of(order, p[0]) == position_of(order, p.first()));
    }
}

/// The mathematical content of a cache of optional tensors.
pub open spec fn cache_view(vs: Seq<Option<Tensor>>) -> Seq<Option<TensorView>> {
    Seq::new(vs.len(), |i: int| match vs[i] {
        Some(t) => Some(t@),
        None => None,
    })
}

/// Refreshes an input node's cache slot from its stored tensor, reusing the
/// cached buffer when shapes match and replacing it otherwise.
fn refresh_input_slot(values: &mut Vec<Option<Tensor>>, id: usize, tensor: &Tensor)
    requires
        (id as int) < old(values)@.len(),
    ensures
        final(values)@.len() == old(values)@.len(),
        cache_view(final(values)@) == cache_view(old(values)@).update(
            id as int,
            Some(tensor@),
        ),
{
    let slot = values[id].take();
    match slot {
        Some(mut cached) => {
            if crate::types::slices_equal(cached.shape(), tensor.shape()) {
                proof {
                    use_type_invariant(&cached);
                    use_type_invariant(tensor);
                }
                let copied = cached.copy_from(tensor);
                proof {
                    assert(copied is Ok);
                    assert(cached@ =~= tensor@);
                }
                values[id] = Some(cached);
            } else {
                values[id] = Some(tensor.clone());
            }
        },
        None => {
            values[id] = Some(tensor.clone());
        },
    }
    proof {
        assert(cache_view(final(values)@) =~= cache_view(old(values)@).update(
            id as int,
            Some(tensor@),
        ));
    }
}

/// Materializes a parameter's cache slot on first use; an existing entry is
/// kept.
fn materialize_param_slot(values: &mut Vec<Option<Tensor>>, id: usize, tensor: &Tensor)
    requires
        (id as int) < old(values)@.len(),
        match cache_view(old(values)@)[id as int] {
            Some(v) => v == tensor@,
            None => true,
        },
    ensures
        final(values)@.len() == old(values)@.len(),
        cache_view(final(values)@) == cache_view(old(values)@).update(
            id as int,
            Some(tensor@),
        ),
{
    let missing = values[id].is_none();
    if missing {
        values[id] = Some(tensor.clone());
    } else {
        proof {
            assert(cache_view(values@)[id as int] == Some(tensor@));
        }
    }
    proof {
        assert(cache_view(final(values)@) =~= cache_view(old(values)@).update(
            id as int,
            Some(tensor@),
        ));
    }
}

/// Copies the already-computed values of an operation's inputs out of the
/// cache, in input order. Fails when an input does not lie strictly before
/// the consuming node or has no computed value yet.
fn gather_input_values(values: &Vec<Option<Tensor>>, inputs: &Vec<NodeId>, id: NodeId) -> (r:
    GPResult<Vec<Tensor>>)
    requires
        (id.0 as int) <= values@.len(),
    ensures
        r matches Ok(vals) ==> vals@.len() == inputs@.len() && (forall|m: int|
            0 <= m < inputs@.len() ==> ((#[trigger] inputs@[m]).0 as int) < (id.0 as int))
            && (forall|m: int|
            0 <= m < inputs@.len() ==> cache_view(values@)[inputs@[m].0 as int] == Some(
                (#[trigger] vals@[m])@,
            )),
        r is Err ==> exists|m: int|
            0 <= m < inputs@.len() && (((#[trigger] inputs@[m]).0 as int) >= (id.0 as int) || (((
            inputs@[m]).0 as int) < (id.0 as int) && cache_view(values@)[inputs@[m].0 as int]
                is None)),
        r matches Err(e) ==> e matches GPError::InferenceError(_),
{
    let mut out: Vec<Tensor> = Vec::new();
    let mut k: usize = 0;
    while k < inputs.len()
        invariant
            (id.0 as int) <= values@.len(),
            0 <= k <= inputs@.len(),
            out@.len() == k,
            forall|m: int| 0 <= m < k ==> ((#[trigger] inputs@[m]).0 as int) < (id.0 as int),
            forall|m: int|
                0 <= m < k ==> cache_view(values@)[inputs@[m].0 as int] == Some(
                    (#[trigger] out@[m])@,
                ),
        decreases inputs@.len() - k,
    {
        let m_id = inputs[k];
        if m_id.0 >= id.0 {
            return Err(GPError::InferenceError(String::from_str(
                "input node is not before its consumer",
            )));
        }
        match &values[m_id.0] {
            Some(v) => {
                let val = v.clone();
                proof {
                    assert(cache_view(values@)[m_id.0 as int] == Some(val@));
                }
                out.push(val);
                proof {
                    assert(out@[k as int]@ == cache_view(values@)[m_id.0 as int].unwrap());
                    assert((inputs@[k as int].0 as int) < (id.0 as int));
                }
            },
            None => {
                proof {
                    assert(cache_view(values@)[m_id.0 as int] is None);
                }
                return Err(GPError::InferenceError(String::from_str("input value not found")));
            },
        }
        k = k + 1;
    }
    Ok(out)
}

/// Inside a valid schedule, when the first `o` scheduled nodes carry their
/// evaluations in the cache, the inputs of the node scheduled at `o` are all
/// evaluated and cached.
proof fn lemma_inputs_evaluated<B: Backend, C: Operation<B>>(
    nodes: Seq<Node<C>>,
    t: int,
    order: Seq<NodeId>,
    o: int,
    vv: Seq<Option<TensorView>>,
    inputs: Seq<NodeId>,
    id: NodeId,
)
    requires
        topo_ok(nodes, t, order),
        0 <= o < order.len(),
        order[o] == id,
        node_inputs_of(nodes, id.0 as int) == inputs,
        forall|j: int|
            0 <= j < o ==> eval::<B, C>(nodes, ((#[trigger] order[j]).0 as int)) is Some && vv[(
            order[j]).0 as int] == Some(eval::<B, C>(nodes, ((order[j]).0 as int)).unwrap()),
    ensures
        forall|m: int|
            0 <= m < inputs.len() ==> eval::<B, C>(
                nodes,
                ((#[trigger] inputs[m]).0 as int),
            ) is Some && vv[(inputs[m]).0 as int] == Some(
                eval::<B, C>(nodes, ((inputs[m]).0 as int)).unwrap(),
            ),
{
    assert forall|m: int|
        0 <= m < inputs.len() implies eval::<B, C>(
        nodes,
        ((#[trigger] inputs[m]).0 as int),
    ) is Some && vv[(inputs[m]).0 as int] == Some(
        eval::<B, C>(nodes, ((inputs[m]).0 as int)).unwrap(),
    ) by {
        assert(deps_before(nodes, order, o));
        assert(node_inputs_of(nodes, (order[o]).0 as int) == inputs);
        assert(scheduled_before(order, o, node_inputs_of(nodes, (order[o]).0 as int)[m]));
        let j = choose|j: int|
            0 <= j < o && order[j] == node_inputs_of(nodes, (order[o]).0 as int)[m];
        assert(order[j] == inputs[m]);
    }
}

/// Extending the cache with the newly computed node keeps every processed
/// schedule position carrying its evaluation.
proof fn lemma_processed_extend<B: Backend, C: Operation<B>>(
    nodes: Seq<Node<C>>,
    order: Seq<NodeId>,
    o: int,
    vv: Seq<Option<TensorView>>,
    vv2: Seq<Option<TensorView>>,
    id: NodeId,
)
    requires
        0 <= o < order.len(),
        order[o] == id,
        0 <= (id.0 as int) < vv.len(),
        forall|j: int| 0 <= j < order.len() ==> ((#[trigger] order[j]).0 as int) < vv.len(),
        eval::<B, C>(nodes, id.0 as int) is Some,
        vv2 == vv.update(id.0 as int, Some(eval::<B, C>(nodes, id.0 as int).unwrap())),
        forall|j: int|
            0 <= j < o ==> eval::<B, C>(nodes, ((#[trigger] order[j]).0 as int)) is Some && vv[(
            order[j]).0 as int] == Some(eval::<B, C>(nodes, ((order[j]).0 as int)).unwrap()),
    ensures
        forall|j: int|
            0 <= j < o + 1 ==> eval::<B, C>(nodes, ((#[trigger] order[j]).0 as int)) is Some
                && vv2[(order[j]).0 as int] == Some(
                eval::<B, C>(nodes, ((order[j]).0 as int)).unwrap(),
            ),
{
    assert forall|j: int|
        0 <= j < o + 1 implies eval::<B, C>(nodes, ((#[trigger] order[j]).0 as int)) is Some
        && vv2[(order[j]).0 as int] == Some(
        eval::<B, C>(nodes, ((order[j]).0 as int)).unwrap(),
    ) by {
        if j < o {
            if (order[j]).0 as int == id.0 as int {
                assert(eval::<B, C>(nodes, (order[j]).0 as int) == eval::<B, C>(
                    nodes,
                    id.0 as int,
                ));
                assert(vv2[(order[j]).0 as int] == Some(
                    eval::<B, C>(nodes, id.0 as int).unwrap(),
                ));
            } else {
                assert(vv2[(order[j]).0 as int] == vv[(order[j]).0 as int]);
            }
        }
    }
}

/// Every parameter's cache entry, when present, holds exactly the
/// parameter's stored tensor.
pub open spec fn params_synced<C>(nodes: Seq<Node<C>>, vv: Seq<Option<TensorView>>) -> bool {
    forall|i: int|
        0 <= i < nodes.len() ==> match #[trigger] nodes[i] {
            Node::Param(pt) => match vv[i] {
                Some(v) => v == pt@,
                None => true,
            },
            _ => true,
        }
}

/// Updating one slot — cleared, or set to the stored tensor where the node
/// is a parameter — keeps parameters in sync.
proof fn lemma_params_synced_update<C>(
    nodes: Seq<Node<C>>,
    vv: Seq<Option<TensorView>>,
    vv2: Seq<Option<TensorView>>,
    id: int,
    x: Option<TensorView>,
)
    requires
        params_synced(nodes, vv),
        vv.len() == nodes.len(),
        0 <= id < nodes.len(),
        vv2 == vv.update(id, x),
        match nodes[id] {
            Node::Param(pt) => x is None || x == Some(pt@),
            _ => true,
        },
    ensures
        params_synced(nodes, vv2),
{
    assert forall|i: int|
        0 <= i < nodes.len() implies match #[trigger] nodes[i] {
        Node::Param(pt) => match vv2[i] {
            Some(v) => v == pt@,
            None => true,
        },
        _ => true,
    } by {
        if i != id {
            assert(vv2[i] == vv[i]);
        }
    }
}

/// Computes a single node's value into its cache slot: inputs are refreshed
/// from their stored tensors, parameters are materialized on first use, and
/// operations run forward, in place where a buffer is already cached.
#[verifier::rlimit(100)]
#[verifier::spinoff_prover]
fn process_node_slot<B: Backend, C: Operation<B>>(
    values: &mut Vec<Option<Tensor>>,
    node: &Node<C>,
    id: NodeId,
    backend: &B,
    Ghost(nodes): Ghost<Seq<Node<C>>>,
    Ghost(t): Ghost<int>,
    Ghost(order): Ghost<Seq<NodeId>>,
    Ghost(o): Ghost<int>,
) -> (r: GPResult<()>)
    requires
        old(values)@.len() == nodes.len(),
        topo_ok(nodes, t, order),
        0 <= o < order.len(),
        order[o] == id,
        0 <= (id.0 as int) < nodes.len(),
        nodes[id.0 as int] == *node,
        params_synced(nodes, cache_view(old(values)@)),
        forall|j: int|
            0 <= j < o ==> eval::<B, C>(nodes, ((#[trigger] order[j]).0 as int)) is Some
                && cache_view(old(values)@)[(order[j]).0 as int] == Some(
                eval::<B, C>(nodes, ((order[j]).0 as int)).unwrap(),
            ),
    ensures
        final(values)@.len() == old(values)@.len(),
        r is Ok ==> eval::<B, C>(nodes, id.0 as int) is Some && cache_view(final(values)@)
            == cache_view(old(values)@).update(
            id.0 as int,
            Some(eval::<B, C>(nodes, id.0 as int).unwrap()),
        ),
        r is Err ==> eval::<B, C>(nodes, t) is None && (cache_view(final(values)@) == cache_view(
            old(values)@,
        ) || cache_view(final(values)@) == cache_view(old(values)@).update(id.0 as int, None)),
        params_synced(nodes, cache_view(final(values)@)),
{
    let ghost pre = cache_view(values@);
    let r = match node {
        Node::Input(tensor) => {
            refresh_input_slot(values, id.0, tensor);
            proof {
                assert(eval::<B, C>(nodes, id.0 as int) == Some(tensor@));
            }
            Ok(())
        },
        Node::Param(tensor) => {
            materialize_param_slot(values, id.0, tensor);
            proof {
                assert(eval::<B, C>(nodes, id.0 as int) == Some(tensor@));
            }
            Ok(())
        },
        Node::Op { op, inputs } => {
            compute_op_slot(values, op, inputs, id, backend, Ghost(nodes), Ghost(t), Ghost(order), Ghost(o))
        },
    };
    proof {
        if r is Ok {
            lemma_params_synced_update::<C>(
                nodes,
                pre,
                cache_view(values@),
                id.0 as int,
                Some(eval::<B, C>(nodes, id.0 as int).unwrap()),
            );
        } else {
            if cache_view(values@) != pre {
                lemma_params_synced_update::<C>(
                    nodes,
                    pre,
                    cache_view(values@),
                    id.0 as int,
                    None,
                );
            }
        }
    }
    r
}

/// Computes an operation node's value into its cache slot: the existing
/// buffer is written in place when one is cached, otherwise a fresh tensor
/// is allocated. On failure the evaluation of the scheduling target is
/// undefined.
#[verifier::rlimit(100)]
#[verifier::spinoff_prover]
fn compute_op_slot<B: Backend, C: Operation<B>>(
    values: &mut Vec<Option<Tensor>>,
    op: &OpType<C>,
    inputs: &Vec<NodeId>,
    id: NodeId,
    backend: &B,
    Ghost(nodes): Ghost<Seq<Node<C>>>,
    Ghost(t): Ghost<int>,
    Ghost(order): Ghost<Seq<NodeId>>,
    Ghost(o): Ghost<int>,
) -> (r: GPResult<()>)
    requires
        old(values)@.len() == nodes.len(),
        topo_ok(nodes, t, order),
        0 <= o < order.len(),
        order[o] == id,
        0 <= (id.0 as int) < nodes.len(),
        nodes[id.0 as int] matches Node::Op { op: op2, inputs: inputs2 } && op2 == *op && inputs2@
            == inputs@,
        forall|j: int|
            0 <= j < o ==> eval::<B, C>(nodes, ((#[trigger] order[j]).0 as int)) is Some
                && cache_view(old(values)@)[(order[j]).0 as int] == Some(
                eval::<B, C>(nodes, ((order[j]).0 as int)).unwrap(),
            ),
    ensures
        final(values)@.len() == old(values)@.len(),
        r is Ok ==> eval::<B, C>(nodes, id.0 as int) is Some && cache_view(final(values)@)
            == cache_view(old(values)@).update(
            id.0 as int,
            Some(eval::<B, C>(nodes, id.0 as int).unwrap()),
        ),
        r is Err ==> eval::<B, C>(nodes, t) is None && (cache_view(final(values)@) == cache_view(
            old(values)@,
        ) || cache_view(final(values)@) == cache_view(old(values)@).update(id.0 as int, None)),
{
    proof {
        lemma_inputs_evaluated::<B, C>(nodes, t, order, o, cache_view(values@), inputs@, id);
    }
    let input_vals = match gather_input_values(values, inputs, id) {
        Ok(vals) => vals,
        Err(e) => {
            proof {
                // a failed gather means some input is not strictly earlier:
                // the evaluation is undefined there and at the target
                let m = choose|m: int|
                    0 <= m < inputs@.len() && (((#[trigger] inputs@[m]).0 as int) >= (id.0 as int)
                        || (((inputs@[m]).0 as int) < (id.0 as int) && cache_view(
                        values@,
                    )[inputs@[m].0 as int] is None));
                assert((inputs@[m].0 as int) >= (id.0 as int));
                assert(eval::<B, C>(nodes, id.0 as int) is None);
                lemma_failure_reaches::<B, C>(nodes, t, id.0 as int);
            }
            return Err(e);
        },
    };
    proof {
        // each gathered value is its node's evaluation
        assert forall|m: int| 0 <= m < inputs@.len() implies 0 <= ((
        #[trigger] inputs@[m]).0 as int) < (id.0 as int) && eval::<B, C>(
            nodes,
            (inputs@[m].0 as int),
        ) == Some(tensor_views(input_vals@)[m]) by {
            assert(cache_view(values@)[inputs@[m].0 as int] == Some((input_vals@[m])@));
            assert(tensor_views(input_vals@)[m] == input_vals@[m]@);
        }
        lemma_eval_inputs_build::<B, C>(nodes, inputs@, id.0 as int, tensor_views(input_vals@));
        assert(eval::<B, C>(nodes, id.0 as int) == op_forward_spec::<B, C>(
            *op,
            tensor_views(input_vals@),
        ));
    }
    let ghost pre = cache_view(values@);
    let slot = values[id.0].take();
    match slot {
        Some(mut out) => {
            match op.forward_inplace(&input_vals, &mut out, backend) {
                Ok(()) => {
                    values[id.0] = Some(out);
                    proof {
                        assert(cache_view(values@) =~= pre.update(
                            id.0 as int,
                            Some(eval::<B, C>(nodes, id.0 as int).unwrap()),
                        ));
                    }
                    Ok(())
                },
                Err(e) => {
                    proof {
                        assert(eval::<B, C>(nodes, id.0 as int) is None);
                        lemma_failure_reaches::<B, C>(nodes, t, id.0 as int);
                        assert(cache_view(values@) =~= pre.update(id.0 as int, None));
                    }
                    Err(e)
                },
            }
        },
        None => {
            match op.forward(&input_vals, backend) {
                Ok(v) => {
                    values[id.0] = Some(v);
                    proof {
                        assert(cache_view(values@) =~= pre.update(
                            id.0 as int,
                            Some(eval::<B, C>(nodes, id.0 as int).unwrap()),
                        ));
                    }
                    Ok(())
                },
                Err(e) => {
                    proof {
                        assert(eval::<B, C>(nodes, id.0 as int) is None);
                        lemma_failure_reaches::<B, C>(nodes, t, id.0 as int);
                        assert(cache_view(values@) =~= pre.update(id.0 as int, None));
                    }
                    Err(e)
                },
            }
        },
    }
}

/// The cached values of a list of input references, read without regard to
/// position: `None` where any is out of range or missing.
pub open spec fn gathered_values(values: Seq<Option<TensorView>>, inputs: Seq<NodeId>) -> Option<
    Seq<TensorView>,
>
    decreases inputs.len(),
{
    if inputs.len() == 0 {
        Some(Seq::empty())
    } else if 0 <= (inputs[0].0 as int) < values.len() && values[inputs[0].0 as int] is Some {
        match gathered_values(values, inputs.drop_first()) {
            Some(rest) => Some(seq![values[inputs[0].0 as int].unwrap()] + rest),
            None => None,
        }
    } else {
        None
    }
}

/// Accumulates one gradient contribution into a node's slot: an empty slot
/// takes the contribution, an occupied one takes the backend's sum of the
/// existing gradient and the contribution.
pub open spec fn accumulate_one<B: Backend>(
    state: Seq<Option<TensorView>>,
    m: NodeId,
    g: TensorView,
) -> Option<Seq<Option<TensorView>>> {
    if 0 <= (m.0 as int) < state.len() {
        match state[m.0 as int] {
            Some(existing) => match B::add_spec(existing, g) {
                Some(s) => Some(state.update(m.0 as int, Some(s))),
                None => None,
            },
            None => Some(state.update(m.0 as int, Some(g))),
        }
    } else {
        None
    }
}

/// Accumulates one gradient per input, in input order.
pub open spec fn accumulate_grads<B: Backend>(
    state: Seq<Option<TensorView>>,
    inputs: Seq<NodeId>,
    gs: Seq<TensorView>,
) -> Option<Seq<Option<TensorView>>>
    decreases inputs.len(),
{
    if inputs.len() == 0 {
        Some(state)
    } else {
        match accumulate_one::<B>(state, inputs[0], gs[0]) {
            Some(next) => accumulate_grads::<B>(next, inputs.drop_first(), gs.drop_first()),
            None => None,
        }
    }
}

/// One step of the reverse walk: a node with a pending gradient propagates
/// one contribution to each of its inputs; leaves and nodes without pending
/// gradients change nothing.
pub open spec fn backward_step<B: Backend, C: Operation<B>>(
    nodes: Seq<Node<C>>,
    values: Seq<Option<TensorView>>,
    state: Seq<Option<TensorView>>,
    id: NodeId,
) -> Option<Seq<Option<TensorView>>> {
    if 0 <= (id.0 as int) < nodes.len() && (id.0 as int) < state.len() {
        match state[id.0 as int] {
            None => Some(state),
            Some(g) => match nodes[id.0 as int] {
                Node::Op { op, inputs } => match gathered_values(values, inputs@) {
                    Some(vals) => match op_backward_spec::<B, C>(op, vals, g) {
                        Some(gs) => if gs.len() == inputs@.len() {
                            accumulate_grads::<B>(state, inputs@, gs)
                        } else {
                            None
                        },
                        None => None,
                    },
                    None => None,
                },
                _ => Some(state),
            },
        }
    } else {
        None
    }
}

/// The reverse walk itself: processes scheduled nodes one after another.
pub open spec fn backward_fold<B: Backend, C: Operation<B>>(
    nodes: Seq<Node<C>>,
    values: Seq<Option<TensorView>>,
    state: Seq<Option<TensorView>>,
    items: Seq<NodeId>,
) -> Option<Seq<Option<TensorView>>>
    decreases items.len(),
{
    if items.len() == 0 {
        Some(state)
    } else {
        match backward_step::<B, C>(nodes, values, state, items[0]) {
            Some(next) => backward_fold::<B, C>(nodes, values, next, items.drop_first()),
            None => None,
        }
    }
}

/// What one backward pass leaves in the gradient cache: the target's slot is
/// seeded with (accumulates) the incoming gradient, and the schedule is then
/// walked in reverse, summing one contribution per consumer into each input's
/// slot.
pub open spec fn backward_result<B: Backend, C: Operation<B>>(
    nodes: Seq<Node<C>>,
    values: Seq<Option<TensorView>>,
    grads: Seq<Option<TensorView>>,
    g: TensorView,
    t: NodeId,
    order: Seq<NodeId>,
) -> Option<Seq<Option<TensorView>>> {
    match accumulate_one::<B>(grads, t, g) {
        Some(seeded) => backward_fold::<B, C>(nodes, values, seeded, order.reverse()),
        None => None,
    }
}

proof fn lemma_gathered_build(
    values: Seq<Option<TensorView>>,
    inputs: Seq<NodeId>,
    vals: Seq<TensorView>,
)
    requires
        vals.len() == inputs.len(),
        forall|k: int|
            0 <= k < inputs.len() ==> 0 <= ((#[trigger] inputs[k]).0 as int) < values.len()
                && values[(inputs[k]).0 as int] == Some(vals[k]),
    ensures
        gathered_values(values, inputs) == Some(vals),
    decreases inputs.len(),
{
    if inputs.len() > 0 {
        let rest = vals.drop_first();
        assert forall|k: int|
            0 <= k < inputs.drop_first().len() implies 0 <= ((
        #[trigger] inputs.drop_first()[k]).0 as int) < values.len() && values[(
        inputs.drop_first()[k]).0 as int] == Some(rest[k]) by {
            assert(inputs.drop_first()[k] == inputs[k + 1]);
            assert(rest[k] == vals[k + 1]);
        }
        lemma_gathered_build(values, inputs.drop_first(), rest);
        assert(vals =~= seq![vals[0]] + rest);
    } else {
        assert(vals =~= Seq::<TensorView>::empty());
    }
}

proof fn lemma_gathered_fail(values: Seq<Option<TensorView>>, inputs: Seq<NodeId>, k: int)
    requires
        0 <= k < inputs.len(),
        !(0 <= ((inputs[k]).0 as int) < values.len()) || values[(inputs[k]).0 as int] is None,
    ensures
        gathered_values(values, inputs) is None,
    decreases inputs.len(),
{
    if k > 0 && 0 <= (inputs[0].0 as int) < values.len() && values[inputs[0].0 as int] is Some {
        assert(inputs.drop_first()[k - 1] == inputs[k]);
        lemma_gathered_fail(values, inputs.drop_first(), k - 1);
    }
}

/// Copies the cached values of an operation's inputs out of the cache, in
/// input order, for the backward pass. Fails when an input is out of range
/// or has no computed value.
fn gather_cached_values(values: &Vec<Option<Tensor>>, inputs: &Vec<NodeId>) -> (r: GPResult<
    Vec<Tensor>,
>)
    ensures
        r matches Ok(vals) ==> gathered_values(cache_view(values@), inputs@) == Some(
            tensor_views(vals@),
        ),
        r is Err ==> gathered_values(cache_view(values@), inputs@) is None,
        r matches Err(e) ==> e matches GPError::InferenceError(_),
{
    let mut out: Vec<Tensor> = Vec::new();
    let mut k: usize = 0;
    while k < inputs.len()
        invariant
            0 <= k <= inputs@.len(),
            out@.len() == k,
            forall|m: int| 0 <= m < k ==> ((#[trigger] inputs@[m]).0 as int) < values@.len(),
            forall|m: int|
                0 <= m < k ==> cache_view(values@)[(inputs@[m]).0 as int] == Some(
                    (#[trigger] out@[m])@,
                ),
        decreases inputs@.len() - k,
    {
        let m_id = inputs[k];
        if m_id.0 >= values.len() {
            proof {
                lemma_gathered_fail(cache_view(values@), inputs@, k as int);
            }
            return Err(GPError::InferenceError(String::from_str("input node out of range")));
        }
        match &values[m_id.0] {
            Some(v) => {
                let val = v.clone();
                proof {
                    assert(cache_view(values@)[m_id.0 as int] == Some(val@));
                }
                out.push(val);
                proof {
                    assert((inputs@[k as int].0 as int) < values@.len());
                    assert(out@[k as int]@ == cache_view(values@)[m_id.0 as int].unwrap());
                }
            },
            None => {
                proof {
                    assert(cache_view(values@)[m_id.0 as int] is None);
                    lemma_gathered_fail(cache_view(values@), inputs@, k as int);
                }
                return Err(GPError::InferenceError(String::from_str("input value not found")));
            },
        }
        k = k + 1;
    }
    proof {
        assert forall|m: int|
            0 <= m < inputs@.len() implies 0 <= ((#[trigger] inputs@[m]).0 as int) < cache_view(
            values@,
        ).len() && cache_view(values@)[(inputs@[m]).0 as int] == Some(
            tensor_views(out@)[m],
        ) by {
            assert(tensor_views(out@)[m] == out@[m]@);
        }
        lemma_gathered_build(cache_view(values@), inputs@, tensor_views(out@));
    }
    Ok(out)
}

/// After a parameter update, position `i` holds: a parameter with an
/// accumulated gradient took one successful gradient-descent step; every
/// other node is unchanged.
pub open spec fn updated_param_at<B: Backend, C: Operation<B>>(
    nodes: Seq<Node<C>>,
    grads: Seq<Option<TensorView>>,
    nodes2: Seq<Node<C>>,
    lr_bits: u32,
    i: int,
) -> bool {
    match nodes[i] {
        Node::Param(p) => match grads[i] {
            Some(g) => match nodes2[i] {
                Node::Param(p2) => B::update_parameter_spec(p@, g, lr_bits) == Some(p2@),
                _ => false,
            },
            None => nodes2[i] == nodes[i],
        },
        _ => nodes2[i] == nodes[i],
    }
}

/// The fusion pass rewrites position `i` exactly when it holds a rectifier
/// whose sole input is an in-range addition node.
pub open spec fn fuse_applies<C>(nodes: Seq<Node<C>>, i: int) -> bool {
    match nodes[i] {
        Node::Op { op: OpType::ReLU, inputs } => inputs@.len() == 1 && 0 <= (inputs@[0].0 as int)
            < nodes.len() && (nodes[inputs@[0].0 as int] matches Node::Op {
            op: OpType::Add,
            ..
        }),
        _ => false,
    }
}

/// The addition node a fused rectifier at position `i` draws its inputs
/// from.
pub open spec fn fused_source<C>(nodes: Seq<Node<C>>, i: int) -> int {
    ((nodes[i]->Op_inputs)@[0].0) as int
}

/// What the fusion pass leaves at position `i`: where fusion applies, the
/// rectifier is rewritten in place to the fused add-then-rectify operation
/// consuming the addition's own inputs (the now-unreferenced addition stays
/// in the list); every other node is kept unchanged.
pub open spec fn fused_to<C>(nodes0: Seq<Node<C>>, nodes2: Seq<Node<C>>, i: int) -> bool {
    if fuse_applies(nodes0, i) {
        match nodes2[i] {
            Node::Op { op: OpType::AddReLU, inputs } => Some(inputs@) == add_inputs_of(
                nodes0,
                fused_source(nodes0, i),
            ),
            _ => false,
        }
    } else {
        nodes2[i] == nodes0[i]
    }
}

/// Copies a list of node references.
fn clone_node_ids(ids: &Vec<NodeId>) -> (r: Vec<NodeId>)
    ensures
        r@ == ids@,
{
    let mut out: Vec<NodeId> = Vec::new();
    let mut i: usize = 0;
    while i < ids.len()
        invariant
            0 <= i <= ids@.len(),
            out@ == ids@.subrange(0, i as int),
        decreases ids@.len() - i,
    {
        out.push(ids[i]);
        proof {
            assert(out@ =~= ids@.subrange(0, i + 1));
        }
        i = i + 1;
    }
    proof {
        assert(out@ =~= ids@);
    }
    out
}

/// What a forward pass returns depends on the node list alone: the value
/// and gradient caches, the memory plan, the buffer pool and the backend
/// instance never influence it.
///
/// Two consequences, read together with the contracts of [`Graph::execute`]
/// and [`Graph::plan_memory`]: re-executing a target on an unchanged graph
/// returns a result identical to the first call, because `execute` leaves
/// the node list unchanged and pins its result to the evaluation of the node
/// list; and planning memory reuse is semantically transparent, because
/// `plan_memory` touches only the plan and pool fields, so an identical
/// graph runs to identical outputs with or without it.
pub proof fn lemma_forward_value_depends_only_on_nodes<B: Backend, C: Operation<B>>(
    before: Graph<B, C>,
    after: Graph<B, C>,
    target: NodeId,
)
    requires
        after.nodes_view() == before.nodes_view(),
    ensures
        eval::<B, C>(after.nodes_view(), target.0 as int) == eval::<B, C>(
            before.nodes_view(),
            target.0 as int,
        ),
{
}

/// The inputs of the addition node at position `j`, if that is one.
pub open spec fn add_inputs_of<C>(nodes: Seq<Node<C>>, j: int) -> Option<Seq<NodeId>> {
    if 0 <= j < nodes.len() {
        match nodes[j] {
            Node::Op { op: OpType::Add, inputs } => Some(inputs@),
            _ => None,
        }
    } else {
        None
    }
}

/// What executing a single node leaves in its cache slot, given the values
/// already cached: an input's stored tensor, a parameter's cached-or-stored
/// tensor, or an operation's forward result over its inputs' cached values.
/// `None` where the node is out of range, an input is not strictly earlier
/// or has no cached value, or the kernel fails.
pub open spec fn step_value<B: Backend, C: Operation<B>>(
    nodes: Seq<Node<C>>,
    values: Seq<Option<TensorView>>,
    id: NodeId,
) -> Option<TensorView> {
    if 0 <= (id.0 as int) < nodes.len() {
        match nodes[id.0 as int] {
            Node::Input(t) => Some(t@),
            Node::Param(t) => Some(t@),
            Node::Op { op, inputs } => {
                if forall|k: int|
                    0 <= k < inputs@.len() ==> 0 <= ((#[trigger] inputs@[k]).0 as int) < (
                    id.0 as int) {
                    match cached_inputs(values, inputs@) {
                        Some(vals) => op_forward_spec::<B, C>(op, vals),
                        None => None,
                    }
                } else {
                    None
                }
            },
        }
    } else {
        None
    }
}

/// The cached values of a list of input references.
pub open spec fn cached_inputs(values: Seq<Option<TensorView>>, inputs: Seq<NodeId>) -> Option<
    Seq<TensorView>,
>
    decreases inputs.len(),
{
    if inputs.len() == 0 {
        Some(Seq::empty())
    } else if 0 <= (inputs[0].0 as int) < values.len() && values[inputs[0].0 as int] is Some {
        match cached_inputs(values, inputs.drop_first()) {
            Some(rest) => Some(seq![values[inputs[0].0 as int].unwrap()] + rest),
            None => None,
        }
    } else {
        None
    }
}

proof fn lemma_cached_inputs_build(
    values: Seq<Option<TensorView>>,
    inputs: Seq<NodeId>,
    bound: int,
    vals: Seq<TensorView>,
)
    requires
        bound <= values.len(),
        vals.len() == inputs.len(),
        forall|k: int|
            0 <= k < inputs.len() ==> 0 <= ((#[trigger] inputs[k]).0 as int) < bound && values[(
            inputs[k]).0 as int] == Some(vals[k]),
    ensures
        cached_inputs(values, inputs) == Some(vals),
    decreases inputs.len(),
{
    if inputs.len() == 0 {
        assert(vals =~= Seq::<TensorView>::empty());
    } else {
        let rest = vals.drop_first();
        assert forall|k: int|
            0 <= k < inputs.drop_first().len() implies 0 <= ((
        #[trigger] inputs.drop_first()[k]).0 as int) < bound && values[(
        inputs.drop_first()[k]).0 as int] == Some(rest[k]) by {
            assert(inputs.drop_first()[k] == inputs[k + 1]);
            assert(rest[k] == vals[k + 1]);
        }
        lemma_cached_inputs_build(values, inputs.drop_first(), bound, rest);
        assert(vals =~= seq![vals[0]] + rest);
    }
}

proof fn lemma_cached_inputs_fail(
    values: Seq<Option<TensorView>>,
    inputs: Seq<NodeId>,
    k: int,
)
    requires
        0 <= k < inputs.len(),
        !(0 <= ((inputs[k]).0 as int) < values.len()) || values[(inputs[k]).0 as int] is None,
    ensures
        cached_inputs(values, inputs) is None,
    decreases inputs.len(),
{
    if k > 0 && 0 <= (inputs[0].0 as int) < values.len() && values[inputs[0].0 as int] is Some {
        assert(inputs.drop_first()[k - 1] == inputs[k]);
        lemma_cached_inputs_fail(values, inputs.drop_first(), k - 1);
    }
}

/// The execution graph: append-only nodes, a backend capability, and the
/// value and gradient caches that execution fills.
pub struct Graph<B: Backend, C: Operation<B>> {
    nodes: Vec<Node<C>>,
    backend: Option<B>,
    values: Vec<Option<Tensor>>,
    gradients: Vec<Option<Tensor>>,
    memory_plan: Option<MemoryPlanner>,
    buffer_pool: Option<BufferPool>,
}

impl<B: Backend, C: Operation<B>> Graph<B, C> {
    /// The nodes, as mathematical content.
    pub closed spec fn nodes_view(&self) -> Seq<Node<C>> {
        self.nodes@
    }

    /// Whether a backend is attached.
    pub closed spec fn has_backend(&self) -> bool {
        self.backend is Some
    }

    /// The value cache, as mathematical content.
    pub closed spec fn values_view(&self) -> Seq<Option<TensorView>> {
        cache_view(self.values@)
    }

    /// The gradient cache, as mathematical content.
    pub closed spec fn gradients_view(&self) -> Seq<Option<TensorView>> {
        cache_view(self.gradients@)
    }

    /// The memory plan, if one was computed.
    pub closed spec fn memory_plan_view(&self) -> Option<MemoryPlanner> {
        self.memory_plan
    }

    /// Well-formedness, established by the constructor and preserved by
    /// every method: both caches run parallel to the node list, and a
    /// parameter's cache entry, when present, holds exactly the parameter's
    /// stored tensor — writing to a parameter invalidates its cache entry,
    /// so a cached parameter value is never stale.
    pub open spec fn wf(&self) -> bool {
        &&& self.values_view().len() == self.nodes_view().len()
        &&& self.gradients_view().len() == self.nodes_view().len()
        &&& params_synced(self.nodes_view(), self.values_view())
    }

    /// A fresh graph attached to a backend.
    pub fn new(backend: B) -> (r: Self)
        ensures
            r.nodes_view().len() == 0,
            r.has_backend(),
            r.values_view().len() == 0,
            r.gradients_view().len() == 0,
            r.memory_plan_view() is None,
    {
        Graph {
            nodes: Vec::new(),
            backend: Some(backend),
            values: Vec::new(),
            gradients: Vec::new(),
            memory_plan: None,
            buffer_pool: None,
        }
    }

    /// Attaches (or replaces) the backend; required after deserialization.
    pub fn set_backend(&mut self, backend: B)
        ensures
            final(self).has_backend(),
            final(self).nodes_view() == old(self).nodes_view(),
            final(self).values_view() == old(self).values_view(),
            final(self).gradients_view() == old(self).gradients_view(),
            final(self).memory_plan_view() == old(self).memory_plan_view(),
    {
        self.backend = Some(backend);
    }

    /// Appends an input node holding the given tensor.
    pub fn input(&mut self, tensor: Tensor) -> (r: NodeId)
        ensures
            r == NodeId(old(self).nodes_view().len() as usize),
            final(self).nodes_view() == old(self).nodes_view().push(Node::Input(tensor)),
            final(self).values_view() == old(self).values_view().push(None),
            final(self).gradients_view() == old(self).gradients_view().push(None),
            final(self).has_backend() == old(self).has_backend(),
            final(self).memory_plan_view() == old(self).memory_plan_view(),
    {
        let id = NodeId(self.nodes.len());
        self.nodes.push(Node::Input(tensor));
        self.values.push(None);
        self.gradients.push(None);
        proof {
            assert(self.values_view() =~= old(self).values_view().push(None));
            assert(self.gradients_view() =~= old(self).gradients_view().push(None));
        }
        id
    }

    /// Appends a trainable parameter node holding the given tensor.
    pub fn param(&mut self, tensor: Tensor) -> (r: NodeId)
        ensures
            r == NodeId(old(self).nodes_view().len() as usize),
            final(self).nodes_view() == old(self).nodes_view().push(Node::Param(tensor)),
            final(self).values_view() == old(self).values_view().push(None),
            final(self).gradients_view() == old(self).gradients_view().push(None),
            final(self).has_backend() == old(self).has_backend(),
            final(self).memory_plan_view() == old(self).memory_plan_view(),
    {
        let id = NodeId(self.nodes.len());
        self.nodes.push(Node::Param(tensor));
        self.values.push(None);
        self.gradients.push(None);
        proof {
            assert(self.values_view() =~= old(self).values_view().push(None));
            assert(self.gradients_view() =~= old(self).gradients_view().push(None));
        }
        id
    }

    /// Appends an operation node consuming the given inputs. Input
    /// references are not validated here; the scheduler rejects cycles and
    /// out-of-range references when asked to run.
    pub fn op(&mut self, op: OpType<C>, inputs: Vec<NodeId>) -> (r: NodeId)
        ensures
            r == NodeId(old(self).nodes_view().len() as usize),
            final(self).nodes_view() == old(self).nodes_view().push(Node::Op { op, inputs }),
            final(self).values_view() == old(self).values_view().push(None),
            final(self).gradients_view() == old(self).gradients_view().push(None),
            final(self).has_backend() == old(self).has_backend(),
            final(self).memory_plan_view() == old(self).memory_plan_view(),
    {
        let id = NodeId(self.nodes.len());
        self.nodes.push(Node::Op { op, inputs });
        self.values.push(None);
        self.gradients.push(None);
        proof {
            assert(self.values_view() =~= old(self).values_view().push(None));
            assert(self.gradients_view() =~= old(self).gradients_view().push(None));
        }
        id
    }

    /// The node list.
    pub fn nodes(&self) -> (r: &Vec<Node<C>>)
        ensures
            r@ == self.nodes_view(),
    {
        &self.nodes
    }

    /// The value cache from the last forward pass.
    pub fn values(&self) -> (r: &Vec<Option<Tensor>>)
        ensures
            r@.len() == self.values_view().len(),
            forall|i: int|
                0 <= i < r@.len() ==> match #[trigger] r@[i] {
                    Some(t) => self.values_view()[i] == Some(t@),
                    None => self.values_view()[i] is None,
                },
    {
        &self.values
    }

    /// The accumulated gradient of a node, if any.
    pub fn get_gradient(&self, id: NodeId) -> (r: Option<&Tensor>)
        ensures
            match r {
                Some(t) => 0 <= (id.0 as int) < self.gradients_view().len()
                    && self.gradients_view()[id.0 as int] == Some(t@),
                None => (id.0 as int) >= self.gradients_view().len()
                    || self.gradients_view()[id.0 as int] is None,
            },
    {
        if id.0 >= self.gradients.len() {
            return None;
        }
        match &self.gradients[id.0] {
            Some(t) => Some(t),
            None => None,
        }
    }

    /// Computes a topological order of the nodes needed to produce `target`:
    /// an iterative (non-recursive) depth-first traversal with an on-stack
    /// flag, so that deep chains cannot overflow the call stack and a
    /// dependency cycle is reported as an error rather than looping.
    ///
    /// On success the order is a valid schedule ([`topo_ok`]); on a graph
    /// whose operation nodes reference only strictly earlier nodes — every
    /// graph grown through the construction interface behaves so — with an
    /// in-range target, it always succeeds.
    #[verifier::rlimit(100)]
    pub fn topological_sort(&self, target: NodeId) -> (r: GPResult<Vec<NodeId>>)
        ensures
            r matches Ok(order) ==> topo_ok(self.nodes_view(), target.0 as int, order@),
            nodes_wf(self.nodes_view()) && (target.0 as int) < self.nodes_view().len() ==> r is Ok,
            r matches Err(e) ==> e matches GPError::InferenceError(_),
    {
        let ghost nodes = self.nodes_view();
        let ghost t = target.0 as int;
        let ghost wfh = nodes_wf(nodes);
        let n = self.nodes.len();
        if target.0 >= n {
            return Err(GPError::InferenceError(String::from_str("target node out of range")));
        }
        let mut order: Vec<NodeId> = Vec::new();
        let mut visited: Vec<bool> = Vec::new();
        let mut on_stack: Vec<bool> = Vec::new();
        let mut z: usize = 0;
        while z < n
            invariant
                visited@.len() == z <= n,
                on_stack@.len() == z,
                forall|x: int| 0 <= x < z ==> !visited@[x] && !on_stack@[x],
            decreases n - z,
        {
            visited.push(false);
            on_stack.push(false);
            z = z + 1;
        }
        let mut stack: Vec<(NodeId, bool)> = Vec::new();
        stack.push((target, false));
        proof {
            assert(reaches(nodes, t, t)) by {
                let p = seq![t];
                assert(is_path(nodes, p) && p.first() == t && p.last() == t);
            }
            lemma_count_trues_bounds(visited@);
            lemma_count_trues_all_false(visited@);
            assert((stack@[0].0.0 as int) == t);
        }
        while stack.len() != 0
            invariant
                n == nodes.len(),
                self.nodes@ == nodes,
                wfh == nodes_wf(nodes),
                0 <= t < n,
                visited@.len() == n,
                on_stack@.len() == n,
                forall|k: int|
                    0 <= k < order@.len() ==> ((#[trigger] order@[k]).0 as int) < n
                        && visited@[order@[k].0 as int] && !on_stack@[order@[k].0 as int],
                forall|k1: int, k2: int| 0 <= k1 < k2 < order@.len() ==> order@[k1] != order@[k2],
                forall|s: int|
                    0 <= s < stack@.len() && (#[trigger] stack@[s]).1 ==> ((stack@[s].0.0 as int)
                        < n && visited@[stack@[s].0.0 as int] && on_stack@[stack@[s].0.0 as int]),
                forall|s1: int, s2: int|
                    0 <= s1 < s2 < stack@.len() && (#[trigger] stack@[s1]).1
                        && (#[trigger] stack@[s2]).1 ==> stack@[s1].0 != stack@[s2].0,
                forall|x: int|
                    0 <= x < n && #[trigger] on_stack@[x] ==> exists|s: int|
                        0 <= s < stack@.len() && ((#[trigger] stack@[s]).0.0 as int) == x
                            && stack@[s].1,
                forall|x: int| 0 <= x < n && #[trigger] on_stack@[x] ==> visited@[x],
                forall|x: int| 0 <= x < n && #[trigger] visited@[x] ==> reaches(nodes, t, x),
                forall|s: int|
                    0 <= s < stack@.len() ==> reaches(nodes, t, ((#[trigger] stack@[s]).0.0 as int)),
                order_respects_deps(nodes, order@),
                forall|s: int|
                    0 <= s < stack@.len() && (#[trigger] stack@[s]).1 ==> match nodes[stack@[s].0.0 as int] {
                        Node::Op { inputs, .. } => forall|m: int|
                            0 <= m < inputs@.len() ==> scheduled(order@, #[trigger] inputs@[m])
                                || exists|s2: int|
                                s < s2 < stack@.len() && stack@[s2].0 == inputs@[m],
                        _ => true,
                    },
                forall|x: int|
                    0 <= x < n && #[trigger] visited@[x] && !on_stack@[x] ==> scheduled(
                        order@,
                        NodeId(x as usize),
                    ),
                visited@[t] || exists|s: int|
                    0 <= s < stack@.len() && ((#[trigger] stack@[s]).0.0 as int) == t,
                wfh ==> forall|s: int|
                    0 <= s < stack@.len() ==> ((#[trigger] stack@[s]).0.0 as int) < n,
                wfh ==> forall|s1: int, s2: int|
                    0 <= s1 < s2 < stack@.len() && (#[trigger] stack@[s1]).1 ==> ((
                    #[trigger] stack@[s2]).0.0 as int) < (stack@[s1].0.0 as int),
            decreases n - count_trues(visited@), stack@.len(),
        {
            let ghost pre_stack = stack@;
            let ghost pre_order = order@;
            let top = stack.pop();
            let (id, processed) = match top {
                Some(pair) => pair,
                None => {
                    proof {
                        assert(false);
                    }
                    return Err(GPError::InferenceError(String::from_str("empty stack")));
                },
            };
            let ghost top_pos = pre_stack.len() - 1;
            if processed {
                on_stack[id.0] = false;
                order.push(id);
                proof {
                    lemma_count_trues_bounds(visited@);
                    // the retired entry was this node's unique processed one;
                    // every other on-stack node keeps its pending entry
                    assert forall|x: int| 0 <= x < n && #[trigger] on_stack@[x] implies exists|
                        s: int,
                    |
                        0 <= s < stack@.len() && ((#[trigger] stack@[s]).0.0 as int) == x
                            && stack@[s].1 by {
                        let s = choose|s: int|
                            0 <= s < pre_stack.len() && ((#[trigger] pre_stack[s]).0.0 as int) == x
                                && pre_stack[s].1;
                        assert(x != id.0 as int);
                        assert(s != top_pos);
                        assert(stack@[s] == pre_stack[s]);
                    }
                    // nothing sat above the retired entry, so all its inputs
                    // were already emitted
                    assert(match nodes[id.0 as int] {
                        Node::Op { inputs, .. } => forall|m: int|
                            0 <= m < inputs@.len() ==> scheduled(pre_order, #[trigger] inputs@[m]),
                        _ => true,
                    }) by {
                        assert(pre_stack[top_pos].1 && pre_stack[top_pos].0 == id);
                    }
                    assert((id.0 as int) < n) by {
                        assert(pre_stack[top_pos].1);
                    }
                    assert(order@[order@.len() - 1] == id);
                    // every previously retired node stays scheduled, and the
                    // newly retired one is scheduled at the end
                    assert forall|x: int|
                        0 <= x < n && #[trigger] visited@[x] && !on_stack@[x] implies scheduled(
                        order@,
                        NodeId(x as usize),
                    ) by {
                        if x == id.0 as int {
                            assert(NodeId(x as usize) == id);
                        } else {
                            assert(scheduled(pre_order, NodeId(x as usize)));
                            let l = choose|l: int|
                                0 <= l < pre_order.len() && pre_order[l] == NodeId(x as usize);
                            assert(order@[l] == NodeId(x as usize));
                        }
                    }
                    assert forall|m: int|
                        0 <= m < node_inputs_of(nodes, id.0 as int).len() implies scheduled(
                        pre_order,
                        #[trigger] node_inputs_of(nodes, id.0 as int)[m],
                    ) by {
                        assert(match nodes[id.0 as int] {
                            Node::Op { inputs, .. } => inputs@ == node_inputs_of(
                                nodes,
                                id.0 as int,
                            ),
                            _ => true,
                        });
                    }
                    assert(order_respects_deps(nodes, order@)) by {
                        lemma_deps_push(nodes, pre_order, id);
                        assert(order@ =~= pre_order.push(id));
                    }
                    // pending entries that relied on the retired one may now
                    // point at the schedule instead
                    assert forall|s: int|
                        0 <= s < stack@.len() && (#[trigger] stack@[s]).1 implies match
                        nodes[stack@[s].0.0 as int] {
                        Node::Op { inputs, .. } => forall|m: int|
                            0 <= m < inputs@.len() ==> scheduled(order@, #[trigger] inputs@[m])
                                || exists|s2: int|
                                s < s2 < stack@.len() && stack@[s2].0 == inputs@[m],
                        _ => true,
                    } by {
                        assert(stack@[s] == pre_stack[s]);
                        match nodes[stack@[s].0.0 as int] {
                            Node::Op { inputs, .. } => {
                                assert forall|m: int| 0 <= m < inputs@.len() implies scheduled(
                                    order@,
                                    #[trigger] inputs@[m],
                                ) || exists|s2: int|
                                    s < s2 < stack@.len() && stack@[s2].0 == inputs@[m] by {
                                    if scheduled(pre_order, inputs@[m]) {
                                        let l = choose|l: int|
                                            0 <= l < pre_order.len() && pre_order[l] == inputs@[m];
                                        assert(order@[l] == inputs@[m]);
                                    } else {
                                        let s2 = choose|s2: int|
                                            s < s2 < pre_stack.len() && (#[trigger] pre_stack[s2]).0
                                                == inputs@[m];
                                        if s2 == top_pos {
                                            assert(inputs@[m] == id);
                                            assert(order@[order@.len() - 1] == id);
                                        } else {
                                            assert(stack@[s2] == pre_stack[s2]);
                                        }
                                    }
                                }
                            },
                            _ => {},
                        }
                    }
                    // the target keeps a witness
                    assert(visited@[t] || exists|s: int|
                        0 <= s < stack@.len() && ((#[trigger] stack@[s]).0.0 as int) == t) by {
                        if !visited@[t] {
                            let s = choose|s: int|
                                0 <= s < pre_stack.len() && ((#[trigger] pre_stack[s]).0.0 as int)
                                    == t;
                            if s == top_pos {
                                assert((id.0 as int) == t);
                                assert(visited@[t]);
                            } else {
                                assert(stack@[s] == pre_stack[s]);
                            }
                        }
                    }
                }
                continue;
            }
            if id.0 >= n {
                proof {
                    if wfh {
                        assert((pre_stack[top_pos].0.0 as int) < n);
                    }
                }
                return Err(GPError::InferenceError(String::from_str("node index out of range")));
            }
            if on_stack[id.0] {
                proof {
                    if wfh {
                        let x = id.0 as int;
                        let s = choose|s: int|
                            0 <= s < pre_stack.len() && ((#[trigger] pre_stack[s]).0.0 as int) == x
                                && pre_stack[s].1;
                        assert(s < top_pos);
                        assert((pre_stack[top_pos].0.0 as int) < x);
                    }
                }
                return Err(GPError::InferenceError(String::from_str("Cycle detected in graph")));
            }
            if visited[id.0] {
                proof {
                    lemma_count_trues_bounds(visited@);
                    assert forall|x: int| 0 <= x < n && #[trigger] on_stack@[x] implies exists|
                        s: int,
                    |
                        0 <= s < stack@.len() && ((#[trigger] stack@[s]).0.0 as int) == x
                            && stack@[s].1 by {
                        let s = choose|s: int|
                            0 <= s < pre_stack.len() && ((#[trigger] pre_stack[s]).0.0 as int) == x
                                && pre_stack[s].1;
                        assert(s != top_pos);
                        assert(stack@[s] == pre_stack[s]);
                    }
                    // a pending witness that was the skipped entry is an
                    // already-emitted node
                    assert(visited@[id.0 as int] && !on_stack@[id.0 as int]);
                    assert(scheduled(order@, id));
                    assert forall|s: int|
                        0 <= s < stack@.len() && (#[trigger] stack@[s]).1 implies match
                        nodes[stack@[s].0.0 as int] {
                        Node::Op { inputs, .. } => forall|m: int|
                            0 <= m < inputs@.len() ==> scheduled(order@, #[trigger] inputs@[m])
                                || exists|s2: int|
                                s < s2 < stack@.len() && stack@[s2].0 == inputs@[m],
                        _ => true,
                    } by {
                        assert(stack@[s] == pre_stack[s]);
                        match nodes[stack@[s].0.0 as int] {
                            Node::Op { inputs, .. } => {
                                assert forall|m: int| 0 <= m < inputs@.len() implies scheduled(
                                    order@,
                                    #[trigger] inputs@[m],
                                ) || exists|s2: int|
                                    s < s2 < stack@.len() && stack@[s2].0 == inputs@[m] by {
                                    if !scheduled(order@, inputs@[m]) {
                                        let s2 = choose|s2: int|
                                            s < s2 < pre_stack.len() && (#[trigger] pre_stack[s2]).0
                                                == inputs@[m];
                                        if s2 == top_pos {
                                            assert(inputs@[m] == id);
                                            assert(false);
                                        } else {
                                            assert(stack@[s2] == pre_stack[s2]);
                                        }
                                    }
                                }
                            },
                            _ => {},
                        }
                    }
                    assert(visited@[t] || exists|s: int|
                        0 <= s < stack@.len() && ((#[trigger] stack@[s]).0.0 as int) == t) by {
                        if !visited@[t] {
                            let s = choose|s: int|
                                0 <= s < pre_stack.len() && ((#[trigger] pre_stack[s]).0.0 as int)
                                    == t;
                            if s == top_pos {
                                assert(id.0 as int == t);
                                assert(visited@[t]);
                            } else {
                                assert(stack@[s] == pre_stack[s]);
                            }
                        }
                    }
                }
                continue;
            }
            proof {
                lemma_count_trues_update(visited@, id.0 as int);
                lemma_count_trues_bounds(visited@.update(id.0 as int, true));
            }
            visited[id.0] = true;
            on_stack[id.0] = true;
            stack.push((id, true));
            let ghost mid_stack = stack@;
            let empty_inputs: Vec<NodeId> = Vec::new();
            let node_inputs: &Vec<NodeId> = match &self.nodes[id.0] {
                Node::Op { inputs, .. } => inputs,
                _ => &empty_inputs,
            };
            push_pending(&mut stack, node_inputs);
            proof {
                let ni = node_inputs@;
                let base = mid_stack.len() as int;
                assert(stack@.len() == base + ni.len());
                assert(mid_stack[base - 1] == (id, true));
                assert(forall|s: int| 0 <= s < base ==> #[trigger] stack@[s] == mid_stack[s]);
                assert(forall|m: int|
                    0 <= m < ni.len() ==> #[trigger] stack@[base + m] == (ni[m], false));
                // every pushed input is a dependency edge away from a
                // reachable node
                assert(reaches(nodes, t, id.0 as int));
                assert forall|m: int| 0 <= m < ni.len() implies edge(
                    nodes,
                    id.0 as int,
                    ((#[trigger] ni[m]).0 as int),
                ) by {
                    assert(nodes[id.0 as int] matches Node::Op { inputs, .. } && inputs@ == ni);
                }
                assert forall|s: int| 0 <= s < stack@.len() implies reaches(
                    nodes,
                    t,
                    ((#[trigger] stack@[s]).0.0 as int),
                ) by {
                    if s < base - 1 {
                        assert(stack@[s] == pre_stack[s]);
                    } else if s >= base {
                        lemma_reaches_step(nodes, t, id.0 as int, (ni[s - base].0 as int));
                    }
                }
                // processed entries: the new one is fully pending above it,
                // the old ones keep their witnesses
                assert forall|s: int|
                    0 <= s < stack@.len() && (#[trigger] stack@[s]).1 implies match nodes[stack@[s].0.0 as int] {
                    Node::Op { inputs, .. } => forall|m: int|
                        0 <= m < inputs@.len() ==> scheduled(order@, #[trigger] inputs@[m])
                            || exists|s2: int|
                            s < s2 < stack@.len() && stack@[s2].0 == inputs@[m],
                    _ => true,
                } by {
                    if s == base - 1 {
                        match nodes[stack@[s].0.0 as int] {
                            Node::Op { inputs, .. } => {
                                assert(inputs@ == ni);
                                assert forall|m: int| 0 <= m < inputs@.len() implies scheduled(
                                    order@,
                                    #[trigger] inputs@[m],
                                ) || exists|s2: int|
                                    s < s2 < stack@.len() && stack@[s2].0 == inputs@[m] by {
                                    assert(stack@[base + m] == (ni[m], false));
                                    assert(stack@[base + m].0 == inputs@[m]);
                                }
                            },
                            _ => {},
                        }
                    } else if s < base - 1 {
                        assert(stack@[s] == pre_stack[s]);
                        match nodes[stack@[s].0.0 as int] {
                            Node::Op { inputs, .. } => {
                                assert forall|m: int| 0 <= m < inputs@.len() implies scheduled(
                                    order@,
                                    #[trigger] inputs@[m],
                                ) || exists|s2: int|
                                    s < s2 < stack@.len() && stack@[s2].0 == inputs@[m] by {
                                    if !scheduled(order@, inputs@[m]) {
                                        let s2 = choose|s2: int|
                                            s < s2 < pre_stack.len() && (#[trigger] pre_stack[s2]).0
                                                == inputs@[m];
                                        if s2 == top_pos {
                                            assert(inputs@[m] == id);
                                            assert(stack@[base - 1].0 == id);
                                        } else {
                                            assert(stack@[s2] == pre_stack[s2]);
                                        }
                                    }
                                }
                            },
                            _ => {},
                        }
                    }
                }
                // every on-stack node still has its processed entry
                assert forall|x: int| 0 <= x < n && #[trigger] on_stack@[x] implies exists|s: int|
                    0 <= s < stack@.len() && ((#[trigger] stack@[s]).0.0 as int) == x
                        && stack@[s].1 by {
                    if x == id.0 as int {
                        assert(stack@[base - 1] == (id, true));
                    } else {
                        let s = choose|s: int|
                            0 <= s < pre_stack.len() && ((#[trigger] pre_stack[s]).0.0 as int) == x
                                && pre_stack[s].1;
                        assert(s != top_pos);
                        assert(stack@[s] == pre_stack[s]);
                    }
                }
                // the fresh processed entry is for a node no other processed
                // entry names
                assert forall|s1: int, s2: int|
                    0 <= s1 < s2 < stack@.len() && (#[trigger] stack@[s1]).1 && (
                #[trigger] stack@[s2]).1 implies stack@[s1].0 != stack@[s2].0 by {
                    if s2 == base - 1 {
                        assert(stack@[s1] == pre_stack[s1]);
                        assert(!pre_stack[s1].1 || (pre_stack[s1].0.0 as int) != (id.0 as int));
                    }
                }
                // the target keeps a witness
                assert(visited@[t] || exists|s: int|
                    0 <= s < stack@.len() && ((#[trigger] stack@[s]).0.0 as int) == t) by {
                    if !visited@[t] {
                        let s = choose|s: int|
                            0 <= s < pre_stack.len() && ((#[trigger] pre_stack[s]).0.0 as int) == t;
                        if s == top_pos {
                            assert(id.0 as int == t);
                        } else {
                            assert(stack@[s] == pre_stack[s]);
                        }
                    }
                }
                // under well-formed references the new entries stay in range
                // and keep shrinking
                if wfh {
                    assert(forall|k: int|
                        0 <= k < ni.len() ==> ((#[trigger] ni[k]).0 as int) < (id.0 as int));
                    assert forall|s: int| 0 <= s < stack@.len() implies ((
                    #[trigger] stack@[s]).0.0 as int) < n by {
                        if s < base - 1 {
                            assert(stack@[s] == pre_stack[s]);
                        }
                    }
                    assert forall|s1: int, s2: int|
                        0 <= s1 < s2 < stack@.len() && (#[trigger] stack@[s1]).1 implies ((
                    #[trigger] stack@[s2]).0.0 as int) < (stack@[s1].0.0 as int) by {
                        if s1 < base - 1 {
                            assert(stack@[s1] == pre_stack[s1]);
                            assert((pre_stack[top_pos].0.0 as int) < (stack@[s1].0.0 as int));
                            if s2 < base - 1 {
                                assert(stack@[s2] == pre_stack[s2]);
                            } else if s2 == base - 1 {
                                assert((stack@[s2].0.0 as int) == (id.0 as int));
                            } else {
                                assert((stack@[s2].0.0 as int) < (id.0 as int));
                            }
                        } else if s1 == base - 1 {
                            assert((stack@[s2].0.0 as int) < (id.0 as int));
                        }
                    }
                }
            }
        }
        proof {
            // the stack is empty, so nothing is on it, every visited node
            // was emitted, and the target is among them
            assert forall|x: int| 0 <= x < n implies !on_stack@[x] by {
                if on_stack@[x] {
                    let s = choose|s: int|
                        0 <= s < stack@.len() && ((#[trigger] stack@[s]).0.0 as int) == x
                            && stack@[s].1;
                    assert(false);
                }
            }
            assert(visited@[t]);
            assert(scheduled(order@, NodeId(t as usize)));
            let l0 = choose|l: int| 0 <= l < order@.len() && order@[l] == NodeId(t as usize);
            assert((order@[l0].0 as int) == t);
            // the emitted set is closed under dependency edges, so every
            // reachable node is emitted
            assert forall|x: int| #[trigger] reaches(nodes, t, x) implies exists|k: int|
                0 <= k < order@.len() && ((#[trigger] order@[k]).0 as int) == x by {
                let p = choose|p: Seq<int>| is_path(nodes, p) && p.first() == t && p.last() == x;
                lemma_scheduled_along_path(nodes, order@, p);
            }
            assert(exists|k: int| 0 <= k < order@.len() && ((#[trigger] order@[k]).0 as int) == t);
            assert(topo_ok(nodes, t, order@));
        }
        Ok(order)
    }


    /// Runs the forward pass: computes every node the target needs, in
    /// topological order, memoizing results in the value cache. Input nodes
    /// are refreshed from their stored tensors (reusing the cached buffer
    /// when shapes match), parameters are materialized on first use, and
    /// operation nodes either write into their existing buffer or allocate
    /// on first use.
    ///
    /// Returns exactly the node's mathematical evaluation ([`eval`]): a
    /// successful result is pinned to it, and on a graph whose operations
    /// reference only strictly earlier nodes the call succeeds whenever a
    /// backend is attached and the evaluation is defined.
    #[verifier::rlimit(100)]
    #[verifier::spinoff_prover]
    pub fn execute(&mut self, target: NodeId) -> (r: GPResult<Tensor>)
        requires
            old(self).wf(),
        ensures
            final(self).wf(),
            final(self).nodes_view() == old(self).nodes_view(),
            final(self).gradients_view() == old(self).gradients_view(),
            final(self).has_backend() == old(self).has_backend(),
            final(self).memory_plan_view() == old(self).memory_plan_view(),
            r matches Ok(t) ==> old(self).has_backend() && eval::<B, C>(
                old(self).nodes_view(),
                target.0 as int,
            ) == Some(t@),
            old(self).has_backend() && nodes_wf(old(self).nodes_view()) && eval::<B, C>(
                old(self).nodes_view(),
                target.0 as int,
            ) is Some ==> r is Ok,
            !old(self).has_backend() && nodes_wf(old(self).nodes_view()) && (target.0 as int)
                < old(self).nodes_view().len() ==> r matches Err(GPError::BackendNotInitialized),
            !old(self).has_backend() ==> final(self).values_view() == old(self).values_view(),
            r matches Ok(res) ==> final(self).values_view()[target.0 as int] == Some(res@),
            r is Ok ==> forall|x: int|
                #[trigger] reaches(old(self).nodes_view(), target.0 as int, x) ==> 0 <= x < old(
                    self,
                ).nodes_view().len() && (match eval::<B, C>(old(self).nodes_view(), x) {
                    Some(v) => final(self).values_view()[x] == Some(v),
                    None => false,
                }),
            r is Ok ==> forall|x: int|
                0 <= x < old(self).nodes_view().len() && !reaches(
                    old(self).nodes_view(),
                    target.0 as int,
                    x,
                ) ==> #[trigger] final(self).values_view()[x] == old(self).values_view()[x],
            r is Err ==> forall|x: int|
                0 <= x < old(self).nodes_view().len() ==> (#[trigger] final(self).values_view()[x]
                    == old(self).values_view()[x] || final(self).values_view()[x] is None || (
                match eval::<B, C>(old(self).nodes_view(), x) {
                    Some(v) => final(self).values_view()[x] == Some(v),
                    None => false,
                })),
    {
        let ghost nodes = self.nodes_view();
        let ghost t = target.0 as int;
        let order = match self.topological_sort(target) {
            Ok(o) => o,
            Err(e) => {
                proof {
                    if eval::<B, C>(nodes, t) is Some {
                        assert(0 <= t < nodes.len());
                    }
                }
                return Err(e);
            },
        };
        let backend = match &self.backend {
            Some(b) => b,
            None => {
                return Err(GPError::BackendNotInitialized);
            },
        };
        let n = self.nodes.len();
        let mut o: usize = 0;
        while o < order.len()
            invariant
                n == nodes.len(),
                nodes == old(self).nodes_view(),
                t == target.0 as int,
                old(self).wf(),
                self.nodes@ == nodes,
                self.backend == old(self).backend,
                self.backend is Some,
                self.gradients@ == old(self).gradients@,
                self.memory_plan == old(self).memory_plan,
                self.buffer_pool == old(self).buffer_pool,
                self.values@.len() == n,
                topo_ok(nodes, t, order@),
                0 <= o <= order@.len(),
                params_synced(nodes, self.values_view()),
                // every node processed so far carries its evaluation
                forall|j: int|
                    0 <= j < o ==> eval::<B, C>(nodes, ((#[trigger] order@[j]).0 as int)) is Some
                        && self.values_view()[order@[j].0 as int] == Some(
                        eval::<B, C>(nodes, (order@[j].0 as int)).unwrap(),
                    ),
                // a slot is either untouched or holds its node's evaluation
                forall|x: int|
                    0 <= x < n ==> (#[trigger] self.values_view()[x] == old(self).values_view()[x]
                        || (match eval::<B, C>(nodes, x) {
                        Some(v) => self.values_view()[x] == Some(v),
                        None => false,
                    })),
                // only nodes the target needs are ever touched
                forall|x: int|
                    0 <= x < n && #[trigger] self.values_view()[x] != old(self).values_view()[x]
                        ==> reaches(nodes, t, x),
            decreases order@.len() - o,
        {
            let id = order[o];
            proof {
                assert((id.0 as int) < n);
                assert(reaches(nodes, t, id.0 as int));
            }
            let ghost pre_values = self.values_view();
            let node = &self.nodes[id.0];
            match process_node_slot(
                &mut self.values,
                node,
                id,
                backend,
                Ghost(nodes),
                Ghost(t),
                Ghost(order@),
                Ghost(o as int),
            ) {
                Ok(()) => {
                    proof {
                        lemma_processed_extend::<B, C>(
                            nodes,
                            order@,
                            o as int,
                            pre_values,
                            self.values_view(),
                            id,
                        );
                        assert forall|x: int|
                            0 <= x < n implies (#[trigger] self.values_view()[x] == old(
                            self,
                        ).values_view()[x] || (match eval::<B, C>(nodes, x) {
                            Some(v) => self.values_view()[x] == Some(v),
                            None => false,
                        })) by {
                            if x != id.0 as int {
                                assert(self.values_view()[x] == pre_values[x]);
                            }
                        }
                        assert forall|x: int|
                            0 <= x < n && #[trigger] self.values_view()[x] != old(
                            self,
                        ).values_view()[x] implies reaches(nodes, t, x) by {
                            if x != id.0 as int {
                                assert(self.values_view()[x] == pre_values[x]);
                            }
                        }
                    }
                },
                Err(e) => {
                    proof {
                        // every slot stays untouched, cleared or computed
                        assert forall|x: int|
                            0 <= x < n implies (#[trigger] self.values_view()[x] == old(
                            self,
                        ).values_view()[x] || self.values_view()[x] is None || (match eval::<
                            B,
                            C,
                        >(nodes, x) {
                            Some(v) => self.values_view()[x] == Some(v),
                            None => false,
                        })) by {
                            if x != id.0 as int {
                                assert(self.values_view()[x] == pre_values[x]);
                            }
                        }
                    }
                    return Err(e);
                },
            }
            o = o + 1;
        }
        proof {
            let kt = choose|k: int| 0 <= k < order@.len() && ((#[trigger] order@[k]).0) == t;
            assert(eval::<B, C>(nodes, t) is Some);
            assert(self.values_view()[t] == Some(eval::<B, C>(nodes, t).unwrap()));
            // everything the target needs was scheduled and computed; the
            // rest is untouched
            assert forall|x: int| #[trigger] reaches(nodes, t, x) implies 0 <= x < n && (match
                eval::<B, C>(nodes, x) {
                Some(v) => self.values_view()[x] == Some(v),
                None => false,
            }) by {
                let k = choose|k: int| 0 <= k < order@.len() && ((#[trigger] order@[k]).0 as int)
                    == x;
                assert(eval::<B, C>(nodes, (order@[k].0 as int)) is Some);
                assert(self.values_view()[order@[k].0 as int] == Some(
                    eval::<B, C>(nodes, (order@[k].0 as int)).unwrap(),
                ));
            }
        }
        match &self.values[target.0] {
            Some(v) => Ok(v.clone()),
            None => {
                proof {
                    assert(false);
                }
                Err(GPError::InferenceError(String::from_str("target node not computed")))
            },
        }
    }

    /// Runs the backward pass: reverse-mode automatic differentiation. The
    /// incoming gradient is accumulated into the target's slot, the target's
    /// schedule is walked in reverse, and every operation with a pending
    /// gradient hands one contribution to each input, summed into that
    /// input's slot — the sum is what combines fan-out correctly. Leaf nodes
    /// retain their accumulated gradients. Input values must already be
    /// cached by a prior forward pass.
    ///
    /// A successful pass leaves exactly [`backward_result`] for some valid
    /// schedule of the target in the gradient cache.
    #[verifier::rlimit(100)]
    #[verifier::spinoff_prover]
    pub fn backward(&mut self, target: NodeId, grad_output: Tensor) -> (r: GPResult<()>)
        requires
            old(self).wf(),
        ensures
            final(self).wf(),
            final(self).nodes_view() == old(self).nodes_view(),
            final(self).values_view() == old(self).values_view(),
            final(self).has_backend() == old(self).has_backend(),
            final(self).memory_plan_view() == old(self).memory_plan_view(),
            r is Ok ==> old(self).has_backend() && exists|order: Seq<NodeId>|
                topo_ok(old(self).nodes_view(), target.0 as int, order) && backward_result::<B, C>(
                    old(self).nodes_view(),
                    old(self).values_view(),
                    old(self).gradients_view(),
                    grad_output@,
                    target,
                    order,
                ) == Some(final(self).gradients_view()),
            !old(self).has_backend() && nodes_wf(old(self).nodes_view()) && (target.0 as int)
                < old(self).nodes_view().len() ==> r matches Err(GPError::BackendNotInitialized),
            old(self).has_backend() && nodes_wf(old(self).nodes_view()) && (target.0 as int) < old(
                self,
            ).nodes_view().len() && (forall|order: Seq<NodeId>|
                topo_ok(old(self).nodes_view(), target.0 as int, order)
                    ==> #[trigger] backward_result::<B, C>(
                    old(self).nodes_view(),
                    old(self).values_view(),
                    old(self).gradients_view(),
                    grad_output@,
                    target,
                    order,
                ) is Some) ==> r is Ok,
    {
        let ghost nodes = self.nodes_view();
        let ghost t = target.0 as int;
        let ghost grads0 = self.gradients_view();
        let ghost vv = self.values_view();
        let ghost gview = grad_output@;
        let ghost owed = old(self).has_backend() && nodes_wf(old(self).nodes_view()) && (
        target.0 as int) < old(self).nodes_view().len() && (forall|order: Seq<NodeId>|
            topo_ok(old(self).nodes_view(), target.0 as int, order)
                ==> #[trigger] backward_result::<B, C>(
                old(self).nodes_view(),
                old(self).values_view(),
                old(self).gradients_view(),
                grad_output@,
                target,
                order,
            ) is Some);
        let order = match self.topological_sort(target) {
            Ok(o) => o,
            Err(e) => {
                proof {
                    if owed {
                        assert(false);
                    }
                }
                return Err(e);
            },
        };
        let backend = match &self.backend {
            Some(b) => b,
            None => {
                return Err(GPError::BackendNotInitialized);
            },
        };
        let n = self.nodes.len();
        proof {
            assert((target.0 as int) < n);
        }
        // seed: accumulate the incoming gradient into the target's slot
        let ghost pre_seed = self.gradients_view();
        let seed_slot = self.gradients[target.0].take();
        match seed_slot {
            Some(existing) => {
                let s = match backend.add(&existing, &grad_output) {
                    Ok(s) => s,
                    Err(e) => {
                        proof {
                            assert(params_synced(nodes, self.values_view()));
                            if owed {
                                // a failing seed means the whole pass is
                                // undefined for every schedule
                                assert(grads0[t] == Some(existing@));
                                assert(accumulate_one::<B>(grads0, target, gview) is None);
                                assert(topo_ok(old(self).nodes_view(), target.0 as int, order@));
                                assert(backward_result::<B, C>(
                                    old(self).nodes_view(),
                                    old(self).values_view(),
                                    old(self).gradients_view(),
                                    grad_output@,
                                    target,
                                    order@,
                                ) is Some);
                                assert(backward_result::<B, C>(
                                    nodes,
                                    vv,
                                    grads0,
                                    gview,
                                    target,
                                    order@,
                                ) is Some);
                                assert(false);
                            }
                        }
                        return Err(e);
                    },
                };
                self.gradients[target.0] = Some(s);
            },
            None => {
                self.gradients[target.0] = Some(grad_output);
            },
        }
        let ghost seeded = self.gradients_view();
        proof {
            assert(cache_view(self.gradients@) =~= match grads0[t] {
                Some(e) => grads0.update(t, Some(B::add_spec(e, grad_output@).unwrap())),
                None => grads0.update(t, Some(grad_output@)),
            });
            assert(accumulate_one::<B>(grads0, target, grad_output@) == Some(seeded));
        }
        let ghost items = order@.reverse();
        proof {
            assert(items.skip(0) =~= items);
            if owed {
                assert(topo_ok(old(self).nodes_view(), target.0 as int, order@));
                assert(backward_result::<B, C>(
                    old(self).nodes_view(),
                    old(self).values_view(),
                    old(self).gradients_view(),
                    grad_output@,
                    target,
                    order@,
                ) is Some);
                assert(backward_result::<B, C>(nodes, vv, grads0, gview, target, order@)
                    is Some);
            }
        }
        // walk the schedule in reverse, accumulating into input slots
        let mut i: usize = 0;
        while i < order.len()
            invariant
                n == nodes.len(),
                nodes == old(self).nodes_view(),
                t == target.0 as int,
                old(self).wf(),
                vv == old(self).values_view(),
                self.nodes@ == nodes,
                self.backend == old(self).backend,
                self.backend is Some,
                self.values@ == old(self).values@,
                self.memory_plan == old(self).memory_plan,
                self.buffer_pool == old(self).buffer_pool,
                self.gradients@.len() == n,
                topo_ok(nodes, t, order@),
                items == order@.reverse(),
                0 <= i <= order@.len(),
                accumulate_one::<B>(grads0, target, gview) == Some(seeded),
                owed == (old(self).has_backend() && nodes_wf(old(self).nodes_view()) && (
                target.0 as int) < old(self).nodes_view().len() && (forall|order: Seq<NodeId>|
                    topo_ok(old(self).nodes_view(), target.0 as int, order)
                        ==> #[trigger] backward_result::<B, C>(
                        old(self).nodes_view(),
                        old(self).values_view(),
                        old(self).gradients_view(),
                        grad_output@,
                        target,
                        order,
                    ) is Some)),
                owed ==> backward_result::<B, C>(nodes, vv, grads0, gview, target, order@) is Some,
                backward_fold::<B, C>(nodes, vv, self.gradients_view(), items.skip(i as int))
                    == backward_fold::<B, C>(nodes, vv, seeded, items),
            decreases order@.len() - i,
        {
            let id = order[order.len() - 1 - i];
            proof {
                assert(items[i as int] == id);
                assert((id.0 as int) < n);
                assert(items.skip(i as int)[0] == id);
                assert(items.skip(i as int).drop_first() =~= items.skip(i + 1));
            }
            let ghost pre_state = self.gradients_view();
            let pending = match &self.gradients[id.0] {
                Some(g) => Some(g.clone()),
                None => None,
            };
            let ghost gv = match pre_state[id.0 as int] {
                Some(x) => x,
                None => gview,
            };
            let g = match pending {
                Some(g) => g,
                None => {
                    proof {
                        assert(backward_step::<B, C>(nodes, vv, pre_state, id) == Some(pre_state));
                    }
                    i = i + 1;
                    continue;
                },
            };
            match &self.nodes[id.0] {
                Node::Op { op, inputs } => {
                    let input_vals = match gather_cached_values(&self.values, inputs) {
                        Ok(vals) => vals,
                        Err(e) => {
                            proof {
                                if owed {
                                    assert(backward_step::<B, C>(nodes, vv, pre_state, id)
                                        is None);
                                    assert(backward_fold::<B, C>(
                                        nodes,
                                        vv,
                                        pre_state,
                                        items.skip(i as int),
                                    ) is None);
                                    assert(backward_fold::<B, C>(nodes, vv, seeded, items)
                                        is None);
                                    assert(backward_result::<B, C>(
                                        nodes,
                                        vv,
                                        grads0,
                                        gview,
                                        target,
                                        order@,
                                    ) is None);
                                    assert(false);
                                }
                            }
                            return Err(e);
                        },
                    };
                    proof {
                        assert(gathered_values(vv, inputs@) == Some(tensor_views(input_vals@)));
                    }
                    let input_grads = match op.backward(&input_vals, &g, backend) {
                        Ok(gs) => gs,
                        Err(e) => {
                            proof {
                                if owed {
                                    assert(backward_step::<B, C>(nodes, vv, pre_state, id)
                                        is None);
                                    assert(backward_fold::<B, C>(
                                        nodes,
                                        vv,
                                        pre_state,
                                        items.skip(i as int),
                                    ) is None);
                                    assert(backward_fold::<B, C>(nodes, vv, seeded, items)
                                        is None);
                                    assert(backward_result::<B, C>(
                                        nodes,
                                        vv,
                                        grads0,
                                        gview,
                                        target,
                                        order@,
                                    ) is None);
                                    assert(false);
                                }
                            }
                            return Err(e);
                        },
                    };
                    if input_grads.len() != inputs.len() {
                        proof {
                            if owed {
                                assert(backward_step::<B, C>(nodes, vv, pre_state, id) is None);
                                assert(backward_fold::<B, C>(
                                    nodes,
                                    vv,
                                    pre_state,
                                    items.skip(i as int),
                                ) is None);
                                assert(backward_fold::<B, C>(nodes, vv, seeded, items) is None);
                                assert(backward_result::<B, C>(
                                    nodes,
                                    vv,
                                    grads0,
                                    gview,
                                    target,
                                    order@,
                                ) is None);
                                assert(false);
                            }
                        }
                        return Err(GPError::InferenceError(String::from_str(
                            "backward returned a gradient count different from the input count",
                        )));
                    }
                    proof {
                        assert(op_backward_spec::<B, C>(*op, tensor_views(input_vals@), g@)
                            == Some(tensor_views(input_grads@)));
                    }
                    proof {
                        assert(inputs@.skip(0) =~= inputs@);
                        assert(tensor_views(input_grads@).skip(0) =~= tensor_views(input_grads@));
                        assert(self.gradients_view() == pre_state);
                    }
                    // accumulate one contribution per input, in input order
                    let mut k: usize = 0;
                    while k < inputs.len()
                        invariant
                            n == nodes.len(),
                            nodes == old(self).nodes_view(),
                            old(self).wf(),
                            vv == old(self).values_view(),
                            self.nodes@ == nodes,
                            self.backend == old(self).backend,
                            self.backend is Some,
                            self.values@ == old(self).values@,
                            self.memory_plan == old(self).memory_plan,
                            self.buffer_pool == old(self).buffer_pool,
                            self.gradients@.len() == n,
                            0 <= k <= inputs@.len(),
                            input_grads@.len() == inputs@.len(),
                            // everything needed to see that a failed
                            // accumulation makes this whole step undefined
                            0 <= i < order@.len(),
                            items == order@.reverse(),
                            items[i as int] == id,
                            0 <= (id.0 as int) < n,
                            pre_state.len() == n,
                            pre_state[id.0 as int] == Some(gv),
                            nodes[id.0 as int] matches Node::Op { op: o2, inputs: in2 } && o2
                                == *op && in2@ == inputs@,
                            gathered_values(vv, inputs@) == Some(tensor_views(input_vals@)),
                            op_backward_spec::<B, C>(*op, tensor_views(input_vals@), gv) == Some(
                                tensor_views(input_grads@),
                            ),
                            accumulate_one::<B>(grads0, target, gview) == Some(seeded),
                            owed == (old(self).has_backend() && nodes_wf(old(self).nodes_view()) && (
                            target.0 as int) < old(self).nodes_view().len() && (forall|order: Seq<NodeId>|
                                topo_ok(old(self).nodes_view(), target.0 as int, order)
                                    ==> #[trigger] backward_result::<B, C>(
                                    old(self).nodes_view(),
                                    old(self).values_view(),
                                    old(self).gradients_view(),
                                    grad_output@,
                                    target,
                                    order,
                                ) is Some)),
                            owed ==> backward_result::<B, C>(
                                nodes,
                                vv,
                                grads0,
                                gview,
                                target,
                                order@,
                            ) is Some,
                            backward_fold::<B, C>(nodes, vv, pre_state, items.skip(i as int))
                                == backward_fold::<B, C>(nodes, vv, seeded, items),
                            accumulate_grads::<B>(
                                self.gradients_view(),
                                inputs@.skip(k as int),
                                tensor_views(input_grads@).skip(k as int),
                            ) == accumulate_grads::<B>(
                                pre_state,
                                inputs@,
                                tensor_views(input_grads@),
                            ),
                        decreases inputs@.len() - k,
                    {
                        let m_id = inputs[k];
                        proof {
                            assert(inputs@.skip(k as int)[0] == m_id);
                            assert(inputs@.skip(k as int).drop_first() =~= inputs@.skip(k + 1));
                            assert(tensor_views(input_grads@).skip(k as int)[0] == input_grads@[k as int]@);
                            assert(tensor_views(input_grads@).skip(k as int).drop_first()
                                =~= tensor_views(input_grads@).skip(k + 1));
                        }
                        let ghost acc_pre = self.gradients_view();
                        if m_id.0 >= n {
                            proof {
                                if owed {
                                    assert(accumulate_one::<B>(
                                        acc_pre,
                                        m_id,
                                        input_grads@[k as int]@,
                                    ) is None);
                                    assert(accumulate_grads::<B>(
                                        acc_pre,
                                        inputs@.skip(k as int),
                                        tensor_views(input_grads@).skip(k as int),
                                    ) is None);
                                    assert(backward_step::<B, C>(nodes, vv, pre_state, id)
                                        is None);
                                    assert(backward_fold::<B, C>(
                                        nodes,
                                        vv,
                                        pre_state,
                                        items.skip(i as int),
                                    ) is None);
                                    assert(backward_fold::<B, C>(nodes, vv, seeded, items)
                                        is None);
                                    assert(backward_result::<B, C>(
                                        nodes,
                                        vv,
                                        grads0,
                                        gview,
                                        target,
                                        order@,
                                    ) is None);
                                    assert(false);
                                }
                            }
                            return Err(GPError::InferenceError(String::from_str(
                                "gradient slot out of range",
                            )));
                        }
                        let slot = self.gradients[m_id.0].take();
                        match slot {
                            Some(existing) => {
                                let summed = match backend.add(&existing, &input_grads[k]) {
                                    Ok(s) => s,
                                    Err(e) => {
                                        proof {
                                            if owed {
                                                assert(acc_pre[m_id.0 as int] == Some(existing@));
                                                assert(accumulate_one::<B>(
                                                    acc_pre,
                                                    m_id,
                                                    input_grads@[k as int]@,
                                                ) is None);
                                                assert(accumulate_grads::<B>(
                                                    acc_pre,
                                                    inputs@.skip(k as int),
                                                    tensor_views(input_grads@).skip(k as int),
                                                ) is None);
                                                assert(backward_step::<B, C>(
                                                    nodes,
                                                    vv,
                                                    pre_state,
                                                    id,
                                                ) is None);
                                                assert(backward_fold::<B, C>(
                                                    nodes,
                                                    vv,
                                                    pre_state,
                                                    items.skip(i as int),
                                                ) is None);
                                                assert(false);
                                            }
                                        }
                                        return Err(e);
                                    },
                                };
                                self.gradients[m_id.0] = Some(summed);
                            },
                            None => {
                                self.gradients[m_id.0] = Some(input_grads[k].clone());
                            },
                        }
                        proof {
                            assert(cache_view(self.gradients@) =~= match acc_pre[m_id.0 as int] {
                                Some(e) => acc_pre.update(
                                    m_id.0 as int,
                                    Some(B::add_spec(e, input_grads@[k as int]@).unwrap()),
                                ),
                                None => acc_pre.update(
                                    m_id.0 as int,
                                    Some(input_grads@[k as int]@),
                                ),
                            });
                            assert(accumulate_one::<B>(acc_pre, m_id, input_grads@[k as int]@)
                                == Some(self.gradients_view()));
                        }
                        k = k + 1;
                    }
                    proof {
                        assert(inputs@.skip(inputs@.len() as int).len() == 0);
                        assert(backward_step::<B, C>(nodes, vv, pre_state, id) == Some(
                            self.gradients_view(),
                        ));
                    }
                },
                _ => {
                    proof {
                        assert(backward_step::<B, C>(nodes, vv, pre_state, id) == Some(pre_state));
                    }
                },
            }
            i = i + 1;
        }
        proof {
            assert(items.skip(order@.len() as int).len() == 0);
            assert(backward_fold::<B, C>(nodes, vv, seeded, items) == Some(self.gradients_view()));
            assert(backward_result::<B, C>(nodes, vv, grads0, grad_output@, target, order@)
                == Some(self.gradients_view()));
        }
        Ok(())
    }

    /// Plans memory reuse for the current graph and allocates a matching
    /// buffer pool. Planning reads only the node list; nodes, caches and
    /// backend are untouched, so execution results are unaffected.
    pub fn plan_memory(&mut self) -> (r: GPResult<()>)
        requires
            old(self).wf(),
        ensures
            final(self).wf(),
            final(self).nodes_view() == old(self).nodes_view(),
            final(self).values_view() == old(self).values_view(),
            final(self).gradients_view() == old(self).gradients_view(),
            final(self).has_backend() == old(self).has_backend(),
            r is Ok,
            match final(self).memory_plan_view() {
                Some(p) => p.plan@.len() == final(self).nodes_view().len(),
                None => false,
            },
    {
        let planner = match MemoryPlanner::plan(self) {
            Ok(p) => p,
            Err(e) => {
                return Err(e);
            },
        };
        let pool = BufferPool::new(planner.buffer_count);
        self.memory_plan = Some(planner);
        self.buffer_pool = Some(pool);
        Ok(())
    }

    /// Overwrites a parameter node's stored tensor and invalidates its cache
    /// entry, so the next forward pass sees the new value: writing to a
    /// parameter never leaves a stale cached value behind.
    pub fn set_param(&mut self, id: NodeId, tensor: Tensor) -> (r: GPResult<()>)
        requires
            old(self).wf(),
        ensures
            final(self).wf(),
            final(self).has_backend() == old(self).has_backend(),
            final(self).gradients_view() == old(self).gradients_view(),
            final(self).memory_plan_view() == old(self).memory_plan_view(),
            r is Ok <==> ((id.0 as int) < old(self).nodes_view().len() && (old(
                self,
            ).nodes_view()[id.0 as int] matches Node::Param(_))),
            r is Ok ==> final(self).nodes_view() == old(self).nodes_view().update(
                id.0 as int,
                Node::Param(tensor),
            ),
            r is Ok ==> final(self).values_view() == old(self).values_view().update(
                id.0 as int,
                None,
            ),
            r is Err ==> final(self).nodes_view() == old(self).nodes_view(),
            r is Err ==> final(self).values_view() == old(self).values_view(),
            r matches Err(e) ==> e matches GPError::InferenceError(_),
    {
        if id.0 >= self.nodes.len() {
            return Err(GPError::InferenceError(String::from_str("node index out of range")));
        }
        let is_param = match &self.nodes[id.0] {
            Node::Param(_) => true,
            _ => false,
        };
        if !is_param {
            return Err(GPError::InferenceError(String::from_str("node is not a parameter")));
        }
        self.nodes[id.0] = Node::Param(tensor);
        self.values[id.0] = None;
        proof {
            assert(self.values_view() =~= old(self).values_view().update(id.0 as int, None));
            assert forall|i: int|
                0 <= i < self.nodes_view().len() implies match #[trigger] self.nodes_view()[i] {
                Node::Param(pt) => match self.values_view()[i] {
                    Some(v) => v == pt@,
                    None => true,
                },
                _ => true,
            } by {
                if i != id.0 as int {
                    assert(self.nodes_view()[i] == old(self).nodes_view()[i]);
                    assert(self.values_view()[i] == old(self).values_view()[i]);
                }
            }
        }
        Ok(())
    }

    /// Applies one gradient-descent step to every parameter that has an
    /// accumulated gradient, delegating the in-place update to the backend;
    /// each updated parameter's cache entry is invalidated. The learning
    /// rate travels as a raw 32-bit word.
    #[verifier::rlimit(50)]
    pub fn update_parameters(&mut self, lr_bits: u32) -> (r: GPResult<()>)
        requires
            old(self).wf(),
        ensures
            final(self).wf(),
            final(self).has_backend() == old(self).has_backend(),
            final(self).gradients_view() == old(self).gradients_view(),
            final(self).memory_plan_view() == old(self).memory_plan_view(),
            final(self).nodes_view().len() == old(self).nodes_view().len(),
            !old(self).has_backend() ==> r matches Err(GPError::BackendNotInitialized),
            !old(self).has_backend() ==> final(self).nodes_view() == old(self).nodes_view(),
            r is Ok ==> forall|i: int|
                0 <= i < old(self).nodes_view().len() ==> updated_param_at::<B, C>(
                    old(self).nodes_view(),
                    old(self).gradients_view(),
                    final(self).nodes_view(),
                    lr_bits,
                    i,
                ),
            old(self).has_backend() && (forall|i: int|
                0 <= i < old(self).nodes_view().len() ==> match #[trigger] old(
                    self,
                ).nodes_view()[i] {
                    Node::Param(p) => match old(self).gradients_view()[i] {
                        Some(g) => B::update_parameter_spec(p@, g, lr_bits) is Some,
                        None => true,
                    },
                    _ => true,
                }) ==> r is Ok,
    {
        let ghost owed = old(self).has_backend() && (forall|i: int|
            0 <= i < old(self).nodes_view().len() ==> match #[trigger] old(self).nodes_view()[i] {
                Node::Param(p) => match old(self).gradients_view()[i] {
                    Some(g) => B::update_parameter_spec(p@, g, lr_bits) is Some,
                    None => true,
                },
                _ => true,
            });
        let backend = match &self.backend {
            Some(b) => b,
            None => {
                return Err(GPError::BackendNotInitialized);
            },
        };
        let n = self.nodes.len();
        let mut i: usize = 0;
        while i < n
            invariant
                n == old(self).nodes_view().len(),
                old(self).wf(),
                self.nodes@.len() == n,
                self.backend == old(self).backend,
                self.backend is Some,
                self.gradients@ == old(self).gradients@,
                self.memory_plan == old(self).memory_plan,
                self.buffer_pool == old(self).buffer_pool,
                self.values@.len() == n,
                params_synced(self.nodes_view(), self.values_view()),
                0 <= i <= n,
                forall|j: int|
                    0 <= j < i ==> updated_param_at::<B, C>(
                        old(self).nodes_view(),
                        old(self).gradients_view(),
                        self.nodes_view(),
                        lr_bits,
                        j,
                    ),
                forall|j: int|
                    i <= j < n ==> #[trigger] self.nodes_view()[j] == old(self).nodes_view()[j],
                owed == (old(self).has_backend() && (forall|j: int|
                    0 <= j < old(self).nodes_view().len() ==> match #[trigger] old(
                        self,
                    ).nodes_view()[j] {
                        Node::Param(p) => match old(self).gradients_view()[j] {
                            Some(g) => B::update_parameter_spec(p@, g, lr_bits) is Some,
                            None => true,
                        },
                        _ => true,
                    })),
            decreases n - i,
        {
            let ghost pre_nodes = self.nodes_view();
            let ghost pre_values = self.values_view();
            let has_grad = match &self.gradients[i] {
                Some(_) => true,
                None => false,
            };
            let ghost gval = self.gradients_view()[i as int];
            if has_grad {
                let updated = match &self.nodes[i] {
                    Node::Param(param) => {
                        let ghost pview = param@;
                        let mut p = param.clone();
                        let grad = match &self.gradients[i] {
                            Some(g) => g,
                            None => {
                                proof {
                                    assert(false);
                                }
                                return Err(GPError::InferenceError(String::from_str(
                                    "missing gradient",
                                )));
                            },
                        };
                        proof {
                            assert(gval == Some(grad@));
                        }
                        match backend.update_parameter(&mut p, grad, lr_bits) {
                            Ok(()) => {
                                proof {
                                    assert(B::update_parameter_spec(pview, gval.unwrap(), lr_bits)
                                        == Some(p@));
                                }
                                Some(p)
                            },
                            Err(e) => {
                                proof {
                                    if owed {
                                        // a parameter with a gradient whose
                                        // kernel step is defined cannot fail
                                        assert(old(self).nodes_view()[i as int]
                                            == pre_nodes[i as int]);
                                        assert(old(self).gradients_view()[i as int] == gval);
                                        assert(B::update_parameter_spec(
                                            pview,
                                            gval.unwrap(),
                                            lr_bits,
                                        ) is None);
                                        assert(false);
                                    }
                                }
                                return Err(e);
                            },
                        }
                    },
                    _ => None,
                };
                match updated {
                    Some(p) => {
                        self.nodes[i] = Node::Param(p);
                        self.values[i] = None;
                        proof {
                            assert forall|x: int|
                                0 <= x < n implies match #[trigger] self.nodes_view()[x] {
                                Node::Param(pt) => match self.values_view()[x] {
                                    Some(v) => v == pt@,
                                    None => true,
                                },
                                _ => true,
                            } by {
                                if x != i as int {
                                    assert(self.nodes_view()[x] == pre_nodes[x]);
                                    assert(self.values_view()[x] == pre_values[x]);
                                }
                            }
                        }
                    },
                    None => {},
                }
            }
            proof {
                assert(old(self).gradients_view()[i as int] == gval);
                assert(old(self).nodes_view()[i as int] == pre_nodes[i as int]);
                assert(updated_param_at::<B, C>(
                    old(self).nodes_view(),
                    old(self).gradients_view(),
                    self.nodes_view(),
                    lr_bits,
                    i as int,
                ));
                assert forall|j: int|
                    0 <= j < i + 1 implies updated_param_at::<B, C>(
                    old(self).nodes_view(),
                    old(self).gradients_view(),
                    self.nodes_view(),
                    lr_bits,
                    j,
                ) by {
                    if j < i as int {
                        assert(updated_param_at::<B, C>(
                            old(self).nodes_view(),
                            old(self).gradients_view(),
                            pre_nodes,
                            lr_bits,
                            j,
                        ));
                        assert(self.nodes_view()[j] == pre_nodes[j]);
                    }
                }
            }
            i = i + 1;
        }
        Ok(())
    }

    /// Kernel fusion: one forward pass over the nodes, rewriting every
    /// rectifier whose sole input is an addition into the fused
    /// add-then-rectify operation on the addition's inputs. The rewrite is
    /// exactly [`fuse_at`] at every position; nothing is removed and the
    /// caches, plan and backend are untouched.
    #[verifier::rlimit(50)]
    pub fn fuse_add_relu(&mut self) -> (r: GPResult<()>)
        requires
            old(self).wf(),
        ensures
            final(self).wf(),
            r is Ok,
            final(self).nodes_view().len() == old(self).nodes_view().len(),
            forall|i: int|
                0 <= i < final(self).nodes_view().len() ==> fused_to(
                    old(self).nodes_view(),
                    final(self).nodes_view(),
                    i,
                ),
            final(self).values_view() == old(self).values_view(),
            final(self).gradients_view() == old(self).gradients_view(),
            final(self).has_backend() == old(self).has_backend(),
            final(self).memory_plan_view() == old(self).memory_plan_view(),
    {
        let ghost nodes0 = self.nodes_view();
        let n = self.nodes.len();
        let mut i: usize = 0;
        while i < n
            invariant
                n == nodes0.len(),
                nodes0 == old(self).nodes_view(),
                old(self).wf(),
                self.nodes@.len() == n,
                self.backend == old(self).backend,
                self.values@ == old(self).values@,
                self.gradients@ == old(self).gradients@,
                self.memory_plan == old(self).memory_plan,
                self.buffer_pool == old(self).buffer_pool,
                0 <= i <= n,
                params_synced(self.nodes_view(), self.values_view()),
                forall|j: int| 0 <= j < i ==> fused_to(nodes0, self.nodes_view(), j),
                forall|j: int| i <= j < n ==> #[trigger] self.nodes_view()[j] == nodes0[j],
                // rewriting never creates or destroys an addition node, so
                // later fusion decisions read what the original list held
                forall|j: int|
                    0 <= j < n ==> add_inputs_of(self.nodes_view(), j) == add_inputs_of(nodes0, j),
            decreases n - i,
        {
            let ghost pre_nodes = self.nodes_view();
            // decide whether this node is a rectifier fed by an addition
            let fused_inputs: Option<Vec<NodeId>> = match &self.nodes[i] {
                Node::Op { op: OpType::ReLU, inputs } => {
                    if inputs.len() == 1 && inputs[0].0 < n {
                        match &self.nodes[inputs[0].0] {
                            Node::Op { op: OpType::Add, inputs: prev_inputs } => Some(
                                clone_node_ids(prev_inputs),
                            ),
                            _ => None,
                        }
                    } else {
                        None
                    }
                },
                _ => None,
            };
            match fused_inputs {
                Some(new_inputs) => {
                    let ghost cur = self.nodes_view();
                    proof {
                        // what the current list shows as an addition, the
                        // original list showed too
                        assert(cur[i as int] == nodes0[i as int]);
                        let inputs0 = nodes0[i as int]->Op_inputs;
                        let j0 = (inputs0@[0].0) as int;
                        assert(add_inputs_of(cur, j0) == add_inputs_of(nodes0, j0));
                        assert(add_inputs_of(cur, j0) == Some(new_inputs@));
                        assert(nodes0[j0] matches Node::Op { op: OpType::Add, .. });
                        assert(fuse_applies(nodes0, i as int));
                        assert(fused_source(nodes0, i as int) == j0);
                    }
                    self.nodes[i] = Node::Op { op: OpType::AddReLU, inputs: new_inputs };
                    proof {
                        assert(fused_to(nodes0, self.nodes_view(), i as int));
                        // the rewritten slot holds no addition, as before
                        assert(add_inputs_of(self.nodes_view(), i as int) is None);
                        assert(add_inputs_of(nodes0, i as int) is None);
                    }
                },
                None => {
                    proof {
                        let cur = self.nodes_view();
                        assert(cur[i as int] == nodes0[i as int]);
                        assert(!fuse_applies(nodes0, i as int)) by {
                            match nodes0[i as int] {
                                Node::Op { op: OpType::ReLU, inputs } => {
                                    if inputs@.len() == 1 && 0 <= (inputs@[0].0 as int)
                                        < nodes0.len() {
                                        let j0 = (inputs@[0].0) as int;
                                        assert(add_inputs_of(cur, j0) == add_inputs_of(
                                            nodes0,
                                            j0,
                                        ));
                                        assert(add_inputs_of(cur, j0) is None);
                                    }
                                },
                                _ => {},
                            }
                        }
                        assert(fused_to(nodes0, self.nodes_view(), i as int));
                    }
                },
            }
            proof {
                assert forall|j: int|
                    0 <= j < n implies add_inputs_of(self.nodes_view(), j) == add_inputs_of(
                    nodes0,
                    j,
                ) by {
                    if j != i as int {
                        assert(self.nodes_view()[j] == pre_nodes[j]);
                    } else if self.nodes_view()[j] == pre_nodes[j] {
                    } else {
                        assert(add_inputs_of(self.nodes_view(), j) is None);
                        assert(add_inputs_of(nodes0, j) is None);
                    }
                }
                assert forall|x: int|
                    0 <= x < n implies match #[trigger] self.nodes_view()[x] {
                    Node::Param(pt) => match self.values_view()[x] {
                        Some(v) => v == pt@,
                        None => true,
                    },
                    _ => true,
                } by {
                    if x != i as int {
                        assert(self.nodes_view()[x] == pre_nodes[x]);
                    } else if self.nodes_view()[x] != pre_nodes[x] {
                        assert(self.nodes_view()[x] matches Node::Op { .. });
                    }
                }
                assert forall|j: int|
                    0 <= j < i + 1 implies fused_to(nodes0, self.nodes_view(), j) by {
                    if j < i as int {
                        assert(fused_to(nodes0, pre_nodes, j));
                        assert(self.nodes_view()[j] == pre_nodes[j]);
                    }
                }
            }
            i = i + 1;
        }
        Ok(())
    }

    /// Rebuilds a graph from a bare node list, as deserialization does: no
    /// backend attached, empty caches, no memory plan. The backend must be
    /// re-supplied before execution.
    pub fn from_nodes(nodes: Vec<Node<C>>) -> (r: Self)
        ensures
            r.wf(),
            r.nodes_view() == nodes@,
            !r.has_backend(),
            r.memory_plan_view() is None,
            forall|i: int| 0 <= i < r.values_view().len() ==> r.values_view()[i] is None,
            forall|i: int| 0 <= i < r.gradients_view().len() ==> r.gradients_view()[i] is None,
    {
        let n = nodes.len();
        let mut values: Vec<Option<Tensor>> = Vec::new();
        let mut gradients: Vec<Option<Tensor>> = Vec::new();
        let mut i: usize = 0;
        while i < n
            invariant
                values@.len() == i <= n,
                gradients@.len() == i,
                forall|j: int| 0 <= j < i ==> values@[j] is None && gradients@[j] is None,
            decreases n - i,
        {
            values.push(None);
            gradients.push(None);
            i = i + 1;
        }
        let g = Graph { nodes, backend: None, values, gradients, memory_plan: None, buffer_pool: None };
        proof {
            assert forall|j: int| 0 <= j < g.values_view().len() implies g.values_view()[j]
                is None by {}
            assert forall|j: int| 0 <= j < g.gradients_view().len() implies g.gradients_view()[j]
                is None by {}
        }
        g
    }

    /// The memory-reuse plan, if one was computed.
    pub fn memory_plan(&self) -> (r: &Option<MemoryPlanner>)
        ensures
            match r {
                Some(p) => self.memory_plan_view() == Some(*p),
                None => self.memory_plan_view() is None,
            },
    {
        &self.memory_plan
    }

    /// Executes a single node against the values already in the cache: the
    /// fine-grained stepping interface for tracing an execution one node at
    /// a time. Inputs and parameters are materialized exactly as in a full
    /// pass; an operation node reads its (strictly earlier) inputs' cached
    /// values and fails where one is missing, rather than computing it.
    pub fn execute_single_node(&mut self, node_id: NodeId) -> (r: GPResult<()>)
        requires
            old(self).wf(),
        ensures
            final(self).wf(),
            final(self).nodes_view() == old(self).nodes_view(),
            final(self).gradients_view() == old(self).gradients_view(),
            final(self).has_backend() == old(self).has_backend(),
            final(self).memory_plan_view() == old(self).memory_plan_view(),
            !old(self).has_backend() ==> r matches Err(GPError::BackendNotInitialized),
            !old(self).has_backend() ==> final(self).values_view() == old(self).values_view(),
            r is Ok ==> step_value::<B, C>(
                old(self).nodes_view(),
                old(self).values_view(),
                node_id,
            ) is Some,
            r is Ok ==> final(self).values_view() == old(self).values_view().update(
                node_id.0 as int,
                Some(
                    step_value::<B, C>(
                        old(self).nodes_view(),
                        old(self).values_view(),
                        node_id,
                    ).unwrap(),
                ),
            ),
            old(self).has_backend() && step_value::<B, C>(
                old(self).nodes_view(),
                old(self).values_view(),
                node_id,
            ) is Some ==> r is Ok,
    {
        let ghost nodes = self.nodes_view();
        let ghost vv = self.values_view();
        let backend = match &self.backend {
            Some(b) => b,
            None => {
                return Err(GPError::BackendNotInitialized);
            },
        };
        let n = self.nodes.len();
        if node_id.0 >= n {
            return Err(GPError::InferenceError(String::from_str("node index out of range")));
        }
        match &self.nodes[node_id.0] {
            Node::Input(tensor) => {
                refresh_input_slot(&mut self.values, node_id.0, tensor);
            },
            Node::Param(tensor) => {
                materialize_param_slot(&mut self.values, node_id.0, tensor);
            },
            Node::Op { op, inputs } => {
                let input_vals = match gather_input_values(&self.values, inputs, node_id) {
                    Ok(vals) => vals,
                    Err(e) => {
                        proof {
                            let m = choose|m: int|
                                0 <= m < inputs@.len() && (((#[trigger] inputs@[m]).0 as int) >= (
                                node_id.0 as int) || (((inputs@[m]).0 as int) < (node_id.0 as int)
                                    && cache_view(self.values@)[inputs@[m].0 as int] is None));
                            if (inputs@[m].0 as int) < (node_id.0 as int) {
                                lemma_cached_inputs_fail(vv, inputs@, m);
                            }
                        }
                        return Err(e);
                    },
                };
                proof {
                    assert forall|m: int| 0 <= m < inputs@.len() implies 0 <= ((
                    #[trigger] inputs@[m]).0 as int) < (node_id.0 as int) && cache_view(
                        self.values@,
                    )[inputs@[m].0 as int] == Some(tensor_views(input_vals@)[m]) by {
                        assert(tensor_views(input_vals@)[m] == input_vals@[m]@);
                    }
                    lemma_cached_inputs_build(vv, inputs@, node_id.0 as int, tensor_views(input_vals@));
                }
                let ghost pre = cache_view(self.values@);
                let slot = self.values[node_id.0].take();
                match slot {
                    Some(mut out) => {
                        match op.forward_inplace(&input_vals, &mut out, backend) {
                            Ok(()) => {
                                self.values[node_id.0] = Some(out);
                            },
                            Err(e) => {
                                proof {
                                    assert forall|i: int|
                                        0 <= i < n implies match #[trigger] nodes[i] {
                                        Node::Param(pt) => match self.values_view()[i] {
                                            Some(v) => v == pt@,
                                            None => true,
                                        },
                                        _ => true,
                                    } by {
                                        if i != node_id.0 as int {
                                            assert(self.values_view()[i] == pre[i]);
                                        }
                                    }
                                }
                                return Err(e);
                            },
                        }
                    },
                    None => {
                        match op.forward(&input_vals, backend) {
                            Ok(v) => {
                                self.values[node_id.0] = Some(v);
                            },
                            Err(e) => {
                                proof {
                                    assert forall|i: int|
                                        0 <= i < n implies match #[trigger] nodes[i] {
                                        Node::Param(pt) => match self.values_view()[i] {
                                            Some(v) => v == pt@,
                                            None => true,
                                        },
                                        _ => true,
                                    } by {
                                        if i != node_id.0 as int {
                                            assert(self.values_view()[i] == pre[i]);
                                        }
                                    }
                                }
                                return Err(e);
                            },
                        }
                    },
                }
            },
        }
        proof {
            assert(step_value::<B, C>(nodes, vv, node_id) is Some);
            assert(self.values_view() =~= vv.update(
                node_id.0 as int,
                Some(step_value::<B, C>(nodes, vv, node_id).unwrap()),
            ));
            lemma_params_synced_update::<C>(
                nodes,
                vv,
                self.values_view(),
                node_id.0 as int,
                Some(step_value::<B, C>(nodes, vv, node_id).unwrap()),
            );
        }
        Ok(())
    }

    /// Clears every accumulated gradient, as between training steps.
    pub fn clear_gradients(&mut self)
        ensures
            final(self).nodes_view() == old(self).nodes_view(),
            final(self).values_view() == old(self).values_view(),
            final(self).has_backend() == old(self).has_backend(),
            final(self).memory_plan_view() == old(self).memory_plan_view(),
            final(self).gradients_view().len() == old(self).gradients_view().len(),
            forall|i: int|
                0 <= i < final(self).gradients_view().len() ==> final(self).gradients_view()[i]
                    is None,
    {
        let n = self.gradients.len();
        let mut i: usize = 0;
        while i < n
            invariant
                0 <= i <= n,
                n == self.gradients@.len(),
                self.nodes@ == old(self).nodes@,
                self.values@ == old(self).values@,
                self.backend == old(self).backend,
                self.memory_plan == old(self).memory_plan,
                self.buffer_pool == old(self).buffer_pool,
                forall|j: int| 0 <= j < i ==> self.gradients@[j] is None,
            decreases n - i,
        {
            self.gradients[i] = None;
            i = i + 1;
        }
    }
}

} // verus!
