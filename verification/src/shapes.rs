//! Static shape checking: pure metadata propagation over the node list,
//! intended to run before `execute` to fail fast on malformed models.

use vstd::prelude::*;
use vstd::string::StringExecFns;

use crate::backend::Backend;
use crate::errors::GPError;
use crate::errors::GPResult;
use crate::graph::Graph;
use crate::node::op_shape_spec;
use crate::node::shape_views;
use crate::node::Node;
use crate::node::Operation;
use crate::types::NodeId;

verus! {

/// The statically inferred shape of a node: leaves contribute their tensors'
/// shapes, operations the result of their shape inference over the inferred
/// shapes of their (strictly earlier) inputs. `None` where a node is out of
/// range, references itself or a later node, or its shape inference rejects
/// the input shapes.
pub open spec fn inferred_shape<B: Backend, C: Operation<B>>(nodes: Seq<Node<C>>, id: int) -> Option<
    Seq<usize>,
>
    decreases id, 1int, 0int,
{
    if 0 <= id < nodes.len() {
        match nodes[id] {
            Node::Input(t) => Some(t@.shape),
            Node::Param(t) => Some(t@.shape),
            Node::Op { op, inputs } => {
                if forall|k: int| 0 <= k < inputs@.len() ==> (#[trigger] inputs@[k]).0 < id {
                    match inferred_input_shapes::<B, C>(nodes, inputs@, id) {
                        Some(shapes) => op_shape_spec::<B, C>(op, shapes),
                        None => None,
                    }
                } else {
                    None
                }
            },
        }
    } else {
        None
    }
}

/// The inferred shapes of a list of input references, all strictly below
/// `bound`.
pub open spec fn inferred_input_shapes<B: Backend, C: Operation<B>>(
    nodes: Seq<Node<C>>,
    inputs: Seq<NodeId>,
    bound: int,
) -> Option<Seq<Seq<usize>>>
    decreases bound, 0int, inputs.len(),
{
    if inputs.len() == 0 {
        Some(Seq::empty())
    } else if 0 <= (inputs[0].0 as int) < bound {
        match inferred_shape::<B, C>(nodes, inputs[0].0 as int) {
            Some(s) => match inferred_input_shapes::<B, C>(nodes, inputs.drop_first(), bound) {
                Some(rest) => Some(seq![s] + rest),
                None => None,
            },
            None => None,
        }
    } else {
        None
    }
}

proof fn lemma_inferred_input_shapes_build<B: Backend, C: Operation<B>>(
    nodes: Seq<Node<C>>,
    inputs: Seq<NodeId>,
    bound: int,
    shapes: Seq<Seq<usize>>,
)
    requires
        shapes.len() == inputs.len(),
        forall|k: int|
            0 <= k < inputs.len() ==> 0 <= ((#[trigger] inputs[k]).0 as int) < bound
                && inferred_shape::<B, C>(nodes, inputs[k].0 as int) == Some(shapes[k]),
    ensures
        inferred_input_shapes::<B, C>(nodes, inputs, bound) == Some(shapes),
    decreases inputs.len(),
{
    if inputs.len() == 0 {
        assert(shapes =~= Seq::<Seq<usize>>::empty());
    } else {
        let rest = shapes.drop_first();
        assert forall|k: int|
            0 <= k < inputs.drop_first().len() implies 0 <= ((
        #[trigger] inputs.drop_first()[k]).0 as int) < bound && inferred_shape::<B, C>(
            nodes,
            inputs.drop_first()[k].0 as int,
        ) == Some(rest[k]) by {
            assert(inputs.drop_first()[k] == inputs[k + 1]);
            assert(rest[k] == shapes[k + 1]);
        }
        lemma_inferred_input_shapes_build::<B, C>(nodes, inputs.drop_first(), bound, rest);
        assert(shapes =~= seq![shapes[0]] + rest);
    }
}

/// Static verifier for the computation graph.
pub struct Verifier;

impl Verifier {
    /// Validates the whole graph for shape consistency and connectivity:
    /// walks nodes in identifier order, inferring every node's output shape
    /// without executing any kernel. Succeeds exactly when every node's
    /// shape can be inferred, returning one inferred shape per node; the
    /// first out-of-order reference or shape mismatch is reported as an
    /// error.
    pub fn verify<B: Backend, C: Operation<B>>(graph: &Graph<B, C>) -> (r: GPResult<
        Vec<Vec<usize>>,
    >)
        ensures
            r is Ok <==> forall|i: int|
                0 <= i < graph.nodes_view().len() ==> inferred_shape::<B, C>(
                    graph.nodes_view(),
                    i,
                ) is Some,
            r matches Ok(shapes) ==> shapes@.len() == graph.nodes_view().len() && forall|i: int|
                0 <= i < shapes@.len() ==> inferred_shape::<B, C>(graph.nodes_view(), i) == Some(
                    (#[trigger] shapes@[i])@,
                ),
    {
        let nodes = graph.nodes();
        let ghost nseq = graph.nodes_view();
        let n = nodes.len();
        let mut shapes: Vec<Vec<usize>> = Vec::new();
        let mut i: usize = 0;
        while i < n
            invariant
                n == nseq.len(),
                nseq == graph.nodes_view(),
                nodes@ == nseq,
                0 <= i <= n,
                shapes@.len() == i,
                forall|j: int|
                    0 <= j < i ==> inferred_shape::<B, C>(nseq, j) == Some(
                        (#[trigger] shapes@[j])@,
                    ),
            decreases n - i,
        {
            let inferred: Vec<usize> = match &nodes[i] {
                Node::Input(t) => crate::types::Shape::from_slice(t.shape()).0,
                Node::Param(t) => crate::types::Shape::from_slice(t.shape()).0,
                Node::Op { op, inputs } => {
                    // collect the inferred shapes of the inputs
                    let mut input_shapes: Vec<Vec<usize>> = Vec::new();
                    let mut k: usize = 0;
                    while k < inputs.len()
                        invariant
                            n == nseq.len(),
                            nseq == graph.nodes_view(),
                            0 <= i < n,
                            nseq[i as int] matches Node::Op { inputs: inp, .. } && inp@ == inputs@,
                            shapes@.len() == i,
                            forall|j: int|
                                0 <= j < i ==> inferred_shape::<B, C>(nseq, j) == Some(
                                    (#[trigger] shapes@[j])@,
                                ),
                            0 <= k <= inputs@.len(),
                            input_shapes@.len() == k,
                            forall|m: int|
                                0 <= m < k ==> 0 <= ((#[trigger] inputs@[m]).0 as int) < i as int,
                            forall|m: int|
                                0 <= m < k ==> inferred_shape::<B, C>(
                                    nseq,
                                    inputs@[m].0 as int,
                                ) == Some((#[trigger] input_shapes@[m])@),
                        decreases inputs@.len() - k,
                    {
                        let m_id = inputs[k];
                        if m_id.0 >= i {
                            proof {
                                assert(inferred_shape::<B, C>(nseq, i as int) is None) by {
                                    assert(!(forall|x: int|
                                        0 <= x < inputs@.len() ==> (#[trigger] inputs@[x]).0 < (
                                        i as int)));
                                }
                            }
                            proof {
                                assert((i as int) < nseq.len());
                                assert(inferred_shape::<B, C>(nseq, i as int) is None);
                                assert(!(forall|x: int|
                                    0 <= x < nseq.len() ==> inferred_shape::<B, C>(
                                        nseq,
                                        x,
                                    ) is Some));
                            }
                            return Err(GPError::InferenceError(
                                String::from_str("connectivity fault at node ").concat(
                                    crate::errors::decimal_string(i).as_str(),
                                ).concat(": it uses an input from a later node"),
                            ));
                        }
                        let s = crate::types::Shape::from_slice(shapes[m_id.0].as_slice()).0;
                        input_shapes.push(s);
                        proof {
                            assert(input_shapes@[k as int]@ == shapes@[m_id.0 as int]@);
                            assert(0 <= ((inputs@[k as int]).0 as int) < i as int);
                        }
                        k = k + 1;
                    }
                    proof {
                        assert forall|m: int| 0 <= m < inputs@.len() implies 0 <= ((
                        #[trigger] inputs@[m]).0 as int) < i as int && inferred_shape::<B, C>(
                            nseq,
                            inputs@[m].0 as int,
                        ) == Some(shape_views(input_shapes@)[m]) by {
                            assert(shape_views(input_shapes@)[m] == input_shapes@[m]@);
                        }
                        lemma_inferred_input_shapes_build::<B, C>(
                            nseq,
                            inputs@,
                            i as int,
                            shape_views(input_shapes@),
                        );
                        assert(inferred_shape::<B, C>(nseq, i as int) == op_shape_spec::<B, C>(
                            *op,
                            shape_views(input_shapes@),
                        ));
                    }
                    match op.output_shape::<B>(&input_shapes) {
                        Ok(s) => s,
                        Err(e) => {
                            let detail = String::from_str("Shape mismatch at node ").concat(
                                crate::errors::decimal_string(i).as_str(),
                            ).concat(" (").concat(op.name::<B>()).concat("): ").concat(
                                e.message().as_str(),
                            );
                            proof {
                                assert((i as int) < nseq.len());
                                assert(inferred_shape::<B, C>(nseq, i as int) is None);
                                assert(!(forall|x: int|
                                    0 <= x < nseq.len() ==> inferred_shape::<B, C>(
                                        nseq,
                                        x,
                                    ) is Some));
                            }
                            return Err(GPError::InferenceError(detail));
                        },
                    }
                },
            };
            shapes.push(inferred);
            proof {
                assert(inferred_shape::<B, C>(nseq, i as int) == Some((shapes@[i as int])@));
            }
            i = i + 1;
        }
        proof {
            assert forall|x: int| 0 <= x < nseq.len() implies inferred_shape::<B, C>(
                nseq,
                x,
            ) is Some by {
                assert(inferred_shape::<B, C>(nseq, x) == Some((shapes@[x])@));
            }
        }
        Ok(shapes)
    }
}

} // verus!
