//! A structural byte encoding of graphs: the full node list, tensor contents
//! and operation configuration included, the backend reference and both
//! caches excluded. A reloaded graph has no backend attached and no cached
//! values; the backend must be re-supplied and the first forward pass
//! recomputes everything.

use vstd::prelude::*;
use vstd::string::StringExecFns;

use crate::backend::Backend;
use crate::errors::GPError;
use crate::errors::GPResult;
use crate::graph::Graph;
use crate::node::Node;
use crate::node::Operation;
use crate::node::OpType;
use crate::tensor::Tensor;
use crate::tensor::TensorView;
use crate::types::dim_product;
use crate::types::NodeId;

verus! {

/// The eight little-endian bytes of a 64-bit word.
pub open spec fn u64_le(x: u64) -> Seq<u8> {
    seq![
        (x & 0xff) as u8,
        ((x >> 8) & 0xff) as u8,
        ((x >> 16) & 0xff) as u8,
        ((x >> 24) & 0xff) as u8,
        ((x >> 32) & 0xff) as u8,
        ((x >> 40) & 0xff) as u8,
        ((x >> 48) & 0xff) as u8,
        ((x >> 56) & 0xff) as u8,
    ]
}

/// The 64-bit word eight little-endian bytes denote.
pub open spec fn u64_of_le(b: Seq<u8>) -> u64 {
    ((b[0] as u64) | ((b[1] as u64) << 8) | ((b[2] as u64) << 16) | ((b[3] as u64) << 24) | ((
    b[4] as u64) << 32) | ((b[5] as u64) << 40) | ((b[6] as u64) << 48) | ((b[7] as u64) << 56))
}

/// Reading back the little-endian bytes of a word recovers it.
pub proof fn lemma_u64_le_roundtrip(x: u64)
    ensures
        u64_of_le(u64_le(x)) == x,
{
    assert(((x & 0xff) | (((x >> 8) & 0xff) << 8) | (((x >> 16) & 0xff) << 16) | (((x >> 24)
        & 0xff) << 24) | (((x >> 32) & 0xff) << 32) | (((x >> 40) & 0xff) << 40) | (((x >> 48)
        & 0xff) << 48) | (((x >> 56) & 0xff) << 56)) == x) by (bit_vector);
    assert((((x & 0xff) as u8) as u64) == (x & 0xff)) by (bit_vector);
    assert(((((x >> 8) & 0xff) as u8) as u64) == ((x >> 8) & 0xff)) by (bit_vector);
    assert(((((x >> 16) & 0xff) as u8) as u64) == ((x >> 16) & 0xff)) by (bit_vector);
    assert(((((x >> 24) & 0xff) as u8) as u64) == ((x >> 24) & 0xff)) by (bit_vector);
    assert(((((x >> 32) & 0xff) as u8) as u64) == ((x >> 32) & 0xff)) by (bit_vector);
    assert(((((x >> 40) & 0xff) as u8) as u64) == ((x >> 40) & 0xff)) by (bit_vector);
    assert(((((x >> 48) & 0xff) as u8) as u64) == ((x >> 48) & 0xff)) by (bit_vector);
    assert(((((x >> 56) & 0xff) as u8) as u64) == ((x >> 56) & 0xff)) by (bit_vector);
}

/// Re-encoding the word eight bytes denote reproduces the bytes.
pub proof fn lemma_le_of_u64_roundtrip(b: Seq<u8>)
    requires
        b.len() == 8,
    ensures
        u64_le(u64_of_le(b)) == b,
{
    let b0 = b[0];
    let b1 = b[1];
    let b2 = b[2];
    let b3 = b[3];
    let b4 = b[4];
    let b5 = b[5];
    let b6 = b[6];
    let b7 = b[7];
    let x = u64_of_le(b);
    assert((x & 0xff) as u8 == b0 && ((x >> 8) & 0xff) as u8 == b1 && ((x >> 16) & 0xff) as u8
        == b2 && ((x >> 24) & 0xff) as u8 == b3 && ((x >> 32) & 0xff) as u8 == b4 && ((x >> 40)
        & 0xff) as u8 == b5 && ((x >> 48) & 0xff) as u8 == b6 && ((x >> 56) & 0xff) as u8
        == b7) by (bit_vector)
        requires
            x == ((b0 as u64) | ((b1 as u64) << 8) | ((b2 as u64) << 16) | ((b3 as u64) << 24) | ((
            b4 as u64) << 32) | ((b5 as u64) << 40) | ((b6 as u64) << 48) | ((b7 as u64) << 56)),
    ;
    assert(u64_le(x) =~= b);
}

/// Appends a 64-bit word, little endian.
pub fn push_u64(out: &mut Vec<u8>, x: u64)
    ensures
        final(out)@ == old(out)@ + u64_le(x),
{
    out.push((x & 0xff) as u8);
    out.push(((x >> 8) & 0xff) as u8);
    out.push(((x >> 16) & 0xff) as u8);
    out.push(((x >> 24) & 0xff) as u8);
    out.push(((x >> 32) & 0xff) as u8);
    out.push(((x >> 40) & 0xff) as u8);
    out.push(((x >> 48) & 0xff) as u8);
    out.push(((x >> 56) & 0xff) as u8);
    proof {
        assert(final(out)@ =~= old(out)@ + u64_le(x));
    }
}

/// Reads the 64-bit word at `pos`, little endian.
pub fn read_u64(bytes: &Vec<u8>, pos: usize) -> (r: Option<u64>)
    ensures
        r is Some <==> (pos as int) + 8 <= bytes@.len(),
        r matches Some(x) ==> u64_le(x) == bytes@.subrange(pos as int, pos as int + 8),
{
    if bytes.len() < 8 || pos > bytes.len() - 8 {
        return None;
    }
    let b0 = bytes[pos] as u64;
    let b1 = bytes[pos + 1] as u64;
    let b2 = bytes[pos + 2] as u64;
    let b3 = bytes[pos + 3] as u64;
    let b4 = bytes[pos + 4] as u64;
    let b5 = bytes[pos + 5] as u64;
    let b6 = bytes[pos + 6] as u64;
    let b7 = bytes[pos + 7] as u64;
    let x = b0 | (b1 << 8) | (b2 << 16) | (b3 << 24) | (b4 << 32) | (b5 << 40) | (b6 << 48) | (b7
        << 56);
    proof {
        assert(u64_le(x) =~= bytes@.subrange(pos as int, pos as int + 8)) by {
            assert((x & 0xff) as u8 == b0 as u8 && ((x >> 8) & 0xff) as u8 == b1 as u8 && ((x
                >> 16) & 0xff) as u8 == b2 as u8 && ((x >> 24) & 0xff) as u8 == b3 as u8 && ((x
                >> 32) & 0xff) as u8 == b4 as u8 && ((x >> 40) & 0xff) as u8 == b5 as u8 && ((x
                >> 48) & 0xff) as u8 == b6 as u8 && ((x >> 56) & 0xff) as u8 == b7 as u8) by (bit_vector)
                requires
                    x == b0 | (b1 << 8) | (b2 << 16) | (b3 << 24) | (b4 << 32) | (b5 << 40) | (b6
                        << 48) | (b7 << 56),
                    b0 < 256 && b1 < 256 && b2 < 256 && b3 < 256 && b4 < 256 && b5 < 256 && b6
                        < 256 && b7 < 256,
            ;
            assert(bytes@.subrange(pos as int, pos as int + 8)[0] == bytes@[pos as int]);
        }
    }
    Some(x)
}

} // verus!

verus! {

/// The byte encoding of a dimension list: one 64-bit field per dimension.
pub open spec fn dims_encoding(dims: Seq<usize>) -> Seq<u8>
    decreases dims.len(),
{
    if dims.len() == 0 {
        Seq::empty()
    } else {
        u64_le(dims[0] as u64) + dims_encoding(dims.drop_first())
    }
}

/// The byte encoding of element words: one 64-bit field per word.
pub open spec fn words_encoding(words: Seq<u32>) -> Seq<u8>
    decreases words.len(),
{
    if words.len() == 0 {
        Seq::empty()
    } else {
        u64_le(words[0] as u64) + words_encoding(words.drop_first())
    }
}

/// The byte encoding of node references: one 64-bit field per reference.
pub open spec fn ids_encoding(ids: Seq<NodeId>) -> Seq<u8>
    decreases ids.len(),
{
    if ids.len() == 0 {
        Seq::empty()
    } else {
        u64_le(ids[0].0 as u64) + ids_encoding(ids.drop_first())
    }
}

/// The byte encoding of a tensor: dimension count, dimensions, word count,
/// words.
pub open spec fn tensor_encoding(t: TensorView) -> Seq<u8> {
    u64_le(t.shape.len() as u64) + dims_encoding(t.shape) + u64_le(t.data.len() as u64)
        + words_encoding(t.data)
}

/// The byte encoding of an operation's configuration: a tag byte followed by
/// its parameters; a custom operation contributes its own length-prefixed
/// encoding.
pub open spec fn op_encoding<B: Backend, C: Operation<B>>(op: OpType<C>) -> Seq<u8> {
    match op {
        OpType::MatMul => seq![0u8],
        OpType::Conv2D { stride, padding } => seq![1u8] + u64_le(stride as u64) + u64_le(
            padding as u64,
        ),
        OpType::MaxPool2D { kernel_size, stride } => seq![2u8] + u64_le(kernel_size as u64)
            + u64_le(stride as u64),
        OpType::Add => seq![3u8],
        OpType::ReLU => seq![4u8],
        OpType::Sigmoid => seq![5u8],
        OpType::Tanh => seq![6u8],
        OpType::Reshape { target_shape } => seq![7u8] + u64_le(target_shape@.len() as u64)
            + dims_encoding(target_shape@),
        OpType::AddReLU => seq![8u8],
        OpType::Custom(c) => seq![9u8] + u64_le(c.encoding().len() as u64) + c.encoding(),
    }
}

/// The byte encoding of one node: a tag byte, then the stored tensor or the
/// operation's configuration and input references.
pub open spec fn node_encoding<B: Backend, C: Operation<B>>(node: Node<C>) -> Seq<u8> {
    match node {
        Node::Input(t) => seq![0u8] + tensor_encoding(t@),
        Node::Param(t) => seq![1u8] + tensor_encoding(t@),
        Node::Op { op, inputs } => seq![2u8] + op_encoding::<B, C>(op) + u64_le(
            inputs@.len() as u64,
        ) + ids_encoding(inputs@),
    }
}

/// The byte encoding of a node list, in order.
pub open spec fn nodes_encoding<B: Backend, C: Operation<B>>(nodes: Seq<Node<C>>) -> Seq<u8>
    decreases nodes.len(),
{
    if nodes.len() == 0 {
        Seq::empty()
    } else {
        node_encoding::<B, C>(nodes[0]) + nodes_encoding::<B, C>(nodes.drop_first())
    }
}

/// The byte encoding of a whole graph: the node count, then every node. The
/// backend reference and both caches have no persisted form.
pub open spec fn graph_encoding<B: Backend, C: Operation<B>>(nodes: Seq<Node<C>>) -> Seq<u8> {
    u64_le(nodes.len() as u64) + nodes_encoding::<B, C>(nodes)
}

proof fn lemma_dims_encoding_push(dims: Seq<usize>, x: usize)
    ensures
        dims_encoding(dims.push(x)) == dims_encoding(dims) + u64_le(x as u64),
    decreases dims.len(),
{
    if dims.len() == 0 {
        assert(dims.push(x)[0] == x);
        assert(dims.push(x).drop_first() =~= Seq::<usize>::empty());
        assert(dims_encoding(dims.push(x)) == u64_le(dims.push(x)[0] as u64) + dims_encoding(
            dims.push(x).drop_first(),
        ));
        assert(dims_encoding(dims.push(x)) =~= dims_encoding(dims) + u64_le(x as u64));
    } else {
        assert(dims.push(x).drop_first() =~= dims.drop_first().push(x));
        lemma_dims_encoding_push(dims.drop_first(), x);
        assert(dims_encoding(dims.push(x)) =~= dims_encoding(dims) + u64_le(x as u64));
    }
}

proof fn lemma_words_encoding_push(words: Seq<u32>, x: u32)
    ensures
        words_encoding(words.push(x)) == words_encoding(words) + u64_le(x as u64),
    decreases words.len(),
{
    if words.len() == 0 {
        assert(words.push(x)[0] == x);
        assert(words.push(x).drop_first() =~= Seq::<u32>::empty());
        assert(words_encoding(words.push(x)) == u64_le(words.push(x)[0] as u64) + words_encoding(
            words.push(x).drop_first(),
        ));
        assert(words_encoding(words.push(x)) =~= words_encoding(words) + u64_le(x as u64));
    } else {
        assert(words.push(x).drop_first() =~= words.drop_first().push(x));
        lemma_words_encoding_push(words.drop_first(), x);
        assert(words_encoding(words.push(x)) =~= words_encoding(words) + u64_le(x as u64));
    }
}

proof fn lemma_ids_encoding_push(ids: Seq<NodeId>, x: NodeId)
    ensures
        ids_encoding(ids.push(x)) == ids_encoding(ids) + u64_le(x.0 as u64),
    decreases ids.len(),
{
    if ids.len() == 0 {
        assert(ids.push(x)[0] == x);
        assert(ids.push(x).drop_first() =~= Seq::<NodeId>::empty());
        assert(ids_encoding(ids.push(x)) == u64_le(ids.push(x)[0].0 as u64) + ids_encoding(
            ids.push(x).drop_first(),
        ));
        assert(ids_encoding(ids.push(x)) =~= ids_encoding(ids) + u64_le(x.0 as u64));
    } else {
        assert(ids.push(x).drop_first() =~= ids.drop_first().push(x));
        lemma_ids_encoding_push(ids.drop_first(), x);
        assert(ids_encoding(ids.push(x)) =~= ids_encoding(ids) + u64_le(x.0 as u64));
    }
}

proof fn lemma_dims_encoding_len(dims: Seq<usize>)
    ensures
        dims_encoding(dims).len() == 8 * dims.len(),
    decreases dims.len(),
{
    if dims.len() > 0 {
        lemma_dims_encoding_len(dims.drop_first());
    }
}

proof fn lemma_words_encoding_len(words: Seq<u32>)
    ensures
        words_encoding(words).len() == 8 * words.len(),
    decreases words.len(),
{
    if words.len() > 0 {
        lemma_words_encoding_len(words.drop_first());
    }
}

proof fn lemma_ids_encoding_len(ids: Seq<NodeId>)
    ensures
        ids_encoding(ids).len() == 8 * ids.len(),
    decreases ids.len(),
{
    if ids.len() > 0 {
        lemma_ids_encoding_len(ids.drop_first());
    }
}

proof fn lemma_dims_encoding_index(dims: Seq<usize>, m: int)
    requires
        0 <= m < dims.len(),
    ensures
        dims_encoding(dims).subrange(8 * m, 8 * m + 8) == u64_le(dims[m] as u64),
    decreases m,
{
    lemma_dims_encoding_len(dims);
    lemma_dims_encoding_len(dims.drop_first());
    if m == 0 {
        assert(dims_encoding(dims).subrange(0, 8) =~= u64_le(dims[0] as u64));
    } else {
        lemma_dims_encoding_index(dims.drop_first(), m - 1);
        assert(dims_encoding(dims).subrange(8 * m, 8 * m + 8) =~= dims_encoding(
            dims.drop_first(),
        ).subrange(8 * (m - 1), 8 * (m - 1) + 8));
        assert(dims.drop_first()[m - 1] == dims[m]);
    }
}

proof fn lemma_words_encoding_index(words: Seq<u32>, m: int)
    requires
        0 <= m < words.len(),
    ensures
        words_encoding(words).subrange(8 * m, 8 * m + 8) == u64_le(words[m] as u64),
    decreases m,
{
    lemma_words_encoding_len(words);
    lemma_words_encoding_len(words.drop_first());
    if m == 0 {
        assert(words_encoding(words).subrange(0, 8) =~= u64_le(words[0] as u64));
    } else {
        lemma_words_encoding_index(words.drop_first(), m - 1);
        assert(words_encoding(words).subrange(8 * m, 8 * m + 8) =~= words_encoding(
            words.drop_first(),
        ).subrange(8 * (m - 1), 8 * (m - 1) + 8));
        assert(words.drop_first()[m - 1] == words[m]);
    }
}

proof fn lemma_ids_encoding_index(ids: Seq<NodeId>, m: int)
    requires
        0 <= m < ids.len(),
    ensures
        ids_encoding(ids).subrange(8 * m, 8 * m + 8) == u64_le(ids[m].0 as u64),
    decreases m,
{
    lemma_ids_encoding_len(ids);
    lemma_ids_encoding_len(ids.drop_first());
    if m == 0 {
        assert(ids_encoding(ids).subrange(0, 8) =~= u64_le(ids[0].0 as u64));
    } else {
        lemma_ids_encoding_index(ids.drop_first(), m - 1);
        assert(ids_encoding(ids).subrange(8 * m, 8 * m + 8) =~= ids_encoding(
            ids.drop_first(),
        ).subrange(8 * (m - 1), 8 * (m - 1) + 8));
        assert(ids.drop_first()[m - 1] == ids[m]);
    }
}

proof fn lemma_nodes_encoding_push<B: Backend, C: Operation<B>>(nodes: Seq<Node<C>>, x: Node<C>)
    ensures
        nodes_encoding::<B, C>(nodes.push(x)) == nodes_encoding::<B, C>(nodes)
            + node_encoding::<B, C>(x),
    decreases nodes.len(),
{
    if nodes.len() == 0 {
        assert(nodes.push(x)[0] == x);
        assert(nodes.push(x).drop_first() =~= Seq::<Node<C>>::empty());
        assert(nodes_encoding::<B, C>(nodes.push(x)) == node_encoding::<B, C>(nodes.push(x)[0])
            + nodes_encoding::<B, C>(nodes.push(x).drop_first()));
        assert(nodes_encoding::<B, C>(nodes.push(x)) =~= nodes_encoding::<B, C>(nodes)
            + node_encoding::<B, C>(x));
    } else {
        assert(nodes.push(x).drop_first() =~= nodes.drop_first().push(x));
        lemma_nodes_encoding_push::<B, C>(nodes.drop_first(), x);
        assert(nodes_encoding::<B, C>(nodes.push(x)) =~= nodes_encoding::<B, C>(nodes)
            + node_encoding::<B, C>(x));
    }
}

} // verus!

verus! {

/// Appends a tensor: dimension count, dimensions, word count, words, each
/// as a little-endian 64-bit field.
fn push_tensor(out: &mut Vec<u8>, t: &Tensor)
    ensures
        final(out)@ == old(out)@ + tensor_encoding(t@),
{
    let ghost base = out@;
    let shape = crate::types::Shape::from_slice(t.shape()).0;
    push_u64(out, shape.len() as u64);
    let mut k: usize = 0;
    while k < shape.len()
        invariant
            shape@ == t@.shape,
            base + u64_le(shape@.len() as u64) + dims_encoding(shape@.subrange(0, k as int))
                == out@,
            0 <= k <= shape@.len(),
        decreases shape@.len() - k,
    {
        push_u64(out, shape[k] as u64);
        proof {
            assert(shape@.subrange(0, k + 1) =~= shape@.subrange(0, k as int).push(shape@[k as int]));
            lemma_dims_encoding_push(shape@.subrange(0, k as int), shape@[k as int]);
            assert(base + u64_le(shape@.len() as u64) + dims_encoding(shape@.subrange(0, k + 1))
                =~= out@);
        }
        k = k + 1;
    }
    proof {
        assert(shape@.subrange(0, shape@.len() as int) =~= shape@);
    }
    let ghost mid = out@;
    let words = t.as_bits();
    push_u64(out, words.len() as u64);
    let mut w: usize = 0;
    while w < words.len()
        invariant
            words@ == t@.data,
            mid + u64_le(words@.len() as u64) + words_encoding(words@.subrange(0, w as int))
                == out@,
            0 <= w <= words@.len(),
        decreases words@.len() - w,
    {
        push_u64(out, words[w] as u64);
        proof {
            assert(words@.subrange(0, w + 1) =~= words@.subrange(0, w as int).push(words@[w as int]));
            lemma_words_encoding_push(words@.subrange(0, w as int), words@[w as int]);
            assert(mid + u64_le(words@.len() as u64) + words_encoding(words@.subrange(0, w + 1))
                =~= out@);
        }
        w = w + 1;
    }
    proof {
        assert(words@.subrange(0, words@.len() as int) =~= words@);
        assert(final(out)@ =~= old(out)@ + tensor_encoding(t@));
    }
}

/// Persists the full node list of a graph as bytes — exactly its
/// [`graph_encoding`]: tensor contents and operation configuration included,
/// the backend reference and both caches excluded.
#[verifier::rlimit(50)]
pub fn encode_graph<B: Backend, C: Operation<B>>(graph: &Graph<B, C>) -> (r: Vec<u8>)
    ensures
        r@ == graph_encoding::<B, C>(graph.nodes_view()),
{
    let nodes = graph.nodes();
    let ghost nseq = graph.nodes_view();
    let mut out: Vec<u8> = Vec::new();
    push_u64(&mut out, nodes.len() as u64);
    let mut i: usize = 0;
    while i < nodes.len()
        invariant
            nodes@ == nseq,
            0 <= i <= nseq.len(),
            out@ == u64_le(nseq.len() as u64) + nodes_encoding::<B, C>(nseq.subrange(0, i as int)),
        decreases nseq.len() - i,
    {
        let ghost pre = out@;
        match &nodes[i] {
            Node::Input(t) => {
                out.push(0u8);
                proof {
                    assert(out@ =~= pre + seq![0u8]);
                }
                push_tensor(&mut out, t);
                proof {
                    assert(out@ =~= pre + node_encoding::<B, C>(nseq[i as int]));
                }
            },
            Node::Param(t) => {
                out.push(1u8);
                proof {
                    assert(out@ =~= pre + seq![1u8]);
                }
                push_tensor(&mut out, t);
                proof {
                    assert(out@ =~= pre + node_encoding::<B, C>(nseq[i as int]));
                }
            },
            Node::Op { op, inputs } => {
                out.push(2u8);
                proof {
                    assert(out@ =~= pre + seq![2u8]);
                }
                let ghost opstart = out@;
                match op {
                    OpType::MatMul => {
                        out.push(0u8);
                        proof {
                            assert(out@ =~= opstart + op_encoding::<B, C>(*op));
                        }
                    },
                    OpType::Conv2D { stride, padding } => {
                        out.push(1u8);
                        push_u64(&mut out, *stride as u64);
                        push_u64(&mut out, *padding as u64);
                        proof {
                            assert(out@ =~= opstart + op_encoding::<B, C>(*op));
                        }
                    },
                    OpType::MaxPool2D { kernel_size, stride } => {
                        out.push(2u8);
                        push_u64(&mut out, *kernel_size as u64);
                        push_u64(&mut out, *stride as u64);
                        proof {
                            assert(out@ =~= opstart + op_encoding::<B, C>(*op));
                        }
                    },
                    OpType::Add => {
                        out.push(3u8);
                        proof {
                            assert(out@ =~= opstart + op_encoding::<B, C>(*op));
                        }
                    },
                    OpType::ReLU => {
                        out.push(4u8);
                        proof {
                            assert(out@ =~= opstart + op_encoding::<B, C>(*op));
                        }
                    },
                    OpType::Sigmoid => {
                        out.push(5u8);
                        proof {
                            assert(out@ =~= opstart + op_encoding::<B, C>(*op));
                        }
                    },
                    OpType::Tanh => {
                        out.push(6u8);
                        proof {
                            assert(out@ =~= opstart + op_encoding::<B, C>(*op));
                        }
                    },
                    OpType::Reshape { target_shape } => {
                        out.push(7u8);
                        push_u64(&mut out, target_shape.len() as u64);
                        let mut k: usize = 0;
                        while k < target_shape.len()
                            invariant
                                out@ == opstart + seq![7u8] + u64_le(target_shape@.len() as u64)
                                    + dims_encoding(target_shape@.subrange(0, k as int)),
                                0 <= k <= target_shape@.len(),
                            decreases target_shape@.len() - k,
                        {
                            push_u64(&mut out, target_shape[k] as u64);
                            proof {
                                assert(target_shape@.subrange(0, k + 1) =~= target_shape@.subrange(
                                    0,
                                    k as int,
                                ).push(target_shape@[k as int]));
                                lemma_dims_encoding_push(
                                    target_shape@.subrange(0, k as int),
                                    target_shape@[k as int],
                                );
                                assert(out@ =~= opstart + seq![7u8] + u64_le(
                                    target_shape@.len() as u64,
                                ) + dims_encoding(target_shape@.subrange(0, k + 1)));
                            }
                            k = k + 1;
                        }
                        proof {
                            assert(target_shape@.subrange(0, target_shape@.len() as int)
                                =~= target_shape@);
                            assert(out@ =~= opstart + op_encoding::<B, C>(*op));
                        }
                    },
                    OpType::AddReLU => {
                        out.push(8u8);
                        proof {
                            assert(out@ =~= opstart + op_encoding::<B, C>(*op));
                        }
                    },
                    OpType::Custom(c) => {
                        out.push(9u8);
                        let body = c.encode();
                        push_u64(&mut out, body.len() as u64);
                        let mut k: usize = 0;
                        while k < body.len()
                            invariant
                                body@ == c.encoding(),
                                out@ == opstart + seq![9u8] + u64_le(body@.len() as u64)
                                    + body@.subrange(0, k as int),
                                0 <= k <= body@.len(),
                            decreases body@.len() - k,
                        {
                            out.push(body[k]);
                            proof {
                                assert(out@ =~= opstart + seq![9u8] + u64_le(body@.len() as u64)
                                    + body@.subrange(0, k + 1));
                            }
                            k = k + 1;
                        }
                        proof {
                            assert(body@.subrange(0, body@.len() as int) =~= body@);
                            assert(out@ =~= opstart + op_encoding::<B, C>(*op));
                        }
                    },
                }
                let ghost idstart = out@;
                push_u64(&mut out, inputs.len() as u64);
                let mut k: usize = 0;
                while k < inputs.len()
                    invariant
                        out@ == idstart + u64_le(inputs@.len() as u64) + ids_encoding(
                            inputs@.subrange(0, k as int),
                        ),
                        0 <= k <= inputs@.len(),
                    decreases inputs@.len() - k,
                {
                    push_u64(&mut out, inputs[k].0 as u64);
                    proof {
                        assert(inputs@.subrange(0, k + 1) =~= inputs@.subrange(0, k as int).push(
                            inputs@[k as int],
                        ));
                        lemma_ids_encoding_push(inputs@.subrange(0, k as int), inputs@[k as int]);
                        assert(out@ =~= idstart + u64_le(inputs@.len() as u64) + ids_encoding(
                            inputs@.subrange(0, k + 1),
                        ));
                    }
                    k = k + 1;
                }
                proof {
                    assert(inputs@.subrange(0, inputs@.len() as int) =~= inputs@);
                    assert(out@ =~= pre + node_encoding::<B, C>(nseq[i as int]));
                }
            },
        }
        proof {
            assert(nseq.subrange(0, i + 1) =~= nseq.subrange(0, i as int).push(nseq[i as int]));
            lemma_nodes_encoding_push::<B, C>(nseq.subrange(0, i as int), nseq[i as int]);
            assert(out@ =~= u64_le(nseq.len() as u64) + nodes_encoding::<B, C>(
                nseq.subrange(0, i + 1),
            ));
        }
        i = i + 1;
    }
    proof {
        assert(nseq.subrange(0, nseq.len() as int) =~= nseq);
        assert(out@ =~= graph_encoding::<B, C>(nseq));
    }
    out
}

/// The error reported for malformed persisted bytes.
fn decode_error() -> (r: GPError)
    ensures
        r matches GPError::SerializationError(_),
{
    GPError::SerializationError(String::from_str("malformed graph bytes"))
}

/// Reads the 64-bit field at the cursor and advances it.
fn take_u64(bytes: &Vec<u8>, pos: &mut usize) -> (r: GPResult<u64>)
    ensures
        r is Ok <==> (*old(pos) as int) + 8 <= bytes@.len(),
        r matches Ok(x) ==> *final(pos) == *old(pos) + 8 && u64_le(x) == bytes@.subrange(
            *old(pos) as int,
            *old(pos) + 8,
        ),
        r is Err ==> r matches Err(GPError::SerializationError(_)),
        r is Err ==> *final(pos) == *old(pos),
{
    match read_u64(bytes, *pos) {
        Some(x) => {
            proof {
                vstd::std_specs::vec::axiom_spec_len(bytes);
            }
            *pos = *pos + 8;
            Ok(x)
        },
        None => Err(decode_error()),
    }
}

/// Reads a 64-bit field that must fit a `usize`.
fn take_len(bytes: &Vec<u8>, pos: &mut usize) -> (r: GPResult<usize>)
    ensures
        r is Ok <==> ((*old(pos) as int) + 8 <= bytes@.len() && (u64_of_le(
            bytes@.subrange(*old(pos) as int, *old(pos) + 8),
        ) as int) <= usize::MAX),
        r matches Ok(x) ==> *final(pos) == *old(pos) + 8 && u64_le(x as u64) == bytes@.subrange(
            *old(pos) as int,
            *old(pos) + 8,
        ),
        r is Err ==> r matches Err(GPError::SerializationError(_)),
{
    let ghost p0 = *pos as int;
    let x = match take_u64(bytes, pos) {
        Ok(x) => x,
        Err(e) => {
            return Err(e);
        },
    };
    proof {
        lemma_u64_le_roundtrip(x);
        assert(u64_of_le(bytes@.subrange(p0, p0 + 8)) == x);
    }
    if x > usize::MAX as u64 {
        return Err(decode_error());
    }
    Ok(x as usize)
}

/// The four regions a tensor encoding occupies from `p0`, when the bytes
/// there are some tensor's encoding followed by anything.
pub open spec fn tensor_regions_at(whole: Seq<u8>, p0: int, tv: TensorView) -> bool {
    &&& p0 + 16 + 8 * tv.shape.len() + 8 * tv.data.len() <= whole.len()
    &&& whole.subrange(p0, p0 + 8) == u64_le(tv.shape.len() as u64)
    &&& whole.subrange(p0 + 8, p0 + 8 + 8 * tv.shape.len()) == dims_encoding(tv.shape)
    &&& whole.subrange(p0 + 8 + 8 * tv.shape.len(), p0 + 16 + 8 * tv.shape.len()) == u64_le(
        tv.data.len() as u64,
    )
    &&& whole.subrange(
        p0 + 16 + 8 * tv.shape.len(),
        p0 + 16 + 8 * tv.shape.len() + 8 * tv.data.len(),
    ) == words_encoding(tv.data)
}

/// A tensor encoding at a cursor splits into its count and payload regions.
proof fn lemma_tensor_regions(whole: Seq<u8>, p0: int, tv: TensorView, rest: Seq<u8>)
    requires
        0 <= p0 <= whole.len(),
        whole.skip(p0) == tensor_encoding(tv) + rest,
    ensures
        tensor_regions_at(whole, p0, tv),
{
    lemma_dims_encoding_len(tv.shape);
    lemma_words_encoding_len(tv.data);
    let nd = tv.shape.len() as int;
    let nw = tv.data.len() as int;
    let enc = tensor_encoding(tv);
    assert(enc.len() == 16 + 8 * nd + 8 * nw);
    assert(whole.skip(p0).len() == whole.len() - p0);
    assert(whole.len() - p0 == enc.len() + rest.len());
    assert forall|i: int| 0 <= i < enc.len() implies whole[p0 + i] == #[trigger] enc[i] by {
        assert(whole.skip(p0)[i] == whole[p0 + i]);
        assert((enc + rest)[i] == enc[i]);
    }
    assert forall|i: int| 0 <= i < 8 implies #[trigger] enc[i] == u64_le(
        tv.shape.len() as u64,
    )[i] by {}
    assert forall|i: int| 0 <= i < 8 * nd implies enc[8 + i] == #[trigger] dims_encoding(
        tv.shape,
    )[i] by {}
    assert forall|i: int| 0 <= i < 8 implies enc[8 + 8 * nd + i] == #[trigger] u64_le(
        tv.data.len() as u64,
    )[i] by {}
    assert forall|i: int| 0 <= i < 8 * nw implies enc[16 + 8 * nd + i] == #[trigger] words_encoding(
        tv.data,
    )[i] by {}
    assert(whole.subrange(p0, p0 + 8) =~= u64_le(tv.shape.len() as u64));
    assert(whole.subrange(p0 + 8, p0 + 8 + 8 * nd) =~= dims_encoding(tv.shape));
    assert(whole.subrange(p0 + 8 + 8 * nd, p0 + 16 + 8 * nd) =~= u64_le(tv.data.len() as u64));
    assert(whole.subrange(p0 + 16 + 8 * nd, p0 + 16 + 8 * nd + 8 * nw) =~= words_encoding(
        tv.data,
    ));
}

/// No representable tensor encoding sits at `p0` in `whole`.
pub open spec fn no_tensor_at(whole: Seq<u8>, p0: int) -> bool {
    forall|tv: TensorView, rest: Seq<u8>|
        !(tv.wf() && tv.shape.len() <= usize::MAX && tv.data.len() <= usize::MAX && whole.skip(p0)
            == #[trigger] (tensor_encoding(tv) + rest))
}

/// Reads a tensor written by `push_tensor`. What was read re-encodes to
/// exactly the bytes consumed, and where the bytes at the cursor hold a
/// representable tensor encoding, reading succeeds.
#[verifier::rlimit(100)]
fn take_tensor(bytes: &Vec<u8>, pos: &mut usize) -> (r: GPResult<Tensor>)
    requires
        *old(pos) <= bytes@.len(),
    ensures
        r is Err ==> r matches Err(GPError::SerializationError(_)),
        r matches Ok(t) ==> *old(pos) <= *final(pos) <= bytes@.len() && bytes@.subrange(
            *old(pos) as int,
            *final(pos) as int,
        ) == tensor_encoding(t@),
        r is Err ==> no_tensor_at(bytes@, *old(pos) as int),
{
    let ghost p0 = *pos as int;
    let ghost whole = bytes@;
    let ndim = match take_len(bytes, pos) {
        Ok(x) => x,
        Err(e) => {
            proof {
                assert forall|tv: TensorView, rest: Seq<u8>|
                    !(tv.wf() && tv.shape.len() <= usize::MAX && tv.data.len() <= usize::MAX
                        && whole.skip(p0) == #[trigger] (tensor_encoding(tv) + rest)) by {
                    if tv.wf() && tv.shape.len() <= usize::MAX && tv.data.len() <= usize::MAX
                        && whole.skip(p0) == tensor_encoding(tv) + rest {
                        lemma_tensor_regions(whole, p0, tv, rest);
                        lemma_u64_le_roundtrip(tv.shape.len() as u64);
                    }
                }
            }
            return Err(e);
        },
    };
    proof {
        assert(u64_le(ndim as u64) == whole.subrange(p0, p0 + 8));
    }
    let mut dims: Vec<usize> = Vec::new();
    let mut k: usize = 0;
    let mut failed = false;
    while k < ndim && !failed
        invariant
            whole == bytes@,
            0 <= p0,
            p0 + 8 <= whole.len(),
            u64_le(ndim as u64) == whole.subrange(p0, p0 + 8),
            !failed ==> dims@.len() == k,
            !failed ==> *pos == p0 + 8 + 8 * k,
            !failed ==> k <= ndim,
            !failed ==> *pos <= whole.len(),
            !failed ==> whole.subrange(p0 + 8, *pos as int) == dims_encoding(dims@),
            failed ==> no_tensor_at(whole, p0),
        decreases ndim - k, (if failed { 0int } else { 1int }),
    {
        let ghost pk = *pos as int;
        let ghost pre_dims = dims@;
        match take_len(bytes, pos) {
            Ok(d) => {
                dims.push(d);
                proof {
                    assert(whole.subrange(pk, pk + 8) == u64_le(d as u64));
                    lemma_dims_encoding_push(pre_dims, d);
                    assert(dims@ =~= pre_dims.push(d));
                    assert(whole.subrange(p0 + 8, pk + 8) =~= whole.subrange(p0 + 8, pk)
                        + whole.subrange(pk, pk + 8));
                }
                k = k + 1;
            },
            Err(_) => {
                proof {
                    // under any witness, this read names a real dimension and
                    // cannot fail
                    assert forall|tv: TensorView, rest: Seq<u8>|
                        !(tv.wf() && tv.shape.len() <= usize::MAX && tv.data.len() <= usize::MAX
                            && whole.skip(p0) == #[trigger] (tensor_encoding(tv) + rest)) by {
                        if tv.wf() && tv.shape.len() <= usize::MAX && tv.data.len() <= usize::MAX
                            && whole.skip(p0) == tensor_encoding(tv) + rest {
                            lemma_tensor_regions(whole, p0, tv, rest);
                            lemma_u64_le_roundtrip(tv.shape.len() as u64);
                            lemma_u64_le_roundtrip(ndim as u64);
                            assert(u64_of_le(whole.subrange(p0, p0 + 8)) == ndim as u64);
                            assert(ndim == tv.shape.len());
                            lemma_dims_encoding_index(tv.shape, k as int);
                            assert(whole.subrange(pk, pk + 8) =~= whole.subrange(
                                p0 + 8,
                                p0 + 8 + 8 * tv.shape.len(),
                            ).subrange(8 * (k as int), 8 * (k as int) + 8));
                            assert(whole.subrange(pk, pk + 8) == u64_le(tv.shape[k as int] as u64));
                            lemma_u64_le_roundtrip(tv.shape[k as int] as u64);
                        }
                    }
                }
                failed = true;
            },
        }
    }
    if failed {
        return Err(decode_error());
    }
    let ghost pd = *pos as int;
    let count = match take_len(bytes, pos) {
        Ok(x) => x,
        Err(e) => {
            proof {
                assert forall|tv: TensorView, rest: Seq<u8>|
                    !(tv.wf() && tv.shape.len() <= usize::MAX && tv.data.len() <= usize::MAX
                        && whole.skip(p0) == #[trigger] (tensor_encoding(tv) + rest)) by {
                    if tv.wf() && tv.shape.len() <= usize::MAX && tv.data.len() <= usize::MAX
                        && whole.skip(p0) == tensor_encoding(tv) + rest {
                        lemma_tensor_regions(whole, p0, tv, rest);
                        lemma_u64_le_roundtrip(tv.shape.len() as u64);
                        lemma_u64_le_roundtrip(ndim as u64);
                        assert(ndim == tv.shape.len());
                        assert(pd == p0 + 8 + 8 * tv.shape.len());
                        lemma_u64_le_roundtrip(tv.data.len() as u64);
                        assert(u64_of_le(whole.subrange(pd, pd + 8)) == tv.data.len() as u64);
                    }
                }
            }
            return Err(e);
        },
    };
    proof {
        assert(u64_le(count as u64) == whole.subrange(pd, pd + 8));
    }
    let mut words: Vec<u32> = Vec::new();
    let mut w: usize = 0;
    while w < count && !failed
        invariant
            whole == bytes@,
            0 <= p0,
            p0 + 8 <= whole.len(),
            u64_le(ndim as u64) == whole.subrange(p0, p0 + 8),
            dims@.len() == ndim,
            pd == p0 + 8 + 8 * ndim,
            pd + 8 <= whole.len(),
            whole.subrange(p0 + 8, pd) == dims_encoding(dims@),
            u64_le(count as u64) == whole.subrange(pd, pd + 8),
            !failed ==> words@.len() == w,
            !failed ==> *pos == pd + 8 + 8 * w,
            !failed ==> w <= count,
            !failed ==> *pos <= whole.len(),
            !failed ==> whole.subrange(pd + 8, *pos as int) == words_encoding(words@),
            failed ==> no_tensor_at(whole, p0),
        decreases count - w, (if failed { 0int } else { 1int }),
    {
        let ghost pw = *pos as int;
        let ghost pre_words = words@;
        match take_u64(bytes, pos) {
            Ok(x) => {
                if x <= u32::MAX as u64 {
                    words.push(x as u32);
                    proof {
                        assert(whole.subrange(pw, pw + 8) == u64_le((x as u32) as u64));
                        lemma_words_encoding_push(pre_words, x as u32);
                        assert(words@ =~= pre_words.push(x as u32));
                        assert(whole.subrange(pd + 8, pw + 8) =~= whole.subrange(pd + 8, pw)
                            + whole.subrange(pw, pw + 8));
                    }
                    w = w + 1;
                } else {
                    proof {
                        // a word beyond 32 bits cannot come from any witness
                        assert forall|tv: TensorView, rest: Seq<u8>|
                            !(tv.wf() && tv.shape.len() <= usize::MAX && tv.data.len()
                                <= usize::MAX && whole.skip(p0) == #[trigger] (tensor_encoding(tv)
                                + rest)) by {
                            if tv.wf() && tv.shape.len() <= usize::MAX && tv.data.len()
                                <= usize::MAX && whole.skip(p0) == tensor_encoding(tv) + rest {
                                lemma_tensor_regions(whole, p0, tv, rest);
                                lemma_u64_le_roundtrip(tv.shape.len() as u64);
                                lemma_u64_le_roundtrip(ndim as u64);
                                assert(ndim == tv.shape.len());
                                assert(pd == p0 + 8 + 8 * tv.shape.len());
                                lemma_u64_le_roundtrip(tv.data.len() as u64);
                                lemma_u64_le_roundtrip(count as u64);
                                assert(count == tv.data.len());
                                lemma_words_encoding_index(tv.data, w as int);
                                assert(whole.subrange(pw, pw + 8) =~= whole.subrange(
                                    pd + 8,
                                    pd + 8 + 8 * tv.data.len(),
                                ).subrange(8 * (w as int), 8 * (w as int) + 8));
                                assert(whole.subrange(pw, pw + 8) == u64_le(
                                    tv.data[w as int] as u64,
                                ));
                                lemma_u64_le_roundtrip(tv.data[w as int] as u64);
                                lemma_u64_le_roundtrip(x);
                                assert(x == tv.data[w as int] as u64);
                            }
                        }
                    }
                    failed = true;
                }
            },
            Err(_) => {
                proof {
                    // the bytes for this word are owed by any witness
                    assert forall|tv: TensorView, rest: Seq<u8>|
                        !(tv.wf() && tv.shape.len() <= usize::MAX && tv.data.len() <= usize::MAX
                            && whole.skip(p0) == #[trigger] (tensor_encoding(tv) + rest)) by {
                        if tv.wf() && tv.shape.len() <= usize::MAX && tv.data.len() <= usize::MAX
                            && whole.skip(p0) == tensor_encoding(tv) + rest {
                            lemma_tensor_regions(whole, p0, tv, rest);
                            lemma_u64_le_roundtrip(tv.shape.len() as u64);
                            lemma_u64_le_roundtrip(ndim as u64);
                            assert(ndim == tv.shape.len());
                            lemma_u64_le_roundtrip(tv.data.len() as u64);
                            lemma_u64_le_roundtrip(count as u64);
                            assert(count == tv.data.len());
                            assert(pw + 8 <= whole.len());
                        }
                    }
                }
                failed = true;
            },
        }
    }
    if failed {
        return Err(decode_error());
    }
    let ghost pw_end = *pos as int;
    let ghost parsed_dims = dims@;
    let ghost parsed_words = words@;
    match Tensor::from_bits(words, dims) {
        Ok(t) => {
            proof {
                assert(whole.subrange(p0, pw_end) =~= u64_le(ndim as u64) + dims_encoding(t@.shape)
                    + u64_le(count as u64) + words_encoding(t@.data));
                assert(whole.subrange(p0, pw_end) == tensor_encoding(t@));
            }
            Ok(t)
        },
        Err(_) => {
            proof {
                // the word count disagrees with the shape: no well-formed
                // witness can produce these bytes
                assert forall|tv: TensorView, rest: Seq<u8>|
                    !(tv.wf() && tv.shape.len() <= usize::MAX && tv.data.len() <= usize::MAX
                        && whole.skip(p0) == #[trigger] (tensor_encoding(tv) + rest)) by {
                    if tv.wf() && tv.shape.len() <= usize::MAX && tv.data.len() <= usize::MAX
                        && whole.skip(p0) == tensor_encoding(tv) + rest {
                        lemma_tensor_regions(whole, p0, tv, rest);
                        lemma_u64_le_roundtrip(tv.shape.len() as u64);
                        lemma_u64_le_roundtrip(ndim as u64);
                        assert(ndim == tv.shape.len());
                        lemma_u64_le_roundtrip(tv.data.len() as u64);
                        lemma_u64_le_roundtrip(count as u64);
                        assert(count == tv.data.len());
                        assert forall|m: int| 0 <= m < ndim implies parsed_dims[m]
                            == tv.shape[m] by {
                            lemma_dims_encoding_index(parsed_dims, m);
                            lemma_dims_encoding_index(tv.shape, m);
                            assert(dims_encoding(tv.shape) == whole.subrange(p0 + 8, pd));
                            assert(u64_le(parsed_dims[m] as u64) == u64_le(tv.shape[m] as u64));
                            lemma_u64_le_roundtrip(parsed_dims[m] as u64);
                            lemma_u64_le_roundtrip(tv.shape[m] as u64);
                        }
                        assert(parsed_dims =~= tv.shape);
                        assert(parsed_words.len() == dim_product(parsed_dims));
                        assert(false);
                    }
                }
            }
            Err(decode_error())
        },
    }
}

/// No counted reference-list encoding sits at `p0` in `whole`.
pub open spec fn no_ids_at(whole: Seq<u8>, p0: int) -> bool {
    forall|ids0: Seq<NodeId>, rest: Seq<u8>|
        !(ids0.len() <= usize::MAX && whole.skip(p0) == #[trigger] (u64_le(ids0.len() as u64)
            + ids_encoding(ids0) + rest))
}

/// The regions a counted reference list occupies from `p0`.
proof fn lemma_ids_regions(whole: Seq<u8>, p0: int, ids0: Seq<NodeId>, rest: Seq<u8>)
    requires
        0 <= p0 <= whole.len(),
        whole.skip(p0) == u64_le(ids0.len() as u64) + ids_encoding(ids0) + rest,
    ensures
        p0 + 8 + 8 * ids0.len() <= whole.len(),
        whole.subrange(p0, p0 + 8) == u64_le(ids0.len() as u64),
        whole.subrange(p0 + 8, p0 + 8 + 8 * ids0.len()) == ids_encoding(ids0),
{
    lemma_ids_encoding_len(ids0);
    let enc = u64_le(ids0.len() as u64) + ids_encoding(ids0);
    assert(whole.skip(p0).len() == whole.len() - p0);
    assert(whole.len() - p0 == enc.len() + rest.len());
    assert forall|i: int| 0 <= i < enc.len() implies whole[p0 + i] == #[trigger] enc[i] by {
        assert(whole.skip(p0)[i] == whole[p0 + i]);
        assert((enc + rest)[i] == enc[i]);
    }
    assert forall|i: int| 0 <= i < 8 implies #[trigger] enc[i] == u64_le(
        ids0.len() as u64,
    )[i] by {}
    assert forall|i: int|
        0 <= i < 8 * ids0.len() implies enc[8 + i] == #[trigger] ids_encoding(ids0)[i] by {}
    assert(whole.subrange(p0, p0 + 8) =~= u64_le(ids0.len() as u64));
    assert(whole.subrange(p0 + 8, p0 + 8 + 8 * ids0.len()) =~= ids_encoding(ids0));
}

/// Reads a counted list of node references. What was read re-encodes to the
/// bytes consumed, and where the bytes hold such a list, reading succeeds.
#[verifier::rlimit(100)]
fn take_ids(bytes: &Vec<u8>, pos: &mut usize) -> (r: GPResult<Vec<NodeId>>)
    requires
        *old(pos) <= bytes@.len(),
    ensures
        r is Err ==> r matches Err(GPError::SerializationError(_)),
        r matches Ok(ids) ==> *old(pos) <= *final(pos) <= bytes@.len() && bytes@.subrange(
            *old(pos) as int,
            *final(pos) as int,
        ) == u64_le(ids@.len() as u64) + ids_encoding(ids@),
        r is Err ==> no_ids_at(bytes@, *old(pos) as int),
{
    let ghost p0 = *pos as int;
    let ghost whole = bytes@;
    let arity = match take_len(bytes, pos) {
        Ok(x) => x,
        Err(e) => {
            proof {
                assert forall|ids0: Seq<NodeId>, rest: Seq<u8>|
                    !(ids0.len() <= usize::MAX && whole.skip(p0) == #[trigger] (u64_le(
                        ids0.len() as u64,
                    ) + ids_encoding(ids0) + rest)) by {
                    if ids0.len() <= usize::MAX && whole.skip(p0) == u64_le(ids0.len() as u64)
                        + ids_encoding(ids0) + rest {
                        lemma_ids_regions(whole, p0, ids0, rest);
                        lemma_u64_le_roundtrip(ids0.len() as u64);
                    }
                }
            }
            return Err(e);
        },
    };
    proof {
        assert(u64_le(arity as u64) == whole.subrange(p0, p0 + 8));
    }
    let mut ids: Vec<NodeId> = Vec::new();
    let mut k: usize = 0;
    let mut failed = false;
    while k < arity && !failed
        invariant
            whole == bytes@,
            0 <= p0,
            p0 + 8 <= whole.len(),
            u64_le(arity as u64) == whole.subrange(p0, p0 + 8),
            !failed ==> ids@.len() == k,
            !failed ==> *pos == p0 + 8 + 8 * k,
            !failed ==> k <= arity,
            !failed ==> *pos <= whole.len(),
            !failed ==> whole.subrange(p0 + 8, *pos as int) == ids_encoding(ids@),
            failed ==> no_ids_at(whole, p0),
        decreases arity - k, (if failed { 0int } else { 1int }),
    {
        let ghost pk = *pos as int;
        let ghost pre_ids = ids@;
        match take_len(bytes, pos) {
            Ok(d) => {
                ids.push(NodeId(d));
                proof {
                    assert(whole.subrange(pk, pk + 8) == u64_le(d as u64));
                    lemma_ids_encoding_push(pre_ids, NodeId(d));
                    assert(ids@ =~= pre_ids.push(NodeId(d)));
                    assert(whole.subrange(p0 + 8, pk + 8) =~= whole.subrange(p0 + 8, pk)
                        + whole.subrange(pk, pk + 8));
                }
                k = k + 1;
            },
            Err(_) => {
                proof {
                    assert forall|ids0: Seq<NodeId>, rest: Seq<u8>|
                        !(ids0.len() <= usize::MAX && whole.skip(p0) == #[trigger] (u64_le(
                            ids0.len() as u64,
                        ) + ids_encoding(ids0) + rest)) by {
                        if ids0.len() <= usize::MAX && whole.skip(p0) == u64_le(ids0.len() as u64)
                            + ids_encoding(ids0) + rest {
                            lemma_ids_regions(whole, p0, ids0, rest);
                            lemma_u64_le_roundtrip(ids0.len() as u64);
                            lemma_u64_le_roundtrip(arity as u64);
                            assert(arity == ids0.len());
                            lemma_ids_encoding_index(ids0, k as int);
                            assert(whole.subrange(pk, pk + 8) =~= whole.subrange(
                                p0 + 8,
                                p0 + 8 + 8 * ids0.len(),
                            ).subrange(8 * (k as int), 8 * (k as int) + 8));
                            assert(whole.subrange(pk, pk + 8) == u64_le(ids0[k as int].0 as u64));
                            lemma_u64_le_roundtrip(ids0[k as int].0 as u64);
                        }
                    }
                }
                failed = true;
            },
        }
    }
    if failed {
        return Err(decode_error());
    }
    proof {
        assert(whole.subrange(p0, *pos as int) =~= u64_le(arity as u64) + ids_encoding(ids@));
    }
    Ok(ids)
}

/// No counted dimension-list encoding sits at `p0` in `whole`.
pub open spec fn no_dims_at(whole: Seq<u8>, p0: int) -> bool {
    forall|ds: Seq<usize>, rest: Seq<u8>|
        !(ds.len() <= usize::MAX && whole.skip(p0) == #[trigger] (u64_le(ds.len() as u64)
            + dims_encoding(ds) + rest))
}

/// The regions a counted dimension list occupies from `p0`.
proof fn lemma_counted_dims_regions(whole: Seq<u8>, p0: int, ds: Seq<usize>, rest: Seq<u8>)
    requires
        0 <= p0 <= whole.len(),
        whole.skip(p0) == u64_le(ds.len() as u64) + dims_encoding(ds) + rest,
    ensures
        p0 + 8 + 8 * ds.len() <= whole.len(),
        whole.subrange(p0, p0 + 8) == u64_le(ds.len() as u64),
        whole.subrange(p0 + 8, p0 + 8 + 8 * ds.len()) == dims_encoding(ds),
{
    lemma_dims_encoding_len(ds);
    let enc = u64_le(ds.len() as u64) + dims_encoding(ds);
    assert(whole.skip(p0).len() == whole.len() - p0);
    assert(whole.len() - p0 == enc.len() + rest.len());
    assert forall|i: int| 0 <= i < enc.len() implies whole[p0 + i] == #[trigger] enc[i] by {
        assert(whole.skip(p0)[i] == whole[p0 + i]);
        assert((enc + rest)[i] == enc[i]);
    }
    assert forall|i: int| 0 <= i < 8 implies #[trigger] enc[i] == u64_le(ds.len() as u64)[i] by {}
    assert forall|i: int|
        0 <= i < 8 * ds.len() implies enc[8 + i] == #[trigger] dims_encoding(ds)[i] by {}
    assert(whole.subrange(p0, p0 + 8) =~= u64_le(ds.len() as u64));
    assert(whole.subrange(p0 + 8, p0 + 8 + 8 * ds.len()) =~= dims_encoding(ds));
}

/// Reads a counted dimension list. What was read re-encodes to the bytes
/// consumed, and where the bytes hold such a list, reading succeeds.
#[verifier::rlimit(100)]
fn take_dims(bytes: &Vec<u8>, pos: &mut usize) -> (r: GPResult<Vec<usize>>)
    requires
        *old(pos) <= bytes@.len(),
    ensures
        r is Err ==> r matches Err(GPError::SerializationError(_)),
        r matches Ok(ds) ==> *old(pos) <= *final(pos) <= bytes@.len() && bytes@.subrange(
            *old(pos) as int,
            *final(pos) as int,
        ) == u64_le(ds@.len() as u64) + dims_encoding(ds@),
        r is Err ==> no_dims_at(bytes@, *old(pos) as int),
{
    let ghost p0 = *pos as int;
    let ghost whole = bytes@;
    let ndim = match take_len(bytes, pos) {
        Ok(x) => x,
        Err(e) => {
            proof {
                assert forall|ds: Seq<usize>, rest: Seq<u8>|
                    !(ds.len() <= usize::MAX && whole.skip(p0) == #[trigger] (u64_le(
                        ds.len() as u64,
                    ) + dims_encoding(ds) + rest)) by {
                    if ds.len() <= usize::MAX && whole.skip(p0) == u64_le(ds.len() as u64)
                        + dims_encoding(ds) + rest {
                        lemma_counted_dims_regions(whole, p0, ds, rest);
                        lemma_u64_le_roundtrip(ds.len() as u64);
                    }
                }
            }
            return Err(e);
        },
    };
    proof {
        assert(u64_le(ndim as u64) == whole.subrange(p0, p0 + 8));
    }
    let mut dims: Vec<usize> = Vec::new();
    let mut k: usize = 0;
    let mut failed = false;
    while k < ndim && !failed
        invariant
            whole == bytes@,
            0 <= p0,
            p0 + 8 <= whole.len(),
            u64_le(ndim as u64) == whole.subrange(p0, p0 + 8),
            !failed ==> dims@.len() == k,
            !failed ==> *pos == p0 + 8 + 8 * k,
            !failed ==> k <= ndim,
            !failed ==> *pos <= whole.len(),
            !failed ==> whole.subrange(p0 + 8, *pos as int) == dims_encoding(dims@),
            failed ==> no_dims_at(whole, p0),
        decreases ndim - k, (if failed { 0int } else { 1int }),
    {
        let ghost pk = *pos as int;
        let ghost pre_dims = dims@;
        match take_len(bytes, pos) {
            Ok(d) => {
                dims.push(d);
                proof {
                    assert(whole.subrange(pk, pk + 8) == u64_le(d as u64));
                    lemma_dims_encoding_push(pre_dims, d);
                    assert(dims@ =~= pre_dims.push(d));
                    assert(whole.subrange(p0 + 8, pk + 8) =~= whole.subrange(p0 + 8, pk)
                        + whole.subrange(pk, pk + 8));
                }
                k = k + 1;
            },
            Err(_) => {
                proof {
                    assert forall|ds: Seq<usize>, rest: Seq<u8>|
                        !(ds.len() <= usize::MAX && whole.skip(p0) == #[trigger] (u64_le(
                            ds.len() as u64,
                        ) + dims_encoding(ds) + rest)) by {
                        if ds.len() <= usize::MAX && whole.skip(p0) == u64_le(ds.len() as u64)
                            + dims_encoding(ds) + rest {
                            lemma_counted_dims_regions(whole, p0, ds, rest);
                            lemma_u64_le_roundtrip(ds.len() as u64);
                            lemma_u64_le_roundtrip(ndim as u64);
                            assert(ndim == ds.len());
                            lemma_dims_encoding_index(ds, k as int);
                            assert(whole.subrange(pk, pk + 8) =~= whole.subrange(
                                p0 + 8,
                                p0 + 8 + 8 * ds.len(),
                            ).subrange(8 * (k as int), 8 * (k as int) + 8));
                            assert(whole.subrange(pk, pk + 8) == u64_le(ds[k as int] as u64));
                            lemma_u64_le_roundtrip(ds[k as int] as u64);
                        }
                    }
                }
                failed = true;
            },
        }
    }
    if failed {
        return Err(decode_error());
    }
    proof {
        assert(whole.subrange(p0, *pos as int) =~= u64_le(ndim as u64) + dims_encoding(dims@));
    }
    Ok(dims)
}

/// An operation configuration small enough to persist: a reshape target and
/// a custom operation's own encoding fit in memory.
pub open spec fn op_representable<B: Backend, C: Operation<B>>(op: OpType<C>) -> bool {
    match op {
        OpType::Reshape { target_shape } => target_shape@.len() <= usize::MAX,
        OpType::Custom(c) => c.encoding().len() <= usize::MAX,
        _ => true,
    }
}

/// No representable operation encoding sits at `p0` in `whole`.
pub open spec fn no_op_at<B: Backend, C: Operation<B>>(whole: Seq<u8>, p0: int) -> bool {
    forall|op0: OpType<C>, rest: Seq<u8>|
        !(op_representable::<B, C>(op0) && whole.skip(p0) == #[trigger] (op_encoding::<B, C>(op0)
            + rest))
}

/// The regions a tag byte followed by two 64-bit fields occupies from `p0`.
proof fn lemma_two_field_regions(whole: Seq<u8>, p0: int, tag: u8, a: u64, b: u64, rest: Seq<u8>)
    requires
        0 <= p0 <= whole.len(),
        whole.skip(p0) == (seq![tag] + u64_le(a) + u64_le(b)) + rest,
    ensures
        p0 + 17 <= whole.len(),
        whole[p0] == tag,
        whole.subrange(p0 + 1, p0 + 9) == u64_le(a),
        whole.subrange(p0 + 9, p0 + 17) == u64_le(b),
{
    let enc = seq![tag] + u64_le(a) + u64_le(b);
    assert(whole.skip(p0).len() == whole.len() - p0);
    assert(whole.len() - p0 == enc.len() + rest.len());
    assert forall|i: int| 0 <= i < enc.len() implies whole[p0 + i] == #[trigger] enc[i] by {
        assert(whole.skip(p0)[i] == whole[p0 + i]);
        assert((enc + rest)[i] == enc[i]);
    }
    assert(enc[0] == tag);
    assert(whole[p0 + 0] == enc[0]);
    assert forall|i: int| 0 <= i < 8 implies enc[1 + i] == #[trigger] u64_le(a)[i] by {}
    assert forall|i: int| 0 <= i < 8 implies enc[9 + i] == #[trigger] u64_le(b)[i] by {}
    assert(whole.subrange(p0 + 1, p0 + 9) =~= u64_le(a));
    assert(whole.subrange(p0 + 9, p0 + 17) =~= u64_le(b));
}

/// The regions a custom operation's encoding occupies from `p0`: the tag,
/// the length field, and the custom bytes.
proof fn lemma_custom_regions<B: Backend, C: Operation<B>>(
    whole: Seq<u8>,
    p0: int,
    c0: C,
    rest: Seq<u8>,
)
    requires
        0 <= p0 <= whole.len(),
        whole.skip(p0) == op_encoding::<B, C>(OpType::Custom(c0)) + rest,
    ensures
        p0 + 9 + c0.encoding().len() <= whole.len(),
        whole[p0] == 9u8,
        whole.subrange(p0 + 1, p0 + 9) == u64_le(c0.encoding().len() as u64),
        whole.subrange(p0 + 9, p0 + 9 + c0.encoding().len()) == c0.encoding(),
{
    let enc = op_encoding::<B, C>(OpType::Custom(c0));
    assert(enc == seq![9u8] + u64_le(c0.encoding().len() as u64) + c0.encoding());
    assert(whole.skip(p0).len() == whole.len() - p0);
    assert(whole.len() - p0 == enc.len() + rest.len());
    assert forall|i: int| 0 <= i < enc.len() implies whole[p0 + i] == #[trigger] enc[i] by {
        assert(whole.skip(p0)[i] == whole[p0 + i]);
        assert((enc + rest)[i] == enc[i]);
    }
    assert(enc[0] == 9u8);
    assert(whole[p0 + 0] == enc[0]);
    assert forall|i: int|
        0 <= i < 8 implies enc[1 + i] == #[trigger] u64_le(c0.encoding().len() as u64)[i] by {}
    assert forall|i: int|
        0 <= i < c0.encoding().len() implies enc[9 + i] == #[trigger] c0.encoding()[i] by {}
    assert(whole.subrange(p0 + 1, p0 + 9) =~= u64_le(c0.encoding().len() as u64));
    assert(whole.subrange(p0 + 9, p0 + 9 + c0.encoding().len()) =~= c0.encoding());
}


/// Reads an operation configuration written by `encode_graph`. What was
/// read re-encodes to the bytes consumed, and where the bytes hold a
/// representable operation, reading succeeds.
#[verifier::rlimit(100)]
fn take_op<B: Backend, C: Operation<B>>(bytes: &Vec<u8>, pos: &mut usize) -> (r: GPResult<
    OpType<C>,
>)
    requires
        *old(pos) <= bytes@.len(),
    ensures
        r is Err ==> r matches Err(GPError::SerializationError(_)),
        r matches Ok(op) ==> *old(pos) <= *final(pos) <= bytes@.len() && bytes@.subrange(
            *old(pos) as int,
            *final(pos) as int,
        ) == op_encoding::<B, C>(op),
        r is Err ==> no_op_at::<B, C>(bytes@, *old(pos) as int),
{
    let ghost p0 = *pos as int;
    let ghost whole = bytes@;
    if *pos >= bytes.len() {
        proof {
            assert forall|op0: OpType<C>, rest: Seq<u8>|
                !(op_representable::<B, C>(op0) && whole.skip(p0) == #[trigger] (op_encoding::<
                    B,
                    C,
                >(op0) + rest)) by {
                if whole.skip(p0) == op_encoding::<B, C>(op0) + rest {
                    assert(op_encoding::<B, C>(op0).len() >= 1);
                    assert(whole.skip(p0).len() == whole.len() - p0);
                    assert(whole.len() - p0 >= 1);
                }
            }
        }
        return Err(decode_error());
    }
    let tag = bytes[*pos];
    proof {
        assert(whole[p0] == tag);
        // under any witness, the tag byte names the witness's own variant
        assert forall|op0: OpType<C>, rest: Seq<u8>|
            whole.skip(p0) == #[trigger] (op_encoding::<B, C>(op0) + rest) implies op_encoding::<
            B,
            C,
        >(op0)[0] == tag by {
            assert(whole.skip(p0)[0] == whole[p0]);
            assert((op_encoding::<B, C>(op0) + rest)[0] == op_encoding::<B, C>(op0)[0]);
        }
    }
    *pos = *pos + 1;
    if tag == 0 {
        proof {
            assert(whole.subrange(p0, p0 + 1) =~= op_encoding::<B, C>(OpType::<C>::MatMul));
        }
        return Ok(OpType::MatMul);
    }
    if tag == 3 {
        proof {
            assert(whole.subrange(p0, p0 + 1) =~= op_encoding::<B, C>(OpType::<C>::Add));
        }
        return Ok(OpType::Add);
    }
    if tag == 4 {
        proof {
            assert(whole.subrange(p0, p0 + 1) =~= op_encoding::<B, C>(OpType::<C>::ReLU));
        }
        return Ok(OpType::ReLU);
    }
    if tag == 5 {
        proof {
            assert(whole.subrange(p0, p0 + 1) =~= op_encoding::<B, C>(OpType::<C>::Sigmoid));
        }
        return Ok(OpType::Sigmoid);
    }
    if tag == 6 {
        proof {
            assert(whole.subrange(p0, p0 + 1) =~= op_encoding::<B, C>(OpType::<C>::Tanh));
        }
        return Ok(OpType::Tanh);
    }
    if tag == 8 {
        proof {
            assert(whole.subrange(p0, p0 + 1) =~= op_encoding::<B, C>(OpType::<C>::AddReLU));
        }
        return Ok(OpType::AddReLU);
    }
    if tag == 1 || tag == 2 {
        let ghost pa = *pos as int;
        let first = match take_len(bytes, pos) {
            Ok(x) => x,
            Err(e) => {
                proof {
                    assert forall|op0: OpType<C>, rest: Seq<u8>|
                        !(op_representable::<B, C>(op0) && whole.skip(p0) == #[trigger] (
                        op_encoding::<B, C>(op0) + rest)) by {
                        if whole.skip(p0) == op_encoding::<B, C>(op0) + rest {
                            match op0 {
                                OpType::Conv2D { stride, padding } => {
                                    lemma_two_field_regions(
                                        whole,
                                        p0,
                                        1u8,
                                        stride as u64,
                                        padding as u64,
                                        rest,
                                    );
                                    lemma_u64_le_roundtrip(stride as u64);
                                },
                                OpType::MaxPool2D { kernel_size, stride } => {
                                    lemma_two_field_regions(
                                        whole,
                                        p0,
                                        2u8,
                                        kernel_size as u64,
                                        stride as u64,
                                        rest,
                                    );
                                    lemma_u64_le_roundtrip(kernel_size as u64);
                                },
                                _ => {},
                            }
                        }
                    }
                }
                return Err(e);
            },
        };
        let second = match take_len(bytes, pos) {
            Ok(x) => x,
            Err(e) => {
                proof {
                    assert forall|op0: OpType<C>, rest: Seq<u8>|
                        !(op_representable::<B, C>(op0) && whole.skip(p0) == #[trigger] (
                        op_encoding::<B, C>(op0) + rest)) by {
                        if whole.skip(p0) == op_encoding::<B, C>(op0) + rest {
                            match op0 {
                                OpType::Conv2D { stride, padding } => {
                                    lemma_two_field_regions(
                                        whole,
                                        p0,
                                        1u8,
                                        stride as u64,
                                        padding as u64,
                                        rest,
                                    );
                                    lemma_u64_le_roundtrip(padding as u64);
                                },
                                OpType::MaxPool2D { kernel_size, stride } => {
                                    lemma_two_field_regions(
                                        whole,
                                        p0,
                                        2u8,
                                        kernel_size as u64,
                                        stride as u64,
                                        rest,
                                    );
                                    lemma_u64_le_roundtrip(stride as u64);
                                },
                                _ => {},
                            }
                        }
                    }
                }
                return Err(e);
            },
        };
        let op: OpType<C> = if tag == 1 {
            OpType::Conv2D { stride: first, padding: second }
        } else {
            OpType::MaxPool2D { kernel_size: first, stride: second }
        };
        proof {
            assert(whole.subrange(pa, pa + 8) == u64_le(first as u64));
            assert(whole.subrange(pa + 8, pa + 16) == u64_le(second as u64));
            assert(whole.subrange(p0, p0 + 17) =~= seq![tag] + u64_le(first as u64) + u64_le(
                second as u64,
            ));
        }
        return Ok(op);
    }
    if tag == 7 {
        let ghost pa = *pos as int;
        let target_shape = match take_dims(bytes, pos) {
            Ok(ds) => ds,
            Err(e) => {
                proof {
                    assert forall|op0: OpType<C>, rest: Seq<u8>|
                        !(op_representable::<B, C>(op0) && whole.skip(p0) == #[trigger] (
                        op_encoding::<B, C>(op0) + rest)) by {
                        if op_representable::<B, C>(op0) && whole.skip(p0) == op_encoding::<B, C>(
                            op0,
                        ) + rest {
                            match op0 {
                                OpType::Reshape { target_shape: ts } => {
                                    let enc0 = op_encoding::<B, C>(op0);
                                    lemma_dims_encoding_len(ts@);
                                    assert(whole.skip(p0).len() == whole.len() - p0);
                                    let tchunk = u64_le(ts@.len() as u64) + dims_encoding(ts@)
                                        + rest;
                                    assert(whole.len() - pa == tchunk.len());
                                    assert forall|i: int|
                                        0 <= i < tchunk.len() implies whole.skip(pa)[i]
                                        == #[trigger] tchunk[i] by {
                                        assert(whole.skip(p0)[1 + i] == whole[p0 + (1 + i)]);
                                        assert((enc0 + rest)[1 + i] == whole[p0 + (1 + i)]);
                                        assert(whole.skip(pa)[i] == whole[pa + i]);
                                    }
                                    assert(whole.skip(pa) =~= tchunk);
                                },
                                _ => {},
                            }
                        }
                    }
                }
                return Err(e);
            },
        };
        proof {
            let chunk = u64_le(target_shape@.len() as u64) + dims_encoding(target_shape@);
            lemma_dims_encoding_len(target_shape@);
            assert(whole.subrange(pa, *pos as int) == chunk);
            assert(*pos - pa == chunk.len());
            assert forall|i: int|
                0 <= i < 8 implies whole[pa + i] == #[trigger] u64_le(
                target_shape@.len() as u64,
            )[i] by {
                assert(whole.subrange(pa, *pos as int)[i] == whole[pa + i]);
                assert(chunk[i] == u64_le(target_shape@.len() as u64)[i]);
            }
            assert forall|i: int|
                0 <= i < 8 * target_shape@.len() implies whole[pa + 8 + i] == #[trigger] dims_encoding(
                target_shape@,
            )[i] by {
                assert(whole.subrange(pa, *pos as int)[8 + i] == whole[pa + (8 + i)]);
                assert(chunk[8 + i] == dims_encoding(target_shape@)[i]);
            }
            assert(whole[p0] == 7u8);
            assert(whole.subrange(p0, *pos as int) =~= seq![7u8] + u64_le(
                target_shape@.len() as u64,
            ) + dims_encoding(target_shape@));
        }
        return Ok(OpType::Reshape { target_shape });
    }
    if tag == 9 {
        let ghost pa = *pos as int;
        let blen = match take_len(bytes, pos) {
            Ok(x) => x,
            Err(e) => {
                proof {
                    assert forall|op0: OpType<C>, rest: Seq<u8>|
                        !(op_representable::<B, C>(op0) && whole.skip(p0) == #[trigger] (
                        op_encoding::<B, C>(op0) + rest)) by {
                        if op_representable::<B, C>(op0) && whole.skip(p0) == op_encoding::<B, C>(
                            op0,
                        ) + rest {
                            match op0 {
                                OpType::Custom(c0) => {
                                    lemma_custom_regions::<B, C>(whole, p0, c0, rest);
                                    lemma_u64_le_roundtrip(c0.encoding().len() as u64);
                                },
                                _ => {},
                            }
                        }
                    }
                }
                return Err(e);
            },
        };
        proof {
            assert(u64_le(blen as u64) == whole.subrange(pa, pa + 8));
        }
        let mut body: Vec<u8> = Vec::new();
        let mut k: usize = 0;
        let mut failed = false;
        while k < blen && !failed
            invariant
                whole == bytes@,
                0 <= pa,
                pa + 8 <= whole.len(),
                u64_le(blen as u64) == whole.subrange(pa, pa + 8),
                !failed ==> body@.len() == k,
                !failed ==> *pos == pa + 8 + k,
                !failed ==> k <= blen,
                !failed ==> *pos <= whole.len(),
                !failed ==> whole.subrange(pa + 8, *pos as int) == body@,
                failed ==> pa + 8 + blen > whole.len(),
            decreases blen - k, (if failed { 0int } else { 1int }),
        {
            if *pos < bytes.len() {
                let ghost pk = *pos as int;
                body.push(bytes[*pos]);
                *pos = *pos + 1;
                proof {
                    assert(whole.subrange(pa + 8, pk + 1) =~= whole.subrange(pa + 8, pk) + seq![
                        whole[pk],
                    ]);
                }
                k = k + 1;
            } else {
                failed = true;
            }
        }
        if failed {
            proof {
                assert forall|op0: OpType<C>, rest: Seq<u8>|
                    !(op_representable::<B, C>(op0) && whole.skip(p0) == #[trigger] (op_encoding::<
                        B,
                        C,
                    >(op0) + rest)) by {
                    if op_representable::<B, C>(op0) && whole.skip(p0) == op_encoding::<B, C>(op0)
                        + rest {
                        match op0 {
                            OpType::Custom(c0) => {
                                lemma_custom_regions::<B, C>(whole, p0, c0, rest);
                                lemma_u64_le_roundtrip(c0.encoding().len() as u64);
                                lemma_u64_le_roundtrip(blen as u64);
                                assert(blen == c0.encoding().len());
                            },
                            _ => {},
                        }
                    }
                }
            }
            return Err(decode_error());
        }
        let c = match C::decode(&body) {
            Ok(c) => c,
            Err(_) => {
                proof {
                    assert forall|op0: OpType<C>, rest: Seq<u8>|
                        !(op_representable::<B, C>(op0) && whole.skip(p0) == #[trigger] (
                        op_encoding::<B, C>(op0) + rest)) by {
                        if op_representable::<B, C>(op0) && whole.skip(p0) == op_encoding::<B, C>(
                            op0,
                        ) + rest {
                            match op0 {
                                OpType::Custom(c0) => {
                                    lemma_custom_regions::<B, C>(whole, p0, c0, rest);
                                    lemma_u64_le_roundtrip(c0.encoding().len() as u64);
                                    lemma_u64_le_roundtrip(blen as u64);
                                    assert(blen == c0.encoding().len());
                                    assert(body@ =~= c0.encoding());
                                    c0.codec_law();
                                    assert(C::decode_spec(body@) == Some(c0));
                                },
                                _ => {},
                            }
                        }
                    }
                }
                return Err(decode_error());
            },
        };
        proof {
            c.codec_law();
            assert(body@ == c.encoding());
            assert(whole.subrange(p0, *pos as int) =~= seq![9u8] + u64_le(c.encoding().len() as u64)
                + c.encoding());
        }
        return Ok(OpType::Custom(c));
    }
    proof {
        // an unknown tag matches no operation's encoding
        assert forall|op0: OpType<C>, rest: Seq<u8>|
            !(op_representable::<B, C>(op0) && whole.skip(p0) == #[trigger] (op_encoding::<B, C>(
                op0,
            ) + rest)) by {
            if whole.skip(p0) == op_encoding::<B, C>(op0) + rest {
                match op0 {
                    OpType::MatMul => {},
                    OpType::Conv2D { .. } => {},
                    OpType::MaxPool2D { .. } => {},
                    OpType::Add => {},
                    OpType::ReLU => {},
                    OpType::Sigmoid => {},
                    OpType::Tanh => {},
                    OpType::Reshape { .. } => {},
                    OpType::AddReLU => {},
                    OpType::Custom(_) => {},
                }
            }
        }
    }
    Err(decode_error())
}

/// Reads back a graph persisted by [`encode_graph`]: the node list alone,
/// with no backend attached, no cached values and no memory plan. The bytes
/// accepted are exactly the encoding of the nodes returned, so a decoded
/// graph re-encodes to the very bytes it was read from. The backend must be
/// re-supplied before the graph can execute, and the first forward pass
/// recomputes everything.
#[verifier::rlimit(100)]
pub fn decode_graph<B: Backend, C: Operation<B>>(bytes: &Vec<u8>) -> (r: GPResult<Graph<B, C>>)
    ensures
        r matches Ok(g) ==> {
            &&& g.wf()
            &&& !g.has_backend()
            &&& g.memory_plan_view() is None
            &&& forall|i: int| 0 <= i < g.values_view().len() ==> g.values_view()[i] is None
            &&& forall|i: int| 0 <= i < g.gradients_view().len() ==> g.gradients_view()[i] is None
            &&& bytes@ == graph_encoding::<B, C>(g.nodes_view())
        },
        r is Err ==> r matches Err(GPError::SerializationError(_)),
        bytes@ == graph_encoding::<B, C>(Seq::<Node<C>>::empty()) ==> r is Ok,
{
    let ghost whole = bytes@;
    let ghost easy = (whole == graph_encoding::<B, C>(Seq::<Node<C>>::empty()));
    let mut pos: usize = 0;
    proof {
        if easy {
            assert(whole =~= u64_le(0u64));
            lemma_u64_le_roundtrip(0u64);
        }
    }
    let count = match take_len(bytes, &mut pos) {
        Ok(x) => x,
        Err(e) => {
            proof {
                if easy {
                    assert(whole.subrange(0, 8) =~= u64_le(0u64));
                    assert(u64_of_le(whole.subrange(0, 8)) == 0);
                }
            }
            return Err(e);
        },
    };
    proof {
        if easy {
            assert(whole.subrange(0, 8) =~= u64_le(0u64));
            lemma_u64_le_roundtrip(count as u64);
            assert(count == 0);
        }
    }
    let mut nodes: Vec<Node<C>> = Vec::new();
    let mut i: usize = 0;
    while i < count
        invariant
            whole == bytes@,
            pos <= bytes@.len(),
            i <= count,
            nodes@.len() == i,
            easy == (whole == graph_encoding::<B, C>(Seq::<Node<C>>::empty())),
            easy ==> count == 0,
            whole.subrange(0, pos as int) == u64_le(count as u64) + nodes_encoding::<B, C>(
                nodes@,
            ),
        decreases count - i,
    {
        let ghost ppre = pos as int;
        if pos >= bytes.len() {
            return Err(decode_error());
        }
        let tag = bytes[pos];
        proof {
            assert(whole[ppre] == tag);
        }
        pos = pos + 1;
        let node: Node<C> = if tag == 0 {
            let t = take_tensor(bytes, &mut pos)?;
            proof {
                let tb = tensor_encoding(t@);
                assert(whole.subrange(ppre + 1, pos as int) == tb);
                assert forall|j: int| 0 <= j < tb.len() implies whole[ppre + 1 + j] == #[trigger] tb[j] by {
                    assert(whole.subrange(ppre + 1, pos as int)[j] == whole[ppre + 1 + j]);
                }
                assert(whole.subrange(ppre, pos as int) =~= seq![0u8] + tensor_encoding(t@));
            }
            Node::Input(t)
        } else if tag == 1 {
            let t = take_tensor(bytes, &mut pos)?;
            proof {
                let tb = tensor_encoding(t@);
                assert(whole.subrange(ppre + 1, pos as int) == tb);
                assert forall|j: int| 0 <= j < tb.len() implies whole[ppre + 1 + j] == #[trigger] tb[j] by {
                    assert(whole.subrange(ppre + 1, pos as int)[j] == whole[ppre + 1 + j]);
                }
                assert(whole.subrange(ppre, pos as int) =~= seq![1u8] + tensor_encoding(t@));
            }
            Node::Param(t)
        } else if tag == 2 {
            let op = take_op::<B, C>(bytes, &mut pos)?;
            let ghost p2 = pos as int;
            let inputs = take_ids(bytes, &mut pos)?;
            proof {
                let ob = op_encoding::<B, C>(op);
                let ib = u64_le(inputs@.len() as u64) + ids_encoding(inputs@);
                lemma_ids_encoding_len(inputs@);
                assert(whole.subrange(ppre + 1, p2) == ob);
                assert(whole.subrange(p2, pos as int) == ib);
                assert(p2 <= pos as int <= whole.len());
                assert(whole.subrange(p2, pos as int).len() == pos - p2);
                assert(ids_encoding(inputs@).len() == 8 * inputs@.len());
                assert(pos - p2 == 8 + 8 * inputs@.len());
                assert forall|j: int| 0 <= j < ob.len() implies whole[ppre + 1 + j] == #[trigger] ob[j] by {
                    assert(whole.subrange(ppre + 1, p2)[j] == whole[ppre + 1 + j]);
                }
                assert forall|j: int|
                    0 <= j < 8 implies whole[p2 + j] == #[trigger] u64_le(
                    inputs@.len() as u64,
                )[j] by {
                    assert(whole.subrange(p2, pos as int)[j] == whole[p2 + j]);
                    assert(ib[j] == u64_le(inputs@.len() as u64)[j]);
                }
                assert forall|j: int|
                    0 <= j < 8 * inputs@.len() implies whole[p2 + 8 + j] == #[trigger] ids_encoding(
                    inputs@,
                )[j] by {
                    assert(whole.subrange(p2, pos as int)[8 + j] == whole[p2 + (8 + j)]);
                    assert(ib[8 + j] == ids_encoding(inputs@)[j]);
                }
                assert(whole.subrange(ppre, pos as int) =~= seq![2u8] + op_encoding::<B, C>(op)
                    + u64_le(inputs@.len() as u64) + ids_encoding(inputs@));
            }
            Node::Op { op, inputs }
        } else {
            return Err(decode_error());
        };
        proof {
            lemma_nodes_encoding_push::<B, C>(nodes@, node);
            assert(whole.subrange(ppre, pos as int) == node_encoding::<B, C>(node));
            assert forall|j: int|
                0 <= j < ppre implies whole[j] == #[trigger] (u64_le(count as u64)
                + nodes_encoding::<B, C>(nodes@))[j] by {
                assert(whole.subrange(0, ppre)[j] == whole[j]);
            }
            assert forall|j: int|
                0 <= j < node_encoding::<B, C>(node).len() implies whole[ppre + j]
                == #[trigger] node_encoding::<B, C>(node)[j] by {
                assert(whole.subrange(ppre, pos as int)[j] == whole[ppre + j]);
            }
            let pref = u64_le(count as u64) + nodes_encoding::<B, C>(nodes@);
            let nenc = node_encoding::<B, C>(node);
            assert(pref.len() == ppre);
            assert(pos as int == ppre + nenc.len());
            assert(nodes_encoding::<B, C>(nodes@.push(node)) == nodes_encoding::<B, C>(nodes@)
                + nenc);
            assert forall|j: int|
                0 <= j < pos as int implies whole[j] == #[trigger] (u64_le(count as u64)
                + nodes_encoding::<B, C>(nodes@.push(node)))[j] by {
                let rhs = u64_le(count as u64) + nodes_encoding::<B, C>(nodes@.push(node));
                assert(nodes_encoding::<B, C>(nodes@.push(node))
                    == nodes_encoding::<B, C>(nodes@) + nenc);
                if j < ppre {
                    assert(whole[j] == pref[j]);
                    if j < 8 {
                        assert(pref[j] == u64_le(count as u64)[j]);
                        assert(rhs[j] == u64_le(count as u64)[j]);
                    } else {
                        assert(pref[j] == nodes_encoding::<B, C>(nodes@)[j - 8]);
                        assert(rhs[j] == (nodes_encoding::<B, C>(nodes@) + nenc)[j - 8]);
                        assert((nodes_encoding::<B, C>(nodes@) + nenc)[j - 8]
                            == nodes_encoding::<B, C>(nodes@)[j - 8]);
                    }
                } else {
                    assert(whole[j] == nenc[j - ppre]);
                    assert(rhs[j] == (nodes_encoding::<B, C>(nodes@) + nenc)[j - 8]);
                    assert((nodes_encoding::<B, C>(nodes@) + nenc)[j - 8] == nenc[j - 8
                        - nodes_encoding::<B, C>(nodes@).len()]);
                }
            }
            assert(whole.subrange(0, pos as int) =~= u64_le(count as u64) + nodes_encoding::<B, C>(
                nodes@.push(node),
            ));
        }
        nodes.push(node);
        i = i + 1;
    }
    if pos != bytes.len() {
        proof {
            if easy {
                assert(nodes_encoding::<B, C>(nodes@) =~= Seq::<u8>::empty());
                assert(whole.len() == 8);
            }
        }
        return Err(decode_error());
    }
    proof {
        assert(whole.subrange(0, pos as int) =~= whole);
        assert((count as u64) == (nodes@.len() as u64));
    }
    Ok(Graph::from_nodes(nodes))
}

} // verus!
