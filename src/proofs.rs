use vstd::prelude::*;
use vstd::arithmetic::power2::{pow2, lemma_pow2_unfold, lemma_pow2_pos};
use crate::ctx::{Approx, Basic, child_comprs, compress_of};
use crate::quad::{Embed, Node, Quad, decoded_at, in_square, low, quad_index, recenter};

verus! {

/// Whether every cell of the tree's square is `val`.
pub open spec fn uniform<A: Embed, B: Embed, S, N: Approx<A, B, S>>(node: Node<A, B>, val: A) -> bool {
    forall|x: int, y: int|
        in_square(node.depth as nat, x) && in_square(node.depth as nat, y) ==> #[trigger] node.base_at::<S, N>(x, y) == val
}

/// The reference backend decodes a base embedding to the cell it came from.
pub proof fn lemma_basic_base_round_trip(a: u8)
    ensures
        <Basic as Approx<u8, u8, ()>>::expand_base_of(<Basic as Approx<u8, u8, ()>>::compress_base_of(a)) == a,
{
}

/// The reference backend decodes the embedding of four children back to them
/// exactly when they are equal: the parent embedding is their average, and
/// it decodes to four copies of itself.
pub proof fn lemma_basic_node_round_trip(c: [u8; 4])
    ensures
        <Basic as Approx<u8, u8, ()>>::expand_node_of(<Basic as Approx<u8, u8, ()>>::compress_node_of(c@)) == c
            <==> (c@[1] == c@[0] && c@[2] == c@[0] && c@[3] == c@[0]),
{
    broadcast use vstd::array::group_array_axioms;

    let s = <Basic as Approx<u8, u8, ()>>::compress_node_of(c@);
    let r = <Basic as Approx<u8, u8, ()>>::expand_node_of(s);
    assert(r@[0] == s && r@[1] == s && r@[2] == s && r@[3] == s);
    if c@[1] == c@[0] && c@[2] == c@[0] && c@[3] == c@[0] {
        assert(s == c@[0]);
        assert(r@ =~= c@);
        assert(r == c);
    } else if r == c {
        assert(r@[0] == c@[0] && r@[1] == c@[1] && r@[2] == c@[2] && r@[3] == c@[3]);
    }
}

/// The reference backend averages four copies of an embedding back to it.
pub proof fn lemma_basic_average_of_copies(v: u8)
    ensures
        <Basic as Approx<u8, u8, ()>>::compress_node_of(<Basic as Approx<u8, u8, ()>>::expand_node_of(v)@) == v,
{
    broadcast use vstd::array::group_array_axioms;

    let r = <Basic as Approx<u8, u8, ()>>::expand_node_of(v);
    assert(r@[0] == v && r@[1] == v && r@[2] == v && r@[3] == v);
}

/// The reference backend decodes an embedding to the same cell everywhere.
pub proof fn lemma_basic_decodes_uniformly(e: u8, d: nat, x: int, y: int)
    ensures
        decoded_at::<u8, u8, (), Basic>(e, d, x, y) == e,
    decreases d,
{
    if d > 0 {
        let ch = <Basic as Approx<u8, u8, ()>>::expand_node_of(e);
        assert(ch@[quad_index(x, y)] == e);
        lemma_basic_decodes_uniformly(e, (d - 1) as nat, recenter(d, x), recenter(d, y));
    }
}

/// A point of child `k` of a square of depth `d >= 1`, seen from the parent:
/// it lies in the parent's square, in child `k`, and recenters back to it.
pub proof fn lemma_child_point(d: nat, k: int, cx: int, cy: int) -> (p: (int, int))
    requires
        d >= 1,
        0 <= k < 4,
        in_square((d - 1) as nat, cx),
        in_square((d - 1) as nat, cy),
    ensures
        in_square(d, p.0),
        in_square(d, p.1),
        quad_index(p.0, p.1) == k,
        recenter(d, p.0) == cx,
        recenter(d, p.1) == cy,
{
    lemma_pow2_unfold(d);
    lemma_pow2_pos((d - 1) as nat);
    let h = pow2((d - 1) as nat) as int;
    let l = low((d - 1) as nat);
    let px = if k % 2 == 1 { cx + l } else { cx - h + l };
    let py = if k / 2 == 1 { cy + l } else { cy - h + l };
    (px, py)
}

/// Each child of a tree that holds `val` in every cell holds `val` in every
/// cell too.
proof fn lemma_uniform_child<A: Embed, B: Embed, S, N: Approx<A, B, S>>(node: Node<A, B>, val: A, k: int)
    requires
        node.wf(),
        node.data is Node,
        uniform::<A, B, S, N>(node, val),
        0 <= k < 4,
    ensures
        uniform::<A, B, S, N>(node.data->Node_0@[k], val),
{
    let c = node.data->Node_0@[k];
    assert forall|x: int, y: int|
        in_square(c.depth as nat, x) && in_square(c.depth as nat, y) implies #[trigger] c.base_at::<S, N>(x, y)
            == val by {
        let p = lemma_child_point(node.depth as nat, k, x, y);
        assert(node.base_at::<S, N>(p.0, p.1) == val);
    }
}

/// Under the reference backend, a tree whose stored embeddings are faithful
/// and whose cells all hold `val` carries `val` as its embedding.
pub proof fn lemma_basic_uniform_embedding(node: Node<u8, u8>, val: u8)
    requires
        node.wf(),
        node.faithful::<(), Basic>(),
        uniform::<u8, u8, (), Basic>(node, val),
    ensures
        node.compr == val,
    decreases node.depth,
{
    lemma_pow2_pos(node.depth as nat);
    assert(in_square(node.depth as nat, 0));
    assert(node.base_at::<(), Basic>(0, 0) == val);
    match node.data {
        Quad::Base(a) => {},
        Quad::Node(ch) => {
            lemma_uniform_child::<u8, u8, (), Basic>(node, val, 0);
            lemma_uniform_child::<u8, u8, (), Basic>(node, val, 1);
            lemma_uniform_child::<u8, u8, (), Basic>(node, val, 2);
            lemma_uniform_child::<u8, u8, (), Basic>(node, val, 3);
            lemma_basic_uniform_embedding(ch@[0], val);
            lemma_basic_uniform_embedding(ch@[1], val);
            lemma_basic_uniform_embedding(ch@[2], val);
            lemma_basic_uniform_embedding(ch@[3], val);
        },
        Quad::Cached => {
            lemma_basic_decodes_uniformly(node.compr, node.depth as nat, 0, 0);
        },
    }
}

/// Under the reference backend, compressing the payload of a material node
/// and keeping only that embedding, as a cached node of the same depth,
/// leaves every sampled cell as it was, for a tree with faithful embeddings
/// that holds one value in every cell.
pub proof fn lemma_basic_compress_then_expand(node: Node<u8, u8>, val: u8)
    requires
        node.wf(),
        !(node.data is Cached),
        node.faithful::<(), Basic>(),
        uniform::<u8, u8, (), Basic>(node, val),
    ensures
        compress_of::<u8, u8, (), Basic>(node.data) == Some(node.compr),
        forall|x: int, y: int|
            in_square(node.depth as nat, x) && in_square(node.depth as nat, y) ==> #[trigger] decoded_at::<
                u8,
                u8,
                (),
                Basic,
            >(node.compr, node.depth as nat, x, y) == node.base_at::<(), Basic>(x, y),
{
    lemma_basic_uniform_embedding(node, val);
    assert forall|x: int, y: int|
        in_square(node.depth as nat, x) && in_square(node.depth as nat, y) implies #[trigger] decoded_at::<
            u8,
            u8,
            (),
            Basic,
        >(node.compr, node.depth as nat, x, y) == node.base_at::<(), Basic>(x, y) by {
        lemma_basic_decodes_uniformly(node.compr, node.depth as nat, x, y);
    }
}

/// For a backend whose round trips are both exact, the embedding of a tree
/// with faithful embeddings decodes, at every point, to the cell that
/// sampling the tree there reaches: compressing a tree to its embedding and
/// expanding it back keeps every sampled color.
pub proof fn lemma_lossless_compress_then_expand<A: Embed, B: Embed, S, N: Approx<A, B, S>>(node: Node<A, B>)
    requires
        node.wf(),
        node.faithful::<S, N>(),
        forall|a: A| #[trigger] N::expand_base_of(N::compress_base_of(a)) == a,
        forall|c: Seq<B>| c.len() == 4 ==> #[trigger] N::expand_node_of(N::compress_node_of(c))@ == c,
    ensures
        forall|x: int, y: int| #[trigger]
            decoded_at::<A, B, S, N>(node.compr, node.depth as nat, x, y) == node.base_at::<S, N>(x, y),
    decreases node.depth,
{
    assert forall|x: int, y: int| #[trigger]
        decoded_at::<A, B, S, N>(node.compr, node.depth as nat, x, y) == node.base_at::<S, N>(x, y) by {
        match node.data {
            Quad::Base(a) => {},
            Quad::Node(ch) => {
                let k = quad_index(x, y);
                assert(0 <= k < 4);
                let cs = child_comprs(ch@);
                assert(N::expand_node_of(node.compr)@ == cs);
                lemma_lossless_compress_then_expand::<A, B, S, N>(ch@[k]);
                assert(decoded_at::<A, B, S, N>(ch@[k].compr, (node.depth - 1) as nat, recenter(node.depth as nat, x), recenter(node.depth as nat, y))
                    == ch@[k].base_at::<S, N>(recenter(node.depth as nat, x), recenter(node.depth as nat, y)));
            },
            Quad::Cached => {},
        }
    }
}

/// Sampling at the origin of a tree with children goes to child 3, the
/// `+x/+y` child, at its own local point `(-low(d - 1), -low(d - 1))`: its
/// lower-left cell.
pub proof fn lemma_origin_goes_to_child_3<A: Embed, B: Embed, S, N: Approx<A, B, S>>(node: Node<A, B>)
    requires
        node.wf(),
        node.data is Node,
    ensures
        quad_index(0, 0) == 3,
        node.base_at::<S, N>(0, 0) == node.data->Node_0@[3].base_at::<S, N>(
            -low((node.depth - 1) as nat),
            -low((node.depth - 1) as nat),
        ),
{
}

} // verus!
