use std::marker::PhantomData;
use vstd::prelude::*;
use crate::quad::{Embed, Node, Quad, quad_index, recenter};

verus! {

/// A compression backend: turns base cells into colors, and moves between
/// material values and embeddings, one level at a time.
///
/// Each operation is a function of its arguments; the state is the backend's
/// own scratch space (caches, buffers, weights) and may change on any call.
pub trait Approx<A: Embed, B: Embed, S>: Default {
    /// The color of a base cell.
    spec fn color_of(base: A) -> [u8; 4];

    /// The embedding of four child embeddings, given in index order.
    spec fn compress_node_of(compr: Seq<B>) -> B;

    /// The four child embeddings decoded from a parent embedding.
    spec fn expand_node_of(compr: B) -> [B; 4];

    /// The embedding of a base cell.
    spec fn compress_base_of(base: A) -> B;

    /// The base cell decoded from an embedding.
    spec fn expand_base_of(compr: B) -> A;

    fn color_base(state: &mut S, base: A) -> (r: [u8; 4])
        ensures
            r == Self::color_of(base),
    ;

    fn compress_node(state: &mut S, compr: [B; 4]) -> (r: B)
        ensures
            r == Self::compress_node_of(compr@),
    ;

    fn expand_node(state: &mut S, compr: B) -> (r: [B; 4])
        ensures
            r == Self::expand_node_of(compr),
    ;

    fn compress_base(state: &mut S, base: A) -> (r: B)
        ensures
            r == Self::compress_base_of(base),
    ;

    fn expand_base(state: &mut S, compr: B) -> (r: A)
        ensures
            r == Self::expand_base_of(compr),
    ;
}

/// The reference backend on bytes: a cell is its own embedding, a parent
/// embedding is the average of its children's, rounded down, and a parent
/// decodes to four copies of itself.
#[derive(Default)]
pub struct Basic;

impl Approx<u8, u8, ()> for Basic {
    open spec fn color_of(base: u8) -> [u8; 4] {
        [base, base, base, base]
    }

    open spec fn compress_node_of(c: Seq<u8>) -> u8 {
        ((c[0] + c[1] + c[2] + c[3]) / 4) as u8
    }

    open spec fn expand_node_of(compr: u8) -> [u8; 4] {
        [compr, compr, compr, compr]
    }

    open spec fn compress_base_of(base: u8) -> u8 {
        base
    }

    open spec fn expand_base_of(compr: u8) -> u8 {
        compr
    }

    fn color_base(state: &mut (), base: u8) -> (r: [u8; 4]) {
        [base, base, base, base]
    }

    fn compress_node(state: &mut (), c: [u8; 4]) -> (r: u8) {
        ((c[0] as u16 + c[1] as u16 + c[2] as u16 + c[3] as u16) / 4) as u8
    }

    fn expand_node(state: &mut (), compr: u8) -> (r: [u8; 4]) {
        [compr, compr, compr, compr]
    }

    fn compress_base(state: &mut (), base: u8) -> (r: u8) {
        base
    }

    fn expand_base(state: &mut (), compr: u8) -> (r: u8) {
        compr
    }
}

/// The backend together with its state: every compress and expand call of
/// the tree goes through here.
#[derive(Debug)]
pub struct Ctx<A: Embed, B: Embed, S, N: Approx<A, B, S>> {
    _phantom_a: PhantomData<A>,
    _phantom_b: PhantomData<B>,
    state: S,
    networks: N,
}

impl<A: Embed, B: Embed, S, N: Approx<A, B, S>> Ctx<A, B, S, N> {
    /// Creates a context from a backend and its initial state.
    pub fn new(state: S, networks: N) -> (r: Self)
        ensures
            r.state() == state,
    {
        Ctx { _phantom_a: PhantomData, _phantom_b: PhantomData, state, networks }
    }

    /// The backend state held.
    pub closed spec fn state(&self) -> S {
        self.state
    }

    pub fn color_base(&mut self, base: A) -> (r: [u8; 4])
        ensures
            r == N::color_of(base),
    {
        N::color_base(&mut self.state, base)
    }

    /// Compresses a base cell into an embedding.
    pub fn compress_base(&mut self, base: A) -> (r: B)
        ensures
            r == N::compress_base_of(base),
    {
        N::compress_base(&mut self.state, base)
    }

    /// Combines four child embeddings into the parent's.
    pub fn compress_node(&mut self, compr: [B; 4]) -> (r: B)
        ensures
            r == N::compress_node_of(compr@),
    {
        N::compress_node(&mut self.state, compr)
    }

    /// The embedding of a payload: of the cell for `Base`, of the children's
    /// embeddings for `Node`; `None` for `Cached`, whose embedding is the one
    /// already on its node.
    pub fn compress(&mut self, quad: &Quad<A, B>) -> (r: Option<B>)
        ensures
            r == compress_of::<A, B, S, N>(*quad),
            quad is Cached ==> final(self).state() == old(self).state(),
    {
        match quad {
            Quad::Base(b) => Some(self.compress_base(*b)),
            Quad::Node(n) => {
                let c = [n[0].compr, n[1].compr, n[2].compr, n[3].compr];
                assert(c@ =~= child_comprs(n@));
                Some(self.compress_node(c))
            },
            Quad::Cached => None,
        }
    }

    /// Decodes an embedding into a base cell.
    pub fn expand_base(&mut self, compr: B) -> (r: A)
        ensures
            r == N::expand_base_of(compr),
    {
        N::expand_base(&mut self.state, compr)
    }

    /// Decodes a parent embedding into its four children's.
    pub fn expand_node(&mut self, compr: B) -> (r: [B; 4])
        ensures
            r == N::expand_node_of(compr),
    {
        N::expand_node(&mut self.state, compr)
    }

    /// Rebuilds one level of a cached node from its embedding: a cached base
    /// cell becomes `Base`, a cached node of depth `d > 0` gets four cached
    /// children of depth `d - 1`. Other nodes are returned as they are.
    pub fn expand(&mut self, compr: Node<A, B>) -> (r: Node<A, B>)
        requires
            compr.shape_ok(),
        ensures
            r.depth == compr.depth,
            r.compr == compr.compr,
            !(r.data is Cached),
            r.shape_ok(),
            !(compr.data is Cached) ==> r == compr,
            !(compr.data is Cached) ==> final(self).state() == old(self).state(),
            compr.data is Cached && compr.depth == 0 ==> r.data == Quad::<A, B>::Base(
                N::expand_base_of(compr.compr),
            ),
            compr.data is Cached && compr.depth > 0 ==> (forall|i: int|
                0 <= i < 4 ==> {
                    let c = #[trigger] r.data->Node_0@[i];
                    &&& c.depth == compr.depth - 1
                    &&& c.compr == N::expand_node_of(compr.compr)@[i]
                    &&& c.data is Cached
                }),
            compr.wf() ==> r.wf(),
            forall|x: int, y: int| #[trigger]
                r.base_at::<S, N>(x, y) == compr.base_at::<S, N>(x, y),
    {
        match compr.data {
            Quad::Base(_) => compr,
            Quad::Node(_) => compr,
            Quad::Cached => {
                if compr.depth == 0 {
                    let a = self.expand_base(compr.compr);
                    Node { depth: compr.depth, compr: compr.compr, data: Quad::Base(a) }
                } else {
                    let c = self.expand_node(compr.compr);
                    let d = compr.depth - 1;
                    let children = [
                        Node::new_cached(c[0], d),
                        Node::new_cached(c[1], d),
                        Node::new_cached(c[2], d),
                        Node::new_cached(c[3], d),
                    ];
                    let r = Node { depth: compr.depth, compr: compr.compr, data: Quad::Node(Box::new(children)) };
                    assert forall|x: int, y: int|
                        #[trigger] r.base_at::<S, N>(x, y) == compr.base_at::<S, N>(x, y) by {
                        let q = quad_index(x, y);
                        assert(0 <= q < 4);
                        assert(r.base_at::<S, N>(x, y) == children@[q].base_at::<S, N>(
                            recenter(r.depth as nat, x),
                            recenter(r.depth as nat, y),
                        ));
                    }
                    r
                }
            },
        }
    }
}

/// The embeddings of four children, in index order.
pub open spec fn child_comprs<A: Embed, B: Embed>(ch: Seq<Node<A, B>>) -> Seq<B> {
    seq![ch[0].compr, ch[1].compr, ch[2].compr, ch[3].compr]
}

/// What `compress` gives for a payload.
pub open spec fn compress_of<A: Embed, B: Embed, S, N: Approx<A, B, S>>(quad: Quad<A, B>) -> Option<B> {
    match quad {
        Quad::Base(b) => Some(N::compress_base_of(b)),
        Quad::Node(n) => Some(N::compress_node_of(child_comprs(n@))),
        Quad::Cached => None,
    }
}

} // verus!
