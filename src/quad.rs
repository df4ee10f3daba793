use vstd::prelude::*;
use vstd::arithmetic::power2::{pow2, lemma_pow2_pos, lemma_pow2_unfold, lemma_pow2_strictly_increases, lemma2_to64, lemma2_to64_rest};
use vstd::bits::{lemma_u64_shl_is_mul, lemma_u64_pow2_no_overflow};
use crate::ctx::{Approx, Ctx, child_comprs};

verus! {

/// Values that can stand in a base cell or in an embedding.
pub trait Embed: Default + Copy + Sized + std::fmt::Debug {
    /// The type's default value: an empty cell.
    spec fn default_value() -> Self;

    /// Returns the type's default value.
    fn new_default() -> (r: Self)
        ensures
            r == Self::default_value(),
    ;
}

impl Embed for u8 {
    open spec fn default_value() -> u8 {
        0
    }

    fn new_default() -> (r: u8) {
        u8::default()
    }
}

/// What a quadtree node holds.
#[derive(Debug)]
pub enum Quad<A: Embed, B: Embed> {
    /// A base cell of the grid.
    Base(A),
    /// Four children, indexed 0 = -x/-y, 1 = +x/-y, 2 = -x/+y, 3 = +x/+y.
    Node(Box<[Node<A, B>; 4]>),
    /// Nothing held: the content is recovered from the embedding.
    Cached,
}

/// A quadtree node: its depth (0 at the base cells), its embedding, and its payload.
#[derive(Debug)]
pub struct Node<A: Embed, B: Embed> {
    pub depth: usize,
    pub compr: B,
    pub data: Quad<A, B>,
}

/// The offset from a square's corner to its center cell, on each axis: the
/// cells of a square of depth `d` sit at local coordinates
/// `-low(d) <= x < pow2(d) - low(d)`.
pub open spec fn low(d: nat) -> int {
    pow2(d) as int / 2
}

/// Whether `x` lies inside a square of depth `d`, on one axis.
pub open spec fn in_square(d: nat, x: int) -> bool {
    -low(d) <= x < pow2(d) - low(d)
}

/// The coordinate inside a square of depth `d`, on one axis, nearest to `x`.
pub open spec fn clamp(d: nat, x: int) -> int {
    if x < -low(d) {
        -low(d)
    } else if x >= pow2(d) - low(d) {
        pow2(d) - low(d) - 1
    } else {
        x
    }
}

/// The child that holds local point `(x, y)`: `x >= 0` picks the `+x`
/// side and `y >= 0` the `+y` side, so the origin falls into child 3.
pub open spec fn quad_index(x: int, y: int) -> int {
    (if x >= 0 { 1int } else { 0int }) + (if y >= 0 { 2int } else { 0int })
}

/// Coordinate `x` of a square of depth `d >= 1`, seen from inside the child
/// that holds it.
pub open spec fn recenter(d: nat, x: int) -> int {
    if x >= 0 {
        x - low((d - 1) as nat)
    } else {
        x + pow2((d - 1) as nat) - low((d - 1) as nat)
    }
}

/// The base cell that an embedding of depth `d` decodes to at local point
/// `(x, y)`, expanding one level at a time down the path that holds it.
pub open spec fn decoded_at<A: Embed, B: Embed, S, N: Approx<A, B, S>>(e: B, d: nat, x: int, y: int) -> A
    decreases d,
{
    if d == 0 {
        N::expand_base_of(e)
    } else {
        decoded_at::<A, B, S, N>(
            N::expand_node_of(e)@[quad_index(x, y)],
            (d - 1) as nat,
            recenter(d, x),
            recenter(d, y),
        )
    }
}

/// `2^e` as a machine integer.
fn pow2_u64(e: usize) -> (r: u64)
    requires
        e < 64,
    ensures
        r == pow2(e as nat),
{
    proof {
        lemma_u64_pow2_no_overflow(e as nat);
        lemma_u64_shl_is_mul(1, e as u64);
    }
    1u64 << (e as u64)
}

/// A power of two that fits in 64 bits has an exponent under 64.
proof fn lemma_pow2_exponent_bound(e: nat)
    requires
        pow2(e) <= u64::MAX,
    ensures
        e < 64,
{
    lemma2_to64_rest();
    if e >= 64 {
        if e > 64 {
            lemma_pow2_strictly_increases(64, e);
        }
    }
}

/// A product with a factor of at least 1 is at least the other factor.
proof fn lemma_mul_ge_factor(a: int, b: int)
    requires
        a >= 1,
        b >= 0,
    ensures
        a * b >= b,
{
    assert(a * b >= b) by (nonlinear_arith)
        requires
            a >= 1,
            b >= 0,
    ;
}

/// Squares of powers of two grow with the exponent.
proof fn lemma_pow2_square_mono(a: nat, b: nat)
    requires
        a <= b,
    ensures
        pow2(a) * pow2(a) <= pow2(b) * pow2(b),
{
    if a < b {
        lemma_pow2_strictly_increases(a, b);
    }
    let pa = pow2(a) as int;
    let pb = pow2(b) as int;
    assert(pa * pa <= pb * pb) by (nonlinear_arith)
        requires
            0 <= pa <= pb,
    ;
}

/// A row-major index `y * n + x` of a cell inside an `n` by `n` square lies
/// below `n * n`.
proof fn lemma_cell_index_bound(n: int, x: int, y: int)
    requires
        0 <= x < n,
        0 <= y < n,
    ensures
        0 <= y * n + x < n * n,
{
    assert(0 <= y * n + x < n * n) by (nonlinear_arith)
        requires
            0 <= x < n,
            0 <= y < n,
    ;
}

/// The depth `d` of a square grid of `area` cells whose side is `2^d`, or
/// `None` when `area` is not such a square.
pub fn square_depth(area: usize) -> (r: Option<usize>)
    ensures
        r matches Some(d) ==> pow2(d as nat) * pow2(d as nat) == area,
        r is None ==> forall|d: nat| pow2(d) * pow2(d) != area,
{
    let mut d: usize = 0;
    let mut s: usize = 1;
    proof {
        lemma2_to64();
    }
    loop
        invariant
            s == pow2(d as nat),
            1 <= s <= area + 1,
            forall|k: nat| k < d ==> #[trigger] pow2(k) * pow2(k) < area,
        decreases area + 1 - s,
    {
        if s > area / s {
            proof {
                vstd::arithmetic::div_mod::lemma_fundamental_div_mod(area as int, s as int);
                let qt = area as int / s as int;
                let rm = area as int % s as int;
                assert(s * s > area) by (nonlinear_arith)
                    requires
                        s > qt,
                        area == s * qt + rm,
                        0 <= rm < s,
                ;
                assert forall|k: nat| pow2(k) * pow2(k) != area by {
                    if k >= d {
                        lemma_pow2_square_mono(d as nat, k);
                    }
                }
            }
            return None;
        }
        proof {
            vstd::arithmetic::div_mod::lemma_fundamental_div_mod(area as int, s as int);
            let qt = area as int / s as int;
            assert(s * s <= area) by (nonlinear_arith)
                requires
                    s <= qt,
                    area >= s * qt,
                    s >= 1,
            ;
        }
        if s * s == area {
            return Some(d);
        }
        proof {
            lemma_mul_ge_factor(s as int, s as int);
            if s >= 2 {
                assert(2 * s <= s * s) by (nonlinear_arith)
                    requires
                        s >= 2,
                ;
            }
            lemma_pow2_unfold((d + 1) as nat);
            lemma_pow2_exponent_bound((d + 1) as nat);
        }
        s = s * 2;
        d = d + 1;
    }
}

impl<A: Embed, B: Embed> Node<A, B> {
    /// Depths agree: a base cell sits at depth 0, and the four children of a
    /// node of depth `d + 1` all have depth `d`.
    pub open spec fn wf(self) -> bool
        decreases self.depth,
    {
        match self.data {
            Quad::Base(_) => self.depth == 0,
            Quad::Node(ch) => {
                &&& self.depth > 0
                &&& ch@[0].depth == self.depth - 1 && ch@[0].wf()
                &&& ch@[1].depth == self.depth - 1 && ch@[1].wf()
                &&& ch@[2].depth == self.depth - 1 && ch@[2].wf()
                &&& ch@[3].depth == self.depth - 1 && ch@[3].wf()
            },
            Quad::Cached => true,
        }
    }

    /// Whether every stored embedding of the material part of the tree is the
    /// one that `compress` gives for its payload under the backend `N`.
    pub open spec fn faithful<S, N: Approx<A, B, S>>(self) -> bool
        decreases self.depth,
    {
        match self.data {
            Quad::Base(a) => self.compr == N::compress_base_of(a),
            Quad::Node(ch) => {
                &&& self.compr == N::compress_node_of(child_comprs(ch@))
                &&& ch@[0].depth < self.depth ==> ch@[0].faithful::<S, N>()
                &&& ch@[1].depth < self.depth ==> ch@[1].faithful::<S, N>()
                &&& ch@[2].depth < self.depth ==> ch@[2].faithful::<S, N>()
                &&& ch@[3].depth < self.depth ==> ch@[3].faithful::<S, N>()
            },
            Quad::Cached => true,
        }
    }

    /// Whether no node of the tree is cached.
    pub open spec fn material(self) -> bool
        decreases self.depth,
    {
        match self.data {
            Quad::Base(_) => true,
            Quad::Node(ch) => {
                &&& ch@[0].depth < self.depth ==> ch@[0].material()
                &&& ch@[1].depth < self.depth ==> ch@[1].material()
                &&& ch@[2].depth < self.depth ==> ch@[2].material()
                &&& ch@[3].depth < self.depth ==> ch@[3].material()
            },
            Quad::Cached => false,
        }
    }

    /// Whether no node on the path that sampling at local point `(x, y)`
    /// walks is cached.
    pub open spec fn path_expanded(self, x: int, y: int) -> bool
        decreases self.depth,
    {
        match self.data {
            Quad::Base(_) => true,
            Quad::Node(ch) => {
                let c = ch@[quad_index(x, y)];
                c.depth < self.depth ==> c.path_expanded(recenter(self.depth as nat, x), recenter(self.depth as nat, y))
            },
            Quad::Cached => false,
        }
    }

    /// Whether the payload fits the depth at this node alone.
    pub open spec fn shape_ok(self) -> bool {
        &&& self.data is Base ==> self.depth == 0
        &&& self.data is Node ==> self.depth != 0
    }

    /// The base cell at local point `(x, y)`: the one that sampling there
    /// reaches, with cached parts decoded by the backend `N`. A point outside
    /// the square goes, at each level, to the child on its side of the center.
    pub open spec fn base_at<S, N: Approx<A, B, S>>(self, x: int, y: int) -> A
        decreases self.depth,
    {
        match self.data {
            Quad::Base(a) => a,
            Quad::Node(ch) => {
                let c = ch@[quad_index(x, y)];
                if c.depth < self.depth {
                    c.base_at::<S, N>(recenter(self.depth as nat, x), recenter(self.depth as nat, y))
                } else {
                    arbitrary()
                }
            },
            Quad::Cached => decoded_at::<A, B, S, N>(self.compr, self.depth as nat, x, y),
        }
    }

    /// Creates a node that holds only an embedding.
    pub fn new_cached(compr: B, depth: usize) -> (r: Self)
        ensures
            r.depth == depth,
            r.compr == compr,
            r.data is Cached,
            r.wf(),
    {
        Node { depth, compr, data: Quad::Cached }
    }

    /// Creates a tree of one base cell.
    pub fn new_base<S, N: Approx<A, B, S>>(ctx: &mut Ctx<A, B, S, N>, base: A) -> (r: Self)
        ensures
            r.depth == 0,
            r.compr == N::compress_base_of(base),
            r.data == Quad::<A, B>::Base(base),
            r.wf(),
    {
        let compr = ctx.compress_base(base);
        Node { depth: 0, compr, data: Quad::Base(base) }
    }

    /// Creates a tree of one default base cell.
    pub fn new_empty<S, N: Approx<A, B, S>>(ctx: &mut Ctx<A, B, S, N>) -> (r: Self)
        ensures
            r.depth == 0,
            r.data == Quad::<A, B>::Base(A::default_value()),
            r.compr == N::compress_base_of(A::default_value()),
            r.wf(),
    {
        Self::new_base(ctx, A::new_default())
    }

    /// Joins four trees of equal depth `d` into one of depth `d + 1`, whose
    /// embedding is compressed from the children's.
    pub fn new_node<S, N: Approx<A, B, S>>(ctx: &mut Ctx<A, B, S, N>, children: [Node<A, B>; 4]) -> (r: Self)
        requires
            children@[1].depth == children@[0].depth,
            children@[2].depth == children@[0].depth,
            children@[3].depth == children@[0].depth,
            children@[0].depth < usize::MAX,
        ensures
            r.depth == children@[0].depth + 1,
            r.data is Node,
            r.data->Node_0@ == children@,
            r.compr == N::compress_node_of(child_comprs(children@)),
            children@[0].wf() && children@[1].wf() && children@[2].wf() && children@[3].wf()
                ==> r.wf(),
            forall|x: int, y: int| #[trigger]
                r.base_at::<S, N>(x, y) == children@[quad_index(x, y)].base_at::<S, N>(
                    recenter(r.depth as nat, x),
                    recenter(r.depth as nat, y),
                ),
    {
        let depth = children[0].depth + 1;
        let quad = Quad::Node(Box::new(children));
        let compr = match ctx.compress(&quad) {
            Some(c) => c,
            None => {
                proof {
                    assert(false);
                }
                B::default()
            },
        };
        let r = Node { depth, compr, data: quad };
        assert forall|x: int, y: int| #[trigger]
            r.base_at::<S, N>(x, y) == children@[quad_index(x, y)].base_at::<S, N>(
                recenter(r.depth as nat, x),
                recenter(r.depth as nat, y),
            ) by {
            let k = quad_index(x, y);
            assert(0 <= k < 4);
        }
        r
    }

    /// Samples the color of the base cell at local point `(x, y)`, expanding
    /// cached nodes along the way; returns the tree, now expanded along that
    /// path, with the color.
    pub fn sample_color<S, N: Approx<A, B, S>>(self, ctx: &mut Ctx<A, B, S, N>, x: isize, y: isize) -> (r: (Self, [u8; 4]))
        requires
            self.wf(),
            pow2(self.depth as nat) <= isize::MAX as nat + 1,
        ensures
            r.0.wf(),
            r.0.depth == self.depth,
            r.0.compr == self.compr,
            r.1 == N::color_of(self.base_at::<S, N>(x as int, y as int)),
            forall|u: int, v: int| #[trigger]
                r.0.base_at::<S, N>(u, v) == self.base_at::<S, N>(u, v),
            r.0.path_expanded(x as int, y as int),
            self.material() ==> r.0 == self,
            self.data is Cached && self.depth == 0 ==> r.0.data == Quad::<A, B>::Base(
                N::expand_base_of(self.compr),
            ),
            self.data is Node ==> r.0.data is Node && (forall|i: int|
                0 <= i < 4 ==> {
                    let c = #[trigger] r.0.data->Node_0@[i];
                    let o = self.data->Node_0@[i];
                    &&& c.depth == o.depth
                    &&& c.compr == o.compr
                    &&& i != quad_index(x as int, y as int) ==> c == o
                }),
            self.data is Cached && self.depth > 0 ==> r.0.data is Node && (forall|i: int|
                0 <= i < 4 ==> {
                    let c = #[trigger] r.0.data->Node_0@[i];
                    &&& c.depth == self.depth - 1
                    &&& c.compr == N::expand_node_of(self.compr)@[i]
                    &&& i != quad_index(x as int, y as int) ==> c.data is Cached
                }),
        decreases self.depth,
    {
        let expanded = ctx.expand(self);
        let ghost before = expanded;
        let Node { depth, compr, data } = expanded;
        match data {
            Quad::Base(a) => {
                let color = ctx.color_base(a);
                (Node { depth, compr, data: Quad::Base(a) }, color)
            },
            Quad::Node(mut ch) => {
                let ghost old_ch = ch@;
                let ghost old_box = ch;
                proof {
                    lemma_pow2_unfold(depth as nat);
                    lemma_pow2_pos((depth - 1) as nat);
                    lemma2_to64_rest();
                    lemma_pow2_exponent_bound(depth as nat);
                }
                let s = pow2_u64(depth - 1) as isize;
                let q = s / 2;
                let i: usize = if x >= 0 {
                    if y >= 0 { 3 } else { 1 }
                } else {
                    if y >= 0 { 2 } else { 0 }
                };
                let nx = if x >= 0 { x - q } else { x + (s - q) };
                let ny = if y >= 0 { y - q } else { y + (s - q) };
                let mut child = Node::new_cached(ch[i].compr, ch[i].depth);
                std::mem::swap(&mut ch[i], &mut child);
                proof {
                    lemma_pow2_strictly_increases((depth - 1) as nat, depth as nat);
                }
                let (mut nc, color) = child.sample_color(ctx, nx, ny);
                let ghost sampled = nc;
                std::mem::swap(&mut ch[i], &mut nc);
                let r = Node { depth, compr, data: Quad::Node(ch) };
                assert forall|u: int, v: int| #[trigger]
                    r.base_at::<S, N>(u, v) == before.base_at::<S, N>(u, v) by {
                    let k = quad_index(u, v);
                    let ru = recenter(depth as nat, u);
                    let rv = recenter(depth as nat, v);
                    assert(0 <= k < 4);
                    assert(before.data->Node_0@ == old_ch);
                    assert(r.data->Node_0@ =~= old_ch.update(i as int, sampled));
                    if k == i as int {
                        assert(sampled.base_at::<S, N>(ru, rv) == old_ch[k].base_at::<S, N>(ru, rv));
                    }
                }
                assert(r.data->Node_0@ =~= old_ch.update(i as int, sampled));
                assert(quad_index(x as int, y as int) == i);
                proof {
                    if before.material() {
                        assert(old_ch[i as int].material());
                        assert(r.data->Node_0@ =~= old_ch);
                        broadcast use vstd::array::group_array_axioms;
                        assert(*ch == *old_box);
                    }
                }
                (r, color)
            },
            Quad::Cached => {
                proof {
                    assert(false);
                }
                (Node { depth, compr, data: Quad::Cached }, [0u8; 4])
            },
        }
    }

    /// Builds the subtree of depth `depth` over the cells whose columns are
    /// `x .. x + 2^depth` and rows `y .. y + 2^depth` of a row-major square
    /// of side `abs_size`.
    fn build_square<S, N: Approx<A, B, S>>(
        ctx: &mut Ctx<A, B, S, N>,
        square: &[A],
        abs_size: usize,
        depth: usize,
        x: usize,
        y: usize,
    ) -> (r: Node<A, B>)
        requires
            square@.len() == abs_size * abs_size,
            abs_size * abs_size <= usize::MAX,
            x + pow2(depth as nat) <= abs_size,
            y + pow2(depth as nat) <= abs_size,
        ensures
            r.wf(),
            r.depth == depth,
            r.material(),
            r.faithful::<S, N>(),
            forall|u: int, v: int| #[trigger]
                r.base_at::<S, N>(u, v) == square@[(y + clamp(depth as nat, v) + low(depth as nat)) * abs_size + (x
                    + clamp(depth as nat, u) + low(depth as nat))],
        decreases depth,
    {
        proof {
            lemma2_to64();
            lemma_pow2_pos(depth as nat);
        }
        if depth == 0 {
            proof {
                lemma_cell_index_bound(abs_size as int, x as int, y as int);
                assert(0 <= y * abs_size <= y * abs_size + x);
            }
            let idx = y * abs_size + x;
            Self::new_base(ctx, square[idx])
        } else {
            proof {
                lemma_pow2_unfold(depth as nat);
                lemma_pow2_exponent_bound(depth as nat);
            }
            let half = pow2_u64(depth - 1) as usize;
            let d = depth - 1;
            let children = [
                Self::build_square(ctx, square, abs_size, d, x, y),
                Self::build_square(ctx, square, abs_size, d, x + half, y),
                Self::build_square(ctx, square, abs_size, d, x, y + half),
                Self::build_square(ctx, square, abs_size, d, x + half, y + half),
            ];
            let r = Self::new_node(ctx, children);
            assert forall|u: int, v: int| #[trigger]
                r.base_at::<S, N>(u, v) == square@[(y + clamp(depth as nat, v) + low(depth as nat)) * abs_size + (x
                    + clamp(depth as nat, u) + low(depth as nat))] by {
                let k = quad_index(u, v);
                let ru = recenter(depth as nat, u);
                let rv = recenter(depth as nat, v);
                let cx = if u >= 0 { x + half } else { x as int };
                let cy = if v >= 0 { y + half } else { y as int };
                assert(cx + clamp(d as nat, ru) + low(d as nat) == x + clamp(depth as nat, u) + low(depth as nat));
                assert(cy + clamp(d as nat, rv) + low(d as nat) == y + clamp(depth as nat, v) + low(depth as nat));
                assert(children@[k].base_at::<S, N>(ru, rv)
                    == square@[(cy + clamp(d as nat, rv) + low(d as nat)) * abs_size + (cx + clamp(d as nat, ru) + low(d as nat))]);
            }
            r
        }
    }

    /// Builds a tree from a row-major square grid whose side is a power of
    /// two: the cell at column `c` and row `w` lands at local point
    /// `(c - low(d), w - low(d))` of the tree of depth `d`. A point outside
    /// the square reaches the cell nearest to it on each axis.
    pub fn new_from_square<S, N: Approx<A, B, S>>(ctx: &mut Ctx<A, B, S, N>, square: Vec<A>) -> (r: Self)
        requires
            exists|d: nat| pow2(d) * pow2(d) == square@.len(),
        ensures
            r.wf(),
            r.material(),
            r.faithful::<S, N>(),
            pow2(r.depth as nat) * pow2(r.depth as nat) == square@.len(),
            forall|u: int, v: int| #[trigger]
                r.base_at::<S, N>(u, v) == square@[(clamp(r.depth as nat, v) + low(r.depth as nat)) * pow2(
                    r.depth as nat,
                ) + (clamp(r.depth as nat, u) + low(r.depth as nat))],
    {
        match square_depth(square.len()) {
            Some(depth) => {
                proof {
                    lemma_pow2_pos(depth as nat);
                    lemma_mul_ge_factor(pow2(depth as nat) as int, pow2(depth as nat) as int);
                    lemma_pow2_exponent_bound(depth as nat);
                }
                let size = pow2_u64(depth) as usize;
                assert(size * size <= usize::MAX);
                Self::build_square(ctx, square.as_slice(), size, depth, 0, 0)
            },
            None => {
                proof {
                    assert(false);
                }
                Self::new_empty(ctx)
            },
        }
    }

    /// A tree of depth `depth` whose cells all hold the default value, with
    /// every node material.
    fn empty_tree<S, N: Approx<A, B, S>>(ctx: &mut Ctx<A, B, S, N>, depth: usize) -> (r: Self)
        ensures
            r.wf(),
            r.depth == depth,
            r.material(),
            r.faithful::<S, N>(),
            forall|x: int, y: int| #[trigger] r.base_at::<S, N>(x, y) == A::default_value(),
        decreases depth,
    {
        if depth == 0 {
            Self::new_empty(ctx)
        } else {
            let d = depth - 1;
            let children = [
                Self::empty_tree(ctx, d),
                Self::empty_tree(ctx, d),
                Self::empty_tree(ctx, d),
                Self::empty_tree(ctx, d),
            ];
            let r = Self::new_node(ctx, children);
            assert forall|x: int, y: int| #[trigger] r.base_at::<S, N>(x, y) == A::default_value() by {
                let k = quad_index(x, y);
                assert(0 <= k < 4);
            }
            r
        }
    }

    /// Grows the tree to twice its side. The old tree becomes child 3, the
    /// `+x/+y` child, unchanged: its local point `(x, y)` is now at
    /// `(x + low(d), y + low(d))`, that is shifted by `2^(d - 1)` on each
    /// axis for depth `d >= 1`, and not moved for a single cell. Children
    /// 0, 1 and 2 are material trees of default cells.
    pub fn pad_empty<S, N: Approx<A, B, S>>(self, ctx: &mut Ctx<A, B, S, N>) -> (r: Self)
        requires
            self.wf(),
            self.depth < usize::MAX,
        ensures
            r.wf(),
            r.depth == self.depth + 1,
            r.data is Node,
            r.data->Node_0@[3] == self,
            self.material() ==> r.material(),
            self.faithful::<S, N>() ==> r.faithful::<S, N>(),
            forall|x: int, y: int|
                in_square(self.depth as nat, x) && in_square(self.depth as nat, y) ==> #[trigger] r.base_at::<S, N>(
                    x + low(self.depth as nat),
                    y + low(self.depth as nat),
                ) == self.base_at::<S, N>(x, y),
            forall|x: int, y: int| !(x >= 0 && y >= 0) ==> #[trigger] r.base_at::<S, N>(x, y) == A::default_value(),
    {
        let d = self.depth;
        let ghost old = self;
        let e0 = Self::empty_tree(ctx, d);
        let e1 = Self::empty_tree(ctx, d);
        let e2 = Self::empty_tree(ctx, d);
        let ghost es = seq![e0, e1, e2];
        let r = Self::new_node(ctx, [e0, e1, e2, self]);
        proof {
            lemma_pow2_unfold((d + 1) as nat);
            lemma_pow2_pos(d as nat);
        }
        assert forall|x: int, y: int|
            in_square(d as nat, x) && in_square(d as nat, y) implies #[trigger] r.base_at::<S, N>(
                x + low(d as nat),
                y + low(d as nat),
            ) == old.base_at::<S, N>(x, y) by {
            let u = x + low(d as nat);
            let v = y + low(d as nat);
            assert(quad_index(u, v) == 3);
            assert(recenter((d + 1) as nat, u) == x);
            assert(recenter((d + 1) as nat, v) == y);
        }
        assert forall|x: int, y: int| !(x >= 0 && y >= 0) implies #[trigger] r.base_at::<S, N>(x, y)
            == A::default_value() by {
            let k = quad_index(x, y);
            assert(0 <= k < 3);
            assert(es[k].base_at::<S, N>(recenter((d + 1) as nat, x), recenter((d + 1) as nat, y))
                == A::default_value());
        }
        r
    }
}

} // verus!
