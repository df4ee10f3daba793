use quadtree::ctx::{Basic, Ctx};
use quadtree::quad::{square_depth, Node, Quad};

fn ctx() -> Ctx<u8, u8, (), Basic> {
    Ctx::new((), Basic)
}

fn grid(side: usize) -> Vec<u8> {
    (0..side * side).map(|i| (i % 256) as u8).collect()
}

/// Samples every cell of a `side` by `side` grid built from `cells` and
/// checks it against the cell it was built from.
fn check_every_cell(side: usize, cells: Vec<u8>) {
    let mut c = ctx();
    let mut node: Node<u8, u8> = Node::new_from_square(&mut c, cells.clone());
    let low = (side / 2) as isize;
    for w in 0..side {
        for col in 0..side {
            let x = col as isize - low;
            let y = w as isize - low;
            let (n, color) = node.sample_color(&mut c, x, y);
            node = n;
            let v = cells[w * side + col];
            assert_eq!(color, [v; 4], "cell at column {} row {}", col, w);
        }
    }
}

#[test]
fn build_then_sample_every_cell() {
    check_every_cell(1, vec![42]);
    check_every_cell(2, grid(2));
    check_every_cell(4, grid(4));
    check_every_cell(8, grid(8));
    check_every_cell(16, grid(16));
}

#[test]
fn build_sets_depth_and_embeddings() {
    let mut c = ctx();
    let node: Node<u8, u8> = Node::new_from_square(&mut c, vec![4, 8, 12, 16]);
    assert_eq!(node.depth, 1);
    assert_eq!(node.compr, (4 + 8 + 12 + 16) / 4);
    match &node.data {
        Quad::Node(ch) => {
            assert_eq!(ch[0].compr, 4);
            assert_eq!(ch[1].compr, 8);
            assert_eq!(ch[2].compr, 12);
            assert_eq!(ch[3].compr, 16);
            for k in 0..4 {
                assert_eq!(ch[k].depth, 0);
                assert!(matches!(ch[k].data, Quad::Base(_)));
            }
        },
        _ => panic!("a built tree of depth 1 holds children"),
    }
}

#[test]
fn four_by_four_end_to_end() {
    let mut c = ctx();
    let cells: Vec<u8> = (0..16).collect();
    let mut node: Node<u8, u8> = Node::new_from_square(&mut c, cells);
    assert_eq!(node.depth, 2);
    let built = format!("{:?}", node);
    for x in -2..2isize {
        for y in -2..2isize {
            let (n, color) = node.sample_color(&mut c, x, y);
            node = n;
            let v = ((y + 2) * 4 + (x + 2)) as u8;
            assert_eq!(color, [v; 4]);
        }
    }
    assert_eq!(format!("{:?}", node), built);
    // Outside the square each level picks the child on the point's side,
    // which lands on the nearest edge cell.
    let (n, color) = node.sample_color(&mut c, 5, -7);
    node = n;
    assert_eq!(color, [3; 4]);
    let (n, color) = node.sample_color(&mut c, -100, 100);
    node = n;
    assert_eq!(color, [12; 4]);
    let (_, color) = node.sample_color(&mut c, 2, 2);
    assert_eq!(color, [15; 4]);
}

#[test]
fn origin_goes_to_the_plus_plus_child() {
    let mut c = ctx();
    let node: Node<u8, u8> = Node::new_from_square(&mut c, (0..16).collect());
    // (0, 0) is column 2, row 2 of a 4 by 4 grid.
    let (node, color) = node.sample_color(&mut c, 0, 0);
    assert_eq!(color, [10; 4]);
    let node2: Node<u8, u8> = Node::new_from_square(&mut c, vec![1, 2, 3, 4]);
    let (_, color) = node2.sample_color(&mut c, 0, 0);
    assert_eq!(color, [4; 4]);
    let (_, color) = node.sample_color(&mut c, 0, 0);
    assert_eq!(color, [10; 4]);
}

#[test]
fn expand_leaves_material_nodes_alone() {
    let mut c = ctx();
    let base: Node<u8, u8> = Node::new_base(&mut c, 7);
    let once = c.expand(base);
    let twice = c.expand(once);
    assert_eq!(twice.depth, 0);
    assert_eq!(twice.compr, 7);
    assert!(matches!(twice.data, Quad::Base(7)));

    let node: Node<u8, u8> = Node::new_from_square(&mut c, vec![4, 8, 12, 16]);
    let once = c.expand(node);
    let twice = c.expand(once);
    assert_eq!(twice.depth, 1);
    assert_eq!(twice.compr, 10);
    match &twice.data {
        Quad::Node(ch) => {
            assert!(matches!(ch[0].data, Quad::Base(4)));
            assert!(matches!(ch[3].data, Quad::Base(16)));
        },
        _ => panic!("expand keeps the children"),
    }
}

#[test]
fn expand_is_idempotent_after_one_call_on_cached() {
    let mut c = ctx();
    let cached: Node<u8, u8> = Node::new_cached(9, 3);
    let once = c.expand(cached);
    assert_eq!(once.depth, 3);
    assert_eq!(once.compr, 9);
    let twice = c.expand(once);
    assert_eq!(twice.depth, 3);
    assert_eq!(twice.compr, 9);
    match &twice.data {
        Quad::Node(ch) => {
            for k in 0..4 {
                assert_eq!(ch[k].depth, 2);
                assert_eq!(ch[k].compr, 9);
                assert!(matches!(ch[k].data, Quad::Cached));
            }
        },
        _ => panic!("a cached node of depth 3 expands to children"),
    }
}

#[test]
fn expand_cached_base() {
    let mut c = ctx();
    let cached: Node<u8, u8> = Node::new_cached(200, 0);
    let r = c.expand(cached);
    assert_eq!(r.depth, 0);
    assert_eq!(r.compr, 200);
    assert!(matches!(r.data, Quad::Base(200)));
}

#[test]
fn compress_by_variant() {
    let mut c = ctx();
    assert_eq!(c.compress(&Quad::Base(5)), Some(5));
    assert_eq!(c.compress(&Quad::<u8, u8>::Cached), None);
    let node: Node<u8, u8> = Node::new_from_square(&mut c, vec![40, 80, 120, 160]);
    assert_eq!(c.compress(&node.data), Some(((40 + 80 + 120 + 160) / 4) as u8));
}

#[test]
fn new_node_adds_one_to_depth() {
    let mut c = ctx();
    let a: Node<u8, u8> = Node::new_from_square(&mut c, vec![0, 4, 8, 12]);
    let b: Node<u8, u8> = Node::new_from_square(&mut c, vec![16, 20, 24, 28]);
    let d: Node<u8, u8> = Node::new_cached(3, 1);
    let e: Node<u8, u8> = Node::new_cached(5, 1);
    let n = Node::new_node(&mut c, [a, b, d, e]);
    assert_eq!(n.depth, 2);
    assert_eq!(n.compr, (6 + 22 + 3 + 5) / 4);
}

#[test]
fn reference_round_trips() {
    let mut c = ctx();
    for a in 0..=255u8 {
        let e = c.compress_base(a);
        assert_eq!(c.expand_base(e), a);
        // Averaging four copies gives the value back exactly.
        let copies = c.expand_node(a);
        assert_eq!(copies, [a; 4]);
        assert_eq!(c.compress_node(copies), a);
    }
    let e = c.compress_node([7, 7, 7, 7]);
    assert_eq!(e, 7);
    assert_eq!(c.expand_node(e), [7, 7, 7, 7]);
    // The average of unequal children decodes to four copies of it.
    let e = c.compress_node([1, 2, 3, 4]);
    assert_eq!(e, 2);
    assert_eq!(c.expand_node(e), [2, 2, 2, 2]);
    assert_eq!(c.compress_node([255, 255, 255, 254]), 254);
    assert_eq!(c.color_base(9), [9, 9, 9, 9]);
}

#[test]
fn compress_then_expand_keeps_uniform_colors() {
    let mut c = ctx();
    let mut node: Node<u8, u8> = Node::new_from_square(&mut c, vec![13; 16]);
    let e = c.compress(&node.data).unwrap();
    assert_eq!(e, 13);
    let mut cached: Node<u8, u8> = Node::new_cached(e, node.depth);
    for x in -2..2isize {
        for y in -2..2isize {
            let (n, before) = node.sample_color(&mut c, x, y);
            node = n;
            let (m, after) = cached.sample_color(&mut c, x, y);
            cached = m;
            assert_eq!(before, after);
            assert_eq!(after, [13; 4]);
        }
    }
}

#[test]
fn sampling_a_cached_tree_expands_the_path() {
    let mut c = ctx();
    let cached: Node<u8, u8> = Node::new_cached(6, 2);
    let (n, color) = cached.sample_color(&mut c, 1, -2);
    assert_eq!(color, [6; 4]);
    assert_eq!(n.depth, 2);
    assert_eq!(n.compr, 6);
    match &n.data {
        Quad::Node(ch) => {
            // (1, -2) lies in child 1; the others stay cached.
            assert!(matches!(ch[0].data, Quad::Cached));
            assert!(matches!(ch[1].data, Quad::Node(_)));
            assert!(matches!(ch[2].data, Quad::Cached));
            assert!(matches!(ch[3].data, Quad::Cached));
        },
        _ => panic!("the root is expanded"),
    }
}

#[test]
fn square_depth_values() {
    assert_eq!(square_depth(0), None);
    assert_eq!(square_depth(1), Some(0));
    assert_eq!(square_depth(2), None);
    assert_eq!(square_depth(4), Some(1));
    assert_eq!(square_depth(8), None);
    assert_eq!(square_depth(9), None);
    assert_eq!(square_depth(16), Some(2));
    assert_eq!(square_depth(64), Some(3));
    assert_eq!(square_depth(1 << 20), Some(10));
    assert_eq!(square_depth((1 << 20) + 1), None);
}

#[test]
fn pad_keeps_cells_and_fills_empty() {
    let mut c = ctx();
    let node: Node<u8, u8> = Node::new_from_square(&mut c, (1..17).collect());
    let before = format!("{:?}", node);
    let mut padded = node.pad_empty(&mut c);
    assert_eq!(padded.depth, 3);
    match &padded.data {
        Quad::Node(ch) => {
            assert_eq!(format!("{:?}", ch[3]), before);
            for k in 0..3 {
                assert_eq!(ch[k].depth, 2);
                assert_eq!(ch[k].compr, 0);
            }
        },
        _ => panic!("a padded tree holds children"),
    }
    for x in -4..4isize {
        for y in -4..4isize {
            let (n, color) = padded.sample_color(&mut c, x, y);
            padded = n;
            if x >= 0 && y >= 0 {
                // The old point (x - 2, y - 2), column x and row y of the old grid.
                let v = (y * 4 + x + 1) as u8;
                assert_eq!(color, [v; 4]);
            } else {
                assert_eq!(color, [0; 4]);
            }
        }
    }
}

#[test]
fn pad_a_single_cell() {
    let mut c = ctx();
    let node: Node<u8, u8> = Node::new_base(&mut c, 77);
    let padded = node.pad_empty(&mut c);
    assert_eq!(padded.depth, 1);
    assert_eq!(padded.compr, 77 / 4);
    let (padded, color) = padded.sample_color(&mut c, 0, 0);
    assert_eq!(color, [77; 4]);
    let (padded, color) = padded.sample_color(&mut c, -1, -1);
    assert_eq!(color, [0; 4]);
    let (_, color) = padded.sample_color(&mut c, -1, 0);
    assert_eq!(color, [0; 4]);
}

#[test]
fn sampling_a_material_tree_returns_it_unchanged() {
    let mut c = ctx();
    let mut node: Node<u8, u8> = Node::new_from_square(&mut c, (0..16).collect());
    let before = format!("{:?}", node);
    for x in -3..3isize {
        for y in -3..3isize {
            let (n, _) = node.sample_color(&mut c, x, y);
            node = n;
            assert_eq!(format!("{:?}", node), before);
        }
    }
    let base: Node<u8, u8> = Node::new_base(&mut c, 7);
    let (base, color) = base.sample_color(&mut c, 3, -5);
    assert_eq!(color, [7; 4]);
    assert_eq!(base.depth, 0);
    assert_eq!(base.compr, 7);
    assert!(matches!(base.data, Quad::Base(7)));
}

#[test]
fn sampling_expands_only_the_child_on_the_path() {
    let mut c = ctx();
    let cached: Node<u8, u8> = Node::new_cached(5, 1);
    let (n, color) = cached.sample_color(&mut c, -1, 0);
    assert_eq!(color, [5; 4]);
    match &n.data {
        Quad::Node(ch) => {
            assert!(matches!(ch[0].data, Quad::Cached));
            assert!(matches!(ch[1].data, Quad::Cached));
            assert!(matches!(ch[2].data, Quad::Base(5)));
            assert!(matches!(ch[3].data, Quad::Cached));
            for k in 0..4 {
                assert_eq!(ch[k].depth, 0);
                assert_eq!(ch[k].compr, 5);
            }
        },
        _ => panic!("the root is expanded"),
    }
}

#[test]
fn new_empty_is_a_default_cell() {
    let mut c = ctx();
    let n: Node<u8, u8> = Node::new_empty(&mut c);
    assert_eq!(n.depth, 0);
    assert_eq!(n.compr, 0);
    assert!(matches!(n.data, Quad::Base(0)));
}
