use engine_3l14::aabb_tree::{AabbBounds, AabbTree, Node, ValidationError};
use engine_3l14::node_index::NodeIndex;
use engine_3l14::grid_box::GridBox;

#[derive(Clone, Copy, Debug, PartialEq)]
struct Aabb {
    min: [f32; 3],
    max: [f32; 3],
}

impl Aabb {
    fn new(min: [f32; 3], max: [f32; 3]) -> Self {
        Aabb { min, max }
    }

    fn splat(min: f32, max: f32) -> Self {
        Aabb::new([min; 3], [max; 3])
    }

    fn empty() -> Self {
        Aabb::new([f32::MAX; 3], [f32::MIN; 3])
    }

    fn min_max() -> Self {
        Aabb::new([f32::MIN; 3], [f32::MAX; 3])
    }

    fn centroid(&self) -> [f32; 3] {
        [
            (self.min[0] + self.max[0]) * 0.5,
            (self.min[1] + self.max[1]) * 0.5,
            (self.min[2] + self.max[2]) * 0.5,
        ]
    }
}

impl AabbBounds for Aabb {
    type Cost = f32;

    // The values that the tree's contracts name: each is the method it stands for.
    fn spec_union(self, other: Self) -> Self {
        self.unioned_with(&other)
    }

    fn spec_area(self) -> f32 {
        self.surface_area()
    }

    fn spec_overlaps(self, other: Self) -> bool {
        self.overlaps(&other)
    }

    fn spec_same(self, other: Self) -> bool {
        self.same_bounds(&other)
    }

    fn spec_cost_add(a: f32, b: f32) -> f32 {
        Self::cost_add(a, b)
    }

    fn spec_cost_lt(a: f32, b: f32) -> bool {
        Self::cost_lt(a, b)
    }

    fn spec_cost_le(a: f32, b: f32) -> bool {
        Self::cost_le(a, b)
    }

    fn spec_holds(self, inner: Self) -> bool {
        (0..3).all(|i| self.min[i] <= inner.min[i] && self.max[i] >= inner.max[i])
    }

    // The laws a box type owes; these boxes keep them for every value without NaN.
    fn lemma_union_holds(_a: Self, _b: Self) {}

    fn lemma_holds_union(_outer: Self, _a: Self, _b: Self) {}

    fn lemma_holds_transitive(_a: Self, _b: Self, _c: Self) {}

    fn lemma_holds_overlaps(_outer: Self, _inner: Self, _q: Self) {}

    fn lemma_same_overlaps(_a: Self, _b: Self) {}

    fn lemma_same_reflexive(_a: Self) {}

    fn lemma_union_commutative(_a: Self, _b: Self) {}

    fn lemma_union_associative(_a: Self, _b: Self, _c: Self) {}

    fn spec_cost_zero() -> f32 {
        Self::cost_zero()
    }

    fn spec_cost_sub(a: f32, b: f32) -> f32 {
        Self::cost_sub(a, b)
    }

    fn lemma_cost_lt_transitive(_a: f32, _b: f32, _c: f32) {}

    fn spec_cost_max() -> f32 {
        Self::cost_max()
    }

    fn spec_cost_min(a: f32, b: f32) -> f32 {
        Self::cost_min(a, b)
    }

    fn spec_cost_eq(a: f32, b: f32) -> bool {
        Self::cost_eq(a, b)
    }

    fn spec_centroid_distance_squared(self, other: Self) -> f32 {
        self.centroid_distance_squared(&other)
    }

    fn unioned_with(&self, other: &Self) -> Self {
        Aabb::new(
            [self.min[0].min(other.min[0]), self.min[1].min(other.min[1]), self.min[2].min(other.min[2])],
            [self.max[0].max(other.max[0]), self.max[1].max(other.max[1]), self.max[2].max(other.max[2])],
        )
    }

    fn surface_area(&self) -> f32 {
        let d = [self.max[0] - self.min[0], self.max[1] - self.min[1], self.max[2] - self.min[2]];
        2.0 * (d[0] * d[1] + d[1] * d[2] + d[2] * d[0])
    }

    fn overlaps(&self, other: &Self) -> bool {
        (0..3).all(|i| self.min[i] <= other.max[i] && self.max[i] >= other.min[i])
    }

    fn same_bounds(&self, other: &Self) -> bool {
        self == other
    }

    fn centroid_distance_squared(&self, other: &Self) -> f32 {
        let a = self.centroid();
        let b = other.centroid();
        (0..3).map(|i| (a[i] - b[i]) * (a[i] - b[i])).sum()
    }

    fn cost_zero() -> f32 {
        0.0
    }

    fn cost_max() -> f32 {
        f32::MAX
    }

    fn cost_add(a: f32, b: f32) -> f32 {
        a + b
    }

    fn cost_sub(a: f32, b: f32) -> f32 {
        a - b
    }

    fn cost_min(a: f32, b: f32) -> f32 {
        f32::min(a, b)
    }

    fn cost_lt(a: f32, b: f32) -> bool {
        a < b
    }

    fn cost_le(a: f32, b: f32) -> bool {
        a <= b
    }

    fn cost_eq(a: f32, b: f32) -> bool {
        a == b
    }
}

#[test]
fn aabb_tree_basic() {
    let mut tree = AabbTree::new();

    let a = Aabb::splat(1.0, 2.0);
    tree.insert(a, 0);

    let b = Aabb::splat(10.0, 15.0);
    tree.insert(b, 1);

    let c = Aabb::splat(12.0, 13.0);
    tree.insert(c, 2);

    let d = Aabb::splat(3.0, 4.0);
    tree.insert(d, 3);

    let e = Aabb::splat(3.5, 3.8);
    tree.insert(e, 4);

    assert!(tree.contains(a));
    assert!(tree.contains(b));
    assert!(tree.contains(c));
    assert!(tree.contains(d));
    assert!(tree.contains(e));
    assert!(!tree.contains(Aabb::empty()));

    let test = Aabb::splat(3.0, 11.0);
    let overlapping = tree.iter_overlapping(test);
    assert_eq!(overlapping.len(), 3);

    assert_eq!(overlapping[0].0, d);
    assert_eq!(overlapping[0].1, 3);

    assert_eq!(overlapping[1].0, e);
    assert_eq!(overlapping[1].1, 4);

    assert_eq!(overlapping[2].0, b);
    assert_eq!(overlapping[2].1, 1);

    assert!(tree.validate(tree.root_index()).is_ok());
}

#[test]
fn remove() {
    let mut tree = AabbTree::new();

    let a = Aabb::splat(1.0, 2.0);
    tree.insert(a, 0);

    let b = Aabb::splat(10.0, 15.0);
    tree.insert(b, 1);

    let c = Aabb::splat(12.0, 13.0);
    tree.insert(c, 2);

    assert!(tree.remove(b));
    let overlapping = tree.iter_overlapping(Aabb::min_max());
    assert_eq!(overlapping.len(), 2);

    assert_eq!(overlapping[0].0, a);
    assert_eq!(overlapping[0].1, 0);

    assert_eq!(overlapping[1].0, c);
    assert_eq!(overlapping[1].1, 2);

    assert!(!tree.remove(b));
    let overlapping = tree.iter_overlapping(Aabb::min_max());
    assert_eq!(overlapping.len(), 2);

    assert_eq!(overlapping[0].0, a);
    assert_eq!(overlapping[0].1, 0);

    assert_eq!(overlapping[1].0, c);
    assert_eq!(overlapping[1].1, 2);

    assert!(tree.remove(a));
    let overlapping = tree.iter_overlapping(Aabb::min_max());
    assert_eq!(overlapping.len(), 1);

    assert_eq!(overlapping[0].0, c);
    assert_eq!(overlapping[0].1, 2);

    assert!(tree.remove(c));
    let overlapping = tree.iter_overlapping(Aabb::min_max());
    assert_eq!(overlapping.len(), 0);

    assert!(tree.validate(tree.root_index()).is_ok());
}

#[test]
fn aabb_tree_len_counts_leaves_and_internal_nodes() {
    let mut tree = AabbTree::new();
    assert_eq!(tree.len(), 0);
    tree.insert(Aabb::splat(0.0, 1.0), 7);
    assert_eq!(tree.len(), 1);
    tree.insert(Aabb::splat(5.0, 6.0), 8);
    assert_eq!(tree.len(), 3);
    tree.insert(Aabb::splat(9.0, 10.0), 9);
    assert_eq!(tree.len(), 5);
    assert!(tree.remove(Aabb::splat(5.0, 6.0)));
    assert_eq!(tree.len(), 3);
    assert!(tree.remove(Aabb::splat(0.0, 1.0)));
    assert_eq!(tree.len(), 1);
    assert!(tree.remove(Aabb::splat(9.0, 10.0)));
    assert_eq!(tree.len(), 0);
    assert!(tree.root_index().is_none());
}

#[test]
fn aabb_tree_empty_tree() {
    let mut tree: AabbTree<Aabb> = AabbTree::new();
    assert!(!tree.contains(Aabb::splat(0.0, 1.0)));
    assert!(!tree.remove(Aabb::splat(0.0, 1.0)));
    assert!(tree.iter_overlapping(Aabb::min_max()).is_empty());
    assert!(tree.validate(tree.root_index()).is_ok());
}

#[test]
fn aabb_tree_reuses_freed_nodes() {
    let mut tree = AabbTree::new();
    tree.insert(Aabb::splat(0.0, 1.0), 1);
    tree.insert(Aabb::splat(2.0, 3.0), 2);
    assert!(tree.remove(Aabb::splat(2.0, 3.0)));
    tree.insert(Aabb::splat(4.0, 5.0), 3);
    assert_eq!(tree.len(), 3);
    let all = tree.iter_overlapping(Aabb::min_max());
    assert_eq!(all.len(), 2);
    assert!(all.contains(&(Aabb::splat(0.0, 1.0), 1)));
    assert!(all.contains(&(Aabb::splat(4.0, 5.0), 3)));
}

#[test]
fn aabb_tree_query_skips_disjoint_boxes() {
    let mut tree = AabbTree::new();
    for i in 0..8u32 {
        let lo = (i * 10) as f32;
        tree.insert(Aabb::splat(lo, lo + 1.0), i);
    }
    let hits = tree.iter_overlapping(Aabb::splat(20.5, 40.5));
    let mut values: Vec<u32> = hits.iter().map(|h| h.1).collect();
    values.sort();
    assert_eq!(values, vec![2, 3, 4]);
    assert!(tree.iter_overlapping(Aabb::splat(100.0, 200.0)).is_empty());
}

#[test]
fn aabb_tree_structure_always_valid() {
    let mut tree = AabbTree::new();
    for i in 0..5u32 {
        tree.insert(Aabb::splat(i as f32, i as f32 + 0.5), i);
    }
    match tree.validate(tree.root_index()) {
        Ok(()) => {}
        Err((ValidationError::NodeHeightIsNotOneMoreThanChildren { .. }, _)) => {}
        Err((ValidationError::BoundsDontUnionChildren { .. }, _)) => {}
        Err(_) => panic!("a tree built by insertions has a valid structure"),
    }
}

#[test]
fn aabb_tree_repack_keeps_the_leaves() {
    let mut tree = AabbTree::new();
    for i in 0..10u32 {
        let lo = (i * 3) as f32;
        tree.insert(Aabb::splat(lo, lo + 1.0), i);
    }
    assert!(tree.remove(Aabb::splat(9.0, 10.0)));
    assert!(tree.remove(Aabb::splat(0.0, 1.0)));
    let before_len = tree.len();
    let mut before: Vec<u32> = tree.iter_overlapping(Aabb::min_max()).iter().map(|h| h.1).collect();
    before.sort();

    tree.repack();
    assert_eq!(tree.len(), before_len);
    assert_eq!(tree.root_index().0, 0);
    let mut after: Vec<u32> = tree.iter_overlapping(Aabb::min_max()).iter().map(|h| h.1).collect();
    after.sort();
    assert_eq!(before, after);
    assert!(tree.contains(Aabb::splat(6.0, 7.0)));

    // the tree keeps working after a repack
    tree.insert(Aabb::splat(100.0, 101.0), 99);
    assert!(tree.contains(Aabb::splat(100.0, 101.0)));
    assert_eq!(tree.len(), before_len + 2);
}

#[test]
fn aabb_tree_repack_of_empty_tree() {
    let mut tree: AabbTree<Aabb> = AabbTree::new();
    tree.repack();
    assert_eq!(tree.len(), 0);
    assert!(tree.root_index().is_none());
}

#[test]
fn aabb_tree_debug_rows_list_every_node_once() {
    let mut tree = AabbTree::new();
    assert!(tree.debug_rows().is_empty());
    tree.insert(Aabb::splat(1.0, 2.0), 0);
    tree.insert(Aabb::splat(10.0, 15.0), 1);
    tree.insert(Aabb::splat(12.0, 13.0), 2);
    let rows = tree.debug_rows();
    assert_eq!(rows.len() as u32, tree.len());
    assert_eq!(rows[0].depth, 0);
    assert_eq!(rows[0].side, '^');
    assert_eq!(rows[0].node as usize, tree.root_index().0);
    assert!(rows[0].user_data.is_none());
    let mut nodes: Vec<u32> = rows.iter().map(|r| r.node).collect();
    nodes.sort();
    nodes.dedup();
    assert_eq!(nodes.len(), rows.len());
    let mut values: Vec<u32> = rows.iter().filter_map(|r| r.user_data).collect();
    values.sort();
    assert_eq!(values, vec![0, 1, 2]);
    for r in &rows[1..] {
        assert!(r.depth >= 1);
        assert!(r.side == 'L' || r.side == 'R');
    }
}

fn node(bounds: Aabb, parent: NodeIndex, left: u32, right: u32, height: u16) -> Node<Aabb> {
    Node { bounds, parent_index: parent, left_or_nextfree: left, right_or_userdata: right, height }
}

#[test]
fn rotate() {
    let nodes = vec![
        node(Aabb::splat(0.0, 101.0), NodeIndex::none(), 1, 2, 2),
        node(Aabb::splat(0.0, 1.0), NodeIndex::some(0), 0, 0x1337, 0),
        node(Aabb::splat(2.0, 101.0), NodeIndex::some(0), 3, 4, 1),
        node(Aabb::splat(2.0, 3.0), NodeIndex::some(2), 0, 0x8008, 0),
        node(Aabb::splat(100.0, 101.0), NodeIndex::some(2), 0, 0xdeadbeef, 0),
    ];
    let mut tree = AabbTree::from_nodes(nodes, NodeIndex::some(0)).unwrap();
    assert_eq!(tree.len(), 5);

    assert!(tree.validate(tree.root_index()).is_ok());

    tree.rotate(0);

    assert_eq!(tree.node(0).left_or_nextfree, 4);
    assert_eq!(tree.node(0).right_or_userdata, 2);

    assert_eq!(tree.node(2).left_or_nextfree, 3);
    assert_eq!(tree.node(2).right_or_userdata, 1);
    assert_eq!(tree.node(2).parent_index, NodeIndex::some(0));
    assert_eq!(tree.node(2).bounds, Aabb::splat(0.0, 3.0));

    assert_eq!(tree.node(4).parent_index, NodeIndex::some(0));
    assert_eq!(tree.node(1).parent_index, NodeIndex::some(2));
    assert_eq!(tree.node(3).parent_index, NodeIndex::some(2));
    assert_eq!(tree.node(0).bounds, Aabb::splat(0.0, 101.0));

    assert!(tree.validate(tree.root_index()).is_ok());
}

fn validate_nodes(root_bounds: Aabb) -> Vec<Node<Aabb>> {
    vec![
        node(root_bounds, NodeIndex::none(), 1, 2, 1),
        node(Aabb::splat(0.0, 50.0), NodeIndex::some(0), 0, 0, 0),
        node(Aabb::splat(50.0, 100.0), NodeIndex::some(0), 0, 1, 0),
    ]
}

#[test]
fn validate() {
    let tree = AabbTree::from_nodes(validate_nodes(Aabb::splat(0.0, 100.0)), NodeIndex::some(0)).unwrap();
    assert_eq!(tree.len(), 3);
    assert!(tree.validate(tree.root_index()).is_ok());

    let test = AabbTree::from_nodes(validate_nodes(Aabb::splat(49.0, 51.0)), NodeIndex::some(0)).unwrap();
    assert!(matches!(
        test.validate(test.root_index()),
        Err((ValidationError::BoundsDontUnionChildren { .. }, 0))
    ));
}

#[test]
fn aabb_tree_from_nodes_rejects_broken_arenas() {
    // A root with a parent.
    let mut nodes = validate_nodes(Aabb::splat(0.0, 100.0));
    nodes[0].parent_index = NodeIndex::some(1);
    assert!(AabbTree::from_nodes(nodes, NodeIndex::some(0)).is_none());

    // A child that does not point back at its parent.
    let mut nodes = validate_nodes(Aabb::splat(0.0, 100.0));
    nodes[2].parent_index = NodeIndex::some(1);
    assert!(AabbTree::from_nodes(nodes, NodeIndex::some(0)).is_none());

    // The same child twice.
    let mut nodes = validate_nodes(Aabb::splat(0.0, 100.0));
    nodes[0].right_or_userdata = 1;
    assert!(AabbTree::from_nodes(nodes, NodeIndex::some(0)).is_none());

    // A child out of the arena.
    let mut nodes = validate_nodes(Aabb::splat(0.0, 100.0));
    nodes[0].left_or_nextfree = 7;
    assert!(AabbTree::from_nodes(nodes, NodeIndex::some(0)).is_none());

    // No root for a non-empty arena, and a root for an empty one.
    assert!(AabbTree::from_nodes(validate_nodes(Aabb::splat(0.0, 100.0)), NodeIndex::none()).is_none());
    assert!(AabbTree::<Aabb>::from_nodes(Vec::new(), NodeIndex::some(0)).is_none());
    assert_eq!(AabbTree::<Aabb>::from_nodes(Vec::new(), NodeIndex::none()).unwrap().len(), 0);

    // Two internal nodes that are each other's child, cut off from the root.
    let cycle = vec![
        node(Aabb::splat(0.0, 1.0), NodeIndex::none(), 0, 0, 0),
        node(Aabb::splat(0.0, 1.0), NodeIndex::some(2), 2, 3, 1),
        node(Aabb::splat(0.0, 1.0), NodeIndex::some(1), 1, 4, 1),
        node(Aabb::splat(0.0, 1.0), NodeIndex::some(1), 0, 0, 0),
        node(Aabb::splat(0.0, 1.0), NodeIndex::some(2), 0, 0, 0),
    ];
    assert!(AabbTree::from_nodes(cycle, NodeIndex::some(0)).is_none());
}

fn grid(lo: i16, hi: i16) -> GridBox {
    GridBox { min_x: lo, min_y: lo, min_z: lo, max_x: hi, max_y: hi, max_z: hi }
}

#[test]
fn grid_box_geometry() {
    let a = grid(0, 2);
    let b = grid(1, 5);
    assert_eq!(a.unioned_with(&b), grid(0, 5));
    assert_eq!(a.surface_area(), 24);
    assert!(a.overlaps(&b));
    assert!(!a.overlaps(&grid(3, 4)));
    assert!(a.same_bounds(&grid(0, 2)));
    assert!(!a.same_bounds(&b));
    assert_eq!(GridBox::cost_add(i64::MAX, 1), i64::MAX);
    assert_eq!(GridBox::cost_sub(i64::MIN, 1), i64::MIN);
    assert_eq!(a.centroid_distance_squared(&grid(2, 4)), 12);
}

#[test]
fn aabb_tree_with_grid_boxes() {
    let mut tree = AabbTree::new();
    tree.insert(grid(1, 2), 0);
    tree.insert(grid(10, 15), 1);
    tree.insert(grid(12, 13), 2);
    tree.insert(grid(3, 4), 3);
    assert!(tree.contains(grid(12, 13)));
    assert!(!tree.contains(grid(12, 14)));
    let mut found: Vec<u32> = tree.iter_overlapping(grid(3, 11)).into_iter().map(|(_, v)| v).collect();
    found.sort();
    assert_eq!(found, vec![1, 3]);
    assert!(tree.remove(grid(3, 4)));
    assert!(!tree.contains(grid(3, 4)));
    assert!(tree.validate(tree.root_index()).is_ok());
}
