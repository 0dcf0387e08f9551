//! A bounding-volume hierarchy of axis-aligned boxes that supports inserting and removing
//! leaves. Every leaf stores a 32-bit user value.
//!
//! The tree is generic over its boxes: every geometric quantity (unions, surface areas,
//! overlap tests, costs and their comparisons) comes from the `AabbBounds` impl of the box
//! type. The structure of the tree is kept sound whatever those answers are.
use vstd::prelude::*;
use crate::node_index::{NodeIndex, NODE_INDEX_NONE};

verus! {

/// The geometry of the boxes stored in an `AabbTree`, and the arithmetic of the costs used
/// to pick where boxes go.
///
/// A method that has a matching spec function is a function of its arguments: its result
/// is what that spec function of the impl gives for them. Besides, an impl owes the laws
/// below, which relate unions, holding and overlapping the way boxes do; the tree's search
/// is complete because of them. An impl inside Verus proves them (see `grid_box`); the
/// spec and proof functions are ordinary methods in compiled code, so an impl outside
/// Verus gives each spec function the body of the method it names and each law an empty
/// body, and owes the laws without proof.
pub trait AabbBounds: Sized + Copy {
    /// A surface area, or a sum of surface areas.
    type Cost: Copy;

    /// The smallest box that holds both boxes.
    spec fn spec_union(self, other: Self) -> Self;
    /// The surface area of the box.
    spec fn spec_area(self) -> Self::Cost;
    /// Whether the two boxes overlap.
    spec fn spec_overlaps(self, other: Self) -> bool;
    /// Whether the two boxes are the same box.
    spec fn spec_same(self, other: Self) -> bool;
    /// The sum of two costs.
    spec fn spec_cost_add(a: Self::Cost, b: Self::Cost) -> Self::Cost;
    /// Whether `a < b`.
    spec fn spec_cost_lt(a: Self::Cost, b: Self::Cost) -> bool;
    /// Whether `a <= b`.
    spec fn spec_cost_le(a: Self::Cost, b: Self::Cost) -> bool;
    /// Whether the box holds all of the box `inner`.
    spec fn spec_holds(self, inner: Self) -> bool;
    /// The cost zero.
    spec fn spec_cost_zero() -> Self::Cost;
    /// The difference of two costs.
    spec fn spec_cost_sub(a: Self::Cost, b: Self::Cost) -> Self::Cost;
    /// The largest cost.
    spec fn spec_cost_max() -> Self::Cost;
    /// The smaller of two costs.
    spec fn spec_cost_min(a: Self::Cost, b: Self::Cost) -> Self::Cost;
    /// Whether `a == b`.
    spec fn spec_cost_eq(a: Self::Cost, b: Self::Cost) -> bool;
    /// The squared distance between the centres of the two boxes.
    spec fn spec_centroid_distance_squared(self, other: Self) -> Self::Cost;

    /// Being cheaper is transitive.
    proof fn lemma_cost_lt_transitive(a: Self::Cost, b: Self::Cost, c: Self::Cost)
        requires
            Self::spec_cost_lt(a, b),
            Self::spec_cost_lt(b, c),
        ensures
            Self::spec_cost_lt(a, c);

    /// The union of two boxes holds each of them.
    proof fn lemma_union_holds(a: Self, b: Self)
        ensures
            a.spec_union(b).spec_holds(a),
            a.spec_union(b).spec_holds(b);
    /// A box that holds two boxes holds their union.
    proof fn lemma_holds_union(outer: Self, a: Self, b: Self)
        requires
            outer.spec_holds(a),
            outer.spec_holds(b),
        ensures
            outer.spec_holds(a.spec_union(b));
    /// Holding is transitive.
    proof fn lemma_holds_transitive(a: Self, b: Self, c: Self)
        requires
            a.spec_holds(b),
            b.spec_holds(c),
        ensures
            a.spec_holds(c);
    /// A box overlaps whatever a box it holds overlaps.
    proof fn lemma_holds_overlaps(outer: Self, inner: Self, q: Self)
        requires
            outer.spec_holds(inner),
            inner.spec_overlaps(q),
        ensures
            outer.spec_overlaps(q);
    /// The union does not depend on the order of the boxes.
    proof fn lemma_union_commutative(a: Self, b: Self)
        ensures
            a.spec_union(b) == b.spec_union(a);
    /// The union of three boxes does not depend on how they are grouped.
    proof fn lemma_union_associative(a: Self, b: Self, c: Self)
        ensures
            a.spec_union(b).spec_union(c) == a.spec_union(b.spec_union(c));
    /// Every box is the same as itself.
    proof fn lemma_same_reflexive(a: Self)
        ensures
            a.spec_same(a);
    /// A box that is the same as a box overlapping itself overlaps it too.
    proof fn lemma_same_overlaps(a: Self, b: Self)
        requires
            a.spec_same(b),
            b.spec_overlaps(b),
        ensures
            a.spec_overlaps(b);

    /// The smallest box that holds both boxes.
    fn unioned_with(&self, other: &Self) -> (r: Self)
        ensures
            r == self.spec_union(*other);
    /// The surface area of the box.
    fn surface_area(&self) -> (r: Self::Cost)
        ensures
            r == self.spec_area();
    /// Whether the two boxes overlap.
    fn overlaps(&self, other: &Self) -> (r: bool)
        ensures
            r == self.spec_overlaps(*other);
    /// Whether the two boxes are the same box.
    fn same_bounds(&self, other: &Self) -> (r: bool)
        ensures
            r == self.spec_same(*other);
    /// The squared distance between the centres of the two boxes.
    fn centroid_distance_squared(&self, other: &Self) -> (r: Self::Cost)
        ensures
            r == self.spec_centroid_distance_squared(*other);

    /// The cost zero.
    fn cost_zero() -> (r: Self::Cost)
        ensures
            r == Self::spec_cost_zero();
    /// The largest cost.
    fn cost_max() -> (r: Self::Cost)
        ensures
            r == Self::spec_cost_max();
    /// The sum of two costs.
    fn cost_add(a: Self::Cost, b: Self::Cost) -> (r: Self::Cost)
        ensures
            r == Self::spec_cost_add(a, b);
    /// The difference of two costs.
    fn cost_sub(a: Self::Cost, b: Self::Cost) -> (r: Self::Cost)
        ensures
            r == Self::spec_cost_sub(a, b);
    /// The smaller of two costs.
    fn cost_min(a: Self::Cost, b: Self::Cost) -> (r: Self::Cost)
        ensures
            r == Self::spec_cost_min(a, b);
    /// Whether `a < b`.
    fn cost_lt(a: Self::Cost, b: Self::Cost) -> (r: bool)
        ensures
            r == Self::spec_cost_lt(a, b);
    /// Whether `a <= b`.
    fn cost_le(a: Self::Cost, b: Self::Cost) -> (r: bool)
        ensures
            r == Self::spec_cost_le(a, b);
    /// Whether `a == b`.
    fn cost_eq(a: Self::Cost, b: Self::Cost) -> (r: bool)
        ensures
            r == Self::spec_cost_eq(a, b);
}

/// The sentinel that ends the free list.
pub const FREE_LIST_END: u32 = u32::MAX;

/// One node of the tree. A leaf has height 0 and keeps its user value in
/// `right_or_userdata`; an internal node keeps its children in `left_or_nextfree` and
/// `right_or_userdata`; a free node keeps the next free node in `left_or_nextfree`.
pub struct Node<B> {
    pub bounds: B,
    pub parent_index: NodeIndex,
    pub left_or_nextfree: u32,
    pub right_or_userdata: u32,
    pub height: u16,
}

impl<B: Copy> Node<B> {
    /// A copy of the node.
    pub fn copy(&self) -> (r: Self)
        ensures
            r == *self,
    {
        Node {
            bounds: self.bounds,
            parent_index: self.parent_index,
            left_or_nextfree: self.left_or_nextfree,
            right_or_userdata: self.right_or_userdata,
            height: self.height,
        }
    }

    /// Whether the node is a leaf.
    pub fn is_leaf(&self) -> (r: bool)
        ensures
            r == (self.height == 0),
    {
        self.height == 0
    }
}

/// The height of an internal node with children of heights `a` and `b` (saturating at the
/// largest height).
pub open spec fn parent_height(a: u16, b: u16) -> u16 {
    let m = if a >= b { a } else { b };
    if m == u16::MAX { u16::MAX } else { (m + 1) as u16 }
}

fn parent_height_exec(a: u16, b: u16) -> (r: u16)
    ensures
        r == parent_height(a, b),
        r >= 1,
{
    let m = if a >= b { a } else { b };
    if m == u16::MAX { u16::MAX } else { m + 1 }
}

/// A bounding-volume hierarchy of boxes `B`, with a 32-bit user value in each leaf.
pub struct AabbTree<B> {
    nodes: Vec<Node<B>>,
    nodes_free_head: NodeIndex,
    len: u32,
    root_index: NodeIndex,
    free_list: Ghost<Seq<u32>>,
    rank: Ghost<Seq<nat>>,
}

impl<B: Copy> AabbTree<B> {
    /// The nodes of the arena.
    pub closed spec fn spec_nodes(&self) -> Seq<Node<B>> {
        self.nodes@
    }

    /// The number of nodes in use.
    pub closed spec fn spec_len(&self) -> nat {
        self.len as nat
    }

    /// The root, or the sentinel when the tree is empty.
    pub closed spec fn spec_root(&self) -> NodeIndex {
        self.root_index
    }

    /// The free nodes, in the order they will be reused.
    pub closed spec fn spec_free(&self) -> Seq<u32> {
        self.free_list@
    }

    /// Whether node `i` is in use.
    pub closed spec fn is_live(&self, i: int) -> bool {
        0 <= i < self.nodes@.len() && !self.free_list@.contains(i as u32)
    }

    /// Whether node `i` is a leaf.
    pub closed spec fn is_leaf_at(&self, i: int) -> bool {
        self.nodes@[i].height == 0
    }

    /// The left child of node `i`.
    pub closed spec fn lc(&self, i: int) -> int {
        self.nodes@[i].left_or_nextfree as int
    }

    /// The right child of node `i`.
    pub closed spec fn rc(&self, i: int) -> int {
        self.nodes@[i].right_or_userdata as int
    }

    /// The parent of node `i`.
    pub closed spec fn par(&self, i: int) -> NodeIndex {
        self.nodes@[i].parent_index
    }

    /// The leaves: box and user value of every leaf, by node index.
    pub closed spec fn spec_leaves(&self) -> Map<int, (B, u32)> {
        Map::new(
            |i: int| self.is_live(i) && self.is_leaf_at(i),
            |i: int| (self.nodes@[i].bounds, self.nodes@[i].right_or_userdata),
        )
    }

    /// The arena is consistent: the free list chains the free nodes exactly once each, and
    /// the count of nodes in use matches.
    #[verifier::opaque]
    pub closed spec fn wf_arena(&self) -> bool {
        let free = self.free_list@;
        let n = self.nodes@.len();
        &&& n < FREE_LIST_END
        &&& self.rank@.len() == n
        &&& free.no_duplicates()
        &&& (forall|k: int| 0 <= k < free.len() ==> (#[trigger] free[k] as int) < n)
        &&& (forall|k: int| 0 <= k < free.len() ==> self.nodes@[#[trigger] free[k] as int].height == 0)
        &&& (forall|k: int| 0 <= k < free.len() - 1 ==> self.nodes@[#[trigger] free[k] as int].left_or_nextfree == free[k + 1])
        &&& (free.len() > 0 ==> self.nodes@[free.last() as int].left_or_nextfree == FREE_LIST_END)
        &&& (free.len() == 0 ==> self.nodes_free_head.0 == NODE_INDEX_NONE)
        &&& (free.len() > 0 ==> self.nodes_free_head.0 == free[0] as usize)
        &&& self.len as int == n - free.len()
    }

    /// The nodes in use form one binary tree: the root has no parent, every internal node
    /// has two distinct children in use that point back at it, and every other node in use
    /// is a child of an internal node. A ghost rank that strictly decreases from parent to
    /// child rules out cycles.
    #[verifier::opaque]
    pub closed spec fn wf_tree(&self) -> bool {
        let root = self.root_index.0 as int;
        &&& (self.root_index.0 == NODE_INDEX_NONE <==> self.len == 0)
        &&& (self.root_index.0 != NODE_INDEX_NONE ==> self.is_live(root) && self.par(root).0 == NODE_INDEX_NONE)
        &&& (forall|i: int| #[trigger] self.is_live(i) && !self.is_leaf_at(i) ==> {
            &&& self.is_live(self.lc(i))
            &&& self.is_live(self.rc(i))
            &&& self.lc(i) != self.rc(i)
            &&& self.par(self.lc(i)).0 == i
            &&& self.par(self.rc(i)).0 == i
            &&& self.rank@[self.lc(i)] < self.rank@[i]
            &&& self.rank@[self.rc(i)] < self.rank@[i]
        })
        &&& (forall|i: int| #[trigger] self.is_live(i) && i != root ==> {
            let p = self.par(i).0 as int;
            &&& self.par(i).0 != NODE_INDEX_NONE
            &&& self.is_live(p)
            &&& !self.is_leaf_at(p)
            &&& (self.lc(p) == i || self.rc(p) == i)
        })
    }

    /// The tree is consistent.
    pub closed spec fn wf(&self) -> bool {
        self.wf_arena() && self.wf_tree()
    }

    /// An empty tree.
    pub fn new() -> (r: Self)
        ensures
            r.wf(),
            r.spec_len() == 0,
            r.spec_leaves() == Map::<int, (B, u32)>::empty(),
    {
        let r = AabbTree {
            nodes: Vec::new(),
            nodes_free_head: NodeIndex::none(),
            len: 0,
            root_index: NodeIndex::none(),
            free_list: Ghost(Seq::empty()),
            rank: Ghost(Seq::empty()),
        };
        assert(r.spec_leaves() =~= Map::<int, (B, u32)>::empty());
        proof {
            reveal(AabbTree::wf_arena);
            reveal(AabbTree::wf_tree);
        }
        r
    }

    /// The number of nodes in use (leaves and internal nodes).
    pub fn len(&self) -> (r: u32)
        ensures
            r == self.spec_len(),
    {
        self.len
    }

    /// Takes a node from the free list, or appends one, and stores `node` in it.
    fn alloc_node(&mut self, node: Node<B>) -> (r: u32)
        requires
            old(self).wf_arena(),
            old(self).free_list@.len() > 0 || old(self).nodes@.len() + 1 < FREE_LIST_END,
        ensures
            final(self).wf_arena(),
            !old(self).is_live(r as int),
            final(self).is_live(r as int),
            (r as int) < final(self).nodes@.len(),
            final(self).nodes@ == (if old(self).free_list@.len() > 0 {
                old(self).nodes@.update(r as int, node)
            } else {
                old(self).nodes@.push(node)
            }),
            old(self).free_list@.len() > 0 ==> r == old(self).free_list@[0] && final(self).free_list@ == old(self).free_list@.drop_first(),
            old(self).free_list@.len() == 0 ==> r as int == old(self).nodes@.len() && final(self).free_list@ == old(self).free_list@,
            forall|j: int| final(self).is_live(j) <==> (old(self).is_live(j) || j == r as int),
            final(self).root_index == old(self).root_index,
            final(self).len == old(self).len + 1,
            final(self).rank@.len() == final(self).nodes@.len(),
            forall|j: int| 0 <= j < old(self).rank@.len() ==> final(self).rank@[j] == old(self).rank@[j],
    {
        proof {
            reveal(AabbTree::wf_arena);
        }
        let ghost free0 = self.free_list@;
        let ghost nodes0 = self.nodes@;
        if self.nodes_free_head.is_some() {
            let index = self.nodes_free_head.0 as u32;
            let next = self.nodes[index as usize].left_or_nextfree;
            self.nodes_free_head = if next == FREE_LIST_END { NodeIndex::none() } else { NodeIndex::some(next as usize) };
            self.nodes.set(index as usize, node);
            self.len = self.len + 1;
            proof {
                self.free_list@ = free0.drop_first();
                let free1 = self.free_list@;
                assert(free0[0] == index);
                if free1.len() > 0 {
                    assert(next == free0[1]);
                    assert(free1[0] == free0[1]);
                }
                if free1.len() == 0 {
                    assert(free0.len() == 1);
                    assert(free0.last() == index);
                }
                assert forall|k: int| 0 <= k < free1.len() - 1 implies self.nodes@[#[trigger] free1[k] as int].left_or_nextfree == free1[k + 1] by {
                    assert(free1[k] == free0[k + 1]);
                    assert(free0[k + 1] != free0[0]);
                }
                if free1.len() > 0 {
                    assert(free1.last() == free0.last());
                    assert(free0.last() != free0[0]);
                }
                assert forall|k: int| 0 <= k < free1.len() implies (#[trigger] free1[k] as int) < self.nodes@.len() by {
                    assert(free1[k] == free0[k + 1]);
                }
                assert forall|j: int| self.is_live(j) <==> (old(self).is_live(j) || j == index as int) by {
                    if 0 <= j < self.nodes@.len() {
                        if free0.contains(j as u32) && j != index as int {
                            let k = choose|k: int| 0 <= k < free0.len() && free0[k] == j as u32;
                            assert(k != 0);
                            assert(free1[k - 1] == j as u32);
                        }
                        if free1.contains(j as u32) {
                            let k = choose|k: int| 0 <= k < free1.len() && free1[k] == j as u32;
                            assert(free0[k + 1] == j as u32);
                            assert(free0[k + 1] != free0[0]);
                        }
                    }
                }
                assert(!free1.contains(index)) by {
                    if free1.contains(index) {
                        let k = choose|k: int| 0 <= k < free1.len() && free1[k] == index;
                        assert(free0[k + 1] == free0[0]);
                    }
                }
            }
            index
        } else {
            self.nodes.push(node);
            self.len = self.len + 1;
            let index = (self.nodes.len() - 1) as u32;
            proof {
                self.rank@ = self.rank@.push(0);
                assert(free0.len() == 0);
                assert forall|j: int| self.is_live(j) <==> (old(self).is_live(j) || j == index as int) by {}
            }
            index
        }
    }

    /// Puts node `i` at the head of the free list.
    fn free_node(&mut self, node_index: u32)
        requires
            old(self).wf_arena(),
            old(self).is_live(node_index as int),
        ensures
            final(self).wf_arena(),
            final(self).free_list@ == seq![node_index] + old(self).free_list@,
            final(self).nodes@.len() == old(self).nodes@.len(),
            final(self).nodes@[node_index as int].height == 0,
            final(self).nodes@[node_index as int].parent_index == old(self).nodes@[node_index as int].parent_index,
            final(self).nodes@[node_index as int].bounds == old(self).nodes@[node_index as int].bounds,
            final(self).nodes@ == freed_nodes(old(self).nodes@, old(self).free_list@, node_index),
            forall|j: int| 0 <= j < final(self).nodes@.len() && j != node_index as int ==> final(self).nodes@[j] == old(self).nodes@[j],
            forall|j: int| final(self).is_live(j) <==> (old(self).is_live(j) && j != node_index as int),
            final(self).root_index == old(self).root_index,
            final(self).len == old(self).len - 1,
            final(self).rank@ == old(self).rank@,
    {
        proof {
            reveal(AabbTree::wf_arena);
        }
        let ghost free0 = self.free_list@;
        let old_head = self.nodes_free_head;
        let mut node = self.nodes[node_index as usize].copy();
        node.height = 0;
        node.left_or_nextfree = if old_head.is_none() { FREE_LIST_END } else { old_head.0 as u32 };
        self.nodes.set(node_index as usize, node);
        self.nodes_free_head = NodeIndex::some(node_index as usize);
        proof {
            assert(self.len > 0) by {
                assert(!free0.contains(node_index));
                if self.len == 0 {
                    // every node is free, so the free list covers 0..n
                    assert(free0.len() == self.nodes@.len());
                    free0.unique_seq_to_set();
                    let s = free0.to_set();
                    let full = Set::new(|j: u32| (j as int) < self.nodes@.len());
                    assert(s.subset_of(full.remove(node_index)));
                    lemma_index_set_len(self.nodes@.len());
                    vstd::set_lib::lemma_len_subset(s, full.remove(node_index));
                }
            }
        }
        self.len = self.len - 1;
        proof {
            self.free_list@ = seq![node_index] + free0;
            let free1 = self.free_list@;
            assert(!free0.contains(node_index));
            assert forall|a: int, b: int| 0 <= a < b < free1.len() implies free1[a] != free1[b] by {
                if a == 0 {
                    assert(free1[b] == free0[b - 1]);
                } else {
                    assert(free1[a] == free0[a - 1] && free1[b] == free0[b - 1]);
                }
            }
            assert forall|k: int| 0 <= k < free1.len() - 1 implies self.nodes@[#[trigger] free1[k] as int].left_or_nextfree == free1[k + 1] by {
                if k > 0 {
                    assert(free1[k] == free0[k - 1]);
                    assert(free0[k - 1] != node_index);
                }
            }
            if free0.len() > 0 {
                assert(free1.last() == free0.last());
                assert(free0.last() != node_index);
            }
            assert forall|k: int| 0 <= k < free1.len() implies (#[trigger] free1[k] as int) < self.nodes@.len() by {
                if k > 0 {
                    assert(free1[k] == free0[k - 1]);
                }
            }
            assert forall|j: int| self.is_live(j) <==> (old(self).is_live(j) && j != node_index as int) by {
                if 0 <= j < self.nodes@.len() {
                    if free0.contains(j as u32) {
                        let k = choose|k: int| 0 <= k < free0.len() && free0[k] == j as u32;
                        assert(free1[k + 1] == j as u32);
                    }
                    if free1.contains(j as u32) && j != node_index as int {
                        let k = choose|k: int| 0 <= k < free1.len() && free1[k] == j as u32;
                        assert(k > 0);
                        assert(free0[k - 1] == j as u32);
                    }
                }
                if j == node_index as int {
                    assert(free1[0] == node_index);
                }
            }
        }
    }
}

impl<B: Copy> AabbTree<B> {
    fn node_copy(&self, i: u32) -> (r: Node<B>)
        requires
            (i as int) < self.nodes@.len(),
        ensures
            r == self.nodes@[i as int],
    {
        self.nodes[i as usize].copy()
    }

    fn set_parent(&mut self, i: u32, p: NodeIndex)
        requires
            (i as int) < old(self).nodes@.len(),
        ensures
            final(self).nodes@ == old(self).nodes@.update(i as int, Node { parent_index: p, ..old(self).nodes@[i as int] }),
            final(self).free_list == old(self).free_list,
            final(self).rank == old(self).rank,
            final(self).len == old(self).len,
            final(self).root_index == old(self).root_index,
            final(self).nodes_free_head == old(self).nodes_free_head,
    {
        let mut n = self.nodes[i as usize].copy();
        n.parent_index = p;
        self.nodes.set(i as usize, n);
    }

    fn set_child(&mut self, i: u32, left: bool, c: u32)
        requires
            (i as int) < old(self).nodes@.len(),
        ensures
            left ==> final(self).nodes@ == old(self).nodes@.update(i as int, Node { left_or_nextfree: c, ..old(self).nodes@[i as int] }),
            !left ==> final(self).nodes@ == old(self).nodes@.update(i as int, Node { right_or_userdata: c, ..old(self).nodes@[i as int] }),
            final(self).free_list == old(self).free_list,
            final(self).rank == old(self).rank,
            final(self).len == old(self).len,
            final(self).root_index == old(self).root_index,
            final(self).nodes_free_head == old(self).nodes_free_head,
    {
        let mut n = self.nodes[i as usize].copy();
        if left {
            n.left_or_nextfree = c;
        } else {
            n.right_or_userdata = c;
        }
        self.nodes.set(i as usize, n);
    }

    fn set_bounds_height(&mut self, i: u32, b: B, h: u16)
        requires
            (i as int) < old(self).nodes@.len(),
        ensures
            final(self).nodes@ == old(self).nodes@.update(i as int, Node { bounds: b, height: h, ..old(self).nodes@[i as int] }),
            final(self).free_list == old(self).free_list,
            final(self).rank == old(self).rank,
            final(self).len == old(self).len,
            final(self).root_index == old(self).root_index,
            final(self).nodes_free_head == old(self).nodes_free_head,
    {
        let mut n = self.nodes[i as usize].copy();
        n.bounds = b;
        n.height = h;
        self.nodes.set(i as usize, n);
    }

    /// The child of `i` on the left (`true`) or right (`false`) side.
    pub closed spec fn child(&self, i: int, left: bool) -> int {
        if left { self.lc(i) } else { self.rc(i) }
    }

    /// The rotation at `r`: the child `a` on side `s` of `r` moves under the other child `c`,
    /// taking the place of `c`'s child on side `t`, which moves up to side `s` of `r`.
    #[verifier::rlimit(50)]
    #[verifier::spinoff_prover]
    fn apply_rotation(&mut self, r: u32, s: bool, t: bool, new_bounds: B)
        requires
            old(self).wf(),
            old(self).is_live(r as int),
            !old(self).is_leaf_at(r as int),
            !old(self).is_leaf_at(old(self).child(r as int, !s)),
        ensures
            final(self).wf(),
            final(self).spec_leaves() == old(self).spec_leaves(),
            final(self).len == old(self).len,
            final(self).root_index == old(self).root_index,
            final(self).nodes@.len() == old(self).nodes@.len(),
            final(self).free_list == old(self).free_list,
            forall|j: int| 0 <= j < final(self).nodes@.len() && old(self).rank@[j] >= old(self).rank@[r as int]
                ==> (#[trigger] final(self).nodes@[j]).parent_index == old(self).nodes@[j].parent_index,
            forall|j: int| 0 <= j < final(self).nodes@.len() && old(self).rank@[j] >= old(self).rank@[r as int] ==> final(self).rank@[j] == 2 * (#[trigger] old(self).rank@[j]),
            forall|j: int| 0 <= j < final(self).nodes@.len() ==> (#[trigger] final(self).rank@[j] > final(self).rank@[r as int]) == (old(self).rank@[j] > old(self).rank@[r as int]),
            final(self).nodes@[r as int].height == old(self).nodes@[r as int].height,
            final(self).nodes@ == rotated_nodes(old(self).nodes@, r as int, s, t, new_bounds),
    {
        let ghost old_self = *self;
        let rn = self.node_copy(r);
        let a = if s { rn.left_or_nextfree } else { rn.right_or_userdata };
        let c = if s { rn.right_or_userdata } else { rn.left_or_nextfree };
        proof {
            lemma_internal_children(old_self, r as int);
        }
        let cn = self.node_copy(c);
        let g = if t { cn.left_or_nextfree } else { cn.right_or_userdata };
        let ghost h = if t { cn.right_or_userdata as int } else { cn.left_or_nextfree as int };
        proof {
            lemma_internal_children(old_self, c as int);
            assert(old_self.par(a as int).0 == r as usize);
            assert(old_self.par(g as int).0 == c as usize);
            assert(old_self.par(h).0 == c as usize);
            assert(a != c && g as int != h);
            assert(a != r && c != r && g != r && g != c);
            assert(a != g && a as int != h);
        }
        self.set_child(r, s, g);
        self.set_child(c, t, a);
        let cb = self.node_copy(c);
        self.set_bounds_height(c, new_bounds, cb.height);
        self.set_parent(a, NodeIndex::some(c as usize));
        self.set_parent(g, NodeIndex::some(r as usize));
        proof {
            let ra = old_self.rank@[a as int];
            let rh = old_self.rank@[h];
            let m: nat = if ra >= rh { ra } else { rh };
            self.rank@ = Seq::new(old_self.rank@.len(), |j: int| if j == c as int { 2 * m + 1 } else { 2 * old_self.rank@[j] });
            assert(self.child(r as int, s) == g as int);
            assert(self.child(r as int, !s) == c as int);
            assert(self.child(c as int, t) == a as int);
            assert(self.child(c as int, !t) == h);
            assert(self.nodes@[a as int].parent_index.0 == c as usize);
            assert(self.nodes@[g as int].parent_index.0 == r as usize);
            assert(self.nodes@[r as int].parent_index == old_self.nodes@[r as int].parent_index);
            assert(self.nodes@[c as int].parent_index == old_self.nodes@[c as int].parent_index);
            assert forall|j: int| 0 <= j < self.nodes@.len() && j != r as int && j != c as int implies (#[trigger] self.nodes@[j]).height == old_self.nodes@[j].height
                && self.nodes@[j].left_or_nextfree == old_self.nodes@[j].left_or_nextfree
                && self.nodes@[j].right_or_userdata == old_self.nodes@[j].right_or_userdata
                && self.nodes@[j].bounds == old_self.nodes@[j].bounds by {}
            assert forall|j: int| 0 <= j < self.nodes@.len() && j != a as int && j != g as int implies (#[trigger] self.nodes@[j]).parent_index == old_self.nodes@[j].parent_index by {}
            assert(self.rank@ =~= Seq::new(old_self.rank@.len(), |j: int| if j == c as int {
                2 * (if old_self.rank@[a as int] >= old_self.rank@[h] { old_self.rank@[a as int] } else { old_self.rank@[h] }) + 1
            } else {
                2 * old_self.rank@[j]
            }));
            assert(self.nodes@.len() == old_self.nodes@.len());
            assert(self.free_list == old_self.free_list);
            assert(self.nodes_free_head == old_self.nodes_free_head);
            assert(self.nodes@[r as int].height == old_self.nodes@[r as int].height);
            assert(self.nodes@[c as int].height == old_self.nodes@[c as int].height);
            assert(old_self.child(r as int, s) == a as int && old_self.child(r as int, !s) == c as int);
            assert(old_self.child(c as int, t) == g as int && old_self.child(c as int, !t) == h);
            assert(rotated(old_self, *self, r as int, a as int, c as int, g as int, h, s, t));
            lemma_rotation_frame(old_self, *self, r as int, a as int, c as int, g as int, h, s, t);
            lemma_rotation_arena(old_self, *self, r as int, a as int, c as int, g as int, h, s, t);
            lemma_rotation_internal(old_self, *self, r as int, a as int, c as int, g as int, h, s, t);
            lemma_rotation_parents(old_self, *self, r as int, a as int, c as int, g as int, h, s, t);
            assert(self.nodes@ =~= rotated_nodes(old_self.nodes@, r as int, s, t, new_bounds));
        }
    }
}

/// Node `n` with its child on the left (`true`) or right (`false`) side set to `c`.
pub open spec fn with_child<B>(n: Node<B>, left: bool, c: u32) -> Node<B> {
    if left {
        Node { left_or_nextfree: c, ..n }
    } else {
        Node { right_or_userdata: c, ..n }
    }
}

/// The nodes after the rotation at `r`: the child `a` on side `s` of `r` moves under the
/// other child `c`, in the place of `c`'s child `g` on side `t`, which moves up to side `s`
/// of `r`; `c` takes the box `new_bounds`, and `a` and `g` point at their new parents.
pub open spec fn rotated_nodes<B>(nodes: Seq<Node<B>>, r: int, s: bool, t: bool, new_bounds: B) -> Seq<Node<B>> {
    let rn = nodes[r];
    let a = if s { rn.left_or_nextfree } else { rn.right_or_userdata };
    let c = if s { rn.right_or_userdata } else { rn.left_or_nextfree };
    let g = if t { nodes[c as int].left_or_nextfree } else { nodes[c as int].right_or_userdata };
    let n1 = nodes.update(r, with_child(rn, s, g));
    let n2 = n1.update(c as int, Node { bounds: new_bounds, ..with_child(n1[c as int], t, a) });
    let n3 = n2.update(a as int, Node { parent_index: NodeIndex(c as usize), ..n2[a as int] });
    n3.update(g as int, Node { parent_index: NodeIndex(r as usize), ..n3[g as int] })
}

/// Keeps the move `m` of cost `cost` if it is cheaper than the best so far.
pub open spec fn consider_move<B: AabbBounds>(
    best: (B::Cost, Option<(bool, bool, B)>),
    m: Option<(bool, bool, B)>,
    cost: B::Cost,
) -> (B::Cost, Option<(bool, bool, B)>) {
    if B::spec_cost_lt(cost, best.0) { (cost, m) } else { best }
}

/// The best so far after considering the two moves that lift a child of the right child
/// `right` of `r` up beside the left child `left` (whose area is `left_area`).
pub open spec fn consider_lifting_right<B: AabbBounds>(
    nodes: Seq<Node<B>>,
    best: (B::Cost, Option<(bool, bool, B)>),
    left: Node<B>,
    right: Node<B>,
    left_area: B::Cost,
) -> (B::Cost, Option<(bool, bool, B)>) {
    let lift_left = left.bounds.spec_union(nodes[right.right_or_userdata as int].bounds);
    let lift_right = left.bounds.spec_union(nodes[right.left_or_nextfree as int].bounds);
    let b1 = consider_move(best, Some((true, true, lift_left)), B::spec_cost_add(left_area, lift_left.spec_area()));
    consider_move(b1, Some((true, false, lift_right)), B::spec_cost_add(left_area, lift_right.spec_area()))
}

/// The best so far after considering the two moves that lift a child of the left child
/// `left` of `r` up beside the right child `right` (whose area is `right_area`).
pub open spec fn consider_lifting_left<B: AabbBounds>(
    nodes: Seq<Node<B>>,
    best: (B::Cost, Option<(bool, bool, B)>),
    left: Node<B>,
    right: Node<B>,
    right_area: B::Cost,
) -> (B::Cost, Option<(bool, bool, B)>) {
    let lift_left = right.bounds.spec_union(nodes[left.right_or_userdata as int].bounds);
    let lift_right = right.bounds.spec_union(nodes[left.left_or_nextfree as int].bounds);
    let b1 = consider_move(best, Some((false, true, lift_left)), B::spec_cost_add(right_area, lift_left.spec_area()));
    consider_move(b1, Some((false, false, lift_right)), B::spec_cost_add(right_area, lift_right.spec_area()))
}

/// The rotation chosen at `r`, as `(s, t, new_bounds)` for `rotated_nodes`, or `None`. A
/// node of height under 2 is not rotated. Otherwise each move that swaps a child of `r`
/// with a grandchild on the other side is costed by the areas of `r`'s children after it;
/// the first cheapest of them is chosen when it is cheaper than the current areas.
pub open spec fn rotation_choice<B: AabbBounds>(nodes: Seq<Node<B>>, r: int) -> Option<(bool, bool, B)> {
    let rn = nodes[r];
    if rn.height < 2 {
        None
    } else {
        let left = nodes[rn.left_or_nextfree as int];
        let right = nodes[rn.right_or_userdata as int];
        let left_area = left.bounds.spec_area();
        let right_area = right.bounds.spec_area();
        let current = B::spec_cost_add(left_area, right_area);
        let start = (current, None::<(bool, bool, B)>);
        let best = if left.height == 0 && right.height == 0 {
            start
        } else if left.height == 0 {
            consider_lifting_right(nodes, start, left, right, left_area)
        } else if right.height == 0 {
            consider_lifting_left(nodes, start, left, right, right_area)
        } else {
            consider_lifting_left(nodes, consider_lifting_right(nodes, start, left, right, left_area), left, right, right_area)
        };
        if B::spec_cost_le(current, best.0) { None } else { best.1 }
    }
}

/// The nodes after `r` is rotated as `rotation_choice` picks.
pub open spec fn after_rotation<B: AabbBounds>(nodes: Seq<Node<B>>, r: int) -> Seq<Node<B>> {
    match rotation_choice(nodes, r) {
        None => nodes,
        Some(m) => rotated_nodes(nodes, r, m.0, m.1, m.2),
    }
}

/// The move that a rotation stands for.
spec fn rotation_move<B>(rotation: Rotation<B>) -> Option<(bool, bool, B)> {
    match rotation {
        Rotation::NoRotation => None,
        Rotation::Left_RightLeft(b) => Some((true, true, b)),
        Rotation::Left_RightRight(b) => Some((true, false, b)),
        Rotation::Right_LeftLeft(b) => Some((false, true, b)),
        Rotation::Right_LeftRight(b) => Some((false, false, b)),
    }
}

/// A rotation of a subtree root, with the new bounds of the node that takes in the demoted
/// child.
#[allow(non_camel_case_types)]
enum Rotation<B> {
    NoRotation,
    Left_RightLeft(B),
    Left_RightRight(B),
    Right_LeftLeft(B),
    Right_LeftRight(B),
}

/// Keeps `rotation` if it is cheaper than the best so far.
fn consider<B: AabbBounds>(best: (B::Cost, Rotation<B>), rotation: Rotation<B>, cost: B::Cost) -> (r: (B::Cost, Rotation<B>))
    ensures
        r == (if B::spec_cost_lt(cost, best.0) { (cost, rotation) } else { best }),
{
    if B::cost_lt(cost, best.0) {
        (cost, rotation)
    } else {
        best
    }
}

impl<B: AabbBounds> AabbTree<B> {
    /// Picks the node next to which a new leaf with bounds `incoming` costs the least (by
    /// the surface-area heuristic), descending from the root and pruning by lower bounds.
    fn pick_best_sibling(&self, incoming: B) -> (r: u32)
        requires
            self.wf(),
            self.root_index.0 != NODE_INDEX_NONE,
        ensures
            self.is_live(r as int),
            self.is_leaf_at(self.root_index.0 as int) ==> r as int == self.root_index.0 as int,
            r as int != self.root_index.0 as int ==> B::spec_cost_lt(
                pairing_cost(*self, incoming, r as int),
                grown_area(*self, incoming, self.root_index.0 as int),
            ),
            r == sibling_for(self.nodes@, self.root_index.0 as u32, incoming),
    {
        proof {
            reveal(AabbTree::wf_tree);
            reveal(AabbTree::wf_arena);
            lemma_arena_bound(*self);
        }
        let incoming_area = incoming.surface_area();

        let root_i = self.root_index.0 as u32;
        let root = self.node_copy(root_i);
        let mut curr_area = root.bounds.surface_area();
        let mut direct_cost = root.bounds.unioned_with(&incoming).surface_area();
        let mut inherited_cost = B::cost_zero();

        let mut best_sibling = root_i;
        let mut best_cost = direct_cost;

        let mut curr_index = root_i;
        let mut curr = root;
        let ghost root_cost = direct_cost;
        assert(inherited_cost == ancestors_growth(*self, incoming, root_i as int));
        let ghost total: nat = self.nodes@.len();
        let ghost mut steps: nat = 0;
        let ghost target = sibling_for(self.nodes@, root_i, incoming);
        proof {
            lemma_subtree_len(*self, root_i as int);
        }
        while !curr.is_leaf()
            invariant_except_break
                target == sibling_search(self.nodes@, incoming, SiblingSearch::<B> {
                    curr: curr_index, curr_area, direct: direct_cost, inherited: inherited_cost,
                    best: best_sibling, best_cost,
                }, (total - steps) as nat),
                steps + subtree(*self, curr_index as int).len() <= total,
                curr.height != 0 ==> curr_area == curr.bounds.spec_area(),
                direct_cost == grown_area(*self, incoming, curr_index as int),
                inherited_cost == ancestors_growth(*self, incoming, curr_index as int),
            invariant
                self.wf(),
                self.is_live(curr_index as int),
                self.is_live(best_sibling as int),
                curr == self.nodes@[curr_index as int],
                root_i as int == self.root_index.0 as int,
                root_cost == grown_area(*self, incoming, root_i as int),
                best_cost == root_cost || B::spec_cost_lt(best_cost, root_cost),
                best_sibling != root_i ==> B::spec_cost_lt(best_cost, root_cost)
                    && best_cost == pairing_cost(*self, incoming, best_sibling as int),
                self.is_leaf_at(root_i as int) ==> curr_index == root_i && best_sibling == root_i,
                total == self.nodes@.len(),
                steps <= total,
                incoming_area == incoming.spec_area(),
                target == sibling_for(self.nodes@, root_i, incoming),
            ensures
                best_sibling == target,
                self.is_live(best_sibling as int),
                best_sibling != root_i ==> B::spec_cost_lt(best_cost, root_cost)
                    && best_cost == pairing_cost(*self, incoming, best_sibling as int),
                self.is_leaf_at(root_i as int) ==> best_sibling == root_i,
            decreases self.rank@[curr_index as int],
        {
            proof {
                lemma_internal_children(*self, curr_index as int);
                lemma_subtree_len(*self, curr_index as int);
                lemma_subtree_split(*self, curr_index as int);
            }
            let ghost s0 = SiblingSearch::<B> {
                curr: curr_index, curr_area, direct: direct_cost, inherited: inherited_cost,
                best: best_sibling, best_cost,
            };
            let ghost step = sibling_search_step(self.nodes@, incoming, s0);
            let ghost before_best = best_cost;
            let cost = B::cost_add(direct_cost, inherited_cost);
            if B::cost_lt(cost, best_cost) {
                proof {
                    if best_cost != root_cost {
                        B::lemma_cost_lt_transitive(cost, best_cost, root_cost);
                    }
                }
                best_cost = cost;
                best_sibling = curr_index;
            }

            let ghost inherited_before = inherited_cost;
            inherited_cost = B::cost_add(inherited_cost, B::cost_sub(direct_cost, curr_area));
            proof {
                lemma_arena_bound(*self);
                let ci = curr_index as int;
                let lc = curr.left_or_nextfree as int;
                let rc = curr.right_or_userdata as int;
                assert(self.par(lc).0 == curr_index as usize);
                assert(self.par(rc).0 == curr_index as usize);
                lemma_growth_step(*self, incoming, lc);
                lemma_growth_step(*self, incoming, rc);

                assert(ancestors_growth(*self, incoming, lc) == B::spec_cost_add(
                    ancestors_growth(*self, incoming, ci),
                    B::spec_cost_sub(grown_area(*self, incoming, ci), self.nodes@[ci].bounds.spec_area()),
                ));
                assert(ancestors_growth(*self, incoming, rc) == B::spec_cost_add(
                    ancestors_growth(*self, incoming, ci),
                    B::spec_cost_sub(grown_area(*self, incoming, ci), self.nodes@[ci].bounds.spec_area()),
                ));
                assert(inherited_cost == ancestors_growth(*self, incoming, curr.left_or_nextfree as int));
                assert(inherited_cost == ancestors_growth(*self, incoming, curr.right_or_userdata as int));
            }

            let left = self.node_copy(curr.left_or_nextfree);
            let mut left_lower_bound = B::cost_max();
            let mut left_area = B::cost_zero();
            let left_direct_cost = left.bounds.unioned_with(&incoming).surface_area();
            if left.is_leaf() {
                let left_cost = B::cost_add(left_direct_cost, inherited_cost);
                if B::cost_lt(left_cost, best_cost) {
                    proof {
                        if best_cost != root_cost {
                            B::lemma_cost_lt_transitive(left_cost, best_cost, root_cost);
                        }
                    }
                    best_cost = left_cost;
                    best_sibling = curr.left_or_nextfree;
                }
            } else {
                left_area = left.bounds.surface_area();
                left_lower_bound = B::cost_add(
                    B::cost_add(inherited_cost, left_direct_cost),
                    B::cost_min(B::cost_zero(), B::cost_sub(incoming_area, left_area)),
                );
            }

            let right = self.node_copy(curr.right_or_userdata);
            let mut right_lower_bound = B::cost_max();
            let mut right_area = B::cost_zero();
            let right_direct_cost = right.bounds.unioned_with(&incoming).surface_area();
            if right.is_leaf() {
                let right_cost = B::cost_add(right_direct_cost, inherited_cost);
                if B::cost_lt(right_cost, best_cost) {
                    proof {
                        if best_cost != root_cost {
                            B::lemma_cost_lt_transitive(right_cost, best_cost, root_cost);
                        }
                    }
                    best_cost = right_cost;
                    best_sibling = curr.right_or_userdata;
                }
            } else {
                right_area = right.bounds.surface_area();
                right_lower_bound = B::cost_add(
                    B::cost_add(inherited_cost, right_direct_cost),
                    B::cost_min(B::cost_zero(), B::cost_sub(incoming_area, right_area)),
                );
            }

            proof {
                assert(best_sibling == step.1.best && best_cost == step.1.best_cost);
                assert(inherited_cost == step.1.inherited);
            }
            if (left.is_leaf() && right.is_leaf()) || (B::cost_le(best_cost, left_lower_bound) && B::cost_le(
                best_cost,
                right_lower_bound,
            )) {
                proof {
                    assert(step.0);
                }
                break;
            }

            if B::cost_eq(left_lower_bound, right_lower_bound) && !left.is_leaf() {
                // no clear winner, use the distance between the centres
                left_lower_bound = left.bounds.centroid_distance_squared(&incoming);
                right_lower_bound = right.bounds.centroid_distance_squared(&incoming);
            }

            if B::cost_lt(left_lower_bound, right_lower_bound) && !left.is_leaf() {
                curr_index = curr.left_or_nextfree;
                curr = left;
                curr_area = left_area;
                direct_cost = left_direct_cost;
            } else {
                curr_index = curr.right_or_userdata;
                curr = right;
                curr_area = right_area;
                direct_cost = right_direct_cost;
            }
            proof {
                assert(!step.0);
                assert(step.1 == SiblingSearch::<B> {
                    curr: curr_index, curr_area, direct: direct_cost, inherited: inherited_cost,
                    best: best_sibling, best_cost,
                });
                steps = steps + 1;
            }
        }
        best_sibling
    }
}

impl<B: AabbBounds> AabbTree<B> {
    /// Rotates the subtree at `rotate_root_index` if that lowers the summed surface area of
    /// its children (only when it has grandchildren).
    fn rotate_subtree(&mut self, rotate_root_index: u32)
        requires
            old(self).wf(),
            old(self).is_live(rotate_root_index as int),
        ensures
            final(self).wf(),
            final(self).spec_leaves() == old(self).spec_leaves(),
            final(self).len == old(self).len,
            final(self).root_index == old(self).root_index,
            final(self).nodes@.len() == old(self).nodes@.len(),
            final(self).free_list == old(self).free_list,
            forall|j: int| 0 <= j < final(self).nodes@.len() && old(self).rank@[j] >= old(self).rank@[rotate_root_index as int]
                ==> (#[trigger] final(self).nodes@[j]).parent_index == old(self).nodes@[j].parent_index,
            forall|j1: int, j2: int| 0 <= j1 < final(self).nodes@.len() && 0 <= j2 < final(self).nodes@.len()
                && old(self).rank@[j1] >= old(self).rank@[rotate_root_index as int]
                && old(self).rank@[j2] >= old(self).rank@[rotate_root_index as int]
                && old(self).rank@[j1] < old(self).rank@[j2] ==> #[trigger] final(self).rank@[j1] < #[trigger] final(self).rank@[j2],
            forall|j: int| 0 <= j < final(self).nodes@.len() ==> (#[trigger] final(self).rank@[j] > final(self).rank@[rotate_root_index as int]) == (old(self).rank@[j] > old(self).rank@[rotate_root_index as int]),
            final(self).nodes@[rotate_root_index as int].height == old(self).nodes@[rotate_root_index as int].height,
            final(self).nodes@ == after_rotation(old(self).nodes@, rotate_root_index as int),
    {
        let r = rotate_root_index;
        let rn = self.node_copy(r);
        if rn.height < 2 {
            // no grandchildren, no rotation
            return;
        }
        proof {
            lemma_internal_children(*self, r as int);
        }
        let left = self.node_copy(rn.left_or_nextfree);
        let right = self.node_copy(rn.right_or_userdata);

        let left_surface_area = left.bounds.surface_area();
        let right_surface_area = right.bounds.surface_area();
        let current_cost = B::cost_add(left_surface_area, right_surface_area);

        let mut best: (B::Cost, Rotation<B>) = (current_cost, Rotation::NoRotation);

        if left.is_leaf() && right.is_leaf() {
            // no rotation possible
        } else if left.is_leaf() {
            proof {
                lemma_internal_children(*self, rn.right_or_userdata as int);
            }
            let promote_right_left_bounds = left.bounds.unioned_with(&self.node_copy(right.right_or_userdata).bounds);
            let promote_right_right_bounds = left.bounds.unioned_with(&self.node_copy(right.left_or_nextfree).bounds);

            best = consider(best, Rotation::Left_RightLeft(promote_right_left_bounds), B::cost_add(left_surface_area, promote_right_left_bounds.surface_area()));
            best = consider(best, Rotation::Left_RightRight(promote_right_right_bounds), B::cost_add(left_surface_area, promote_right_right_bounds.surface_area()));
        } else if right.is_leaf() {
            proof {
                lemma_internal_children(*self, rn.left_or_nextfree as int);
            }
            let promote_left_left_bounds = right.bounds.unioned_with(&self.node_copy(left.right_or_userdata).bounds);
            let promote_left_right_bounds = right.bounds.unioned_with(&self.node_copy(left.left_or_nextfree).bounds);

            best = consider(best, Rotation::Right_LeftLeft(promote_left_left_bounds), B::cost_add(right_surface_area, promote_left_left_bounds.surface_area()));
            best = consider(best, Rotation::Right_LeftRight(promote_left_right_bounds), B::cost_add(right_surface_area, promote_left_right_bounds.surface_area()));
        } else {
            // neither is a leaf, so promote the smallest subtree
            proof {
                lemma_internal_children(*self, rn.right_or_userdata as int);
                lemma_internal_children(*self, rn.left_or_nextfree as int);
            }
            let promote_right_left_bounds = left.bounds.unioned_with(&self.node_copy(right.right_or_userdata).bounds);
            let promote_right_right_bounds = left.bounds.unioned_with(&self.node_copy(right.left_or_nextfree).bounds);
            let promote_left_left_bounds = right.bounds.unioned_with(&self.node_copy(left.right_or_userdata).bounds);
            let promote_left_right_bounds = right.bounds.unioned_with(&self.node_copy(left.left_or_nextfree).bounds);

            best = consider(best, Rotation::Left_RightLeft(promote_right_left_bounds), B::cost_add(left_surface_area, promote_right_left_bounds.surface_area()));
            best = consider(best, Rotation::Left_RightRight(promote_right_right_bounds), B::cost_add(left_surface_area, promote_right_right_bounds.surface_area()));
            best = consider(best, Rotation::Right_LeftLeft(promote_left_left_bounds), B::cost_add(right_surface_area, promote_left_left_bounds.surface_area()));
            best = consider(best, Rotation::Right_LeftRight(promote_left_right_bounds), B::cost_add(right_surface_area, promote_left_right_bounds.surface_area()));
        }

        if B::cost_le(current_cost, best.0) {
            return;
        }

        match best.1 {
            Rotation::NoRotation => {},
            Rotation::Left_RightLeft(new_right_bounds) => {
                self.apply_rotation(r, true, true, new_right_bounds);
            },
            Rotation::Left_RightRight(new_right_bounds) => {
                self.apply_rotation(r, true, false, new_right_bounds);
            },
            Rotation::Right_LeftLeft(new_left_bounds) => {
                self.apply_rotation(r, false, true, new_left_bounds);
            },
            Rotation::Right_LeftRight(new_left_bounds) => {
                self.apply_rotation(r, false, false, new_left_bounds);
            },
        }
    }
}

/// The nodes with internal node `i` refitted: its box is the union of its children's and
/// its height one more than the larger of theirs.
pub open spec fn refit_node<B: AabbBounds>(nodes: Seq<Node<B>>, i: int) -> Seq<Node<B>> {
    let n = nodes[i];
    let l = nodes[n.left_or_nextfree as int];
    let r = nodes[n.right_or_userdata as int];
    nodes.update(i, Node { bounds: l.bounds.spec_union(r.bounds), height: parent_height(l.height, r.height), ..n })
}

/// The nodes after the walk from `i` up to the root (for at most `fuel` nodes) that refits
/// each node and then, when `should_rotate` is set, rotates it.
pub open spec fn refit_path<B: AabbBounds>(nodes: Seq<Node<B>>, i: NodeIndex, should_rotate: bool, fuel: nat) -> Seq<Node<B>>
    decreases fuel,
{
    if i.0 == NODE_INDEX_NONE || fuel == 0 {
        nodes
    } else {
        let refit = refit_node(nodes, i.0 as int);
        let stepped = if should_rotate { after_rotation(refit, i.0 as int) } else { refit };
        refit_path(stepped, stepped[i.0 as int].parent_index, should_rotate, (fuel - 1) as nat)
    }
}

proof fn lemma_count_above_bound(rk: Seq<nat>, x: nat, k: int, w: int)
    requires
        0 <= w < k,
        rk[w] <= x,
    ensures
        count_above(rk, x, k) <= k - 1,
    decreases k,
{
    if k > 1 {
        if w < k - 1 {
            lemma_count_above_bound(rk, x, k - 1, w);
        } else {
            lemma_count_above_at_most(rk, x, k - 1);
        }
    } else {
        assert(count_above(rk, x, 0) == 0);
    }
}

proof fn lemma_count_above_at_most(rk: Seq<nat>, x: nat, k: int)
    ensures
        count_above(rk, x, k) <= if k < 0 { 0 } else { k },
    decreases k,
{
    if k > 0 {
        lemma_count_above_at_most(rk, x, k - 1);
    }
}

impl<B: AabbBounds> AabbTree<B> {
    /// Walks from `start` up to the root, recomputing the bounds and height of every node
    /// on the way from its children, and rotating each one when `should_rotate` is set.
    fn refit_parents(&mut self, start: NodeIndex, should_rotate: bool)
        requires
            old(self).wf(),
            start.0 == NODE_INDEX_NONE || (old(self).is_live(start.0 as int) && !old(self).is_leaf_at(start.0 as int)),
        ensures
            final(self).wf(),
            final(self).spec_leaves() == old(self).spec_leaves(),
            final(self).len == old(self).len,
            final(self).root_index == old(self).root_index,
            final(self).nodes@.len() == old(self).nodes@.len(),
            final(self).free_list == old(self).free_list,
            final(self).nodes@ == refit_path(old(self).nodes@, start, should_rotate, old(self).nodes@.len()),
            (if start.0 == NODE_INDEX_NONE { old(self).boxes_nested() } else { nested_but(*old(self), start.0 as int) })
                ==> final(self).boxes_nested(),
            should_rotate && (if start.0 == NODE_INDEX_NONE { old(self).boxes_tight() } else {
                tight_but(*old(self), start.0 as int, old(self).par(start.0 as int).0 as int) })
                ==> final(self).boxes_tight(),
    {
        let ghost tight_tracking = should_rotate && (if start.0 == NODE_INDEX_NONE { old(self).boxes_tight() } else {
            tight_but(*old(self), start.0 as int, old(self).par(start.0 as int).0 as int) });
        let ghost tracking = if start.0 == NODE_INDEX_NONE { old(self).boxes_nested() } else { nested_but(*old(self), start.0 as int) };
        let ghost total = self.nodes@.len();
        let ghost mut steps: nat = 0;
        let mut node_index = start;
        proof {
            if node_index.0 != NODE_INDEX_NONE {
                lemma_arena_bound(*self);
                lemma_count_above_bound(self.rank@, self.rank@[node_index.0 as int], total as int, node_index.0 as int);
            }
        }
        while node_index.is_some()
            invariant
                total == old(self).nodes@.len(),
                steps <= total,
                refit_path(old(self).nodes@, start, should_rotate, total) == refit_path(self.nodes@, node_index, should_rotate, (total - steps) as nat),
                node_index.0 != NODE_INDEX_NONE ==> steps + count_above(self.rank@, self.rank@[node_index.0 as int], total as int) + 1 <= total,
                self.wf(),
                self.spec_leaves() == old(self).spec_leaves(),
                self.len == old(self).len,
                self.root_index == old(self).root_index,
                self.nodes@.len() == old(self).nodes@.len(),
                self.free_list == old(self).free_list,
                node_index.0 == NODE_INDEX_NONE || (self.is_live(node_index.0 as int) && !self.is_leaf_at(node_index.0 as int)),
                tracking == (if start.0 == NODE_INDEX_NONE { old(self).boxes_nested() } else { nested_but(*old(self), start.0 as int) }),
                tracking && node_index.0 != NODE_INDEX_NONE ==> nested_but(*self, node_index.0 as int),
                tracking && node_index.0 == NODE_INDEX_NONE ==> self.boxes_nested(),
                tight_tracking == (should_rotate && (if start.0 == NODE_INDEX_NONE { old(self).boxes_tight() } else {
                    tight_but(*old(self), start.0 as int, old(self).par(start.0 as int).0 as int) })),
                tight_tracking && node_index.0 != NODE_INDEX_NONE ==> tight_but(*self, node_index.0 as int, self.par(node_index.0 as int).0 as int),
                tight_tracking && node_index.0 == NODE_INDEX_NONE ==> self.boxes_tight(),
            decreases (if node_index.0 == NODE_INDEX_NONE { 0 } else {
                count_above(self.rank@, self.rank@[node_index.0 as int], self.nodes@.len() as int) + 1
            }),
        {
            let i = node_index.0 as u32;
            proof {
                lemma_arena_bound(*self);
                lemma_internal_children(*self, i as int);
            }
            let node = self.node_copy(i);
            let left = self.node_copy(node.left_or_nextfree);
            let right = self.node_copy(node.right_or_userdata);
            let bounds = left.bounds.unioned_with(&right.bounds);
            let height = parent_height_exec(left.height, right.height);
            let ghost before = *self;
            self.set_bounds_height(i, bounds, height);
            proof {
                lemma_refit_frame(before, *self, i as int);
            }
            let ghost refit = *self;
            proof {
                if tracking {
                    B::lemma_union_holds(left.bounds, right.bounds);
                    assert(refit.holds_children(i as int));
                    assert forall|k: int| #[trigger] refit.is_live(k) && !refit.is_leaf_at(k) && k != i as int implies {
                        &&& refit.lc(k) != i as int ==> refit.nodes@[k].bounds.spec_holds(refit.nodes@[refit.lc(k)].bounds)
                        &&& refit.rc(k) != i as int ==> refit.nodes@[k].bounds.spec_holds(refit.nodes@[refit.rc(k)].bounds)
                    } by {
                        assert(refit.nodes@[k] == before.nodes@[k]);
                        assert(before.is_live(k) && !before.is_leaf_at(k));
                        assert(nested_but(before, i as int));
                        lemma_internal_children(before, k);
                        if refit.lc(k) != i as int {
                            assert(refit.nodes@[refit.lc(k)] == before.nodes@[before.lc(k)]);
                        }
                        if refit.rc(k) != i as int {
                            assert(refit.nodes@[refit.rc(k)] == before.nodes@[before.rc(k)]);
                        }
                    }
                    assert(nested_but(refit, i as int));
                }
            }
            proof {
                if tight_tracking {
                    let pi = before.par(i as int).0 as int;
                    assert(refit.tight_at(i as int));
                    assert forall|k: int| #[trigger] refit.is_live(k) && !refit.is_leaf_at(k) && k != pi implies refit.tight_at(k) by {
                        if k != i as int {
                            assert(refit.nodes@[k] == before.nodes@[k]);
                            assert(before.is_live(k) && !before.is_leaf_at(k));
                            lemma_internal_children(before, k);
                            assert(refit.lc(k) != i as int && refit.rc(k) != i as int) by {
                                if refit.lc(k) == i as int || refit.rc(k) == i as int {
                                    assert(before.par(i as int).0 == k);
                                }
                            }
                            assert(refit.nodes@[refit.lc(k)] == before.nodes@[before.lc(k)]);
                            assert(refit.nodes@[refit.rc(k)] == before.nodes@[before.rc(k)]);
                        }
                    }
                }
            }
            if should_rotate {
                self.rotate_subtree(i);
                proof {
                    if tracking {
                        lemma_rotation_nested(refit, *self, i as int);
                    }
                    if tight_tracking {
                        let pi = before.par(i as int).0 as int;
                        lemma_internal_children(refit, i as int);
                        lemma_arena_bound(refit);
                        if refit.par(i as int).0 != NODE_INDEX_NONE {
                            assert(i as int != refit.root_index.0 as int) by {
                                reveal(AabbTree::wf_tree);
                            }
                            lemma_parent_of(refit, i as int);
                            lemma_internal_children(refit, pi);
                        }
                        assert(refit.lc(i as int) != pi && refit.rc(i as int) != pi);
                        lemma_rotation_tight(refit, *self, i as int);
                        let cur = *self;
                        assert forall|k: int| #[trigger] cur.is_live(k) && !cur.is_leaf_at(k) && k != pi implies cur.tight_at(k) by {
                            assert(refit.is_live(k) && !refit.is_leaf_at(k));
                            if k != i as int && k != refit.lc(i as int) && k != refit.rc(i as int) {
                                assert(refit.tight_at(k));
                            }
                        }
                    }
                }
            }
            let ghost count_before = count_above(refit.rank@, refit.rank@[i as int], refit.nodes@.len() as int);
            proof {
                assert(refit.nodes@ =~= refit_node(before.nodes@, i as int));
            }
            proof {
                lemma_count_above_same(refit.rank@, refit.rank@[i as int], self.rank@, self.rank@[i as int], self.nodes@.len() as int);
                assert(count_above(self.rank@, self.rank@[i as int], self.nodes@.len() as int) == count_before);
            }
            node_index = self.nodes[i as usize].parent_index;
            proof {
                if tight_tracking {
                    let cur = *self;
                    assert(node_index.0 as int == before.par(i as int).0 as int);
                    if node_index.0 == NODE_INDEX_NONE {
                        lemma_arena_bound(cur);
                        assert forall|k: int| #[trigger] cur.is_live(k) && !cur.is_leaf_at(k) implies cur.tight_at(k) by {
                            assert(k != node_index.0 as int);
                        }
                    }
                }
            }
            proof {
                if tracking {
                    let cur = *self;
                    assert(nested_but(cur, i as int) && cur.holds_children(i as int));
                    assert forall|k: int| #[trigger] cur.is_live(k) && !cur.is_leaf_at(k) && k != node_index.0 as int implies {
                        &&& cur.lc(k) != node_index.0 as int ==> cur.nodes@[k].bounds.spec_holds(cur.nodes@[cur.lc(k)].bounds)
                        &&& cur.rc(k) != node_index.0 as int ==> cur.nodes@[k].bounds.spec_holds(cur.nodes@[cur.rc(k)].bounds)
                    } by {
                        if k != i as int {
                            lemma_internal_children(cur, k);
                        }
                    }
                    if node_index.0 == NODE_INDEX_NONE {
                        assert forall|k: int| #[trigger] cur.is_live(k) && !cur.is_leaf_at(k) implies cur.holds_children(k) by {
                            if k != i as int {
                                lemma_internal_children(cur, k);
                            }
                        }
                    }
                }
            }
            proof {
                assert(node_index == refit.nodes@[i as int].parent_index);
                if node_index.0 != NODE_INDEX_NONE {
                    reveal(AabbTree::wf_tree);
                    assert(i as int != self.root_index.0 as int);
                    lemma_parent_of(*self, i as int);
                    let p = node_index.0 as int;
                    lemma_internal_children(*self, p);
                    assert(self.rank@[i as int] < self.rank@[p]);
                    lemma_count_above_less(self.rank@, self.rank@[i as int], self.rank@[p], self.nodes@.len() as int, p);
                }
                steps = steps + 1;
            }
        }
    }
}

impl<B: AabbBounds> AabbTree<B> {
    /// Inserts a leaf with box `bounds` and user value `value`. The new leaf is paired with
    /// the node picked by the surface-area heuristic under a new internal node, and the
    /// path to the root is refitted and rotated.
    #[verifier::rlimit(80)]
    #[verifier::spinoff_prover]
    pub fn insert(&mut self, bounds: B, value: u32)
        requires
            old(self).wf(),
            old(self).spec_len() + 2 < FREE_LIST_END,
        ensures
            final(self).wf(),
            exists|k: int| !old(self).spec_leaves().contains_key(k)
                && #[trigger] final(self).spec_leaves() == old(self).spec_leaves().insert(k, (bounds, value)),
            final(self).spec_len() == old(self).spec_len() + if old(self).spec_len() == 0 { 1nat } else { 2nat },
            old(self).boxes_nested() ==> final(self).boxes_nested(),
            final(self).spec_nodes() == inserted_nodes(old(self).spec_nodes(), old(self).spec_free(), old(self).spec_root(), bounds, value),
            final(self).spec_root() == inserted_root(old(self).spec_nodes(), old(self).spec_free(), old(self).spec_root(), bounds, value),
            old(self).boxes_tight() ==> final(self).boxes_tight(),
    {
        let ghost o = *self;
        let ghost leaf_node = Node { bounds, parent_index: NodeIndex(NODE_INDEX_NONE), left_or_nextfree: 0, right_or_userdata: value, height: 0 };
        proof {
            lemma_arena_bound(o);
        }
        if self.root_index.is_none() {
            let leaf = self.alloc_node(Node {
                bounds,
                parent_index: NodeIndex::none(),
                left_or_nextfree: 0,
                right_or_userdata: value,
                height: 0,
            });
            proof {
                lemma_arena_bound(*self);
            }
            let ghost before_root = *self;
            self.root_index = NodeIndex::some(leaf as usize);
            proof {
                lemma_arena_frame(before_root, *self);
                assert(o.len == 0) by {
                    reveal(AabbTree::wf_tree);
                }
                lemma_no_live(o);
                lemma_single_leaf(o, *self, leaf as int, bounds, value);
                assert forall|j: int| self.is_live(j) implies j == leaf as int by {
                    assert(!o.is_live(j));
                }
                lemma_one_leaf_nested(*self, leaf as int);
                assert(self.nodes@ == place_node(o.nodes@, o.free_list@, leaf_node).0);
                assert forall|k: int| #[trigger] self.is_live(k) && !self.is_leaf_at(k) implies self.tight_at(k) by {
                    assert(k == leaf as int);
                }
            }
            return;
        }
        proof {
            assert(o.len != 0) by {
                reveal(AabbTree::wf_tree);
            }
        }
        let sibling_index = self.pick_best_sibling(bounds);
        let sibling = self.node_copy(sibling_index);
        let leaf = self.alloc_node(Node {
            bounds,
            parent_index: NodeIndex::none(),
            left_or_nextfree: 0,
            right_or_userdata: value,
            height: 0,
        });
        let old_parent_index = sibling.parent_index;
        proof {
            lemma_arena_bound(*self);
        }
        let new_parent = self.alloc_node(Node {
            bounds: bounds.unioned_with(&sibling.bounds),
            parent_index: old_parent_index,
            left_or_nextfree: sibling_index,
            right_or_userdata: leaf,
            height: parent_height_exec(sibling.height, 0),
        });
        let ghost m = *self;
        let ghost parent_node = Node {
            bounds: bounds.spec_union(sibling.bounds),
            parent_index: sibling.parent_index,
            left_or_nextfree: sibling_index,
            right_or_userdata: leaf,
            height: parent_height(sibling.height, 0),
        };
        proof {
            assert(sibling_index == sibling_for(o.nodes@, o.root_index.0 as u32, bounds));
            let (n1, f1, l1) = place_node(o.nodes@, o.free_list@, leaf_node);
            assert(l1 == leaf);
            let (n2, f2, p2) = place_node(n1, f1, parent_node);
            assert(p2 == new_parent);
            assert(n2 == m.nodes@);
        }
        proof {
            lemma_arena_bound(*self);
        }
        if old_parent_index.is_some() {
            proof {
                assert(sibling_index as int != o.root_index.0 as int) by {
                    reveal(AabbTree::wf_tree);
                }
                lemma_parent_of(o, sibling_index as int);
                lemma_internal_children(o, old_parent_index.0 as int);
            }
            let op = old_parent_index.0 as u32;
            let opn = self.node_copy(op);
            self.set_child(op, opn.left_or_nextfree == sibling_index, new_parent);
        } else {
            self.root_index = NodeIndex::some(new_parent as usize);
        }
        self.set_parent(sibling_index, NodeIndex::some(new_parent as usize));
        self.set_parent(leaf, NodeIndex::some(new_parent as usize));
        proof {
            let s = sibling_index as int;
            let l = leaf as int;
            let np = new_parent as int;
            self.rank@ = Seq::new(self.nodes@.len(), |j: int| if j == l { 0 } else if j == np { 2 * o.rank@[s] + 1 } else { 2 * o.rank@[j] });
            assert(linked_in(o, *self, s, l, np, bounds, value)) by {
                if o.par(s).0 == NODE_INDEX_NONE {
                    lemma_root_has_no_parent(o, s);
                }
                assert forall|j: int| 0 <= j < o.nodes@.len() && j != l && j != np && j != s && j != o.par(s).0 as int
                    implies #[trigger] self.nodes@[j] == o.nodes@[j] by {
                    assert(m.nodes@[j] == o.nodes@[j]);
                }
            }
            assert forall|j: int| 0 <= j < m.nodes@.len() && !m.is_live(j) implies self.nodes@[j] == m.nodes@[j] by {}
            lemma_arena_frame(m, *self);
            lemma_linked_frame(o, *self, s, l, np, bounds, value);
            lemma_linked_internal(o, *self, s, l, np, bounds, value);
            lemma_linked_parents(o, *self, s, l, np, bounds, value);
            if o.boxes_nested() {
                lemma_linked_nested(o, *self, s, l, np, bounds, value);
            }
            if o.boxes_tight() {
                lemma_linked_tight(o, *self, s, l, np, bounds, value);
            }
        }
        let ghost linked = self.nodes@;
        self.refit_parents(NodeIndex::some(new_parent as usize), true);
        proof {
            lemma_inserted_nodes_unfold(o.nodes@, o.free_list@, o.root_index, bounds, value, sibling_index, leaf, new_parent, linked);
        }
    }
}

impl<B: AabbBounds> AabbTree<B> {
    /// Searches the subtree at `i`, left before right, for a leaf whose box is the same as
    /// `bounds`, skipping every subtree whose box does not overlap `bounds`.
    fn index_of_from(&self, i: u32, bounds: &B) -> (r: NodeIndex)
        requires
            self.wf(),
            self.is_live(i as int),
        ensures
            r.0 == NODE_INDEX_NONE || (self.is_live(r.0 as int) && self.is_leaf_at(r.0 as int)),
            match find_in(self.nodes@, i as int, *bounds, subtree(*self, i as int).len()) {
                Some(k) => r.0 == k,
                None => r.0 == NODE_INDEX_NONE,
            },
        decreases self.rank@[i as int],
    {
        proof {
            lemma_subtree_len(*self, i as int);
            lemma_arena_bound(*self);
        }
        let node = &self.nodes[i as usize];
        if !node.bounds.overlaps(bounds) {
            return NodeIndex::none();
        }
        if node.is_leaf() {
            if node.bounds.same_bounds(bounds) {
                return NodeIndex::some(i as usize);
            }
            return NodeIndex::none();
        }
        proof {
            lemma_internal_children(*self, i as int);
            lemma_subtree_split(*self, i as int);
            let f = (subtree(*self, i as int).len() - 1) as nat;
            lemma_find_fuel(*self, node.left_or_nextfree as int, *bounds, f);
            lemma_find_fuel(*self, node.right_or_userdata as int, *bounds, f);
        }
        let found = self.index_of_from(node.left_or_nextfree, bounds);
        if found.is_some() {
            return found;
        }
        self.index_of_from(node.right_or_userdata, bounds)
    }

    /// The node of the first leaf, in depth-first order, whose box is the same as `bounds`,
    /// or none.
    fn index_of(&self, bounds: &B) -> (r: NodeIndex)
        requires
            self.wf(),
        ensures
            r.0 == NODE_INDEX_NONE || (self.is_live(r.0 as int) && self.is_leaf_at(r.0 as int)),
            match self.spec_find(*bounds) {
                Some(k) => r.0 == k,
                None => r.0 == NODE_INDEX_NONE,
            },
            self.spec_find(*bounds) matches Some(k) ==> self.is_live(k) && self.is_leaf_at(k) && k < self.nodes@.len(),
    {
        if self.root_index.is_none() {
            return NodeIndex::none();
        }
        proof {
            reveal(AabbTree::wf_tree);
            lemma_arena_bound(*self);
            lemma_subtree_len(*self, self.root_index.0 as int);
            lemma_find_fuel(*self, self.root_index.0 as int, *bounds, self.nodes@.len());
        }
        self.index_of_from(self.root_index.0 as u32, bounds)
    }

    /// Whether the tree holds a leaf whose box is the same as `bounds` (as far as the
    /// search, which skips subtrees whose box does not overlap `bounds`, finds one).
    pub fn contains(&self, bounds: B) -> (r: bool)
        requires
            self.wf(),
        ensures
            r == self.spec_find(bounds) is Some,
            r ==> self.spec_len() > 0,
            r ==> self.has_leaf_same(bounds),
            self.boxes_nested() && bounds.spec_overlaps(bounds) ==> (r <==> self.has_leaf_same(bounds)),
    {
        proof {
            lemma_spec_find(*self, bounds);
        }
        proof {
            lemma_arena_bound(*self);
        }
        let found = self.index_of(&bounds);
        proof {
            if found.0 != NODE_INDEX_NONE {
                reveal(AabbTree::wf_tree);
                lemma_arena_bound(*self);
                lemma_live_counts(*self, found.0 as int);
            }
        }
        found.is_some()
    }

    /// Removes the first leaf, in depth-first order, whose box is the same as `bounds`.
    /// Its parent is replaced by its sibling and the path above is refitted. Returns
    /// whether a leaf was removed.
    pub fn remove(&mut self, bounds: B) -> (r: bool)
        requires
            old(self).wf(),
        ensures
            final(self).wf(),
            !r ==> *final(self) == *old(self),
            r ==> exists|k: int| #[trigger] old(self).spec_leaves().contains_key(k)
                && final(self).spec_leaves() == old(self).spec_leaves().remove(k),
            r ==> final(self).spec_len() == old(self).spec_len() - if old(self).spec_len() == 1 { 1int } else { 2int },
            r == old(self).spec_find(bounds) is Some,
            r ==> old(self).spec_leaves().contains_key(old(self).spec_find(bounds)->0)
                && final(self).spec_leaves() == old(self).spec_leaves().remove(old(self).spec_find(bounds)->0)
                && old(self).spec_leaves()[old(self).spec_find(bounds)->0].0.spec_same(bounds),
            old(self).boxes_nested() && bounds.spec_overlaps(bounds) ==> (r <==> old(self).has_leaf_same(bounds)),
            old(self).boxes_nested() ==> final(self).boxes_nested(),
            old(self).boxes_tight() ==> final(self).boxes_tight(),
            final(self).spec_nodes() == removed_nodes(old(self).spec_nodes(), old(self).spec_free(), old(self).spec_root(), bounds),
    {
        proof {
            lemma_spec_find(*self, bounds);
        }
        proof {
            lemma_arena_bound(*self);
        }
        let leaf_index = self.index_of(&bounds);
        if leaf_index.is_none() {
            return false;
        }
        let ghost o = *self;
        proof {
            lemma_arena_bound(o);
        }
        let l = leaf_index.0 as u32;
        if leaf_index.0 == self.root_index.0 {
            proof {
                lemma_root_leaf_alone(o);
            }
            self.free_node(l);
            let ghost freed = *self;
            self.root_index = NodeIndex::none();
            proof {
                lemma_arena_bound(freed);
                lemma_arena_frame(freed, *self);
                lemma_emptied(o, *self, l as int);
                assert forall|k: int| #[trigger] self.is_live(k) && !self.is_leaf_at(k) implies self.holds_children(k) by {
                    assert(o.is_live(k) && k != l as int);
                }
                assert forall|k: int| #[trigger] self.is_live(k) && !self.is_leaf_at(k) implies self.tight_at(k) by {
                    assert(o.is_live(k) && k != l as int);
                }
            }
            return true;
        }
        proof {
            lemma_parent_of(o, l as int);
        }
        let leaf = self.node_copy(l);
        let p = leaf.parent_index.0 as u32;
        let parent = self.node_copy(p);
        let gparent_index = parent.parent_index;
        let sibling_index = if parent.left_or_nextfree == l { parent.right_or_userdata } else { parent.left_or_nextfree };
        proof {
            lemma_internal_children(o, p as int);
        }
        if gparent_index.is_some() {
            proof {
                assert(p as int != o.root_index.0 as int) by {
                    reveal(AabbTree::wf_tree);
                }
                lemma_parent_of(o, p as int);
                lemma_internal_children(o, gparent_index.0 as int);
            }
            let g = gparent_index.0 as u32;
            let gn = self.node_copy(g);
            self.set_child(g, gn.left_or_nextfree == p, sibling_index);
            self.set_parent(sibling_index, gparent_index);
        } else {
            self.root_index = NodeIndex::some(sibling_index as usize);
            self.set_parent(sibling_index, NodeIndex::none());
        }
        let ghost m = *self;
        proof {
            assert forall|j: int| 0 <= j < o.nodes@.len() && !o.is_live(j) implies self.nodes@[j] == o.nodes@[j] by {}
            lemma_arena_frame(o, *self);
            assert(self.is_live(p as int) && self.is_live(l as int));
        }
        self.free_node(p);
        self.free_node(l);
        proof {
            let sib = sibling_index as int;
            assert(unlinked(o, *self, l as int, p as int, sib)) by {
                assert forall|j: int| 0 <= j < o.nodes@.len() && j != l as int && j != p as int && j != sib && j != o.par(p as int).0 as int
                    implies #[trigger] self.nodes@[j] == o.nodes@[j] by {
                    assert(m.nodes@[j] == o.nodes@[j]);
                }
                if o.par(p as int).0 == NODE_INDEX_NONE {
                    lemma_root_has_no_parent(o, p as int);
                }
            }
            lemma_unlinked_frame(o, *self, l as int, p as int, sib);
            lemma_unlinked_internal(o, *self, l as int, p as int, sib);
            lemma_unlinked_parents(o, *self, l as int, p as int, sib);
            if o.boxes_nested() {
                lemma_unlinked_nested(o, *self, l as int, p as int, sib);
                lemma_nested_but_of(*self, gparent_index.0 as int);
            }
            if o.boxes_tight() {
                lemma_unlinked_tight(o, *self, l as int, p as int, sib);
                if gparent_index.0 == NODE_INDEX_NONE {
                    lemma_arena_bound(*self);
                    let n = *self;
                    assert forall|k: int| #[trigger] n.is_live(k) && !n.is_leaf_at(k) implies n.tight_at(k) by {
                        assert(k != gparent_index.0 as int);
                    }
                } else {
                    let gi = gparent_index.0 as int;
                    assert(tight_but(*self, gi, gi));
                }
            }
        }
        if gparent_index.is_some() {
            self.refit_parents(gparent_index, true);
        }
        true
    }
}

/// What `AabbTree::validate` found wrong with a node.
pub enum ValidationError<B> {
    NodeIsRootButHasParent { parent_index: u32 },
    NodeHeightIsNotOneMoreThanChildren { height: u16, left_height: u16, right_height: u16 },
    LeftChildHasInvalidIndex { left_index: u32 },
    RightChildHasInvalidIndex { right_index: u32 },
    LeftChildMisparented { left_parent_index: NodeIndex },
    RightChildMisparented { right_parent_index: NodeIndex },
    BoundsDontUnionChildren { bounds: B, children_bounds: B },
}

impl<B: Copy> AabbTree<B> {
    /// Whether `e` is the box and user value of some leaf.
    pub open spec fn holds_leaf(&self, e: (B, u32)) -> bool {
        exists|j: int| #[trigger] self.spec_leaves().contains_key(j) && self.spec_leaves()[j] == e
    }

    /// The root, or none for an empty tree.
    pub fn root_index(&self) -> (r: NodeIndex)
        ensures
            r == self.spec_root(),
    {
        self.root_index
    }
}

impl<B: AabbBounds> AabbTree<B> {
    /// Appends to `out`, left before right, the leaves of the subtree at `i` that are
    /// reached through boxes that all overlap `aabb`.
    fn collect_overlapping(&self, i: u32, aabb: &B, out: &mut Vec<(B, u32)>)
        requires
            self.wf(),
            self.is_live(i as int),
        ensures
            final(out)@.len() >= old(out)@.len(),
            final(out)@.subrange(0, old(out)@.len() as int) == old(out)@,
            forall|k: int| old(out)@.len() <= k < final(out)@.len() ==> self.holds_leaf(#[trigger] final(out)@[k]),
            final(out)@ == old(out)@ + overlapping_in(self.nodes@, i as int, *aabb, subtree(*self, i as int).len()),
        decreases self.rank@[i as int],
    {
        proof {
            lemma_subtree_len(*self, i as int);
        }
        let node = &self.nodes[i as usize];
        if !node.bounds.overlaps(aabb) {
            assert(old(out)@ + Seq::<(B, u32)>::empty() =~= old(out)@);
            return;
        }
        if node.is_leaf() {
            proof {
                assert(self.spec_leaves().contains_key(i as int));
            }
            out.push((node.bounds, node.right_or_userdata));
            assert(out@ =~= old(out)@ + seq![(node.bounds, node.right_or_userdata)]);
            return;
        }
        proof {
            lemma_internal_children(*self, i as int);
            lemma_subtree_split(*self, i as int);
            let f = (subtree(*self, i as int).len() - 1) as nat;
            lemma_overlapping_fuel(*self, node.left_or_nextfree as int, *aabb, f);
            lemma_overlapping_fuel(*self, node.right_or_userdata as int, *aabb, f);
        }
        let ghost before = out@;
        self.collect_overlapping(node.left_or_nextfree, aabb, out);
        let ghost mid = out@;
        self.collect_overlapping(node.right_or_userdata, aabb, out);
        proof {
            assert(out@.subrange(0, before.len() as int) =~= mid.subrange(0, mid.len() as int).subrange(0, before.len() as int));
            assert forall|k: int| before.len() <= k < out@.len() implies self.holds_leaf(#[trigger] out@[k]) by {
                if k < mid.len() {
                    assert(out@[k] == mid[k]);
                }
            }
            let f = (subtree(*self, i as int).len() - 1) as nat;
            assert(overlapping_in(self.nodes@, i as int, *aabb, subtree(*self, i as int).len())
                == overlapping_in(self.nodes@, node.left_or_nextfree as int, *aabb, f)
                + overlapping_in(self.nodes@, node.right_or_userdata as int, *aabb, f));
            assert(out@ =~= before + overlapping_in(self.nodes@, i as int, *aabb, subtree(*self, i as int).len()));
        }
    }

    /// The box and user value of every leaf reached, depth first and left before right,
    /// through boxes that all overlap `aabb`.
    pub fn iter_overlapping(&self, aabb: B) -> (r: Vec<(B, u32)>)
        requires
            self.wf(),
        ensures
            forall|k: int| 0 <= k < r@.len() ==> self.holds_leaf(#[trigger] r@[k]),
            self.spec_len() == 0 ==> r@.len() == 0,
            r@ == self.spec_overlapping(aabb),
            forall|k: int| 0 <= k < r@.len() ==> self.holds_overlapping_leaf(#[trigger] r@[k], aabb),
            self.boxes_nested() ==> forall|j: int| #[trigger] self.spec_leaves().contains_key(j)
                && self.spec_leaves()[j].0.spec_overlaps(aabb) ==> r@.contains(self.spec_leaves()[j]),
            r@ == self.spec_overlapping_leaves(aabb).map_values(|k: int| self.spec_leaves()[k]),
            self.spec_overlapping_leaves(aabb).no_duplicates(),
            forall|k: int| 0 <= k < self.spec_overlapping_leaves(aabb).len() ==>
                self.spec_leaves().contains_key(#[trigger] self.spec_overlapping_leaves(aabb)[k])
                && self.spec_leaves()[self.spec_overlapping_leaves(aabb)[k]].0.spec_overlaps(aabb),
            self.boxes_nested() ==> forall|j: int| #[trigger] self.spec_leaves().contains_key(j)
                && self.spec_leaves()[j].0.spec_overlaps(aabb) ==> self.spec_overlapping_leaves(aabb).contains(j),
    {
        proof {
            lemma_spec_overlapping(*self, aabb);
            lemma_spec_overlapping_leaves(*self, aabb);
        }
        let mut out: Vec<(B, u32)> = Vec::new();
        if self.root_index.is_some() {
            proof {
                reveal(AabbTree::wf_tree);
                lemma_arena_bound(*self);
                lemma_subtree_len(*self, self.root_index.0 as int);
                lemma_overlapping_fuel(*self, self.root_index.0 as int, aabb, self.nodes@.len());
            }
            self.collect_overlapping(self.root_index.0 as u32, &aabb, &mut out);
            assert(out@ =~= Seq::<(B, u32)>::empty() + overlapping_in(self.nodes@, self.root_index.0 as int, aabb, subtree(*self, self.root_index.0 as int).len()));
        } else {
            proof {
                reveal(AabbTree::wf_tree);
            }
        }
        out
    }

    /// Checks the nodes from `start` down its right-most path, up to the first leaf: that
    /// the root has no parent, that the children are valid indices pointing back at their
    /// parent, that a node's height is one more than the larger of its children's, and
    /// that its box is the union of theirs. Returns the first problem and the node it was
    /// found at. On a consistent tree only the heights and the boxes can be wrong.
    pub fn validate(&self, start: NodeIndex) -> (r: Result<(), (ValidationError<B>, u32)>)
        requires
            start.0 == NODE_INDEX_NONE || (start.0 as int) < self.spec_nodes().len(),
            self.spec_nodes().len() <= u32::MAX,
        ensures
            start.0 == NODE_INDEX_NONE ==> r is Ok,
            start.0 != NODE_INDEX_NONE ==> r == validate_walk(self.spec_nodes(), self.spec_root().0, start.0 as int),
            self.wf() ==> match r {
                Ok(()) => true,
                Err((ValidationError::NodeHeightIsNotOneMoreThanChildren { height, left_height, right_height }, i)) => {
                    &&& self.is_live(i as int)
                    &&& !self.is_leaf_at(i as int)
                    &&& height == self.spec_nodes()[i as int].height
                    &&& left_height == self.spec_nodes()[self.lc(i as int)].height
                    &&& right_height == self.spec_nodes()[self.rc(i as int)].height
                    &&& height as int != 1 + if left_height >= right_height { left_height } else { right_height }
                },
                Err((ValidationError::BoundsDontUnionChildren { bounds, children_bounds }, i)) => {
                    &&& self.is_live(i as int)
                    &&& !self.is_leaf_at(i as int)
                    &&& bounds == self.spec_nodes()[i as int].bounds
                },
                Err(_) => false,
            },
    {
        if start.is_none() {
            return Ok(());
        }
        let mut top_index = start.0 as u32;
        loop
            invariant
                validate_walk(self.nodes@, self.root_index.0, start.0 as int)
                    == validate_walk(self.nodes@, self.root_index.0, top_index as int),
                (top_index as int) < self.nodes@.len(),
                self.nodes@.len() <= u32::MAX,
                self.wf() ==> (top_index as int != start.0 as int ==> self.is_live(top_index as int)),
                start.0 != NODE_INDEX_NONE,
                (start.0 as int) < self.nodes@.len(),
            decreases self.nodes@[top_index as int].height,
        {
            let top = self.node_copy(top_index);
            if self.root_index.0 == top_index as usize && top.parent_index.is_some() {
                proof {
                    reveal(AabbTree::wf_tree);
                }
                return Err((ValidationError::NodeIsRootButHasParent { parent_index: top.parent_index.0 as u32 }, top_index));
            }
            if top.is_leaf() {
                return Ok(());
            }
            proof {
                if self.wf() {
                    reveal(AabbTree::wf_tree);
                    assert(self.is_live(top_index as int)) by {
                        if top_index as int == start.0 as int && !self.is_live(top_index as int) {
                            // a free node is never internal
                            lemma_free_is_leaf(*self, top_index as int);
                        }
                    }
                    lemma_internal_children(*self, top_index as int);
                }
            }
            if top.left_or_nextfree as usize >= self.nodes.len() {
                return Err((ValidationError::LeftChildHasInvalidIndex { left_index: top.left_or_nextfree }, top_index));
            }
            if top.right_or_userdata as usize >= self.nodes.len() {
                return Err((ValidationError::RightChildHasInvalidIndex { right_index: top.right_or_userdata }, top_index));
            }
            let left = self.node_copy(top.left_or_nextfree);
            let right = self.node_copy(top.right_or_userdata);
            let larger: u16 = if left.height >= right.height { left.height } else { right.height };
            if top.height as u32 != 1 + larger as u32 {
                return Err((ValidationError::NodeHeightIsNotOneMoreThanChildren {
                    height: top.height,
                    left_height: left.height,
                    right_height: right.height,
                }, top_index));
            }
            if left.parent_index.0 != top_index as usize {
                return Err((ValidationError::LeftChildMisparented { left_parent_index: left.parent_index }, top_index));
            }
            if right.parent_index.0 != top_index as usize {
                return Err((ValidationError::RightChildMisparented { right_parent_index: right.parent_index }, top_index));
            }
            let children_bounds = left.bounds.unioned_with(&right.bounds);
            if !top.bounds.same_bounds(&children_bounds) {
                return Err((ValidationError::BoundsDontUnionChildren { bounds: top.bounds, children_bounds }, top_index));
            }
            // the left child would be checked after the right-most path, which ends the
            // check at its first leaf
            top_index = top.right_or_userdata;
        }
    }
}

/// A free node has height 0.
proof fn lemma_free_is_leaf<B: Copy>(t: AabbTree<B>, i: int)
    requires
        t.wf(),
        0 <= i < t.nodes@.len(),
        !t.is_live(i),
    ensures
        t.is_leaf_at(i),
{
    reveal(AabbTree::wf_arena);
    let k = choose|k: int| 0 <= k < t.free_list@.len() && t.free_list@[k] == i as u32;
    assert(t.free_list@[k] as int == i);
}

/// The nodes of the subtree at `i`.
spec fn subtree<B: Copy>(t: AabbTree<B>, i: int) -> Set<int>
    decreases t.rank@[i],
{
    if !t.is_leaf_at(i) && t.rank@[t.lc(i)] < t.rank@[i] && t.rank@[t.rc(i)] < t.rank@[i] {
        set![i] + subtree(t, t.lc(i)) + subtree(t, t.rc(i))
    } else {
        set![i]
    }
}

/// A subtree holds nodes in use ranked at most as its root, every node of it but its root
/// has its parent in it, and it holds the children of its internal nodes.
proof fn lemma_subtree<B: Copy>(t: AabbTree<B>, a: int)
    requires
        t.wf(),
        t.is_live(a),
    ensures
        subtree(t, a).finite(),
        subtree(t, a).contains(a),
        forall|j: int| #[trigger] subtree(t, a).contains(j) ==> t.is_live(j) && t.rank@[j] <= t.rank@[a],
        forall|j: int| #[trigger] subtree(t, a).contains(j) && j != a ==> t.par(j).0 != NODE_INDEX_NONE
            && subtree(t, a).contains(t.par(j).0 as int),
        forall|p: int| #[trigger] subtree(t, a).contains(p) && !t.is_leaf_at(p) ==> subtree(t, a).contains(t.lc(p))
            && subtree(t, a).contains(t.rc(p)),
    decreases t.rank@[a],
{
    if !t.is_leaf_at(a) {
        lemma_internal_children(t, a);
        let l = t.lc(a);
        let r = t.rc(a);
        lemma_subtree(t, l);
        lemma_subtree(t, r);
        assert(subtree(t, a) == set![a] + subtree(t, l) + subtree(t, r));
        lemma_arena_bound(t);
        assert forall|j: int| #[trigger] subtree(t, a).contains(j) && j != a implies t.par(j).0 != NODE_INDEX_NONE
            && subtree(t, a).contains(t.par(j).0 as int) by {
            if subtree(t, l).contains(j) {
                if j == l {
                    assert(t.par(l).0 == a);
                } else {
                    assert(subtree(t, l).contains(t.par(j).0 as int));
                }
            } else {
                if j == r {
                    assert(t.par(r).0 == a);
                } else {
                    assert(subtree(t, r).contains(t.par(j).0 as int));
                }
            }
        }
        assert forall|p: int| #[trigger] subtree(t, a).contains(p) && !t.is_leaf_at(p) implies subtree(t, a).contains(t.lc(p))
            && subtree(t, a).contains(t.rc(p)) by {
            if p != a {
                if subtree(t, l).contains(p) {
                    assert(subtree(t, l).contains(t.lc(p)));
                } else {
                    assert(subtree(t, r).contains(t.lc(p)));
                }
            }
        }
    } else {
        assert(subtree(t, a) == set![a]);
    }
}

/// The subtrees of the two children of an internal node are disjoint and leave it out.
proof fn lemma_subtree_split<B: Copy>(t: AabbTree<B>, i: int)
    requires
        t.wf(),
        t.is_live(i),
        !t.is_leaf_at(i),
    ensures
        subtree(t, i) == set![i] + subtree(t, t.lc(i)) + subtree(t, t.rc(i)),
        subtree(t, t.lc(i)).disjoint(subtree(t, t.rc(i))),
        !subtree(t, t.lc(i)).contains(i),
        !subtree(t, t.rc(i)).contains(i),
        subtree(t, i).len() == 1 + subtree(t, t.lc(i)).len() + subtree(t, t.rc(i)).len(),
{
    lemma_internal_children(t, i);
    let l = t.lc(i);
    let r = t.rc(i);
    lemma_subtree(t, l);
    lemma_subtree(t, r);
    lemma_arena_bound(t);
    assert forall|j: int| !(subtree(t, l).contains(j) && subtree(t, r).contains(j)) by {
        lemma_siblings_apart(t, i, j);
    }
    let sl = subtree(t, l);
    let sr = subtree(t, r);
    vstd::set_lib::lemma_set_disjoint_lens(sl, sr);
    let one = set![i];
    assert(one.disjoint(sl + sr));
    vstd::set_lib::lemma_set_disjoint_lens(one, sl + sr);
    assert(one + (sl + sr) =~= one + sl + sr);
}

proof fn lemma_siblings_apart<B: Copy>(t: AabbTree<B>, i: int, j: int)
    requires
        t.wf(),
        t.is_live(i),
        !t.is_leaf_at(i),
    ensures
        !(subtree(t, t.lc(i)).contains(j) && subtree(t, t.rc(i)).contains(j)),
    decreases max_rank(t.rank@) - t.rank@[j],
{
    lemma_internal_children(t, i);
    let l = t.lc(i);
    let r = t.rc(i);
    lemma_subtree(t, l);
    lemma_subtree(t, r);
    lemma_arena_bound(t);
    if !(subtree(t, l).contains(j) && subtree(t, r).contains(j)) {
    } else if j == l {
        assert(subtree(t, r).contains(i));
    } else if j == r {
        assert(subtree(t, l).contains(i));
    } else {
        let p = t.par(j).0 as int;
        assert(t.is_live(j));
        assert(j != t.root_index.0 as int) by {
            reveal(AabbTree::wf_tree);
        }
        lemma_parent_of(t, j);
        lemma_internal_children(t, p);
        lemma_max_rank(t.rank@, p);
        lemma_siblings_apart(t, i, p);
    }
}

/// Every node in use is in the subtree of the root.
proof fn lemma_reach<B: Copy>(t: AabbTree<B>, j: int)
    requires
        t.wf(),
        t.is_live(j),
    ensures
        t.root_index.0 != NODE_INDEX_NONE,
        subtree(t, t.root_index.0 as int).contains(j),
    decreases max_rank(t.rank@) - t.rank@[j],
{
    lemma_arena_bound(t);
    reveal(AabbTree::wf_tree);
    lemma_live_counts(t, j);
    let root = t.root_index.0 as int;
    lemma_subtree(t, root);
    if j != root {
        lemma_parent_of(t, j);
        let p = t.par(j).0 as int;
        lemma_internal_children(t, p);
        lemma_max_rank(t.rank@, p);
        lemma_reach(t, p);
    }
}

/// The nodes in use are as many as the count of nodes in use says.
proof fn lemma_live_set_len<B: Copy>(t: AabbTree<B>)
    requires
        t.wf_arena(),
    ensures
        Set::new(|j: int| t.is_live(j)).finite(),
        Set::new(|j: int| t.is_live(j)).len() == t.len,
{
    reveal(AabbTree::wf_arena);
    let n = t.nodes@.len() as int;
    let free = t.free_list@;
    let fi = free.map_values(|f: u32| f as int);
    assert(fi.no_duplicates()) by {
        assert forall|a: int, b: int| 0 <= a < fi.len() && 0 <= b < fi.len() && a != b implies fi[a] != fi[b] by {
            assert(free[a] != free[b]);
        }
    }
    fi.unique_seq_to_set();
    let live = Set::new(|j: int| t.is_live(j));
    let fs = fi.to_set();
    let all = vstd::set_lib::set_int_range(0, n);
    vstd::set_lib::lemma_int_range(0, n);
    assert(live.disjoint(fs)) by {
        assert forall|j: int| live.contains(j) implies !fs.contains(j) by {
            if fs.contains(j) {
                let k = choose|k: int| 0 <= k < fi.len() && fi[k] == j;
                assert(free[k] as int == j);
                assert(free.contains(j as u32));
            }
        }
    }
    assert(live + fs =~= all) by {
        assert forall|j: int| all.contains(j) implies (live + fs).contains(j) by {
            if !live.contains(j) {
                assert(free.contains(j as u32));
                let k = choose|k: int| 0 <= k < free.len() && free[k] == j as u32;
                assert(fi[k] == j);
            }
        }
        assert forall|j: int| (live + fs).contains(j) implies all.contains(j) by {
            if fs.contains(j) {
                let k = choose|k: int| 0 <= k < fi.len() && fi[k] == j;
                assert((free[k] as int) < n);
            }
        }
    }
    vstd::set_lib::lemma_len_subset(live, all);
    vstd::set_lib::lemma_set_disjoint_lens(live, fs);
}

/// `n` copies node `j` of `t`: the same box and height, and for a leaf the same user value.
spec fn copied<B: Copy>(t: AabbTree<B>, n: Node<B>, j: int) -> bool {
    &&& n.bounds == t.nodes@[j].bounds
    &&& n.height == t.nodes@[j].height
    &&& (t.is_leaf_at(j) ==> n.right_or_userdata == t.nodes@[j].right_or_userdata)
}

/// The copy at `out[base + x]` of the node `o[x]`: it copies the node; unless it is the
/// first copy, its parent is a copy before it, of the node's parent, that has it as a
/// child; and when the node is internal, its children are copies after it of the node's
/// children that have it as their parent.
spec fn packed_at<B: Copy>(t: AabbTree<B>, out: Seq<Node<B>>, base: int, o: Seq<int>, x: int) -> bool {
    let k = base + x;
    let j = o[x];
    &&& t.is_live(j)
    &&& copied(t, out[k], j)
    &&& (x > 0 ==> {
        let p = out[k].parent_index.0 as int;
        &&& base <= p < k
        &&& o[p - base] == t.par(j).0 as int
        &&& (out[p].left_or_nextfree as int == k || out[p].right_or_userdata as int == k)
    })
    &&& (!t.is_leaf_at(j) ==> {
        let kl = out[k].left_or_nextfree as int;
        let kr = out[k].right_or_userdata as int;
        &&& kl == k + 1
        &&& base < kl < base + o.len()
        &&& base < kr < base + o.len()
        &&& kl != kr
        &&& o[kl - base] == t.lc(j)
        &&& o[kr - base] == t.rc(j)
        &&& out[kl].parent_index.0 as int == k
        &&& out[kr].parent_index.0 as int == k
    })
}

/// The nodes `out[base..base + o.len()]` copy the nodes `o` of `t`, in order, linked as
/// they are linked in `t` (see `packed_at`).
spec fn packed<B: Copy>(t: AabbTree<B>, out: Seq<Node<B>>, base: int, o: Seq<int>) -> bool {
    &&& 0 <= base
    &&& base + o.len() <= out.len()
    &&& base + o.len() < FREE_LIST_END
    &&& forall|x: int| 0 <= x < o.len() ==> #[trigger] packed_at(t, out, base, o, x)
}

proof fn lemma_packed_frame<B: Copy>(t: AabbTree<B>, out1: Seq<Node<B>>, out2: Seq<Node<B>>, base: int, o: Seq<int>)
    requires
        packed(t, out1, base, o),
        base + o.len() <= out2.len(),
        forall|k: int| base <= k < base + o.len() ==> #[trigger] out2[k] == out1[k],
    ensures
        packed(t, out2, base, o),
{
    assert forall|x: int| 0 <= x < o.len() implies #[trigger] packed_at(t, out2, base, o, x) by {
        assert(packed_at(t, out1, base, o, x));
        let k = base + x;
        assert(out2[k] == out1[k]);
        if x > 0 {
            let p = out1[k].parent_index.0 as int;
            assert(base <= p < k);
            assert(out2[p] == out1[p]);
        }
        if !t.is_leaf_at(o[x]) {
            let kl = out1[k].left_or_nextfree as int;
            let kr = out1[k].right_or_userdata as int;
            assert(out2[kl] == out1[kl]);
            assert(out2[kr] == out1[kr]);
        }
    }
}

/// A packed run `sub` at `base + off` that sits inside `o` at `off`, and whose first copy
/// hangs under a copy in `o` before it, is packed as part of `o` at `base`.
proof fn lemma_packed_shift<B: Copy>(t: AabbTree<B>, out: Seq<Node<B>>, base: int, o: Seq<int>, off: int, sub: Seq<int>)
    requires
        packed(t, out, base + off, sub),
        1 <= off,
        sub.len() >= 1,
        off + sub.len() <= o.len(),
        forall|y: int| 0 <= y < sub.len() ==> o[off + y] == #[trigger] sub[y],
        ({
            let p = out[base + off].parent_index.0 as int;
            &&& base <= p < base + off
            &&& o[p - base] == t.par(sub[0]).0 as int
            &&& (out[p].left_or_nextfree as int == base + off || out[p].right_or_userdata as int == base + off)
        }),
    ensures
        forall|x: int| off <= x < off + sub.len() ==> #[trigger] packed_at(t, out, base, o, x),
{
    assert forall|x: int| off <= x < off + sub.len() implies #[trigger] packed_at(t, out, base, o, x) by {
        let y = x - off;
        assert(packed_at(t, out, base + off, sub, y));
        assert(o[x] == sub[y]);
        let k = base + x;
        if y > 0 {
            let p = out[k].parent_index.0 as int;
            assert(o[p - base] == sub[p - (base + off)]);
        }
        if !t.is_leaf_at(sub[y]) {
            let kl = out[k].left_or_nextfree as int;
            let kr = out[k].right_or_userdata as int;
            assert(o[kl - base] == sub[kl - (base + off)]);
            assert(o[kr - base] == sub[kr - (base + off)]);
        }
    }
}

proof fn lemma_packed_combine<B: Copy>(t: AabbTree<B>, out: Seq<Node<B>>, base: int, i: int, ol: Seq<int>, or: Seq<int>)
    requires
        t.wf(),
        t.is_live(i),
        !t.is_leaf_at(i),
        ol.len() >= 1,
        or.len() >= 1,
        packed(t, out, base + 1, ol),
        packed(t, out, base + 1 + ol.len(), or),
        ol[0] == t.lc(i),
        or[0] == t.rc(i),
        copied(t, out[base], i),
        out[base].left_or_nextfree as int == base + 1,
        out[base].right_or_userdata as int == base + 1 + ol.len(),
        out[base + 1].parent_index.0 as int == base,
        out[base + 1 + ol.len()].parent_index.0 as int == base,
    ensures
        packed(t, out, base, seq![i] + ol + or),
{
    lemma_internal_children(t, i);
    let o = seq![i] + ol + or;
    assert(o[0] == i);
    assert forall|y: int| 0 <= y < ol.len() implies o[1 + y] == #[trigger] ol[y] by {}
    assert forall|y: int| 0 <= y < or.len() implies o[1 + ol.len() + y] == #[trigger] or[y] by {}
    lemma_packed_shift(t, out, base, o, 1, ol);
    lemma_packed_shift(t, out, base, o, 1 + ol.len() as int, or);
    assert(packed_at(t, out, base, o, 0)) by {
        assert(o[1] == ol[0]);
        assert(o[1 + ol.len() as int] == or[0]);
    }
    assert forall|x: int| 0 <= x < o.len() implies #[trigger] packed_at(t, out, base, o, x) by {
        if x == 0 {
        } else if x < 1 + ol.len() {
        } else {
        }
    }
}

proof fn lemma_singleton_to_set(v: int)
    ensures
        seq![v].to_set() == set![v],
        seq![v].no_duplicates(),
{
    assert(seq![v].to_set() =~= set![v]) by {
        assert(seq![v][0] == v);
    }
}

proof fn lemma_concat_unique(a: Seq<int>, b: Seq<int>)
    requires
        a.no_duplicates(),
        b.no_duplicates(),
        a.to_set().disjoint(b.to_set()),
    ensures
        (a + b).no_duplicates(),
        (a + b).to_set() == a.to_set() + b.to_set(),
{
    let c = a + b;
    assert forall|x: int, y: int| 0 <= x < c.len() && 0 <= y < c.len() && x != y implies c[x] != c[y] by {
        if x < a.len() && y >= a.len() {
            assert(a.to_set().contains(c[x]));
            assert(b.to_set().contains(c[y]));
        } else if y < a.len() && x >= a.len() {
            assert(a.to_set().contains(c[y]));
            assert(b.to_set().contains(c[x]));
        }
    }
    assert(c.to_set() =~= a.to_set() + b.to_set()) by {
        assert forall|v: int| c.to_set().contains(v) implies (a.to_set() + b.to_set()).contains(v) by {
            let x = choose|x: int| 0 <= x < c.len() && c[x] == v;
            if x < a.len() {
                assert(a[x] == v);
            } else {
                assert(b[x - a.len()] == v);
            }
        }
        assert forall|v: int| (a.to_set() + b.to_set()).contains(v) implies c.to_set().contains(v) by {
            if a.to_set().contains(v) {
                let x = choose|x: int| 0 <= x < a.len() && a[x] == v;
                assert(c[x] == v);
            } else {
                let x = choose|x: int| 0 <= x < b.len() && b[x] == v;
                assert(c[x + a.len()] == v);
            }
        }
    }
}

impl<B: Copy> AabbTree<B> {
    /// Appends copies of the subtree at `i` to `out` in depth-first order, left before
    /// right, the first copy taking `parent` as its parent and being set as that parent's
    /// left (`left_side`) or right child. Returns the nodes copied, in order.
    fn repack_from(&self, i: u32, parent: NodeIndex, left_side: bool, out: &mut Vec<Node<B>>) -> (o: Ghost<Seq<int>>)
        requires
            self.wf(),
            self.is_live(i as int),
            old(out)@.len() + subtree(*self, i as int).len() < FREE_LIST_END,
            parent.0 == NODE_INDEX_NONE || (parent.0 as int) < old(out)@.len(),
        ensures
            final(out)@.len() == old(out)@.len() + o@.len(),
            o@.len() == subtree(*self, i as int).len(),
            o@.to_set() == subtree(*self, i as int),
            o@.no_duplicates(),
            o@[0] == i as int,
            packed(*self, final(out)@, old(out)@.len() as int, o@),
            final(out)@[old(out)@.len() as int].parent_index == parent,
            forall|k: int| 0 <= k < old(out)@.len() && k != parent.0 as int ==> final(out)@[k] == old(out)@[k],
            parent.0 != NODE_INDEX_NONE ==> final(out)@[parent.0 as int] == (if left_side {
                Node { left_or_nextfree: old(out)@.len() as u32, ..old(out)@[parent.0 as int] }
            } else {
                Node { right_or_userdata: old(out)@.len() as u32, ..old(out)@[parent.0 as int] }
            }),
        decreases self.rank@[i as int],
    {
        proof {
            lemma_subtree(*self, i as int);
            lemma_arena_bound(*self);
        }
        let base = out.len();
        let node = self.node_copy(i);
        out.push(Node {
            bounds: node.bounds,
            parent_index: parent,
            left_or_nextfree: 0,
            right_or_userdata: node.right_or_userdata,
            height: node.height,
        });
        if parent.is_some() {
            let mut pn = out[parent.0].copy();
            if left_side {
                pn.left_or_nextfree = base as u32;
            } else {
                pn.right_or_userdata = base as u32;
            }
            out.set(parent.0, pn);
        }
        if node.is_leaf() {
            proof {
                assert(subtree(*self, i as int) == set![i as int]);
                lemma_singleton_to_set(i as int);
                assert(packed_at(*self, out@, base as int, seq![i as int], 0));
                assert(packed(*self, out@, base as int, seq![i as int]));
            }
            let ghost only = seq![i as int];
            return Ghost(only);
        }
        proof {
            lemma_subtree_split(*self, i as int);
            lemma_internal_children(*self, i as int);
        }
        let ghost after_push = out@;
        let ol = self.repack_from(node.left_or_nextfree, NodeIndex::some(base), true, out);
        let ghost after_left = out@;
        let or = self.repack_from(node.right_or_userdata, NodeIndex::some(base), false, out);
        proof {
            let bl = base as int + 1;
            let br = base as int + 1 + ol@.len();
            lemma_packed_frame(*self, after_left, out@, bl, ol@);
            assert(out@[base as int].left_or_nextfree as int == bl);
            assert(out@[bl].parent_index.0 as int == base as int);
            lemma_packed_combine(*self, out@, base as int, i as int, ol@, or@);
            lemma_singleton_to_set(i as int);
            lemma_concat_unique(seq![i as int], ol@);
            lemma_concat_unique(seq![i as int] + ol@, or@);
        }
        let ghost all = seq![i as int] + ol@ + or@;
        Ghost(all)
    }
}

/// `n` holds, at positions `0..`, copies of the nodes `o` of `t`: every node in use of `t`
/// exactly once, and a leaf of `n` is a copy of a leaf of `t`, with the same box and user
/// value.
pub open spec fn repacked<B: Copy>(t: AabbTree<B>, n: AabbTree<B>, o: Seq<int>) -> bool {
    &&& o.len() == n.spec_nodes().len()
    &&& o.no_duplicates()
    &&& (forall|k: int| 0 <= k < o.len() ==> t.is_live(#[trigger] o[k]))
    &&& (forall|j: int| t.is_live(j) ==> o.contains(j))
    &&& (forall|k: int| 0 <= k < o.len() ==> (#[trigger] n.spec_leaves().contains_key(k)) == t.spec_leaves().contains_key(o[k]))
    &&& (forall|k: int| #[trigger] n.spec_leaves().contains_key(k) ==> n.spec_leaves()[k] == t.spec_leaves()[o[k]])
}

/// The subtree of the root holds exactly the nodes in use, as many as the count says.
proof fn lemma_subtree_of_root<B: Copy>(t: AabbTree<B>)
    requires
        t.wf(),
        t.root_index.0 != NODE_INDEX_NONE,
    ensures
        subtree(t, t.root_index.0 as int) == Set::new(|j: int| t.is_live(j)),
        subtree(t, t.root_index.0 as int).len() == t.len,
{
    let root = t.root_index.0 as int;
    assert(t.is_live(root)) by {
        reveal(AabbTree::wf_tree);
    }
    lemma_subtree(t, root);
    assert(subtree(t, root) =~= Set::new(|j: int| t.is_live(j))) by {
        assert forall|j: int| t.is_live(j) implies subtree(t, root).contains(j) by {
            lemma_reach(t, j);
        }
    }
    lemma_live_set_len(t);
}

#[verifier::spinoff_prover]
#[verifier::rlimit(60)]
proof fn lemma_repacked_tree<B: Copy>(t: AabbTree<B>, n: AabbTree<B>, o: Seq<int>)
    requires
        t.wf(),
        t.root_index.0 != NODE_INDEX_NONE,
        packed(t, n.nodes@, 0, o),
        o.len() == n.nodes@.len(),
        o.no_duplicates(),
        o.len() >= 1,
        o[0] == t.root_index.0 as int,
        n.nodes@[0].parent_index.0 == NODE_INDEX_NONE,
        n.free_list@.len() == 0,
        n.root_index.0 == 0,
        n.len as int == o.len(),
        n.rank@.len() == o.len(),
        forall|k: int| 0 <= k < o.len() ==> #[trigger] n.rank@[k] == t.rank@[o[k]],
    ensures
        n.wf_tree(),
        forall|k: int| 0 <= k < o.len() ==> n.is_live(k),
        forall|k: int| n.is_live(k) ==> 0 <= k < o.len(),
{
    reveal(AabbTree::wf_tree);
    assert forall|k: int| 0 <= k < o.len() implies n.is_live(k) by {}
    assert forall|i: int| #[trigger] n.is_live(i) && !n.is_leaf_at(i) implies {
        &&& n.is_live(n.lc(i))
        &&& n.is_live(n.rc(i))
        &&& n.lc(i) != n.rc(i)
        &&& n.par(n.lc(i)).0 == i
        &&& n.par(n.rc(i)).0 == i
        &&& n.rank@[n.lc(i)] < n.rank@[i]
        &&& n.rank@[n.rc(i)] < n.rank@[i]
    } by {
        assert(packed_at(t, n.nodes@, 0, o, i));
        lemma_internal_children(t, o[i]);
        assert(n.rank@[n.lc(i)] == t.rank@[o[n.lc(i)]]);
        assert(n.rank@[n.rc(i)] == t.rank@[o[n.rc(i)]]);
    }
    assert forall|k: int| #[trigger] n.is_live(k) && k != 0 implies {
        let p = n.par(k).0 as int;
        &&& n.par(k).0 != NODE_INDEX_NONE
        &&& n.is_live(p)
        &&& !n.is_leaf_at(p)
        &&& (n.lc(p) == k || n.rc(p) == k)
    } by {
        assert(packed_at(t, n.nodes@, 0, o, k));
        assert(o[k] != o[0]);
        assert(o[k] != t.root_index.0 as int);
        lemma_parent_of(t, o[k]);
        let p = n.par(k).0 as int;
        assert(packed_at(t, n.nodes@, 0, o, p));
    }
}

proof fn lemma_repacked<B: Copy>(t: AabbTree<B>, n: AabbTree<B>, o: Seq<int>)
    requires
        t.wf(),
        t.root_index.0 != NODE_INDEX_NONE,
        packed(t, n.nodes@, 0, o),
        o.len() == n.nodes@.len(),
        o.no_duplicates(),
        o.to_set() == subtree(t, t.root_index.0 as int),
        o[0] == t.root_index.0 as int,
        n.nodes@[0].parent_index.0 == NODE_INDEX_NONE,
        n.free_list@.len() == 0,
        n.nodes_free_head.0 == NODE_INDEX_NONE,
        n.root_index.0 == 0,
        n.len == t.len,
        n.rank@.len() == o.len(),
        forall|k: int| 0 <= k < o.len() ==> #[trigger] n.rank@[k] == t.rank@[o[k]],
    ensures
        n.wf(),
        repacked(t, n, o),
{
    lemma_subtree_of_root(t);
    o.unique_seq_to_set();
    assert(t.is_live(t.root_index.0 as int)) by {
        reveal(AabbTree::wf_tree);
    }
    lemma_subtree(t, t.root_index.0 as int);
    assert(o.len() >= 1) by {
        assert(o.to_set().contains(t.root_index.0 as int));
    }
    lemma_repacked_tree(t, n, o);
    assert(n.wf_arena()) by {
        reveal(AabbTree::wf_arena);
    }
    assert forall|j: int| t.is_live(j) implies o.contains(j) by {
        assert(Set::new(|j: int| t.is_live(j)).contains(j));
        assert(o.to_set().contains(j));
    }
    assert forall|k: int| 0 <= k < o.len() implies t.is_live(#[trigger] o[k]) by {
        assert(packed_at(t, n.nodes@, 0, o, k));
    }
    assert forall|k: int| 0 <= k < o.len() implies (#[trigger] n.spec_leaves().contains_key(k)) == t.spec_leaves().contains_key(o[k]) by {
        assert(packed_at(t, n.nodes@, 0, o, k));
    }
    assert forall|k: int| #[trigger] n.spec_leaves().contains_key(k) implies n.spec_leaves()[k] == t.spec_leaves()[o[k]] by {
        assert(packed_at(t, n.nodes@, 0, o, k));
    }
}

impl<B: AabbBounds> AabbTree<B> {
    /// Rebuilds the node arena in depth-first order, left before right, so that searches
    /// walk through memory in order; the free nodes are dropped. The leaves stay, with
    /// their boxes and user values; only their positions change.
    pub fn repack(&mut self)
        requires
            old(self).wf(),
        ensures
            final(self).wf(),
            final(self).spec_len() == old(self).spec_len(),
            old(self).spec_len() == 0 ==> *final(self) == *old(self),
            old(self).spec_len() > 0 ==> {
                &&& final(self).spec_root().0 == 0
                &&& final(self).spec_free().len() == 0
                &&& exists|o: Seq<int>| #[trigger] repacked(*old(self), *final(self), o)
                &&& final(self).spec_nodes().len() == old(self).spec_len()
                &&& forall|x: int| #[trigger] final(self).is_live(x) && !final(self).is_leaf_at(x) ==> final(self).lc(x) == x + 1
            },
            old(self).boxes_nested() ==> final(self).boxes_nested(),
            old(self).boxes_tight() ==> final(self).boxes_tight(),
    {
        if self.root_index.is_none() {
            proof {
                reveal(AabbTree::wf_tree);
            }
            return;
        }
        let ghost t = *self;
        proof {
            lemma_arena_bound(t);
            lemma_subtree_of_root(t);
            reveal(AabbTree::wf_tree);
        }
        let mut nodes: Vec<Node<B>> = Vec::with_capacity(self.len as usize);
        let o = self.repack_from(self.root_index.0 as u32, NodeIndex::none(), true, &mut nodes);
        self.nodes = nodes;
        self.nodes_free_head = NodeIndex::none();
        self.root_index = NodeIndex::some(0);
        proof {
            self.free_list@ = Seq::empty();
            self.rank@ = Seq::new(o@.len(), |k: int| t.rank@[o@[k]]);
            lemma_repacked(t, *self, o@);
            let n = *self;
            assert forall|x: int| #[trigger] n.is_live(x) && !n.is_leaf_at(x) implies n.lc(x) == x + 1 by {
                assert(packed_at(t, n.nodes@, 0, o@, x));
            }
            assert(n.spec_nodes().len() == t.spec_len()) by {
                reveal(AabbTree::wf_arena);
            }
            if t.boxes_tight() {
                assert forall|x: int| #[trigger] n.is_live(x) && !n.is_leaf_at(x) implies n.tight_at(x) by {
                    assert(packed_at(t, n.nodes@, 0, o@, x));
                    let j = o@[x];
                    assert(t.is_live(j) && !t.is_leaf_at(j));
                    assert(t.tight_at(j));
                    let kl = n.nodes@[x].left_or_nextfree as int;
                    let kr = n.nodes@[x].right_or_userdata as int;
                    assert(packed_at(t, n.nodes@, 0, o@, kl));
                    assert(packed_at(t, n.nodes@, 0, o@, kr));
                }
            }
            if t.boxes_nested() {
                let n = *self;
                assert forall|x: int| #[trigger] n.is_live(x) && !n.is_leaf_at(x) implies n.holds_children(x) by {
                    assert(packed_at(t, n.nodes@, 0, o@, x));
                    let j = o@[x];
                    assert(t.is_live(j) && !t.is_leaf_at(j));
                    assert(t.holds_children(j));
                    let kl = n.nodes@[x].left_or_nextfree as int;
                    let kr = n.nodes@[x].right_or_userdata as int;
                    assert(packed_at(t, n.nodes@, 0, o@, kl));
                    assert(packed_at(t, n.nodes@, 0, o@, kr));
                }
            }
        }
    }
}

/// One line of the tree's debug listing: a node, how deep it is, which side of its parent
/// it hangs on (`^` for the root, `L` or `R`), its box, and its user value if it is a leaf.
pub struct DebugRow<B> {
    pub depth: u32,
    pub side: char,
    pub node: u32,
    pub bounds: B,
    pub user_data: Option<u32>,
}

/// `row` describes node `j` of `t`.
pub open spec fn describes<B: Copy>(t: AabbTree<B>, row: DebugRow<B>, j: int) -> bool {
    &&& row.node as int == j
    &&& row.bounds == t.spec_nodes()[j].bounds
    &&& row.user_data == (if t.is_leaf_at(j) { Some(t.spec_nodes()[j].right_or_userdata) } else { None::<u32> })
}

impl<B: Copy> AabbTree<B> {
    /// Appends the listing of the subtree at `i`, depth first and left before right.
    fn debug_rows_from(&self, i: u32, depth: u32, side: char, out: &mut Vec<DebugRow<B>>) -> (o: Ghost<Seq<int>>)
        requires
            self.wf(),
            self.is_live(i as int),
            depth + subtree(*self, i as int).len() <= u32::MAX,
        ensures
            final(out)@.len() == old(out)@.len() + o@.len(),
            final(out)@.subrange(0, old(out)@.len() as int) == old(out)@,
            o@.len() == subtree(*self, i as int).len(),
            o@.to_set() == subtree(*self, i as int),
            o@.no_duplicates(),
            o@[0] == i as int,
            final(out)@[old(out)@.len() as int].depth == depth,
            final(out)@[old(out)@.len() as int].side == side,
            forall|x: int| 0 <= x < o@.len() ==> describes(*self, #[trigger] final(out)@[old(out)@.len() + x], o@[x]),
        decreases self.rank@[i as int],
    {
        proof {
            lemma_subtree(*self, i as int);
            lemma_arena_bound(*self);
        }
        let ghost start = out@;
        let node = self.node_copy(i);
        let user_data = if node.is_leaf() { Some(node.right_or_userdata) } else { None };
        out.push(DebugRow { depth, side, node: i, bounds: node.bounds, user_data });
        if node.is_leaf() {
            proof {
                assert(subtree(*self, i as int) == set![i as int]);
                lemma_singleton_to_set(i as int);
                assert(out@.subrange(0, start.len() as int) =~= start);
            }
            let ghost only = seq![i as int];
            return Ghost(only);
        }
        proof {
            lemma_subtree_split(*self, i as int);
            lemma_internal_children(*self, i as int);
        }
        let ghost after_push = out@;
        let ol = self.debug_rows_from(node.left_or_nextfree, depth + 1, 'L', out);
        let ghost after_left = out@;
        let or = self.debug_rows_from(node.right_or_userdata, depth + 1, 'R', out);
        proof {
            let b = start.len() as int;
            let o = seq![i as int] + ol@ + or@;
            lemma_singleton_to_set(i as int);
            lemma_concat_unique(seq![i as int], ol@);
            lemma_concat_unique(seq![i as int] + ol@, or@);
            assert(after_left.subrange(0, after_push.len() as int) == after_push);
            assert(out@.subrange(0, after_left.len() as int) == after_left);
            assert(out@.subrange(0, b) =~= start) by {
                assert forall|k: int| 0 <= k < b implies out@[k] == start[k] by {
                    assert(out@[k] == after_left[k]);
                    assert(after_left[k] == after_push[k]);
                }
            }
            assert(out@[b] == after_push[b]) by {
                assert(out@[b] == after_left[b]);
                assert(after_left[b] == after_push[b]);
            }
            assert forall|x: int| 0 <= x < o.len() implies describes(*self, #[trigger] out@[b + x], o[x]) by {
                if x == 0 {
                    assert(out@[b] == after_push[b]);
                } else if x < 1 + ol@.len() {
                    assert(o[x] == ol@[x - 1]);
                    assert(out@[b + x] == after_left[b + x]);
                    assert(describes(*self, after_left[after_push.len() + (x - 1)], ol@[x - 1]));
                } else {
                    assert(o[x] == or@[x - 1 - ol@.len()]);
                    assert(describes(*self, out@[after_left.len() + (x - 1 - ol@.len())], or@[x - 1 - ol@.len()]));
                }
            }
        }
        let ghost all = seq![i as int] + ol@ + or@;
        Ghost(all)
    }

    /// The tree's debug listing: every node in use once, depth first from the root and left
    /// before right, with its depth, side, box and leaf value.
    pub fn debug_rows(&self) -> (r: Vec<DebugRow<B>>)
        requires
            self.wf(),
        ensures
            r@.len() == self.spec_len(),
            exists|o: Seq<int>| {
                &&& o.len() == r@.len()
                &&& o.no_duplicates()
                &&& (forall|j: int| self.is_live(j) <==> o.contains(j))
                &&& (forall|x: int| 0 <= x < o.len() ==> describes(*self, #[trigger] r@[x], o[x]))
            },
    {
        let mut rows: Vec<DebugRow<B>> = Vec::new();
        if self.root_index.is_none() {
            proof {
                reveal(AabbTree::wf_tree);
                lemma_no_live(*self);
                let o = Seq::<int>::empty();
                assert forall|j: int| self.is_live(j) <==> o.contains(j) by {}
                assert(o.len() == rows@.len() && o.no_duplicates());
                assert(forall|x: int| 0 <= x < o.len() ==> describes(*self, #[trigger] rows@[x], o[x]));
            }
            return rows;
        }
        proof {
            lemma_arena_bound(*self);
            lemma_subtree_of_root(*self);
            reveal(AabbTree::wf_tree);
        }
        let o = self.debug_rows_from(self.root_index.0 as u32, 0, '^', &mut rows);
        proof {
            let root = self.root_index.0 as int;
            assert forall|j: int| self.is_live(j) <==> o@.contains(j) by {
                assert(Set::new(|j: int| self.is_live(j)).contains(j) == self.is_live(j));
                assert(o@.to_set().contains(j) == o@.contains(j));
            }
            o@.unique_seq_to_set();
            assert forall|x: int| 0 <= x < o@.len() implies describes(*self, #[trigger] rows@[x], o@[x]) by {
                assert(rows@[0 + x] == rows@[x]);
            }
        }
        rows
    }
}

/// A node in use makes the count of nodes in use positive.
proof fn lemma_live_counts<B: Copy>(t: AabbTree<B>, i: int)
    requires
        t.wf_arena(),
        t.is_live(i),
    ensures
        t.len > 0,
{
    if t.len == 0 {
        lemma_no_live(t);
    }
}

/// The largest of a sequence of ranks.
spec fn max_rank(s: Seq<nat>) -> nat
    decreases s.len(),
{
    if s.len() == 0 {
        0
    } else {
        let m = max_rank(s.drop_last());
        if s.last() > m { s.last() } else { m }
    }
}

proof fn lemma_max_rank(s: Seq<nat>, i: int)
    requires
        0 <= i < s.len(),
    ensures
        s[i] <= max_rank(s),
    decreases s.len(),
{
    if i < s.len() - 1 {
        lemma_max_rank(s.drop_last(), i);
    }
}

/// Climbing from a node in use other than the root reaches the root through internal
/// nodes, so the root is internal.
proof fn lemma_climb<B: Copy>(t: AabbTree<B>, j: int)
    requires
        t.wf(),
        t.is_live(j),
        j != t.root_index.0 as int,
    ensures
        !t.is_leaf_at(t.root_index.0 as int),
    decreases max_rank(t.rank@) - t.rank@[j],
{
    lemma_arena_bound(t);
    lemma_parent_of(t, j);
    let p = t.par(j).0 as int;
    lemma_internal_children(t, p);
    lemma_max_rank(t.rank@, p);
    if p != t.root_index.0 as int {
        lemma_climb(t, p);
    }
}

/// When the root is a leaf it is the only node in use.
proof fn lemma_root_leaf_alone<B: Copy>(t: AabbTree<B>)
    requires
        t.wf(),
        t.root_index.0 != NODE_INDEX_NONE,
        t.is_leaf_at(t.root_index.0 as int),
    ensures
        forall|j: int| t.is_live(j) ==> j == t.root_index.0 as int,
{
    assert forall|j: int| t.is_live(j) implies j == t.root_index.0 as int by {
        if j != t.root_index.0 as int {
            lemma_climb(t, j);
        }
    }
}

/// Freeing the lone root leaf empties the tree.
proof fn lemma_emptied<B: Copy>(o: AabbTree<B>, n: AabbTree<B>, l: int)
    requires
        o.wf(),
        o.root_index.0 == l as usize,
        0 <= l < o.nodes@.len(),
        o.nodes@.len() < FREE_LIST_END,
        forall|j: int| o.is_live(j) ==> j == l,
        n.wf_arena(),
        forall|j: int| n.is_live(j) <==> (o.is_live(j) && j != l),
        n.root_index.0 == NODE_INDEX_NONE,
        n.len == o.len - 1,
    ensures
        n.wf(),
        o.spec_leaves().contains_key(l),
        n.spec_leaves() == o.spec_leaves().remove(l),
        o.len == 1,
{
    reveal(AabbTree::wf_tree);
    lemma_root_leaf_alone_len(o, l);
    assert(n.spec_leaves() =~= o.spec_leaves().remove(l));
}

proof fn lemma_root_leaf_alone_len<B: Copy>(o: AabbTree<B>, l: int)
    requires
        o.wf(),
        o.root_index.0 == l as usize,
        0 <= l < o.nodes@.len(),
        o.nodes@.len() < FREE_LIST_END,
        forall|j: int| o.is_live(j) ==> j == l,
    ensures
        o.len == 1,
        o.is_leaf_at(l),
{
    reveal(AabbTree::wf_arena);
    reveal(AabbTree::wf_tree);
    assert(o.is_live(l));
    if !o.is_leaf_at(l) {
        assert(o.is_live(o.lc(l)) && o.is_live(o.rc(l)) && o.lc(l) != o.rc(l));
    }
    // every node but `l` is free, and the free list has no duplicates
    let free = o.free_list@;
    free.unique_seq_to_set();
    let full = Set::new(|k: u32| (k as int) < o.nodes@.len());
    assert(free.to_set() =~= full.remove(l as u32)) by {
        assert forall|k: u32| #[trigger] full.remove(l as u32).contains(k) implies free.to_set().contains(k) by {
            assert(!o.is_live(k as int));
        }
    }
    lemma_index_set_len(o.nodes@.len());
}

/// The nodes after unlinking leaf `l` and its parent `p`, whose other child `s` takes the
/// parent's place, and freeing both (see `remove`), before the refit.
spec fn unlinked<B: Copy>(o: AabbTree<B>, n: AabbTree<B>, l: int, p: int, s: int) -> bool {
    let g = o.par(p).0 as int;
    &&& o.wf()
    &&& o.nodes@.len() < FREE_LIST_END
    &&& o.is_live(l) && o.is_leaf_at(l)
    &&& o.is_live(p) && !o.is_leaf_at(p)
    &&& o.par(l).0 == p as usize
    &&& (o.lc(p) == l && o.rc(p) == s || o.rc(p) == l && o.lc(p) == s)
    &&& (o.par(p).0 == NODE_INDEX_NONE <==> p == o.root_index.0 as int)
    &&& n.wf_arena()
    &&& n.nodes@.len() == o.nodes@.len()
    &&& n.rank == o.rank
    &&& n.len == o.len - 2
    &&& (forall|j: int| n.is_live(j) <==> (o.is_live(j) && j != l && j != p))
    &&& n.nodes@[s] == (Node { parent_index: o.par(p), ..o.nodes@[s] })
    &&& (o.par(p).0 != NODE_INDEX_NONE ==> {
        &&& n.root_index == o.root_index
        &&& n.nodes@[g].height == o.nodes@[g].height
        &&& n.nodes@[g].parent_index == o.nodes@[g].parent_index
        &&& n.nodes@[g].bounds == o.nodes@[g].bounds
        &&& (o.lc(g) == p ==> n.lc(g) == s && n.rc(g) == o.rc(g))
        &&& (o.lc(g) != p ==> n.rc(g) == s && n.lc(g) == o.lc(g))
    })
    &&& (o.par(p).0 == NODE_INDEX_NONE ==> n.root_index.0 == s as usize)
    &&& (forall|j: int| 0 <= j < o.nodes@.len() && j != l && j != p && j != s && j != g ==> #[trigger] n.nodes@[j] == o.nodes@[j])
}

proof fn lemma_unlinked_facts<B: Copy>(o: AabbTree<B>, n: AabbTree<B>, l: int, p: int, s: int)
    requires
        unlinked(o, n, l, p, s),
    ensures
        o.is_live(s),
        s != l && s != p && l != p,
        o.par(s).0 == p as usize,
        o.rank@[s] < o.rank@[p],
        o.par(p).0 != NODE_INDEX_NONE ==> {
            let g = o.par(p).0 as int;
            &&& o.is_live(g) && !o.is_leaf_at(g)
            &&& (o.lc(g) == p || o.rc(g) == p)
            &&& o.rank@[p] < o.rank@[g]
            &&& g != l && g != p && g != s
        },
{
    lemma_internal_children(o, p);
    if o.par(p).0 != NODE_INDEX_NONE {
        lemma_parent_of(o, p);
        lemma_internal_children(o, o.par(p).0 as int);
    }
}

proof fn lemma_unlinked_frame<B: Copy>(o: AabbTree<B>, n: AabbTree<B>, l: int, p: int, s: int)
    requires
        unlinked(o, n, l, p, s),
    ensures
        o.spec_leaves().contains_key(l),
        n.spec_leaves() == o.spec_leaves().remove(l),
        o.par(p).0 != NODE_INDEX_NONE ==> n.is_live(o.par(p).0 as int) && !n.is_leaf_at(o.par(p).0 as int),
        o.len != 1,
{
    lemma_unlinked_facts(o, n, l, p, s);
    lemma_live_counts(n, s);
    let g = o.par(p).0 as int;
    assert(n.spec_leaves() =~= o.spec_leaves().remove(l)) by {
        assert forall|j: int| #[trigger] n.spec_leaves().contains_key(j) == o.spec_leaves().remove(l).contains_key(j) by {
            if j != l && j != p && j != s && j != g && 0 <= j < o.nodes@.len() {
                assert(n.nodes@[j] == o.nodes@[j]);
            }
        }
        assert forall|j: int| #[trigger] n.spec_leaves().contains_key(j) implies n.spec_leaves()[j] == o.spec_leaves().remove(l)[j] by {
            if j != s {
                assert(n.nodes@[j] == o.nodes@[j]);
            }
        }
    }
}

#[verifier::spinoff_prover]
#[verifier::rlimit(60)]
proof fn lemma_unlinked_internal<B: Copy>(o: AabbTree<B>, n: AabbTree<B>, l: int, p: int, s: int)
    requires
        unlinked(o, n, l, p, s),
    ensures
        forall|i: int| #[trigger] n.is_live(i) && !n.is_leaf_at(i) ==> {
            &&& n.is_live(n.lc(i))
            &&& n.is_live(n.rc(i))
            &&& n.lc(i) != n.rc(i)
            &&& n.par(n.lc(i)).0 == i
            &&& n.par(n.rc(i)).0 == i
            &&& n.rank@[n.lc(i)] < n.rank@[i]
            &&& n.rank@[n.rc(i)] < n.rank@[i]
        },
{
    reveal(AabbTree::wf_tree);
    lemma_unlinked_facts(o, n, l, p, s);
    let g = o.par(p).0 as int;
    let has_g = o.par(p).0 != NODE_INDEX_NONE;
    assert forall|i: int| #[trigger] n.is_live(i) && !n.is_leaf_at(i) implies {
        &&& n.is_live(n.lc(i))
        &&& n.is_live(n.rc(i))
        &&& n.lc(i) != n.rc(i)
        &&& n.par(n.lc(i)).0 == i
        &&& n.par(n.rc(i)).0 == i
        &&& n.rank@[n.lc(i)] < n.rank@[i]
        &&& n.rank@[n.rc(i)] < n.rank@[i]
    } by {
        assert(o.is_live(i));
        if has_g && i == g {
            let c = if o.lc(g) == p { o.rc(g) } else { o.lc(g) };
            lemma_internal_children(o, g);
            assert(o.is_live(c) && c != p && o.par(c).0 == g);
            assert(c != s && c != l && c != g);
            assert(n.nodes@[c] == o.nodes@[c]);
        } else if i == s {
            assert(!o.is_leaf_at(s));
            lemma_internal_children(o, s);
            let a = o.lc(s);
            let b = o.rc(s);
            assert(a != g && b != g) by {
                if has_g {
                    assert(o.rank@[s] < o.rank@[g]);
                }
            }
            assert(a != l && b != l && a != p && b != p);
            assert(n.nodes@[a] == o.nodes@[a]);
            assert(n.nodes@[b] == o.nodes@[b]);
        } else {
            assert(n.nodes@[i] == o.nodes@[i]);
            assert(!o.is_leaf_at(i));
            lemma_internal_children(o, i);
            let a = o.lc(i);
            let b = o.rc(i);
            assert(a != s && b != s && a != l && b != l && a != p && b != p);
            if a != g {
                assert(n.nodes@[a] == o.nodes@[a]);
            }
            if b != g {
                assert(n.nodes@[b] == o.nodes@[b]);
            }
        }
    }
}

#[verifier::spinoff_prover]
#[verifier::rlimit(60)]
proof fn lemma_unlinked_parents<B: Copy>(o: AabbTree<B>, n: AabbTree<B>, l: int, p: int, s: int)
    requires
        unlinked(o, n, l, p, s),
    ensures
        n.wf_tree(),
{
    reveal(AabbTree::wf_tree);
    lemma_unlinked_internal(o, n, l, p, s);
    lemma_unlinked_facts(o, n, l, p, s);
    lemma_unlinked_frame(o, n, l, p, s);
    let g = o.par(p).0 as int;
    let has_g = o.par(p).0 != NODE_INDEX_NONE;
    let root = n.root_index.0 as int;
    lemma_live_counts(n, s);
    if has_g {
        let r = o.root_index.0 as int;
        assert(o.is_live(r) && o.par(r).0 == NODE_INDEX_NONE);
        assert(r != s && r != l && r != p);
        if r != g {
            assert(n.nodes@[r] == o.nodes@[r]);
        }
    }
    assert forall|j: int| #[trigger] n.is_live(j) && j != root implies {
        let q = n.par(j).0 as int;
        &&& n.par(j).0 != NODE_INDEX_NONE
        &&& n.is_live(q)
        &&& !n.is_leaf_at(q)
        &&& (n.lc(q) == j || n.rc(q) == j)
    } by {
        assert(o.is_live(j));
        if j == s {
            assert(has_g);
        } else {
            assert(j != o.root_index.0 as int);
            lemma_parent_of(o, j);
            let q = o.par(j).0 as int;
            assert(q != p);
            if j != g {
                assert(n.nodes@[j] == o.nodes@[j]);
            }
            assert(n.par(j) == o.par(j));
            if q != g && q != s {
                assert(n.nodes@[q] == o.nodes@[q]);
            }
        }
    }
}

/// A consistent arena with no nodes in use has every node free.
proof fn lemma_no_live<B: Copy>(t: AabbTree<B>)
    requires
        t.wf_arena(),
        t.len == 0,
    ensures
        forall|j: int| !t.is_live(j),
{
    reveal(AabbTree::wf_arena);
    assert forall|j: int| !t.is_live(j) by {
        if t.is_live(j) {
            let free0 = t.free_list@;
            free0.unique_seq_to_set();
            let s = free0.to_set();
            let full = Set::new(|k: u32| (k as int) < t.nodes@.len());
            assert(s.subset_of(full.remove(j as u32)));
            lemma_index_set_len(t.nodes@.len());
            vstd::set_lib::lemma_len_subset(s, full.remove(j as u32));
        }
    }
}

/// The root of a consistent tree is the one node in use without a parent.
proof fn lemma_root_has_no_parent<B: Copy>(t: AabbTree<B>, i: int)
    requires
        t.wf(),
        t.is_live(i),
        t.par(i).0 == NODE_INDEX_NONE,
    ensures
        i == t.root_index.0 as int,
{
    reveal(AabbTree::wf_tree);
}

/// A tree whose only node in use is the leaf `l`, its root.
proof fn lemma_single_leaf<B: Copy>(o: AabbTree<B>, n: AabbTree<B>, l: int, bounds: B, value: u32)
    requires
        o.wf(),
        o.len == 0,
        forall|j: int| !o.is_live(j),
        n.wf_arena(),
        n.nodes@.len() < FREE_LIST_END,
        forall|j: int| n.is_live(j) <==> (o.is_live(j) || j == l),
        0 <= l < n.nodes@.len(),
        n.nodes@[l] == (Node { bounds, parent_index: NodeIndex(NODE_INDEX_NONE), left_or_nextfree: 0, right_or_userdata: value, height: 0 }),
        n.root_index.0 == l as usize,
        n.len == o.len + 1,
    ensures
        n.wf(),
        !o.spec_leaves().contains_key(l),
        n.spec_leaves() == o.spec_leaves().insert(l, (bounds, value)),
{
    reveal(AabbTree::wf_tree);
    assert(n.is_live(l));
    assert(n.par(l).0 == NODE_INDEX_NONE);
    assert(n.is_leaf_at(l));
    assert forall|i: int| n.is_live(i) implies i == l by {}
    assert(n.spec_leaves() =~= o.spec_leaves().insert(l, (bounds, value)));
}

/// The nodes after linking a new leaf `l` and a new internal node `p` above the sibling `s`
/// (see `insert`), before the refit.
spec fn linked_in<B: Copy>(o: AabbTree<B>, n: AabbTree<B>, s: int, l: int, p: int, bounds: B, value: u32) -> bool {
    let op = o.par(s).0 as int;
    &&& o.wf()
    &&& n.nodes@.len() < FREE_LIST_END
    &&& o.is_live(s)
    &&& o.root_index.0 != NODE_INDEX_NONE
    &&& (o.par(s).0 == NODE_INDEX_NONE <==> s == o.root_index.0 as int)
    &&& !o.is_live(l) && !o.is_live(p) && l != p
    &&& 0 <= l < n.nodes@.len() && 0 <= p < n.nodes@.len()
    &&& o.nodes@.len() <= n.nodes@.len()
    &&& (forall|j: int| n.is_live(j) <==> (o.is_live(j) || j == l || j == p))
    &&& n.len == o.len + 2
    &&& n.nodes@[l] == (Node { bounds, parent_index: NodeIndex(p as usize), left_or_nextfree: 0, right_or_userdata: value, height: 0 })
    &&& n.nodes@[p].parent_index == o.par(s)
    &&& n.nodes@[p].left_or_nextfree == s as u32
    &&& n.nodes@[p].right_or_userdata == l as u32
    &&& n.nodes@[p].height != 0
    &&& n.nodes@[s] == (Node { parent_index: NodeIndex(p as usize), ..o.nodes@[s] })
    &&& (o.par(s).0 != NODE_INDEX_NONE ==> {
        &&& n.root_index == o.root_index
        &&& n.nodes@[op].height == o.nodes@[op].height
        &&& n.nodes@[op].parent_index == o.nodes@[op].parent_index
        &&& n.nodes@[op].bounds == o.nodes@[op].bounds
        &&& (o.lc(op) == s ==> n.lc(op) == p && n.rc(op) == o.rc(op))
        &&& (o.lc(op) != s ==> n.rc(op) == p && n.lc(op) == o.lc(op))
    })
    &&& (o.par(s).0 == NODE_INDEX_NONE ==> n.root_index.0 == p as usize)
    &&& (forall|j: int| 0 <= j < o.nodes@.len() && j != l && j != p && j != s && j != op ==> #[trigger] n.nodes@[j] == o.nodes@[j])
    &&& n.rank@.len() == n.nodes@.len()
    &&& forall|j: int| 0 <= j < n.nodes@.len() ==> #[trigger] n.rank@[j] == if j == l { 0 } else if j == p { 2 * o.rank@[s] + 1 } else { 2 * o.rank@[j] }
}

/// Changing nodes in use, and the ranks, keeps the arena consistent.
proof fn lemma_arena_frame<B: Copy>(m: AabbTree<B>, n: AabbTree<B>)
    requires
        m.wf_arena(),
        n.nodes@.len() == m.nodes@.len(),
        n.free_list == m.free_list,
        n.len == m.len,
        n.nodes_free_head == m.nodes_free_head,
        n.rank@.len() == n.nodes@.len(),
        forall|j: int| 0 <= j < m.nodes@.len() && !m.is_live(j) ==> n.nodes@[j] == m.nodes@[j],
    ensures
        n.wf_arena(),
{
    reveal(AabbTree::wf_arena);
    let free = m.free_list@;
    assert forall|k: int| 0 <= k < free.len() implies #[trigger] n.nodes@[free[k] as int] == m.nodes@[free[k] as int] by {
        let f = free[k] as int;
        assert(free.contains(f as u32));
        assert(!m.is_live(f));
    }
    if free.len() > 0 {
        assert(n.nodes@[free[free.len() - 1] as int] == m.nodes@[free[free.len() - 1] as int]);
    }
}

#[verifier::spinoff_prover]
#[verifier::rlimit(60)]
proof fn lemma_linked_frame<B: Copy>(o: AabbTree<B>, n: AabbTree<B>, s: int, l: int, p: int, bounds: B, value: u32)
    requires
        linked_in(o, n, s, l, p, bounds, value),
    ensures
        !o.spec_leaves().contains_key(l),
        n.spec_leaves() == o.spec_leaves().insert(l, (bounds, value)),
        n.is_live(p),
        !n.is_leaf_at(p),
{
    reveal(AabbTree::wf_tree);
    let op = o.par(s).0 as int;
    if o.par(s).0 != NODE_INDEX_NONE {
        lemma_parent_of(o, s);
    }
    assert(n.spec_leaves() =~= o.spec_leaves().insert(l, (bounds, value))) by {
        assert forall|j: int| #[trigger] n.spec_leaves().contains_key(j) == o.spec_leaves().insert(l, (bounds, value)).contains_key(j) by {
            if j != l && j != p && j != s && j != op && n.is_live(j) {
                assert(n.nodes@[j] == o.nodes@[j]);
            }
        }
        assert forall|j: int| #[trigger] n.spec_leaves().contains_key(j) implies n.spec_leaves()[j] == o.spec_leaves().insert(l, (bounds, value))[j] by {
            if j != l && j != s {
                assert(n.nodes@[j] == o.nodes@[j]);
            }
        }
    }
}

#[verifier::spinoff_prover]
#[verifier::rlimit(60)]
proof fn lemma_linked_internal<B: Copy>(o: AabbTree<B>, n: AabbTree<B>, s: int, l: int, p: int, bounds: B, value: u32)
    requires
        linked_in(o, n, s, l, p, bounds, value),
    ensures
        forall|i: int| #[trigger] n.is_live(i) && !n.is_leaf_at(i) ==> {
            &&& n.is_live(n.lc(i))
            &&& n.is_live(n.rc(i))
            &&& n.lc(i) != n.rc(i)
            &&& n.par(n.lc(i)).0 == i
            &&& n.par(n.rc(i)).0 == i
            &&& n.rank@[n.lc(i)] < n.rank@[i]
            &&& n.rank@[n.rc(i)] < n.rank@[i]
        },
{
    reveal(AabbTree::wf_tree);
    let op = o.par(s).0 as int;
    let has_op = o.par(s).0 != NODE_INDEX_NONE;
    if has_op {
        lemma_parent_of(o, s);
        lemma_internal_children(o, op);
    }
    assert forall|i: int| #[trigger] n.is_live(i) && !n.is_leaf_at(i) implies {
        &&& n.is_live(n.lc(i))
        &&& n.is_live(n.rc(i))
        &&& n.lc(i) != n.rc(i)
        &&& n.par(n.lc(i)).0 == i
        &&& n.par(n.rc(i)).0 == i
        &&& n.rank@[n.lc(i)] < n.rank@[i]
        &&& n.rank@[n.rc(i)] < n.rank@[i]
    } by {
        if i == p {
            assert(n.lc(i) == s && n.rc(i) == l);
        } else if has_op && i == op {
            let c = if o.lc(op) == s { o.rc(op) } else { o.lc(op) };
            assert(o.is_live(c) && c != s && o.par(c).0 == op);
            assert(c != op);
            assert(n.nodes@[c] == o.nodes@[c]);
        } else if i == s {
            assert(!o.is_leaf_at(s));
            lemma_internal_children(o, s);
            let a = o.lc(s);
            let b = o.rc(s);
            assert(a != op && b != op) by {
                if has_op {
                    assert(o.rank@[s] < o.rank@[op]);
                }
            }
            assert(n.nodes@[a] == o.nodes@[a]);
            assert(n.nodes@[b] == o.nodes@[b]);
        } else {
            assert(o.is_live(i));
            assert(n.nodes@[i] == o.nodes@[i]);
            assert(!o.is_leaf_at(i));
            lemma_internal_children(o, i);
            let a = o.lc(i);
            let b = o.rc(i);
            assert(a != s && b != s);
            if a != op {
                assert(n.nodes@[a] == o.nodes@[a]);
            }
            if b != op {
                assert(n.nodes@[b] == o.nodes@[b]);
            }
        }
    }
}

#[verifier::spinoff_prover]
#[verifier::rlimit(60)]
proof fn lemma_linked_parents<B: Copy>(o: AabbTree<B>, n: AabbTree<B>, s: int, l: int, p: int, bounds: B, value: u32)
    requires
        linked_in(o, n, s, l, p, bounds, value),
    ensures
        n.wf_tree(),
{
    reveal(AabbTree::wf_tree);
    lemma_linked_internal(o, n, s, l, p, bounds, value);
    let op = o.par(s).0 as int;
    let has_op = o.par(s).0 != NODE_INDEX_NONE;
    if has_op {
        lemma_parent_of(o, s);
        lemma_internal_children(o, op);
    }
    let root = n.root_index.0 as int;
    if has_op {
        let r = o.root_index.0 as int;
        assert(o.is_live(r) && o.par(r).0 == NODE_INDEX_NONE);
        assert(r != s);
        if r != op {
            assert(n.nodes@[r] == o.nodes@[r]);
        }
    }
    assert forall|j: int| #[trigger] n.is_live(j) && j != root implies {
        let q = n.par(j).0 as int;
        &&& n.par(j).0 != NODE_INDEX_NONE
        &&& n.is_live(q)
        &&& !n.is_leaf_at(q)
        &&& (n.lc(q) == j || n.rc(q) == j)
    } by {
        if j == l || j == s {
        } else if j == p {
            assert(has_op);
        } else {
            assert(o.is_live(j));
            assert(j != o.root_index.0 as int);
            lemma_parent_of(o, j);
            let q = o.par(j).0 as int;
            if j != op {
                assert(n.nodes@[j] == o.nodes@[j]);
            }
            assert(n.par(j) == o.par(j));
            if q != op && q != s {
                assert(n.nodes@[q] == o.nodes@[q]);
            }
        }
    }
}

/// The number of the first `k` ranks that are above `x`.
spec fn count_above(rk: Seq<nat>, x: nat, k: int) -> nat
    decreases k,
{
    if k <= 0 {
        0
    } else {
        count_above(rk, x, k - 1) + if rk[k - 1] > x { 1nat } else { 0nat }
    }
}

proof fn lemma_count_above_same(rk1: Seq<nat>, x1: nat, rk2: Seq<nat>, x2: nat, k: int)
    requires
        forall|j: int| 0 <= j < k ==> (rk1[j] > x1) == (rk2[j] > x2),
    ensures
        count_above(rk1, x1, k) == count_above(rk2, x2, k),
    decreases k,
{
    if k > 0 {
        lemma_count_above_same(rk1, x1, rk2, x2, k - 1);
    }
}

proof fn lemma_count_above_mono(rk: Seq<nat>, x: nat, y: nat, k: int)
    requires
        x <= y,
    ensures
        count_above(rk, y, k) <= count_above(rk, x, k),
    decreases k,
{
    if k > 0 {
        lemma_count_above_mono(rk, x, y, k - 1);
    }
}

proof fn lemma_count_above_less(rk: Seq<nat>, x: nat, y: nat, k: int, w: int)
    requires
        x < y,
        0 <= w < k,
        rk[w] > x,
        rk[w] <= y,
    ensures
        count_above(rk, y, k) < count_above(rk, x, k),
    decreases k,
{
    if w == k - 1 {
        lemma_count_above_mono(rk, x, y, k - 1);
    } else {
        lemma_count_above_less(rk, x, y, k - 1, w);
    }
}

/// The two trees differ only in the bounds and height of internal node `i`, whose height
/// stays non-zero.
spec fn refit_at<B: Copy>(o: AabbTree<B>, n: AabbTree<B>, i: int) -> bool {
    &&& o.wf()
    &&& o.is_live(i)
    &&& !o.is_leaf_at(i)
    &&& n.nodes@.len() == o.nodes@.len()
    &&& n.free_list == o.free_list
    &&& n.rank == o.rank
    &&& n.len == o.len
    &&& n.root_index == o.root_index
    &&& n.nodes_free_head == o.nodes_free_head
    &&& n.nodes@[i].height != 0
    &&& n.nodes@[i].parent_index == o.nodes@[i].parent_index
    &&& n.nodes@[i].left_or_nextfree == o.nodes@[i].left_or_nextfree
    &&& n.nodes@[i].right_or_userdata == o.nodes@[i].right_or_userdata
    &&& forall|j: int| 0 <= j < n.nodes@.len() && j != i ==> n.nodes@[j] == o.nodes@[j]
}

proof fn lemma_refit_same_shape<B: Copy>(o: AabbTree<B>, n: AabbTree<B>, i: int)
    requires
        refit_at(o, n, i),
    ensures
        forall|j: int| n.is_live(j) == o.is_live(j),
        forall|j: int| 0 <= j < n.nodes@.len() ==> n.is_leaf_at(j) == o.is_leaf_at(j) && n.lc(j) == o.lc(j)
            && n.rc(j) == o.rc(j) && n.par(j) == o.par(j),
        n.spec_leaves() == o.spec_leaves(),
{
    assert forall|j: int| n.is_live(j) == o.is_live(j) by {}
    assert forall|j: int| 0 <= j < n.nodes@.len() implies n.is_leaf_at(j) == o.is_leaf_at(j) && n.lc(j) == o.lc(j)
        && n.rc(j) == o.rc(j) && n.par(j) == o.par(j) by {
        if j != i {
            assert(n.nodes@[j] == o.nodes@[j]);
        }
    }
    assert(n.spec_leaves() =~= o.spec_leaves()) by {
        assert forall|j: int| #[trigger] n.spec_leaves().contains_key(j) implies n.spec_leaves()[j] == o.spec_leaves()[j] by {
            assert(j != i);
        }
    }
}

proof fn lemma_refit_arena<B: Copy>(o: AabbTree<B>, n: AabbTree<B>, i: int)
    requires
        refit_at(o, n, i),
    ensures
        n.wf_arena(),
{
    reveal(AabbTree::wf_arena);
    assert forall|k: int| 0 <= k < n.free_list@.len() - 1 implies n.nodes@[#[trigger] n.free_list@[k] as int].left_or_nextfree == n.free_list@[k + 1] by {
        assert(!o.is_live(n.free_list@[k] as int));
    }
    assert forall|k: int| 0 <= k < n.free_list@.len() implies n.nodes@[#[trigger] n.free_list@[k] as int].height == 0 by {
        assert(o.free_list@.contains(n.free_list@[k]));
        assert(!o.is_live(n.free_list@[k] as int));
    }
    if n.free_list@.len() > 0 {
        assert(o.free_list@.contains(n.free_list@.last())) by {
            assert(o.free_list@[o.free_list@.len() - 1] == n.free_list@.last());
        }
    }
}

#[verifier::spinoff_prover]
#[verifier::rlimit(60)]
proof fn lemma_refit_tree<B: Copy>(o: AabbTree<B>, n: AabbTree<B>, i: int)
    requires
        refit_at(o, n, i),
    ensures
        n.wf_tree(),
{
    reveal(AabbTree::wf_tree);
    lemma_refit_same_shape(o, n, i);
}

/// Setting the bounds and a non-zero height of an internal node keeps the tree consistent
/// and its leaves unchanged.
proof fn lemma_refit_frame<B: Copy>(o: AabbTree<B>, n: AabbTree<B>, i: int)
    requires
        refit_at(o, n, i),
    ensures
        n.wf(),
        n.spec_leaves() == o.spec_leaves(),
{
    lemma_refit_same_shape(o, n, i);
    lemma_refit_arena(o, n, i);
    lemma_refit_tree(o, n, i);
}

/// Every node index of a consistent arena fits in 32 bits.
proof fn lemma_arena_bound<B: Copy>(t: AabbTree<B>)
    requires
        t.wf_arena(),
    ensures
        t.nodes@.len() < FREE_LIST_END,
        t.rank@.len() == t.nodes@.len(),
        t.len as int == t.nodes@.len() - t.free_list@.len(),
{
    reveal(AabbTree::wf_arena);
}

/// The node fields after a rotation at `r` (see `apply_rotation`).
pub closed spec fn rotated<B: Copy>(o: AabbTree<B>, n: AabbTree<B>, r: int, a: int, c: int, g: int, h: int, s: bool, t: bool) -> bool {
    &&& o.wf()
    &&& o.is_live(r) && !o.is_leaf_at(r)
    &&& o.child(r, s) == a && o.child(r, !s) == c
    &&& o.is_live(c) && !o.is_leaf_at(c)
    &&& o.child(c, t) == g && o.child(c, !t) == h
    &&& n.nodes@.len() == o.nodes@.len()
    &&& n.free_list == o.free_list
    &&& n.len == o.len
    &&& n.root_index == o.root_index
    &&& n.nodes_free_head == o.nodes_free_head
    &&& n.rank@ =~= Seq::new(o.rank@.len(), |j: int| if j == c {
            2 * (if o.rank@[a] >= o.rank@[h] { o.rank@[a] } else { o.rank@[h] }) + 1
        } else {
            2 * o.rank@[j]
        })
    &&& n.child(r, s) == g && n.child(r, !s) == c
    &&& n.child(c, t) == a && n.child(c, !t) == h
    &&& n.nodes@[r].height == o.nodes@[r].height
    &&& n.nodes@[c].height == o.nodes@[c].height
    &&& n.nodes@[r].parent_index == o.nodes@[r].parent_index
    &&& n.nodes@[c].parent_index == o.nodes@[c].parent_index
    &&& n.nodes@[a].parent_index.0 == c as usize
    &&& n.nodes@[g].parent_index.0 == r as usize
    &&& (forall|j: int| 0 <= j < n.nodes@.len() && j != r && j != c ==> (#[trigger] n.nodes@[j]).height == o.nodes@[j].height
        && n.nodes@[j].left_or_nextfree == o.nodes@[j].left_or_nextfree
        && n.nodes@[j].right_or_userdata == o.nodes@[j].right_or_userdata
        && n.nodes@[j].bounds == o.nodes@[j].bounds)
    &&& (forall|j: int| 0 <= j < n.nodes@.len() && j != a && j != g ==> (#[trigger] n.nodes@[j]).parent_index == o.nodes@[j].parent_index)
}

proof fn lemma_rotation_frame<B: Copy>(o: AabbTree<B>, n: AabbTree<B>, r: int, a: int, c: int, g: int, h: int, s: bool, t: bool)
    requires
        rotated(o, n, r, a, c, g, h, s, t),
    ensures
        forall|j: int| n.is_live(j) <==> o.is_live(j),
        o.rank@.len() == o.nodes@.len(),
        o.rank@[a] < o.rank@[r] && o.rank@[c] < o.rank@[r] && o.rank@[g] < o.rank@[c] && o.rank@[h] < o.rank@[c],
        o.is_live(a) && o.is_live(c) && o.is_live(g) && o.is_live(h),
        o.par(a).0 == r && o.par(c).0 == r && o.par(g).0 == c && o.par(h).0 == c,
        a != c && g != h && a != r && c != r && g != r && g != c && a != g && a != h && h != r,
        n.spec_leaves() == o.spec_leaves(),
{
    reveal(AabbTree::wf_tree);
    reveal(AabbTree::wf_arena);
    assert(o.is_live(r) && !o.is_leaf_at(r));
    assert(o.is_live(c) && !o.is_leaf_at(c));
    assert(n.spec_leaves() =~= o.spec_leaves()) by {
        assert forall|j: int| n.is_live(j) && n.is_leaf_at(j) <==> o.is_live(j) && o.is_leaf_at(j) by {}
        assert forall|j: int| #[trigger] n.spec_leaves().contains_key(j) implies n.spec_leaves()[j] == o.spec_leaves()[j] by {
            assert(j != r && j != c);
        }
    }
}

proof fn lemma_rotation_arena<B: Copy>(o: AabbTree<B>, n: AabbTree<B>, r: int, a: int, c: int, g: int, h: int, s: bool, t: bool)
    requires
        rotated(o, n, r, a, c, g, h, s, t),
    ensures
        n.wf_arena(),
{
    reveal(AabbTree::wf_arena);
    lemma_rotation_frame(o, n, r, a, c, g, h, s, t);
    assert forall|k: int| 0 <= k < n.free_list@.len() - 1 implies n.nodes@[#[trigger] n.free_list@[k] as int].left_or_nextfree == n.free_list@[k + 1] by {
        let f = n.free_list@[k] as int;
        assert(o.nodes@[o.free_list@[k] as int].left_or_nextfree == o.free_list@[k + 1]);
        assert(!o.is_live(f));
    }
    assert forall|k: int| 0 <= k < n.free_list@.len() implies n.nodes@[#[trigger] n.free_list@[k] as int].height == 0 by {
        let f = n.free_list@[k] as int;
        assert(o.free_list@.contains(f as u32));
        assert(!o.is_live(f));
    }
    if n.free_list@.len() > 0 {
        let f = n.free_list@.last() as int;
        assert(o.free_list@.contains(f as u32)) by {
            assert(o.free_list@[o.free_list@.len() - 1] == f as u32);
        }
    }
}

#[verifier::rlimit(40)]
proof fn lemma_rotation_internal<B: Copy>(o: AabbTree<B>, n: AabbTree<B>, r: int, a: int, c: int, g: int, h: int, s: bool, t: bool)
    requires
        rotated(o, n, r, a, c, g, h, s, t),
    ensures
        forall|i: int| #[trigger] n.is_live(i) && !n.is_leaf_at(i) ==> {
            &&& n.is_live(n.lc(i))
            &&& n.is_live(n.rc(i))
            &&& n.lc(i) != n.rc(i)
            &&& n.par(n.lc(i)).0 == i
            &&& n.par(n.rc(i)).0 == i
            &&& n.rank@[n.lc(i)] < n.rank@[i]
            &&& n.rank@[n.rc(i)] < n.rank@[i]
        },
{
    reveal(AabbTree::wf_tree);
    lemma_rotation_frame(o, n, r, a, c, g, h, s, t);
    assert(o.rank@[a] < o.rank@[r] && o.rank@[c] < o.rank@[r] && o.rank@[g] < o.rank@[c] && o.rank@[h] < o.rank@[c]);
    assert forall|i: int| #[trigger] n.is_live(i) && !n.is_leaf_at(i) implies {
        &&& n.is_live(n.lc(i))
        &&& n.is_live(n.rc(i))
        &&& n.lc(i) != n.rc(i)
        &&& n.par(n.lc(i)).0 == i
        &&& n.par(n.rc(i)).0 == i
        &&& n.rank@[n.lc(i)] < n.rank@[i]
        &&& n.rank@[n.rc(i)] < n.rank@[i]
    } by {
        assert(o.is_live(i));
        if i == r {
            if s {
                assert(n.lc(i) == g && n.rc(i) == c);
            } else {
                assert(n.rc(i) == g && n.lc(i) == c);
            }
        } else if i == c {
            if t {
                assert(n.lc(i) == a && n.rc(i) == h);
            } else {
                assert(n.rc(i) == a && n.lc(i) == h);
            }
        } else {
            assert(!o.is_leaf_at(i));
            assert(o.lc(i) != a && o.rc(i) != a);
            assert(o.lc(i) != g && o.rc(i) != g);
            assert(o.lc(i) != c && o.rc(i) != c);
            assert(n.lc(i) == o.lc(i) && n.rc(i) == o.rc(i));
            assert(n.par(o.lc(i)) == o.par(o.lc(i)));
            assert(n.par(o.rc(i)) == o.par(o.rc(i)));
        }
    }
}

#[verifier::rlimit(40)]
proof fn lemma_rotation_parents<B: Copy>(o: AabbTree<B>, n: AabbTree<B>, r: int, a: int, c: int, g: int, h: int, s: bool, t: bool)
    requires
        rotated(o, n, r, a, c, g, h, s, t),
    ensures
        n.wf_tree(),
{
    reveal(AabbTree::wf_tree);
    lemma_rotation_frame(o, n, r, a, c, g, h, s, t);
    lemma_rotation_internal(o, n, r, a, c, g, h, s, t);
    let root = n.root_index.0 as int;
    assert forall|i: int| #[trigger] n.is_live(i) && i != root implies {
        let p = n.par(i).0 as int;
        &&& n.par(i).0 != NODE_INDEX_NONE
        &&& n.is_live(p)
        &&& !n.is_leaf_at(p)
        &&& (n.lc(p) == i || n.rc(p) == i)
    } by {
        assert(o.is_live(i));
        if i == a {
            assert(n.child(c, t) == a);
        } else if i == g {
            assert(n.child(r, s) == g);
        } else {
            let p = o.par(i).0 as int;
            assert(n.par(i) == o.par(i));
            assert(o.lc(p) == i || o.rc(p) == i);
            if p == r {
                assert(i == c);
                assert(n.child(r, !s) == c);
            } else if p == c {
                assert(i == h);
                assert(n.child(c, !t) == h);
            } else {
                assert(n.lc(p) == o.lc(p) && n.rc(p) == o.rc(p));
                assert(n.nodes@[p].height == o.nodes@[p].height);
            }
        }
    }
    if n.root_index.0 != NODE_INDEX_NONE {
        assert(o.is_live(root));
        assert(root != a && root != g);
        assert(n.par(root) == o.par(root));
    }
}

/// The children of an internal node in use are distinct nodes in use that point back at it
/// and rank below it.
proof fn lemma_internal_children<B: Copy>(t: AabbTree<B>, i: int)
    requires
        t.wf(),
        t.is_live(i),
        !t.is_leaf_at(i),
    ensures
        t.is_live(t.lc(i)),
        t.is_live(t.rc(i)),
        t.lc(i) != t.rc(i),
        t.par(t.lc(i)).0 == i,
        t.par(t.rc(i)).0 == i,
        t.rank@[t.lc(i)] < t.rank@[i],
        t.rank@[t.rc(i)] < t.rank@[i],
        t.lc(i) != i && t.rc(i) != i,
{
    reveal(AabbTree::wf_tree);
}

/// A node in use other than the root is a child of an internal node in use.
proof fn lemma_parent_of<B: Copy>(t: AabbTree<B>, i: int)
    requires
        t.wf(),
        t.is_live(i),
        i != t.root_index.0 as int,
    ensures
        t.par(i).0 != NODE_INDEX_NONE,
        t.is_live(t.par(i).0 as int),
        !t.is_leaf_at(t.par(i).0 as int),
        t.lc(t.par(i).0 as int) == i || t.rc(t.par(i).0 as int) == i,
{
    reveal(AabbTree::wf_tree);
}

proof fn lemma_index_set_len(n: nat)
    requires
        n < u32::MAX,
    ensures
        Set::new(|j: u32| (j as int) < n).finite(),
        Set::new(|j: u32| (j as int) < n).len() == n,
    decreases n,
{
    let s = Set::new(|j: u32| (j as int) < n);
    if n == 0 {
        assert(s =~= Set::empty());
    } else {
        lemma_index_set_len((n - 1) as nat);
        let t = Set::new(|j: u32| (j as int) < n - 1);
        assert(s =~= t.insert((n - 1) as u32));
    }
}


/// The number of parent links from node `i` up to `root`, following at most `fuel` links
/// through nodes of the arena; `None` when the root is not reached that way.
pub open spec fn links_to_root<B>(nodes: Seq<Node<B>>, root: int, i: int, fuel: nat) -> Option<nat>
    decreases fuel,
{
    if i == root {
        Some(0)
    } else if fuel == 0 {
        None
    } else {
        let p = nodes[i].parent_index.0;
        if p == NODE_INDEX_NONE || p >= nodes.len() {
            None
        } else {
            match links_to_root(nodes, root, p as int, (fuel - 1) as nat) {
                Some(d) => Some(d + 1),
                None => None,
            }
        }
    }
}

/// The nodes, all of them in use, form one binary tree with its root at `root`: the root
/// has no parent, every internal node (height above 0) has two distinct children in the
/// arena that point back at it, every other node is a child of its parent, and every node
/// reaches the root through its parents.
pub open spec fn is_tree_arena<B>(nodes: Seq<Node<B>>, root: NodeIndex) -> bool {
    let n = nodes.len();
    &&& n < FREE_LIST_END
    &&& (root.0 == NODE_INDEX_NONE <==> n == 0)
    &&& (root.0 != NODE_INDEX_NONE ==> root.0 < n && nodes[root.0 as int].parent_index.0 == NODE_INDEX_NONE)
    &&& forall|i: int| 0 <= i < n && (#[trigger] nodes[i]).height != 0 ==> {
        let l = nodes[i].left_or_nextfree as int;
        let r = nodes[i].right_or_userdata as int;
        &&& l < n && r < n && l != r
        &&& nodes[l].parent_index.0 == i
        &&& nodes[r].parent_index.0 == i
    }
    &&& forall|i: int| 0 <= i < n && i != root.0 as int ==> {
        let p = (#[trigger] nodes[i]).parent_index.0;
        &&& p != NODE_INDEX_NONE && p < n
        &&& nodes[p as int].height != 0
        &&& (nodes[p as int].left_or_nextfree == i || nodes[p as int].right_or_userdata == i)
    }
    &&& forall|i: int| 0 <= i < n ==> (#[trigger] links_to_root(nodes, root.0 as int, i, n)) is Some
}

proof fn lemma_links_bound<B>(nodes: Seq<Node<B>>, root: int, i: int, fuel: nat)
    ensures
        links_to_root(nodes, root, i, fuel) matches Some(d) ==> d <= fuel,
    decreases fuel,
{
    if i != root && fuel > 0 {
        let p = nodes[i].parent_index.0;
        if !(p == NODE_INDEX_NONE || p >= nodes.len()) {
            lemma_links_bound(nodes, root, p as int, (fuel - 1) as nat);
        }
    }
}

proof fn lemma_links_more_fuel<B>(nodes: Seq<Node<B>>, root: int, i: int, fuel: nat, more: nat)
    requires
        fuel <= more,
        links_to_root(nodes, root, i, fuel) is Some,
    ensures
        links_to_root(nodes, root, i, more) == links_to_root(nodes, root, i, fuel),
    decreases fuel,
{
    if i != root {
        let p = nodes[i].parent_index.0;
        lemma_links_more_fuel(nodes, root, p as int, (fuel - 1) as nat, (more - 1) as nat);
    }
}

impl<B: Copy> AabbTree<B> {
    /// A tree made of the given nodes, all in use, with its root at `root`; `None` unless
    /// they form one binary tree (`is_tree_arena`). The boxes and heights are taken as
    /// they are: `validate` checks them.
    pub fn from_nodes(nodes: Vec<Node<B>>, root: NodeIndex) -> (r: Option<Self>)
        ensures
            r is Some <==> is_tree_arena(nodes@, root),
            r matches Some(t) ==> {
                &&& t.wf()
                &&& t.spec_nodes() == nodes@
                &&& t.spec_root() == root
                &&& t.spec_free() == Seq::<u32>::empty()
                &&& t.spec_len() == nodes@.len()
                &&& t.spec_leaves() == Map::new(
                    |i: int| 0 <= i < nodes@.len() && nodes@[i].height == 0,
                    |i: int| (nodes@[i].bounds, nodes@[i].right_or_userdata),
                )
            },
    {
        let n = nodes.len();
        if n >= FREE_LIST_END as usize {
            return None;
        }
        if (root.0 == NODE_INDEX_NONE) != (n == 0) {
            return None;
        }
        if root.0 != NODE_INDEX_NONE {
            if root.0 >= n || nodes[root.0].parent_index.0 != NODE_INDEX_NONE {
                return None;
            }
        }
        let ghost nv = nodes@;
        let ghost rt = root.0 as int;
        let mut i: usize = 0;
        while i < n
            invariant
                n == nv.len(),
                nodes@ == nv,
                rt == root.0 as int,
                i <= n,
                forall|k: int| 0 <= k < i && (#[trigger] nv[k]).height != 0 ==> {
                    let l = nv[k].left_or_nextfree as int;
                    let r = nv[k].right_or_userdata as int;
                    &&& l < n && r < n && l != r
                    &&& nv[l].parent_index.0 == k
                    &&& nv[r].parent_index.0 == k
                },
                forall|k: int| 0 <= k < i && k != rt ==> {
                    let p = (#[trigger] nv[k]).parent_index.0;
                    &&& p != NODE_INDEX_NONE && p < n
                    &&& nv[p as int].height != 0
                    &&& (nv[p as int].left_or_nextfree == k || nv[p as int].right_or_userdata == k)
                },
                forall|k: int| 0 <= k < i ==> (#[trigger] links_to_root(nv, rt, k, n as nat)) is Some,
            decreases n - i,
        {
            let node = &nodes[i];
            if node.height != 0 {
                let l = node.left_or_nextfree as usize;
                let r = node.right_or_userdata as usize;
                if l >= n || r >= n || l == r || nodes[l].parent_index.0 != i || nodes[r].parent_index.0 != i {
                    return None;
                }
            }
            if i != root.0 {
                let p = node.parent_index.0;
                if p == NODE_INDEX_NONE || p >= n {
                    return None;
                }
                let pn = &nodes[p];
                if pn.height == 0 || (pn.left_or_nextfree as usize != i && pn.right_or_userdata as usize != i) {
                    return None;
                }
            }
            let mut j: usize = i;
            let mut steps: usize = 0;
            while j != root.0
                invariant
                    n == nv.len(),
                    nodes@ == nv,
                    rt == root.0 as int,
                    i < n,
                    j < n,
                    steps <= n,
                    (links_to_root(nv, rt, i as int, n as nat) is Some) == (links_to_root(nv, rt, j as int, (n - steps) as nat) is Some),
                decreases n - steps,
            {
                if steps == n {
                    return None;
                }
                let p = nodes[j].parent_index.0;
                if p == NODE_INDEX_NONE || p >= n {
                    return None;
                }
                j = p;
                steps = steps + 1;
            }
            i = i + 1;
        }
        let ghost rank = Seq::new(n as nat, |k: int| (n - links_to_root(nv, rt, k, n as nat)->0) as nat);
        let len = n as u32;
        let t = AabbTree {
            nodes,
            nodes_free_head: NodeIndex::none(),
            len,
            root_index: root,
            free_list: Ghost(Seq::empty()),
            rank: Ghost(rank),
        };
        proof {
            assert forall|k: int| #[trigger] t.is_live(k) <==> 0 <= k < n by {}
            assert forall|k: int| 0 <= k < n && nv[k].height != 0 implies {
                &&& t.rank@[nv[k].left_or_nextfree as int] < t.rank@[k]
                &&& t.rank@[nv[k].right_or_userdata as int] < t.rank@[k]
            } by {
                assert(nv[k].height != 0);
                let l = nv[k].left_or_nextfree as int;
                let r = nv[k].right_or_userdata as int;
                assert(links_to_root(nv, rt, l, n as nat) is Some);
                assert(links_to_root(nv, rt, r, n as nat) is Some);
                assert(links_to_root(nv, rt, k, n as nat) is Some);
                lemma_links_bound(nv, rt, l, n as nat);
                lemma_links_bound(nv, rt, r, n as nat);
                lemma_links_bound(nv, rt, k, n as nat);
                lemma_links_more_fuel(nv, rt, k, (n - 1) as nat, n as nat);
            }
            reveal(AabbTree::wf_arena);
            reveal(AabbTree::wf_tree);
            assert(t.spec_leaves() =~= Map::new(
                |i: int| 0 <= i < nv.len() && nv[i].height == 0,
                |i: int| (nv[i].bounds, nv[i].right_or_userdata),
            ));
        }
        Some(t)
    }
}


impl<B: AabbBounds> AabbTree<B> {
    /// Rotates the subtree at `rotate_root_index`: swaps a child with a grandchild on the
    /// other side when that lowers the summed surface area of the children, and refits the
    /// box of the child that took the grandchild's place. The leaves, the root and the
    /// nodes in use stay as they were.
    pub fn rotate(&mut self, rotate_root_index: u32)
        requires
            old(self).wf(),
            old(self).is_live(rotate_root_index as int),
        ensures
            final(self).wf(),
            final(self).spec_leaves() == old(self).spec_leaves(),
            final(self).spec_len() == old(self).spec_len(),
            final(self).spec_root() == old(self).spec_root(),
            final(self).spec_free() == old(self).spec_free(),
            final(self).spec_nodes().len() == old(self).spec_nodes().len(),
            final(self).spec_nodes()[rotate_root_index as int].height == old(self).spec_nodes()[rotate_root_index as int].height,
            final(self).spec_nodes() == after_rotation(old(self).spec_nodes(), rotate_root_index as int),
            old(self).boxes_nested() ==> final(self).boxes_nested(),
            old(self).boxes_tight() ==> final(self).boxes_tight(),
    {
        let ghost o = *self;
        self.rotate_subtree(rotate_root_index);
        proof {
            if o.boxes_nested() {
                lemma_nested_but_of(o, rotate_root_index as int);
                lemma_rotation_nested(o, *self, rotate_root_index as int);
            }
            if o.boxes_tight() {
                let r = rotate_root_index as int;
                if !o.is_leaf_at(r) {
                    lemma_internal_children(o, r);
                }
                lemma_rotation_tight(o, *self, r);
                let n = *self;
                assert forall|i: int| #[trigger] n.is_live(i) && !n.is_leaf_at(i) implies n.tight_at(i) by {
                    assert(o.is_live(i) && !o.is_leaf_at(i));
                }
            }
        }
    }
}

impl<B: Copy> AabbTree<B> {
    /// The node at `index` of the arena.
    pub fn node(&self, index: u32) -> (r: &Node<B>)
        requires
            (index as int) < self.spec_nodes().len(),
        ensures
            *r == self.spec_nodes()[index as int],
    {
        &self.nodes[index as usize]
    }
}


/// The box and user value of every leaf of the subtree at `i` (searched for at most `fuel`
/// nodes deep), depth first and left before right, reached through boxes that all overlap
/// `aabb`.
pub open spec fn overlapping_in<B: AabbBounds>(nodes: Seq<Node<B>>, i: int, aabb: B, fuel: nat) -> Seq<(B, u32)>
    decreases fuel,
{
    if fuel == 0 {
        Seq::empty()
    } else {
        let n = nodes[i];
        if !n.bounds.spec_overlaps(aabb) {
            Seq::empty()
        } else if n.height == 0 {
            seq![(n.bounds, n.right_or_userdata)]
        } else {
            overlapping_in(nodes, n.left_or_nextfree as int, aabb, (fuel - 1) as nat)
                + overlapping_in(nodes, n.right_or_userdata as int, aabb, (fuel - 1) as nat)
        }
    }
}

/// The first leaf of the subtree at `i` (searched for at most `fuel` nodes deep), depth
/// first and left before right, whose box is the same as `bounds`, skipping every subtree
/// whose box does not overlap `bounds`.
pub open spec fn find_in<B: AabbBounds>(nodes: Seq<Node<B>>, i: int, bounds: B, fuel: nat) -> Option<int>
    decreases fuel,
{
    if fuel == 0 {
        None
    } else {
        let n = nodes[i];
        if !n.bounds.spec_overlaps(bounds) {
            None
        } else if n.height == 0 {
            if n.bounds.spec_same(bounds) { Some(i) } else { None }
        } else {
            match find_in(nodes, n.left_or_nextfree as int, bounds, (fuel - 1) as nat) {
                Some(k) => Some(k),
                None => find_in(nodes, n.right_or_userdata as int, bounds, (fuel - 1) as nat),
            }
        }
    }
}

/// What `validate` finds on the right-most path from `i` down to its first leaf: the
/// first node that is the root but has a parent, whose children are not valid indices,
/// whose height is not one more than the larger of its children's, whose children do not
/// point back at it, or whose box is not the same as the union of theirs. The walk ends:
/// past the height check each step goes to a lower node.
pub open spec fn validate_walk<B: AabbBounds>(nodes: Seq<Node<B>>, root: usize, i: int) -> Result<(), (ValidationError<B>, u32)>
    decreases nodes[i].height,
{
    let n = nodes[i];
    if root as int == i && n.parent_index.0 != NODE_INDEX_NONE {
        Err((ValidationError::NodeIsRootButHasParent { parent_index: n.parent_index.0 as u32 }, i as u32))
    } else if n.height == 0 {
        Ok(())
    } else if n.left_or_nextfree >= nodes.len() {
        Err((ValidationError::LeftChildHasInvalidIndex { left_index: n.left_or_nextfree }, i as u32))
    } else if n.right_or_userdata >= nodes.len() {
        Err((ValidationError::RightChildHasInvalidIndex { right_index: n.right_or_userdata }, i as u32))
    } else {
        let l = nodes[n.left_or_nextfree as int];
        let r = nodes[n.right_or_userdata as int];
        let larger = if l.height >= r.height { l.height } else { r.height };
        let children_bounds = l.bounds.spec_union(r.bounds);
        if n.height as int != 1 + larger {
            Err((ValidationError::NodeHeightIsNotOneMoreThanChildren {
                height: n.height,
                left_height: l.height,
                right_height: r.height,
            }, i as u32))
        } else if l.parent_index.0 as int != i {
            Err((ValidationError::LeftChildMisparented { left_parent_index: l.parent_index }, i as u32))
        } else if r.parent_index.0 as int != i {
            Err((ValidationError::RightChildMisparented { right_parent_index: r.parent_index }, i as u32))
        } else if !n.bounds.spec_same(children_bounds) {
            Err((ValidationError::BoundsDontUnionChildren { bounds: n.bounds, children_bounds }, i as u32))
        } else {
            validate_walk(nodes, root, n.right_or_userdata as int)
        }
    }
}

impl<B: AabbBounds> AabbTree<B> {
    /// The leaves reached by `iter_overlapping(aabb)`, in the order it lists them.
    pub open spec fn spec_overlapping(&self, aabb: B) -> Seq<(B, u32)> {
        if self.spec_root().0 == NODE_INDEX_NONE {
            Seq::empty()
        } else {
            overlapping_in(self.spec_nodes(), self.spec_root().0 as int, aabb, self.spec_nodes().len())
        }
    }

    /// The leaf that `contains` and `remove` find for `bounds`.
    pub open spec fn spec_find(&self, bounds: B) -> Option<int> {
        if self.spec_root().0 == NODE_INDEX_NONE {
            None
        } else {
            find_in(self.spec_nodes(), self.spec_root().0 as int, bounds, self.spec_nodes().len())
        }
    }
}

/// A subtree holds at least its root and at most the nodes in use.
proof fn lemma_subtree_len<B: Copy>(t: AabbTree<B>, i: int)
    requires
        t.wf(),
        t.is_live(i),
    ensures
        1 <= subtree(t, i).len() <= t.nodes@.len(),
{
    lemma_subtree(t, i);
    let st = subtree(t, i);
    assert(st.remove(i).len() + 1 == st.len());
    lemma_live_set_len(t);
    let live = Set::new(|j: int| t.is_live(j));
    assert(st.subset_of(live));
    vstd::set_lib::lemma_len_subset(st, live);
    reveal(AabbTree::wf_arena);
}

proof fn lemma_overlapping_fuel<B: AabbBounds>(t: AabbTree<B>, i: int, aabb: B, f: nat)
    requires
        t.wf(),
        t.is_live(i),
        f >= subtree(t, i).len(),
    ensures
        overlapping_in(t.nodes@, i, aabb, f) == overlapping_in(t.nodes@, i, aabb, subtree(t, i).len()),
    decreases t.rank@[i],
{
    lemma_subtree_len(t, i);
    if !t.is_leaf_at(i) {
        lemma_internal_children(t, i);
        lemma_subtree_split(t, i);
        let l = t.lc(i);
        let r = t.rc(i);
        lemma_overlapping_fuel(t, l, aabb, (f - 1) as nat);
        lemma_overlapping_fuel(t, l, aabb, (subtree(t, i).len() - 1) as nat);
        lemma_overlapping_fuel(t, r, aabb, (f - 1) as nat);
        lemma_overlapping_fuel(t, r, aabb, (subtree(t, i).len() - 1) as nat);
    }
}

proof fn lemma_find_fuel<B: AabbBounds>(t: AabbTree<B>, i: int, bounds: B, f: nat)
    requires
        t.wf(),
        t.is_live(i),
        f >= subtree(t, i).len(),
    ensures
        find_in(t.nodes@, i, bounds, f) == find_in(t.nodes@, i, bounds, subtree(t, i).len()),
        find_in(t.nodes@, i, bounds, f) matches Some(k) ==> t.is_live(k) && t.is_leaf_at(k)
            && t.nodes@[k].bounds.spec_same(bounds),
    decreases t.rank@[i],
{
    lemma_subtree_len(t, i);
    if !t.is_leaf_at(i) {
        lemma_internal_children(t, i);
        lemma_subtree_split(t, i);
        let l = t.lc(i);
        let r = t.rc(i);
        lemma_find_fuel(t, l, bounds, (f - 1) as nat);
        lemma_find_fuel(t, l, bounds, (subtree(t, i).len() - 1) as nat);
        lemma_find_fuel(t, r, bounds, (f - 1) as nat);
        lemma_find_fuel(t, r, bounds, (subtree(t, i).len() - 1) as nat);
    }
}

impl<B: AabbBounds> AabbTree<B> {
    /// The box of internal node `i` holds the boxes of both its children.
    pub open spec fn holds_children(&self, i: int) -> bool {
        &&& self.spec_nodes()[i].bounds.spec_holds(self.spec_nodes()[self.lc(i)].bounds)
        &&& self.spec_nodes()[i].bounds.spec_holds(self.spec_nodes()[self.rc(i)].bounds)
    }

    /// The boxes are nested: the box of every internal node in use holds the boxes of its
    /// children, and so (by the laws of `AabbBounds`) every box below it.
    pub open spec fn boxes_nested(&self) -> bool {
        forall|i: int| #[trigger] self.is_live(i) && !self.is_leaf_at(i) ==> self.holds_children(i)
    }

    /// Whether `e` is the box and user value of some leaf whose box overlaps `aabb`.
    pub open spec fn holds_overlapping_leaf(&self, e: (B, u32), aabb: B) -> bool {
        exists|j: int| #[trigger] self.spec_leaves().contains_key(j) && self.spec_leaves()[j] == e && e.0.spec_overlaps(aabb)
    }

    /// Whether some leaf's box is the same as `bounds`.
    pub open spec fn has_leaf_same(&self, bounds: B) -> bool {
        exists|j: int| #[trigger] self.spec_leaves().contains_key(j) && self.spec_leaves()[j].0.spec_same(bounds)
    }
}

/// The boxes are nested except on the edges into and out of node `c`.
spec fn nested_but<B: AabbBounds>(t: AabbTree<B>, c: int) -> bool {
    forall|i: int| #[trigger] t.is_live(i) && !t.is_leaf_at(i) && i != c ==> {
        &&& t.lc(i) != c ==> t.nodes@[i].bounds.spec_holds(t.nodes@[t.lc(i)].bounds)
        &&& t.rc(i) != c ==> t.nodes@[i].bounds.spec_holds(t.nodes@[t.rc(i)].bounds)
    }
}

/// In nested boxes, a node's box holds the box of every other node of its subtree.
proof fn lemma_nested_below<B: AabbBounds>(t: AabbTree<B>, i: int, j: int)
    requires
        t.wf(),
        t.boxes_nested(),
        t.is_live(i),
        subtree(t, i).contains(j),
        j != i,
    ensures
        t.nodes@[i].bounds.spec_holds(t.nodes@[j].bounds),
    decreases t.rank@[i],
{
    if t.is_leaf_at(i) {
        assert(subtree(t, i) == set![i]);
    } else {
        lemma_internal_children(t, i);
        lemma_subtree_split(t, i);
        assert(t.holds_children(i));
        let l = t.lc(i);
        let r = t.rc(i);
        let c = if subtree(t, l).contains(j) { l } else { r };
        if j != c {
            lemma_nested_below(t, c, j);
            B::lemma_holds_transitive(t.nodes@[i].bounds, t.nodes@[c].bounds, t.nodes@[j].bounds);
        }
    }
}

/// In nested boxes, the search finds a leaf whenever some leaf of the subtree has a box the
/// same as `bounds` and `bounds` overlaps itself.
proof fn lemma_find_complete<B: AabbBounds>(t: AabbTree<B>, i: int, bounds: B, j: int)
    requires
        t.wf(),
        t.boxes_nested(),
        t.is_live(i),
        subtree(t, i).contains(j),
        t.is_leaf_at(j),
        t.nodes@[j].bounds.spec_same(bounds),
        bounds.spec_overlaps(bounds),
    ensures
        find_in(t.nodes@, i, bounds, subtree(t, i).len()) is Some,
    decreases t.rank@[i],
{
    lemma_subtree_len(t, i);
    lemma_subtree(t, i);
    B::lemma_same_overlaps(t.nodes@[j].bounds, bounds);
    if t.is_leaf_at(i) {
        assert(subtree(t, i) == set![i]);
        assert(j == i);
    } else {
        lemma_internal_children(t, i);
        lemma_subtree_split(t, i);
        let l = t.lc(i);
        let r = t.rc(i);
        assert(j != i);
        lemma_nested_below(t, i, j);
        B::lemma_holds_overlaps(t.nodes@[i].bounds, t.nodes@[j].bounds, bounds);
        let f = (subtree(t, i).len() - 1) as nat;
        lemma_find_fuel(t, l, bounds, f);
        lemma_find_fuel(t, r, bounds, f);
        if subtree(t, l).contains(j) {
            lemma_find_complete(t, l, bounds, j);
        } else {
            lemma_find_complete(t, r, bounds, j);
        }
    }
}

/// Every entry the search for `aabb` lists is the box and user value of a leaf of the
/// subtree whose box overlaps `aabb`; in nested boxes, every such leaf is listed.
proof fn lemma_overlapping_exact<B: AabbBounds>(t: AabbTree<B>, i: int, aabb: B)
    requires
        t.wf(),
        t.is_live(i),
    ensures
        forall|k: int| #![trigger overlapping_in(t.nodes@, i, aabb, subtree(t, i).len())[k]]
            0 <= k < overlapping_in(t.nodes@, i, aabb, subtree(t, i).len()).len() ==> exists|j: int|
            #[trigger] subtree(t, i).contains(j) && t.is_leaf_at(j) && t.nodes@[j].bounds.spec_overlaps(aabb)
            && overlapping_in(t.nodes@, i, aabb, subtree(t, i).len())[k] == (t.nodes@[j].bounds, t.nodes@[j].right_or_userdata),
        t.boxes_nested() ==> forall|j: int| #[trigger] subtree(t, i).contains(j) && t.is_leaf_at(j) && t.nodes@[j].bounds.spec_overlaps(aabb)
            ==> overlapping_in(t.nodes@, i, aabb, subtree(t, i).len()).contains((t.nodes@[j].bounds, t.nodes@[j].right_or_userdata)),
    decreases t.rank@[i],
{
    lemma_subtree_len(t, i);
    lemma_subtree(t, i);
    let res = overlapping_in(t.nodes@, i, aabb, subtree(t, i).len());
    if t.is_leaf_at(i) {
        assert(subtree(t, i) == set![i]);
        assert forall|k: int| #![trigger res[k]] 0 <= k < res.len() implies exists|j: int|
            #[trigger] subtree(t, i).contains(j) && t.is_leaf_at(j) && t.nodes@[j].bounds.spec_overlaps(aabb)
            && res[k] == (t.nodes@[j].bounds, t.nodes@[j].right_or_userdata) by {
            assert(subtree(t, i).contains(i));
        }
        if t.boxes_nested() {
            assert forall|j: int| #[trigger] subtree(t, i).contains(j) && t.is_leaf_at(j) && t.nodes@[j].bounds.spec_overlaps(aabb)
                implies res.contains((t.nodes@[j].bounds, t.nodes@[j].right_or_userdata)) by {
                assert(j == i);
                assert(res[0] == (t.nodes@[j].bounds, t.nodes@[j].right_or_userdata));
            }
        }
    } else {
        lemma_internal_children(t, i);
        lemma_subtree_split(t, i);
        let l = t.lc(i);
        let r = t.rc(i);
        let f = (subtree(t, i).len() - 1) as nat;
        lemma_overlapping_fuel(t, l, aabb, f);
        lemma_overlapping_fuel(t, r, aabb, f);
        lemma_overlapping_exact(t, l, aabb);
        lemma_overlapping_exact(t, r, aabb);
        let rl = overlapping_in(t.nodes@, l, aabb, subtree(t, l).len());
        let rr = overlapping_in(t.nodes@, r, aabb, subtree(t, r).len());
        if t.nodes@[i].bounds.spec_overlaps(aabb) {
            assert(res == rl + rr);
            assert forall|k: int| #![trigger res[k]] 0 <= k < res.len() implies exists|j: int|
                #[trigger] subtree(t, i).contains(j) && t.is_leaf_at(j) && t.nodes@[j].bounds.spec_overlaps(aabb)
                && res[k] == (t.nodes@[j].bounds, t.nodes@[j].right_or_userdata) by {
                if k < rl.len() {
                    assert(res[k] == rl[k]);
                    let j = choose|j: int| #[trigger] subtree(t, l).contains(j) && t.is_leaf_at(j) && t.nodes@[j].bounds.spec_overlaps(aabb)
                        && rl[k] == (t.nodes@[j].bounds, t.nodes@[j].right_or_userdata);
                    assert(subtree(t, i).contains(j));
                } else {
                    assert(res[k] == rr[k - rl.len()]);
                    let j = choose|j: int| #[trigger] subtree(t, r).contains(j) && t.is_leaf_at(j) && t.nodes@[j].bounds.spec_overlaps(aabb)
                        && rr[k - rl.len()] == (t.nodes@[j].bounds, t.nodes@[j].right_or_userdata);
                    assert(subtree(t, i).contains(j));
                }
            }
            if t.boxes_nested() {
                assert forall|j: int| #[trigger] subtree(t, i).contains(j) && t.is_leaf_at(j) && t.nodes@[j].bounds.spec_overlaps(aabb)
                    implies res.contains((t.nodes@[j].bounds, t.nodes@[j].right_or_userdata)) by {
                    let e = (t.nodes@[j].bounds, t.nodes@[j].right_or_userdata);
                    if subtree(t, l).contains(j) {
                        let k = choose|k: int| 0 <= k < rl.len() && rl[k] == e;
                        assert(res[k] == e);
                    } else {
                        let k = choose|k: int| 0 <= k < rr.len() && rr[k] == e;
                        assert(res[k + rl.len()] == e);
                    }
                }
            }
        } else {
            assert(res.len() == 0);
            if t.boxes_nested() {
                assert forall|j: int| #[trigger] subtree(t, i).contains(j) && t.is_leaf_at(j) && t.nodes@[j].bounds.spec_overlaps(aabb)
                    implies res.contains((t.nodes@[j].bounds, t.nodes@[j].right_or_userdata)) by {
                    lemma_nested_below(t, i, j);
                    B::lemma_holds_overlaps(t.nodes@[i].bounds, t.nodes@[j].bounds, aabb);
                }
            }
        }
    }
}


/// What the search for a box finds: only a leaf whose box is the same, and, in nested boxes
/// and for a box that overlaps itself, one whenever some leaf has the same box.
proof fn lemma_spec_find<B: AabbBounds>(t: AabbTree<B>, bounds: B)
    requires
        t.wf(),
    ensures
        t.spec_find(bounds) matches Some(k) ==> t.spec_leaves().contains_key(k) && t.spec_leaves()[k].0.spec_same(bounds),
        t.spec_find(bounds) is Some ==> t.has_leaf_same(bounds),
        t.boxes_nested() && bounds.spec_overlaps(bounds) ==> (t.spec_find(bounds) is Some <==> t.has_leaf_same(bounds)),
{
    reveal(AabbTree::wf_tree);
    if t.root_index.0 != NODE_INDEX_NONE {
        let root = t.root_index.0 as int;
        lemma_arena_bound(t);
        lemma_subtree_len(t, root);
        lemma_find_fuel(t, root, bounds, t.nodes@.len());
        if let Some(k) = t.spec_find(bounds) {
            assert(t.spec_leaves().contains_key(k));
        }
        if t.boxes_nested() && bounds.spec_overlaps(bounds) && t.has_leaf_same(bounds) {
            let j = choose|j: int| #[trigger] t.spec_leaves().contains_key(j) && t.spec_leaves()[j].0.spec_same(bounds);
            lemma_reach(t, j);
            lemma_find_complete(t, root, bounds, j);
        }
    } else {
        if t.has_leaf_same(bounds) {
            let j = choose|j: int| #[trigger] t.spec_leaves().contains_key(j) && t.spec_leaves()[j].0.spec_same(bounds);
            lemma_reach(t, j);
        }
    }
}

/// What the search for overlaps lists: only the entries of leaves whose box overlaps
/// `aabb`, and, in nested boxes, the entry of every such leaf.
proof fn lemma_spec_overlapping<B: AabbBounds>(t: AabbTree<B>, aabb: B)
    requires
        t.wf(),
    ensures
        forall|k: int| 0 <= k < t.spec_overlapping(aabb).len() ==> t.holds_overlapping_leaf(#[trigger] t.spec_overlapping(aabb)[k], aabb),
        t.boxes_nested() ==> forall|j: int| #[trigger] t.spec_leaves().contains_key(j) && t.spec_leaves()[j].0.spec_overlaps(aabb)
            ==> t.spec_overlapping(aabb).contains(t.spec_leaves()[j]),
{
    reveal(AabbTree::wf_tree);
    if t.root_index.0 != NODE_INDEX_NONE {
        let root = t.root_index.0 as int;
        lemma_arena_bound(t);
        lemma_subtree_len(t, root);
        lemma_overlapping_fuel(t, root, aabb, t.nodes@.len());
        lemma_overlapping_exact(t, root, aabb);
        lemma_subtree(t, root);
        let res = t.spec_overlapping(aabb);
        assert forall|k: int| 0 <= k < res.len() implies t.holds_overlapping_leaf(#[trigger] res[k], aabb) by {
            let j = choose|j: int| #[trigger] subtree(t, root).contains(j) && t.is_leaf_at(j) && t.nodes@[j].bounds.spec_overlaps(aabb)
                && res[k] == (t.nodes@[j].bounds, t.nodes@[j].right_or_userdata);
            assert(t.spec_leaves().contains_key(j));
        }
        if t.boxes_nested() {
            assert forall|j: int| #[trigger] t.spec_leaves().contains_key(j) && t.spec_leaves()[j].0.spec_overlaps(aabb)
                implies res.contains(t.spec_leaves()[j]) by {
                lemma_reach(t, j);
            }
        }
    } else {
        if t.boxes_nested() {
            assert forall|j: int| #[trigger] t.spec_leaves().contains_key(j) && t.spec_leaves()[j].0.spec_overlaps(aabb)
                implies t.spec_overlapping(aabb).contains(t.spec_leaves()[j]) by {
                lemma_reach(t, j);
            }
        }
    }
}


/// A chosen rotation at `r` lifts a grandchild out of a child that is internal, and gives
/// that child the union of the two boxes it then holds.
proof fn lemma_choice_shape<B: AabbBounds>(nodes: Seq<Node<B>>, r: int)
    ensures
        rotation_choice(nodes, r) matches Some(m) ==> {
            let rn = nodes[r];
            let a = if m.0 { rn.left_or_nextfree } else { rn.right_or_userdata } as int;
            let c = if m.0 { rn.right_or_userdata } else { rn.left_or_nextfree } as int;
            let h = if m.1 { nodes[c].right_or_userdata } else { nodes[c].left_or_nextfree } as int;
            &&& rn.height >= 2
            &&& nodes[c].height != 0
            &&& m.2 == nodes[a].bounds.spec_union(nodes[h].bounds)
        },
{
}


/// A rotation at `r` keeps the boxes nested everywhere but on the edge into `r`, whose box
/// it leaves as it was.
#[verifier::rlimit(40)]
proof fn lemma_rotation_nested<B: AabbBounds>(o: AabbTree<B>, n: AabbTree<B>, r: int)
    requires
        o.wf(),
        o.is_live(r),
        n.nodes@ == after_rotation(o.nodes@, r),
        n.free_list == o.free_list,
        nested_but(o, r),
        !o.is_leaf_at(r) ==> o.holds_children(r),
    ensures
        forall|j: int| #[trigger] n.is_live(j) == o.is_live(j),
        forall|j: int| 0 <= j < o.nodes@.len() ==> (#[trigger] n.nodes@[j]).height == o.nodes@[j].height,
        n.nodes@[r].bounds == o.nodes@[r].bounds,
        nested_but(n, r),
        !n.is_leaf_at(r) ==> n.holds_children(r),
        o.boxes_nested() ==> n.boxes_nested(),
{
    lemma_choice_shape(o.nodes@, r);
    lemma_arena_bound(o);
    match rotation_choice(o.nodes@, r) {
        None => {
            assert forall|j: int| #[trigger] n.is_live(j) == o.is_live(j) by {}
            assert(nested_but(n, r));
            if o.boxes_nested() {
                assert forall|i: int| #[trigger] n.is_live(i) && !n.is_leaf_at(i) implies n.holds_children(i) by {
                    assert(o.holds_children(i));
                }
            }
        },
        Some(m) => {
            let s = m.0;
            let t = m.1;
            let rn = o.nodes@[r];
            let a = (if s { rn.left_or_nextfree } else { rn.right_or_userdata }) as int;
            let c = (if s { rn.right_or_userdata } else { rn.left_or_nextfree }) as int;
            let g = (if t { o.nodes@[c].left_or_nextfree } else { o.nodes@[c].right_or_userdata }) as int;
            let h = (if t { o.nodes@[c].right_or_userdata } else { o.nodes@[c].left_or_nextfree }) as int;
            lemma_internal_children(o, r);
            assert(o.is_live(c) && o.is_live(a) && a != c && c != r && a != r);
            assert(!o.is_leaf_at(c));
            lemma_internal_children(o, c);
            assert(o.is_live(g) && o.is_live(h) && g != h && g != r && h != r && g != c && h != c);
            assert(g != a && h != a) by {
                assert(o.par(g).0 == c && o.par(h).0 == c && o.par(a).0 == r);
            }
            let rb = o.nodes@[r].bounds;
            let ab = o.nodes@[a].bounds;
            let cb = o.nodes@[c].bounds;
            let gb = o.nodes@[g].bounds;
            let hb = o.nodes@[h].bounds;
            assert(o.holds_children(r));
            assert(rb.spec_holds(cb) && rb.spec_holds(ab));
            assert(cb.spec_holds(gb) && cb.spec_holds(hb));
            assert(n.nodes@[r].bounds == rb);
            assert(n.nodes@[c].bounds == ab.spec_union(hb));
            assert(n.nodes@[a].bounds == ab && n.nodes@[g].bounds == gb && n.nodes@[h].bounds == hb);
            assert(n.lc(c) == a && n.rc(c) == h || n.lc(c) == h && n.rc(c) == a);
            assert(n.lc(r) == g && n.rc(r) == c || n.lc(r) == c && n.rc(r) == g);
            assert forall|j: int| 0 <= j < o.nodes@.len() implies (#[trigger] n.nodes@[j]).height == o.nodes@[j].height by {}
            assert forall|j: int| #[trigger] n.is_live(j) == o.is_live(j) by {}
            assert forall|j: int| 0 <= j < o.nodes@.len() && j != r && j != c && j != a && j != g
                implies #[trigger] n.nodes@[j] == o.nodes@[j] by {}
            assert forall|j: int| 0 <= j < o.nodes@.len() && j != r && j != c
                implies (#[trigger] n.nodes@[j]).bounds == o.nodes@[j].bounds
                    && n.nodes@[j].left_or_nextfree == o.nodes@[j].left_or_nextfree
                    && n.nodes@[j].right_or_userdata == o.nodes@[j].right_or_userdata by {}
            B::lemma_holds_transitive(rb, cb, gb);
            B::lemma_holds_transitive(rb, cb, hb);
            B::lemma_holds_union(rb, ab, hb);
            B::lemma_union_holds(ab, hb);
            assert(n.holds_children(r));
            assert(n.holds_children(c));
            assert forall|i: int| #[trigger] n.is_live(i) && !n.is_leaf_at(i) && i != r implies {
                &&& n.lc(i) != r ==> n.nodes@[i].bounds.spec_holds(n.nodes@[n.lc(i)].bounds)
                &&& n.rc(i) != r ==> n.nodes@[i].bounds.spec_holds(n.nodes@[n.rc(i)].bounds)
            } by {
                if i != c {
                    assert(o.is_live(i) && !o.is_leaf_at(i));
                    lemma_internal_children(o, i);
                    assert(n.lc(i) == o.lc(i) && n.rc(i) == o.rc(i));
                    assert(o.lc(i) != c && o.rc(i) != c) by {
                        assert(o.par(c).0 == r);
                    }
                }
            }
            if o.boxes_nested() {
                assert forall|i: int| #[trigger] n.is_live(i) && !n.is_leaf_at(i) implies n.holds_children(i) by {
                    if i != r && i != c {
                        assert(o.is_live(i) && !o.is_leaf_at(i));
                        assert(o.holds_children(i));
                        lemma_internal_children(o, i);
                        assert(n.lc(i) == o.lc(i) && n.rc(i) == o.rc(i));
                        assert(o.lc(i) != c && o.rc(i) != c) by {
                            assert(o.par(c).0 == r);
                        }
                    }
                }
            }
        },
    }
}


proof fn lemma_nested_but_of<B: AabbBounds>(t: AabbTree<B>, c: int)
    requires
        t.boxes_nested(),
    ensures
        nested_but(t, c),
        t.is_live(c) && !t.is_leaf_at(c) ==> t.holds_children(c),
{
    assert forall|i: int| #[trigger] t.is_live(i) && !t.is_leaf_at(i) && i != c implies {
        &&& t.lc(i) != c ==> t.nodes@[i].bounds.spec_holds(t.nodes@[t.lc(i)].bounds)
        &&& t.rc(i) != c ==> t.nodes@[i].bounds.spec_holds(t.nodes@[t.rc(i)].bounds)
    } by {
        assert(t.holds_children(i));
    }
}


/// Linking a new leaf `l` and parent `p` in place of `s` keeps nested boxes nested, but for
/// the edges into and out of `p`.
#[verifier::rlimit(40)]
proof fn lemma_linked_nested<B: AabbBounds>(o: AabbTree<B>, n: AabbTree<B>, s: int, l: int, p: int, bounds: B, value: u32)
    requires
        linked_in(o, n, s, l, p, bounds, value),
        o.boxes_nested(),
    ensures
        nested_but(n, p),
{
    let op = o.par(s).0 as int;
    lemma_arena_bound(o);
    if o.par(s).0 != NODE_INDEX_NONE {
        lemma_parent_of(o, s);
        lemma_internal_children(o, op);
    }
    assert forall|k: int| #[trigger] n.is_live(k) && !n.is_leaf_at(k) && k != p implies {
        &&& n.lc(k) != p ==> n.nodes@[k].bounds.spec_holds(n.nodes@[n.lc(k)].bounds)
        &&& n.rc(k) != p ==> n.nodes@[k].bounds.spec_holds(n.nodes@[n.rc(k)].bounds)
    } by {
        assert(k != l);
        assert(o.is_live(k));
        assert(!o.is_leaf_at(k)) by {
            if k != s && k != op {
                assert(n.nodes@[k] == o.nodes@[k]);
            }
        }
        lemma_internal_children(o, k);
        assert(o.holds_children(k));
        let cl = o.lc(k);
        let cr = o.rc(k);
        if k == op && o.par(s).0 != NODE_INDEX_NONE {
            if o.lc(op) == s {
                assert(cr != s && cr != l && cr != p && cr != op);
                assert(n.nodes@[cr] == o.nodes@[cr]);
            } else {
                assert(cl != s && cl != l && cl != p && cl != op);
                assert(n.nodes@[cl] == o.nodes@[cl]);
            }
        } else {
            assert(n.nodes@[k].bounds == o.nodes@[k].bounds);
            assert(n.lc(k) == cl && n.rc(k) == cr);
            assert(cl != s && cr != s) by {
                if cl == s || cr == s {
                    assert(o.par(s).0 == k);
                }
            }
            assert(cl != l && cr != l && cl != p && cr != p);
            if cl != op {
                assert(n.nodes@[cl] == o.nodes@[cl]);
            }
            if cr != op {
                assert(n.nodes@[cr] == o.nodes@[cr]);
            }
        }
    }
}

/// Unlinking a leaf `l` and its parent `p`, the sibling `s` taking the parent's place, keeps
/// nested boxes nested.
#[verifier::rlimit(40)]
proof fn lemma_unlinked_nested<B: AabbBounds>(o: AabbTree<B>, n: AabbTree<B>, l: int, p: int, s: int)
    requires
        unlinked(o, n, l, p, s),
        o.boxes_nested(),
    ensures
        n.boxes_nested(),
{
    let g = o.par(p).0 as int;
    lemma_arena_bound(o);
    lemma_internal_children(o, p);
    assert(o.holds_children(p));
    assert(o.nodes@[p].bounds.spec_holds(o.nodes@[s].bounds));
    if o.par(p).0 != NODE_INDEX_NONE {
        lemma_parent_of(o, p);
        lemma_internal_children(o, g);
        assert(o.holds_children(g));
        assert(o.nodes@[g].bounds.spec_holds(o.nodes@[p].bounds));
        B::lemma_holds_transitive(o.nodes@[g].bounds, o.nodes@[p].bounds, o.nodes@[s].bounds);
    }
    assert forall|k: int| #[trigger] n.is_live(k) && !n.is_leaf_at(k) implies n.holds_children(k) by {
        assert(o.is_live(k) && k != l && k != p);
        assert(!o.is_leaf_at(k)) by {
            if k != s && k != g {
                assert(n.nodes@[k] == o.nodes@[k]);
            }
        }
        lemma_internal_children(o, k);
        assert(o.holds_children(k));
        let cl = o.lc(k);
        let cr = o.rc(k);
        if k == g && o.par(p).0 != NODE_INDEX_NONE {
            if o.lc(g) == p {
                assert(cr != s && cr != l && cr != p && cr != g);
                assert(n.nodes@[cr] == o.nodes@[cr]);
            } else {
                assert(cl != s && cl != l && cl != p && cl != g);
                assert(n.nodes@[cl] == o.nodes@[cl]);
            }
        } else {
            assert(n.nodes@[k].bounds == o.nodes@[k].bounds);
            assert(n.lc(k) == cl && n.rc(k) == cr);
            assert(cl != p && cr != p && cl != l && cr != l && cl != s && cr != s) by {
                if cl == p || cr == p {
                    assert(o.par(p).0 == k);
                }
                if cl == l || cr == l {
                    assert(o.par(l).0 == k);
                }
                if cl == s || cr == s {
                    assert(o.par(s).0 == k);
                }
            }
            if cl != g {
                assert(n.nodes@[cl] == o.nodes@[cl]);
            }
            if cr != g {
                assert(n.nodes@[cr] == o.nodes@[cr]);
            }
        }
    }
}


/// A tree whose only node in use is a leaf has nested boxes.
proof fn lemma_one_leaf_nested<B: AabbBounds>(t: AabbTree<B>, l: int)
    requires
        forall|j: int| t.is_live(j) ==> j == l,
        t.is_leaf_at(l),
    ensures
        t.boxes_nested(),
{
}


impl<B: Copy> AabbTree<B> {
    /// A node is in use exactly when it lies in the arena and is not on the free list; the
    /// root of a consistent, non-empty tree is in use.
    pub proof fn lemma_live(&self, i: int)
        ensures
            self.is_live(i) <==> (0 <= i < self.spec_nodes().len() && !self.spec_free().contains(i as u32)),
            self.wf() && self.spec_root().0 != NODE_INDEX_NONE ==> self.is_live(self.spec_root().0 as int),
    {
        if self.wf() {
            reveal(AabbTree::wf_tree);
        }
    }
}

impl<B: AabbBounds> AabbTree<B> {
    /// An empty tree has nested boxes, so every tree built from `new` by `insert`, `remove`,
    /// `rotate` and `repack` has them.
    pub proof fn lemma_empty_nested(&self)
        requires
            self.wf(),
            self.spec_len() == 0,
        ensures
            self.boxes_nested(),
            self.boxes_tight(),
    {
        reveal(AabbTree::wf_arena);
        lemma_no_live(*self);
    }

    /// In a tree with nested boxes, the box of every leaf that overlaps itself is found by
    /// `contains` and `remove`, and its entry is listed by `iter_overlapping` for every
    /// box it overlaps.
    pub proof fn lemma_leaf_found(&self, j: int, q: B)
        requires
            self.wf(),
            self.boxes_nested(),
            self.spec_leaves().contains_key(j),
            self.spec_leaves()[j].0.spec_overlaps(self.spec_leaves()[j].0),
        ensures
            self.spec_find(self.spec_leaves()[j].0) is Some,
            self.spec_leaves()[j].0.spec_overlaps(q) ==> self.spec_overlapping(q).contains(self.spec_leaves()[j]),
    {
        let b = self.spec_leaves()[j].0;
        B::lemma_same_reflexive(b);
        assert(self.has_leaf_same(b));
        lemma_spec_find(*self, b);
        lemma_spec_overlapping(*self, q);
    }
}


/// The area of the box of node `x` grown to hold `incoming`.
spec fn grown_area<B: AabbBounds>(t: AabbTree<B>, incoming: B, x: int) -> B::Cost {
    t.nodes@[x].bounds.spec_union(incoming).spec_area()
}

/// The growth in area of the boxes above node `x` when they are grown to hold `incoming`:
/// for each ancestor, its grown area less its area, summed from the root down.
spec fn ancestors_growth<B: AabbBounds>(t: AabbTree<B>, incoming: B, x: int) -> B::Cost
    decreases count_above(t.rank@, t.rank@[x], t.nodes@.len() as int),
    when t.wf() && t.is_live(x)
{
    let p = t.par(x).0;
    if p == NODE_INDEX_NONE {
        B::spec_cost_zero()
    } else {
        proof {
            lemma_inherited_decreases(t, x);
        }
        B::spec_cost_add(
            ancestors_growth(t, incoming, p as int),
            B::spec_cost_sub(grown_area(t, incoming, p as int), t.nodes@[p as int].bounds.spec_area()),
        )
    }
}

proof fn lemma_inherited_decreases<B: Copy>(t: AabbTree<B>, x: int)
    requires
        t.wf(),
        t.is_live(x),
        t.par(x).0 != NODE_INDEX_NONE,
    ensures
        t.is_live(t.par(x).0 as int),
        count_above(t.rank@, t.rank@[t.par(x).0 as int], t.nodes@.len() as int)
            < count_above(t.rank@, t.rank@[x], t.nodes@.len() as int),
{
    {
        reveal(AabbTree::wf_tree);
        lemma_arena_bound(t);
        assert(x != t.root_index.0 as int);
        lemma_parent_of(t, x);
        let p = t.par(x).0 as int;
        lemma_internal_children(t, p);
        lemma_count_above_less(t.rank@, t.rank@[x], t.rank@[p], t.nodes@.len() as int, p);
    }
}

/// The cost of pairing a new box `incoming` with node `x`: the area of `x`'s box grown to
/// hold it, plus the growth of the boxes above `x`.
spec fn pairing_cost<B: AabbBounds>(t: AabbTree<B>, incoming: B, x: int) -> B::Cost {
    B::spec_cost_add(grown_area(t, incoming, x), ancestors_growth(t, incoming, x))
}


proof fn lemma_growth_step<B: AabbBounds>(t: AabbTree<B>, incoming: B, x: int)
    requires
        t.wf(),
        t.is_live(x),
    ensures
        t.par(x).0 == NODE_INDEX_NONE ==> ancestors_growth(t, incoming, x) == B::spec_cost_zero(),
        t.par(x).0 != NODE_INDEX_NONE ==> ancestors_growth(t, incoming, x) == B::spec_cost_add(
            ancestors_growth(t, incoming, t.par(x).0 as int),
            B::spec_cost_sub(grown_area(t, incoming, t.par(x).0 as int), t.nodes@[t.par(x).0 as int].bounds.spec_area()),
        ),
{
    if t.par(x).0 != NODE_INDEX_NONE {
        lemma_inherited_decreases(t, x);
    }
}


/// Where the search for the best sibling of a new box stands: the node it is at, that
/// node's area, its area grown to hold the new box, the growth of the boxes above it, and
/// the best node found so far with its cost.
pub struct SiblingSearch<B: AabbBounds> {
    pub curr: u32,
    pub curr_area: B::Cost,
    pub direct: B::Cost,
    pub inherited: B::Cost,
    pub best: u32,
    pub best_cost: B::Cost,
}

/// The best so far after costing pairing `incoming` with the leaf `x` (whose grown area is
/// `direct`), given the growth `inherited` above it.
pub open spec fn consider_leaf<B: AabbBounds>(
    nodes: Seq<Node<B>>,
    x: u32,
    direct: B::Cost,
    inherited: B::Cost,
    best: (u32, B::Cost),
) -> (u32, B::Cost) {
    let cost = B::spec_cost_add(direct, inherited);
    if nodes[x as int].height == 0 && B::spec_cost_lt(cost, best.1) { (x, cost) } else { best }
}

/// The lower bound on the cost of pairing `incoming` with anything below the internal
/// node `x`, or the largest cost for a leaf.
pub open spec fn lower_bound<B: AabbBounds>(nodes: Seq<Node<B>>, x: u32, incoming: B, direct: B::Cost, inherited: B::Cost) -> B::Cost {
    let n = nodes[x as int];
    if n.height == 0 {
        B::spec_cost_max()
    } else {
        B::spec_cost_add(
            B::spec_cost_add(inherited, direct),
            B::spec_cost_min(B::spec_cost_zero(), B::spec_cost_sub(incoming.spec_area(), n.bounds.spec_area())),
        )
    }
}

/// One step of the search at the internal node `s.curr`: it costs pairing with that node
/// and with each child that is a leaf, then stops (`true`) when both children are leaves
/// or neither child's lower bound beats the best cost, and otherwise moves to the child
/// with the smaller lower bound (by the distance of the centres on a tie), preferring the
/// right one unless the left one is internal and strictly smaller.
pub open spec fn sibling_search_step<B: AabbBounds>(nodes: Seq<Node<B>>, incoming: B, s: SiblingSearch<B>) -> (bool, SiblingSearch<B>) {
    let cn = nodes[s.curr as int];
    let cost = B::spec_cost_add(s.direct, s.inherited);
    let b1: (u32, B::Cost) = if B::spec_cost_lt(cost, s.best_cost) { (s.curr, cost) } else { (s.best, s.best_cost) };
    let inh = B::spec_cost_add(s.inherited, B::spec_cost_sub(s.direct, s.curr_area));
    let l = cn.left_or_nextfree;
    let r = cn.right_or_userdata;
    let left = nodes[l as int];
    let right = nodes[r as int];
    let ldc = left.bounds.spec_union(incoming).spec_area();
    let rdc = right.bounds.spec_union(incoming).spec_area();
    let b2 = consider_leaf(nodes, l, ldc, inh, b1);
    let b3 = consider_leaf(nodes, r, rdc, inh, b2);
    let llb = lower_bound(nodes, l, incoming, ldc, inh);
    let rlb = lower_bound(nodes, r, incoming, rdc, inh);
    let la = if left.height == 0 { B::spec_cost_zero() } else { left.bounds.spec_area() };
    let ra = if right.height == 0 { B::spec_cost_zero() } else { right.bounds.spec_area() };
    let here = SiblingSearch { curr: s.curr, curr_area: s.curr_area, direct: s.direct, inherited: inh, best: b3.0, best_cost: b3.1 };
    if (left.height == 0 && right.height == 0) || (B::spec_cost_le(b3.1, llb) && B::spec_cost_le(b3.1, rlb)) {
        (true, here)
    } else {
        let tie = B::spec_cost_eq(llb, rlb) && left.height != 0;
        let llb2 = if tie { left.bounds.spec_centroid_distance_squared(incoming) } else { llb };
        let rlb2 = if tie { right.bounds.spec_centroid_distance_squared(incoming) } else { rlb };
        if B::spec_cost_lt(llb2, rlb2) && left.height != 0 {
            (false, SiblingSearch { curr: l, curr_area: la, direct: ldc, inherited: inh, best: b3.0, best_cost: b3.1 })
        } else {
            (false, SiblingSearch { curr: r, curr_area: ra, direct: rdc, inherited: inh, best: b3.0, best_cost: b3.1 })
        }
    }
}

/// The node the search picks from the state `s`, taking at most `fuel` more steps.
pub open spec fn sibling_search<B: AabbBounds>(nodes: Seq<Node<B>>, incoming: B, s: SiblingSearch<B>, fuel: nat) -> u32
    decreases fuel,
{
    if fuel == 0 || nodes[s.curr as int].height == 0 {
        s.best
    } else {
        let (stop, next) = sibling_search_step(nodes, incoming, s);
        if stop { next.best } else { sibling_search(nodes, incoming, next, (fuel - 1) as nat) }
    }
}

/// The node next to which `insert` puts a new leaf with box `incoming`: the search by the
/// surface-area heuristic that starts at the root, with pairing with the root as the first
/// best.
pub open spec fn sibling_for<B: AabbBounds>(nodes: Seq<Node<B>>, root: u32, incoming: B) -> u32 {
    let rn = nodes[root as int];
    let direct = rn.bounds.spec_union(incoming).spec_area();
    sibling_search(
        nodes,
        incoming,
        SiblingSearch { curr: root, curr_area: rn.bounds.spec_area(), direct, inherited: B::spec_cost_zero(), best: root, best_cost: direct },
        nodes.len(),
    )
}


/// The nodes, the free nodes and the index after storing `node`: in the first free node,
/// or appended when none is free.
pub open spec fn place_node<B>(nodes: Seq<Node<B>>, free: Seq<u32>, node: Node<B>) -> (Seq<Node<B>>, Seq<u32>, u32) {
    if free.len() > 0 {
        (nodes.update(free[0] as int, node), free.drop_first(), free[0])
    } else {
        (nodes.push(node), free, nodes.len() as u32)
    }
}

/// The nodes after inserting a leaf with box `bounds` and user value `value` into the
/// tree with nodes `nodes`, free nodes `free` and root `root`. The leaf is stored first,
/// then a new parent for it and its sibling `sibling_for(..)`; the parent takes the
/// sibling's place under the sibling's old parent, and the path from the new parent up to
/// the root is refitted and rotated (`refit_path`).
pub open spec fn inserted_nodes<B: AabbBounds>(nodes: Seq<Node<B>>, free: Seq<u32>, root: NodeIndex, bounds: B, value: u32) -> Seq<Node<B>> {
    let leaf = Node { bounds, parent_index: NodeIndex(NODE_INDEX_NONE), left_or_nextfree: 0, right_or_userdata: value, height: 0 };
    if root.0 == NODE_INDEX_NONE {
        place_node(nodes, free, leaf).0
    } else {
        let s = sibling_for(nodes, root.0 as u32, bounds);
        let sib = nodes[s as int];
        let (n1, f1, l) = place_node(nodes, free, leaf);
        let parent = Node {
            bounds: bounds.spec_union(sib.bounds),
            parent_index: sib.parent_index,
            left_or_nextfree: s,
            right_or_userdata: l,
            height: parent_height(sib.height, 0),
        };
        let (n2, f2, p) = place_node(n1, f1, parent);
        let op = sib.parent_index.0;
        let n3 = if op != NODE_INDEX_NONE {
            n2.update(op as int, with_child(n2[op as int], n2[op as int].left_or_nextfree == s, p))
        } else {
            n2
        };
        let n4 = n3.update(s as int, Node { parent_index: NodeIndex(p as usize), ..n3[s as int] });
        let n5 = n4.update(l as int, Node { parent_index: NodeIndex(p as usize), ..n4[l as int] });
        refit_path(n5, NodeIndex(p as usize), true, n5.len())
    }
}


/// `inserted_nodes` for a non-empty tree, once the sibling and the two stored nodes are
/// known: the refit of the linked nodes `linked`.
proof fn lemma_inserted_nodes_unfold<B: AabbBounds>(
    nodes: Seq<Node<B>>,
    free: Seq<u32>,
    root: NodeIndex,
    bounds: B,
    value: u32,
    s: u32,
    l: u32,
    p: u32,
    linked: Seq<Node<B>>,
)
    requires
        root.0 != NODE_INDEX_NONE,
        s == sibling_for(nodes, root.0 as u32, bounds),
        ({
            let leaf = Node { bounds, parent_index: NodeIndex(NODE_INDEX_NONE), left_or_nextfree: 0, right_or_userdata: value, height: 0 };
            let sib = nodes[s as int];
            let (n1, f1, l1) = place_node(nodes, free, leaf);
            let parent = Node {
                bounds: bounds.spec_union(sib.bounds),
                parent_index: sib.parent_index,
                left_or_nextfree: s,
                right_or_userdata: l,
                height: parent_height(sib.height, 0),
            };
            let (n2, f2, p2) = place_node(n1, f1, parent);
            let op = sib.parent_index.0;
            let n3 = if op != NODE_INDEX_NONE {
                n2.update(op as int, with_child(n2[op as int], n2[op as int].left_or_nextfree == s, p))
            } else {
                n2
            };
            let n4 = n3.update(s as int, Node { parent_index: NodeIndex(p as usize), ..n3[s as int] });
            &&& l1 == l
            &&& p2 == p
            &&& linked == n4.update(l as int, Node { parent_index: NodeIndex(p as usize), ..n4[l as int] })
        }),
    ensures
        inserted_nodes(nodes, free, root, bounds, value) == refit_path(linked, NodeIndex(p as usize), true, linked.len()),
{
}


/// The root after `insert`: the stored leaf in an empty tree, the new parent when the
/// sibling was the root, and otherwise the root as it was.
pub open spec fn inserted_root<B: AabbBounds>(nodes: Seq<Node<B>>, free: Seq<u32>, root: NodeIndex, bounds: B, value: u32) -> NodeIndex {
    let leaf = Node { bounds, parent_index: NodeIndex(NODE_INDEX_NONE), left_or_nextfree: 0, right_or_userdata: value, height: 0 };
    if root.0 == NODE_INDEX_NONE {
        NodeIndex(place_node(nodes, free, leaf).2 as usize)
    } else {
        let s = sibling_for(nodes, root.0 as u32, bounds);
        let sib = nodes[s as int];
        let (n1, f1, l) = place_node(nodes, free, leaf);
        let parent = Node {
            bounds: bounds.spec_union(sib.bounds),
            parent_index: sib.parent_index,
            left_or_nextfree: s,
            right_or_userdata: l,
            height: parent_height(sib.height, 0),
        };
        if sib.parent_index.0 == NODE_INDEX_NONE {
            NodeIndex(place_node(n1, f1, parent).2 as usize)
        } else {
            root
        }
    }
}


impl<B: AabbBounds> AabbTree<B> {
    /// The box of internal node `i` is the union of its children's boxes.
    pub open spec fn tight_at(&self, i: int) -> bool {
        self.spec_nodes()[i].bounds == self.spec_nodes()[self.lc(i)].bounds.spec_union(self.spec_nodes()[self.rc(i)].bounds)
    }

    /// The boxes are tight: the box of every internal node in use is the union of its
    /// children's boxes.
    pub open spec fn boxes_tight(&self) -> bool {
        forall|i: int| #[trigger] self.is_live(i) && !self.is_leaf_at(i) ==> self.tight_at(i)
    }
}

/// The boxes are tight at every internal node in use but `x` and `y`.
spec fn tight_but<B: AabbBounds>(t: AabbTree<B>, x: int, y: int) -> bool {
    forall|i: int| #[trigger] t.is_live(i) && !t.is_leaf_at(i) && i != x && i != y ==> t.tight_at(i)
}

/// However three boxes are grouped and ordered in two unions, the result is the same.
proof fn lemma_union_three<B: AabbBounds>(a: B, g: B, h: B)
    ensures
        ({
            let canon = a.spec_union(g).spec_union(h);
            &&& a.spec_union(g.spec_union(h)) == canon
            &&& a.spec_union(h.spec_union(g)) == canon
            &&& g.spec_union(h).spec_union(a) == canon
            &&& h.spec_union(g).spec_union(a) == canon
            &&& g.spec_union(a.spec_union(h)) == canon
            &&& g.spec_union(h.spec_union(a)) == canon
            &&& a.spec_union(h).spec_union(g) == canon
            &&& h.spec_union(a).spec_union(g) == canon
        }),
{
    B::lemma_union_associative(a, g, h);
    B::lemma_union_commutative(g, h);
    B::lemma_union_commutative(a, h.spec_union(g));
    B::lemma_union_commutative(a, g.spec_union(h));
    B::lemma_union_commutative(a, g);
    B::lemma_union_associative(g, a, h);
    B::lemma_union_commutative(a, h);
    B::lemma_union_commutative(g, a.spec_union(h));
    B::lemma_union_commutative(g, h.spec_union(a));
    B::lemma_union_associative(a, h, g);
    B::lemma_union_associative(h, a, g);
    B::lemma_union_associative(g, h, a);
    B::lemma_union_associative(h, g, a);
    B::lemma_union_commutative(h, a.spec_union(g));
    B::lemma_union_associative(h, a, g);
}

/// A rotation at `r` keeps the boxes tight: at `r`, at the child that takes in the
/// demoted node, and (as they were) everywhere else.
#[verifier::rlimit(60)]
proof fn lemma_rotation_tight<B: AabbBounds>(o: AabbTree<B>, n: AabbTree<B>, r: int)
    requires
        o.wf(),
        o.is_live(r),
        n.nodes@ == after_rotation(o.nodes@, r),
        n.free_list == o.free_list,
        !o.is_leaf_at(r) ==> o.tight_at(r),
        !o.is_leaf_at(r) && !o.is_leaf_at(o.lc(r)) ==> o.tight_at(o.lc(r)),
        !o.is_leaf_at(r) && !o.is_leaf_at(o.rc(r)) ==> o.tight_at(o.rc(r)),
    ensures
        forall|j: int| #[trigger] n.is_live(j) == o.is_live(j),
        forall|j: int| 0 <= j < o.nodes@.len() ==> (#[trigger] n.nodes@[j]).height == o.nodes@[j].height,
        n.nodes@[r].bounds == o.nodes@[r].bounds,
        !n.is_leaf_at(r) ==> n.tight_at(r),
        forall|i: int| #[trigger] n.is_live(i) && !n.is_leaf_at(i) && i != r && (o.is_leaf_at(r) || (i != o.lc(r) && i != o.rc(r)))
            ==> (n.tight_at(i) <==> o.tight_at(i)),
        forall|i: int| #[trigger] n.is_live(i) && !n.is_leaf_at(i) && !o.is_leaf_at(r) && (i == o.lc(r) || i == o.rc(r))
            ==> n.tight_at(i),
{
    lemma_choice_shape(o.nodes@, r);
    lemma_arena_bound(o);
    match rotation_choice(o.nodes@, r) {
        None => {
            assert forall|j: int| #[trigger] n.is_live(j) == o.is_live(j) by {}
        },
        Some(m) => {
            let s = m.0;
            let t = m.1;
            let rn = o.nodes@[r];
            let a = (if s { rn.left_or_nextfree } else { rn.right_or_userdata }) as int;
            let c = (if s { rn.right_or_userdata } else { rn.left_or_nextfree }) as int;
            let g = (if t { o.nodes@[c].left_or_nextfree } else { o.nodes@[c].right_or_userdata }) as int;
            let h = (if t { o.nodes@[c].right_or_userdata } else { o.nodes@[c].left_or_nextfree }) as int;
            lemma_internal_children(o, r);
            assert(o.is_live(c) && o.is_live(a) && a != c && c != r && a != r);
            assert(!o.is_leaf_at(c));
            lemma_internal_children(o, c);
            assert(o.is_live(g) && o.is_live(h) && g != h && g != r && h != r && g != c && h != c);
            assert(g != a && h != a) by {
                assert(o.par(g).0 == c && o.par(h).0 == c && o.par(a).0 == r);
            }
            let rb = o.nodes@[r].bounds;
            let ab = o.nodes@[a].bounds;
            let gb = o.nodes@[g].bounds;
            let hb = o.nodes@[h].bounds;
            assert(o.tight_at(c));
            assert(n.nodes@[r].bounds == rb);
            assert(n.nodes@[c].bounds == ab.spec_union(hb));
            assert(n.nodes@[a].bounds == ab && n.nodes@[g].bounds == gb && n.nodes@[h].bounds == hb);
            assert forall|j: int| 0 <= j < o.nodes@.len() implies (#[trigger] n.nodes@[j]).height == o.nodes@[j].height by {}
            assert forall|j: int| #[trigger] n.is_live(j) == o.is_live(j) by {}
            assert forall|j: int| 0 <= j < o.nodes@.len() && j != r && j != c
                implies (#[trigger] n.nodes@[j]).bounds == o.nodes@[j].bounds
                    && n.nodes@[j].left_or_nextfree == o.nodes@[j].left_or_nextfree
                    && n.nodes@[j].right_or_userdata == o.nodes@[j].right_or_userdata by {}
            lemma_union_three(ab, gb, hb);
            B::lemma_union_commutative(ab, hb);
            assert(n.tight_at(r));
            assert(n.tight_at(c));
            assert forall|i: int| #[trigger] n.is_live(i) && !n.is_leaf_at(i) && i != r && (o.is_leaf_at(r) || (i != o.lc(r) && i != o.rc(r)))
                implies (n.tight_at(i) <==> o.tight_at(i)) by {
                assert(o.is_live(i) && !o.is_leaf_at(i));
                lemma_internal_children(o, i);
                assert(n.lc(i) == o.lc(i) && n.rc(i) == o.rc(i));
                assert(o.lc(i) != c && o.rc(i) != c) by {
                    assert(o.par(c).0 == r);
                }
            }
            assert forall|i: int| #[trigger] n.is_live(i) && !n.is_leaf_at(i) && !o.is_leaf_at(r) && (i == o.lc(r) || i == o.rc(r))
                implies n.tight_at(i) by {
                if i == a {
                    assert(o.is_live(a) && !o.is_leaf_at(a));
                    assert(o.tight_at(a));
                    lemma_internal_children(o, a);
                    assert(n.lc(a) == o.lc(a) && n.rc(a) == o.rc(a));
                    assert(o.lc(a) != c && o.rc(a) != c && o.lc(a) != r && o.rc(a) != r) by {
                        assert(o.par(c).0 == r);
                    }
                }
            }
        },
    }
}


/// Linking a new leaf `l` and parent `p` in place of `s` keeps tight boxes tight, but at
/// `p` and at `s`'s old parent.
#[verifier::rlimit(40)]
proof fn lemma_linked_tight<B: AabbBounds>(o: AabbTree<B>, n: AabbTree<B>, s: int, l: int, p: int, bounds: B, value: u32)
    requires
        linked_in(o, n, s, l, p, bounds, value),
        o.boxes_tight(),
    ensures
        tight_but(n, p, o.par(s).0 as int),
{
    let op = o.par(s).0 as int;
    lemma_arena_bound(o);
    if o.par(s).0 != NODE_INDEX_NONE {
        lemma_parent_of(o, s);
        lemma_internal_children(o, op);
    }
    assert forall|k: int| #[trigger] n.is_live(k) && !n.is_leaf_at(k) && k != p && k != op implies n.tight_at(k) by {
        assert(k != l);
        assert(o.is_live(k));
        assert(!o.is_leaf_at(k)) by {
            if k != s {
                assert(n.nodes@[k] == o.nodes@[k]);
            }
        }
        lemma_internal_children(o, k);
        assert(o.tight_at(k));
        let cl = o.lc(k);
        let cr = o.rc(k);
        assert(n.nodes@[k].bounds == o.nodes@[k].bounds);
        assert(n.lc(k) == cl && n.rc(k) == cr);
        assert(cl != s && cr != s) by {
            if cl == s || cr == s {
                assert(o.par(s).0 == k);
            }
        }
        assert(cl != l && cr != l && cl != p && cr != p);
        if cl != op {
            assert(n.nodes@[cl] == o.nodes@[cl]);
        }
        if cr != op {
            assert(n.nodes@[cr] == o.nodes@[cr]);
        }
    }
}

/// Unlinking a leaf `l` and its parent `p`, the sibling `s` taking the parent's place, keeps
/// tight boxes tight, but at `p`'s old parent `g`.
#[verifier::rlimit(40)]
proof fn lemma_unlinked_tight<B: AabbBounds>(o: AabbTree<B>, n: AabbTree<B>, l: int, p: int, s: int)
    requires
        unlinked(o, n, l, p, s),
        o.boxes_tight(),
    ensures
        tight_but(n, o.par(p).0 as int, o.par(p).0 as int),
{
    let g = o.par(p).0 as int;
    lemma_arena_bound(o);
    lemma_internal_children(o, p);
    if o.par(p).0 != NODE_INDEX_NONE {
        lemma_parent_of(o, p);
        lemma_internal_children(o, g);
    }
    assert forall|k: int| #[trigger] n.is_live(k) && !n.is_leaf_at(k) && k != g implies n.tight_at(k) by {
        assert(o.is_live(k) && k != l && k != p);
        assert(!o.is_leaf_at(k)) by {
            if k != s {
                assert(n.nodes@[k] == o.nodes@[k]);
            }
        }
        lemma_internal_children(o, k);
        assert(o.tight_at(k));
        let cl = o.lc(k);
        let cr = o.rc(k);
        assert(n.nodes@[k].bounds == o.nodes@[k].bounds);
        assert(n.lc(k) == cl && n.rc(k) == cr);
        assert(cl != p && cr != p && cl != l && cr != l && cl != s && cr != s) by {
            if cl == p || cr == p {
                assert(o.par(p).0 == k);
            }
            if cl == l || cr == l {
                assert(o.par(l).0 == k);
            }
            if cl == s || cr == s {
                assert(o.par(s).0 == k);
            }
        }
        if cl != g {
            assert(n.nodes@[cl] == o.nodes@[cl]);
        }
        if cr != g {
            assert(n.nodes@[cr] == o.nodes@[cr]);
        }
    }
}


/// The nodes of the leaves that `overlapping_in` lists, in the same order.
pub open spec fn overlapping_leaves_in<B: AabbBounds>(nodes: Seq<Node<B>>, i: int, aabb: B, fuel: nat) -> Seq<int>
    decreases fuel,
{
    if fuel == 0 {
        Seq::empty()
    } else {
        let n = nodes[i];
        if !n.bounds.spec_overlaps(aabb) {
            Seq::empty()
        } else if n.height == 0 {
            seq![i]
        } else {
            overlapping_leaves_in(nodes, n.left_or_nextfree as int, aabb, (fuel - 1) as nat)
                + overlapping_leaves_in(nodes, n.right_or_userdata as int, aabb, (fuel - 1) as nat)
        }
    }
}

/// The box and user value stored at node `k`.
pub open spec fn entry_at<B>(nodes: Seq<Node<B>>, k: int) -> (B, u32) {
    (nodes[k].bounds, nodes[k].right_or_userdata)
}

impl<B: AabbBounds> AabbTree<B> {
    /// The leaves whose entries `iter_overlapping(aabb)` lists, in the order it lists them.
    pub open spec fn spec_overlapping_leaves(&self, aabb: B) -> Seq<int> {
        if self.spec_root().0 == NODE_INDEX_NONE {
            Seq::empty()
        } else {
            overlapping_leaves_in(self.spec_nodes(), self.spec_root().0 as int, aabb, self.spec_nodes().len())
        }
    }
}

proof fn lemma_overlapping_entries<B: AabbBounds>(nodes: Seq<Node<B>>, i: int, aabb: B, fuel: nat)
    ensures
        overlapping_in(nodes, i, aabb, fuel) == overlapping_leaves_in(nodes, i, aabb, fuel).map_values(|k: int| entry_at(nodes, k)),
    decreases fuel,
{
    if fuel > 0 {
        let n = nodes[i];
        if n.bounds.spec_overlaps(aabb) && n.height != 0 {
            let l = n.left_or_nextfree as int;
            let r = n.right_or_userdata as int;
            let f = (fuel - 1) as nat;
            lemma_overlapping_entries(nodes, l, aabb, f);
            lemma_overlapping_entries(nodes, r, aabb, f);
            let a = overlapping_leaves_in(nodes, l, aabb, f);
            let b = overlapping_leaves_in(nodes, r, aabb, f);
            assert((a + b).map_values(|k: int| entry_at(nodes, k))
                =~= a.map_values(|k: int| entry_at(nodes, k)) + b.map_values(|k: int| entry_at(nodes, k)));
        } else if n.bounds.spec_overlaps(aabb) {
            assert(seq![i].map_values(|k: int| entry_at(nodes, k)) =~= seq![entry_at(nodes, i)]);
        } else {
            assert(Seq::<int>::empty().map_values(|k: int| entry_at(nodes, k)) =~= Seq::<(B, u32)>::empty());
        }
    } else {
        assert(Seq::<int>::empty().map_values(|k: int| entry_at(nodes, k)) =~= Seq::<(B, u32)>::empty());
    }
}

proof fn lemma_overlapping_leaves_fuel<B: AabbBounds>(t: AabbTree<B>, i: int, aabb: B, f: nat)
    requires
        t.wf(),
        t.is_live(i),
        f >= subtree(t, i).len(),
    ensures
        overlapping_leaves_in(t.nodes@, i, aabb, f) == overlapping_leaves_in(t.nodes@, i, aabb, subtree(t, i).len()),
    decreases t.rank@[i],
{
    lemma_subtree_len(t, i);
    if !t.is_leaf_at(i) {
        lemma_internal_children(t, i);
        lemma_subtree_split(t, i);
        let l = t.lc(i);
        let r = t.rc(i);
        lemma_overlapping_leaves_fuel(t, l, aabb, (f - 1) as nat);
        lemma_overlapping_leaves_fuel(t, l, aabb, (subtree(t, i).len() - 1) as nat);
        lemma_overlapping_leaves_fuel(t, r, aabb, (f - 1) as nat);
        lemma_overlapping_leaves_fuel(t, r, aabb, (subtree(t, i).len() - 1) as nat);
    }
}

/// The leaves the search for `aabb` lists from node `i`: no node twice, each a leaf of the
/// subtree whose box overlaps `aabb`, and in nested boxes every such leaf.
proof fn lemma_overlapping_leaves_exact<B: AabbBounds>(t: AabbTree<B>, i: int, aabb: B)
    requires
        t.wf(),
        t.is_live(i),
    ensures
        overlapping_leaves_in(t.nodes@, i, aabb, subtree(t, i).len()).no_duplicates(),
        forall|k: int| 0 <= k < overlapping_leaves_in(t.nodes@, i, aabb, subtree(t, i).len()).len() ==> {
            let j = #[trigger] overlapping_leaves_in(t.nodes@, i, aabb, subtree(t, i).len())[k];
            subtree(t, i).contains(j) && t.is_leaf_at(j) && t.nodes@[j].bounds.spec_overlaps(aabb)
        },
        t.boxes_nested() ==> forall|j: int| #[trigger] subtree(t, i).contains(j) && t.is_leaf_at(j) && t.nodes@[j].bounds.spec_overlaps(aabb)
            ==> overlapping_leaves_in(t.nodes@, i, aabb, subtree(t, i).len()).contains(j),
    decreases t.rank@[i],
{
    lemma_subtree_len(t, i);
    lemma_subtree(t, i);
    let res = overlapping_leaves_in(t.nodes@, i, aabb, subtree(t, i).len());
    if t.is_leaf_at(i) {
        assert(subtree(t, i) == set![i]);
        if t.boxes_nested() {
            assert forall|j: int| #[trigger] subtree(t, i).contains(j) && t.is_leaf_at(j) && t.nodes@[j].bounds.spec_overlaps(aabb)
                implies res.contains(j) by {
                assert(j == i);
                assert(res[0] == i);
            }
        }
    } else {
        lemma_internal_children(t, i);
        lemma_subtree_split(t, i);
        let l = t.lc(i);
        let r = t.rc(i);
        let f = (subtree(t, i).len() - 1) as nat;
        lemma_overlapping_leaves_fuel(t, l, aabb, f);
        lemma_overlapping_leaves_fuel(t, r, aabb, f);
        lemma_overlapping_leaves_exact(t, l, aabb);
        lemma_overlapping_leaves_exact(t, r, aabb);
        let rl = overlapping_leaves_in(t.nodes@, l, aabb, subtree(t, l).len());
        let rr = overlapping_leaves_in(t.nodes@, r, aabb, subtree(t, r).len());
        if t.nodes@[i].bounds.spec_overlaps(aabb) {
            assert(res == rl + rr);
            assert forall|a: int, b: int| 0 <= a < res.len() && 0 <= b < res.len() && a != b implies res[a] != res[b] by {
                if a < rl.len() && b >= rl.len() {
                    assert(res[a] == rl[a] && res[b] == rr[b - rl.len()]);
                    assert(subtree(t, l).contains(rl[a]));
                    assert(subtree(t, r).contains(rr[b - rl.len()]));
                } else if b < rl.len() && a >= rl.len() {
                    assert(res[b] == rl[b] && res[a] == rr[a - rl.len()]);
                    assert(subtree(t, l).contains(rl[b]));
                    assert(subtree(t, r).contains(rr[a - rl.len()]));
                } else if a < rl.len() {
                    assert(res[a] == rl[a] && res[b] == rl[b]);
                } else {
                    assert(res[a] == rr[a - rl.len()] && res[b] == rr[b - rl.len()]);
                }
            }
            assert forall|k: int| 0 <= k < res.len() implies {
                let j = #[trigger] res[k];
                subtree(t, i).contains(j) && t.is_leaf_at(j) && t.nodes@[j].bounds.spec_overlaps(aabb)
            } by {
                if k < rl.len() {
                    assert(res[k] == rl[k]);
                } else {
                    assert(res[k] == rr[k - rl.len()]);
                }
            }
            if t.boxes_nested() {
                assert forall|j: int| #[trigger] subtree(t, i).contains(j) && t.is_leaf_at(j) && t.nodes@[j].bounds.spec_overlaps(aabb)
                    implies res.contains(j) by {
                    if subtree(t, l).contains(j) {
                        let k = choose|k: int| 0 <= k < rl.len() && rl[k] == j;
                        assert(res[k] == j);
                    } else {
                        let k = choose|k: int| 0 <= k < rr.len() && rr[k] == j;
                        assert(res[k + rl.len()] == j);
                    }
                }
            }
        } else {
            assert(res.len() == 0);
            if t.boxes_nested() {
                assert forall|j: int| #[trigger] subtree(t, i).contains(j) && t.is_leaf_at(j) && t.nodes@[j].bounds.spec_overlaps(aabb)
                    implies res.contains(j) by {
                    lemma_nested_below(t, i, j);
                    B::lemma_holds_overlaps(t.nodes@[i].bounds, t.nodes@[j].bounds, aabb);
                }
            }
        }
    }
}

/// What `spec_overlapping_leaves` holds: leaves overlapping `aabb`, none twice, and in
/// nested boxes all of them; their entries are what the search lists.
proof fn lemma_spec_overlapping_leaves<B: AabbBounds>(t: AabbTree<B>, aabb: B)
    requires
        t.wf(),
    ensures
        t.spec_overlapping(aabb) == t.spec_overlapping_leaves(aabb).map_values(|k: int| t.spec_leaves()[k]),
        t.spec_overlapping_leaves(aabb).no_duplicates(),
        forall|k: int| 0 <= k < t.spec_overlapping_leaves(aabb).len() ==>
            t.spec_leaves().contains_key(#[trigger] t.spec_overlapping_leaves(aabb)[k])
            && t.spec_leaves()[t.spec_overlapping_leaves(aabb)[k]].0.spec_overlaps(aabb),
        t.boxes_nested() ==> forall|j: int| #[trigger] t.spec_leaves().contains_key(j) && t.spec_leaves()[j].0.spec_overlaps(aabb)
            ==> t.spec_overlapping_leaves(aabb).contains(j),
{
    reveal(AabbTree::wf_tree);
    let idx = t.spec_overlapping_leaves(aabb);
    if t.root_index.0 != NODE_INDEX_NONE {
        let root = t.root_index.0 as int;
        lemma_arena_bound(t);
        lemma_subtree_len(t, root);
        lemma_overlapping_leaves_fuel(t, root, aabb, t.nodes@.len());
        lemma_overlapping_leaves_exact(t, root, aabb);
        lemma_overlapping_entries(t.nodes@, root, aabb, t.nodes@.len());
        lemma_subtree(t, root);
        assert forall|k: int| 0 <= k < idx.len() implies t.spec_leaves().contains_key(#[trigger] idx[k])
            && t.spec_leaves()[idx[k]].0.spec_overlaps(aabb) by {
            let j = idx[k];
            assert(subtree(t, root).contains(j));
        }
        assert(t.spec_overlapping(aabb) =~= idx.map_values(|k: int| t.spec_leaves()[k])) by {
            assert forall|k: int| #![trigger idx[k]] 0 <= k < idx.len() implies idx.map_values(|k: int| entry_at(t.nodes@, k))[k]
                == idx.map_values(|k: int| t.spec_leaves()[k])[k] by {
                let j = idx[k];
                assert(subtree(t, root).contains(j));
                assert(t.spec_leaves().contains_key(j));
            }
        }
        if t.boxes_nested() {
            assert forall|j: int| #[trigger] t.spec_leaves().contains_key(j) && t.spec_leaves()[j].0.spec_overlaps(aabb)
                implies idx.contains(j) by {
                lemma_reach(t, j);
            }
        }
    } else {
        assert(t.spec_overlapping(aabb) =~= idx.map_values(|k: int| t.spec_leaves()[k]));
        if t.boxes_nested() {
            assert forall|j: int| #[trigger] t.spec_leaves().contains_key(j) && t.spec_leaves()[j].0.spec_overlaps(aabb)
                implies idx.contains(j) by {
                lemma_reach(t, j);
            }
        }
    }
}


/// What a move chosen by `rotation_choice` costs: the area of the child that stays in place
/// on the side of the demoted child, plus the area of the new box.
pub open spec fn move_cost<B: AabbBounds>(nodes: Seq<Node<B>>, r: int, m: (bool, bool, B)) -> B::Cost {
    let rn = nodes[r];
    let kept = if m.0 { nodes[rn.left_or_nextfree as int] } else { nodes[rn.right_or_userdata as int] };
    B::spec_cost_add(kept.bounds.spec_area(), m.2.spec_area())
}

/// A rotation only happens when it is cheaper: the move chosen at `r` costs strictly less
/// than the summed areas of `r`'s children as they are, and without a chosen move the
/// nodes stay as they were.
pub proof fn lemma_rotation_only_when_cheaper<B: AabbBounds>(nodes: Seq<Node<B>>, r: int)
    ensures
        rotation_choice(nodes, r) is None ==> after_rotation(nodes, r) == nodes,
        rotation_choice(nodes, r) matches Some(m) ==> B::spec_cost_lt(
            move_cost(nodes, r, m),
            B::spec_cost_add(
                nodes[nodes[r].left_or_nextfree as int].bounds.spec_area(),
                nodes[nodes[r].right_or_userdata as int].bounds.spec_area(),
            ),
        ),
{
    let rn = nodes[r];
    if rn.height >= 2 {
        let left = nodes[rn.left_or_nextfree as int];
        let right = nodes[rn.right_or_userdata as int];
        let la = left.bounds.spec_area();
        let ra = right.bounds.spec_area();
        let current = B::spec_cost_add(la, ra);
        let start = (current, None::<(bool, bool, B)>);
        let rl = left.bounds.spec_union(nodes[right.right_or_userdata as int].bounds);
        let rr = left.bounds.spec_union(nodes[right.left_or_nextfree as int].bounds);
        let ll = right.bounds.spec_union(nodes[left.right_or_userdata as int].bounds);
        let lr = right.bounds.spec_union(nodes[left.left_or_nextfree as int].bounds);
        let x1 = consider_move(start, Some((true, true, rl)), B::spec_cost_add(la, rl.spec_area()));
        lemma_consider_cheaper(nodes, r, current, start, (true, true, rl), B::spec_cost_add(la, rl.spec_area()));
        lemma_consider_cheaper(nodes, r, current, x1, (true, false, rr), B::spec_cost_add(la, rr.spec_area()));
        let after_right = consider_lifting_right(nodes, start, left, right, la);
        let y1 = consider_move(start, Some((false, true, ll)), B::spec_cost_add(ra, ll.spec_area()));
        lemma_consider_cheaper(nodes, r, current, start, (false, true, ll), B::spec_cost_add(ra, ll.spec_area()));
        lemma_consider_cheaper(nodes, r, current, y1, (false, false, lr), B::spec_cost_add(ra, lr.spec_area()));
        let z1 = consider_move(after_right, Some((false, true, ll)), B::spec_cost_add(ra, ll.spec_area()));
        lemma_consider_cheaper(nodes, r, current, after_right, (false, true, ll), B::spec_cost_add(ra, ll.spec_area()));
        lemma_consider_cheaper(nodes, r, current, z1, (false, false, lr), B::spec_cost_add(ra, lr.spec_area()));
    }
}

/// Considering a move keeps the best so far either the start with the current cost, or a
/// move that costs strictly less than the current cost.
proof fn lemma_consider_cheaper<B: AabbBounds>(
    nodes: Seq<Node<B>>,
    r: int,
    current: B::Cost,
    best: (B::Cost, Option<(bool, bool, B)>),
    m: (bool, bool, B),
    cost: B::Cost,
)
    requires
        cost == move_cost(nodes, r, m),
        best.1 is None ==> best.0 == current,
        best.1 matches Some(b) ==> best.0 == move_cost(nodes, r, b) && B::spec_cost_lt(best.0, current),
    ensures
        ({
            let next = consider_move(best, Some(m), cost);
            &&& next.1 is None ==> next.0 == current
            &&& next.1 matches Some(b) ==> next.0 == move_cost(nodes, r, b) && B::spec_cost_lt(next.0, current)
        }),
{
    if B::spec_cost_lt(cost, best.0) && best.1 is Some {
        B::lemma_cost_lt_transitive(cost, best.0, current);
    }
}


/// The child of `n` on side `s` (`true` for the left).
pub open spec fn side_child<B>(n: Node<B>, s: bool) -> u32 {
    if s { n.left_or_nextfree } else { n.right_or_userdata }
}

/// Whether a rotation at `r` may move `r`'s child on side `s` down: `r` has grandchildren
/// and its child on the other side is internal.
pub open spec fn may_lower<B>(nodes: Seq<Node<B>>, r: int, s: bool) -> bool {
    nodes[r].height >= 2 && nodes[side_child(nodes[r], !s) as int].height != 0
}

/// The box that `r`'s child on side `!s` takes when `r`'s child on side `s` moves under it
/// in the place of its child on side `t`: the union of the moved child and the child that
/// stays under it.
pub open spec fn lowered_bounds<B: AabbBounds>(nodes: Seq<Node<B>>, r: int, s: bool, t: bool) -> B {
    let moved = nodes[side_child(nodes[r], s) as int];
    let other = nodes[side_child(nodes[r], !s) as int];
    moved.bounds.spec_union(nodes[side_child(other, !t) as int].bounds)
}

/// What that move is ranked by: the area of `r`'s child on side `s` plus the area of the
/// new box.
pub open spec fn lowering_cost<B: AabbBounds>(nodes: Seq<Node<B>>, r: int, s: bool, t: bool) -> B::Cost {
    B::spec_cost_add(
        nodes[side_child(nodes[r], s) as int].bounds.spec_area(),
        lowered_bounds(nodes, r, s, t).spec_area(),
    )
}

/// The rotation at `r` is the cheapest move there is. Every move that may be made (on
/// either side, lifting either grandchild) is weighed: the chosen move is one of them with
/// its box as stated, and no move is strictly cheaper than it; no move is chosen only when
/// none is strictly cheaper than the children's summed areas as they are. (The costs are
/// taken to be ordered: no cost is below itself, and `a <= b` rules out `b < a`.)
pub proof fn lemma_rotation_is_cheapest_move<B: AabbBounds>(nodes: Seq<Node<B>>, r: int)
    requires
        forall|a: B::Cost| !#[trigger] B::spec_cost_lt(a, a),
        forall|a: B::Cost, b: B::Cost| #[trigger] B::spec_cost_le(a, b) ==> !B::spec_cost_lt(b, a),
    ensures
        rotation_choice(nodes, r) matches Some(m) ==> {
            &&& may_lower(nodes, r, m.0)
            &&& m.2 == lowered_bounds(nodes, r, m.0, m.1)
            &&& forall|s: bool, t: bool| may_lower(nodes, r, s)
                ==> !B::spec_cost_lt(#[trigger] lowering_cost(nodes, r, s, t), lowering_cost(nodes, r, m.0, m.1))
        },
        rotation_choice(nodes, r) is None ==> forall|s: bool, t: bool| may_lower(nodes, r, s)
            ==> !B::spec_cost_lt(
                #[trigger] lowering_cost(nodes, r, s, t),
                B::spec_cost_add(
                    nodes[nodes[r].left_or_nextfree as int].bounds.spec_area(),
                    nodes[nodes[r].right_or_userdata as int].bounds.spec_area(),
                ),
            ),
{
    let rn = nodes[r];
    if rn.height >= 2 {
        let left = nodes[rn.left_or_nextfree as int];
        let right = nodes[rn.right_or_userdata as int];
        let la = left.bounds.spec_area();
        let ra = right.bounds.spec_area();
        let cur = B::spec_cost_add(la, ra);
        let start = (cur, None::<(bool, bool, B)>);
        let m1 = (true, true, lowered_bounds(nodes, r, true, true));
        let m2 = (true, false, lowered_bounds(nodes, r, true, false));
        let m3 = (false, true, lowered_bounds(nodes, r, false, true));
        let m4 = (false, false, lowered_bounds(nodes, r, false, false));
        let c1 = lowering_cost(nodes, r, true, true);
        let c2 = lowering_cost(nodes, r, true, false);
        let c3 = lowering_cost(nodes, r, false, true);
        let c4 = lowering_cost(nodes, r, false, false);
        assert(m1.2 == left.bounds.spec_union(nodes[right.right_or_userdata as int].bounds));
        assert(m2.2 == left.bounds.spec_union(nodes[right.left_or_nextfree as int].bounds));
        assert(m3.2 == right.bounds.spec_union(nodes[left.right_or_userdata as int].bounds));
        assert(m4.2 == right.bounds.spec_union(nodes[left.left_or_nextfree as int].bounds));
        if left.height == 0 && right.height == 0 {
        } else if left.height == 0 {
            let b1 = consider_move(start, Some(m1), c1);
            let b2 = consider_move(b1, Some(m2), c2);
            lemma_consider_step(start, m1, c1, cur, c1);
            lemma_consider_step(b1, m2, c2, cur, c1);
            lemma_consider_step(b1, m2, c2, cur, c2);
            assert(consider_lifting_right(nodes, start, left, right, la) == b2);
            if B::spec_cost_le(cur, b2.0) && b2.1 is Some {
                assert(!B::spec_cost_lt(b2.0, cur));
            }
        } else if right.height == 0 {
            let b1 = consider_move(start, Some(m3), c3);
            let b2 = consider_move(b1, Some(m4), c4);
            lemma_consider_step(start, m3, c3, cur, c3);
            lemma_consider_step(b1, m4, c4, cur, c3);
            lemma_consider_step(b1, m4, c4, cur, c4);
            assert(consider_lifting_left(nodes, start, left, right, ra) == b2);
            if B::spec_cost_le(cur, b2.0) && b2.1 is Some {
                assert(!B::spec_cost_lt(b2.0, cur));
            }
        } else {
            let b1 = consider_move(start, Some(m1), c1);
            let b2 = consider_move(b1, Some(m2), c2);
            let b3 = consider_move(b2, Some(m3), c3);
            let b4 = consider_move(b3, Some(m4), c4);
            lemma_consider_step(start, m1, c1, cur, c1);
            lemma_consider_step(b1, m2, c2, cur, c1);
            lemma_consider_step(b1, m2, c2, cur, c2);
            lemma_consider_step(b2, m3, c3, cur, c1);
            lemma_consider_step(b2, m3, c3, cur, c2);
            lemma_consider_step(b2, m3, c3, cur, c3);
            lemma_consider_step(b3, m4, c4, cur, c1);
            lemma_consider_step(b3, m4, c4, cur, c2);
            lemma_consider_step(b3, m4, c4, cur, c3);
            lemma_consider_step(b3, m4, c4, cur, c4);
            assert(consider_lifting_right(nodes, start, left, right, la) == b2);
            assert(consider_lifting_left(nodes, b2, left, right, ra) == b4);
            if B::spec_cost_le(cur, b4.0) && b4.1 is Some {
                assert(!B::spec_cost_lt(b4.0, cur));
            }
        }
    }
}

/// One step of weighing moves: the best so far stays, or becomes the new move when that is
/// strictly cheaper. A cost `x` not below the best so far is not below the next best, the
/// new move's cost is not below the next best, and the best so far is either the starting
/// cost `cur` with no move or a move strictly cheaper than `cur`.
proof fn lemma_consider_step<B: AabbBounds>(
    best: (B::Cost, Option<(bool, bool, B)>),
    m: (bool, bool, B),
    cost: B::Cost,
    cur: B::Cost,
    x: B::Cost,
)
    requires
        !B::spec_cost_lt(cost, cost),
    ensures
        ({
            let next = consider_move(best, Some(m), cost);
            &&& next == best || (next == (cost, Some(m)) && B::spec_cost_lt(cost, best.0))
            &&& x == cost ==> !B::spec_cost_lt(x, next.0)
            &&& !B::spec_cost_lt(x, best.0) ==> !B::spec_cost_lt(x, next.0)
            &&& ((best.1 is None && best.0 == cur) || (best.1 is Some && B::spec_cost_lt(best.0, cur)))
                ==> ((next.1 is None && next.0 == cur) || (next.1 is Some && B::spec_cost_lt(next.0, cur)))
        }),
{
    let next = consider_move(best, Some(m), cost);
    if B::spec_cost_lt(cost, best.0) {
        if B::spec_cost_lt(x, cost) {
            B::lemma_cost_lt_transitive(x, cost, best.0);
        }
        if best.1 is Some && B::spec_cost_lt(best.0, cur) {
            B::lemma_cost_lt_transitive(cost, best.0, cur);
        }
    }
}

/// The nodes after freeing node `i`: it becomes a leaf at the head of the free list, which
/// links on to the free node that was first (`free`).
pub open spec fn freed_nodes<B>(nodes: Seq<Node<B>>, free: Seq<u32>, i: u32) -> Seq<Node<B>> {
    nodes.update(i as int, Node {
        height: 0,
        left_or_nextfree: if free.len() == 0 { FREE_LIST_END } else { free[0] },
        ..nodes[i as int]
    })
}

/// The nodes after `remove(bounds)`. The leaf found for `bounds` (`find_in`) is freed; if it
/// was not the root, its sibling takes its parent's place under the grandparent, the
/// parent and then the leaf are freed, and the path from the grandparent up to the root is
/// refitted and rotated (`refit_path`). With no such leaf the nodes stay as they were.
pub open spec fn removed_nodes<B: AabbBounds>(nodes: Seq<Node<B>>, free: Seq<u32>, root: NodeIndex, bounds: B) -> Seq<Node<B>> {
    if root.0 == NODE_INDEX_NONE {
        nodes
    } else {
        match find_in(nodes, root.0 as int, bounds, nodes.len()) {
            None => nodes,
            Some(l) => if l == root.0 as int {
                freed_nodes(nodes, free, l as u32)
            } else {
                let p = nodes[l].parent_index.0 as int;
                let pn = nodes[p];
                let g = pn.parent_index;
                let sib = if pn.left_or_nextfree as int == l { pn.right_or_userdata } else { pn.left_or_nextfree };
                let n1 = if g.0 != NODE_INDEX_NONE {
                    nodes.update(g.0 as int, with_child(nodes[g.0 as int], nodes[g.0 as int].left_or_nextfree as int == p, sib))
                } else {
                    nodes
                };
                let n2 = n1.update(sib as int, Node { parent_index: g, ..n1[sib as int] });
                let n3 = freed_nodes(n2, free, p as u32);
                let n4 = freed_nodes(n3, seq![p as u32] + free, l as u32);
                if g.0 != NODE_INDEX_NONE { refit_path(n4, g, true, n4.len()) } else { n4 }
            },
        }
    }
}

} // verus!
