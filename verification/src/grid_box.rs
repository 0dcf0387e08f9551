//! Boxes with integer corners, which the bounding-volume tree can hold where positions lie
//! on a grid. Their geometry is exact, so every method of `AabbBounds` is proved here.
use vstd::prelude::*;
use crate::aabb_tree::AabbBounds;

verus! {

/// An axis-aligned box with integer corners: the lowest corner `(min_x, min_y, min_z)` and
/// the highest corner `(max_x, max_y, max_z)`.
#[derive(Clone, Copy, PartialEq, Eq, Structural, Debug)]
pub struct GridBox {
    pub min_x: i16,
    pub min_y: i16,
    pub min_z: i16,
    pub max_x: i16,
    pub max_y: i16,
    pub max_z: i16,
}

/// The smaller of two coordinates.
pub open spec fn coord_min(a: i16, b: i16) -> i16 {
    if a <= b { a } else { b }
}

/// The larger of two coordinates.
pub open spec fn coord_max(a: i16, b: i16) -> i16 {
    if a >= b { a } else { b }
}

/// A cost clamped into the range of `i64`.
pub open spec fn clamp_cost(v: int) -> i64 {
    if v > i64::MAX { i64::MAX } else if v < i64::MIN { i64::MIN } else { v as i64 }
}

/// Twice the sum of the products of the box's extents taken in pairs: its surface area.
pub open spec fn grid_area(b: GridBox) -> i64 {
    let dx = b.max_x - b.min_x;
    let dy = b.max_y - b.min_y;
    let dz = b.max_z - b.min_z;
    (2 * (dx * dy + dy * dz + dz * dx)) as i64
}

fn min_i16(a: i16, b: i16) -> (r: i16)
    ensures
        r == coord_min(a, b),
{
    if a <= b { a } else { b }
}

fn max_i16(a: i16, b: i16) -> (r: i16)
    ensures
        r == coord_max(a, b),
{
    if a >= b { a } else { b }
}

fn extent(lo: i16, hi: i16) -> (r: i64)
    ensures
        r == hi - lo,
{
    hi as i64 - lo as i64
}

/// The square of half the gap between `lo1 + hi1` and `lo2 + hi2`: on one axis, the
/// squared distance between the centres of the spans `lo1..hi1` and `lo2..hi2`, with the
/// half rounded toward zero.
pub open spec fn grid_half_gap(lo1: i16, hi1: i16, lo2: i16, hi2: i16) -> i64 {
    let a = lo1 + hi1;
    let b = lo2 + hi2;
    let d: int = if a >= b { a - b } else { b - a };
    ((d / 2) * (d / 2)) as i64
}

/// The square of the distance, on one axis, between the centres of the spans `lo1..hi1` and
/// `lo2..hi2`, with the centres rounded toward zero.
fn half_gap(lo1: i16, hi1: i16, lo2: i16, hi2: i16) -> (r: i64)
    ensures
        r == grid_half_gap(lo1, hi1, lo2, hi2),
        0 <= r < 0x4_0000_0000,
{
    let a = lo1 as i64 + hi1 as i64;
    let b = lo2 as i64 + hi2 as i64;
    let d = if a >= b { a - b } else { b - a };
    let h = d / 2;
    assert(0 <= h < 0x2_0000);
    assert(0 <= h * h < 0x4_0000_0000) by (nonlinear_arith)
        requires 0 <= h < 0x2_0000;
    h * h
}

fn add_clamped(a: i64, b: i64) -> (r: i64)
    ensures
        r == clamp_cost(a + b),
{
    match a.checked_add(b) {
        Some(v) => v,
        None => if b > 0 { i64::MAX } else { i64::MIN },
    }
}

impl AabbBounds for GridBox {
    type Cost = i64;

    open spec fn spec_union(self, other: Self) -> Self {
        GridBox {
            min_x: coord_min(self.min_x, other.min_x),
            min_y: coord_min(self.min_y, other.min_y),
            min_z: coord_min(self.min_z, other.min_z),
            max_x: coord_max(self.max_x, other.max_x),
            max_y: coord_max(self.max_y, other.max_y),
            max_z: coord_max(self.max_z, other.max_z),
        }
    }

    open spec fn spec_area(self) -> i64 {
        grid_area(self)
    }

    open spec fn spec_overlaps(self, other: Self) -> bool {
        &&& self.min_x <= other.max_x && self.max_x >= other.min_x
        &&& self.min_y <= other.max_y && self.max_y >= other.min_y
        &&& self.min_z <= other.max_z && self.max_z >= other.min_z
    }

    open spec fn spec_same(self, other: Self) -> bool {
        self == other
    }

    open spec fn spec_cost_add(a: i64, b: i64) -> i64 {
        clamp_cost(a + b)
    }

    open spec fn spec_cost_lt(a: i64, b: i64) -> bool {
        a < b
    }

    open spec fn spec_cost_le(a: i64, b: i64) -> bool {
        a <= b
    }

    open spec fn spec_cost_max() -> i64 {
        i64::MAX
    }

    open spec fn spec_cost_min(a: i64, b: i64) -> i64 {
        if a <= b { a } else { b }
    }

    open spec fn spec_cost_eq(a: i64, b: i64) -> bool {
        a == b
    }

    open spec fn spec_centroid_distance_squared(self, other: Self) -> i64 {
        (grid_half_gap(self.min_x, self.max_x, other.min_x, other.max_x)
            + grid_half_gap(self.min_y, self.max_y, other.min_y, other.max_y)
            + grid_half_gap(self.min_z, self.max_z, other.min_z, other.max_z)) as i64
    }

    open spec fn spec_cost_zero() -> i64 {
        0
    }

    open spec fn spec_cost_sub(a: i64, b: i64) -> i64 {
        clamp_cost(a - b)
    }

    proof fn lemma_cost_lt_transitive(a: i64, b: i64, c: i64) {
    }

    open spec fn spec_holds(self, inner: Self) -> bool {
        &&& self.min_x <= inner.min_x && self.min_y <= inner.min_y && self.min_z <= inner.min_z
        &&& self.max_x >= inner.max_x && self.max_y >= inner.max_y && self.max_z >= inner.max_z
    }

    proof fn lemma_union_holds(a: Self, b: Self) {
    }

    proof fn lemma_holds_union(outer: Self, a: Self, b: Self) {
    }

    proof fn lemma_holds_transitive(a: Self, b: Self, c: Self) {
    }

    proof fn lemma_holds_overlaps(outer: Self, inner: Self, q: Self) {
    }

    proof fn lemma_same_overlaps(a: Self, b: Self) {
    }

    proof fn lemma_same_reflexive(a: Self) {
    }

    proof fn lemma_union_commutative(a: Self, b: Self) {
    }

    proof fn lemma_union_associative(a: Self, b: Self, c: Self) {
    }

    fn unioned_with(&self, other: &Self) -> (r: Self) {
        GridBox {
            min_x: min_i16(self.min_x, other.min_x),
            min_y: min_i16(self.min_y, other.min_y),
            min_z: min_i16(self.min_z, other.min_z),
            max_x: max_i16(self.max_x, other.max_x),
            max_y: max_i16(self.max_y, other.max_y),
            max_z: max_i16(self.max_z, other.max_z),
        }
    }

    fn surface_area(&self) -> (r: i64) {
        let dx = extent(self.min_x, self.max_x);
        let dy = extent(self.min_y, self.max_y);
        let dz = extent(self.min_z, self.max_z);
        assert(-65536 < dx < 65536 && -65536 < dy < 65536 && -65536 < dz < 65536);
        assert(-0x1_0000_0000 < dx * dy < 0x1_0000_0000) by (nonlinear_arith)
            requires -65536 < dx < 65536 && -65536 < dy < 65536;
        assert(-0x1_0000_0000 < dy * dz < 0x1_0000_0000) by (nonlinear_arith)
            requires -65536 < dy < 65536 && -65536 < dz < 65536;
        assert(-0x1_0000_0000 < dz * dx < 0x1_0000_0000) by (nonlinear_arith)
            requires -65536 < dz < 65536 && -65536 < dx < 65536;
        2 * (dx * dy + dy * dz + dz * dx)
    }

    fn overlaps(&self, other: &Self) -> (r: bool) {
        self.min_x <= other.max_x && self.max_x >= other.min_x
            && self.min_y <= other.max_y && self.max_y >= other.min_y
            && self.min_z <= other.max_z && self.max_z >= other.min_z
    }

    fn same_bounds(&self, other: &Self) -> (r: bool) {
        self.min_x == other.min_x && self.min_y == other.min_y && self.min_z == other.min_z
            && self.max_x == other.max_x && self.max_y == other.max_y && self.max_z == other.max_z
    }

    fn centroid_distance_squared(&self, other: &Self) -> (r: i64) {
        let dx = half_gap(self.min_x, self.max_x, other.min_x, other.max_x);
        let dy = half_gap(self.min_y, self.max_y, other.min_y, other.max_y);
        let dz = half_gap(self.min_z, self.max_z, other.min_z, other.max_z);
        dx + dy + dz
    }

    fn cost_zero() -> (r: i64) {
        0
    }

    fn cost_max() -> (r: i64) {
        i64::MAX
    }

    fn cost_add(a: i64, b: i64) -> (r: i64) {
        add_clamped(a, b)
    }

    fn cost_sub(a: i64, b: i64) -> (r: i64) {
        match a.checked_sub(b) {
            Some(v) => v,
            None => if b > 0 { i64::MIN } else { i64::MAX },
        }
    }

    fn cost_min(a: i64, b: i64) -> (r: i64) {
        if a <= b { a } else { b }
    }

    fn cost_lt(a: i64, b: i64) -> (r: bool) {
        a < b
    }

    fn cost_le(a: i64, b: i64) -> (r: bool) {
        a <= b
    }

    fn cost_eq(a: i64, b: i64) -> (r: bool) {
        a == b
    }
}

/// Grid box costs are ordered: no cost is below itself, and `a <= b` rules out `b < a`.
/// These are what the tree's rotation needs to pick the cheapest move.
pub proof fn lemma_grid_costs_ordered()
    ensures
        forall|a: i64| !#[trigger] <GridBox as AabbBounds>::spec_cost_lt(a, a),
        forall|a: i64, b: i64| #[trigger] <GridBox as AabbBounds>::spec_cost_le(a, b)
            ==> !<GridBox as AabbBounds>::spec_cost_lt(b, a),
{
}

} // verus!
