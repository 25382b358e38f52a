//! Positions, axis-aligned boxes and the planar distance between positions.

use vstd::prelude::*;

verus! {

/// Hundred-millionths of a metre per coordinate unit along x.
pub const SCALE_X: u64 = 852_952;

/// Hundred-millionths of a metre per coordinate unit along y.
pub const SCALE_Y: u64 = 1_109_480;

/// Hundred-millionths of a metre in one metre.
pub const UNITS_PER_METRE: u64 = 100_000_000;

/// A point; `x` runs along the longitude and `y` along the latitude.
#[derive(Clone, Copy, Debug, PartialEq, Eq, Structural)]
pub struct Position {
    pub x: i32,
    pub y: i32,
}

impl Position {
    /// The point at `x` and `y`.
    pub fn new(x: i32, y: i32) -> (p: Position)
        ensures
            p.x == x,
            p.y == y,
    {
        Position { x, y }
    }
}

/// Square of the planar distance between two positions, in squared
/// hundred-millionths of a metre.
pub open spec fn distance_squared(a: Position, b: Position) -> int {
    let dx = (a.x - b.x) * SCALE_X;
    let dy = (a.y - b.y) * SCALE_Y;
    dx * dx + dy * dy
}

/// The squared distance is not negative, fits 114 bits, and is the same in
/// both directions.
pub proof fn lemma_distance_squared_bounds(a: Position, b: Position)
    ensures
        0 <= distance_squared(a, b) <= 0x2_0000_0000_0000_0000_0000_0000_0000,
        distance_squared(a, b) == distance_squared(b, a),
{
    let dx = (a.x - b.x) * SCALE_X;
    let dy = (a.y - b.y) * SCALE_Y;
    assert(-0x1_0000_0000 < a.x - b.x < 0x1_0000_0000);
    assert(-0x1_0000_0000 < a.y - b.y < 0x1_0000_0000);
    assert(-0x10_0000_0000_0000 < dx < 0x10_0000_0000_0000) by (nonlinear_arith)
        requires
            dx == (a.x - b.x) * 852_952,
            -0x1_0000_0000 < a.x - b.x < 0x1_0000_0000,
    ;
    assert(-0x20_0000_0000_0000 < dy < 0x20_0000_0000_0000) by (nonlinear_arith)
        requires
            dy == (a.y - b.y) * 1_109_480,
            -0x1_0000_0000 < a.y - b.y < 0x1_0000_0000,
    ;
    assert(0 <= dx * dx <= 0x100_0000_0000_0000_0000_0000_0000) by (nonlinear_arith)
        requires
            -0x10_0000_0000_0000 < dx < 0x10_0000_0000_0000,
    ;
    assert(0 <= dy * dy <= 0x400_0000_0000_0000_0000_0000_0000) by (nonlinear_arith)
        requires
            -0x20_0000_0000_0000 < dy < 0x20_0000_0000_0000,
    ;
    let ex = (b.x - a.x) * SCALE_X;
    let ey = (b.y - a.y) * SCALE_Y;
    assert(ex * ex == dx * dx) by (nonlinear_arith)
        requires
            ex == (b.x - a.x) * 852_952,
            dx == (a.x - b.x) * 852_952,
    ;
    assert(ey * ey == dy * dy) by (nonlinear_arith)
        requires
            ey == (b.y - a.y) * 1_109_480,
            dy == (a.y - b.y) * 1_109_480,
    ;
}

/// Square of the planar distance between two positions.
pub fn distance_sq(a: &Position, b: &Position) -> (d: u128)
    ensures
        d == distance_squared(*a, *b),
{
    proof {
        lemma_distance_squared_bounds(*a, *b);
    }
    let dx: i128 = (a.x as i128 - b.x as i128) * (SCALE_X as i128);
    let dy: i128 = (a.y as i128 - b.y as i128) * (SCALE_Y as i128);
    assert(-0x10_0000_0000_0000 < dx < 0x10_0000_0000_0000) by (nonlinear_arith)
        requires
            dx == (a.x - b.x) * 852_952,
            -0x1_0000_0000 < a.x - b.x < 0x1_0000_0000,
    ;
    assert(-0x20_0000_0000_0000 < dy < 0x20_0000_0000_0000) by (nonlinear_arith)
        requires
            dy == (a.y - b.y) * 1_109_480,
            -0x1_0000_0000 < a.y - b.y < 0x1_0000_0000,
    ;
    assert(0 <= dx * dx <= 0x100_0000_0000_0000_0000_0000_0000) by (nonlinear_arith)
        requires
            -0x10_0000_0000_0000 < dx < 0x10_0000_0000_0000,
    ;
    assert(0 <= dy * dy <= 0x400_0000_0000_0000_0000_0000_0000) by (nonlinear_arith)
        requires
            -0x20_0000_0000_0000 < dy < 0x20_0000_0000_0000,
    ;
    let sx: i128 = dx * dx;
    let sy: i128 = dy * dy;
    (sx + sy) as u128
}

/// Whether `root` is the square root of `n`, rounded down.
pub open spec fn is_floor_sqrt(root: int, n: int) -> bool {
    0 <= root && root * root <= n < (root + 1) * (root + 1)
}

/// A rounded-down square root is below a whole bound exactly if the number
/// is below the square of the bound: comparing distances and comparing
/// their squares come to the same.
pub proof fn lemma_sqrt_below_bound(root: int, n: int, bound: int)
    requires
        is_floor_sqrt(root, n),
        0 <= bound,
    ensures
        root < bound <==> n < bound * bound,
{
    if root < bound {
        assert((root + 1) * (root + 1) <= bound * bound) by (nonlinear_arith)
            requires
                0 <= root + 1 <= bound,
        ;
    } else {
        assert(bound * bound <= root * root) by (nonlinear_arith)
            requires
                0 <= bound <= root,
        ;
    }
}

/// The square root of `n`, rounded down.
pub fn integer_sqrt(n: u128) -> (root: u64)
    ensures
        is_floor_sqrt(root as int, n as int),
{
    let mut low: u128 = 0;
    let mut high: u128 = 0x1_0000_0000_0000_0000;
    assert(n < high * high) by (nonlinear_arith)
        requires
            high == 0x1_0000_0000_0000_0000,
            n <= 0xffff_ffff_ffff_ffff_ffff_ffff_ffff_ffff,
    ;
    while high - low > 1
        invariant
            low < high <= 0x1_0000_0000_0000_0000,
            low * low <= n < high * high,
        decreases high - low,
    {
        let middle: u128 = low + (high - low) / 2;
        assert(middle * middle <= 0xffff_ffff_ffff_ffff * 0xffff_ffff_ffff_ffff)
            by (nonlinear_arith)
            requires
                0 <= middle <= 0xffff_ffff_ffff_ffff,
        ;
        if middle * middle <= n {
            low = middle;
        } else {
            high = middle;
        }
    }
    low as u64
}

/// The planar distance between two positions in hundred-millionths of a
/// metre, rounded down.
pub fn distance(point1: &Position, point2: &Position) -> (d: u64)
    ensures
        is_floor_sqrt(d as int, distance_squared(*point1, *point2)),
{
    integer_sqrt(distance_sq(point1, point2))
}

/// An axis-aligned box; both corners belong to it.
#[derive(Clone, Copy, Debug, PartialEq, Eq, Structural)]
pub struct Boundary {
    pub corner_max: Position,
    pub corner_min: Position,
}

impl Boundary {
    /// Whether `point` lies in the box, edges included.
    pub open spec fn contains_spec(self, point: Position) -> bool {
        &&& self.corner_min.x <= point.x <= self.corner_max.x
        &&& self.corner_min.y <= point.y <= self.corner_max.y
    }

    /// Whether the two boxes share a point.
    pub open spec fn overlaps_spec(self, other: Boundary) -> bool {
        &&& self.corner_min.x <= other.corner_max.x
        &&& self.corner_min.y <= other.corner_max.y
        &&& self.corner_max.x >= other.corner_min.x
        &&& self.corner_max.y >= other.corner_min.y
    }

    /// Width times height, in squared coordinate units.
    pub open spec fn area_spec(self) -> int {
        (self.corner_max.x - self.corner_min.x) * (self.corner_max.y - self.corner_min.y)
    }

    /// Whether `point` lies in the box, edges included.
    pub fn contains(&self, point: &Position) -> (inside: bool)
        ensures
            inside == self.contains_spec(*point),
    {
        point.x <= self.corner_max.x && point.y <= self.corner_max.y && point.x
            >= self.corner_min.x && point.y >= self.corner_min.y
    }

    /// Whether the two boxes share a point.
    pub fn does_overlap(&self, other: &Boundary) -> (overlap: bool)
        ensures
            overlap == self.overlaps_spec(*other),
    {
        self.corner_min.x <= other.corner_max.x && self.corner_min.y <= other.corner_max.y
            && self.corner_max.x >= other.corner_min.x && self.corner_max.y
            >= other.corner_min.y
    }

    /// Width times height, in squared coordinate units.
    pub fn area(&self) -> (a: i128)
        ensures
            a == self.area_spec(),
    {
        let w: i128 = self.corner_max.x as i128 - self.corner_min.x as i128;
        let h: i128 = self.corner_max.y as i128 - self.corner_min.y as i128;
        assert(-0x1_0000_0000_0000_0000 <= w * h <= 0x1_0000_0000_0000_0000) by (nonlinear_arith)
            requires
                -0x1_0000_0000 < w < 0x1_0000_0000,
                -0x1_0000_0000 < h < 0x1_0000_0000,
        ;
        w * h
    }
}

/// A box holds the points on its edges: every point whose coordinates lie
/// between those of the two corners, the corners' own coordinates included.
pub proof fn lemma_edges_belong_to_box(b: Boundary, p: Position)
    requires
        b.corner_min.x <= b.corner_max.x,
        b.corner_min.y <= b.corner_max.y,
    ensures
        b.contains_spec(b.corner_min),
        b.contains_spec(b.corner_max),
        (p.x == b.corner_min.x || p.x == b.corner_max.x) && b.corner_min.y <= p.y <= b.corner_max.y
            ==> b.contains_spec(p),
        (p.y == b.corner_min.y || p.y == b.corner_max.y) && b.corner_min.x <= p.x <= b.corner_max.x
            ==> b.contains_spec(p),
{
}

} // verus!
