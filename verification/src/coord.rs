//! Fixed-point coordinates and squared Euclidean distance.
//!
//! Coordinates are signed fixed-point values; every component must lie
//! within `COORD_LIMIT` so that squared distances fit in `u64` without
//! overflow. The bound is the fixed-point analogue of demanding finite
//! coordinate components: out-of-range input is ruled out by `requires`,
//! never by a runtime check.

use vstd::prelude::*;

verus! {

/// Largest admissible magnitude of a coordinate component (2^30).
pub const COORD_LIMIT: i64 = 0x4000_0000;

/// Largest admissible query radius. It exceeds the diameter of the valid
/// coordinate cube, so every pair of valid points lies within it, and its
/// square still fits in `u64`.
pub const RADIUS_LIMIT: i64 = 4_000_000_000;

/// A 2D or 3D position. A 2D index keeps `z` at zero.
#[derive(Clone, Copy, PartialEq, Eq, Structural, Debug)]
pub struct Coord {
    pub x: i64,
    pub y: i64,
    pub z: i64,
}

impl Coord {
    /// Every component lies within the fixed-point range.
    pub open spec fn valid(self) -> bool {
        &&& -COORD_LIMIT <= self.x <= COORD_LIMIT
        &&& -COORD_LIMIT <= self.y <= COORD_LIMIT
        &&& -COORD_LIMIT <= self.z <= COORD_LIMIT
    }

    /// Component along axis `a` (0 = x, 1 = y, 2 = z).
    pub open spec fn spec_axis(self, a: int) -> int {
        if a == 0 {
            self.x as int
        } else if a == 1 {
            self.y as int
        } else {
            self.z as int
        }
    }

    /// Executable component access along axis `a`.
    pub fn axis_val(&self, a: usize) -> (r: i64)
        requires
            a < 3,
        ensures
            r as int == self.spec_axis(a as int),
    {
        if a == 0 {
            self.x
        } else if a == 1 {
            self.y
        } else {
            self.z
        }
    }

    pub fn new(x: i64, y: i64, z: i64) -> (r: Coord)
        ensures
            r == (Coord { x, y, z }),
    {
        Coord { x, y, z }
    }
}

/// Squared Euclidean distance between two coordinates, as a mathematical integer.
pub open spec fn dist_sq_spec(a: Coord, b: Coord) -> int {
    let dx = a.x as int - b.x as int;
    let dy = a.y as int - b.y as int;
    let dz = a.z as int - b.z as int;
    dx * dx + dy * dy + dz * dz
}

/// A square is never negative.
proof fn lemma_square_nonneg(d: int)
    ensures
        d * d >= 0,
{
    assert(d * d >= 0) by (nonlinear_arith);
}

/// Squaring is monotone on non-negative values.
proof fn lemma_square_monotone(a: int, b: int)
    requires
        0 <= a <= b,
    ensures
        a * a <= b * b,
{
    assert(a * a <= b * b) by (nonlinear_arith)
        requires
            0 <= a <= b,
    ;
}

/// The full squared distance dominates the squared difference along any single axis.
pub proof fn lemma_axis_diff_le_dist(a: Coord, b: Coord, ax: int)
    ensures
        (a.spec_axis(ax) - b.spec_axis(ax)) * (a.spec_axis(ax) - b.spec_axis(ax))
            <= dist_sq_spec(a, b),
{
    lemma_square_nonneg(a.x as int - b.x as int);
    lemma_square_nonneg(a.y as int - b.y as int);
    lemma_square_nonneg(a.z as int - b.z as int);
}

/// If the gap between a point and a splitting plane along one axis is at least
/// `gap`, the squared distance is at least `gap * gap`.
pub proof fn lemma_plane_gap_bounds_dist(a: Coord, b: Coord, ax: int, gap: int)
    requires
        0 <= gap,
        a.spec_axis(ax) - b.spec_axis(ax) >= gap || b.spec_axis(ax) - a.spec_axis(ax) >= gap,
    ensures
        dist_sq_spec(a, b) >= gap * gap,
{
    let d = a.spec_axis(ax) - b.spec_axis(ax);
    lemma_axis_diff_le_dist(a, b, ax);
    if d >= gap {
        lemma_square_monotone(gap, d);
    } else {
        lemma_square_monotone(gap, -d);
        assert((-d) * (-d) == d * d) by (nonlinear_arith);
    }
}

/// Executable squared distance. The coordinate bound keeps every
/// intermediate value inside `u64`.
pub fn dist_sq(a: Coord, b: Coord) -> (r: u64)
    requires
        a.valid(),
        b.valid(),
    ensures
        r as int == dist_sq_spec(a, b),
{
    let dx: i64 = a.x - b.x;
    let dy: i64 = a.y - b.y;
    let dz: i64 = a.z - b.z;
    proof {
        assert(dx * dx <= 0x4000_0000_0000_0000) by (nonlinear_arith)
            requires
                -0x8000_0000i64 <= dx <= 0x8000_0000i64,
        ;
        assert(dy * dy <= 0x4000_0000_0000_0000) by (nonlinear_arith)
            requires
                -0x8000_0000i64 <= dy <= 0x8000_0000i64,
        ;
        assert(dz * dz <= 0x4000_0000_0000_0000) by (nonlinear_arith)
            requires
                -0x8000_0000i64 <= dz <= 0x8000_0000i64,
        ;
        lemma_square_nonneg(dx as int);
        lemma_square_nonneg(dy as int);
        lemma_square_nonneg(dz as int);
    }
    let sx: u64 = (dx * dx) as u64;
    let sy: u64 = (dy * dy) as u64;
    let sz: u64 = (dz * dz) as u64;
    sx + sy + sz
}

/// Executable squared difference of two in-range values.
pub fn sq_of_diff(a: i64, b: i64) -> (r: u64)
    requires
        -COORD_LIMIT <= a <= COORD_LIMIT,
        -COORD_LIMIT <= b <= COORD_LIMIT,
    ensures
        r as int == (a - b) * (a - b),
{
    let d: i64 = a - b;
    proof {
        assert(d * d <= 0x4000_0000_0000_0000) by (nonlinear_arith)
            requires
                -0x8000_0000i64 <= d <= 0x8000_0000i64,
        ;
        lemma_square_nonneg(d as int);
    }
    (d * d) as u64
}

} // verus!
