//! Shared geometry primitives: fixed-point coordinates, squared distance and
//! clamping.

use vstd::prelude::*;

verus! {

/// Stored steps per physical unit of the surface: coordinates are fixed-point
/// values in thousandths of a unit.
pub const SCALE: i64 = 1000;

/// Largest coordinate magnitude the library accepts. The bound keeps every
/// squared-distance computation inside `i64`.
pub const MAX_DIM: i64 = 1_000_000_000;

/// Squared-distance threshold below which a particle is pulled onto its
/// nearest neighbor: 0.01 square units, in stored steps squared.
pub const THRESHOLD_SQ: i64 = 10_000;

/// A position on the surface; a plain value with no identity.
#[derive(Clone, Copy, Debug, PartialEq, Eq, Structural)]
pub struct Coord {
    pub x: i64,
    pub y: i64,
}

/// Both coordinates are small enough for squared-distance arithmetic.
pub open spec fn coord_bounded(c: Coord) -> bool {
    &&& -MAX_DIM <= c.x <= MAX_DIM
    &&& -MAX_DIM <= c.y <= MAX_DIM
}

/// The coordinate lies within the rectangle `[0, w] x [0, h]`.
pub open spec fn in_box(c: Coord, w: int, h: int) -> bool {
    &&& 0 <= c.x <= w
    &&& 0 <= c.y <= h
}

/// Squared Euclidean distance between two coordinates.
pub open spec fn sqdist(a: Coord, b: Coord) -> int {
    (a.x - b.x) * (a.x - b.x) + (a.y - b.y) * (a.y - b.y)
}

/// `v` clamped into `[0, hi]`.
pub open spec fn clamp_val(v: int, hi: int) -> int {
    if v < 0 {
        0
    } else if v > hi {
        hi
    } else {
        v
    }
}

/// Where a particle lands when pulled onto `target`: both axes are clamped
/// into `[0, w]`. The surface width deliberately bounds the y axis as well:
/// that is the movement rule's documented behavior, kept as it stands.
pub open spec fn pulled_coord(target: Coord, w: int) -> Coord {
    Coord { x: clamp_val(target.x as int, w) as i64, y: clamp_val(target.y as int, w) as i64 }
}

impl Coord {
    pub fn new(x: i64, y: i64) -> (c: Coord)
        ensures
            c.x == x,
            c.y == y,
    {
        Coord { x, y }
    }

    pub fn squared_distance(&self, other: &Coord) -> (d: i64)
        requires
            coord_bounded(*self),
            coord_bounded(*other),
        ensures
            d == sqdist(*self, *other),
            d >= 0,
    {
        let dx: i64 = self.x - other.x;
        let dy: i64 = self.y - other.y;
        proof {
            lemma_square_bounded(dx as int);
            lemma_square_bounded(dy as int);
        }
        dx * dx + dy * dy
    }
}

/// A square of a coordinate difference is nonnegative and fits in `i64`
/// arithmetic when the factor is at most twice the coordinate bound.
proof fn lemma_square_bounded(v: int)
    requires
        -2 * MAX_DIM <= v <= 2 * MAX_DIM,
    ensures
        0 <= v * v <= 4_000_000_000_000_000_000,
{
    assert(0 <= v * v <= 4_000_000_000_000_000_000) by (nonlinear_arith)
        requires -2_000_000_000 <= v <= 2_000_000_000;
}

/// `v` clamped into `[0, hi]`.
pub fn clamp_to(v: i64, hi: i64) -> (r: i64)
    requires
        0 <= hi,
    ensures
        r == clamp_val(v as int, hi as int),
{
    if v < 0 {
        0
    } else if v > hi {
        hi
    } else {
        v
    }
}

} // verus!
