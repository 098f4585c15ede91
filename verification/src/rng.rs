//! Random draws for particle placement, behind a trusted boundary.

use vstd::prelude::*;
use core::ops::Range;
use crate::geom::Coord;

verus! {

/// Relies on `rand::random_range` on the thread-local generator: it returns a
/// value sampled from the half-open range and panics only on an empty range,
/// which the precondition rules out. Nothing more is assumed of the draw.
#[verifier::external_body]
fn random_i64_in(lo: i64, hi: i64) -> (r: i64)
    requires
        lo < hi,
    ensures
        lo <= r < hi,
{
    rand::random_range(lo..hi)
}

impl Coord {
    /// A coordinate drawn uniformly from `x` by `y`.
    pub fn rand(x: Range<i64>, y: Range<i64>) -> (c: Coord)
        requires
            x.start < x.end,
            y.start < y.end,
        ensures
            x.start <= c.x < x.end,
            y.start <= c.y < y.end,
    {
        let cx: i64 = random_i64_in(x.start, x.end);
        let cy: i64 = random_i64_in(y.start, y.end);
        Coord::new(cx, cy)
    }
}

} // verus!
