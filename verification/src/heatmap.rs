//! Binning particle positions into a fixed-resolution grid and tracking the
//! peak cell occupancy.

use vstd::prelude::*;
use crate::geom::Coord;
use crate::world::{Particle, World};
use vstd::arithmetic::div_mod::lemma_div_pos_is_pos;
use vstd::arithmetic::mul::lemma_mul_nonnegative;

verus! {

/// How surface coordinates map onto grid cells: the surface dimensions and
/// the grid dimensions.
pub struct Binning {
    pub cw: int,
    pub ch: int,
    pub gw: int,
    pub gh: int,
}

pub open spec fn bin_wf(b: Binning) -> bool {
    &&& 0 < b.cw
    &&& 0 < b.ch
    &&& 1 <= b.gw
    &&& 1 <= b.gh
}

/// The grid index of a coordinate along one axis: the coordinate scaled from
/// surface units into grid cells and floored; an index that falls past the
/// grid (a coordinate at or beyond the surface bound) is clamped to the last
/// cell.
pub open spec fn axis_cell(v: int, dim: int, g: int) -> int {
    let q = (v * g) / dim;
    if q >= g {
        g - 1
    } else {
        q
    }
}

/// The flat row-major grid cell a coordinate falls into.
pub open spec fn cell_of(c: Coord, b: Binning) -> int {
    axis_cell(c.y as int, b.ch, b.gh) * b.gw + axis_cell(c.x as int, b.cw, b.gw)
}

/// Every particle has nonnegative coordinates.
pub open spec fn coords_nonneg(s: Seq<Particle>) -> bool {
    forall|j: int| 0 <= j < s.len() ==> (#[trigger] s[j].coord).x >= 0 && s[j].coord.y >= 0
}

/// How many of the particles fall into grid cell `cell`.
pub open spec fn count_in_cell(s: Seq<Particle>, b: Binning, cell: int) -> nat
    decreases s.len(),
{
    if s.len() == 0 {
        0
    } else {
        count_in_cell(s.drop_last(), b, cell) + (if cell_of(s.last().coord, b) == cell {
            1nat
        } else {
            0nat
        })
    }
}

/// The cell counts summed over the cells below `k`.
pub open spec fn sum_counts_upto(s: Seq<Particle>, b: Binning, k: int) -> nat
    decreases k,
{
    if k <= 0 {
        0
    } else {
        sum_counts_upto(s, b, k - 1) + count_in_cell(s, b, k - 1)
    }
}

/// A nonnegative coordinate lands in a valid cell of the grid.
pub proof fn lemma_cell_of_in_range(c: Coord, b: Binning)
    requires
        bin_wf(b),
        c.x >= 0,
        c.y >= 0,
    ensures
        0 <= cell_of(c, b) < b.gw * b.gh,
{
    lemma_axis_cell_in_range(c.x as int, b.cw, b.gw);
    lemma_axis_cell_in_range(c.y as int, b.ch, b.gh);
    let xi = axis_cell(c.x as int, b.cw, b.gw);
    let yi = axis_cell(c.y as int, b.ch, b.gh);
    assert(0 <= yi * b.gw + xi < b.gw * b.gh) by (nonlinear_arith)
        requires
            0 <= xi < b.gw,
            0 <= yi < b.gh,
    ;
}

proof fn lemma_axis_cell_in_range(v: int, dim: int, g: int)
    requires
        v >= 0,
        0 < dim,
        1 <= g,
    ensures
        0 <= axis_cell(v, dim, g) < g,
{
    lemma_mul_nonnegative(v, g);
    lemma_div_pos_is_pos(v * g, dim);
}

/// When every particle falls into cell `c`, that cell counts them all and
/// every other cell counts none.
pub proof fn lemma_count_all_same(s: Seq<Particle>, b: Binning, c: int, c2: int)
    requires
        forall|j: int| 0 <= j < s.len() ==> cell_of((#[trigger] s[j]).coord, b) == c,
    ensures
        count_in_cell(s, b, c2) == if c2 == c {
            s.len() as int
        } else {
            0
        },
    decreases s.len(),
{
    if s.len() > 0 {
        assert(s.last() == s[s.len() - 1]);
        lemma_count_all_same(s.drop_last(), b, c, c2);
    }
}

proof fn lemma_sum_counts_empty(b: Binning, k: int)
    ensures
        sum_counts_upto(Seq::<Particle>::empty(), b, k) == 0,
    decreases k,
{
    if k > 0 {
        lemma_sum_counts_empty(b, k - 1);
    }
}

/// Dropping the last particle lowers the summed counts by one exactly when
/// that particle's cell lies below `k`.
proof fn lemma_sum_counts_extend(s: Seq<Particle>, b: Binning, k: int)
    requires
        s.len() > 0,
    ensures
        sum_counts_upto(s, b, k) == sum_counts_upto(s.drop_last(), b, k) + (if 0 <= cell_of(
            s.last().coord,
            b,
        ) < k {
            1nat
        } else {
            0nat
        }),
    decreases k,
{
    if k > 0 {
        lemma_sum_counts_extend(s, b, k - 1);
    }
}

/// The cell counts partition the particles: summed over the whole grid they
/// give back the particle total.
pub proof fn lemma_counts_partition(s: Seq<Particle>, b: Binning)
    requires
        bin_wf(b),
        coords_nonneg(s),
    ensures
        sum_counts_upto(s, b, b.gw * b.gh) == s.len(),
    decreases s.len(),
{
    if s.len() == 0 {
        assert(s =~= Seq::<Particle>::empty());
        lemma_sum_counts_empty(b, b.gw * b.gh);
    } else {
        assert(coords_nonneg(s.drop_last()));
        lemma_counts_partition(s.drop_last(), b);
        lemma_sum_counts_extend(s, b, b.gw * b.gh);
        assert(s.last() == s[s.len() - 1]);
        lemma_cell_of_in_range(s.last().coord, b);
    }
}

/// With every particle binned into one cell `c`, that cell's count is the
/// particle total, every other cell counts zero, and the counts over the
/// whole grid sum to the particle total.
pub proof fn lemma_same_cell_counts(s: Seq<Particle>, b: Binning, c: int)
    requires
        bin_wf(b),
        coords_nonneg(s),
        forall|j: int| 0 <= j < s.len() ==> cell_of((#[trigger] s[j]).coord, b) == c,
    ensures
        count_in_cell(s, b, c) == s.len(),
        forall|c2: int| c2 != c ==> count_in_cell(s, b, c2) == 0,
        sum_counts_upto(s, b, b.gw * b.gh) == s.len(),
{
    lemma_count_all_same(s, b, c, c);
    assert forall|c2: int| c2 != c implies count_in_cell(s, b, c2) == 0 by {
        lemma_count_all_same(s, b, c, c2);
    }
    lemma_counts_partition(s, b);
}

/// For a buffer of per-cell counts over particles that all fall into one
/// cell, a maximum that bounds every cell and is attained somewhere equals
/// the particle total.
pub proof fn lemma_same_cell_max(s: Seq<Particle>, b: Binning, c: int, buf: Seq<u32>, m: u32)
    requires
        bin_wf(b),
        coords_nonneg(s),
        buf.len() == b.gw * b.gh,
        1 <= s.len() <= u32::MAX,
        0 <= c < b.gw * b.gh,
        forall|j: int| 0 <= j < s.len() ==> cell_of((#[trigger] s[j]).coord, b) == c,
        forall|cc: int| 0 <= cc < buf.len() ==> buf[cc] == count_in_cell(s, b, cc),
        forall|cc: int| 0 <= cc < buf.len() ==> buf[cc] <= m,
        m == 0 || exists|cc: int| 0 <= cc < buf.len() && buf[cc] == m,
    ensures
        m == s.len(),
{
    lemma_same_cell_counts(s, b, c);
    assert(buf[c] == s.len());
    assert(m >= s.len() >= 1);
    let cc = choose|cc: int| 0 <= cc < buf.len() && buf[cc] == m;
    if cc != c {
        assert(buf[cc] == count_in_cell(s, b, cc));
        assert(buf[cc] == 0);
    }
}

/// A square bounded by `i64` and `u64` factors fits in `u128` arithmetic.
proof fn lemma_scale_product_fits(v: int, g: int)
    requires
        0 <= v <= i64::MAX,
        0 <= g <= u64::MAX,
    ensures
        0 <= v * g <= u128::MAX,
{
    assert(0 <= v * g <= u128::MAX) by (nonlinear_arith)
        requires
            0 <= v <= i64::MAX,
            0 <= g <= u64::MAX,
    ;
}

/// The grid index of a coordinate along one axis, floored and clamped to the
/// last cell so that a coordinate at the surface bound never indexes out of
/// the grid.
pub fn axis_index(v: i64, dim: i64, g: usize) -> (r: usize)
    requires
        0 <= v,
        0 < dim,
        1 <= g,
    ensures
        r == axis_cell(v as int, dim as int, g as int),
        r < g,
{
    proof {
        lemma_scale_product_fits(v as int, g as int);
        lemma_axis_cell_in_range(v as int, dim as int, g as int);
    }
    let q: u128 = (v as u128) * (g as u128) / (dim as u128);
    if q >= g as u128 {
        g - 1
    } else {
        q as usize
    }
}

impl World {
    /// How this world's surface maps onto a `gw` by `gh` grid.
    pub open spec fn binning(&self, gw: int, gh: int) -> Binning {
        Binning { cw: self.canvas.width as int, ch: self.canvas.height as int, gw, gh }
    }

    /// Bins every particle into the pre-zeroed row-major `buffer`,
    /// incrementing the cell each particle falls into, and returns the
    /// largest cell count observed. An index at the surface bound is clamped
    /// to the last cell; the pass never writes outside the grid.
    pub fn add_heatmap(&self, width: usize, height: usize, buffer: &mut Vec<u32>) -> (max_heat:
        u32)
        requires
            self.wf(),
            1 <= width,
            1 <= height,
            old(buffer)@.len() == width * height,
            forall|c: int| 0 <= c < old(buffer)@.len() ==> old(buffer)@[c] == 0,
            self.particles@.len() <= u32::MAX,
        ensures
            final(buffer)@.len() == width * height,
            forall|c: int|
                0 <= c < final(buffer)@.len() ==> final(buffer)@[c] == count_in_cell(
                    self.particles@,
                    self.binning(width as int, height as int),
                    c,
                ),
            forall|c: int| 0 <= c < final(buffer)@.len() ==> final(buffer)@[c] <= max_heat,
            max_heat == 0 || exists|c: int|
                0 <= c < final(buffer)@.len() && final(buffer)@[c] == max_heat,
    {
        let ghost bin = self.binning(width as int, height as int);
        let mut max_heat: u32 = 0;
        let mut k: usize = 0;
        let n = self.particles.len();
        while k < n
            invariant
                self.wf(),
                1 <= width,
                1 <= height,
                bin == self.binning(width as int, height as int),
                n == self.particles@.len(),
                n <= u32::MAX,
                k <= n,
                buffer@.len() == width * height,
                forall|c: int|
                    0 <= c < buffer@.len() ==> buffer@[c] == count_in_cell(
                        self.particles@.take(k as int),
                        bin,
                        c,
                    ),
                forall|c: int| 0 <= c < buffer@.len() ==> buffer@[c] <= max_heat,
                max_heat == 0 || exists|c: int| 0 <= c < buffer@.len() && buffer@[c] == max_heat,
                max_heat <= k,
            decreases n - k,
        {
            let p: Particle = self.particles[k];
            let xi: usize = axis_index(p.coord.x, self.canvas.width, width);
            let yi: usize = axis_index(p.coord.y, self.canvas.height, height);
            let cap: usize = buffer.len();
            proof {
                assert(yi * width + xi < width * height) by (nonlinear_arith)
                    requires
                        0 <= xi < width,
                        0 <= yi < height,
                ;
                assert(cap == width * height);
            }
            let cell: usize = yi * width + xi;
            let ghost old_buf = buffer@;
            let ghost old_max = max_heat;
            let v: u32 = buffer[cell] + 1;
            buffer[cell] = v;
            if v > max_heat {
                max_heat = v;
            }
            proof {
                let ghost taken = self.particles@.take(k as int + 1);
                assert(taken.drop_last() =~= self.particles@.take(k as int));
                assert(taken.last() == self.particles@[k as int]);
                assert(cell_of(p.coord, bin) == cell);
                assert(buffer@ == old_buf.update(cell as int, v));
                assert forall|c: int| 0 <= c < buffer@.len() implies buffer@[c] == count_in_cell(
                    taken,
                    bin,
                    c,
                ) by {
                    if c == cell {
                        assert(buffer@[c] == old_buf[c] + 1);
                    } else {
                        assert(buffer@[c] == old_buf[c]);
                    }
                }
                if max_heat == old_max {
                    assert(v <= old_max);
                    let c0 = choose|c: int| 0 <= c < old_buf.len() && old_buf[c] == old_max;
                    assert(old_buf[cell as int] < v);
                    assert(c0 != cell);
                    assert(buffer@[c0] == old_max);
                }
            }
            k = k + 1;
        }
        proof {
            assert(self.particles@.take(n as int) =~= self.particles@);
        }
        max_heat
    }
}

} // verus!
