//! The simulation state: the surface, its particles, and the per-tick
//! nearest-neighbor movement rule.

use vstd::prelude::*;
use core::ops::Range;
use crate::geom::{
    Coord, coord_bounded, in_box, sqdist, clamp_val, pulled_coord, clamp_to, MAX_DIM, SCALE,
    THRESHOLD_SQ,
};

verus! {

/// Particles generated per unit cell of the surface at initialization.
pub const PARTICLES_PER_CM: usize = 10_000;

/// Bound on the neighbor working set kept during a particle's scan.
pub const WORKING_SET_CAP: usize = 7;

/// A simulated entity; it carries nothing beyond its position.
#[derive(Clone, Copy, Debug, PartialEq, Eq, Structural)]
pub struct Particle {
    pub coord: Coord,
}

impl Particle {
    pub fn new(x: i64, y: i64) -> (p: Particle)
        ensures
            p.coord.x == x,
            p.coord.y == y,
    {
        Particle { coord: Coord::new(x, y) }
    }

    /// A particle placed uniformly at random within `x` by `y`.
    pub fn rand(x: Range<i64>, y: Range<i64>) -> (p: Particle)
        requires
            x.start < x.end,
            y.start < y.end,
        ensures
            x.start <= p.coord.x < x.end,
            y.start <= p.coord.y < y.end,
    {
        Particle { coord: Coord::rand(x, y) }
    }
}

/// Why a surface description was rejected.
#[derive(Clone, Copy, Debug, PartialEq, Eq, Structural)]
pub enum ConfigError {
    /// The width is zero, negative, or above `MAX_DIM`.
    InvalidWidth,
    /// The height is zero, negative, or above `MAX_DIM`.
    InvalidHeight,
}

/// The bounded rectangular surface the particles live on, plus a reference
/// point (the speaker) that the update rule does not consult.
#[derive(Clone, Copy, Debug)]
pub struct Canvas {
    pub width: i64,
    pub height: i64,
    pub speaker: Coord,
}

/// The dimension is positive and small enough for distance arithmetic.
pub open spec fn dim_valid(d: int) -> bool {
    0 < d <= MAX_DIM as int
}

impl Canvas {
    /// Well-formedness: both dimensions are positive and within `MAX_DIM`.
    pub open spec fn wf(&self) -> bool {
        &&& dim_valid(self.width as int)
        &&& dim_valid(self.height as int)
    }

    /// Validates a surface description: a degenerate dimension is rejected
    /// here so that no later pass divides by zero or scales negatively.
    pub fn new(width: i64, height: i64, speaker: Coord) -> (r: Result<Canvas, ConfigError>)
        ensures
            r is Ok <==> dim_valid(width as int) && dim_valid(height as int),
            r matches Ok(c) ==> c.width == width && c.height == height && c.speaker == speaker
                && c.wf(),
            r matches Err(e) ==> (e is InvalidWidth <==> !dim_valid(width as int)),
            r matches Err(e) ==> (e is InvalidHeight <==> dim_valid(width as int)
                && !dim_valid(height as int)),
    {
        if width <= 0 || width > MAX_DIM {
            Err(ConfigError::InvalidWidth)
        } else if height <= 0 || height > MAX_DIM {
            Err(ConfigError::InvalidHeight)
        } else {
            Ok(Canvas { width, height, speaker })
        }
    }

}

/// The simulation state: the surface and the ordered particle collection.
/// The order is stable across ticks and carries no spatial meaning.
pub struct World {
    pub canvas: Canvas,
    pub particles: Vec<Particle>,
}

impl World {
    /// Well-formedness: the surface is valid and every particle lies within
    /// `[0, width] x [0, height]`.
    pub open spec fn wf(&self) -> bool {
        &&& self.canvas.wf()
        &&& forall|i: int|
            0 <= i < self.particles@.len() ==> in_box(
                #[trigger] self.particles@[i].coord,
                self.canvas.width as int,
                self.canvas.height as int,
            )
    }

    /// Populates a valid surface at the fixed density: one batch of
    /// `PARTICLES_PER_CM` uniformly random particles per whole unit cell,
    /// so the count is deterministic while the positions are not.
    pub fn new(canvas: Canvas) -> (w: World)
        requires
            canvas.wf(),
            PARTICLES_PER_CM * (canvas.width as int / SCALE as int) * (
            canvas.height as int / SCALE as int) <= usize::MAX,
        ensures
            w.canvas == canvas,
            w.wf(),
            w.particles@.len() == PARTICLES_PER_CM * (canvas.width as int
                / SCALE as int) * (canvas.height as int / SCALE as int),
            forall|i: int|
                0 <= i < w.particles@.len() ==> 0 <= (
                #[trigger] w.particles@[i]).coord.x < canvas.width
                    && 0 <= w.particles@[i].coord.y < canvas.height,
    {
        let fw: usize = (canvas.width / SCALE) as usize;
        let fh: usize = (canvas.height / SCALE) as usize;
        let ghost total: int = PARTICLES_PER_CM * fw * fh;
        let mut particles: Vec<Particle> = Vec::new();
        let mut x: usize = 0;
        while x < fw
            invariant
                canvas.wf(),
                fw == canvas.width as int / SCALE as int,
                fh == canvas.height as int / SCALE as int,
                total == PARTICLES_PER_CM * fw * fh,
                total <= usize::MAX,
                x <= fw,
                particles@.len() == PARTICLES_PER_CM * fh * x,
                forall|i: int|
                    0 <= i < particles@.len() ==> 0 <= (
                    #[trigger] particles@[i]).coord.x < canvas.width
                        && 0 <= particles@[i].coord.y < canvas.height,
            decreases fw - x,
        {
            let mut y: usize = 0;
            while y < fh
                invariant
                    canvas.wf(),
                    fw == canvas.width as int / SCALE as int,
                    fh == canvas.height as int / SCALE as int,
                    total == PARTICLES_PER_CM * fw * fh,
                    total <= usize::MAX,
                    x < fw,
                    y <= fh,
                    particles@.len() == PARTICLES_PER_CM * fh * x + PARTICLES_PER_CM * y,
                    forall|i: int|
                        0 <= i < particles@.len() ==> 0 <= (
                        #[trigger] particles@[i]).coord.x < canvas.width
                            && 0 <= particles@[i].coord.y < canvas.height,
                decreases fh - y,
            {
                let mut k: usize = 0;
                while k < PARTICLES_PER_CM
                    invariant
                        canvas.wf(),
                        fw == canvas.width as int / SCALE as int,
                        fh == canvas.height as int / SCALE as int,
                        total == PARTICLES_PER_CM * fw * fh,
                        total <= usize::MAX,
                        x < fw,
                        y < fh,
                        k <= PARTICLES_PER_CM,
                        particles@.len() == PARTICLES_PER_CM * fh * x + PARTICLES_PER_CM * y + k,
                        forall|i: int|
                            0 <= i < particles@.len() ==> 0 <= (
                            #[trigger] particles@[i]).coord.x < canvas.width
                                && 0 <= particles@[i].coord.y < canvas.height,
                    decreases PARTICLES_PER_CM - k,
                {
                    proof {
                        lemma_cell_counts_in_total(fw as int, fh as int, x as int, y as int,
                            k as int);
                    }
                    let p = Particle::rand(0..canvas.width, 0..canvas.height);
                    particles.push(p);
                    k = k + 1;
                }
                proof {
                    assert(PARTICLES_PER_CM * fh * x + PARTICLES_PER_CM * y + PARTICLES_PER_CM
                        == PARTICLES_PER_CM * fh * x + PARTICLES_PER_CM * (y + 1)) by (nonlinear_arith);
                }
                y = y + 1;
            }
            proof {
                assert(PARTICLES_PER_CM * fh * x + PARTICLES_PER_CM * fh
                    == PARTICLES_PER_CM * fh * (x + 1)) by (nonlinear_arith);
            }
            x = x + 1;
        }
        proof {
            assert(PARTICLES_PER_CM * fh * fw == PARTICLES_PER_CM * fw * fh) by (nonlinear_arith);
        }
        World { canvas, particles }
    }

    /// A world over explicitly given particles, for callers that set up an
    /// exact scenario rather than a random population.
    pub fn from_particles(canvas: Canvas, particles: Vec<Particle>) -> (w: World)
        requires
            canvas.wf(),
            forall|i: int|
                0 <= i < particles@.len() ==> in_box(
                    #[trigger] particles@[i].coord,
                    canvas.width as int,
                    canvas.height as int,
                ),
        ensures
            w.canvas == canvas,
            w.particles@ == particles@,
            w.wf(),
    {
        World { canvas, particles }
    }
}

/// The nearest particle to `s[i]` among the indices below `m`, excluding `i`
/// itself: its squared distance and its index, ties resolved to the lowest
/// index. `None` when no candidate exists.
pub open spec fn nearest_upto(s: Seq<Particle>, i: int, m: int) -> Option<(int, int)>
    decreases m,
{
    if m <= 0 {
        None
    } else if m - 1 == i {
        nearest_upto(s, i, m - 1)
    } else {
        let d = sqdist(s[i].coord, s[m - 1].coord);
        match nearest_upto(s, i, m - 1) {
            None => Some((d, m - 1)),
            Some(b) => if d < b.0 {
                Some((d, m - 1))
            } else {
                Some(b)
            },
        }
    }
}

/// The nearest other particle to `s[i]` over the whole collection.
pub open spec fn nearest_other(s: Seq<Particle>, i: int) -> Option<(int, int)> {
    nearest_upto(s, i, s.len() as int)
}

/// What `nearest_upto` returns: a candidate's exact distance and index, the
/// minimum over all candidates, with the lowest index among equals.
pub proof fn lemma_nearest_upto_props(s: Seq<Particle>, i: int, m: int)
    requires
        0 <= i,
        m <= s.len(),
    ensures
        match nearest_upto(s, i, m) {
            None => cand_count(i, m) <= 0,
            Some(b) => {
                &&& 0 <= b.1 < m
                &&& b.1 != i
                &&& b.0 == sqdist(s[i].coord, s[b.1].coord)
                &&& forall|j: int|
                    0 <= j < m && j != i ==> #[trigger] sqdist(s[i].coord, s[j].coord) >= b.0
                &&& forall|j: int|
                    0 <= j < m && j != i && #[trigger] sqdist(s[i].coord, s[j].coord) == b.0
                        ==> j >= b.1
            },
        },
    decreases m,
{
    if m > 0 {
        lemma_nearest_upto_props(s, i, m - 1);
    }
}

/// One particle's move: if the nearest other particle (lowest index on ties)
/// is strictly closer than the threshold, the particle is pulled onto that
/// neighbor's position, clamped to the surface; otherwise it stays put.
pub open spec fn step_of(s: Seq<Particle>, w: int, i: int) -> Seq<Particle> {
    match nearest_other(s, i) {
        None => s,
        Some(b) => if b.0 < THRESHOLD_SQ as int {
            s.update(i, Particle { coord: pulled_coord(s[b.1].coord, w) })
        } else {
            s
        },
    }
}

/// The first `k` particles' moves applied in index order: a particle's scan
/// sees the moves already made by the particles before it in the same tick.
pub open spec fn tick_upto(s: Seq<Particle>, w: int, k: int) -> Seq<Particle>
    decreases k,
{
    if k <= 0 {
        s
    } else {
        step_of(tick_upto(s, w, k - 1), w, k - 1)
    }
}

/// A whole tick over the collection.
pub open spec fn tick_of(s: Seq<Particle>, w: int) -> Seq<Particle> {
    tick_upto(s, w, s.len() as int)
}

pub proof fn lemma_step_of_len(s: Seq<Particle>, w: int, i: int)
    requires
        0 <= i < s.len(),
    ensures
        step_of(s, w, i).len() == s.len(),
{
    match nearest_other(s, i) {
        None => {},
        Some(b) => {
            if b.0 < THRESHOLD_SQ as int {
                assert(s.update(i, Particle { coord: pulled_coord(s[b.1].coord, w) }).len()
                    == s.len());
            }
        },
    }
}

/// How many candidate indices below `j` a scan for particle `i` has seen:
/// every index but `i` itself.
pub open spec fn cand_count(i: int, j: int) -> int {
    if i < j {
        j - 1
    } else {
        j
    }
}

/// `k` capped at the working-set bound.
pub open spec fn cap7(k: int) -> int {
    if k < WORKING_SET_CAP {
        k
    } else {
        WORKING_SET_CAP as int
    }
}

/// The entry records a candidate index below `hi`, other than `i`, together
/// with its exact squared distance to particle `i`.
pub open spec fn entry_ok(s: Seq<Particle>, i: int, hi: int, e: (i64, usize)) -> bool {
    &&& e.1 < hi
    &&& e.1 != i
    &&& e.0 == sqdist(s[i].coord, s[e.1 as int].coord)
}

/// The working set retains the nearest candidate `b`: some entry is exactly
/// `b`, no entry is closer, and an entry at the minimum distance never has a
/// lower index than `b`.
pub open spec fn tracks_best(ws: Seq<(i64, usize)>, b: (int, int)) -> bool {
    &&& exists|t: int| 0 <= t < ws.len() && (#[trigger] ws[t]).0 == b.0 && ws[t].1 == b.1
    &&& forall|t: int| 0 <= t < ws.len() ==> (#[trigger] ws[t]).0 >= b.0
    &&& forall|t: int| 0 <= t < ws.len() ==> ((#[trigger] ws[t]).0 == b.0 ==> ws[t].1 >= b.1)
}

/// Candidate index `j` appears in the working set.
pub open spec fn ws_has_idx(ws: Seq<(i64, usize)>, j: int) -> bool {
    exists|t: int| 0 <= t < ws.len() && (#[trigger] ws[t]).1 == j
}

/// Every candidate index below `hi`, other than `i`, appears in the working
/// set.
pub open spec fn ws_has_all(i: int, hi: int, ws: Seq<(i64, usize)>) -> bool {
    forall|j: int| 0 <= j < hi && j != i ==> #[trigger] ws_has_idx(ws, j)
}

/// No candidate outside the working set is strictly closer than any entry of
/// it: the set holds a choice of the nearest candidates, exact on distances,
/// with only the identity of equally distant candidates left open.
pub open spec fn ws_holds_nearest(s: Seq<Particle>, i: int, hi: int, ws: Seq<(i64, usize)>) -> bool {
    forall|j: int, t: int|
        0 <= j < hi && j != i && !ws_has_idx(ws, j) && 0 <= t < ws.len() ==> (#[trigger] ws[t]).0
            <= sqdist(s[i].coord, (#[trigger] s[j]).coord)
}

/// Scans the whole collection once and keeps a bounded working set of the
/// up-to-7 candidates closest to particle `i`, excluding `i` itself: while
/// the set is not full every scanned candidate is appended; once full, a
/// strictly closer candidate replaces a current maximum-distance entry. The
/// set never exceeds 7 entries, always retains the nearest candidate, and no
/// candidate left out of it is strictly closer than any of its entries.
pub fn closest_seven(particles: &Vec<Particle>, i: usize) -> (ws: Vec<(i64, usize)>)
    requires
        i < particles@.len(),
        forall|j: int| 0 <= j < particles@.len() ==> coord_bounded(#[trigger] particles@[j].coord),
    ensures
        ws@.len() == cap7(cand_count(i as int, particles@.len() as int)),
        ws@.len() <= WORKING_SET_CAP,
        forall|t: int|
            0 <= t < ws@.len() ==> entry_ok(
                particles@,
                i as int,
                particles@.len() as int,
                #[trigger] ws@[t],
            ),
        match nearest_other(particles@, i as int) {
            None => ws@.len() == 0,
            Some(b) => tracks_best(ws@, b),
        },
        ws_holds_nearest(particles@, i as int, particles@.len() as int, ws@),
        ws@.len() < WORKING_SET_CAP ==> ws_has_all(i as int, particles@.len() as int, ws@),
{
    let ghost s = particles@;
    let n = particles.len();
    let cur: Particle = particles[i];
    let mut ws: Vec<(i64, usize)> = Vec::new();
    let mut j: usize = 0;
    while j < n
        invariant
            i < n,
            n == s.len(),
            s == particles@,
            cur == s[i as int],
            forall|jj: int| 0 <= jj < s.len() ==> coord_bounded(#[trigger] s[jj].coord),
            j <= n,
            ws@.len() == cap7(cand_count(i as int, j as int)),
            forall|t: int|
                0 <= t < ws@.len() ==> entry_ok(s, i as int, j as int, #[trigger] ws@[t]),
            match nearest_upto(s, i as int, j as int) {
                None => ws@.len() == 0,
                Some(b) => tracks_best(ws@, b),
            },
            ws_holds_nearest(s, i as int, j as int, ws@),
            ws@.len() < WORKING_SET_CAP ==> ws_has_all(i as int, j as int, ws@),
        decreases n - j,
    {
        let ghost prev_best = nearest_upto(s, i as int, j as int);
        if j != i {
            let d: i64 = cur.coord.squared_distance(&particles[j].coord);
            let ghost old_ws = ws@;
            if ws.len() < WORKING_SET_CAP {
                ws.push((d, j));
                proof {
                    lemma_scan_extend_push(s, i as int, j as int, old_ws, ws@, d, j);
                }
            } else {
                let mut mt: usize = 0;
                let mut t: usize = 1;
                while t < ws.len()
                    invariant
                        ws@.len() == WORKING_SET_CAP,
                        1 <= t <= ws@.len(),
                        mt < t,
                        forall|u: int| 0 <= u < t ==> (#[trigger] ws@[u]).0 <= ws@[mt as int].0,
                    decreases ws@.len() - t,
                {
                    if ws[t].0 > ws[mt].0 {
                        mt = t;
                    }
                    t = t + 1;
                }
                if d < ws[mt].0 {
                    ws[mt] = (d, j);
                    proof {
                        lemma_scan_extend_replace(s, i as int, j as int, old_ws, ws@, d, j,
                            mt as int);
                    }
                } else {
                    proof {
                        lemma_scan_extend_keep(s, i as int, j as int, ws@, d, mt as int);
                    }
                }
            }
        }
        j = j + 1;
    }
    ws
}

/// Appending a fresh candidate to a working set that is not yet full keeps
/// the scan invariants.
proof fn lemma_scan_extend_push(
    s: Seq<Particle>,
    i: int,
    j: int,
    old_ws: Seq<(i64, usize)>,
    new_ws: Seq<(i64, usize)>,
    d: i64,
    jx: usize,
)
    requires
        0 <= i < s.len(),
        0 <= j < s.len(),
        j != i,
        jx == j,
        d == sqdist(s[i].coord, s[j].coord),
        old_ws.len() == cap7(cand_count(i, j)),
        old_ws.len() < WORKING_SET_CAP,
        new_ws == old_ws.push((d, jx)),
        forall|t: int| 0 <= t < old_ws.len() ==> entry_ok(s, i, j, #[trigger] old_ws[t]),
        match nearest_upto(s, i, j) {
            None => old_ws.len() == 0,
            Some(b) => tracks_best(old_ws, b),
        },
        ws_has_all(i, j, old_ws),
    ensures
        new_ws.len() == cap7(cand_count(i, j + 1)),
        forall|t: int| 0 <= t < new_ws.len() ==> entry_ok(s, i, j + 1, #[trigger] new_ws[t]),
        match nearest_upto(s, i, j + 1) {
            None => new_ws.len() == 0,
            Some(b) => tracks_best(new_ws, b),
        },
        ws_has_all(i, j + 1, new_ws),
        ws_holds_nearest(s, i, j + 1, new_ws),
{
    assert forall|jj: int| 0 <= jj < j + 1 && jj != i implies #[trigger] ws_has_idx(new_ws, jj) by {
        if jj == j {
            assert(new_ws[new_ws.len() - 1].1 == jx);
        } else {
            assert(ws_has_idx(old_ws, jj));
            let tw = choose|t: int| 0 <= t < old_ws.len() && (#[trigger] old_ws[t]).1 == jj;
            assert(new_ws[tw].1 == jj);
        }
    }
    lemma_nearest_upto_props(s, i, j);
    let nb = nearest_upto(s, i, j + 1);
    assert(nb is Some);
    let b = nb->Some_0;
    match nearest_upto(s, i, j) {
        None => {
            assert(b == (d as int, j));
            assert(new_ws[0] == (d, jx));
        },
        Some(pb) => {
            if d < pb.0 {
                assert(b == (d as int, j));
                assert(new_ws[new_ws.len() - 1] == (d, jx));
            } else {
                assert(b == pb);
                let tw = choose|t: int|
                    0 <= t < old_ws.len() && (#[trigger] old_ws[t]).0 == pb.0 && old_ws[t].1
                        == pb.1;
                assert(0 <= tw < new_ws.len() && new_ws[tw].0 == b.0 && new_ws[tw].1 == b.1);
            }
        },
    }
}

/// Replacing a maximum-distance entry with a strictly closer fresh candidate
/// keeps the scan invariants once the working set is full.
proof fn lemma_scan_extend_replace(
    s: Seq<Particle>,
    i: int,
    j: int,
    old_ws: Seq<(i64, usize)>,
    new_ws: Seq<(i64, usize)>,
    d: i64,
    jx: usize,
    mt: int,
)
    requires
        0 <= i < s.len(),
        0 <= j < s.len(),
        j != i,
        jx == j,
        d == sqdist(s[i].coord, s[j].coord),
        old_ws.len() == WORKING_SET_CAP,
        cand_count(i, j) >= WORKING_SET_CAP,
        0 <= mt < old_ws.len(),
        forall|u: int| 0 <= u < old_ws.len() ==> (#[trigger] old_ws[u]).0 <= old_ws[mt].0,
        d < old_ws[mt].0,
        new_ws == old_ws.update(mt, (d, jx)),
        forall|t: int| 0 <= t < old_ws.len() ==> entry_ok(s, i, j, #[trigger] old_ws[t]),
        match nearest_upto(s, i, j) {
            None => old_ws.len() == 0,
            Some(b) => tracks_best(old_ws, b),
        },
        ws_holds_nearest(s, i, j, old_ws),
    ensures
        new_ws.len() == cap7(cand_count(i, j + 1)),
        forall|t: int| 0 <= t < new_ws.len() ==> entry_ok(s, i, j + 1, #[trigger] new_ws[t]),
        match nearest_upto(s, i, j + 1) {
            None => new_ws.len() == 0,
            Some(b) => tracks_best(new_ws, b),
        },
        ws_holds_nearest(s, i, j + 1, new_ws),
{
    lemma_nearest_upto_props(s, i, j);
    let pb = nearest_upto(s, i, j)->Some_0;
    let nb = nearest_upto(s, i, j + 1)->Some_0;
    if d < pb.0 {
        assert(nb == (d as int, j));
        assert(new_ws[mt] == (d, jx));
    } else {
        assert(nb == pb);
        let tw = choose|t: int|
            0 <= t < old_ws.len() && (#[trigger] old_ws[t]).0 == pb.0 && old_ws[t].1 == pb.1;
        assert(old_ws[mt].0 > d >= pb.0);
        assert(tw != mt);
        assert(0 <= tw < new_ws.len() && new_ws[tw].0 == nb.0 && new_ws[tw].1 == nb.1);
    }
    let e = old_ws[mt].1;
    assert(old_ws[mt].0 == sqdist(s[i].coord, s[e as int].coord));
    assert forall|jj: int, t: int|
        0 <= jj < j + 1 && jj != i && !ws_has_idx(new_ws, jj) && 0 <= t < new_ws.len() implies (
    #[trigger] new_ws[t]).0 <= sqdist(s[i].coord, (#[trigger] s[jj]).coord) by {
        if jj == j {
            assert(new_ws[mt].1 == jx);
            assert(ws_has_idx(new_ws, jj));
        } else if jj == e as int {
            if t == mt {
                assert(new_ws[t].0 == d);
            } else {
                assert(new_ws[t] == old_ws[t]);
                assert(old_ws[t].0 <= old_ws[mt].0);
            }
        } else {
            if ws_has_idx(old_ws, jj) {
                let tw2 = choose|tw2: int|
                    0 <= tw2 < old_ws.len() && (#[trigger] old_ws[tw2]).1 == jj;
                assert(tw2 != mt);
                assert(new_ws[tw2].1 == jj);
                assert(ws_has_idx(new_ws, jj));
            } else {
                assert(old_ws[mt].0 <= sqdist(s[i].coord, s[jj].coord));
                if t == mt {
                    assert(new_ws[t].0 == d < old_ws[mt].0);
                } else {
                    assert(new_ws[t] == old_ws[t]);
                    assert(old_ws[t].0 <= sqdist(s[i].coord, s[jj].coord));
                }
            }
        }
    }
}

/// A fresh candidate no closer than every entry of a full working set leaves
/// it unchanged, and the scan invariants carry over.
proof fn lemma_scan_extend_keep(s: Seq<Particle>, i: int, j: int, ws: Seq<(i64, usize)>, d: i64, mt: int)
    requires
        0 <= i < s.len(),
        0 <= j < s.len(),
        j != i,
        d == sqdist(s[i].coord, s[j].coord),
        ws.len() == WORKING_SET_CAP,
        cand_count(i, j) >= WORKING_SET_CAP,
        0 <= mt < ws.len(),
        forall|u: int| 0 <= u < ws.len() ==> (#[trigger] ws[u]).0 <= ws[mt].0,
        d >= ws[mt].0,
        forall|t: int| 0 <= t < ws.len() ==> entry_ok(s, i, j, #[trigger] ws[t]),
        match nearest_upto(s, i, j) {
            None => ws.len() == 0,
            Some(b) => tracks_best(ws, b),
        },
        ws_holds_nearest(s, i, j, ws),
    ensures
        ws.len() == cap7(cand_count(i, j + 1)),
        forall|t: int| 0 <= t < ws.len() ==> entry_ok(s, i, j + 1, #[trigger] ws[t]),
        match nearest_upto(s, i, j + 1) {
            None => ws.len() == 0,
            Some(b) => tracks_best(ws, b),
        },
        ws_holds_nearest(s, i, j + 1, ws),
{
    lemma_nearest_upto_props(s, i, j);
    let pb = nearest_upto(s, i, j)->Some_0;
    let nb = nearest_upto(s, i, j + 1)->Some_0;
    let tw = choose|t: int|
        0 <= t < ws.len() && (#[trigger] ws[t]).0 == pb.0 && ws[t].1 == pb.1;
    assert(d >= ws[mt].0 >= ws[tw].0);
    assert(nb == pb);
    assert forall|jj: int, t: int|
        0 <= jj < j + 1 && jj != i && !ws_has_idx(ws, jj) && 0 <= t < ws.len() implies (
    #[trigger] ws[t]).0 <= sqdist(s[i].coord, (#[trigger] s[jj]).coord) by {
        if jj == j {
            assert(ws[t].0 <= ws[mt].0);
        } else {
            assert(ws[t].0 <= sqdist(s[i].coord, s[jj].coord));
        }
    }
}

/// The working set's minimum-distance entry, ties resolved to the lowest
/// index; `None` only on an empty set.
pub fn min_entry(ws: &Vec<(i64, usize)>) -> (r: Option<(i64, usize)>)
    ensures
        match r {
            None => ws@.len() == 0,
            Some(e) => {
                &&& exists|t: int| 0 <= t < ws@.len() && #[trigger] ws@[t] == e
                &&& forall|t: int|
                    0 <= t < ws@.len() ==> (e.0 < (#[trigger] ws@[t]).0 || (e.0 == ws@[t].0
                        && e.1 <= ws@[t].1))
            },
        },
{
    if ws.len() == 0 {
        None
    } else {
        let mut best: (i64, usize) = ws[0];
        let mut t: usize = 1;
        while t < ws.len()
            invariant
                1 <= t <= ws@.len(),
                exists|u: int| 0 <= u < t && #[trigger] ws@[u] == best,
                forall|u: int|
                    0 <= u < t ==> (best.0 < (#[trigger] ws@[u]).0 || (best.0 == ws@[u].0
                        && best.1 <= ws@[u].1)),
            decreases ws@.len() - t,
        {
            let e: (i64, usize) = ws[t];
            if e.0 < best.0 || (e.0 == best.0 && e.1 < best.1) {
                best = e;
            }
            t = t + 1;
        }
        Some(best)
    }
}

impl World {
    /// Advances the simulation one tick. Each particle in index order is
    /// pulled onto its nearest other particle when that neighbor is strictly
    /// closer than the movement threshold, clamped to the surface; particles
    /// processed later in the tick see the moves already made before them
    /// (sequential consistency within a tick). Both axes deliberately clamp
    /// to the surface width: the movement rule's documented behavior, kept
    /// as it stands.
    pub fn next_iteration(&mut self)
        requires
            old(self).wf(),
        ensures
            final(self).wf(),
            final(self).canvas == old(self).canvas,
            final(self).particles@.len() == old(self).particles@.len(),
            final(self).particles@ == tick_of(
                old(self).particles@,
                old(self).canvas.width as int,
            ),
    {
        let ghost s0 = self.particles@;
        let ghost w = self.canvas.width as int;
        let n = self.particles.len();
        let mut i: usize = 0;
        while i < n
            invariant
                self.canvas == old(self).canvas,
                old(self).wf(),
                self.wf(),
                w == self.canvas.width as int,
                s0 == old(self).particles@,
                n == s0.len(),
                i <= n,
                self.particles@.len() == n,
                self.particles@ == tick_upto(s0, w, i as int),
            decreases n - i,
        {
            let ghost cur_s = self.particles@;
            proof {
                assert forall|j: int| 0 <= j < cur_s.len() implies coord_bounded(
                    #[trigger] cur_s[j].coord,
                ) by {
                    assert(in_box(cur_s[j].coord, self.canvas.width as int,
                        self.canvas.height as int));
                }
            }
            let ws = closest_seven(&self.particles, i);
            let sel = min_entry(&ws);
            proof {
                lemma_nearest_upto_props(cur_s, i as int, cur_s.len() as int);
            }
            match sel {
                None => {
                    proof {
                        assert(nearest_other(cur_s, i as int) is None);
                        assert(step_of(cur_s, w, i as int) == cur_s);
                    }
                },
                Some(e) => {
                    let ghost b = nearest_other(cur_s, i as int)->Some_0;
                    proof {
                        assert(nearest_other(cur_s, i as int) is Some);
                        assert(tracks_best(ws@, b));
                        let tw = choose|t: int|
                            0 <= t < ws@.len() && (#[trigger] ws@[t]).0 == b.0 && ws@[t].1 == b.1;
                        let te = choose|t: int| 0 <= t < ws@.len() && #[trigger] ws@[t] == e;
                        assert(e.0 >= b.0);
                        assert(e.0 < ws@[tw].0 || (e.0 == ws@[tw].0 && e.1 <= ws@[tw].1));
                        assert(e.0 == b.0 && e.1 == b.1);
                        assert(entry_ok(cur_s, i as int, cur_s.len() as int, e));
                    }
                    if e.0 < THRESHOLD_SQ {
                        let target: Coord = self.particles[e.1].coord;
                        let wd: i64 = self.canvas.width;
                        let nx: i64 = clamp_to(target.x, wd);
                        let ny: i64 = clamp_to(target.y, wd);
                        self.particles[i] = Particle { coord: Coord { x: nx, y: ny } };
                        proof {
                            assert(target == cur_s[b.1].coord);
                            assert(nx as int == clamp_val(target.x as int, w));
                            assert(ny as int == clamp_val(target.y as int, w));
                            assert(Coord { x: nx, y: ny } == pulled_coord(target, w));
                            assert(self.particles@ == cur_s.update(
                                i as int,
                                Particle { coord: pulled_coord(cur_s[b.1].coord, w) },
                            ));
                            assert(self.particles@ == step_of(cur_s, w, i as int));
                        }
                    } else {
                        proof {
                            assert(!(b.0 < THRESHOLD_SQ as int));
                            assert(step_of(cur_s, w, i as int) == cur_s);
                        }
                    }
                },
            }
            proof {
                assert(self.particles@ == step_of(cur_s, w, i as int));
                assert(tick_upto(s0, w, i as int + 1) == step_of(tick_upto(s0, w, i as int), w,
                    i as int));
                lemma_step_of_len(cur_s, w, i as int);
                assert forall|j: int| 0 <= j < self.particles@.len() implies in_box(
                    #[trigger] self.particles@[j].coord,
                    self.canvas.width as int,
                    self.canvas.height as int,
                ) by {
                    if j != i {
                        assert(self.particles@[j] == cur_s[j]);
                    }
                }
            }
            i = i + 1;
        }
    }
}

/// A particle with no other particle strictly within the movement threshold
/// does not move when its turn in the tick comes: the step leaves the
/// collection unchanged.
pub proof fn lemma_isolated_particle_does_not_move(s: Seq<Particle>, w: int, i: int)
    requires
        0 <= i < s.len(),
        forall|j: int|
            0 <= j < s.len() && j != i ==> #[trigger] sqdist(s[i].coord, s[j].coord)
                >= THRESHOLD_SQ as int,
    ensures
        step_of(s, w, i) == s,
{
    lemma_nearest_upto_props(s, i, s.len() as int);
}

/// When no two distinct particles are strictly within the movement
/// threshold, a whole tick moves nothing: the collection is a fixed point.
pub proof fn lemma_isolated_world_tick_is_identity(s: Seq<Particle>, w: int)
    requires
        forall|i: int, j: int|
            0 <= i < s.len() && 0 <= j < s.len() && i != j ==> #[trigger] sqdist(
                s[i].coord,
                s[j].coord,
            ) >= THRESHOLD_SQ as int,
    ensures
        tick_of(s, w) == s,
{
    lemma_isolated_tick_upto_is_identity(s, w, s.len() as int);
}

proof fn lemma_isolated_tick_upto_is_identity(s: Seq<Particle>, w: int, k: int)
    requires
        0 <= k <= s.len(),
        forall|i: int, j: int|
            0 <= i < s.len() && 0 <= j < s.len() && i != j ==> #[trigger] sqdist(
                s[i].coord,
                s[j].coord,
            ) >= THRESHOLD_SQ as int,
    ensures
        tick_upto(s, w, k) == s,
    decreases k,
{
    if k > 0 {
        lemma_isolated_tick_upto_is_identity(s, w, k - 1);
        lemma_isolated_particle_does_not_move(s, w, k - 1);
    }
}

/// One particle's move keeps every particle inside `[0, w] x [0, h]`: the
/// x axis is clamped into `[0, w]` directly, and the clamped y value never
/// exceeds the in-bounds y position of the neighbor the particle moves onto.
pub proof fn lemma_step_preserves_bounds(s: Seq<Particle>, w: int, h: int, i: int)
    requires
        0 <= i < s.len(),
        0 < w,
        0 < h,
        forall|j: int| 0 <= j < s.len() ==> in_box(#[trigger] s[j].coord, w, h),
    ensures
        step_of(s, w, i).len() == s.len(),
        forall|j: int| 0 <= j < s.len() ==> in_box(#[trigger] step_of(s, w, i)[j].coord, w, h),
{
    lemma_nearest_upto_props(s, i, s.len() as int);
    match nearest_other(s, i) {
        None => {},
        Some(b) => {
            if b.0 < THRESHOLD_SQ as int {
                let t = s.update(i, Particle { coord: pulled_coord(s[b.1].coord, w) });
                assert(in_box(s[b.1].coord, w, h));
                assert(in_box(pulled_coord(s[b.1].coord, w), w, h));
                assert forall|j: int| 0 <= j < s.len() implies in_box(
                    #[trigger] t[j].coord, w, h) by {
                    if j != i {
                        assert(t[j] == s[j]);
                    }
                }
            }
        },
    }
}

/// A whole tick keeps every particle inside `[0, w] x [0, h]`; by induction
/// the bound holds after any number of ticks.
pub proof fn lemma_tick_preserves_bounds(s: Seq<Particle>, w: int, h: int)
    requires
        0 < w,
        0 < h,
        forall|j: int| 0 <= j < s.len() ==> in_box(#[trigger] s[j].coord, w, h),
    ensures
        tick_of(s, w).len() == s.len(),
        forall|j: int| 0 <= j < s.len() ==> in_box(#[trigger] tick_of(s, w)[j].coord, w, h),
{
    lemma_tick_upto_preserves_bounds(s, w, h, s.len() as int);
}

proof fn lemma_tick_upto_preserves_bounds(s: Seq<Particle>, w: int, h: int, k: int)
    requires
        0 < w,
        0 < h,
        0 <= k <= s.len(),
        forall|j: int| 0 <= j < s.len() ==> in_box(#[trigger] s[j].coord, w, h),
    ensures
        tick_upto(s, w, k).len() == s.len(),
        forall|j: int|
            0 <= j < s.len() ==> in_box(#[trigger] tick_upto(s, w, k)[j].coord, w, h),
    decreases k,
{
    if k > 0 {
        lemma_tick_upto_preserves_bounds(s, w, h, k - 1);
        lemma_step_preserves_bounds(tick_upto(s, w, k - 1), w, h, k - 1);
    }
}

/// Inside a `fw` by `fh` grid of unit cells, the particles emitted before
/// cell `(x, y)` batch position `k` number fewer than the grand total.
proof fn lemma_cell_counts_in_total(fw: int, fh: int, x: int, y: int, k: int)
    requires
        0 <= x < fw,
        0 <= y < fh,
        0 <= k < PARTICLES_PER_CM,
    ensures
        PARTICLES_PER_CM * fh * x + PARTICLES_PER_CM * y + k < PARTICLES_PER_CM * fw * fh,
{
    assert(PARTICLES_PER_CM * fh * x + PARTICLES_PER_CM * y + k < PARTICLES_PER_CM * fw * fh)
        by (nonlinear_arith)
        requires
            0 <= x < fw,
            0 <= y < fh,
            0 <= k < PARTICLES_PER_CM,
            PARTICLES_PER_CM == 10_000,
    ;
}

} // verus!
