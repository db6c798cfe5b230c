//! Per-tick water-flow simulation over generated terrain.
//!
//! The simulator owns a square grid of non-negative fixed-point depths,
//! one per terrain cell, plus a wet flag per cell: a dry cell holds no
//! water and gives none away. Each step first injects
//! `inflow_rate * elapsed_ms / 1000` depth at the source cell, then
//! moves, for every wet cell and each of its four orthogonal
//! neighbours with a lower total level, a quarter of the level
//! difference scaled by the elapsed time. All transfers read the
//! post-injection snapshot, so the update is double-buffered and free
//! of iteration-order bias; each transfer debits the giver exactly what
//! it credits the receiver, which makes mass conservation exact. A cell
//! whose computed depth would leave `[0, DEPTH_CAP]` is saturated at
//! the violated end: clamping at zero is the chosen answer to the
//! multi-directional-drain edge case, and the elapsed-time bound
//! `STEP_MS_BOUND` is the chosen answer to runaway transfers.

use vstd::prelude::*;

use crate::heightmap::HeightMap;
use crate::num::{lemma_sum_take_step, lemma_sum_update, sum_seq};
use crate::{DEPTH_CAP, HEIGHT_BOUND, INFLOW_BOUND, STEP_MS_BOUND};

verus! {

/// Magnitude bound on the flow scratch buffer: a post-injection depth
/// plus at most eight transfers in or out.
pub const BUF_BOUND: i64 = 1_100_000_000_000_000;

/// Magnitude bound on one transfer.
pub const XFER_BOUND: i64 = 250_000_000_000_000;

/// Bound on one step's injection.
pub const INJ_BOUND: i64 = 4_398_046_511_104;

/// Saturate a raw depth into `[0, DEPTH_CAP]`.
pub open spec fn clamp_depth(v: int) -> int {
    if v < 0 {
        0
    } else if v > DEPTH_CAP {
        DEPTH_CAP as int
    } else {
        v
    }
}

/// One cell reported by a step: its coordinates and its new depth.
pub struct CellChange {
    pub x: usize,
    pub z: usize,
    pub depth: i64,
}

/// The flat index of a reported cell.
pub open spec fn cc_idx(cc: CellChange, side: int) -> int {
    cc.x * side + cc.z
}

/// A report entry is sound: it names a cell of the grid that the step
/// changed, with that cell's new depth.
pub open spec fn change_entry_ok(pre: WaterSimulator, e: u64, cc: CellChange) -> bool {
    &&& (cc.x as int) < pre.side
    &&& (cc.z as int) < pre.side
    &&& pre.changed(e, cc_idx(cc, pre.side as int))
    &&& cc.depth as int == pre.next_depth(e, cc_idx(cc, pre.side as int))
}

/// Cell `c` appears somewhere in the report.
pub open spec fn reports(s: Seq<CellChange>, side: int, c: int) -> bool {
    exists|j: int| 0 <= j < s.len() && cc_idx(#[trigger] s[j], side) == c
}

proof fn lemma_reports_push(s: Seq<CellChange>, side: int, c: int, x: CellChange)
    requires
        reports(s, side, c),
    ensures
        reports(s.push(x), side, c),
{
    let j = choose|j: int| 0 <= j < s.len() && cc_idx(#[trigger] s[j], side) == c;
    assert(s.push(x)[j] == s[j]);
    assert(cc_idx(s.push(x)[j], side) == c);
}

/// The water simulator: terrain heights (read-only), current depths
/// and wet flags, the source cell and its inflow rate.
pub struct WaterSimulator {
    pub side: usize,
    pub heights: Vec<i64>,
    pub depths: Vec<i64>,
    pub wet: Vec<bool>,
    pub source_x: usize,
    pub source_z: usize,
    pub inflow_rate: i64,
}

impl WaterSimulator {
    /// Number of cells.
    pub open spec fn n2(self) -> int {
        self.side * self.side
    }

    /// Flat index of the source cell.
    pub open spec fn src(self) -> int {
        self.source_x * self.side + self.source_z
    }

    pub open spec fn wf(self) -> bool {
        &&& 1 <= self.side <= 4097
        &&& self.heights@.len() == self.n2()
        &&& self.depths@.len() == self.n2()
        &&& self.wet@.len() == self.n2()
        &&& self.source_x < self.side
        &&& self.source_z < self.side
        &&& 0 <= self.src() < self.n2()
        &&& 0 <= self.inflow_rate <= INFLOW_BOUND
        &&& forall|c: int|
            0 <= c < self.n2() ==> -HEIGHT_BOUND <= #[trigger] self.heights@[c] <= HEIGHT_BOUND
        &&& forall|c: int| 0 <= c < self.n2() ==> 0 <= #[trigger] self.depths@[c] <= DEPTH_CAP
        &&& forall|c: int| 0 <= c < self.n2() ==> (!(#[trigger] self.wet@[c]) ==> self.depths@[c] == 0i64)
        &&& self.wet@[self.src()]
    }

    /// Depth injected at the source over `e` milliseconds.
    pub open spec fn inj_amount(self, e: u64) -> int {
        self.inflow_rate * e / 1000
    }

    /// Depth of a cell after injection, before any flow.
    pub open spec fn base_depth(self, e: u64, c: int) -> int {
        if c == self.src() {
            self.depths@[c] + self.inj_amount(e)
        } else {
            self.depths@[c] as int
        }
    }

    /// Total surface level after injection: terrain height plus depth.
    pub open spec fn level(self, e: u64, c: int) -> int {
        self.heights@[c] + self.base_depth(e, c)
    }

    /// What flows from `g` to `c` this step: a quarter of the positive
    /// level difference, scaled by the elapsed time, and only if `g`
    /// is wet. Dry cells give nothing.
    pub open spec fn xfer(self, e: u64, g: int, c: int) -> int {
        if self.wet@[g] && self.level(e, g) > self.level(e, c) {
            (self.level(e, g) - self.level(e, c)) * e / 4000
        } else {
            0
        }
    }

    /// The neighbour of `c` in direction `d`: north, east, south, west.
    pub open spec fn nbr(self, c: int, d: int) -> int {
        if d == 0 {
            c - 1
        } else if d == 1 {
            c + self.side
        } else if d == 2 {
            c + 1
        } else {
            c - self.side
        }
    }

    /// Whether that neighbour exists within the grid.
    pub open spec fn has_nbr(self, c: int, d: int) -> bool {
        if d == 0 {
            c % (self.side as int) != 0
        } else if d == 1 {
            c + self.side < self.n2()
        } else if d == 2 {
            c % (self.side as int) != self.side - 1
        } else {
            c - self.side >= 0
        }
    }

    /// Inflow into `c` from direction `d`.
    pub open spec fn in_from(self, e: u64, c: int, d: int) -> int {
        if self.has_nbr(c, d) {
            self.xfer(e, self.nbr(c, d), c)
        } else {
            0
        }
    }

    /// Outflow from `c` toward direction `d`.
    pub open spec fn out_to(self, e: u64, c: int, d: int) -> int {
        if self.has_nbr(c, d) {
            self.xfer(e, c, self.nbr(c, d))
        } else {
            0
        }
    }

    /// Total outflow from `c`.
    pub open spec fn out_total(self, e: u64, c: int) -> int {
        self.out_to(e, c, 0) + self.out_to(e, c, 1) + self.out_to(e, c, 2) + self.out_to(e, c, 3)
    }

    /// The unclamped next depth of `c`: its post-injection depth, plus
    /// every inflow, minus every outflow, all against the same
    /// snapshot.
    pub open spec fn raw_next(self, e: u64, c: int) -> int {
        self.base_depth(e, c) + self.in_from(e, c, 0) + self.in_from(e, c, 1) + self.in_from(
            e,
            c,
            2,
        ) + self.in_from(e, c, 3) - self.out_total(e, c)
    }

    /// The stored next depth: the raw value saturated into range.
    pub open spec fn next_depth(self, e: u64, c: int) -> int {
        clamp_depth(self.raw_next(e, c))
    }

    /// Wet cells stay wet; a dry cell becomes wet when it ends the
    /// step with positive depth.
    pub open spec fn next_wet(self, e: u64, c: int) -> bool {
        self.wet@[c] || self.next_depth(e, c) > 0
    }

    /// Whether the step must report cell `c` to the caller.
    pub open spec fn changed(self, e: u64, c: int) -> bool {
        self.next_depth(e, c) != self.depths@[c] || self.next_wet(e, c) != self.wet@[c]
    }

    /// Net effect of giver `g`'s processing on cell `c`.
    pub open spec fn delta(self, e: u64, g: int, c: int) -> int {
        (if self.has_nbr(c, 0) && self.nbr(c, 0) == g {
            self.xfer(e, g, c)
        } else {
            0
        }) + (if self.has_nbr(c, 1) && self.nbr(c, 1) == g {
            self.xfer(e, g, c)
        } else {
            0
        }) + (if self.has_nbr(c, 2) && self.nbr(c, 2) == g {
            self.xfer(e, g, c)
        } else {
            0
        }) + (if self.has_nbr(c, 3) && self.nbr(c, 3) == g {
            self.xfer(e, g, c)
        } else {
            0
        }) - (if c == g {
            self.out_total(e, g)
        } else {
            0
        })
    }

    /// Partial inflow into `c` from direction `d`, counting only
    /// givers below `k`.
    pub open spec fn partial_in(self, e: u64, c: int, d: int, k: int) -> int {
        if self.has_nbr(c, d) && self.nbr(c, d) < k {
            self.xfer(e, self.nbr(c, d), c)
        } else {
            0
        }
    }

    /// The scratch value of `c` after the first `k` givers ran.
    pub open spec fn partial_next(self, e: u64, c: int, k: int) -> int {
        self.base_depth(e, c) + self.partial_in(e, c, 0, k) + self.partial_in(e, c, 1, k)
            + self.partial_in(e, c, 2, k) + self.partial_in(e, c, 3, k) - (if c < k {
            self.out_total(e, c)
        } else {
            0
        })
    }
}

impl WaterSimulator {
    proof fn lemma_inj_bounds(self, e: u64)
        requires
            self.wf(),
            e <= STEP_MS_BOUND,
        ensures
            0 <= self.inj_amount(e) <= INJ_BOUND,
    {
        assert(0 <= self.inflow_rate * e <= INFLOW_BOUND as int * STEP_MS_BOUND as int)
            by (nonlinear_arith)
            requires
                0 <= self.inflow_rate <= INFLOW_BOUND,
                0 <= e <= STEP_MS_BOUND,
        ;
        crate::num::lemma_div_bounds(
            self.inflow_rate * e,
            1000,
            0,
            INJ_BOUND as int,
        );
    }

    proof fn lemma_xfer_bounds(self, e: u64, g: int, c: int)
        requires
            self.wf(),
            e <= STEP_MS_BOUND,
            0 <= g < self.n2(),
            0 <= c < self.n2(),
        ensures
            0 <= self.xfer(e, g, c) <= XFER_BOUND,
    {
        self.lemma_inj_bounds(e);
        if self.wet@[g] && self.level(e, g) > self.level(e, c) {
            let diff = self.level(e, g) - self.level(e, c);
            assert(0 < diff <= 2 * (HEIGHT_BOUND + DEPTH_CAP) + INJ_BOUND);
            assert(0 <= diff * e <= (2 * (HEIGHT_BOUND + DEPTH_CAP) + INJ_BOUND as int) * (
            STEP_MS_BOUND as int)) by (nonlinear_arith)
                requires
                    0 < diff <= 2 * (HEIGHT_BOUND + DEPTH_CAP) + INJ_BOUND,
                    0 <= e <= STEP_MS_BOUND,
            ;
            crate::num::lemma_div_bounds(diff * e, 4000, 0, XFER_BOUND as int);
        }
    }

    proof fn lemma_nbr_in_range(self, c: int, d: int)
        requires
            self.wf(),
            0 <= c < self.n2(),
            0 <= d < 4,
            self.has_nbr(c, d),
        ensures
            0 <= self.nbr(c, d) < self.n2(),
            self.nbr(c, d) != c,
    {
        let m = self.side as int;
        if d == 0 {
            assert(0int % m == 0) by {
                vstd::arithmetic::div_mod::lemma_small_mod(0nat, m as nat);
            }
            assert(c != 0);
        } else if d == 2 {
            if c + 1 == self.n2() {
                assert(c == (m - 1) * m + (m - 1)) by (nonlinear_arith)
                    requires
                        c + 1 == m * m,
                        m >= 1,
                ;
                vstd::arithmetic::div_mod::lemma_fundamental_div_mod_converse(c, m, m - 1, m - 1);
            }
        }
    }

    proof fn lemma_partial_bounds(self, e: u64, c: int, k: int)
        requires
            self.wf(),
            e <= STEP_MS_BOUND,
            0 <= c < self.n2(),
        ensures
            -BUF_BOUND <= self.partial_next(e, c, k) <= BUF_BOUND,
    {
        self.lemma_inj_bounds(e);
        assert(0 <= self.depths@[c] <= DEPTH_CAP);
        assert(0 <= self.base_depth(e, c) <= DEPTH_CAP + INJ_BOUND);
        if self.has_nbr(c, 0) {
            self.lemma_nbr_in_range(c, 0);
            self.lemma_xfer_bounds(e, self.nbr(c, 0), c);
            self.lemma_xfer_bounds(e, c, self.nbr(c, 0));
        }
        if self.has_nbr(c, 1) {
            self.lemma_nbr_in_range(c, 1);
            self.lemma_xfer_bounds(e, self.nbr(c, 1), c);
            self.lemma_xfer_bounds(e, c, self.nbr(c, 1));
        }
        if self.has_nbr(c, 2) {
            self.lemma_nbr_in_range(c, 2);
            self.lemma_xfer_bounds(e, self.nbr(c, 2), c);
            self.lemma_xfer_bounds(e, c, self.nbr(c, 2));
        }
        if self.has_nbr(c, 3) {
            self.lemma_nbr_in_range(c, 3);
            self.lemma_xfer_bounds(e, self.nbr(c, 3), c);
            self.lemma_xfer_bounds(e, c, self.nbr(c, 3));
        }
    }

    /// `partial_next` over the whole grid is `raw_next`.
    proof fn lemma_partial_complete(self, e: u64, c: int)
        requires
            self.wf(),
            0 <= c < self.n2(),
        ensures
            self.partial_next(e, c, self.n2()) == self.raw_next(e, c),
    {
        if self.has_nbr(c, 0) {
            self.lemma_nbr_in_range(c, 0);
        }
        if self.has_nbr(c, 1) {
            self.lemma_nbr_in_range(c, 1);
        }
        if self.has_nbr(c, 2) {
            self.lemma_nbr_in_range(c, 2);
        }
        if self.has_nbr(c, 3) {
            self.lemma_nbr_in_range(c, 3);
        }
    }

    /// A fresh simulator: the given terrain, everything dry except the
    /// source cell, which starts wet with the given depth.
    pub fn new(
        heights: Vec<i64>,
        side: usize,
        source_x: usize,
        source_z: usize,
        inflow_rate: i64,
        source_depth: i64,
    ) -> (sim: WaterSimulator)
        requires
            1 <= side <= 4097,
            heights@.len() == side * side,
            forall|c: int|
                0 <= c < heights@.len() ==> -HEIGHT_BOUND <= #[trigger] heights@[c]
                    <= HEIGHT_BOUND,
            source_x < side,
            source_z < side,
            0 <= inflow_rate <= INFLOW_BOUND,
            0 <= source_depth <= DEPTH_CAP,
        ensures
            sim.wf(),
            sim.side == side,
            sim.heights@ == heights@,
            sim.source_x == source_x,
            sim.source_z == source_z,
            sim.inflow_rate == inflow_rate,
            sim.depths@[sim.src()] == source_depth,
            sim.wet@[sim.src()],
            forall|c: int|
                0 <= c < sim.n2() && c != sim.src() ==> #[trigger] sim.depths@[c] == 0i64,
            forall|c: int| 0 <= c < sim.n2() && c != sim.src() ==> !(#[trigger] sim.wet@[c]),
    {
        proof {
            assert(side * side <= 16_785_409 && 0 <= source_x * side + source_z < side * side)
                by (nonlinear_arith)
                requires
                    1 <= side <= 4097,
                    source_x < side,
                    source_z < side,
            ;
        }
        let n = side * side;
        let mut depths: Vec<i64> = Vec::new();
        let mut wet: Vec<bool> = Vec::new();
        let mut i: usize = 0;
        while i < n
            invariant
                i <= n,
                depths@.len() == i,
                wet@.len() == i,
                forall|c: int| 0 <= c < i ==> #[trigger] depths@[c] == 0i64,
                forall|c: int| 0 <= c < i ==> !(#[trigger] wet@[c]),
            decreases n - i,
        {
            depths.push(0);
            wet.push(false);
            i = i + 1;
        }
        let src = source_x * side + source_z;
        depths.set(src, source_depth);
        wet.set(src, true);
        WaterSimulator { side, heights, depths, wet, source_x, source_z, inflow_rate }
    }

    /// Build a simulator over the simulated part of a height map: its
    /// first `width - 1` rows and columns, matching the depth grid.
    pub fn from_height_map(
        hm: &HeightMap,
        source_x: usize,
        source_z: usize,
        inflow_rate: i64,
        source_depth: i64,
    ) -> (sim: WaterSimulator)
        requires
            hm.wf(),
            2 <= hm.width,
            forall|x: int, z: int|
                hm.in_range(x, z) ==> -HEIGHT_BOUND <= #[trigger] hm.hspec(x, z) <= HEIGHT_BOUND,
            source_x < hm.width - 1,
            source_z < hm.width - 1,
            0 <= inflow_rate <= INFLOW_BOUND,
            0 <= source_depth <= DEPTH_CAP,
        ensures
            sim.wf(),
            sim.side == hm.width - 1,
            sim.source_x == source_x,
            sim.source_z == source_z,
            sim.inflow_rate == inflow_rate,
            forall|x: int, z: int|
                0 <= x < sim.side && 0 <= z < sim.side ==> sim.heights@[x * sim.side + z]
                    == hm.hspec(x, z),
            sim.depths@[sim.src()] == source_depth,
            sim.wet@[sim.src()],
            forall|c: int|
                0 <= c < sim.n2() && c != sim.src() ==> #[trigger] sim.depths@[c] == 0i64,
            forall|c: int| 0 <= c < sim.n2() && c != sim.src() ==> !(#[trigger] sim.wet@[c]),
    {
        let side = hm.width - 1;
        proof {
            assert(side * side <= 16_785_409) by (nonlinear_arith)
                requires
                    side <= 4097,
            ;
        }
        let mut heights: Vec<i64> = Vec::new();
        let mut x: usize = 0;
        while x < side
            invariant
                hm.wf(),
                side == hm.width - 1,
                1 <= side <= 4097,
                x <= side,
                heights@.len() == x * side,
                forall|a: int, b: int|
                    0 <= a < x && 0 <= b < side ==> heights@[a * side + b] == hm.hspec(a, b),
                forall|x2: int, z2: int|
                    hm.in_range(x2, z2) ==> -HEIGHT_BOUND <= #[trigger] hm.hspec(x2, z2)
                        <= HEIGHT_BOUND,
            decreases side - x,
        {
            let mut z: usize = 0;
            while z < side
                invariant
                    hm.wf(),
                    side == hm.width - 1,
                    1 <= side <= 4097,
                    x < side,
                    z <= side,
                    heights@.len() == x * side + z,
                    forall|a: int, b: int|
                        0 <= a < x && 0 <= b < side ==> heights@[a * side + b] == hm.hspec(a, b),
                    forall|b: int| 0 <= b < z ==> heights@[x as int * side + b] == hm.hspec(x as int, b),
                    forall|x2: int, z2: int|
                        hm.in_range(x2, z2) ==> -HEIGHT_BOUND <= #[trigger] hm.hspec(x2, z2)
                            <= HEIGHT_BOUND,
                decreases side - z,
            {
                let h = hm.at(x, z);
                heights.push(h);
                proof {
                    assert forall|a: int, b: int|
                        0 <= a < x && 0 <= b < side implies heights@[a * side + b] == hm.hspec(
                        a,
                        b,
                    ) by {
                        assert(a * side + b < x as int * side && 0 <= a * side + b)
                            by (nonlinear_arith)
                            requires
                                0 <= a < x as int,
                                0 <= b < side,
                        ;
                    }
                }
                z = z + 1;
            }
            x = x + 1;
            proof {
                assert((x as int - 1) * side + side == x as int * side) by (nonlinear_arith);
            }
        }
        proof {
            assert forall|c: int| 0 <= c < heights@.len() implies -HEIGHT_BOUND <= #[trigger] heights@[c]
                <= HEIGHT_BOUND by {
                let a = c / (side as int);
                let b = c % (side as int);
                vstd::arithmetic::div_mod::lemma_fundamental_div_mod(c, side as int);
                vstd::arithmetic::div_mod::lemma_mod_bound(c, side as int);
                assert(0 <= a < side) by (nonlinear_arith)
                    requires
                        c == (side as int) * a + b,
                        0 <= c < side * side,
                        0 <= b < side,
                        side >= 1,
                ;
                assert(c == a * side + b) by (nonlinear_arith)
                    requires
                        c == (side as int) * a + b,
                ;
                assert(heights@[a * side + b] == hm.hspec(a, b));
            }
        }
        let ghost hview = heights@;
        let sim = WaterSimulator::new(heights, side, source_x, source_z, inflow_rate, source_depth);
        proof {
            assert forall|x: int, z: int|
                0 <= x < sim.side && 0 <= z < sim.side implies sim.heights@[x * sim.side + z]
                == hm.hspec(x, z) by {
                assert(0 <= x * (side as int) + z < (side as int) * side) by (nonlinear_arith)
                    requires
                        0 <= x < side as int,
                        0 <= z < side as int,
                ;
                assert(hview[x * (side as int) + z] == hm.hspec(x, z));
            }
        }
        sim
    }

    /// Read one cell's depth; zero when dry.
    pub fn depth_at(&self, x: usize, z: usize) -> (d: i64)
        requires
            self.wf(),
            x < self.side,
            z < self.side,
        ensures
            d == self.depths@[x as int * self.side + z],
    {
        proof {
            assert(0 <= x as int * self.side + z < self.n2() && x as int * self.side + z
                < 16_785_409) by (nonlinear_arith)
                requires
                    (x as int) < self.side,
                    (z as int) < self.side,
                    0 <= x as int,
                    0 <= z as int,
                    self.side <= 4097,
            ;
        }
        self.depths[x * self.side + z]
    }

    /// Whether a cell is currently wet.
    pub fn is_wet(&self, x: usize, z: usize) -> (w: bool)
        requires
            self.wf(),
            x < self.side,
            z < self.side,
        ensures
            w == self.wet@[x as int * self.side + z],
    {
        proof {
            assert(0 <= x as int * self.side + z < self.n2() && x as int * self.side + z
                < 16_785_409) by (nonlinear_arith)
                requires
                    (x as int) < self.side,
                    (z as int) < self.side,
                    0 <= x as int,
                    0 <= z as int,
                    self.side <= 4097,
            ;
        }
        self.wet[x * self.side + z]
    }

    /// Process one giving cell against the post-injection snapshot in
    /// `self`: push the due transfer to each strictly lower neighbour,
    /// debiting the giver by the same amount, into the scratch buffer.
    fn apply_giver(&self, e: u64, inj: i64, next: &mut Vec<i64>, g: usize)
        requires
            self.wf(),
            e <= STEP_MS_BOUND,
            (g as int) < self.n2(),
            self.wet@[g as int],
            inj as int == self.inj_amount(e),
            old(next)@.len() == self.n2(),
            forall|c: int|
                0 <= c < self.n2() ==> -BUF_BOUND <= #[trigger] old(next)@[c] <= BUF_BOUND,
        ensures
            final(next)@.len() == self.n2(),
            forall|c: int|
                0 <= c < self.n2() ==> #[trigger] final(next)@[c] as int == old(next)@[c]
                    + self.delta(e, g as int, c),
            sum_seq(final(next)@) == sum_seq(old(next)@),
    {
        let side = self.side;
        proof {
            assert(self.n2() <= 16_785_409 && self.src() < 16_785_409) by (nonlinear_arith)
                requires
                    1 <= self.side <= 4097,
                    self.source_x < self.side,
                    self.source_z < self.side,
            ;
            self.lemma_inj_bounds(e);
        }
        let src_i = self.source_x * side + self.source_z;
        let lg = self.heights[g] + self.depths[g] + (if g == src_i {
            inj
        } else {
            0
        });
        proof {
            assert(lg as int == self.level(e, g as int));
        }
        let n = next.len();
        // North.
        if g % side != 0 {
            proof {
                self.lemma_nbr_in_range(g as int, 0);
            }
            let nb = g - 1;
            self.give_one(e, inj, next, g, nb, lg, Ghost(0));
        }
        // East.
        if g + side < n {
            let nb = g + side;
            proof {
                self.lemma_nbr_in_range(g as int, 1);
            }
            self.give_one(e, inj, next, g, nb, lg, Ghost(1));
        }
        // South.
        if g % side != side - 1 {
            let nb = g + 1;
            proof {
                self.lemma_nbr_in_range(g as int, 2);
            }
            self.give_one(e, inj, next, g, nb, lg, Ghost(2));
        }
        // West.
        if g >= side {
            let nb = g - side;
            proof {
                self.lemma_nbr_in_range(g as int, 3);
            }
            self.give_one(e, inj, next, g, nb, lg, Ghost(3));
        }
        proof {
            let s = self.side as int;
            if s == 1 {
                assert(self.n2() == 1) by (nonlinear_arith)
                    requires
                        self.side == 1,
                        self.n2() == self.side * self.side,
                ;
            }
            assert forall|c: int|
                0 <= c < self.n2() implies #[trigger] next@[c] as int == old(next)@[c]
                + self.delta(e, g as int, c) by {
                if c == g - 1 {
                    if (g as int) % s != 0 {
                        crate::num::lemma_mod_dec(g as int, s);
                    } else {
                        crate::num::lemma_mod_dec_wrap(g as int, s);
                    }
                }
                if c == g + 1 {
                    if (g as int) % s != s - 1 {
                        crate::num::lemma_mod_inc(g as int, s);
                    } else {
                        crate::num::lemma_mod_inc_wrap(g as int, s);
                    }
                }
            }
        }
    }

    /// One directed transfer: if the giver's level exceeds neighbour
    /// `nb`'s, move the due amount in the scratch buffer.
    fn give_one(
        &self,
        e: u64,
        inj: i64,
        next: &mut Vec<i64>,
        g: usize,
        nb: usize,
        lg: i64,
        dir: Ghost<int>,
    )
        requires
            self.wf(),
            e <= STEP_MS_BOUND,
            (g as int) < self.n2(),
            self.wet@[g as int],
            inj as int == self.inj_amount(e),
            lg as int == self.level(e, g as int),
            0 <= dir@ < 4,
            self.has_nbr(g as int, dir@),
            nb as int == self.nbr(g as int, dir@),
            0 <= (nb as int) < self.n2(),
            old(next)@.len() == self.n2(),
            -2 * BUF_BOUND <= old(next)@[g as int] <= 2 * BUF_BOUND,
            -BUF_BOUND <= old(next)@[nb as int] <= BUF_BOUND,
        ensures
            final(next)@ == old(next)@.update(nb as int, (old(next)@[nb as int] + self.xfer(
                e,
                g as int,
                nb as int,
            )) as i64).update(g as int, (old(next)@[g as int] - self.xfer(
                e,
                g as int,
                nb as int,
            )) as i64),
            final(next)@.len() == old(next)@.len(),
            forall|c: int|
                0 <= c < self.n2() && c != g && c != nb ==> #[trigger] final(next)@[c] == old(
                    next,
                )@[c],
            final(next)@[nb as int] as int == old(next)@[nb as int] + self.xfer(
                e,
                g as int,
                nb as int,
            ),
            final(next)@[g as int] as int == old(next)@[g as int] - self.xfer(
                e,
                g as int,
                nb as int,
            ),
            0 <= self.xfer(e, g as int, nb as int) <= XFER_BOUND,
            sum_seq(final(next)@) == sum_seq(old(next)@),
    {
        proof {
            self.lemma_inj_bounds(e);
            self.lemma_xfer_bounds(e, g as int, nb as int);
        }
        proof {
            assert(self.src() < 16_785_409) by (nonlinear_arith)
                requires
                    1 <= self.side <= 4097,
                    self.source_x < self.side,
                    self.source_z < self.side,
            ;
            assert(-HEIGHT_BOUND <= self.heights@[g as int] <= HEIGHT_BOUND);
            assert(0 <= self.depths@[g as int] <= DEPTH_CAP);
            assert(-HEIGHT_BOUND <= self.heights@[nb as int] <= HEIGHT_BOUND);
            assert(0 <= self.depths@[nb as int] <= DEPTH_CAP);
        }
        let src_full = self.source_x * self.side + self.source_z;
        let ln = self.heights[nb] + self.depths[nb] + (if nb == src_full {
            inj
        } else {
            0
        });
        proof {
            assert(ln as int == self.level(e, nb as int));
        }
        let ch = if lg > ln {
            proof {
                assert(0 <= (lg - ln) as int * e <= (2 * (HEIGHT_BOUND + DEPTH_CAP) + INJ_BOUND
                    as int) * (STEP_MS_BOUND as int)) by (nonlinear_arith)
                    requires
                        0 < lg - ln <= 2 * (HEIGHT_BOUND + DEPTH_CAP) + INJ_BOUND,
                        0 <= e <= STEP_MS_BOUND,
                ;
            }
            ((lg - ln) * (e as i64)) / 4000
        } else {
            0
        };
        proof {
            assert(ch as int == self.xfer(e, g as int, nb as int));
        }
        let ghost s0 = next@;
        let t1 = next[nb] + ch;
        next.set(nb, t1);
        let ghost s1 = next@;
        let t2 = next[g] - ch;
        next.set(g, t2);
        proof {
            assert(g != nb);
            lemma_sum_update(s0, nb as int, t1);
            lemma_sum_update(s1, g as int, t2);
        }
    }

    /// Advance the simulation by `elapsed_ms` milliseconds and report
    /// every cell whose depth or wet state changed, with its new depth,
    /// in ascending row-major order.
    ///
    /// Every new depth is pinned to the flow model: the saturation of
    /// `raw_next` into `[0, DEPTH_CAP]`. When no cell's raw value
    /// leaves that range, the summed depth grows by exactly the
    /// injected amount: mass is conserved to the last tick.
    pub fn step(&mut self, elapsed_ms: u64) -> (changes: Vec<CellChange>)
        requires
            old(self).wf(),
            elapsed_ms <= STEP_MS_BOUND,
        ensures
            final(self).wf(),
            final(self).side == old(self).side,
            final(self).heights@ == old(self).heights@,
            final(self).source_x == old(self).source_x,
            final(self).source_z == old(self).source_z,
            final(self).inflow_rate == old(self).inflow_rate,
            forall|c: int|
                0 <= c < old(self).n2() ==> #[trigger] final(self).depths@[c] as int == old(
                    self,
                ).next_depth(elapsed_ms, c),
            forall|c: int|
                0 <= c < old(self).n2() ==> #[trigger] final(self).wet@[c] == old(self).next_wet(
                    elapsed_ms,
                    c,
                ),
            (forall|c: int|
                0 <= c < old(self).n2() ==> 0 <= #[trigger] old(self).raw_next(elapsed_ms, c)
                    <= DEPTH_CAP) ==> sum_seq(final(self).depths@) == sum_seq(old(self).depths@)
                + old(self).inj_amount(elapsed_ms),
            forall|i: int|
                0 <= i < changes@.len() ==> change_entry_ok(
                    *old(self),
                    elapsed_ms,
                    #[trigger] changes@[i],
                ),
            forall|i: int, j: int|
                0 <= i < j < changes@.len() ==> cc_idx(#[trigger] changes@[i], old(self).side as int)
                    < cc_idx(#[trigger] changes@[j], old(self).side as int),
            forall|c: int|
                0 <= c < old(self).n2() && #[trigger] old(self).changed(elapsed_ms, c) ==> reports(
                    changes@,
                    old(self).side as int,
                    c,
                ),
    {
        let e = elapsed_ms;
        let side = self.side;
        proof {
            assert(self.n2() <= 16_785_409) by (nonlinear_arith)
                requires
                    1 <= self.side <= 4097,
                    self.n2() == self.side * self.side,
            ;
            assert(0 <= self.inflow_rate * e <= INFLOW_BOUND as int * STEP_MS_BOUND as int)
                by (nonlinear_arith)
                requires
                    0 <= self.inflow_rate <= INFLOW_BOUND,
                    0 <= e <= STEP_MS_BOUND,
            ;
            self.lemma_inj_bounds(e);
        }
        let n = side * side;
        let src_i = self.source_x * side + self.source_z;
        let inj = (self.inflow_rate * (e as i64)) / 1000;
        proof {
            assert(inj as int == self.inj_amount(e));
        }
        let mut next: Vec<i64> = Vec::new();
        let mut i: usize = 0;
        while i < n
            invariant
                self.wf(),
                *self == *old(self),
                n == self.n2(),
                side == self.side,
                src_i as int == self.src(),
                inj as int == self.inj_amount(e),
                0 <= inj <= INJ_BOUND,
                e <= STEP_MS_BOUND,
                i <= n,
                next@.len() == i,
                forall|c: int| 0 <= c < i ==> #[trigger] next@[c] as int == self.base_depth(e, c),
            decreases n - i,
        {
            let mut v = self.depths[i];
            if i == src_i {
                v = v + inj;
            }
            next.push(v);
            i = i + 1;
        }
        proof {
            assert(next@ =~= self.depths@.update(
                self.src(),
                (self.depths@[self.src()] + inj) as i64,
            ));
            lemma_sum_update(self.depths@, self.src(), (self.depths@[self.src()] + inj) as i64);
            assert(sum_seq(next@) == sum_seq(self.depths@) + self.inj_amount(e));
            assert forall|c: int|
                0 <= c < n implies #[trigger] next@[c] as int == self.partial_next(e, c, 0) by {
                if self.has_nbr(c, 0) {
                    self.lemma_nbr_in_range(c, 0);
                }
                if self.has_nbr(c, 3) {
                    self.lemma_nbr_in_range(c, 3);
                }
            }
        }
        let mut g: usize = 0;
        while g < n
            invariant
                self.wf(),
                *self == *old(self),
                n == self.n2(),
                side == self.side,
                src_i as int == self.src(),
                inj as int == self.inj_amount(e),
                e <= STEP_MS_BOUND,
                g <= n,
                next@.len() == n,
                forall|c: int|
                    0 <= c < n ==> #[trigger] next@[c] as int == self.partial_next(e, c, g as int),
                sum_seq(next@) == sum_seq(self.depths@) + self.inj_amount(e),
            decreases n - g,
        {
            proof {
                assert forall|c: int|
                    0 <= c < n implies -BUF_BOUND <= #[trigger] next@[c] <= BUF_BOUND by {
                    self.lemma_partial_bounds(e, c, g as int);
                }
            }
            if self.wet[g] {
                self.apply_giver(e, inj, &mut next, g);
                proof {
                    assert forall|c: int|
                        0 <= c < n implies #[trigger] next@[c] as int == self.partial_next(
                        e,
                        c,
                        g as int + 1,
                    ) by {}
                }
            } else {
                proof {
                    assert forall|c: int|
                        0 <= c < n implies #[trigger] next@[c] as int == self.partial_next(
                        e,
                        c,
                        g as int + 1,
                    ) by {
                        assert(self.out_total(e, g as int) == 0);
                    }
                }
            }
            g = g + 1;
        }
        proof {
            assert forall|c: int|
                0 <= c < n implies #[trigger] next@[c] as int == self.raw_next(e, c) by {
                self.lemma_partial_complete(e, c);
            }
        }
        let ghost pre = *self;
        let mut changes: Vec<CellChange> = Vec::new();
        let mut c: usize = 0;
        while c < n
            invariant
                pre == *old(self),
                pre.wf(),
                n == pre.n2(),
                side == pre.side,
                e <= STEP_MS_BOUND,
                self.side == pre.side,
                self.heights@ == pre.heights@,
                self.source_x == pre.source_x,
                self.source_z == pre.source_z,
                self.inflow_rate == pre.inflow_rate,
                self.depths@.len() == n,
                self.wet@.len() == n,
                c <= n,
                next@.len() == n,
                forall|i2: int|
                    0 <= i2 < n ==> #[trigger] next@[i2] as int == pre.raw_next(e, i2),
                forall|i2: int|
                    0 <= i2 < c ==> #[trigger] self.depths@[i2] as int == pre.next_depth(e, i2),
                forall|i2: int| 0 <= i2 < c ==> #[trigger] self.wet@[i2] == pre.next_wet(e, i2),
                forall|i2: int| c <= i2 < n ==> #[trigger] self.depths@[i2] == pre.depths@[i2],
                forall|i2: int| c <= i2 < n ==> #[trigger] self.wet@[i2] == pre.wet@[i2],
                forall|i2: int|
                    0 <= i2 < changes@.len() ==> change_entry_ok(pre, e, #[trigger] changes@[i2])
                        && cc_idx(changes@[i2], side as int) < c,
                forall|i2: int, j2: int|
                    0 <= i2 < j2 < changes@.len() ==> cc_idx(#[trigger] changes@[i2], side as int)
                        < cc_idx(#[trigger] changes@[j2], side as int),
                forall|i2: int|
                    0 <= i2 < c && #[trigger] pre.changed(e, i2) ==> reports(
                        changes@,
                        side as int,
                        i2,
                    ),
            decreases n - c,
        {
            let r = next[c];
            let d_new = if r < 0 {
                0
            } else if r > DEPTH_CAP {
                DEPTH_CAP
            } else {
                r
            };
            let was_wet = self.wet[c];
            let old_d = self.depths[c];
            let w_new = was_wet || d_new > 0;
            proof {
                assert(d_new as int == pre.next_depth(e, c as int));
                assert(w_new == pre.next_wet(e, c as int));
            }
            self.depths.set(c, d_new);
            self.wet.set(c, w_new);
            if d_new != old_d || w_new != was_wet {
                let cx = c / side;
                let cz = c % side;
                proof {
                    let cq = c as int / (side as int);
                    let cr = c as int % (side as int);
                    vstd::arithmetic::div_mod::lemma_fundamental_div_mod(c as int, side as int);
                    vstd::arithmetic::div_mod::lemma_mod_bound(c as int, side as int);
                    assert(cq < side as int && cq * (side as int) + cr == c as int)
                        by (nonlinear_arith)
                        requires
                            c as int == (side as int) * cq + cr,
                            0 <= cr < side as int,
                            0 <= (c as int) < (side as int) * (side as int),
                            1 <= side as int,
                    ;
                    assert(pre.changed(e, c as int));
                }
                let ghost oldch = changes@;
                changes.push(CellChange { x: cx, z: cz, depth: d_new });
                proof {
                    assert(cc_idx(changes@[oldch.len() as int], side as int) == c as int);
                    assert forall|i2: int|
                        0 <= i2 < c as int + 1 && #[trigger] pre.changed(e, i2) implies reports(
                        changes@,
                        side as int,
                        i2,
                    ) by {
                        if i2 < c as int {
                            lemma_reports_push(
                                oldch,
                                side as int,
                                i2,
                                changes@[oldch.len() as int],
                            );
                            assert(changes@ == oldch.push(changes@[oldch.len() as int]));
                        }
                    }
                }
            } else {
                proof {
                    assert(!pre.changed(e, c as int));
                }
            }
            c = c + 1;
        }
        proof {
            assert(self.src() == pre.src());
            assert(self.n2() == pre.n2());
            assert(self.wet@[self.src()]);
            assert forall|i2: int|
                0 <= i2 < n implies 0 <= #[trigger] self.depths@[i2] <= DEPTH_CAP by {}
            assert forall|i2: int|
                0 <= i2 < n implies (!(#[trigger] self.wet@[i2]) ==> self.depths@[i2]
                == 0i64) by {}
            if (forall|c2: int|
                0 <= c2 < pre.n2() ==> 0 <= #[trigger] pre.raw_next(e, c2) <= DEPTH_CAP) {
                assert forall|i2: int| 0 <= i2 < n implies #[trigger] self.depths@[i2]
                    == next@[i2] by {
                    assert(0 <= pre.raw_next(e, i2) <= DEPTH_CAP);
                }
                assert(self.depths@ =~= next@);
            }
        }
        changes
    }

    /// Injection growth. When no outflow leaves the source this step
    /// — every neighbour stands at least as high as the source's
    /// post-injection level — the source's raw next depth is its old
    /// depth plus the full injected amount, so it is at least the
    /// injected amount.
    pub proof fn lemma_injection_growth(self, e: u64)
        requires
            self.wf(),
            e <= STEP_MS_BOUND,
            forall|d: int| 0 <= d < 4 ==> #[trigger] self.out_to(e, self.src(), d) == 0,
        ensures
            self.raw_next(e, self.src()) == self.depths@[self.src()] + self.inj_amount(e)
                + self.in_from(e, self.src(), 0) + self.in_from(e, self.src(), 1) + self.in_from(
                e,
                self.src(),
                2,
            ) + self.in_from(e, self.src(), 3),
            self.raw_next(e, self.src()) >= self.depths@[self.src()] + self.inj_amount(e),
            self.raw_next(e, self.src()) >= self.inj_amount(e),
    {
        let c = self.src();
        if self.has_nbr(c, 0) {
            self.lemma_nbr_in_range(c, 0);
            self.lemma_xfer_bounds(e, self.nbr(c, 0), c);
        }
        if self.has_nbr(c, 1) {
            self.lemma_nbr_in_range(c, 1);
            self.lemma_xfer_bounds(e, self.nbr(c, 1), c);
        }
        if self.has_nbr(c, 2) {
            self.lemma_nbr_in_range(c, 2);
            self.lemma_xfer_bounds(e, self.nbr(c, 2), c);
        }
        if self.has_nbr(c, 3) {
            self.lemma_nbr_in_range(c, 3);
            self.lemma_xfer_bounds(e, self.nbr(c, 3), c);
        }
        assert(0 <= self.depths@[c]);
    }

    /// Dry cells next to strictly higher wet cells turn wet: if the
    /// dry cell `c` has a wet neighbour whose level exceeds `c`'s by
    /// enough to register at the fixed-point resolution, one step
    /// leaves `c` with positive depth, marks it wet, and therefore
    /// reports it as changed.
    pub proof fn lemma_wet_spreads(self, e: u64, c: int, d: int)
        requires
            self.wf(),
            e <= STEP_MS_BOUND,
            0 <= c < self.n2(),
            !self.wet@[c],
            0 <= d < 4,
            self.has_nbr(c, d),
            self.wet@[self.nbr(c, d)],
            (self.level(e, self.nbr(c, d)) - self.level(e, c)) * e >= 4000,
        ensures
            self.next_depth(e, c) > 0,
            self.next_wet(e, c),
            self.changed(e, c),
    {
        let g = self.nbr(c, d);
        self.lemma_nbr_in_range(c, d);
        let diff = self.level(e, g) - self.level(e, c);
        assert(diff > 0) by (nonlinear_arith)
            requires
                diff * e >= 4000,
                0 <= e,
        ;
        self.lemma_xfer_bounds(e, g, c);
        assert(self.xfer(e, g, c) >= 1) by {
            vstd::arithmetic::div_mod::lemma_div_is_ordered(4000, diff * e, 4000);
            vstd::arithmetic::div_mod::lemma_div_by_self(4000);
        }
        if self.has_nbr(c, 0) {
            self.lemma_nbr_in_range(c, 0);
            self.lemma_xfer_bounds(e, self.nbr(c, 0), c);
        }
        if self.has_nbr(c, 1) {
            self.lemma_nbr_in_range(c, 1);
            self.lemma_xfer_bounds(e, self.nbr(c, 1), c);
        }
        if self.has_nbr(c, 2) {
            self.lemma_nbr_in_range(c, 2);
            self.lemma_xfer_bounds(e, self.nbr(c, 2), c);
        }
        if self.has_nbr(c, 3) {
            self.lemma_nbr_in_range(c, 3);
            self.lemma_xfer_bounds(e, self.nbr(c, 3), c);
        }
        assert(self.out_total(e, c) == 0);
        assert(c != self.src());
        assert(self.base_depth(e, c) == 0);
        assert(self.in_from(e, c, d) == self.xfer(e, g, c));
        assert(self.raw_next(e, c) >= 1);
    }

    /// Total water mass currently tracked, in depth ticks.
    pub fn total_depth(&self) -> (t: i128)
        requires
            self.wf(),
        ensures
            t == sum_seq(self.depths@),
    {
        let n = self.depths.len();
        let mut t: i128 = 0;
        let mut i: usize = 0;
        while i < n
            invariant
                self.wf(),
                n == self.depths@.len(),
                i <= n,
                t == sum_seq(self.depths@.take(i as int)),
                0 <= t <= i as int * DEPTH_CAP,
            decreases n - i,
        {
            proof {
                lemma_sum_take_step(self.depths@, i as int);
            }
            t = t + self.depths[i] as i128;
            i = i + 1;
        }
        proof {
            assert(self.depths@.take(n as int) =~= self.depths@);
        }
        t
    }
}

} // verus!
