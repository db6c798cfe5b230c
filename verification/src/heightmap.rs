//! Procedural terrain: recursive midpoint displacement (diamond-square)
//! over a `2^k + 1` square grid, followed by one neighbour-averaging
//! smoothing pass.
//!
//! Heights are fixed-point `i64` values, `ONE` ticks per unit. The
//! roughness scale starts at one unit and grows by the factor 8/5 each
//! octave, so every generated height provably stays within
//! `RAW_HEIGHT_LIMIT`; the corner cells keep their seed draws, which lie
//! in `[-ONE, ONE)`, until the smoothing pass runs.

use vstd::prelude::*;

use crate::num::{
    div_floor, is_pow2, lemma_div_bounds, lemma_mod_add_self, lemma_mod_shift, lemma_mod_split,
    lemma_mod_zero_in_first_period,
};
use crate::rng::RandomSource;
use crate::ONE;

verus! {

/// Every height a generation run can produce fits in this magnitude:
/// one unit for a corner seed plus the summed growth of the
/// displacement rounds, whose scale grows by 8/5 each round, over the
/// largest accepted width.
pub const RAW_HEIGHT_LIMIT: i64 = 4_100_000_000;

/// An accepted generation width: `2^k + 1`. The cap on `k` keeps the
/// grid allocation and the growing roughness scale within machine
/// bounds.
pub open spec fn valid_width(w: int) -> bool {
    3 <= w <= 4097 && is_pow2(w - 1)
}

/// Runtime test for `valid_width`, for callers that receive the width
/// from outside and must reject bad ones before generating.
pub fn is_valid_width(w: usize) -> (b: bool)
    ensures
        b == valid_width(w as int),
{
    if w < 3 || w > 4097 {
        return false;
    }
    let mut m: usize = w - 1;
    while m > 1
        invariant
            1 <= m,
            is_pow2(m as int) == is_pow2(w as int - 1),
        decreases m,
    {
        if m % 2 != 0 {
            return false;
        }
        m = m / 2;
    }
    true
}

/// A square grid of fixed-point elevations, row-major: cell `(x, z)`
/// lives at index `x * width + z`.
pub struct HeightMap {
    pub width: usize,
    pub cells: Vec<i64>,
}

impl HeightMap {
    pub open spec fn wf(self) -> bool {
        &&& self.cells@.len() == self.width * self.width
        &&& 1 <= self.width <= 4097
    }

    pub open spec fn idx(self, x: int, z: int) -> int {
        x * self.width + z
    }

    pub open spec fn in_range(self, x: int, z: int) -> bool {
        0 <= x < self.width && 0 <= z < self.width
    }

    /// The height at cell `(x, z)`.
    pub open spec fn hspec(self, x: int, z: int) -> i64 {
        self.cells@[self.idx(x, z)]
    }

    proof fn lemma_idx(self, x: int, z: int)
        requires
            self.wf(),
            self.in_range(x, z),
        ensures
            0 <= self.idx(x, z) < self.cells@.len(),
            x * self.width <= self.idx(x, z),
            self.idx(x, z) < 16_785_409,
    {
        let w = self.width as int;
        assert(0 <= x * w + z < w * w && x * w <= x * w + z && w * w <= 16_785_409)
            by (nonlinear_arith)
            requires
                0 <= x < w,
                0 <= z < w,
                w <= 4097,
        ;
    }

    proof fn lemma_idx_inj(self, x1: int, z1: int, x2: int, z2: int)
        requires
            self.wf(),
            self.in_range(x1, z1),
            self.in_range(x2, z2),
            !(x1 == x2 && z1 == z2),
        ensures
            self.idx(x1, z1) != self.idx(x2, z2),
    {
        let w = self.width as int;
        assert(x1 * w + z1 != x2 * w + z2) by (nonlinear_arith)
            requires
                0 <= x1 < w,
                0 <= z1 < w,
                0 <= x2 < w,
                0 <= z2 < w,
                !(x1 == x2 && z1 == z2),
        ;
    }

    /// A grid of the given width with every cell at height zero.
    pub fn new_zero(width: usize) -> (hm: HeightMap)
        requires
            1 <= width <= 4097,
        ensures
            hm.wf(),
            hm.width == width,
            forall|x: int, z: int| hm.in_range(x, z) ==> hm.hspec(x, z) == 0i64,
    {
        proof {
            assert(width * width <= 16_785_409) by (nonlinear_arith)
                requires
                    width <= 4097,
            ;
        }
        let n = width * width;
        let mut cells: Vec<i64> = Vec::new();
        let mut i: usize = 0;
        while i < n
            invariant
                i <= n,
                cells@.len() == i,
                forall|j: int| 0 <= j < i ==> cells@[j] == 0i64,
            decreases n - i,
        {
            cells.push(0);
            i = i + 1;
        }
        let hm = HeightMap { width, cells };
        proof {
            assert forall|x: int, z: int| hm.in_range(x, z) implies hm.hspec(x, z) == 0i64 by {
                hm.lemma_idx(x, z);
            }
        }
        hm
    }

    /// Read one cell.
    pub fn at(&self, x: usize, z: usize) -> (h: i64)
        requires
            self.wf(),
            x < self.width,
            z < self.width,
        ensures
            h == self.hspec(x as int, z as int),
    {
        proof {
            self.lemma_idx(x as int, z as int);
        }
        self.cells[x * self.width + z]
    }

    /// Write one cell; every other cell keeps its value.
    fn set(&mut self, x: usize, z: usize, v: i64)
        requires
            old(self).wf(),
            x < old(self).width,
            z < old(self).width,
        ensures
            final(self).wf(),
            final(self).width == old(self).width,
            final(self).hspec(x as int, z as int) == v,
            forall|a: int, b: int|
                old(self).in_range(a, b) && !(a == x && b == z) ==> final(self).hspec(a, b)
                    == old(self).hspec(a, b),
    {
        proof {
            self.lemma_idx(x as int, z as int);
        }
        let i = x * self.width + z;
        self.cells.set(i, v);
        proof {
            assert forall|a: int, b: int|
                old(self).in_range(a, b) && !(a == x && b == z) implies final(self).hspec(a, b)
                == old(self).hspec(a, b) by {
                old(self).lemma_idx(a, b);
                old(self).lemma_idx_inj(a, b, x as int, z as int);
            }
        }
    }

    /// The least height in the grid, for the host's scaling decisions.
    pub fn min_height(&self) -> (m: i64)
        requires
            self.wf(),
        ensures
            forall|x: int, z: int| self.in_range(x, z) ==> m <= self.hspec(x, z),
            exists|x: int, z: int| self.in_range(x, z) && m == self.hspec(x, z),
    {
        let mut m = self.at(0, 0);
        let mut x: usize = 0;
        while x < self.width
            invariant
                self.wf(),
                x <= self.width,
                forall|a: int, b: int|
                    self.in_range(a, b) && a < x ==> m <= self.hspec(a, b),
                exists|a: int, b: int| self.in_range(a, b) && m == self.hspec(a, b),
            decreases self.width - x,
        {
            let mut z: usize = 0;
            while z < self.width
                invariant
                    self.wf(),
                    x < self.width,
                    z <= self.width,
                    forall|a: int, b: int|
                        self.in_range(a, b) && a < x ==> m <= self.hspec(a, b),
                    forall|b: int| 0 <= b < z ==> m <= self.hspec(x as int, b),
                    exists|a: int, b: int| self.in_range(a, b) && m == self.hspec(a, b),
                decreases self.width - z,
            {
                let h = self.at(x, z);
                if h < m {
                    m = h;
                }
                z = z + 1;
            }
            x = x + 1;
        }
        m
    }

    /// The greatest height in the grid.
    pub fn max_height(&self) -> (m: i64)
        requires
            self.wf(),
        ensures
            forall|x: int, z: int| self.in_range(x, z) ==> m >= self.hspec(x, z),
            exists|x: int, z: int| self.in_range(x, z) && m == self.hspec(x, z),
    {
        let mut m = self.at(0, 0);
        let mut x: usize = 0;
        while x < self.width
            invariant
                self.wf(),
                x <= self.width,
                forall|a: int, b: int|
                    self.in_range(a, b) && a < x ==> m >= self.hspec(a, b),
                exists|a: int, b: int| self.in_range(a, b) && m == self.hspec(a, b),
            decreases self.width - x,
        {
            let mut z: usize = 0;
            while z < self.width
                invariant
                    self.wf(),
                    x < self.width,
                    z <= self.width,
                    forall|a: int, b: int|
                        self.in_range(a, b) && a < x ==> m >= self.hspec(a, b),
                    forall|b: int| 0 <= b < z ==> m >= self.hspec(x as int, b),
                    exists|a: int, b: int| self.in_range(a, b) && m == self.hspec(a, b),
                decreases self.width - z,
            {
                let h = self.at(x, z);
                if h > m {
                    m = h;
                }
                z = z + 1;
            }
            x = x + 1;
        }
        m
    }
}

/// One fold step of the neighbourhood accumulator `(count, sum, lo, hi)`.
pub open spec fn nbhd_step(acc: (int, int, int, int), v: int) -> (int, int, int, int) {
    (
        acc.0 + 1,
        acc.1 + v,
        if v < acc.2 {
            v
        } else {
            acc.2
        },
        if v > acc.3 {
            v
        } else {
            acc.3
        },
    )
}

/// The accumulator invariant: the sum of `count` values each between
/// `lo` and `hi` stays between `count * lo` and `count * hi`.
pub open spec fn acc_ok(acc: (int, int, int, int)) -> bool {
    1 <= acc.0 && acc.0 * acc.2 <= acc.1 <= acc.0 * acc.3 && acc.2 <= acc.3
}

proof fn lemma_nbhd_step(acc: (int, int, int, int), v: int)
    requires
        acc_ok(acc),
    ensures
        acc_ok(nbhd_step(acc, v)),
        nbhd_step(acc, v).2 == if v < acc.2 { v } else { acc.2 },
        nbhd_step(acc, v).3 == if v > acc.3 { v } else { acc.3 },
{
    let a2 = nbhd_step(acc, v);
    assert(a2.0 * a2.2 <= a2.1 <= a2.0 * a2.3) by (nonlinear_arith)
        requires
            a2.0 == acc.0 + 1,
            a2.1 == acc.1 + v,
            a2.2 == if v < acc.2 { v } else { acc.2 },
            a2.3 == if v > acc.3 { v } else { acc.3 },
            1 <= acc.0,
            acc.0 * acc.2 <= acc.1 <= acc.0 * acc.3,
            acc.2 <= acc.3,
    ;
}

/// Executable neighbourhood accumulator: count, running sum, least and
/// greatest value seen.
struct Acc {
    cnt: i64,
    sum: i64,
    lo: i64,
    hi: i64,
}

spec fn acc_view(a: Acc) -> (int, int, int, int) {
    (a.cnt as int, a.sum as int, a.lo as int, a.hi as int)
}

/// Fold one more neighbour into the accumulator.
fn acc_add(a: Acc, v: i64, hb: Ghost<i64>) -> (r: Acc)
    requires
        acc_ok(acc_view(a)),
        1 <= a.cnt <= 8,
        0 <= hb@ <= RAW_HEIGHT_LIMIT,
        -hb@ <= v <= hb@,
        -hb@ <= a.lo <= hb@,
        -hb@ <= a.hi <= hb@,
    ensures
        acc_view(r) == nbhd_step(acc_view(a), v as int),
        acc_ok(acc_view(r)),
        r.cnt == a.cnt + 1,
        -hb@ <= r.lo <= hb@,
        -hb@ <= r.hi <= hb@,
{
    proof {
        assert(-8 * hb@ <= a.sum <= 8 * hb@) by (nonlinear_arith)
            requires
                acc_ok(acc_view(a)),
                acc_view(a) == (a.cnt as int, a.sum as int, a.lo as int, a.hi as int),
                1 <= a.cnt <= 8,
                -hb@ <= a.lo <= hb@,
                -hb@ <= a.hi <= hb@,
                0 <= hb@,
        ;
        lemma_nbhd_step(acc_view(a), v as int);
    }
    Acc {
        cnt: a.cnt + 1,
        sum: a.sum + v,
        lo: if v < a.lo {
            v
        } else {
            a.lo
        },
        hi: if v > a.hi {
            v
        } else {
            a.hi
        },
    }
}

impl HeightMap {
    /// Fold `(count, sum, min, max)` over the cell `(x, z)` and its up
    /// to eight existing neighbours, in a fixed order.
    pub open spec fn nbhd_acc(self, x: int, z: int) -> (int, int, int, int) {
        let w = self.width as int;
        let h0 = self.hspec(x, z) as int;
        let a0 = (1int, h0, h0, h0);
        let a1 = if x > 0 {
            nbhd_step(a0, self.hspec(x - 1, z) as int)
        } else {
            a0
        };
        let a2 = if x + 1 < w {
            nbhd_step(a1, self.hspec(x + 1, z) as int)
        } else {
            a1
        };
        let a3 = if z > 0 {
            nbhd_step(a2, self.hspec(x, z - 1) as int)
        } else {
            a2
        };
        let a4 = if z + 1 < w {
            nbhd_step(a3, self.hspec(x, z + 1) as int)
        } else {
            a3
        };
        let a5 = if x > 0 && z > 0 {
            nbhd_step(a4, self.hspec(x - 1, z - 1) as int)
        } else {
            a4
        };
        let a6 = if x + 1 < w && z > 0 {
            nbhd_step(a5, self.hspec(x + 1, z - 1) as int)
        } else {
            a5
        };
        let a7 = if x > 0 && z + 1 < w {
            nbhd_step(a6, self.hspec(x - 1, z + 1) as int)
        } else {
            a6
        };
        if x + 1 < w && z + 1 < w {
            nbhd_step(a7, self.hspec(x + 1, z + 1) as int)
        } else {
            a7
        }
    }

    /// The least height among the cell and its existing neighbours.
    pub open spec fn nbhd_lo(self, x: int, z: int) -> int {
        self.nbhd_acc(x, z).2
    }

    /// The greatest height among the cell and its existing neighbours.
    pub open spec fn nbhd_hi(self, x: int, z: int) -> int {
        self.nbhd_acc(x, z).3
    }

    /// The smoothed value of a cell: the floor of the arithmetic mean
    /// of the cell and its existing neighbours.
    pub open spec fn smooth_spec(self, x: int, z: int) -> int {
        self.nbhd_acc(x, z).1 / self.nbhd_acc(x, z).0
    }

    /// The neighbourhood extremes stay within any bound that holds of
    /// every cell.
    pub proof fn lemma_nbhd_within(self, x: int, z: int, lo: int, hi: int)
        requires
            self.wf(),
            self.in_range(x, z),
            forall|a: int, b: int|
                self.in_range(a, b) ==> lo <= #[trigger] self.hspec(a, b) <= hi,
        ensures
            lo <= self.nbhd_lo(x, z),
            self.nbhd_hi(x, z) <= hi,
    {
        assert(lo <= self.hspec(x, z) <= hi);
    }

    /// Compute the smoothed value of one cell.
    fn smooth_val(&self, x: usize, z: usize, hb: Ghost<i64>) -> (v: i64)
        requires
            self.wf(),
            x < self.width,
            z < self.width,
            0 <= hb@ <= RAW_HEIGHT_LIMIT,
            forall|a: int, b: int|
                self.in_range(a, b) ==> -hb@ <= #[trigger] self.hspec(a, b) <= hb@,
        ensures
            v as int == self.smooth_spec(x as int, z as int),
            self.nbhd_lo(x as int, z as int) <= v as int <= self.nbhd_hi(x as int, z as int),
            -hb@ <= v <= hb@,
    {
        let w = self.width;
        let h0 = self.at(x, z);
        let mut a = Acc { cnt: 1, sum: h0, lo: h0, hi: h0 };
        proof {
            assert(self.in_range(x as int, z as int));
            assert(-hb@ <= h0 <= hb@);
            assert(acc_view(a) == (1int, h0 as int, h0 as int, h0 as int));
            assert(1int * (h0 as int) == h0 as int) by (nonlinear_arith);
            assert(acc_ok(acc_view(a)));
        }
        if x > 0 {
            a = acc_add(a, self.at(x - 1, z), hb);
        }
        if x + 1 < w {
            a = acc_add(a, self.at(x + 1, z), hb);
        }
        if z > 0 {
            a = acc_add(a, self.at(x, z - 1), hb);
        }
        if z + 1 < w {
            a = acc_add(a, self.at(x, z + 1), hb);
        }
        if x > 0 && z > 0 {
            a = acc_add(a, self.at(x - 1, z - 1), hb);
        }
        if x + 1 < w && z > 0 {
            a = acc_add(a, self.at(x + 1, z - 1), hb);
        }
        if x > 0 && z + 1 < w {
            a = acc_add(a, self.at(x - 1, z + 1), hb);
        }
        if x + 1 < w && z + 1 < w {
            a = acc_add(a, self.at(x + 1, z + 1), hb);
        }
        proof {
            assert(acc_view(a) == self.nbhd_acc(x as int, z as int));
            assert(-9 * hb@ <= a.sum <= 9 * hb@) by (nonlinear_arith)
                requires
                    acc_ok(acc_view(a)),
                    acc_view(a) == (a.cnt as int, a.sum as int, a.lo as int, a.hi as int),
                    1 <= a.cnt <= 9,
                    -hb@ <= a.lo <= hb@,
                    -hb@ <= a.hi <= hb@,
            ;
            lemma_div_bounds(a.sum as int, a.cnt as int, a.lo as int, a.hi as int);
        }
        div_floor(a.sum, a.cnt)
    }

    /// The smoothing pass: every cell of the result is the mean of the
    /// corresponding source cell and its existing neighbours. Reads come
    /// from the unsmoothed source only, so each result cell provably
    /// lies between the least and greatest value of its neighbourhood.
    pub fn smoothed(&self) -> (r: HeightMap)
        requires
            self.wf(),
            forall|a: int, b: int|
                self.in_range(a, b) ==> -RAW_HEIGHT_LIMIT <= #[trigger] self.hspec(a, b)
                    <= RAW_HEIGHT_LIMIT,
        ensures
            r.wf(),
            r.width == self.width,
            forall|x: int, z: int|
                self.in_range(x, z) ==> r.hspec(x, z) as int == self.smooth_spec(x, z),
            forall|x: int, z: int|
                self.in_range(x, z) ==> self.nbhd_lo(x, z) <= r.hspec(x, z) as int
                    <= self.nbhd_hi(x, z),
            forall|x: int, z: int|
                self.in_range(x, z) ==> -RAW_HEIGHT_LIMIT <= r.hspec(x, z) <= RAW_HEIGHT_LIMIT,
    {
        let ghost hb: i64 = RAW_HEIGHT_LIMIT;
        let w = self.width;
        let mut r = HeightMap::new_zero(w);
        let mut x: usize = 0;
        while x < w
            invariant
                self.wf(),
                r.wf(),
                w == self.width,
                r.width == w,
                x <= w,
                0 <= hb <= RAW_HEIGHT_LIMIT,
                forall|a: int, b: int|
                    self.in_range(a, b) ==> -hb <= #[trigger] self.hspec(a, b) <= hb,
                forall|a: int, b: int|
                    self.in_range(a, b) && a < x ==> r.hspec(a, b) as int == self.smooth_spec(
                        a,
                        b,
                    ) && self.nbhd_lo(a, b) <= r.hspec(a, b) as int <= self.nbhd_hi(a, b) && -hb
                        <= r.hspec(a, b) <= hb,
            decreases w - x,
        {
            let mut z: usize = 0;
            while z < w
                invariant
                    self.wf(),
                    r.wf(),
                    w == self.width,
                    r.width == w,
                    x < w,
                    z <= w,
                    0 <= hb <= RAW_HEIGHT_LIMIT,
                    forall|a: int, b: int|
                        self.in_range(a, b) ==> -hb <= #[trigger] self.hspec(a, b) <= hb,
                    forall|a: int, b: int|
                        self.in_range(a, b) && a < x ==> r.hspec(a, b) as int == self.smooth_spec(
                            a,
                            b,
                        ) && self.nbhd_lo(a, b) <= r.hspec(a, b) as int <= self.nbhd_hi(a, b)
                            && -hb <= r.hspec(a, b) <= hb,
                    forall|b: int|
                        0 <= b < z ==> r.hspec(x as int, b) as int == self.smooth_spec(x as int, b)
                            && self.nbhd_lo(x as int, b) <= r.hspec(x as int, b) as int
                            <= self.nbhd_hi(x as int, b) && -hb <= r.hspec(x as int, b) <= hb,
                decreases w - z,
            {
                let v = self.smooth_val(x, z, Ghost(RAW_HEIGHT_LIMIT));
                r.set(x, z, v);
                z = z + 1;
            }
            x = x + 1;
        }
        r
    }
}

/// The scaled image of a unit draw: magnitude `|d| * s / ONE`, rounded
/// toward zero, with the sign of `d`.
pub open spec fn perturb_spec(s: int, d: int) -> int {
    if d >= 0 {
        d * s / (ONE as int)
    } else {
        -((-d) * s / (ONE as int))
    }
}

/// Scale a unit draw `d` in `[-ONE, ONE)` to a perturbation in
/// `[-s, s]`, rounding toward zero.
fn perturb(s: i64, d: i64) -> (p: i64)
    requires
        0 <= s <= 3_000_000_000,
        -ONE <= d < ONE,
    ensures
        -s <= p <= s,
        p as int == perturb_spec(s as int, d as int),
{
    proof {
        assert(-(d * s) <= ONE as int * s && d * s <= ONE as int * s
            && -3_000_000_000_000_000 <= d * s <= 3_000_000_000_000_000) by (nonlinear_arith)
            requires
                -ONE <= d <= ONE,
                0 <= s <= 3_000_000_000,
                ONE == 1_000_000,
        ;
    }
    let prod = d * s;
    if prod >= 0 {
        let q = prod / ONE;
        proof {
            lemma_div_bounds(prod as int, ONE as int, 0, s as int);
            if d < 0 {
                assert(s == 0 && d * s == 0 && (-d) * s == 0) by (nonlinear_arith)
                    requires
                        d < 0,
                        0 <= s,
                        d * s >= 0,
                ;
                assert(perturb_spec(s as int, d as int) == 0);
            }
        }
        q
    } else {
        let q = (-prod) / ONE;
        proof {
            assert(d < 0 && -(d * s) == (-d) * s) by (nonlinear_arith)
                requires
                    d * s < 0,
                    0 <= s,
                    -ONE <= d,
            ;
            lemma_div_bounds((-prod) as int, ONE as int, 0, s as int);
        }
        -q
    }
}

/// Both coordinates are multiples of the round's step: the cell is a
/// corner of some displacement square.
pub open spec fn on_lattice(x: int, z: int, s: int) -> bool {
    x % s == 0 && z % s == 0
}

/// Both coordinates sit at the half-step offset: the cell is the centre
/// of some displacement square.
pub open spec fn on_center(x: int, z: int, s: int) -> bool {
    x % s == s / 2 && z % s == s / 2
}

/// One coordinate on the lattice, the other at the half-step offset:
/// the cell is the midpoint of a square's edge.
pub open spec fn on_edge(x: int, z: int, s: int) -> bool {
    (x % s == 0 && z % s == s / 2) || (x % s == s / 2 && z % s == 0)
}

/// The four corner cells of a width-`w` grid.
pub open spec fn is_corner(w: int, x: int, z: int) -> bool {
    (x == 0 || x == w - 1) && (z == 0 || z == w - 1)
}

/// The coordinate sits at the half-step offset of the round: at least
/// `s/2`, and congruent to `s/2` mod `s`.
pub open spec fn half_pt(a: int, s: int) -> bool {
    s / 2 <= a && a % s == s / 2
}

/// Floor-average of the four corner cells of the square whose centre
/// is `(a, b)`, at half-step `h`.
pub open spec fn diamond_avg(hm: HeightMap, a: int, b: int, h: int) -> int {
    (hm.hspec(a - h, b - h) + hm.hspec(a + h, b - h) + hm.hspec(a - h, b + h) + hm.hspec(
        a + h,
        b + h,
    )) / 4
}

/// Diamond step of one round: every square's centre becomes the average
/// of its four corners plus a scaled perturbation.
fn diamond_pass(hm: &mut HeightMap, src: &mut RandomSource, step: usize, scale: i64, bnd: Ghost<int>)
    requires
        old(hm).wf(),
        4 <= step < old(hm).width,
        step % 2 == 0,
        1 <= scale,
        0 <= bnd@,
        bnd@ + 2 * scale <= RAW_HEIGHT_LIMIT as int,
        forall|a: int, b: int|
            old(hm).in_range(a, b) && on_lattice(a, b, step as int) ==> -bnd@ <= old(hm).hspec(
                a,
                b,
            ) <= bnd@,
        forall|a: int, b: int|
            old(hm).in_range(a, b) && !on_lattice(a, b, step as int) ==> old(hm).hspec(a, b)
                == 0i64,
    ensures
        final(hm).wf(),
        final(hm).width == old(hm).width,
        forall|a: int, b: int|
            old(hm).in_range(a, b) && !on_center(a, b, step as int) ==> final(hm).hspec(a, b)
                == old(hm).hspec(a, b),
        forall|a: int, b: int|
            old(hm).in_range(a, b) && on_center(a, b, step as int) ==> -(bnd@ + scale) <= final(hm).hspec(a, b) <= bnd@ + scale,
        forall|a: int, b: int|
            old(hm).in_range(a, b) && is_corner(old(hm).width as int, a, b) ==> final(hm).hspec(
                a,
                b,
            ) == old(hm).hspec(a, b),
        forall|a: int, b: int|
            #![trigger final(hm).hspec(a, b)]
            half_pt(a, step as int) && half_pt(b, step as int) && a + step / 2 < old(hm).width
                && b + step / 2 < old(hm).width ==> -scale <= final(hm).hspec(a, b) - diamond_avg(
                *old(hm),
                a,
                b,
                step as int / 2,
            ) <= scale,
{
    let width = hm.width;
    let half = step / 2;
    proof {
        assert(step == 2 * half) by {
            vstd::arithmetic::div_mod::lemma_fundamental_div_mod(step as int, 2);
        }
    }
    proof {
        assert(step as int / 2 >= 2);
        assert forall|a: int, b: int|
            old(hm).in_range(a, b) && on_center(a, b, step as int) implies -(bnd@ + scale)
            <= hm.hspec(a, b) <= bnd@ + scale by {
            assert(!on_lattice(a, b, step as int));
        }
    }
    let mut x: usize = 0;
    while x + step < width
        invariant
            hm.wf(),
            hm.width == old(hm).width,
            width == hm.width,
            4 <= step < width,
            half == step / 2,
            step == 2 * half,
            1 <= scale,
            0 <= bnd@,
            bnd@ + 2 * scale <= RAW_HEIGHT_LIMIT as int,
            x as int % step as int == 0,
            x < width,
            forall|a: int, b: int|
                old(hm).in_range(a, b) && on_lattice(a, b, step as int) ==> -bnd@ <= old(hm).hspec(a, b) <= bnd@,
            forall|a: int, b: int|
                old(hm).in_range(a, b) && !on_lattice(a, b, step as int) ==> old(hm).hspec(a, b)
                    == 0i64,
            forall|a: int, b: int|
                old(hm).in_range(a, b) && !on_center(a, b, step as int) ==> hm.hspec(a, b) == old(hm).hspec(a, b),
            forall|a: int, b: int|
                old(hm).in_range(a, b) && on_center(a, b, step as int) ==> -(bnd@ + scale)
                    <= hm.hspec(a, b) <= bnd@ + scale,
            forall|a: int, b: int|
                old(hm).in_range(a, b) && is_corner(width as int, a, b) ==> hm.hspec(a, b)
                    == old(hm).hspec(a, b),
            forall|a: int, b: int|
                #![trigger hm.hspec(a, b)]
                half_pt(a, step as int) && half_pt(b, step as int) && a + half < width && b + half
                    < width && a < x + half ==> -scale <= hm.hspec(a, b) - diamond_avg(
                    *old(hm),
                    a,
                    b,
                    half as int,
                ) <= scale,
        decreases width - x,
    {
        let mut z: usize = 0;
        while z + step < width
            invariant
                hm.wf(),
                hm.width == old(hm).width,
                width == hm.width,
                4 <= step < width,
                half == step / 2,
                step == 2 * half,
                1 <= scale,
                0 <= bnd@,
                bnd@ + 2 * scale <= RAW_HEIGHT_LIMIT as int,
                x as int % step as int == 0,
                x + step < width,
                z as int % step as int == 0,
                z < width,
                forall|a: int, b: int|
                    old(hm).in_range(a, b) && on_lattice(a, b, step as int) ==> -bnd@ <= old(hm).hspec(a, b) <= bnd@,
                forall|a: int, b: int|
                    old(hm).in_range(a, b) && !on_lattice(a, b, step as int) ==> old(hm).hspec(
                        a,
                        b,
                    ) == 0i64,
                forall|a: int, b: int|
                    old(hm).in_range(a, b) && !on_center(a, b, step as int) ==> hm.hspec(a, b)
                        == old(hm).hspec(a, b),
                forall|a: int, b: int|
                    old(hm).in_range(a, b) && on_center(a, b, step as int) ==> -(bnd@ + scale)
                        <= hm.hspec(a, b) <= bnd@ + scale,
                forall|a: int, b: int|
                    old(hm).in_range(a, b) && is_corner(width as int, a, b) ==> hm.hspec(a, b)
                        == old(hm).hspec(a, b),
                forall|a: int, b: int|
                    #![trigger hm.hspec(a, b)]
                    half_pt(a, step as int) && half_pt(b, step as int) && a + half < width && b
                        + half < width && (a < x + half || (a == x + half && b < z + half))
                        ==> -scale <= hm.hspec(a, b) - diamond_avg(
                        *old(hm),
                        a,
                        b,
                        half as int,
                    ) <= scale,
            decreases width - z,
        {
            proof {
                lemma_mod_add_self(x as int, step as int);
                lemma_mod_add_self(z as int, step as int);
                assert(on_lattice(x as int, z as int, step as int));
                assert(on_lattice(x as int + step, z as int, step as int));
                assert(on_lattice(x as int, z as int + step, step as int));
                assert(on_lattice(x as int + step, z as int + step, step as int));
            }
            let tl = hm.at(x, z);
            let tr = hm.at(x + step, z);
            let bl = hm.at(x, z + step);
            let br = hm.at(x + step, z + step);
            proof {
                assert(step as int / 2 >= 2);
                assert(!on_center(x as int, z as int, step as int));
                assert(!on_center(x as int + step, z as int, step as int));
                assert(!on_center(x as int, z as int + step, step as int));
                assert(!on_center(x as int + step, z as int + step, step as int));
                assert(-bnd@ <= tl as int <= bnd@);
                assert(-bnd@ <= tr as int <= bnd@);
                assert(-bnd@ <= bl as int <= bnd@);
                assert(-bnd@ <= br as int <= bnd@);
                assert(tl == old(hm).hspec(x as int, z as int));
                assert(tr == old(hm).hspec(x as int + step, z as int));
                assert(bl == old(hm).hspec(x as int, z as int + step));
                assert(br == old(hm).hspec(x as int + step, z as int + step));
            }
            let sum = tl + tr + bl + br;
            let avg = div_floor(sum, 4);
            proof {
                lemma_div_bounds(sum as int, 4, -bnd@, bnd@);
            }
            let d = src.next_unit();
            let p = perturb(scale, d);
            let v = avg + p;
            proof {
                lemma_mod_shift(x as int, step as int, half as int);
                lemma_mod_shift(z as int, step as int, half as int);
                assert(on_center(x as int + half, z as int + half, step as int));
                assert(x as int + half != 0 && x as int + half != width as int - 1);
            }
            hm.set(x + half, z + half, v);
            proof {
                assert(diamond_avg(*old(hm), x as int + half, z as int + half, half as int)
                    == avg as int);
                assert forall|a: int, b: int|
                    half_pt(a, step as int) && half_pt(b, step as int) && a + half < width && b
                        + half < width && (a < x + half || (a == x + half && b < z + step
                        + half)) implies -scale <= hm.hspec(a, b) - diamond_avg(
                    *old(hm),
                    a,
                    b,
                    half as int,
                ) <= scale by {
                    if !(a < x + half || (a == x + half && b < z + half)) {
                        crate::num::lemma_mod_unshift(b, step as int, half as int);
                        crate::num::lemma_multiple_window(z as int, b - half, step as int);
                        assert(a == x + half && b == z + half);
                    }
                }
            }
            z = z + step;
        }
        x = x + step;
        proof {
            lemma_mod_add_self(x as int - step, step as int);
            assert forall|a: int, b: int|
                half_pt(a, step as int) && half_pt(b, step as int) && a + half < width && b + half
                    < width && a < x + half implies -scale <= hm.hspec(a, b) - diamond_avg(
                *old(hm),
                a,
                b,
                half as int,
            ) <= scale by {
                if !(a < x as int - step + half) {
                    crate::num::lemma_mod_unshift(a, step as int, half as int);
                    crate::num::lemma_multiple_window(x as int - step, a - half, step as int);
                }
            }
        }
    }
}

/// Floor-average of two corner cells and a centre cell: the square
/// step's edge-midpoint rule.
pub open spec fn square_avg(
    hm: HeightMap,
    c1x: int,
    c1z: int,
    c2x: int,
    c2z: int,
    mx: int,
    mz: int,
) -> int {
    (hm.hspec(c1x, c1z) + hm.hspec(c2x, c2z) + hm.hspec(mx, mz)) / 3
}

/// The anchor column of the square whose write to a vertical edge
/// midpoint at column `a` lands last: its own column while a square
/// starts there, else the column one step left.
pub open spec fn v_writer(a: int, s: int, w: int) -> int {
    if a + s < w {
        a
    } else {
        a - s
    }
}

/// The centre column that last write reads.
pub open spec fn v_center(a: int, s: int, w: int) -> int {
    if a + s < w {
        a + s / 2
    } else {
        a - s / 2
    }
}

/// Square step of one round: every square's four edge midpoints become
/// the average of the two adjacent corners and the centre, plus a
/// scaled perturbation.
fn square_pass(hm: &mut HeightMap, src: &mut RandomSource, step: usize, scale: i64, bnd: Ghost<int>)
    requires
        old(hm).wf(),
        4 <= step < old(hm).width,
        step % 2 == 0,
        1 <= scale,
        0 <= bnd@,
        bnd@ + 2 * scale <= RAW_HEIGHT_LIMIT as int,
        forall|a: int, b: int|
            old(hm).in_range(a, b) && on_lattice(a, b, step as int) ==> -bnd@ <= old(hm).hspec(
                a,
                b,
            ) <= bnd@,
        forall|a: int, b: int|
            old(hm).in_range(a, b) && on_center(a, b, step as int) ==> -(bnd@ + scale) <= old(hm).hspec(a, b) <= bnd@ + scale,
        forall|a: int, b: int|
            old(hm).in_range(a, b) && !on_lattice(a, b, step as int) && !on_center(
                a,
                b,
                step as int,
            ) ==> old(hm).hspec(a, b) == 0i64,
    ensures
        final(hm).wf(),
        final(hm).width == old(hm).width,
        forall|a: int, b: int|
            old(hm).in_range(a, b) && !on_edge(a, b, step as int) ==> final(hm).hspec(a, b) == old(hm).hspec(a, b),
        forall|a: int, b: int|
            old(hm).in_range(a, b) && on_edge(a, b, step as int) ==> -(bnd@ + 2 * scale) <= final(hm).hspec(a, b) <= bnd@ + 2 * scale,
        forall|a: int, b: int|
            old(hm).in_range(a, b) && is_corner(old(hm).width as int, a, b) ==> final(hm).hspec(
                a,
                b,
            ) == old(hm).hspec(a, b),
        forall|a: int, b: int|
            #![trigger final(hm).hspec(a, b)]
            0 <= a < old(hm).width && a % (step as int) == 0 && half_pt(b, step as int) && b + step
                / 2 < old(hm).width ==> -scale <= final(hm).hspec(a, b) - square_avg(
                *old(hm),
                a,
                b - step / 2,
                a,
                b + step / 2,
                v_center(a, step as int, old(hm).width as int),
                b,
            ) <= scale,
        forall|a: int, b: int|
            #![trigger final(hm).hspec(a, b)]
            half_pt(a, step as int) && a + step / 2 < old(hm).width && 0 <= b < old(hm).width && b
                % (step as int) == 0 ==> -scale <= final(hm).hspec(a, b) - square_avg(
                *old(hm),
                a - step / 2,
                b,
                a + step / 2,
                b,
                a,
                v_center(b, step as int, old(hm).width as int),
            ) <= scale,
{
    let width = hm.width;
    let half = step / 2;
    proof {
        assert(step == 2 * half) by {
            vstd::arithmetic::div_mod::lemma_fundamental_div_mod(step as int, 2);
        }
    }
    proof {
        assert(step as int / 2 >= 2);
        assert forall|a: int, b: int|
            old(hm).in_range(a, b) && on_edge(a, b, step as int) implies -(bnd@ + 2 * scale)
            <= hm.hspec(a, b) <= bnd@ + 2 * scale by {
            assert(!on_lattice(a, b, step as int));
            assert(!on_center(a, b, step as int));
        }
    }
    let mut x: usize = 0;
    while x + step < width
        invariant
            hm.wf(),
            hm.width == old(hm).width,
            width == hm.width,
            4 <= step < width,
            half == step / 2,
            step == 2 * half,
            1 <= scale,
            0 <= bnd@,
            bnd@ + 2 * scale <= RAW_HEIGHT_LIMIT as int,
            x as int % step as int == 0,
            x < width,
            forall|a: int, b: int|
                old(hm).in_range(a, b) && on_lattice(a, b, step as int) ==> -bnd@ <= old(hm).hspec(a, b) <= bnd@,
            forall|a: int, b: int|
                old(hm).in_range(a, b) && on_center(a, b, step as int) ==> -(bnd@ + scale) <= old(hm).hspec(a, b) <= bnd@ + scale,
            forall|a: int, b: int|
                old(hm).in_range(a, b) && !on_edge(a, b, step as int) ==> hm.hspec(a, b) == old(hm).hspec(a, b),
            forall|a: int, b: int|
                old(hm).in_range(a, b) && on_edge(a, b, step as int) ==> -(bnd@ + 2 * scale)
                    <= hm.hspec(a, b) <= bnd@ + 2 * scale,
            forall|a: int, b: int|
                old(hm).in_range(a, b) && is_corner(old(hm).width as int, a, b) ==> hm.hspec(a, b)
                    == old(hm).hspec(a, b),
            forall|a: int, b: int|
                #![trigger hm.hspec(a, b)]
                0 <= a < width && a % (step as int) == 0 && half_pt(b, step as int) && b + half
                    < width && 0 <= v_writer(a, step as int, width as int) && v_writer(
                    a,
                    step as int,
                    width as int,
                ) < x ==> -scale <= hm.hspec(a, b) - square_avg(
                    *old(hm),
                    a,
                    b - half,
                    a,
                    b + half,
                    v_center(a, step as int, width as int),
                    b,
                ) <= scale,
            forall|a: int, b: int|
                #![trigger hm.hspec(a, b)]
                half_pt(a, step as int) && a + half < width && 0 <= b < width && b % (step as int)
                    == 0 && a - half < x ==> -scale <= hm.hspec(a, b) - square_avg(
                    *old(hm),
                    a - half,
                    b,
                    a + half,
                    b,
                    a,
                    v_center(b, step as int, width as int),
                ) <= scale,
        decreases width - x,
    {
        let mut z: usize = 0;
        while z + step < width
            invariant
                hm.wf(),
                hm.width == old(hm).width,
                width == hm.width,
                4 <= step < width,
                half == step / 2,
                step == 2 * half,
                1 <= scale,
                0 <= bnd@,
                bnd@ + 2 * scale <= RAW_HEIGHT_LIMIT as int,
                x as int % step as int == 0,
                x + step < width,
                z as int % step as int == 0,
                z < width,
                forall|a: int, b: int|
                    old(hm).in_range(a, b) && on_lattice(a, b, step as int) ==> -bnd@ <= old(hm).hspec(a, b) <= bnd@,
                forall|a: int, b: int|
                    old(hm).in_range(a, b) && on_center(a, b, step as int) ==> -(bnd@ + scale)
                        <= old(hm).hspec(a, b) <= bnd@ + scale,
                forall|a: int, b: int|
                    old(hm).in_range(a, b) && !on_edge(a, b, step as int) ==> hm.hspec(a, b)
                        == old(hm).hspec(a, b),
                forall|a: int, b: int|
                    old(hm).in_range(a, b) && on_edge(a, b, step as int) ==> -(bnd@ + 2 * scale)
                        <= hm.hspec(a, b) <= bnd@ + 2 * scale,
                forall|a: int, b: int|
                    old(hm).in_range(a, b) && is_corner(old(hm).width as int, a, b) ==> hm.hspec(
                        a,
                        b,
                    ) == old(hm).hspec(a, b),
                forall|a: int, b: int|
                    #![trigger hm.hspec(a, b)]
                    0 <= a < width && a % (step as int) == 0 && half_pt(b, step as int) && b
                        + half < width && ((0 <= v_writer(a, step as int, width as int)
                        && v_writer(a, step as int, width as int) < x) || (v_writer(
                        a,
                        step as int,
                        width as int,
                    ) == x && b - half < z)) ==> -scale <= hm.hspec(a, b) - square_avg(
                        *old(hm),
                        a,
                        b - half,
                        a,
                        b + half,
                        v_center(a, step as int, width as int),
                        b,
                    ) <= scale,
                forall|a: int, b: int|
                    #![trigger hm.hspec(a, b)]
                    half_pt(a, step as int) && a + half < width && 0 <= b < width && b % (
                    step as int) == 0 && (a - half < x || (a - half == x && 0 <= v_writer(
                        b,
                        step as int,
                        width as int,
                    ) && v_writer(b, step as int, width as int) < z)) ==> -scale <= hm.hspec(a, b)
                        - square_avg(
                        *old(hm),
                        a - half,
                        b,
                        a + half,
                        b,
                        a,
                        v_center(b, step as int, width as int),
                    ) <= scale,
            decreases width - z,
        {
            proof {
                lemma_mod_add_self(x as int, step as int);
                lemma_mod_add_self(z as int, step as int);
                lemma_mod_shift(x as int, step as int, half as int);
                lemma_mod_shift(z as int, step as int, half as int);
                assert(on_lattice(x as int, z as int, step as int));
                assert(on_lattice(x as int + step, z as int, step as int));
                assert(on_lattice(x as int, z as int + step, step as int));
                assert(on_lattice(x as int + step, z as int + step, step as int));
                assert(on_center(x as int + half, z as int + half, step as int));
            }
            let tl = hm.at(x, z);
            let tr = hm.at(x + step, z);
            let bl = hm.at(x, z + step);
            let br = hm.at(x + step, z + step);
            let mid = hm.at(x + half, z + half);
            proof {
                assert(step as int / 2 >= 2);
                assert(!on_edge(x as int, z as int, step as int));
                assert(!on_edge(x as int + step, z as int, step as int));
                assert(!on_edge(x as int, z as int + step, step as int));
                assert(!on_edge(x as int + step, z as int + step, step as int));
                assert(!on_edge(x as int + half, z as int + half, step as int));
                assert(-bnd@ <= tl as int <= bnd@);
                assert(-bnd@ <= tr as int <= bnd@);
                assert(-bnd@ <= bl as int <= bnd@);
                assert(-bnd@ <= br as int <= bnd@);
                assert(-(bnd@ + scale) <= mid as int <= bnd@ + scale);
                assert(tl == old(hm).hspec(x as int, z as int));
                assert(tr == old(hm).hspec(x as int + step, z as int));
                assert(bl == old(hm).hspec(x as int, z as int + step));
                assert(br == old(hm).hspec(x as int + step, z as int + step));
                assert(mid == old(hm).hspec(x as int + half, z as int + half));
            }
            // Left edge midpoint.
            let sl = tl + mid + bl;
            let vl = div_floor(sl, 3);
            proof {
                lemma_div_bounds(sl as int, 3, -(bnd@ + scale), bnd@ + scale);
            }
            let dl = src.next_unit();
            let wl = vl + perturb(scale, dl);
            proof {
                assert(on_edge(x as int, z as int + half, step as int));
                assert(z as int + half != 0 && z as int + half != width as int - 1);
            }
            hm.set(x, z + half, wl);
            // Top edge midpoint.
            let st = tl + mid + tr;
            let vt = div_floor(st, 3);
            proof {
                lemma_div_bounds(st as int, 3, -(bnd@ + scale), bnd@ + scale);
            }
            let dt = src.next_unit();
            let wt = vt + perturb(scale, dt);
            proof {
                assert(on_edge(x as int + half, z as int, step as int));
                assert(x as int + half != 0 && x as int + half != width as int - 1);
            }
            hm.set(x + half, z, wt);
            // Right edge midpoint.
            let sr = tr + mid + br;
            let vr = div_floor(sr, 3);
            proof {
                lemma_div_bounds(sr as int, 3, -(bnd@ + scale), bnd@ + scale);
            }
            let dr = src.next_unit();
            let wr = vr + perturb(scale, dr);
            proof {
                lemma_mod_add_self(x as int, step as int);
                assert(on_edge(x as int + step, z as int + half, step as int));
                assert(z as int + half != 0 && z as int + half != width as int - 1);
            }
            hm.set(x + step, z + half, wr);
            // Bottom edge midpoint.
            let sb = bl + mid + br;
            let vb = div_floor(sb, 3);
            proof {
                lemma_div_bounds(sb as int, 3, -(bnd@ + scale), bnd@ + scale);
            }
            let db = src.next_unit();
            let wb = vb + perturb(scale, db);
            proof {
                assert(on_edge(x as int + half, z as int + step, step as int));
                assert(x as int + half != 0 && x as int + half != width as int - 1);
            }
            hm.set(x + half, z + step, wb);
            proof {
                assert(hm.hspec(x as int, z as int + half) == wl);
                assert(hm.hspec(x as int + half, z as int) == wt);
                assert(hm.hspec(x as int + step, z as int + half) == wr);
                assert(hm.hspec(x as int + half, z as int + step) == wb);
                assert(square_avg(*old(hm), x as int, z as int, x as int, z as int + step,
                    x as int + half, z as int + half) == vl as int);
                assert(square_avg(*old(hm), x as int, z as int, x as int + step, z as int,
                    x as int + half, z as int + half) == vt as int);
                assert(square_avg(*old(hm), x as int + step, z as int, x as int + step,
                    z as int + step, x as int + half, z as int + half) == vr as int);
                assert(square_avg(*old(hm), x as int, z as int + step, x as int + step,
                    z as int + step, x as int + half, z as int + half) == vb as int);
                assert forall|a: int, b: int|
                    #![trigger hm.hspec(a, b)]
                    0 <= a < width && a % (step as int) == 0 && half_pt(b, step as int) && b
                        + half < width && ((0 <= v_writer(a, step as int, width as int)
                        && v_writer(a, step as int, width as int) < x) || (v_writer(
                        a,
                        step as int,
                        width as int,
                    ) == x && b - half < z + step)) implies -scale <= hm.hspec(a, b) - square_avg(
                    *old(hm),
                    a,
                    b - half,
                    a,
                    b + half,
                    v_center(a, step as int, width as int),
                    b,
                ) <= scale by {
                    let wx = v_writer(a, step as int, width as int);
                    if !((0 <= wx && wx < x) || (wx == x && b - half < z)) {
                        crate::num::lemma_mod_unshift(b, step as int, half as int);
                        crate::num::lemma_multiple_window(z as int, b - half, step as int);
                        assert(b == z + half);
                        if a + step < width {
                            assert(a == x);
                        } else {
                            assert(a == x + step);
                        }
                    }
                }
                assert forall|a: int, b: int|
                    #![trigger hm.hspec(a, b)]
                    half_pt(a, step as int) && a + half < width && 0 <= b < width && b % (
                    step as int) == 0 && (a - half < x || (a - half == x && 0 <= v_writer(
                        b,
                        step as int,
                        width as int,
                    ) && v_writer(b, step as int, width as int) < z + step)) implies -scale
                    <= hm.hspec(a, b) - square_avg(
                    *old(hm),
                    a - half,
                    b,
                    a + half,
                    b,
                    a,
                    v_center(b, step as int, width as int),
                ) <= scale by {
                    let wz = v_writer(b, step as int, width as int);
                    if !(a - half < x || (a - half == x && 0 <= wz && wz < z)) {
                        crate::num::lemma_mod_unshift(a, step as int, half as int);
                        assert(a == x + half);
                        if b + step < width {
                            crate::num::lemma_multiple_window(z as int, b, step as int);
                            assert(b == z);
                        } else {
                            crate::num::lemma_mod_sub_self(b, step as int);
                            crate::num::lemma_multiple_window(z as int, b - step, step as int);
                            assert(b == z + step);
                        }
                    }
                }
            }
            z = z + step;
        }
        x = x + step;
        proof {
            lemma_mod_add_self(x as int - step, step as int);
            assert forall|a: int, b: int|
                #![trigger hm.hspec(a, b)]
                0 <= a < width && a % (step as int) == 0 && half_pt(b, step as int) && b + half
                    < width && 0 <= v_writer(a, step as int, width as int) && v_writer(
                    a,
                    step as int,
                    width as int,
                ) < x implies -scale <= hm.hspec(a, b) - square_avg(
                *old(hm),
                a,
                b - half,
                a,
                b + half,
                v_center(a, step as int, width as int),
                b,
            ) <= scale by {
                let wx = v_writer(a, step as int, width as int);
                if !(wx < x - step) {
                    if !(a + step < width) {
                        crate::num::lemma_mod_sub_self(a, step as int);
                    }
                    crate::num::lemma_multiple_window(x as int - step, wx, step as int);
                }
            }
            assert forall|a: int, b: int|
                #![trigger hm.hspec(a, b)]
                half_pt(a, step as int) && a + half < width && 0 <= b < width && b % (
                step as int) == 0 && a - half < x implies -scale <= hm.hspec(a, b) - square_avg(
                *old(hm),
                a - half,
                b,
                a + half,
                b,
                a,
                v_center(b, step as int, width as int),
            ) <= scale by {
                if !(a - half < x - step) {
                    crate::num::lemma_mod_unshift(a, step as int, half as int);
                    crate::num::lemma_multiple_window(x as int - step, a - half, step as int);
                    if !(b + step < width) {
                        if b < step {
                            vstd::arithmetic::div_mod::lemma_small_mod(b as nat, step as nat);
                        }
                        crate::num::lemma_mod_sub_self(b, step as int);
                    }
                }
            }
        }
    }
    proof {
        assert forall|a: int|
            #![trigger v_writer(a, step as int, width as int)]
            0 <= a < width && a % (step as int) == 0 implies 0 <= v_writer(
            a,
            step as int,
            width as int,
        ) && v_writer(a, step as int, width as int) < x by {
            if !(a + step < width) {
                if 0 < a < step {
                    vstd::arithmetic::div_mod::lemma_small_mod(a as nat, step as nat);
                }
            }
        }
    }
}

/// The roughness scale of round `r`: one unit, grown by the factor
/// 8/5 (floored, in fixed point) after each completed round.
pub open spec fn round_scale(r: nat) -> int
    decreases r,
{
    if r == 0 {
        ONE as int
    } else {
        round_scale((r - 1) as nat) * 8 / 5
    }
}

/// The height envelope after `r` displacement rounds: one unit for the
/// corner seeds, widened by two scales for each completed round (the
/// diamond write adds one scale over the corners, and the square write
/// one more over the centre).
pub open spec fn height_envelope(r: nat) -> int
    decreases r,
{
    if r == 0 {
        ONE as int
    } else {
        height_envelope((r - 1) as nat) + 2 * round_scale((r - 1) as nat)
    }
}

/// How many displacement rounds a starting step size yields: halvings
/// until the step reaches 2.
pub open spec fn rounds_for(step: int) -> nat
    decreases step,
{
    if step <= 2 {
        0
    } else {
        (1 + rounds_for(step / 2)) as nat
    }
}

/// Run the displacement rounds over a fresh grid: seed the four corner
/// cells from the source, then alternate diamond and square steps,
/// halving the step and growing the scale by the factor 8/5 each round
/// while the step exceeds 2.
///
/// The corner cells still hold their seed draws afterwards, so they lie
/// in `[-ONE, ONE)`; every cell is bounded by `RAW_HEIGHT_LIMIT`.
pub fn generate_raw(width: usize, src: &mut RandomSource) -> (hm: HeightMap)
    requires
        valid_width(width as int),
    ensures
        hm.wf(),
        hm.width == width,
        forall|x: int, z: int|
            hm.in_range(x, z) ==> -RAW_HEIGHT_LIMIT <= hm.hspec(x, z) <= RAW_HEIGHT_LIMIT,
        forall|x: int, z: int|
            hm.in_range(x, z) ==> -height_envelope(rounds_for(width as int - 1)) <= hm.hspec(
                x,
                z,
            ) <= height_envelope(rounds_for(width as int - 1)),
        -ONE <= hm.hspec(0, 0) < ONE,
        -ONE <= hm.hspec(width as int - 1, 0) < ONE,
        -ONE <= hm.hspec(0, width as int - 1) < ONE,
        -ONE <= hm.hspec(width as int - 1, width as int - 1) < ONE,
{
    let mut hm = HeightMap::new_zero(width);
    let c0 = src.next_unit();
    hm.set(0, 0, c0);
    let c1 = src.next_unit();
    hm.set(width - 1, 0, c1);
    let c2 = src.next_unit();
    hm.set(0, width - 1, c2);
    let c3 = src.next_unit();
    hm.set(width - 1, width - 1, c3);
    let mut step: usize = width - 1;
    let mut scale: i64 = ONE;
    let ghost mut bnd: int = ONE as int;
    let ghost mut rnd: nat = 0;
    proof {
        lemma_mod_add_self(0, step as int);
        assert forall|a: int, b: int|
            hm.in_range(a, b) && on_lattice(a, b, step as int) implies -bnd <= hm.hspec(a, b)
            <= bnd by {
            lemma_mod_zero_in_first_period(a, step as int);
            lemma_mod_zero_in_first_period(b, step as int);
        }
        assert forall|a: int, b: int|
            hm.in_range(a, b) && !on_lattice(a, b, step as int) implies hm.hspec(a, b) == 0i64 by {
            assert(!is_corner(width as int, a, b));
        }
    }
    while step > 2
        invariant
            hm.wf(),
            hm.width == width,
            3 <= width <= 4097,
            2 <= step <= width - 1,
            is_pow2(step as int),
            1 <= scale,
            0 <= bnd,
            bnd + scale * (step as int - 2) <= RAW_HEIGHT_LIMIT as int,
            scale as int == round_scale(rnd),
            bnd == height_envelope(rnd),
            rounds_for(step as int) + rnd == rounds_for(width as int - 1),
            forall|a: int, b: int|
                hm.in_range(a, b) && on_lattice(a, b, step as int) ==> -bnd <= hm.hspec(a, b)
                    <= bnd,
            forall|a: int, b: int|
                hm.in_range(a, b) && !on_lattice(a, b, step as int) ==> hm.hspec(a, b) == 0i64,
            hm.hspec(0, 0) == c0,
            hm.hspec(width as int - 1, 0) == c1,
            hm.hspec(0, width as int - 1) == c2,
            hm.hspec(width as int - 1, width as int - 1) == c3,
            -ONE <= c0 < ONE,
            -ONE <= c1 < ONE,
            -ONE <= c2 < ONE,
            -ONE <= c3 < ONE,
        decreases step,
    {
        let ghost pre_round = hm;
        proof {
            assert(step % 2 == 0 && is_pow2(step as int / 2));
            assert(2 * scale <= scale * (step as int - 2)) by (nonlinear_arith)
                requires
                    step >= 4,
                    scale >= 1,
            ;
        }
        diamond_pass(&mut hm, src, step, scale, Ghost(bnd));
        proof {
            assert(step as int / 2 >= 2);
            assert forall|a: int, b: int|
                hm.in_range(a, b) && on_lattice(a, b, step as int) implies -bnd <= hm.hspec(a, b)
                <= bnd by {
                assert(!on_center(a, b, step as int));
            }
            assert forall|a: int, b: int|
                hm.in_range(a, b) && !on_lattice(a, b, step as int) && !on_center(
                    a,
                    b,
                    step as int,
                ) implies hm.hspec(a, b) == 0i64 by {
                assert(pre_round.hspec(a, b) == 0i64);
            }
        }
        square_pass(&mut hm, src, step, scale, Ghost(bnd));
        let half = step / 2;
        proof {
            let s = step as int;
            let h = half as int;
            assert(s == 2 * h);
            assert forall|a: int, b: int|
                hm.in_range(a, b) && on_lattice(a, b, h) implies -(bnd + 2 * scale) <= hm.hspec(
                    a,
                    b,
                ) <= bnd + 2 * scale by {
                lemma_mod_split(a, h);
                lemma_mod_split(b, h);
                if a % s == 0 && b % s == 0 {
                    assert(!on_edge(a, b, s));
                    assert(!on_center(a, b, s));
                } else if a % s == h && b % s == h {
                    assert(!on_edge(a, b, s));
                    assert(on_center(a, b, s));
                } else {
                    assert(on_edge(a, b, s));
                }
            }
            assert forall|a: int, b: int|
                hm.in_range(a, b) && !on_lattice(a, b, h) implies hm.hspec(a, b) == 0i64 by {
                lemma_mod_split(a, h);
                lemma_mod_split(b, h);
                assert(!on_edge(a, b, s));
                assert(!on_center(a, b, s));
                assert(!on_lattice(a, b, s));
                assert(pre_round.hspec(a, b) == 0i64);
            }
            assert(is_corner(width as int, 0, 0));
            assert(is_corner(width as int, width as int - 1, 0));
            assert(is_corner(width as int, 0, width as int - 1));
            assert(is_corner(width as int, width as int - 1, width as int - 1));
        }
        let new_scale = scale * 8 / 5;
        proof {
            lemma_div_bounds(8 * scale, 5, scale as int, 2 * scale);
            assert(bnd + 2 * scale + new_scale * (half as int - 2) <= RAW_HEIGHT_LIMIT as int)
                by (nonlinear_arith)
                requires
                    bnd + scale * (step as int - 2) <= RAW_HEIGHT_LIMIT as int,
                    step as int == 2 * (half as int),
                    half as int >= 2,
                    scale as int <= new_scale as int,
                    new_scale as int <= 2 * scale,
                    scale >= 1,
                    bnd >= 0,
            ;
            bnd = bnd + 2 * scale;
            assert(new_scale as int == round_scale(rnd) * 8 / 5);
            assert(rounds_for(step as int) == 1 + rounds_for(half as int));
            rnd = rnd + 1;
        }
        scale = new_scale;
        step = half;
    }
    proof {
        assert(step == 2 && rnd == rounds_for(width as int - 1));
        assert(bnd == height_envelope(rounds_for(width as int - 1)));
        assert forall|x: int, z: int|
            hm.in_range(x, z) implies -RAW_HEIGHT_LIMIT <= hm.hspec(x, z) <= RAW_HEIGHT_LIMIT
                && -height_envelope(rounds_for(width as int - 1)) <= hm.hspec(x, z)
                <= height_envelope(rounds_for(width as int - 1)) by {
            if on_lattice(x, z, step as int) {
                assert(bnd <= RAW_HEIGHT_LIMIT as int);
            }
        }
    }
    hm
}

/// What `generate_raw` guarantees of its result, as a predicate: a
/// well-formed grid of the requested width, bounded heights, and
/// corner cells still holding unit seed draws.
pub open spec fn raw_generated(raw: HeightMap, width: int) -> bool {
    &&& raw.wf()
    &&& raw.width == width
    &&& forall|x: int, z: int|
        raw.in_range(x, z) ==> -RAW_HEIGHT_LIMIT <= raw.hspec(x, z) <= RAW_HEIGHT_LIMIT
    &&& forall|x: int, z: int|
        raw.in_range(x, z) ==> -height_envelope(rounds_for(width - 1)) <= raw.hspec(x, z)
            <= height_envelope(rounds_for(width - 1))
    &&& -ONE <= raw.hspec(0, 0) < ONE
    &&& -ONE <= raw.hspec(width - 1, 0) < ONE
    &&& -ONE <= raw.hspec(0, width - 1) < ONE
    &&& -ONE <= raw.hspec(width - 1, width - 1) < ONE
}

/// `sm` is the smoothing of `raw`: cell by cell the floor of the mean
/// of the source cell and its existing neighbours.
pub open spec fn smooth_of(raw: HeightMap, sm: HeightMap) -> bool {
    &&& sm.wf()
    &&& sm.width == raw.width
    &&& forall|x: int, z: int|
        raw.in_range(x, z) ==> sm.hspec(x, z) as int == raw.smooth_spec(x, z)
}

/// Generate a finished height map: displacement rounds over a fresh
/// grid seeded from `src`, then one smoothing pass. The result is the
/// smoothing of some grid that `generate_raw` could have produced, and
/// every height is bounded by `RAW_HEIGHT_LIMIT`.
pub fn generate(width: usize, src: &mut RandomSource) -> (hm: HeightMap)
    requires
        valid_width(width as int),
    ensures
        hm.wf(),
        hm.width == width,
        forall|x: int, z: int|
            hm.in_range(x, z) ==> -RAW_HEIGHT_LIMIT <= hm.hspec(x, z) <= RAW_HEIGHT_LIMIT,
        forall|x: int, z: int|
            hm.in_range(x, z) ==> -height_envelope(rounds_for(width as int - 1)) <= hm.hspec(
                x,
                z,
            ) <= height_envelope(rounds_for(width as int - 1)),
        exists|raw: HeightMap|
            #[trigger] raw_generated(raw, width as int) && smooth_of(raw, hm),
{
    let raw = generate_raw(width, src);
    let hm = raw.smoothed();
    proof {
        assert(raw_generated(raw, width as int));
        assert(smooth_of(raw, hm));
        let env = height_envelope(rounds_for(width as int - 1));
        assert forall|x: int, z: int|
            hm.in_range(x, z) implies -RAW_HEIGHT_LIMIT <= hm.hspec(x, z) <= RAW_HEIGHT_LIMIT
                && -env <= hm.hspec(x, z) <= env by {
            assert(raw.in_range(x, z));
            raw.lemma_nbhd_within(x, z, -env, env);
        }
    }
    hm
}

} // verus!
