//! Small arithmetic helpers shared by the generator and the simulator:
//! floor division on signed fixed-point values and sums over depth grids.

use vstd::prelude::*;
use vstd::arithmetic::div_mod::{
    lemma_div_is_ordered, lemma_div_multiples_vanish, lemma_fundamental_div_mod,
    lemma_fundamental_div_mod_converse, lemma_hoist_over_denominator,
};

verus! {

/// Whether `n` is a power of two: repeated halving reaches 1 without
/// ever passing through an odd number above 1.
pub open spec fn is_pow2(n: int) -> bool
    decreases n,
{
    if n <= 0 {
        false
    } else if n == 1 {
        true
    } else {
        n % 2 == 0 && is_pow2(n / 2)
    }
}

/// Division keeps an interval: if `d*lo <= a <= d*hi` then `lo <= a/d <= hi`.
pub proof fn lemma_div_bounds(a: int, d: int, lo: int, hi: int)
    requires
        0 < d,
        d * lo <= a,
        a <= d * hi,
    ensures
        lo <= a / d,
        a / d <= hi,
{
    lemma_div_is_ordered(d * lo, a, d);
    lemma_div_is_ordered(a, d * hi, d);
    lemma_div_multiples_vanish(lo, d);
    lemma_div_multiples_vanish(hi, d);
}

/// A multiple of `m` that lies in `[0, m]` is `0` or `m` itself.
pub proof fn lemma_mod_zero_in_first_period(a: int, m: int)
    requires
        1 <= m,
        0 <= a <= m,
        a % m == 0,
    ensures
        a == 0 || a == m,
{
    if a < m {
        lemma_fundamental_div_mod_converse(a, m, 0, a);
    }
}

/// Adding an offset below the modulus to a multiple lands on the offset.
pub proof fn lemma_mod_shift(x: int, s: int, h: int)
    requires
        1 <= s,
        0 <= h < s,
        x % s == 0,
        0 <= x,
    ensures
        (x + h) % s == h,
{
    lemma_fundamental_div_mod(x, s);
    let q = x / s;
    assert(x + h == q * s + h) by (nonlinear_arith)
        requires
            x == s * q,
    ;
    lemma_fundamental_div_mod_converse(x + h, s, q, h);
}

/// Subtracting the offset from a cell at that offset lands on the
/// lattice.
pub proof fn lemma_mod_unshift(a: int, s: int, h: int)
    requires
        1 <= s,
        0 <= h < s,
        0 <= a,
        a % s == h,
    ensures
        h <= a,
        (a - h) % s == 0,
{
    lemma_fundamental_div_mod(a, s);
    let q = a / s;
    assert(0 <= q) by (nonlinear_arith)
        requires
            a == s * q + h,
            0 <= a,
            0 <= h < s,
            1 <= s,
    ;
    assert(a - h == q * s + 0) by (nonlinear_arith)
        requires
            a == s * q + h,
    ;
    lemma_fundamental_div_mod_converse(a - h, s, q, 0);
}

/// A positive multiple of `h` minus `h` is again a multiple of `h`.
pub proof fn lemma_mod_sub_self(x: int, h: int)
    requires
        1 <= h,
        h <= x,
        x % h == 0,
    ensures
        (x - h) % h == 0,
{
    lemma_fundamental_div_mod(x, h);
    let q = x / h;
    assert(x - h == (q - 1) * h + 0) by (nonlinear_arith)
        requires
            x == h * q,
    ;
    lemma_fundamental_div_mod_converse(x - h, h, q - 1, 0);
}

/// Two multiples of `s` less than `s` apart are the same multiple.
pub proof fn lemma_multiple_window(m1: int, m2: int, s: int)
    requires
        1 <= s,
        0 <= m1,
        0 <= m2,
        m1 % s == 0,
        m2 % s == 0,
        m1 <= m2 < m1 + s,
    ensures
        m1 == m2,
{
    lemma_fundamental_div_mod(m1, s);
    lemma_fundamental_div_mod(m2, s);
    let q1 = m1 / s;
    let q2 = m2 / s;
    assert(q1 == q2) by (nonlinear_arith)
        requires
            m1 == s * q1,
            m2 == s * q2,
            m1 <= m2 < m1 + s,
            1 <= s,
    ;
}

/// Residues mod `h` against residues mod `2*h`: a cell sits on the
/// `h`-lattice exactly when its residue mod `2*h` is `0` or `h`.
pub proof fn lemma_mod_split(x: int, h: int)
    requires
        1 <= h,
        0 <= x,
    ensures
        (x % h == 0) == (x % (2 * h) == 0 || x % (2 * h) == h),
{
    lemma_fundamental_div_mod(x, 2 * h);
    let q2 = x / (2 * h);
    let r2 = x % (2 * h);
    assert(0 <= r2 < 2 * h) by {
        vstd::arithmetic::div_mod::lemma_mod_bound(x, 2 * h);
    }
    if r2 == 0 {
        assert(x == (2 * q2) * h) by (nonlinear_arith)
            requires
                x == (2 * h) * q2 + 0,
        ;
        lemma_fundamental_div_mod_converse(x, h, 2 * q2, 0);
    } else if r2 == h {
        assert(x == (2 * q2 + 1) * h) by (nonlinear_arith)
            requires
                x == (2 * h) * q2 + h,
        ;
        lemma_fundamental_div_mod_converse(x, h, 2 * q2 + 1, 0);
    } else {
        if r2 < h {
            assert(x == (2 * q2) * h + r2) by (nonlinear_arith)
                requires
                    x == (2 * h) * q2 + r2,
            ;
            lemma_fundamental_div_mod_converse(x, h, 2 * q2, r2);
        } else {
            assert(x == (2 * q2 + 1) * h + (r2 - h)) by (nonlinear_arith)
                requires
                    x == (2 * h) * q2 + r2,
            ;
            lemma_fundamental_div_mod_converse(x, h, 2 * q2 + 1, r2 - h);
        }
    }
}

/// A multiple of `h` plus `h` is again a multiple of `h`.
pub proof fn lemma_mod_add_self(x: int, h: int)
    requires
        1 <= h,
        0 <= x,
        x % h == 0,
    ensures
        (x + h) % h == 0,
{
    lemma_fundamental_div_mod(x, h);
    let q = x / h;
    assert(x + h == (q + 1) * h) by (nonlinear_arith)
        requires
            x == h * q,
    ;
    lemma_fundamental_div_mod_converse(x + h, h, q + 1, 0);
}

/// Magnitude bound under which `div_floor` accepts its dividend.
pub const DIV_FLOOR_BOUND: i64 = 562_949_953_421_312;

/// Floor division of a possibly negative value by a small positive
/// divisor, matching the mathematical `/` of specifications.
///
/// Rust's `/` truncates toward zero; shifting the dividend into the
/// non-negative range first makes the executable quotient agree with the
/// Euclidean quotient of the contract.
pub fn div_floor(a: i64, d: i64) -> (r: i64)
    requires
        1 <= d <= 16,
        -DIV_FLOOR_BOUND <= a <= DIV_FLOOR_BOUND,
    ensures
        r == a as int / d as int,
{
    let off: i64 = DIV_FLOOR_BOUND;
    proof {
        lemma_hoist_over_denominator(a as int, off as int, d as nat);
    }
    ((a + off * d) / d) - off
}

/// Stepping left inside a row: if `x` is not at a row start, `x - 1`
/// sits one place earlier in the same row.
pub proof fn lemma_mod_dec(x: int, m: int)
    requires
        1 <= m,
        1 <= x,
        x % m != 0,
    ensures
        (x - 1) % m == x % m - 1,
{
    lemma_fundamental_div_mod(x, m);
    let q = x / m;
    let r = x % m;
    assert(0 <= r < m) by {
        vstd::arithmetic::div_mod::lemma_mod_bound(x, m);
    }
    assert(x - 1 == q * m + (r - 1)) by (nonlinear_arith)
        requires
            x == m * q + r,
    ;
    lemma_fundamental_div_mod_converse(x - 1, m, q, r - 1);
}

/// Stepping right inside a row: if `x` is not at a row end, `x + 1`
/// sits one place later in the same row.
pub proof fn lemma_mod_inc(x: int, m: int)
    requires
        1 <= m,
        0 <= x,
        x % m != m - 1,
    ensures
        (x + 1) % m == x % m + 1,
{
    lemma_fundamental_div_mod(x, m);
    let q = x / m;
    let r = x % m;
    assert(0 <= r < m) by {
        vstd::arithmetic::div_mod::lemma_mod_bound(x, m);
    }
    assert(x + 1 == q * m + (r + 1)) by (nonlinear_arith)
        requires
            x == m * q + r,
    ;
    lemma_fundamental_div_mod_converse(x + 1, m, q, r + 1);
}

/// Stepping left across a row boundary: just before a row start sits
/// the previous row's end.
pub proof fn lemma_mod_dec_wrap(x: int, m: int)
    requires
        1 <= m,
        1 <= x,
        x % m == 0,
    ensures
        (x - 1) % m == m - 1,
{
    lemma_fundamental_div_mod(x, m);
    let q = x / m;
    assert(x - 1 == (q - 1) * m + (m - 1)) by (nonlinear_arith)
        requires
            x == m * q + 0,
    ;
    lemma_fundamental_div_mod_converse(x - 1, m, q - 1, m - 1);
}

/// Stepping right across a row boundary: just after a row end sits the
/// next row's start.
pub proof fn lemma_mod_inc_wrap(x: int, m: int)
    requires
        1 <= m,
        0 <= x,
        x % m == m - 1,
    ensures
        (x + 1) % m == 0,
{
    lemma_fundamental_div_mod(x, m);
    let q = x / m;
    assert(x + 1 == (q + 1) * m + 0) by (nonlinear_arith)
        requires
            x == m * q + (m - 1),
    ;
    lemma_fundamental_div_mod_converse(x + 1, m, q + 1, 0);
}

/// Sum of a sequence of fixed-point values, as a mathematical integer.
pub open spec fn sum_seq(s: Seq<i64>) -> int
    decreases s.len(),
{
    if s.len() == 0 {
        0
    } else {
        s[0] + sum_seq(s.drop_first())
    }
}

/// Extending a prefix sum by one element.
pub proof fn lemma_sum_take_step(s: Seq<i64>, i: int)
    requires
        0 <= i < s.len(),
    ensures
        sum_seq(s.take(i + 1)) == sum_seq(s.take(i)) + s[i],
    decreases i,
{
    if i == 0 {
        assert(s.take(1).drop_first() =~= s.take(0));
    } else {
        lemma_sum_take_step(s.drop_first(), i - 1);
        assert(s.take(i + 1).drop_first() =~= s.drop_first().take(i));
        assert(s.take(i).drop_first() =~= s.drop_first().take(i - 1));
        assert(s.drop_first()[i - 1] == s[i]);
    }
}

/// Updating one entry moves the sum by exactly the difference.
pub proof fn lemma_sum_update(s: Seq<i64>, i: int, v: i64)
    requires
        0 <= i < s.len(),
    ensures
        sum_seq(s.update(i, v)) == sum_seq(s) - s[i] + v,
    decreases s.len(),
{
    if i == 0 {
        assert(s.update(0, v).drop_first() =~= s.drop_first());
    } else {
        lemma_sum_update(s.drop_first(), i - 1, v);
        assert(s.update(i, v).drop_first() =~= s.drop_first().update(i - 1, v));
        assert(s.update(i, v)[0] == s[0]);
    }
}

} // verus!
