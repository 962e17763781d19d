//! Exact-arithmetic primitives shared by the metrics: partial sums over
//! sequences, the inequalities that keep variances non-negative, floor
//! division, and the integer (floor) square root.

use vstd::prelude::*;
use vstd::arithmetic::div_mod::lemma_fundamental_div_mod_converse;

verus! {

/// Absolute value of an integer.
pub open spec fn abs_i(v: int) -> int {
    if v < 0 {
        -v
    } else {
        v
    }
}

/// `v` clamped into `[lo, hi]`.
pub open spec fn clamp_i(v: int, lo: int, hi: int) -> int {
    if v < lo {
        lo
    } else if v > hi {
        hi
    } else {
        v
    }
}

/// The index nearest `v` inside `0 .. len` (border replication).
pub open spec fn clamp_idx(v: int, len: int) -> int {
    if v < 0 {
        0
    } else if v >= len {
        len - 1
    } else {
        v
    }
}

/// Sum of the first `n` entries.
pub open spec fn sum(s: Seq<int>, n: nat) -> int
    decreases n,
{
    if n == 0 {
        0
    } else {
        sum(s, (n - 1) as nat) + s[n - 1]
    }
}

/// Sum of the first `n` absolute values.
pub open spec fn sum_abs(s: Seq<int>, n: nat) -> int
    decreases n,
{
    if n == 0 {
        0
    } else {
        sum_abs(s, (n - 1) as nat) + abs_i(s[n - 1])
    }
}

/// Sum of the first `n` squares.
pub open spec fn sum_sq(s: Seq<int>, n: nat) -> int
    decreases n,
{
    if n == 0 {
        0
    } else {
        sum_sq(s, (n - 1) as nat) + s[n - 1] * s[n - 1]
    }
}

/// Sum of the squares of the negative entries among the first `n`.
pub open spec fn sum_sq_neg(s: Seq<int>, n: nat) -> int
    decreases n,
{
    if n == 0 {
        0
    } else {
        sum_sq_neg(s, (n - 1) as nat) + if s[n - 1] < 0 {
            s[n - 1] * s[n - 1]
        } else {
            0
        }
    }
}

/// How many of the first `n` entries are negative.
pub open spec fn cnt_neg(s: Seq<int>, n: nat) -> int
    decreases n,
{
    if n == 0 {
        0
    } else {
        cnt_neg(s, (n - 1) as nat) + if s[n - 1] < 0 {
            1int
        } else {
            0int
        }
    }
}

/// Weighted sum of the first `n` entries.
pub open spec fn wsum(w: Seq<int>, s: Seq<int>, n: nat) -> int
    decreases n,
{
    if n == 0 {
        0
    } else {
        wsum(w, s, (n - 1) as nat) + w[n - 1] * s[n - 1]
    }
}

/// Weighted sum of the first `n` pairwise products.
pub open spec fn wsum2(w: Seq<int>, x: Seq<int>, y: Seq<int>, n: nat) -> int
    decreases n,
{
    if n == 0 {
        0
    } else {
        wsum2(w, x, y, (n - 1) as nat) + w[n - 1] * x[n - 1] * y[n - 1]
    }
}

/// Weighted Cauchy-Schwarz: with non-negative weights, the square of a
/// weighted sum is at most the weight total times the weighted sum of
/// squares.  This is what makes every windowed variance non-negative.
pub proof fn lemma_cs_weighted(w: Seq<int>, x: Seq<int>, n: nat)
    requires
        forall|i: int| 0 <= i < n ==> #[trigger] w[i] >= 0,
    ensures
        sum(w, n) >= 0,
        wsum2(w, x, x, n) >= 0,
        wsum(w, x, n) * wsum(w, x, n) <= sum(w, n) * wsum2(w, x, x, n),
    decreases n,
{
    if n > 0 {
        lemma_cs_weighted(w, x, (n - 1) as nat);
        let m = (n - 1) as nat;
        let ww = sum(w, m);
        let s = wsum(w, x, m);
        let q = wsum2(w, x, x, m);
        let a = w[n - 1];
        let v = x[n - 1];
        assert(a * v * v >= 0) by (nonlinear_arith)
            requires
                a >= 0,
        ;
        // a * (ww*v*v - 2*s*v + q) >= 0, via ww*(..) == (ww*v - s)^2 + (ww*q - s*s)
        assert(a * (ww * v * v - 2 * s * v + q) >= 0) by (nonlinear_arith)
            requires
                a >= 0,
                ww >= 0,
                q >= 0,
                s * s <= ww * q,
        ;
        // The step difference splits into two non-negative parts.
        let t = a * v;
        assert(a * (ww * v * v - 2 * s * v + q) == ww * t * v - 2 * s * t + a * q)
            by (nonlinear_arith)
            requires
                t == a * v,
        ;
        assert((ww + a) * (q + a * v * v) == ww * q + ww * t * v + a * q + t * t)
            by (nonlinear_arith)
            requires
                t == a * v,
        ;
        assert((s + t) * (s + t) == s * s + 2 * s * t + t * t) by (nonlinear_arith);
        assert((s + a * v) * (s + a * v) <= (ww + a) * (q + a * v * v));
    }
}

/// Cauchy-Schwarz over absolute values: `(sum |s|)^2 <= n * (sum s^2)`.
pub proof fn lemma_cs_abs(s: Seq<int>, n: nat)
    ensures
        sum_abs(s, n) >= 0,
        sum_sq(s, n) >= 0,
        sum_abs(s, n) * sum_abs(s, n) <= n * sum_sq(s, n),
    decreases n,
{
    if n > 0 {
        lemma_cs_abs(s, (n - 1) as nat);
        let m = (n - 1) as nat;
        let a = sum_abs(s, m);
        let q = sum_sq(s, m);
        let v = abs_i(s[n - 1]);
        assert(s[n - 1] * s[n - 1] == v * v) by (nonlinear_arith)
            requires
                v == abs_i(s[n - 1]),
        ;
        let mm = m as int;
        if mm > 0 {
            assert(mm * (mm * v * v - 2 * a * v + q) >= 0) by (nonlinear_arith)
                requires
                    mm >= 0,
                    q >= 0,
                    a * a <= mm * q,
            ;
            assert(mm * v * v - 2 * a * v + q >= 0) by (nonlinear_arith)
                requires
                    mm > 0,
                    mm * (mm * v * v - 2 * a * v + q) >= 0,
            ;
        } else {
            assert(a * a <= 0) by (nonlinear_arith)
                requires
                    a * a <= mm * q,
                    mm == 0,
            ;
            assert(a == 0) by (nonlinear_arith)
                requires
                    a * a <= 0,
            ;
            assert(mm * v * v - 2 * a * v + q >= 0) by (nonlinear_arith)
                requires
                    mm == 0,
                    a == 0,
                    q >= 0,
            ;
        }
        // The step difference splits into two non-negative parts.
        assert((mm + 1) * (q + v * v) == mm * q + mm * v * v + q + v * v) by (nonlinear_arith);
        assert((a + v) * (a + v) == a * a + 2 * a * v + v * v) by (nonlinear_arith);
        assert((a + v) * (a + v) <= (mm + 1) * (q + v * v));
    }
}

/// Plain Cauchy-Schwarz: `(sum s)^2 <= n * (sum s^2)`, via the absolute
/// values.  Makes the variance of a quality map non-negative.
pub proof fn lemma_cs_plain(s: Seq<int>, n: nat)
    ensures
        sum(s, n) * sum(s, n) <= n * sum_sq(s, n),
        sum_sq(s, n) >= 0,
    decreases n,
{
    lemma_cs_abs(s, n);
    lemma_sum_le_abs(s, n);
    let t = sum(s, n);
    let a = sum_abs(s, n);
    assert(t * t <= a * a) by (nonlinear_arith)
        requires
            -a <= t <= a,
            a >= 0,
    ;
}

/// A sum is bounded by the sum of absolute values, on both sides.
pub proof fn lemma_sum_le_abs(s: Seq<int>, n: nat)
    ensures
        -sum_abs(s, n) <= sum(s, n) <= sum_abs(s, n),
        sum_abs(s, n) >= 0,
    decreases n,
{
    if n > 0 {
        lemma_sum_le_abs(s, (n - 1) as nat);
    }
}

/// Entry-wise bounds carry over to the sum.
pub proof fn lemma_sum_bounds(s: Seq<int>, n: nat, lo: int, hi: int)
    requires
        forall|i: int| 0 <= i < n ==> lo <= #[trigger] s[i] <= hi,
    ensures
        n * lo <= sum(s, n) <= n * hi,
    decreases n,
{
    if n > 0 {
        lemma_sum_bounds(s, (n - 1) as nat, lo, hi);
        let m = (n - 1) as nat;
        assert(lo <= s[n - 1] <= hi);
        assert(sum(s, n) == sum(s, m) + s[n - 1]);
        assert(n * lo == m * lo + lo && n * hi == m * hi + hi) by (nonlinear_arith)
            requires
                n == m + 1,
        ;
        assert(n * lo <= sum(s, n) <= n * hi);
    } else {
        assert(sum(s, n) == 0);
        assert(n * lo == 0 && n * hi == 0) by (nonlinear_arith)
            requires
                n == 0,
        ;
    }
}

/// An entry-wise magnitude bound carries over to all the statistics sums.
pub proof fn lemma_stats_bounds(s: Seq<int>, n: nat, b: int)
    requires
        b >= 0,
        forall|i: int| 0 <= i < n ==> abs_i(#[trigger] s[i]) <= b,
    ensures
        0 <= sum_abs(s, n) <= n * b,
        0 <= sum_sq(s, n) <= n * b * b,
        0 <= sum_sq_neg(s, n) <= sum_sq(s, n),
        0 <= cnt_neg(s, n) <= n,
        -(n * b) <= sum(s, n) <= n * b,
        sum_sq_neg(s, n) <= cnt_neg(s, n) * b * b,
        sum_sq(s, n) - sum_sq_neg(s, n) <= (n - cnt_neg(s, n)) * b * b,
    decreases n,
{
    if n > 0 {
        lemma_stats_bounds(s, (n - 1) as nat, b);
        let m = (n - 1) as nat;
        let v = s[n - 1];
        assert(abs_i(s[n - 1]) <= b);
        assert(v * v <= b * b && v * v >= 0) by (nonlinear_arith)
            requires
                abs_i(v) <= b,
                b >= 0,
        ;
        assert(n * b == m * b + b) by (nonlinear_arith)
            requires
                n == m + 1,
        ;
        assert(n * b * b == m * b * b + b * b) by (nonlinear_arith)
            requires
                n == m + 1,
        ;
        assert((cnt_neg(s, m) + 1) * b * b == cnt_neg(s, m) * b * b + b * b) by (nonlinear_arith);
        assert((m - cnt_neg(s, m)) * b * b + b * b == (n - cnt_neg(s, m)) * b * b)
            by (nonlinear_arith)
            requires
                n == m + 1,
        ;
    }
}

/// Sums of a constant prefix.
pub proof fn lemma_sum_const(s: Seq<int>, n: nat, v: int)
    requires
        forall|i: int| 0 <= i < n ==> #[trigger] s[i] == v,
    ensures
        sum(s, n) == n * v,
        sum_sq(s, n) == n * (v * v),
    decreases n,
{
    if n > 0 {
        lemma_sum_const(s, (n - 1) as nat, v);
        let m = (n - 1) as nat;
        assert(s[n - 1] == v);
        assert(n * v == m * v + v && n * (v * v) == m * (v * v) + v * v) by (nonlinear_arith)
            requires
                n == m + 1,
        ;
    } else {
        assert(n * v == 0 && n * (v * v) == 0) by (nonlinear_arith)
            requires
                n == 0,
        ;
    }
}

/// Weighted-sum bounds from entry-wise bounds and non-negative weights.
pub proof fn lemma_wsum_bounds(w: Seq<int>, s: Seq<int>, n: nat, lo: int, hi: int)
    requires
        forall|i: int| 0 <= i < n ==> #[trigger] w[i] >= 0,
        forall|i: int| 0 <= i < n ==> lo <= #[trigger] s[i] <= hi,
    ensures
        sum(w, n) >= 0,
        sum(w, n) * lo <= wsum(w, s, n) <= sum(w, n) * hi,
    decreases n,
{
    if n > 0 {
        lemma_wsum_bounds(w, s, (n - 1) as nat, lo, hi);
        let m = (n - 1) as nat;
        let a = w[n - 1];
        let v = s[n - 1];
        assert(w[n - 1] >= 0 && lo <= s[n - 1] <= hi);
        assert(a * lo <= a * v <= a * hi) by (nonlinear_arith)
            requires
                a >= 0,
                lo <= v <= hi,
        ;
        assert((sum(w, m) + a) * lo == sum(w, m) * lo + a * lo && (sum(w, m) + a) * hi == sum(
            w,
            m,
        ) * hi + a * hi) by (nonlinear_arith);
    }
}

/// A weighted sum is bounded by the absolute weight total times the largest
/// entry magnitude.
pub proof fn lemma_wsum_abs_bound(w: Seq<int>, s: Seq<int>, n: nat, b: int)
    requires
        b >= 0,
        forall|i: int| 0 <= i < n ==> abs_i(#[trigger] s[i]) <= b,
    ensures
        sum_abs(w, n) >= 0,
        -(sum_abs(w, n) * b) <= wsum(w, s, n) <= sum_abs(w, n) * b,
    decreases n,
{
    if n > 0 {
        lemma_wsum_abs_bound(w, s, (n - 1) as nat, b);
        let m = (n - 1) as nat;
        assert(abs_i(s[n - 1]) <= b);
        assert(-(abs_i(w[n - 1]) * b) <= w[n - 1] * s[n - 1] <= abs_i(w[n - 1]) * b)
            by (nonlinear_arith)
            requires
                abs_i(s[n - 1]) <= b,
                b >= 0,
        ;
        assert((sum_abs(w, m) + abs_i(w[n - 1])) * b == sum_abs(w, m) * b + abs_i(w[n - 1]) * b)
            by (nonlinear_arith);
    }
}

/// Weighted product-sum bound from entry-wise magnitude bounds.
pub proof fn lemma_wsum2_bounds(w: Seq<int>, x: Seq<int>, y: Seq<int>, n: nat, bx: int, by: int)
    requires
        bx >= 0,
        by >= 0,
        forall|i: int| 0 <= i < n ==> #[trigger] w[i] >= 0,
        forall|i: int| 0 <= i < n ==> abs_i(#[trigger] x[i]) <= bx,
        forall|i: int| 0 <= i < n ==> abs_i(#[trigger] y[i]) <= by,
    ensures
        sum(w, n) >= 0,
        -(sum(w, n) * bx * by) <= wsum2(w, x, y, n) <= sum(w, n) * bx * by,
    decreases n,
{
    if n > 0 {
        lemma_wsum2_bounds(w, x, y, (n - 1) as nat, bx, by);
        let m = (n - 1) as nat;
        let a = w[n - 1];
        assert(w[n - 1] >= 0 && abs_i(x[n - 1]) <= bx && abs_i(y[n - 1]) <= by);
        assert(-(a * bx * by) <= a * x[n - 1] * y[n - 1] <= a * bx * by) by (nonlinear_arith)
            requires
                a >= 0,
                abs_i(x[n - 1]) <= bx,
                abs_i(y[n - 1]) <= by,
                bx >= 0,
                by >= 0,
        ;
        assert((sum(w, m) + a) * bx * by == sum(w, m) * bx * by + a * bx * by)
            by (nonlinear_arith);
    }
}

/// Floor square root, defined by counting up.
pub open spec fn sqrt_floor(n: nat) -> nat
    decreases n,
{
    if n == 0 {
        0
    } else {
        let p = sqrt_floor((n - 1) as nat);
        if (p + 1) * (p + 1) <= n {
            p + 1
        } else {
            p
        }
    }
}

/// `sqrt_floor` is the floor of the square root.
pub proof fn lemma_sqrt_floor(n: nat)
    ensures
        sqrt_floor(n) * sqrt_floor(n) <= n,
        n < (sqrt_floor(n) + 1) * (sqrt_floor(n) + 1),
    decreases n,
{
    if n > 0 {
        lemma_sqrt_floor((n - 1) as nat);
        let p = sqrt_floor((n - 1) as nat);
        assert(p * p <= n - 1 && n - 1 < (p + 1) * (p + 1));
        if (p + 1) * (p + 1) <= n {
            assert(sqrt_floor(n) == p + 1);
            assert(n < ((p + 1) + 1) * ((p + 1) + 1)) by (nonlinear_arith)
                requires
                    (n as int) - 1 < (p + 1) * (p + 1),
                    p >= 0,
            ;
            assert(sqrt_floor(n) * sqrt_floor(n) <= n);
            assert(n < (sqrt_floor(n) + 1) * (sqrt_floor(n) + 1));
        } else {
            assert(sqrt_floor(n) == p);
            assert(sqrt_floor(n) * sqrt_floor(n) <= n);
            assert(n < (sqrt_floor(n) + 1) * (sqrt_floor(n) + 1));
        }
    } else {
        assert(sqrt_floor(n) == 0);
        assert(sqrt_floor(n) * sqrt_floor(n) <= n);
        assert(n < (sqrt_floor(n) + 1) * (sqrt_floor(n) + 1)) by (nonlinear_arith)
            requires
                n == 0,
                sqrt_floor(n) == 0,
        ;
    }
}

/// Any value meeting the floor-square-root characterisation is `sqrt_floor`.
pub proof fn lemma_sqrt_floor_unique(n: nat, r: nat)
    requires
        r * r <= n,
        n < (r + 1) * (r + 1),
    ensures
        r == sqrt_floor(n),
{
    lemma_sqrt_floor(n);
    let s = sqrt_floor(n);
    if r < s {
        assert((r + 1) * (r + 1) <= s * s) by (nonlinear_arith)
            requires
                r + 1 <= s,
        ;
    }
    if s < r {
        assert((s + 1) * (s + 1) <= r * r) by (nonlinear_arith)
            requires
                s + 1 <= r,
        ;
    }
}

/// Floor division of a signed value by a positive one.
pub fn floor_div_i128(a: i128, b: i128) -> (r: i128)
    requires
        1 <= b <= 0x4000_0000_0000_0000_0000_0000_0000_0000,
        -0x4000_0000_0000_0000_0000_0000_0000_0000 <= a
            <= 0x4000_0000_0000_0000_0000_0000_0000_0000,
    ensures
        r == a as int / b as int,
        b * r <= a < b * (r + 1),
{
    let ghost ai = a as int;
    let ghost bi = b as int;
    let r: i128 = if a >= 0 {
        let q: u128 = (a as u128) / (b as u128);
        q as i128
    } else {
        let n: u128 = (-a) as u128;
        let bu: u128 = b as u128;
        let q: u128 = (n + bu - 1) / bu;
        proof {
            let nq = n as int / bu as int;
            let nr = n as int % bu as int;
            vstd::arithmetic::div_mod::lemma_fundamental_div_mod(n as int, bu as int);
            vstd::arithmetic::div_mod::lemma_mod_pos_bound(n as int, bu as int);
            assert(n as int == bu as int * nq + nr && 0 <= nr < bu as int);
            assert(ai == -(n as int));
            if nr == 0 {
                assert(ai == (-nq) * bi + 0 && n as int + bi - 1 == nq * bi + (bi - 1))
                    by (nonlinear_arith)
                    requires
                        ai == -(n as int),
                        n as int == bi * nq + nr,
                        nr == 0,
                ;
                lemma_fundamental_div_mod_converse(ai, bi, -nq, 0);
                lemma_fundamental_div_mod_converse(n as int + bi - 1, bi, nq, bi - 1);
            } else {
                assert(ai == (-nq - 1) * bi + (bi - nr) && n as int + bi - 1 == (nq + 1) * bi + (nr
                    - 1)) by (nonlinear_arith)
                    requires
                        ai == -(n as int),
                        n as int == bi * nq + nr,
                ;
                lemma_fundamental_div_mod_converse(ai, bi, -nq - 1, bi - nr);
                lemma_fundamental_div_mod_converse(n as int + bi - 1, bi, nq + 1, nr - 1);
            }
        }
        -(q as i128)
    };
    proof {
        vstd::arithmetic::div_mod::lemma_fundamental_div_mod(ai, bi);
        vstd::arithmetic::div_mod::lemma_mod_bound(ai, bi);
        assert(ai == bi * (ai / bi) + ai % bi && 0 <= ai % bi < bi);
        assert(bi * r <= ai < bi * (r + 1)) by (nonlinear_arith)
            requires
                r == ai / bi,
                ai == bi * (ai / bi) + ai % bi,
                0 <= ai % bi < bi,
        ;
    }
    r
}

/// Floor square root of a `u128`, by binary search.
pub fn isqrt_u128(v: u128) -> (r: u128)
    ensures
        r == sqrt_floor(v as nat),
        r * r <= v,
        v < (r + 1) * (r + 1),
{
    let mut lo: u128 = 0;
    let mut hi: u128 = 1u128 << 64;
    proof {
        assert((1u128 << 64) as int == 0x1_0000_0000_0000_0000) by (bit_vector);
    }
    while lo + 1 < hi
        invariant
            lo < hi <= 0x1_0000_0000_0000_0000,
            (lo as int) * (lo as int) <= v as int,
            (hi as int) * (hi as int) > v as int,
        decreases hi - lo,
    {
        let mid: u128 = lo + (hi - lo) / 2;
        proof {
            let b64: int = 0x1_0000_0000_0000_0000;
            assert((mid as int) * (mid as int) < b64 * b64) by (nonlinear_arith)
                requires
                    (mid as int) < b64,
            ;
        }
        if mid * mid <= v {
            lo = mid;
        } else {
            hi = mid;
        }
    }
    proof {
        lemma_sqrt_floor_unique(v as nat, lo as nat);
    }
    lo
}

/// `v` clamped into `[lo, hi]`.
pub fn clamp_i128(v: i128, lo: i128, hi: i128) -> (r: i128)
    requires
        lo <= hi,
    ensures
        r == clamp_i(v as int, lo as int, hi as int),
        lo <= r <= hi,
{
    if v < lo {
        lo
    } else if v > hi {
        hi
    } else {
        v
    }
}

/// The replicated-border index, as executable code.
pub fn clamp_coord(base: usize, delta: i64, len: usize) -> (r: usize)
    requires
        1 <= len,
        base < len,
        -16 <= delta <= 16,
        len <= 0x1000_0000,
    ensures
        r == clamp_idx(base + delta, len as int),
        r < len,
{
    if delta < 0 {
        let d: usize = (-delta) as usize;
        if base >= d {
            base - d
        } else {
            0
        }
    } else {
        let s: usize = base + (delta as usize);
        if s >= len {
            len - 1
        } else {
            s
        }
    }
}

} // verus!
