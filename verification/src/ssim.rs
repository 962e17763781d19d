//! Full-reference structural similarity.
//!
//! Local statistics are taken over an 11x11 window weighted by an integer
//! quantisation of the conventional Gaussian (sigma 1.5), with replicated
//! borders.  Per pixel, the luminance term `(2*mu_a*mu_b + C1) /
//! (mu_a^2 + mu_b^2 + C1)` and the combined contrast-structure term
//! `(2*cov + C2) / (var_a + var_b + C2)` are evaluated in exact rational
//! arithmetic with the standard constants `C1 = (0.01*255)^2` and
//! `C2 = (0.03*255)^2`, quantised to [`SSIM_S`] fixed-point steps, and
//! multiplied; the quality map holds the result in [`SSIM_SCALE`] units.
//! The per-channel score is the exact rational mean of the map.  Identical
//! images score exactly 1.

use vstd::prelude::*;
use vstd::arithmetic::div_mod::{
    lemma_fundamental_div_mod,
    lemma_div_multiples_vanish,
    lemma_div_is_ordered,
    lemma_div_pos_is_pos,
    lemma_mod_bound,
};
use crate::base::QualityBase;
use crate::image::{Image, MAX_SAMPLE, pix_at, lemma_flat_index_bound};
use crate::num::{
    clamp_idx,
    clamp_i,
    sum,
    wsum,
    wsum2,
    lemma_cs_weighted,
    lemma_sum_bounds,
    lemma_wsum_bounds,
    lemma_wsum2_bounds,
    lemma_sum_const,
    abs_i,
    floor_div_i128,
    clamp_i128,
};
use crate::types::{QualityError, Ratio};

verus! {

/// Fixed-point unit of the quality map: `SSIM_SCALE` means similarity 1.
pub const SSIM_SCALE: i64 = 1_000_000;

/// Intermediate fixed-point unit of the two SSIM factors.
pub const SSIM_S: i64 = 1048576;

/// Common denominator of the stabilising constants: `C1 = 2601 / 400` and
/// `C2 = 23409 / 400` (the usual `(K*L)^2` with `K1 = 0.01`, `K2 = 0.03`,
/// `L = 255`).
pub const SSIM_CD: i64 = 400;

/// Numerator of `C1` over [`SSIM_CD`].
pub const SSIM_C1: i64 = 2601;

/// Numerator of `C2` over [`SSIM_CD`].
pub const SSIM_C2: i64 = 23409;

/// One half of the quantised Gaussian: weight of the tap `d` steps from the
/// window centre (256 at the centre, symmetric, zero outside).
pub open spec fn gauss_w(d: int) -> int {
    if d == 0 {
        256
    } else if d == 1 || d == -1 {
        205
    } else if d == 2 || d == -2 {
        105
    } else if d == 3 || d == -3 {
        35
    } else if d == 4 || d == -4 {
        7
    } else if d == 5 || d == -5 {
        1
    } else {
        0
    }
}

/// The 121 window weights in row-major order: tap `t` covers the offset
/// `(t / 11 - 5, t % 11 - 5)` and weighs the product of the two 1-D
/// Gaussian halves.
pub open spec fn kernel_seq() -> Seq<int> {
    Seq::new(121, |t: int| gauss_w(t / 11 - 5) * gauss_w(t % 11 - 5))
}

/// The window of samples tap-aligned with [`kernel_seq`] around `(y, x)`,
/// borders replicated.
pub open spec fn win_seq(img: Image, ch: int, y: int, x: int) -> Seq<int> {
    Seq::new(
        121,
        |t: int|
            img.px(
                clamp_idx(y + t / 11 - 5, img.height as int),
                clamp_idx(x + t % 11 - 5, img.width as int),
                ch,
            ),
    )
}

/// The SSIM value computed from the five weighted window sums and the
/// weight total, in [`SSIM_SCALE`] units.  `sa`/`sb` are the weighted
/// sample sums, `saa`/`sbb`/`sab` the weighted product sums.
pub open spec fn ssim_from_sums(sa: int, sb: int, saa: int, sbb: int, sab: int, w: int) -> int {
    let a1 = 2 * (sa * sb) * (SSIM_CD as int) + (SSIM_C1 as int) * (w * w);
    let b1 = (sa * sa + sb * sb) * (SSIM_CD as int) + (SSIM_C1 as int) * (w * w);
    let va = w * saa - sa * sa;
    let vb = w * sbb - sb * sb;
    let vab = w * sab - sa * sb;
    let a2 = 2 * vab * (SSIM_CD as int) + (SSIM_C2 as int) * (w * w);
    let b2 = (va + vb) * (SSIM_CD as int) + (SSIM_C2 as int) * (w * w);
    let l = (a1 * (SSIM_S as int)) / b1;
    let cs = (a2 * (SSIM_S as int)) / b2;
    clamp_i(
        (l * cs * (SSIM_SCALE as int)) / ((SSIM_S as int) * (SSIM_S as int)),
        -(SSIM_SCALE as int),
        SSIM_SCALE as int,
    )
}

/// Per-pixel SSIM of the pair at `(y, x)` on channel `ch`.
pub open spec fn ssim_val(a: Image, b: Image, ch: int, y: int, x: int) -> int {
    let wa = win_seq(a, ch, y, x);
    let wb = win_seq(b, ch, y, x);
    let k = kernel_seq();
    ssim_from_sums(
        wsum(k, wa, 121),
        wsum(k, wb, 121),
        wsum2(k, wa, wa, 121),
        wsum2(k, wb, wb, 121),
        wsum2(k, wa, wb, 121),
        sum(k, 121),
    )
}

/// The SSIM map of channel `ch` as a row-major sequence.
pub open spec fn ssim_seq(a: Image, b: Image, ch: int) -> Seq<int> {
    Seq::new(
        (a.width * a.height) as nat,
        |p: int| ssim_val(a, b, ch, p / (a.width as int), p % (a.width as int)),
    )
}

/// The quality map of an SSIM comparison: input-shaped, each sample the
/// SSIM value of its pixel and channel, inside `[-SSIM_SCALE, SSIM_SCALE]`.
pub open spec fn ssim_map_ok(a: Image, b: Image, m: Image) -> bool {
    &&& m.wf()
    &&& m.same_shape(a)
    &&& forall|p: int, ch: int|
        0 <= p < a.width * a.height && 0 <= ch < a.channels ==> #[trigger] pix_at(
            m.data@,
            a.channels as int,
            p,
            ch,
        ) == ssim_seq(a, b, ch)[p]
    &&& forall|i: int|
        0 <= i < m.data.len() ==> -SSIM_SCALE <= #[trigger] m.data[i] <= SSIM_SCALE
}

/// The per-channel SSIM scores: always four entries; a real channel's score
/// is the exact rational mean of the quality map (`sum / (n * SSIM_SCALE)`),
/// unused channels are `0 / 1`.
pub open spec fn ssim_scores_ok(a: Image, b: Image, s: Seq<Ratio>) -> bool {
    &&& s.len() == 4
    &&& forall|ch: int|
        0 <= ch < a.channels ==> (#[trigger] s[ch]).num == sum(
            ssim_seq(a, b, ch),
            (a.width * a.height) as nat,
        ) && s[ch].den == (a.width * a.height) * (SSIM_SCALE as int)
    &&& forall|ch: int| a.channels <= ch < 4 ==> (#[trigger] s[ch]).num == 0 && s[ch].den == 1
}

/// Builds the executable window weights, tap-aligned with [`kernel_seq`].
fn build_kernel() -> (r: (Vec<i64>, i128))
    ensures
        r.0@.len() == 121,
        forall|t: int| 0 <= t < 121 ==> #[trigger] r.0@[t] == kernel_seq()[t],
        r.1 == sum(kernel_seq(), 121),
        121 <= r.1 <= 121 * 65536,
{
    let mut k: Vec<i64> = Vec::new();
    let mut total: i128 = 0;
    let mut t: usize = 0;
    while t < 121
        invariant
            k@.len() == t,
            t <= 121,
            forall|j: int| 0 <= j < t ==> #[trigger] k@[j] == kernel_seq()[j],
            total == sum(kernel_seq(), t as nat),
            t <= total <= t * 65536,
        decreases 121 - t,
    {
        let i: usize = t / 11;
        let j: usize = t % 11;
        let wi: i64 = gauss_at(i);
        let wj: i64 = gauss_at(j);
        proof {
            assert(1 <= (wi as int) * (wj as int) <= 65536) by (nonlinear_arith)
                requires
                    1 <= wi <= 256,
                    1 <= wj <= 256,
            ;
            assert(kernel_seq()[t as int] == gauss_w(t as int / 11 - 5) * gauss_w(
                t as int % 11 - 5,
            ));
            assert((t + 1) * 65536 == t * 65536 + 65536) by (nonlinear_arith);
        }
        let w: i64 = wi * wj;
        k.push(w);
        total = total + w as i128;
        t += 1;
    }
    (k, total)
}

/// The 1-D window weight `gauss_w(i - 5)` for a tap index `0 <= i < 11`.
fn gauss_at(i: usize) -> (r: i64)
    requires
        i < 11,
    ensures
        r == gauss_w(i as int - 5),
        1 <= r <= 256,
{
    if i == 0 || i == 10 {
        1
    } else if i == 1 || i == 9 {
        7
    } else if i == 2 || i == 8 {
        35
    } else if i == 3 || i == 7 {
        105
    } else if i == 4 || i == 6 {
        205
    } else {
        256
    }
}

/// The five weighted window sums of the pair at `(y, x)` on channel `ch`.
#[verifier::rlimit(40)]
fn window_sums(
    a: &Image,
    b: &Image,
    ch: usize,
    y: usize,
    x: usize,
    k: &Vec<i64>,
) -> (r: (i128, i128, i128, i128, i128))
    requires
        a.valid(),
        b.valid(),
        a.same_shape(*b),
        !a.is_degenerate(),
        ch < a.channels,
        y < a.height,
        x < a.width,
        k@.len() == 121,
        forall|t: int| 0 <= t < 121 ==> #[trigger] k@[t] == kernel_seq()[t],
    ensures
        ({
            let wa = win_seq(*a, ch as int, y as int, x as int);
            let wb = win_seq(*b, ch as int, y as int, x as int);
            let ks = kernel_seq();
            &&& r.0 == wsum(ks, wa, 121)
            &&& r.1 == wsum(ks, wb, 121)
            &&& r.2 == wsum2(ks, wa, wa, 121)
            &&& r.3 == wsum2(ks, wb, wb, 121)
            &&& r.4 == wsum2(ks, wa, wb, 121)
        }),
{
    let ghost wa = win_seq(*a, ch as int, y as int, x as int);
    let ghost wb = win_seq(*b, ch as int, y as int, x as int);
    let ghost ks = kernel_seq();
    let mut sa: i128 = 0;
    let mut sb: i128 = 0;
    let mut saa: i128 = 0;
    let mut sbb: i128 = 0;
    let mut sab: i128 = 0;
    let mut t: usize = 0;
    while t < 121
        invariant
            a.valid(),
            b.valid(),
            a.same_shape(*b),
            !a.is_degenerate(),
            ch < a.channels,
            y < a.height,
            x < a.width,
            k@.len() == 121,
            forall|j: int| 0 <= j < 121 ==> #[trigger] k@[j] == kernel_seq()[j],
            wa == win_seq(*a, ch as int, y as int, x as int),
            wb == win_seq(*b, ch as int, y as int, x as int),
            ks == kernel_seq(),
            t <= 121,
            sa == wsum(ks, wa, t as nat),
            sb == wsum(ks, wb, t as nat),
            saa == wsum2(ks, wa, wa, t as nat),
            sbb == wsum2(ks, wb, wb, t as nat),
            sab == wsum2(ks, wa, wb, t as nat),
            0 <= sa <= t * (65536 * MAX_SAMPLE),
            0 <= sb <= t * (65536 * MAX_SAMPLE),
            0 <= saa <= t * (65536 * (MAX_SAMPLE * MAX_SAMPLE)),
            0 <= sbb <= t * (65536 * (MAX_SAMPLE * MAX_SAMPLE)),
            0 <= sab <= t * (65536 * (MAX_SAMPLE * MAX_SAMPLE)),
        decreases 121 - t,
    {
        let dy: i64 = (t / 11) as i64 - 5;
        let dx: i64 = (t % 11) as i64 - 5;
        let va: i64 = a.at_clamped(ch, y, x, dy, dx);
        let vb: i64 = b.at_clamped(ch, y, x, dy, dx);
        let kw: i64 = k[t];
        proof {
            assert(ks[t as int] == kernel_seq()[t as int]);
            assert(1 <= ks[t as int] <= 65536) by {
                lemma_gauss_w_bounds(t as int / 11 - 5);
                lemma_gauss_w_bounds(t as int % 11 - 5);
                assert(kernel_seq()[t as int] == gauss_w(t as int / 11 - 5) * gauss_w(
                    t as int % 11 - 5,
                ));
                assert(1 <= gauss_w(t as int / 11 - 5) * gauss_w(t as int % 11 - 5) <= 65536)
                    by (nonlinear_arith)
                    requires
                        1 <= gauss_w(t as int / 11 - 5) <= 256,
                        1 <= gauss_w(t as int % 11 - 5) <= 256,
                ;
            }
            assert(wa[t as int] == va && wb[t as int] == vb);
            let kk = ks[t as int];
            assert(0 <= kk * (va as int) <= 65536 * MAX_SAMPLE && 0 <= kk * (va as int) * (
            vb as int) <= 65536 * (MAX_SAMPLE * MAX_SAMPLE) && 0 <= kk * (va as int) * (va as int)
                <= 65536 * (MAX_SAMPLE * MAX_SAMPLE) && 0 <= kk * (vb as int) <= 65536 * MAX_SAMPLE
                && 0 <= kk * (vb as int) * (vb as int) <= 65536 * (MAX_SAMPLE * MAX_SAMPLE))
                by (nonlinear_arith)
                requires
                    1 <= kk <= 65536,
                    0 <= (va as int) <= MAX_SAMPLE,
                    0 <= (vb as int) <= MAX_SAMPLE,
            ;
            assert((t + 1) * (65536 * MAX_SAMPLE) == t * (65536 * MAX_SAMPLE) + 65536 * MAX_SAMPLE)
                by (nonlinear_arith);
            assert((t + 1) * (65536 * (MAX_SAMPLE * MAX_SAMPLE)) == t * (65536 * (MAX_SAMPLE
                * MAX_SAMPLE)) + 65536 * (MAX_SAMPLE * MAX_SAMPLE)) by (nonlinear_arith);
            assert(0 <= t * (65536 * MAX_SAMPLE) <= 121 * (65536 * MAX_SAMPLE) && 0 <= t * (65536
                * (MAX_SAMPLE * MAX_SAMPLE)) <= 121 * (65536 * (MAX_SAMPLE * MAX_SAMPLE)))
                by (nonlinear_arith)
                requires
                    0 <= t <= 121,
                    MAX_SAMPLE == 4095,
            ;
        }
        let kwi: i128 = kw as i128;
        proof {
            assert(kwi == ks[t as int]);
        }
        sa = sa + kwi * (va as i128);
        sb = sb + kwi * (vb as i128);
        saa = saa + kwi * (va as i128) * (va as i128);
        sbb = sbb + kwi * (vb as i128) * (vb as i128);
        sab = sab + kwi * (va as i128) * (vb as i128);
        t += 1;
    }
    (sa, sb, saa, sbb, sab)
}

/// The 1-D weights lie in `[1, 256]` on the taps and are never negative.
pub proof fn lemma_gauss_w_bounds(d: int)
    ensures
        0 <= gauss_w(d) <= 256,
        -5 <= d <= 5 ==> 1 <= gauss_w(d),
{
}

/// Every kernel weight is in `[1, 65536]`.
pub proof fn lemma_kernel_bounds()
    ensures
        forall|t: int| 0 <= t < 121 ==> 1 <= #[trigger] kernel_seq()[t] <= 65536,
        121 <= sum(kernel_seq(), 121) <= 121 * 65536,
{
    assert forall|t: int| 0 <= t < 121 implies 1 <= #[trigger] kernel_seq()[t] <= 65536 by {
        lemma_gauss_w_bounds(t / 11 - 5);
        lemma_gauss_w_bounds(t % 11 - 5);
        lemma_mod_bound(t, 11);
        lemma_fundamental_div_mod(t, 11);
        assert(0 <= t / 11 <= 10) by (nonlinear_arith)
            requires
                t == 11 * (t / 11) + t % 11,
                0 <= t % 11 < 11,
                0 <= t < 121,
        ;
        assert(1 <= gauss_w(t / 11 - 5) * gauss_w(t % 11 - 5) <= 65536) by (nonlinear_arith)
            requires
                1 <= gauss_w(t / 11 - 5) <= 256,
                1 <= gauss_w(t % 11 - 5) <= 256,
        ;
    }
    lemma_sum_bounds(kernel_seq(), 121, 1, 65536);
}

/// SSIM from the five weighted sums, in executable arithmetic.
#[verifier::rlimit(60)]
fn ssim_from_sums_exec(sa: i128, sb: i128, saa: i128, sbb: i128, sab: i128, w: i128) -> (v: i64)
    requires
        121 <= w <= 121 * 65536,
        0 <= sa <= w * MAX_SAMPLE,
        0 <= sb <= w * MAX_SAMPLE,
        0 <= saa <= w * (MAX_SAMPLE * MAX_SAMPLE),
        0 <= sbb <= w * (MAX_SAMPLE * MAX_SAMPLE),
        0 <= sab <= w * (MAX_SAMPLE * MAX_SAMPLE),
        sa * sa <= w * saa,
        sb * sb <= w * sbb,
    ensures
        v == ssim_from_sums(sa as int, sb as int, saa as int, sbb as int, sab as int, w as int),
        -SSIM_SCALE <= v <= SSIM_SCALE,
{
    let ghost wm: int = 121 * 65536 * MAX_SAMPLE;
    proof {
        assert(0 <= sa * sb <= wm * wm && 0 <= sa * sa <= wm * wm && 0 <= sb * sb <= wm * wm && 0
            <= w * w <= 121 * 65536 * (121 * 65536) && 0 <= w * saa <= wm * wm && 0 <= w * sbb <= wm
            * wm && 0 <= w * sab <= wm * wm) by (nonlinear_arith)
            requires
                wm == 121 * 65536 * MAX_SAMPLE,
                121 <= w <= 121 * 65536,
                0 <= sa <= w * MAX_SAMPLE,
                0 <= sb <= w * MAX_SAMPLE,
                0 <= saa <= w * (MAX_SAMPLE * MAX_SAMPLE),
                0 <= sbb <= w * (MAX_SAMPLE * MAX_SAMPLE),
                0 <= sab <= w * (MAX_SAMPLE * MAX_SAMPLE),
                MAX_SAMPLE == 4095,
        ;
        assert(wm * wm <= 0x4000_0000_0000_0000_0000_0000_0000) by (nonlinear_arith)
            requires
                wm == 121 * 65536 * MAX_SAMPLE,
                MAX_SAMPLE == 4095,
        ;
    }
    let pab: i128 = sa * sb;
    let paa: i128 = sa * sa;
    let pbb: i128 = sb * sb;
    let ww: i128 = w * w;
    let a1: i128 = 2 * pab * SSIM_CD as i128 + SSIM_C1 as i128 * ww;
    let b1: i128 = (paa + pbb) * SSIM_CD as i128 + SSIM_C1 as i128 * ww;
    let va: i128 = w * saa - paa;
    let vb: i128 = w * sbb - pbb;
    let vab: i128 = w * sab - pab;
    let a2: i128 = 2 * vab * SSIM_CD as i128 + SSIM_C2 as i128 * ww;
    let b2: i128 = (va + vb) * SSIM_CD as i128 + SSIM_C2 as i128 * ww;
    proof {
        // Positivity of the two denominators.
        assert(b1 >= SSIM_C1 * ww && ww >= 121 * 121) by (nonlinear_arith)
            requires
                b1 == (paa + pbb) * (SSIM_CD as int) + (SSIM_C1 as int) * ww,
                paa >= 0,
                pbb >= 0,
                SSIM_CD == 400,
                ww == w * w,
                w >= 121,
        ;
        assert(SSIM_C1 * ww >= SSIM_C1 * (121 * 121) && SSIM_C2 * ww >= SSIM_C2 * (121 * 121))
            by (nonlinear_arith)
            requires
                ww >= 121 * 121,
                SSIM_C1 == 2601,
                SSIM_C2 == 23409,
        ;
        assert(b2 >= SSIM_C2 * ww) by (nonlinear_arith)
            requires
                b2 == (va + vb) * (SSIM_CD as int) + (SSIM_C2 as int) * ww,
                va >= 0,
                vb >= 0,
                SSIM_CD == 400,
        ;
        // Luminance numerator below its denominator (AM-GM).
        assert(0 <= a1 <= b1) by (nonlinear_arith)
            requires
                a1 == 2 * pab * (SSIM_CD as int) + (SSIM_C1 as int) * ww,
                b1 == (paa + pbb) * (SSIM_CD as int) + (SSIM_C1 as int) * ww,
                pab == sa * sb,
                paa == sa * sa,
                pbb == sb * sb,
                sa >= 0,
                sb >= 0,
                SSIM_CD == 400,
                SSIM_C1 == 2601,
                ww >= 0,
        ;
        // Magnitude bounds for the fixed-point products.
        assert(a1 <= 0x1_0000_0000_0000_0000_0000 && abs_i(a2 as int)
            <= 0x1_0000_0000_0000_0000_0000 && b1 <= 0x1_0000_0000_0000_0000_0000 && b2
            <= 0x1_0000_0000_0000_0000_0000) by (nonlinear_arith)
            requires
                a1 == 2 * pab * (SSIM_CD as int) + (SSIM_C1 as int) * ww,
                b1 == (paa + pbb) * (SSIM_CD as int) + (SSIM_C1 as int) * ww,
                a2 == 2 * vab * (SSIM_CD as int) + (SSIM_C2 as int) * ww,
                b2 == (va + vb) * (SSIM_CD as int) + (SSIM_C2 as int) * ww,
                vab == w * sab - pab,
                va == w * saa - paa,
                vb == w * sbb - pbb,
                0 <= pab <= wm * wm,
                0 <= paa <= wm * wm,
                0 <= pbb <= wm * wm,
                0 <= w * saa <= wm * wm,
                0 <= w * sbb <= wm * wm,
                0 <= w * sab <= wm * wm,
                0 <= ww <= 121 * 65536 * (121 * 65536),
                wm == 121 * 65536 * MAX_SAMPLE,
                MAX_SAMPLE == 4095,
                SSIM_CD == 400,
                SSIM_C1 == 2601,
                SSIM_C2 == 23409,
        ;
    }
    let l: i128 = floor_div_i128(a1 * SSIM_S as i128, b1);
    proof {
        lemma_div_pos_is_pos((a1 * SSIM_S as i128) as int, b1 as int);
        assert(a1 * (SSIM_S as int) <= b1 * (SSIM_S as int)) by (nonlinear_arith)
            requires
                0 <= a1 <= b1,
                SSIM_S == 1048576,
        ;
        lemma_div_is_ordered(a1 * (SSIM_S as int), b1 * (SSIM_S as int), b1 as int);
        lemma_div_multiples_vanish(SSIM_S as int, b1 as int);
        assert(b1 * (SSIM_S as int) / (b1 as int) == SSIM_S as int);
    }
    // Bound the contrast-structure factor: |a2| * S <= b2 * CS_BOUND.
    let ghost csb: int = 0x200_0000_0000;
    proof {
        assert(0 <= w * sab <= (w * w) * (MAX_SAMPLE * MAX_SAMPLE) && 0 <= pab <= (w * w) * (
        MAX_SAMPLE * MAX_SAMPLE)) by (nonlinear_arith)
            requires
                0 <= sab <= w * (MAX_SAMPLE * MAX_SAMPLE),
                pab == sa * sb,
                0 <= sa <= w * MAX_SAMPLE,
                0 <= sb <= w * MAX_SAMPLE,
                w >= 121,
                MAX_SAMPLE == 4095,
        ;
        assert(abs_i(a2 as int) <= 2 * (SSIM_CD as int) * (2 * ((w * w) * (MAX_SAMPLE
            * MAX_SAMPLE))) + (SSIM_C2 as int) * (w * w)) by (nonlinear_arith)
            requires
                a2 == 2 * vab * (SSIM_CD as int) + (SSIM_C2 as int) * ww,
                vab == w * sab - pab,
                0 <= w * sab <= (w * w) * (MAX_SAMPLE * MAX_SAMPLE),
                0 <= pab <= (w * w) * (MAX_SAMPLE * MAX_SAMPLE),
                ww == w * w,
                SSIM_CD == 400,
                SSIM_C2 == 23409,
        ;
        assert(abs_i(a2 as int) * (SSIM_S as int) <= b2 * csb) by (nonlinear_arith)
            requires
                csb == 0x200_0000_0000,
                abs_i(a2 as int) <= 2 * (SSIM_CD as int) * (2 * ((w * w) * (MAX_SAMPLE
                    * MAX_SAMPLE))) + (SSIM_C2 as int) * (w * w),
                b2 >= (SSIM_C2 as int) * (w * w),
                w * w >= 0,
                SSIM_CD == 400,
                SSIM_C2 == 23409,
                SSIM_S == 1048576,
                MAX_SAMPLE == 4095,
        ;
    }
    let cs: i128 = floor_div_i128(a2 * SSIM_S as i128, b2);
    proof {
        assert(-csb <= cs <= csb) by (nonlinear_arith)
            requires
                b2 * cs <= a2 * (SSIM_S as int),
                a2 * (SSIM_S as int) < b2 * (cs + 1),
                abs_i(a2 as int) * (SSIM_S as int) <= b2 * csb,
                b2 > 0,
                SSIM_S > 0,
        ;
        assert(abs_i((l * cs) as int) <= (SSIM_S as int) * csb && abs_i(
            (l * cs * (SSIM_SCALE as i128)) as int,
        ) <= (SSIM_S as int) * csb * (SSIM_SCALE as int)) by (nonlinear_arith)
            requires
                0 <= l <= SSIM_S as int,
                -csb <= cs <= csb,
                csb == 0x200_0000_0000,
                SSIM_S == 1048576,
                SSIM_SCALE == 1_000_000,
        ;
    }
    let prod: i128 = l * cs * SSIM_SCALE as i128;
    let q: i128 = floor_div_i128(prod, SSIM_S as i128 * SSIM_S as i128);
    let v: i128 = clamp_i128(q, -(SSIM_SCALE as i128), SSIM_SCALE as i128);
    v as i64
}

/// Shared worker: builds the SSIM map and the per-channel mean scores for a
/// matching, non-degenerate pair.
fn ssim_core(a: &Image, b: &Image) -> (r: (Vec<Ratio>, Image))
    requires
        a.valid(),
        b.valid(),
        a.same_shape(*b),
        !a.is_degenerate(),
    ensures
        ssim_scores_ok(*a, *b, r.0@),
        ssim_map_ok(*a, *b, r.1),
{
    proof {
        assert(a.width * a.height <= a.data.len()) by (nonlinear_arith)
            requires
                a.data.len() == a.width * a.height * a.channels,
                a.channels >= 1,
                a.width >= 0,
                a.height >= 0,
        ;
    }
    let w: usize = a.width;
    let h: usize = a.height;
    let c: usize = a.channels;
    let npx: usize = w * h;
    let (kern, ktotal) = build_kernel();
    let mut mdata: Vec<i64> = Vec::new();
    let mut p: usize = 0;
    while p < npx
        invariant
            a.valid(),
            b.valid(),
            a.same_shape(*b),
            !a.is_degenerate(),
            w == a.width,
            h == a.height,
            c == a.channels,
            npx == w * h,
            p <= npx,
            kern@.len() == 121,
            forall|t: int| 0 <= t < 121 ==> #[trigger] kern@[t] == kernel_seq()[t],
            ktotal == sum(kernel_seq(), 121),
            121 <= ktotal <= 121 * 65536,
            mdata.len() == p * c,
            forall|q: int, cc: int|
                0 <= q < p && 0 <= cc < c ==> #[trigger] pix_at(mdata@, c as int, q, cc)
                    == ssim_seq(*a, *b, cc)[q],
            forall|i: int|
                0 <= i < mdata.len() ==> -SSIM_SCALE <= #[trigger] mdata[i] <= SSIM_SCALE,
        decreases npx - p,
    {
        let y: usize = p / w;
        let x: usize = p % w;
        proof {
            lemma_fundamental_div_mod(p as int, w as int);
            lemma_mod_bound(p as int, w as int);
            assert(y < h) by (nonlinear_arith)
                requires
                    p as int == (w as int) * (y as int) + (x as int),
                    0 <= x < w,
                    p < npx,
                    npx == w * h,
            ;
        }
        let mut ch: usize = 0;
        while ch < c
            invariant
                a.valid(),
                b.valid(),
                a.same_shape(*b),
                !a.is_degenerate(),
                w == a.width,
                h == a.height,
                c == a.channels,
                npx == w * h,
                p < npx,
                y == p as int / w as int,
                x == p as int % w as int,
                y < h,
                x < w,
                ch <= c,
                kern@.len() == 121,
                forall|t: int| 0 <= t < 121 ==> #[trigger] kern@[t] == kernel_seq()[t],
                ktotal == sum(kernel_seq(), 121),
                121 <= ktotal <= 121 * 65536,
                mdata.len() == p * c + ch,
                forall|q: int, cc: int|
                    0 <= q < p && 0 <= cc < c ==> #[trigger] pix_at(mdata@, c as int, q, cc)
                        == ssim_seq(*a, *b, cc)[q],
                forall|cc: int|
                    0 <= cc < ch ==> #[trigger] pix_at(mdata@, c as int, p as int, cc) == ssim_seq(
                        *a,
                        *b,
                        cc,
                    )[p as int],
                forall|i: int|
                    0 <= i < mdata.len() ==> -SSIM_SCALE <= #[trigger] mdata[i] <= SSIM_SCALE,
            decreases c - ch,
        {
            let (sa, sb, saa, sbb, sab) = window_sums(a, b, ch, y, x, &kern);
            proof {
                let wa = win_seq(*a, ch as int, y as int, x as int);
                let wb = win_seq(*b, ch as int, y as int, x as int);
                let kt = sum(kernel_seq(), 121);
                lemma_kernel_bounds();
                lemma_cs_weighted(kernel_seq(), wa, 121);
                lemma_cs_weighted(kernel_seq(), wb, 121);
                lemma_win_seq_bounds(*a, ch as int, y as int, x as int);
                lemma_win_seq_bounds(*b, ch as int, y as int, x as int);
                lemma_wsum_bounds(kernel_seq(), wa, 121, 0, MAX_SAMPLE as int);
                lemma_wsum_bounds(kernel_seq(), wb, 121, 0, MAX_SAMPLE as int);
                assert(forall|t: int|
                    0 <= t < 121 ==> abs_i(#[trigger] wa[t]) <= MAX_SAMPLE && abs_i(wb[t])
                        <= MAX_SAMPLE);
                lemma_wsum2_bounds(
                    kernel_seq(),
                    wa,
                    wa,
                    121,
                    MAX_SAMPLE as int,
                    MAX_SAMPLE as int,
                );
                lemma_wsum2_bounds(
                    kernel_seq(),
                    wb,
                    wb,
                    121,
                    MAX_SAMPLE as int,
                    MAX_SAMPLE as int,
                );
                lemma_wsum2_bounds(
                    kernel_seq(),
                    wa,
                    wb,
                    121,
                    MAX_SAMPLE as int,
                    MAX_SAMPLE as int,
                );
                lemma_wsum2_nonneg(kernel_seq(), wa, wb, 121);
                assert(kt * (MAX_SAMPLE as int) * (MAX_SAMPLE as int) == kt * (MAX_SAMPLE
                    * MAX_SAMPLE)) by (nonlinear_arith);
            }
            let v: i64 = ssim_from_sums_exec(sa, sb, saa, sbb, sab, ktotal);
            proof {
                assert(ssim_seq(*a, *b, ch as int)[p as int] == v);
            }
            let ghost before = mdata@;
            mdata.push(v);
            proof {
                assert forall|q: int, cc: int| 0 <= q < p && 0 <= cc < c implies #[trigger] pix_at(
                    mdata@,
                    c as int,
                    q,
                    cc,
                ) == ssim_seq(*a, *b, cc)[q] by {
                    assert(0 <= q * (c as int) + cc < p * c) by (nonlinear_arith)
                        requires
                            0 <= q < p,
                            0 <= cc < c,
                    ;
                    assert(pix_at(mdata@, c as int, q, cc) == pix_at(before, c as int, q, cc));
                }
                assert forall|cc: int| 0 <= cc < ch + 1 implies #[trigger] pix_at(
                    mdata@,
                    c as int,
                    p as int,
                    cc,
                ) == ssim_seq(*a, *b, cc)[p as int] by {
                    assert(0 <= (p as int) * (c as int)) by (nonlinear_arith)
                        requires
                            p >= 0,
                            c >= 0,
                    ;
                    if cc < ch {
                        assert(pix_at(mdata@, c as int, p as int, cc) == pix_at(
                            before,
                            c as int,
                            p as int,
                            cc,
                        ));
                    } else {
                        assert(pix_at(mdata@, c as int, p as int, cc) == v);
                    }
                }
            }
            ch += 1;
        }
        proof {
            assert(p * c + c == (p + 1) * c) by (nonlinear_arith);
        }
        p += 1;
    }
    let map = Image { width: w, height: h, channels: c, data: mdata };
    proof {
        assert(map.wf()) by (nonlinear_arith)
            requires
                map.data.len() == ((w as int) * (h as int)) * (c as int),
                map.width == w,
                map.height == h,
                map.channels == c,
        ;
    }
    // Per-channel mean of the map.
    let mut scores: Vec<Ratio> = Vec::new();
    let mut ch: usize = 0;
    while ch < c
        invariant
            a.valid(),
            b.valid(),
            a.same_shape(*b),
            !a.is_degenerate(),
            w == a.width,
            h == a.height,
            c == a.channels,
            npx == w * h,
            npx <= 0x1000_0000,
            ssim_map_ok(*a, *b, map),
            map.data.len() == npx * c,
            ch <= c,
            scores.len() == ch,
            forall|k: int|
                0 <= k < ch ==> (#[trigger] scores[k]).num == sum(
                    ssim_seq(*a, *b, k),
                    npx as nat,
                ) && scores[k].den == (a.width * a.height) * (SSIM_SCALE as int),
        decreases c - ch,
    {
        let ghost ss = ssim_seq(*a, *b, ch as int);
        let mut acc: i128 = 0;
        let mut p2: usize = 0;
        while p2 < npx
            invariant
                a.valid(),
                b.valid(),
                a.same_shape(*b),
                w == a.width,
                h == a.height,
                c == a.channels,
                npx == w * h,
                npx <= 0x1000_0000,
                ssim_map_ok(*a, *b, map),
                map.data.len() == npx * c,
                ch < c,
                p2 <= npx,
                ss == ssim_seq(*a, *b, ch as int),
                acc == sum(ss, p2 as nat),
                -((p2 as int) * (SSIM_SCALE as int)) <= acc <= (p2 as int) * (SSIM_SCALE as int),
            decreases npx - p2,
        {
            proof {
                lemma_flat_index_bound(&map, p2 as int, ch as int);
            }
            let idx: usize = p2 * c + ch;
            let v: i64 = map.data[idx];
            proof {
                assert(pix_at(map.data@, c as int, p2 as int, ch as int) == ss[p2 as int]);
                assert(v == ss[p2 as int]);
                assert(-SSIM_SCALE <= v <= SSIM_SCALE);
                assert((p2 + 1) * (SSIM_SCALE as int) == p2 * (SSIM_SCALE as int) + (SSIM_SCALE
                    as int)) by (nonlinear_arith);
                assert((p2 as int) * (SSIM_SCALE as int) <= 0x1000_0000 * 0x100000 * 16)
                    by (nonlinear_arith)
                    requires
                        0 <= p2 <= 0x1000_0000,
                        SSIM_SCALE == 1_000_000,
                ;
            }
            acc = acc + v as i128;
            p2 += 1;
        }
        proof {
            assert(0 <= (npx as int) * (SSIM_SCALE as int) <= 0x1000_0000 * 0x100000 * 16)
                by (nonlinear_arith)
                requires
                    0 <= npx <= 0x1000_0000,
                    SSIM_SCALE == 1_000_000,
            ;
        }
        scores.push(Ratio { num: acc, den: (npx as i128) * (SSIM_SCALE as i128) });
        ch += 1;
    }
    while scores.len() < 4
        invariant
            scores.len() >= c,
            scores.len() <= 4,
            c == a.channels,
            c <= 4,
            npx == w * h,
            w == a.width,
            h == a.height,
            forall|k: int|
                0 <= k < c ==> (#[trigger] scores[k]).num == sum(
                    ssim_seq(*a, *b, k),
                    npx as nat,
                ) && scores[k].den == (a.width * a.height) * (SSIM_SCALE as int),
            forall|k: int|
                c <= k < scores.len() ==> (#[trigger] scores[k]).num == 0 && scores[k].den == 1,
        decreases 4 - scores.len(),
    {
        scores.push(Ratio { num: 0, den: 1 });
    }
    (scores, map)
}

/// Window samples of a valid image lie in `[0, MAX_SAMPLE]`.
proof fn lemma_win_seq_bounds(img: Image, ch: int, y: int, x: int)
    requires
        img.valid(),
        !img.is_degenerate(),
        0 <= ch < img.channels,
    ensures
        forall|t: int|
            0 <= t < 121 ==> 0 <= #[trigger] win_seq(img, ch, y, x)[t] <= MAX_SAMPLE,
{
    let h = img.height as int;
    let w = img.width as int;
    assert forall|t: int| 0 <= t < 121 implies 0 <= #[trigger] win_seq(img, ch, y, x)[t]
        <= MAX_SAMPLE by {
        let yy = clamp_idx(y + t / 11 - 5, h);
        let xx = clamp_idx(x + t % 11 - 5, w);
        assert(0 <= yy < h && 0 <= xx < w);
        crate::image::lemma_sample_index_bound(&img, yy, xx, ch);
        assert(win_seq(img, ch, y, x)[t] == img.px(yy, xx, ch));
    }
}

/// A weighted product-sum of two entry-wise non-negative sequences is
/// non-negative.
proof fn lemma_wsum2_nonneg(w: Seq<int>, x: Seq<int>, y: Seq<int>, n: nat)
    requires
        forall|i: int| 0 <= i < n ==> #[trigger] w[i] >= 0,
        forall|i: int| 0 <= i < n ==> #[trigger] x[i] >= 0,
        forall|i: int| 0 <= i < n ==> #[trigger] y[i] >= 0,
    ensures
        wsum2(w, x, y, n) >= 0,
    decreases n,
{
    if n > 0 {
        lemma_wsum2_nonneg(w, x, y, (n - 1) as nat);
        assert(w[n - 1] * x[n - 1] * y[n - 1] >= 0) by (nonlinear_arith)
            requires
                w[n - 1] >= 0,
                x[n - 1] >= 0,
                y[n - 1] >= 0,
        ;
    }
}

/// Instance interface of the SSIM metric.
pub trait QualitySSIMTrait: QualityBase {
    /// The stored reference image.
    spec fn reference_view(&self) -> Image;

    /// Soundness of the stored state: a valid, non-degenerate reference.
    spec fn inv(&self) -> bool;

    /// Computes SSIM between the stored reference and `cmp`, storing the
    /// per-pixel SSIM quality map on success.  Fails exactly when the
    /// shapes disagree, and then leaves the metric unchanged.
    fn compute(&mut self, cmp: &Image) -> (r: Result<Vec<Ratio>, QualityError>)
        requires
            old(self).inv(),
            cmp.valid(),
        ensures
            final(self).inv(),
            final(self).reference_view() == old(self).reference_view(),
            final(self).ready() == old(self).ready(),
            r is Ok <==> old(self).reference_view().same_shape(*cmp),
            r matches Err(e) ==> e == QualityError::DimensionMismatch && final(self).map_view()
                == old(self).map_view(),
            r matches Ok(s) ==> ssim_scores_ok(old(self).reference_view(), *cmp, s@),
            r is Ok ==> (final(self).map_view() matches Some(m) && ssim_map_ok(
                old(self).reference_view(),
                *cmp,
                m,
            )),
    ;
}

/// Full-reference SSIM metric instance.  Holds the reference image given at
/// creation and the quality map of the latest comparison.
#[derive(Debug)]
pub struct QualitySSIM {
    reference: Image,
    quality_map: Option<Image>,
}

impl QualityBase for QualitySSIM {
    closed spec fn ready(&self) -> bool {
        !self.reference.is_degenerate()
    }

    closed spec fn map_view(&self) -> Option<Image> {
        self.quality_map
    }

    closed spec fn cleared(&self) -> Self {
        QualitySSIM { reference: self.reference, quality_map: None }
    }

    fn get_quality_map(&self) -> (r: &Option<Image>) {
        &self.quality_map
    }

    fn clear(&mut self) {
        self.quality_map = None;
    }

    fn empty(&self) -> (r: bool) {
        self.reference.degenerate()
    }
}

impl QualitySSIMTrait for QualitySSIM {
    closed spec fn reference_view(&self) -> Image {
        self.reference
    }

    closed spec fn inv(&self) -> bool {
        self.reference.valid() && !self.reference.is_degenerate()
    }

    fn compute(&mut self, cmp: &Image) -> (r: Result<Vec<Ratio>, QualityError>) {
        if !self.reference.shape_eq(cmp) {
            return Err(QualityError::DimensionMismatch);
        }
        let (scores, map) = ssim_core(&self.reference, cmp);
        self.quality_map = Some(map);
        Ok(scores)
    }
}

#[allow(non_snake_case)]
impl QualitySSIM {
    /// Borrow of the raw metric state.
    pub fn as_raw_QualitySSIM(&self) -> (r: &QualitySSIM)
        ensures
            r == self,
    {
        self
    }

    /// Mutable borrow of the raw metric state.
    pub fn as_raw_mut_QualitySSIM(&mut self) -> (r: &mut QualitySSIM)
        ensures
            *r == *old(self),
            *final(self) == *final(r),
    {
        self
    }

    /// Creates an SSIM metric holding `reference` as its fixed baseline.
    /// Fails exactly when the reference is degenerate (empty).
    pub fn create(reference: Image) -> (r: Result<QualitySSIM, QualityError>)
        requires
            reference.valid(),
        ensures
            r is Ok <==> !reference.is_degenerate(),
            r matches Ok(m) ==> m.inv() && m.ready() && m.reference_view() == reference
                && m.map_view() is None,
            r matches Err(e) ==> e == QualityError::InvalidInput,
    {
        if reference.degenerate() {
            return Err(QualityError::InvalidInput);
        }
        Ok(QualitySSIM { reference, quality_map: None })
    }

    /// One-shot SSIM between `reference` and `cmp`.  On success the SSIM
    /// map is written to `quality_map`; on failure the out parameter is
    /// untouched.
    pub fn compute(reference: &Image, cmp: &Image, quality_map: &mut Option<Image>) -> (r: Result<
        Vec<Ratio>,
        QualityError,
    >)
        requires
            reference.valid(),
            cmp.valid(),
        ensures
            r is Ok <==> (!reference.is_degenerate() && reference.same_shape(*cmp)),
            r matches Ok(s) ==> ssim_scores_ok(*reference, *cmp, s@),
            r is Ok ==> ((*final(quality_map)) matches Some(m) && ssim_map_ok(*reference, *cmp, m)),
            r is Err ==> *final(quality_map) == *old(quality_map),
            r matches Err(e) ==> (e == QualityError::InvalidInput <==> reference.is_degenerate())
                && (e == QualityError::InvalidInput || e == QualityError::DimensionMismatch),
    {
        if reference.degenerate() {
            return Err(QualityError::InvalidInput);
        }
        if !reference.shape_eq(cmp) {
            return Err(QualityError::DimensionMismatch);
        }
        let (scores, map) = ssim_core(reference, cmp);
        *quality_map = Some(map);
        Ok(scores)
    }
}

/// With both windows equal, both SSIM factors are exactly 1 and the value
/// is exactly `SSIM_SCALE`.
proof fn lemma_ssim_from_sums_self(sa: int, saa: int, w: int)
    requires
        w >= 121,
        sa * sa <= w * saa,
    ensures
        ssim_from_sums(sa, sa, saa, saa, saa, w) == SSIM_SCALE,
{
    let paa = sa * sa;
    let ww = w * w;
    let a1 = 2 * paa * (SSIM_CD as int) + (SSIM_C1 as int) * ww;
    let b1 = (paa + paa) * (SSIM_CD as int) + (SSIM_C1 as int) * ww;
    assert(2 * paa == paa + paa);
    let t = w * saa - paa;
    let a2 = 2 * t * (SSIM_CD as int) + (SSIM_C2 as int) * ww;
    let b2 = (t + t) * (SSIM_CD as int) + (SSIM_C2 as int) * ww;
    assert(a1 == b1 && a2 == b2);
    assert(b1 > 0 && b2 > 0) by (nonlinear_arith)
        requires
            b1 == (paa + paa) * (SSIM_CD as int) + (SSIM_C1 as int) * ww,
            b2 == (t + t) * (SSIM_CD as int) + (SSIM_C2 as int) * ww,
            paa == sa * sa,
            t >= 0,
            ww == w * w,
            w >= 121,
            SSIM_CD == 400,
            SSIM_C1 == 2601,
            SSIM_C2 == 23409,
    ;
    lemma_div_multiples_vanish(SSIM_S as int, b1);
    lemma_div_multiples_vanish(SSIM_S as int, b2);
    assert((b1 * (SSIM_S as int)) / b1 == SSIM_S as int);
    assert((b2 * (SSIM_S as int)) / b2 == SSIM_S as int);
    let s2 = (SSIM_S as int) * (SSIM_S as int);
    assert(s2 > 0);
    lemma_div_multiples_vanish(SSIM_SCALE as int, s2);
    assert((SSIM_S as int) * (SSIM_S as int) * (SSIM_SCALE as int) == s2 * (SSIM_SCALE as int))
        by (nonlinear_arith)
        requires
            s2 == (SSIM_S as int) * (SSIM_S as int),
    ;
    assert((s2 * (SSIM_SCALE as int)) / s2 == SSIM_SCALE as int);
    assert(clamp_i(SSIM_SCALE as int, -(SSIM_SCALE as int), SSIM_SCALE as int) == SSIM_SCALE
        as int);
}

/// For every image, the SSIM against itself is exactly 1 on every channel:
/// each entry of the quality map is `SSIM_SCALE`, so every score ratio has
/// equal numerator and denominator.
pub proof fn lemma_ssim_identity(img: Image, s: Seq<Ratio>)
    requires
        ssim_scores_ok(img, img, s),
    ensures
        forall|ch: int| 0 <= ch < img.channels ==> (#[trigger] s[ch]).num == s[ch].den,
{
    let n = (img.width * img.height) as nat;
    assert forall|ch: int| 0 <= ch < img.channels implies (#[trigger] s[ch]).num == s[ch].den by {
        let ss = ssim_seq(img, img, ch);
        assert forall|p: int| 0 <= p < n implies #[trigger] ss[p] == SSIM_SCALE as int by {
            let y = p / (img.width as int);
            let x = p % (img.width as int);
            let wa = win_seq(img, ch, y, x);
            let k = kernel_seq();
            lemma_kernel_bounds();
            lemma_cs_weighted(k, wa, 121);
            lemma_ssim_from_sums_self(wsum(k, wa, 121), wsum2(k, wa, wa, 121), sum(k, 121));
        }
        lemma_sum_const(ss, n, SSIM_SCALE as int);
        assert(sum(ss, n) == n * (SSIM_SCALE as int));
        assert((img.width * img.height) * (SSIM_SCALE as int) == n * (SSIM_SCALE as int));
    }
}

/// `clear` keeps the persistent state: the cleared metric has the same
/// reference image and the same soundness, only the map is gone.
pub proof fn lemma_ssim_clear_keeps_reference(m: QualitySSIM)
    ensures
        m.cleared().reference_view() == m.reference_view(),
        
        m.cleared().inv() == m.inv(),
        m.cleared().ready() == m.ready(),
        m.cleared().map_view() is None,
{
}

} // verus!
