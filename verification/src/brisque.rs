//! No-reference BRISQUE metric: natural-scene statistics plus a linear
//! regressor.
//!
//! The image is reduced to grayscale, locally contrast-normalised (MSCN)
//! with a 7x7 integer-quantised Gaussian, and the moment statistics of the
//! MSCN map and of its four shifted pairwise-product maps give 18 features;
//! the same at half resolution doubles them to 36.  Each feature is mapped
//! into `[-1, 1]` fixed point by the model's range table and fed to a
//! linear regressor.  All steps are exact integer arithmetic at documented
//! scales; the score is an exact rational.

use vstd::prelude::*;
use vstd::arithmetic::div_mod::{
    lemma_fundamental_div_mod,
    lemma_div_multiples_vanish,
    lemma_div_is_ordered,
    lemma_div_pos_is_pos,
    lemma_mod_bound,
};
use crate::base::QualityBase;
use crate::image::{Image, MAX_SAMPLE, pix_at};
use crate::num::{
    clamp_idx,
    clamp_i,
    abs_i,
    sum,
    sum_abs,
    sum_sq,
    sum_sq_neg,
    cnt_neg,
    wsum,
    wsum2,
    sqrt_floor,
    lemma_cs_weighted,
    lemma_cs_abs,
    lemma_sum_bounds,
    lemma_wsum_bounds,
    lemma_wsum2_bounds,
    lemma_stats_bounds,
    isqrt_u128,
    floor_div_i128,
    clamp_i128,
    clamp_coord,
};
use crate::types::{QualityError, Ratio};

verus! {

/// Fixed-point unit of MSCN coefficients: `MSCN_SCALE` means 1.0.
pub const MSCN_SCALE: i64 = 1024;

/// MSCN coefficients are clamped to `[-4, 4]` in scale units.
pub const MSCN_LIMIT: i64 = 4096;

/// Fixed-point unit of the 36 features and of the normalised features.
pub const FEAT_SCALE: i64 = 1_000_000;

/// Fixed-point unit of the regressor weights: a stored weight `w` means
/// the real coefficient `w / WEIGHT_SCALE`.
pub const WEIGHT_SCALE: i64 = 1_000_000;

/// Largest magnitude accepted for a regressor weight or bias.
pub const WEIGHT_LIMIT: i64 = 0x100_0000_0000;

/// Largest magnitude accepted for a range-table entry.
pub const RANGE_LIMIT: i64 = 0x100_0000_0000;

/// A single-channel working plane: row-major samples in `[0, MAX_SAMPLE]`.
pub open spec fn plane_ok(s: Seq<int>, w: int, h: int) -> bool {
    &&& s.len() == w * h
    &&& 1 <= w
    &&& 1 <= h
    &&& w * h <= 0x1000_0000
    &&& forall|i: int| 0 <= i < s.len() ==> 0 <= #[trigger] s[i] <= MAX_SAMPLE
}

/// Sample of a plane at `(y, x)` with replicated borders.
pub open spec fn plane_px(s: Seq<int>, w: int, h: int, y: int, x: int) -> int {
    s[clamp_idx(y, h) * w + clamp_idx(x, w)]
}

/// Grayscale value of pixel `p`: the single channel itself, the mean of
/// two channels, or the usual integer luma weights over the first three.
pub open spec fn gray_of(img: Image, p: int) -> int {
    let c = img.channels as int;
    if c == 1 {
        pix_at(img.data@, c, p, 0)
    } else if c == 2 {
        (pix_at(img.data@, c, p, 0) + pix_at(img.data@, c, p, 1)) / 2
    } else {
        (77 * pix_at(img.data@, c, p, 0) + 150 * pix_at(img.data@, c, p, 1) + 29 * pix_at(
            img.data@,
            c,
            p,
            2,
        )) / 256
    }
}

/// The grayscale plane of an image.
pub open spec fn gray_seq(img: Image) -> Seq<int> {
    Seq::new((img.width * img.height) as nat, |p: int| gray_of(img, p))
}

/// Half-resolution plane (ceiling halving, 2x2 block average with
/// replicated borders).
pub open spec fn half_seq(s: Seq<int>, w: int, h: int) -> Seq<int> {
    let w2 = (w + 1) / 2;
    let h2 = (h + 1) / 2;
    Seq::new(
        (w2 * h2) as nat,
        |q: int|
            {
                let yy = 2 * (q / w2);
                let xx = 2 * (q % w2);
                (plane_px(s, w, h, yy, xx) + plane_px(s, w, h, yy, xx + 1) + plane_px(
                    s,
                    w,
                    h,
                    yy + 1,
                    xx,
                ) + plane_px(s, w, h, yy + 1, xx + 1)) / 4
            },
    )
}

/// One half of the 7x7 quantised Gaussian used for local normalisation.
pub open spec fn bgauss_w(d: int) -> int {
    if d == 0 {
        256
    } else if d == 1 || d == -1 {
        177
    } else if d == 2 || d == -2 {
        59
    } else if d == 3 || d == -3 {
        9
    } else {
        0
    }
}

/// The 49 window weights in row-major order.
pub open spec fn bkernel_seq() -> Seq<int> {
    Seq::new(49, |t: int| bgauss_w(t / 7 - 3) * bgauss_w(t % 7 - 3))
}

/// The 7x7 window of plane samples around `(y, x)`, borders replicated.
pub open spec fn bwin_seq(s: Seq<int>, w: int, h: int, y: int, x: int) -> Seq<int> {
    Seq::new(49, |t: int| plane_px(s, w, h, y + t / 7 - 3, x + t % 7 - 3))
}

/// The MSCN coefficient at `(y, x)` in [`MSCN_SCALE`] units, clamped to
/// `[-MSCN_LIMIT, MSCN_LIMIT]`: the sample minus the local weighted mean,
/// over the local weighted standard deviation plus one.
pub open spec fn mscn_at(s: Seq<int>, w: int, h: int, y: int, x: int) -> int {
    let k = bkernel_seq();
    let wv = bwin_seq(s, w, h, y, x);
    let kt = sum(k, 49);
    let ws = wsum(k, wv, 49);
    let wq = wsum2(k, wv, wv, 49);
    let var = kt * wq - ws * ws;
    let sigma = sqrt_floor(var as nat) as int;
    clamp_i(
        ((MSCN_SCALE as int) * (plane_px(s, w, h, y, x) * kt - ws)) / (sigma + kt),
        -(MSCN_LIMIT as int),
        MSCN_LIMIT as int,
    )
}

/// The MSCN map of a plane, row-major.
pub open spec fn mscn_seq(s: Seq<int>, w: int, h: int) -> Seq<int> {
    Seq::new((w * h) as nat, |p: int| mscn_at(s, w, h, p / w, p % w))
}

/// Executable grayscale reduction.
fn to_gray(img: &Image) -> (r: Vec<i64>)
    requires
        img.valid(),
        !img.is_degenerate(),
    ensures
        r@.len() == img.width * img.height,
        forall|p: int| 0 <= p < r@.len() ==> #[trigger] r@[p] == gray_seq(*img)[p],
        plane_ok(
            Seq::new(r@.len() as nat, |p: int| r@[p] as int),
            img.width as int,
            img.height as int,
        ),
{
    proof {
        assert(img.width * img.height <= img.data.len() && img.width * img.height <= 0x1000_0000)
            by (nonlinear_arith)
            requires
                img.data.len() == img.width * img.height * img.channels,
                img.width * img.height * img.channels <= 0x1000_0000,
                img.channels >= 1,
                img.width >= 0,
                img.height >= 0,
        ;
    }
    let npx: usize = img.width * img.height;
    let c: usize = img.channels;
    let mut out: Vec<i64> = Vec::new();
    let mut p: usize = 0;
    while p < npx
        invariant
            img.valid(),
            !img.is_degenerate(),
            npx == img.width * img.height,
            npx <= 0x1000_0000,
            c == img.channels,
            p <= npx,
            out@.len() == p,
            forall|q: int| 0 <= q < p ==> #[trigger] out@[q] == gray_seq(*img)[q],
            forall|q: int| 0 <= q < p ==> 0 <= #[trigger] out@[q] <= MAX_SAMPLE,
        decreases npx - p,
    {
        proof {
            crate::image::lemma_flat_index_bound(img, p as int, 0);
            if c >= 2 {
                crate::image::lemma_flat_index_bound(img, p as int, 1);
            }
            if c >= 3 {
                crate::image::lemma_flat_index_bound(img, p as int, 2);
            }
        }
        let g: i64 = if c == 1 {
            proof {
                assert((p as int) * (c as int) == p as int) by (nonlinear_arith)
                    requires
                        c == 1,
                ;
            }
            img.data[p]
        } else if c == 2 {
            let v0: i64 = img.data[p * c];
            let v1: i64 = img.data[p * c + 1];
            assert(0 <= img.data[p * c] <= MAX_SAMPLE && 0 <= img.data[p * c + 1] <= MAX_SAMPLE);
            let tv: u64 = (v0 as u64) + (v1 as u64);
            proof {
                lemma_div_pos_is_pos(tv as int, 2);
                lemma_div_is_ordered(tv as int, 2 * MAX_SAMPLE, 2);
                lemma_div_multiples_vanish(MAX_SAMPLE as int, 2);
                assert((2 * MAX_SAMPLE) / 2 == MAX_SAMPLE);
            }
            (tv / 2) as i64
        } else {
            let v0: i64 = img.data[p * c];
            let v1: i64 = img.data[p * c + 1];
            let v2: i64 = img.data[p * c + 2];
            assert(0 <= img.data[p * c] <= MAX_SAMPLE && 0 <= img.data[p * c + 1] <= MAX_SAMPLE
                && 0 <= img.data[p * c + 2] <= MAX_SAMPLE);
            let tv: u64 = 77 * (v0 as u64) + 150 * (v1 as u64) + 29 * (v2 as u64);
            proof {
                lemma_div_pos_is_pos(tv as int, 256);
                lemma_div_is_ordered(tv as int, 256 * MAX_SAMPLE, 256);
                lemma_div_multiples_vanish(MAX_SAMPLE as int, 256);
                assert((256 * MAX_SAMPLE) / 256 == MAX_SAMPLE);
            }
            (tv / 256) as i64
        };
        proof {
            assert(gray_seq(*img)[p as int] == gray_of(*img, p as int));
            assert(g == gray_of(*img, p as int));
            assert(0 <= g <= MAX_SAMPLE);
        }
        out.push(g);
        p += 1;
    }
    proof {
        let view = Seq::new(out@.len() as nat, |p: int| out@[p] as int);
        assert forall|i: int| 0 <= i < view.len() implies 0 <= #[trigger] view[i] <= MAX_SAMPLE by {
            assert(view[i] == out@[i] as int);
        }
    }
    out
}

/// The integer view of a `Vec<i64>` plane.
pub open spec fn plane_view(v: Seq<i64>) -> Seq<int> {
    Seq::new(v.len() as nat, |p: int| v[p] as int)
}

/// Executable replicated-border plane read.
fn plane_at(g: &Vec<i64>, w: usize, h: usize, y: usize, x: usize, dy: i64, dx: i64) -> (r: i64)
    requires
        plane_ok(plane_view(g@), w as int, h as int),
        y < h,
        x < w,
        -16 <= dy <= 16,
        -16 <= dx <= 16,
    ensures
        r == plane_px(plane_view(g@), w as int, h as int, y + dy, x + dx),
        0 <= r <= MAX_SAMPLE,
{
    proof {
        assert(w <= 0x1000_0000 && h <= 0x1000_0000) by (nonlinear_arith)
            requires
                (w as int) * (h as int) <= 0x1000_0000,
                w >= 1,
                h >= 1,
        ;
    }
    let yy: usize = clamp_coord(y, dy, h);
    let xx: usize = clamp_coord(x, dx, w);
    proof {
        assert(0 <= (yy as int) * (w as int) + xx < (w as int) * (h as int)) by (nonlinear_arith)
            requires
                0 <= yy < h,
                0 <= xx < w,
        ;
    }
    let i: usize = yy * w + xx;
    let r: i64 = g[i];
    proof {
        assert(plane_view(g@)[i as int] == r);
    }
    r
}

/// Executable ceiling-halving downscale by 2x2 block averages.
fn half_plane(g: &Vec<i64>, w: usize, h: usize) -> (r: (Vec<i64>, usize, usize))
    requires
        plane_ok(plane_view(g@), w as int, h as int),
    ensures
        r.1 == (w + 1) / 2,
        r.2 == (h + 1) / 2,
        r.0@.len() == r.1 * r.2,
        forall|q: int|
            0 <= q < r.0@.len() ==> #[trigger] r.0@[q] == half_seq(
                plane_view(g@),
                w as int,
                h as int,
            )[q],
        plane_ok(plane_view(r.0@), r.1 as int, r.2 as int),
{
    let ghost gs = plane_view(g@);
    proof {
        assert(w <= 0x1000_0000 && h <= 0x1000_0000) by (nonlinear_arith)
            requires
                (w as int) * (h as int) <= 0x1000_0000,
                w >= 1,
                h >= 1,
        ;
    }
    let w2: usize = (w + 1) / 2;
    let h2: usize = (h + 1) / 2;
    proof {
        assert(1 <= w2 && 1 <= h2 && (w2 as int) * (h2 as int) <= (w as int) * (h as int))
            by (nonlinear_arith)
            requires
                w2 == (w + 1) / 2 && h2 == (h + 1) / 2 && w >= 1 && h >= 1 && w2 == ((w
                    + 1) as int) / 2 && h2 == ((h + 1) as int) / 2,
        ;
    }
    let n2: usize = w2 * h2;
    let mut out: Vec<i64> = Vec::new();
    let mut q: usize = 0;
    while q < n2
        invariant
            plane_ok(gs, w as int, h as int),
            gs == plane_view(g@),
            w2 == (w + 1) / 2,
            h2 == (h + 1) / 2,
            1 <= w2,
            1 <= h2,
            n2 == w2 * h2,
            n2 <= 0x1000_0000,
            q <= n2,
            out@.len() == q,
            forall|j: int| 0 <= j < q ==> #[trigger] out@[j] == half_seq(gs, w as int, h as int)[j],
            forall|j: int| 0 <= j < q ==> 0 <= #[trigger] out@[j] <= MAX_SAMPLE,
        decreases n2 - q,
    {
        let yy: usize = q / w2;
        let xx: usize = q % w2;
        proof {
            lemma_fundamental_div_mod(q as int, w2 as int);
            lemma_mod_bound(q as int, w2 as int);
            assert(yy < h2) by (nonlinear_arith)
                requires
                    q as int == (w2 as int) * (yy as int) + (xx as int),
                    0 <= xx < w2,
                    q < n2,
                    n2 == w2 * h2,
            ;
            assert(2 * yy < 2 * h2 && 2 * xx < 2 * w2 && 2 * h2 <= h + 1 && 2 * w2 <= w + 1)
                by (nonlinear_arith)
                requires
                    yy < h2,
                    xx < w2,
                    w2 == ((w + 1) as int) / 2,
                    h2 == ((h + 1) as int) / 2,
                    (w2 as int) * 2 - 1 <= w,
                    (h2 as int) * 2 - 1 <= h,
            ;
        }
        let sy: usize = 2 * yy;
        let sx: usize = 2 * xx;
        // The top-left corner of the block is always inside the plane.
        let p00: i64 = plane_at(g, w, h, sy, sx, 0, 0);
        let p01: i64 = plane_at(g, w, h, sy, sx, 0, 1);
        let p10: i64 = plane_at(g, w, h, sy, sx, 1, 0);
        let p11: i64 = plane_at(g, w, h, sy, sx, 1, 1);
        let v: i64 = (((p00 as u64) + (p01 as u64) + (p10 as u64) + (p11 as u64)) / 4) as i64;
        proof {
            let hs = half_seq(gs, w as int, h as int);
            assert(clamp_idx(sy as int, h as int) == sy as int && clamp_idx(sx as int, w as int)
                == sx as int);
            assert(hs[q as int] == (plane_px(gs, w as int, h as int, sy as int, sx as int)
                + plane_px(gs, w as int, h as int, sy as int, sx as int + 1) + plane_px(
                gs,
                w as int,
                h as int,
                sy as int + 1,
                sx as int,
            ) + plane_px(gs, w as int, h as int, sy as int + 1, sx as int + 1)) / 4);
        }
        out.push(v);
        q += 1;
    }
    proof {
        assert forall|i: int| 0 <= i < plane_view(out@).len() implies 0 <= #[trigger] plane_view(
            out@,
        )[i] <= MAX_SAMPLE by {
            assert(plane_view(out@)[i] == out@[i] as int);
        }
    }
    (out, w2, h2)
}

/// The 1-D normalisation weight `bgauss_w(i - 3)` for a tap `0 <= i < 7`.
fn bgauss_at(i: usize) -> (r: i64)
    requires
        i < 7,
    ensures
        r == bgauss_w(i as int - 3),
        1 <= r <= 256,
{
    if i == 0 || i == 6 {
        9
    } else if i == 1 || i == 5 {
        59
    } else if i == 2 || i == 4 {
        177
    } else {
        256
    }
}

/// Builds the executable 7x7 weights, tap-aligned with [`bkernel_seq`].
fn build_bkernel() -> (r: (Vec<i64>, i128))
    ensures
        r.0@.len() == 49,
        forall|t: int| 0 <= t < 49 ==> #[trigger] r.0@[t] == bkernel_seq()[t],
        r.1 == sum(bkernel_seq(), 49),
        49 <= r.1 <= 49 * 65536,
{
    let mut k: Vec<i64> = Vec::new();
    let mut total: i128 = 0;
    let mut t: usize = 0;
    while t < 49
        invariant
            k@.len() == t,
            t <= 49,
            forall|j: int| 0 <= j < t ==> #[trigger] k@[j] == bkernel_seq()[j],
            total == sum(bkernel_seq(), t as nat),
            t <= total <= t * 65536,
        decreases 49 - t,
    {
        let i: usize = t / 7;
        let j: usize = t % 7;
        let wi: i64 = bgauss_at(i);
        let wj: i64 = bgauss_at(j);
        proof {
            assert(1 <= (wi as int) * (wj as int) <= 65536) by (nonlinear_arith)
                requires
                    1 <= wi <= 256,
                    1 <= wj <= 256,
            ;
            assert(bkernel_seq()[t as int] == bgauss_w(t as int / 7 - 3) * bgauss_w(
                t as int % 7 - 3,
            ));
            assert((t + 1) * 65536 == t * 65536 + 65536) by (nonlinear_arith);
        }
        let wv: i64 = wi * wj;
        k.push(wv);
        total = total + wv as i128;
        t += 1;
    }
    (k, total)
}

/// Every 7x7 weight is in `[1, 65536]`.
proof fn lemma_bkernel_bounds()
    ensures
        forall|t: int| 0 <= t < 49 ==> 1 <= #[trigger] bkernel_seq()[t] <= 65536,
        49 <= sum(bkernel_seq(), 49) <= 49 * 65536,
{
    assert forall|t: int| 0 <= t < 49 implies 1 <= #[trigger] bkernel_seq()[t] <= 65536 by {
        lemma_mod_bound(t, 7);
        lemma_fundamental_div_mod(t, 7);
        assert(0 <= t / 7 <= 6) by (nonlinear_arith)
            requires
                t == 7 * (t / 7) + t % 7,
                0 <= t % 7 < 7,
                0 <= t < 49,
        ;
        assert(1 <= bgauss_w(t / 7 - 3) * bgauss_w(t % 7 - 3) <= 65536) by (nonlinear_arith)
            requires
                1 <= bgauss_w(t / 7 - 3) <= 256,
                1 <= bgauss_w(t % 7 - 3) <= 256,
        ;
    }
    lemma_sum_bounds(bkernel_seq(), 49, 1, 65536);
}

/// Window samples of a well-formed plane lie in `[0, MAX_SAMPLE]`.
proof fn lemma_bwin_bounds(s: Seq<int>, w: int, h: int, y: int, x: int)
    requires
        plane_ok(s, w, h),
    ensures
        forall|t: int| 0 <= t < 49 ==> 0 <= #[trigger] bwin_seq(s, w, h, y, x)[t] <= MAX_SAMPLE,
{
    assert forall|t: int| 0 <= t < 49 implies 0 <= #[trigger] bwin_seq(s, w, h, y, x)[t]
        <= MAX_SAMPLE by {
        let yy = clamp_idx(y + t / 7 - 3, h);
        let xx = clamp_idx(x + t % 7 - 3, w);
        assert(0 <= yy < h && 0 <= xx < w);
        assert(0 <= yy * w + xx < w * h) by (nonlinear_arith)
            requires
                0 <= yy < h,
                0 <= xx < w,
        ;
        assert(bwin_seq(s, w, h, y, x)[t] == s[yy * w + xx]);
    }
}

/// Executable MSCN map of a plane.
#[verifier::rlimit(50)]
fn mscn_plane(g: &Vec<i64>, w: usize, h: usize) -> (r: Vec<i64>)
    requires
        plane_ok(plane_view(g@), w as int, h as int),
    ensures
        r@.len() == w * h,
        forall|p: int|
            0 <= p < r@.len() ==> #[trigger] r@[p] == mscn_seq(plane_view(g@), w as int, h as int)[p],
        forall|p: int| 0 <= p < r@.len() ==> -MSCN_LIMIT <= #[trigger] r@[p] <= MSCN_LIMIT,
{
    let ghost gs = plane_view(g@);
    let (kern, ktotal) = build_bkernel();
    let npx: usize = w * h;
    let mut out: Vec<i64> = Vec::new();
    let mut p: usize = 0;
    while p < npx
        invariant
            plane_ok(gs, w as int, h as int),
            gs == plane_view(g@),
            npx == w * h,
            npx <= 0x1000_0000,
            p <= npx,
            kern@.len() == 49,
            forall|t: int| 0 <= t < 49 ==> #[trigger] kern@[t] == bkernel_seq()[t],
            ktotal == sum(bkernel_seq(), 49),
            49 <= ktotal <= 49 * 65536,
            out@.len() == p,
            forall|j: int| 0 <= j < p ==> #[trigger] out@[j] == mscn_seq(gs, w as int, h as int)[j],
            forall|j: int| 0 <= j < p ==> -MSCN_LIMIT <= #[trigger] out@[j] <= MSCN_LIMIT,
        decreases npx - p,
    {
        let y: usize = p / w;
        let x: usize = p % w;
        proof {
            lemma_fundamental_div_mod(p as int, w as int);
            lemma_mod_bound(p as int, w as int);
            assert(y < h) by (nonlinear_arith)
                requires
                    p as int == (w as int) * (y as int) + (x as int),
                    0 <= x < w,
                    p < npx,
                    npx == w * h,
            ;
        }
        let ghost wv = bwin_seq(gs, w as int, h as int, y as int, x as int);
        let ghost ks = bkernel_seq();
        let mut ws: i128 = 0;
        let mut wq: i128 = 0;
        let mut t: usize = 0;
        while t < 49
            invariant
                plane_ok(gs, w as int, h as int),
                gs == plane_view(g@),
                y < h,
                x < w,
                kern@.len() == 49,
                forall|j: int| 0 <= j < 49 ==> #[trigger] kern@[j] == bkernel_seq()[j],
                wv == bwin_seq(gs, w as int, h as int, y as int, x as int),
                ks == bkernel_seq(),
                t <= 49,
                ws == wsum(ks, wv, t as nat),
                wq == wsum2(ks, wv, wv, t as nat),
                0 <= ws <= t * (65536 * MAX_SAMPLE),
                0 <= wq <= t * (65536 * (MAX_SAMPLE * MAX_SAMPLE)),
            decreases 49 - t,
        {
            let dy: i64 = (t / 7) as i64 - 3;
            let dx: i64 = (t % 7) as i64 - 3;
            let v: i64 = plane_at(g, w, h, y, x, dy, dx);
            let kw: i64 = kern[t];
            proof {
                lemma_bkernel_bounds();
                assert(wv[t as int] == v);
                let kk = ks[t as int];
                assert(0 <= kk * (v as int) <= 65536 * MAX_SAMPLE && 0 <= kk * (v as int) * (
                v as int) <= 65536 * (MAX_SAMPLE * MAX_SAMPLE)) by (nonlinear_arith)
                    requires
                        1 <= kk <= 65536,
                        0 <= (v as int) <= MAX_SAMPLE,
                ;
                assert((t + 1) * (65536 * MAX_SAMPLE) == t * (65536 * MAX_SAMPLE) + 65536
                    * MAX_SAMPLE) by (nonlinear_arith);
                assert((t + 1) * (65536 * (MAX_SAMPLE * MAX_SAMPLE)) == t * (65536 * (MAX_SAMPLE
                    * MAX_SAMPLE)) + 65536 * (MAX_SAMPLE * MAX_SAMPLE)) by (nonlinear_arith);
                assert(0 <= t * (65536 * MAX_SAMPLE) <= 49 * (65536 * MAX_SAMPLE) && 0 <= t * (
                65536 * (MAX_SAMPLE * MAX_SAMPLE)) <= 49 * (65536 * (MAX_SAMPLE * MAX_SAMPLE)))
                    by (nonlinear_arith)
                    requires
                        0 <= t <= 49,
                        MAX_SAMPLE == 4095,
                ;
            }
            let kwi: i128 = kw as i128;
            proof {
                assert(kwi == ks[t as int]);
            }
            ws = ws + kwi * (v as i128);
            wq = wq + kwi * (v as i128) * (v as i128);
            t += 1;
        }
        proof {
            lemma_bkernel_bounds();
            lemma_cs_weighted(ks, wv, 49);
            assert(0 <= ktotal * wq - ws * ws && ktotal * wq <= (49 * 65536) * (49 * (65536 * (
            MAX_SAMPLE * MAX_SAMPLE)))) by (nonlinear_arith)
                requires
                    ws * ws <= ktotal * wq,
                    0 <= wq <= 49 * (65536 * (MAX_SAMPLE * MAX_SAMPLE)),
                    49 <= ktotal <= 49 * 65536,
                    MAX_SAMPLE == 4095,
            ;
        }
        let var: i128 = ktotal * wq - ws * ws;
        let sigma: u128 = isqrt_u128(var as u128);
        proof {
            if sigma >= 0x1_0000_0000_0000 {
                assert((sigma as int) * (sigma as int) >= 0x1_0000_0000_0000 * 0x1_0000_0000_0000)
                    by (nonlinear_arith)
                    requires
                        sigma >= 0x1_0000_0000_0000,
                ;
                assert(var < 0x1_0000_0000_0000 * 0x1_0000_0000_0000) by (nonlinear_arith)
                    requires
                        0 <= var <= (49 * 65536) * (49 * (65536 * (MAX_SAMPLE * MAX_SAMPLE))),
                        MAX_SAMPLE == 4095,
                ;
            }
        }
        let centre: i64 = plane_at(g, w, h, y, x, 0, 0);
        proof {
            assert(clamp_idx(y as int, h as int) == y as int && clamp_idx(x as int, w as int)
                == x as int);
            assert(-(65536 * MAX_SAMPLE) * 49 <= (centre as int) * ktotal - ws <= (65536
                * MAX_SAMPLE) * 49) by (nonlinear_arith)
                requires
                    0 <= (centre as int) <= MAX_SAMPLE,
                    49 <= ktotal <= 49 * 65536,
                    0 <= ws <= 49 * (65536 * MAX_SAMPLE),
                    MAX_SAMPLE == 4095,
            ;
            assert(abs_i((MSCN_SCALE as int) * ((centre as int) * ktotal - ws)) <= 1024 * ((65536
                * MAX_SAMPLE) * 49)) by (nonlinear_arith)
                requires
                    -(65536 * MAX_SAMPLE) * 49 <= (centre as int) * ktotal - ws <= (65536
                        * MAX_SAMPLE) * 49,
                    MSCN_SCALE == 1024,
            ;
        }
        let num: i128 = (MSCN_SCALE as i128) * ((centre as i128) * ktotal - ws);
        let den: i128 = (sigma as i128) + ktotal;
        let m: i128 = floor_div_i128(num, den);
        let mv: i64 = clamp_i128(m, -(MSCN_LIMIT as i128), MSCN_LIMIT as i128) as i64;
        proof {
            assert(mscn_seq(gs, w as int, h as int)[p as int] == mscn_at(
                gs,
                w as int,
                h as int,
                p as int / w as int,
                p as int % w as int,
            ));
            assert(mv == mscn_at(gs, w as int, h as int, y as int, x as int));
        }
        out.push(mv);
        p += 1;
    }
    out
}

/// Pairwise products of the MSCN map with its shift by `(dy, dx)`, over the
/// positions where both factors exist, row-major.
pub open spec fn prod_seq(m: Seq<int>, w: int, h: int, dy: int, dx: int) -> Seq<int> {
    let x0 = if dx < 0 {
        -dx
    } else {
        0
    };
    let nx = w - abs_i(dx);
    let ny = h - dy;
    Seq::new(
        (ny * nx) as nat,
        |t: int|
            {
                let yy = t / nx;
                let xx = x0 + t % nx;
                m[yy * w + xx] * m[(yy + dy) * w + (xx + dx)]
            },
    )
}

/// Shape proxy of a map from its absolute and square sums: the moment
/// ratio `(mean |v|)^2 / mean(v^2)` in [`FEAT_SCALE`] units (zero for an
/// all-zero or empty map).
pub open spec fn shape_of(a: int, q: int, n: int) -> int {
    if q == 0 {
        0
    } else {
        (a * a * (FEAT_SCALE as int)) / (n * q)
    }
}

/// Mean of a map whose entries carry the squared scale `sc`, in
/// [`FEAT_SCALE`] units.
pub open spec fn mean_of(s: int, n: int, sc: int) -> int {
    if n == 0 {
        0
    } else {
        ((FEAT_SCALE as int) * s) / (n * sc)
    }
}

/// Mean square of the negative (or positive) side of a map: `qs` is the
/// side's square sum, `cs` how many entries the side holds, `sc` the scale
/// of the squares.
pub open spec fn side_var_of(qs: int, cs: int, sc: int) -> int {
    if cs == 0 {
        0
    } else {
        ((FEAT_SCALE as int) * qs) / (cs * sc)
    }
}

/// The four moment features of one shifted-product map.
pub open spec fn pair_feats(m: Seq<int>, w: int, h: int, dy: int, dx: int) -> Seq<int> {
    let p = prod_seq(m, w, h, dy, dx);
    let kn = p.len() as nat;
    let k = p.len() as int;
    let sc2 = (MSCN_SCALE * MSCN_SCALE) as int;
    let sc4 = sc2 * sc2;
    seq![
        shape_of(sum_abs(p, kn), sum_sq(p, kn), k),
        mean_of(sum(p, kn), k, sc2),
        side_var_of(sum_sq_neg(p, kn), cnt_neg(p, kn), sc4),
        side_var_of(sum_sq(p, kn) - sum_sq_neg(p, kn), k - cnt_neg(p, kn), sc4),
    ]
}

/// The 18 features of one scale: shape and variance of the MSCN map, then
/// four features for each of the four shifted-product maps (horizontal,
/// vertical and the two diagonals).
pub open spec fn scale_feats(s: Seq<int>, w: int, h: int) -> Seq<int> {
    let m = mscn_seq(s, w, h);
    let n = (w * h) as nat;
    let sc2 = (MSCN_SCALE * MSCN_SCALE) as int;
    seq![
        shape_of(sum_abs(m, n), sum_sq(m, n), n as int),
        side_var_of(sum_sq(m, n), n as int, sc2),
    ] + pair_feats(m, w, h, 0, 1) + pair_feats(m, w, h, 1, 0) + pair_feats(m, w, h, 1, 1)
        + pair_feats(m, w, h, 1, -1)
}

/// The full 36-entry feature vector: the 18 features at native resolution
/// followed by the 18 features at half resolution.
pub open spec fn brisque_feats(img: Image) -> Seq<int> {
    let g = gray_seq(img);
    let w = img.width as int;
    let h = img.height as int;
    scale_feats(g, w, h) + scale_feats(half_seq(g, w, h), (w + 1) / 2, (h + 1) / 2)
}

/// Executable shifted-product map.
fn prod_plane(m: &Vec<i64>, w: usize, h: usize, dy: usize, dx: i64) -> (r: Vec<i64>)
    requires
        m@.len() == w * h,
        1 <= w,
        1 <= h,
        w * h <= 0x1000_0000,
        forall|i: int| 0 <= i < m@.len() ==> -MSCN_LIMIT <= #[trigger] m@[i] <= MSCN_LIMIT,
        dy <= 1,
        -1 <= dx <= 1,
    ensures
        r@.len() == prod_seq(plane_view(m@), w as int, h as int, dy as int, dx as int).len(),
        forall|t: int|
            0 <= t < r@.len() ==> #[trigger] r@[t] == prod_seq(
                plane_view(m@),
                w as int,
                h as int,
                dy as int,
                dx as int,
            )[t],
        forall|t: int|
            0 <= t < r@.len() ==> -(MSCN_LIMIT * MSCN_LIMIT) <= #[trigger] r@[t] <= MSCN_LIMIT
                * MSCN_LIMIT,
        r@.len() <= w * h,
{
    let ghost ms = plane_view(m@);
    proof {
        assert(w <= 0x1000_0000 && h <= 0x1000_0000) by (nonlinear_arith)
            requires
                (w as int) * (h as int) <= 0x1000_0000,
                w >= 1,
                h >= 1,
        ;
    }
    let x0: usize = if dx < 0 {
        1
    } else {
        0
    };
    let adx: usize = if dx == 0 {
        0
    } else {
        1
    };
    assert(adx as int == abs_i(dx as int));
    let mut out: Vec<i64> = Vec::new();
    if w < adx + 1 || h < dy + 1 {
        proof {
            let ps = prod_seq(ms, w as int, h as int, dy as int, dx as int);
            assert(((h as int) - dy) * ((w as int) - abs_i(dx as int)) <= 0) by (nonlinear_arith)
                requires
                    (w as int) - abs_i(dx as int) <= 0 || (h as int) - (dy as int) <= 0,
                    0 <= (w as int) - abs_i(dx as int),
                    0 <= (h as int) - (dy as int),
            ;
            assert(ps.len() == 0);
        }
        return out;
    }
    let nx: usize = w - adx;
    let ny: usize = h - dy;
    proof {
        assert(nx == (w as int) - abs_i(dx as int) && ny == (h as int) - (dy as int));
        assert(0 < (ny as int) * (nx as int) <= (w as int) * (h as int)) by (nonlinear_arith)
            requires
                1 <= nx <= w,
                1 <= ny <= h,
        ;
    }
    let total: usize = ny * nx;
    let mut t: usize = 0;
    while t < total
        invariant
            ms == plane_view(m@),
            m@.len() == w * h,
            w * h <= 0x1000_0000,
            w <= 0x1000_0000,
            h <= 0x1000_0000,
            forall|i: int| 0 <= i < m@.len() ==> -MSCN_LIMIT <= #[trigger] m@[i] <= MSCN_LIMIT,
            1 <= nx <= w,
            1 <= ny <= h,
            nx == (w as int) - abs_i(dx as int),
            ny == (h as int) - (dy as int),
            x0 == (if (dx as int) < 0 {
                -(dx as int)
            } else {
                0int
            }),
            dy <= 1,
            -1 <= dx <= 1,
            total == ny * nx,
            total <= w * h,
            t <= total,
            out@.len() == t,
            forall|j: int|
                0 <= j < t ==> #[trigger] out@[j] == prod_seq(
                    ms,
                    w as int,
                    h as int,
                    dy as int,
                    dx as int,
                )[j],
            forall|j: int|
                0 <= j < t ==> -(MSCN_LIMIT * MSCN_LIMIT) <= #[trigger] out@[j] <= MSCN_LIMIT
                    * MSCN_LIMIT,
        decreases total - t,
    {
        let yy: usize = t / nx;
        let xr: usize = t % nx;
        let xx: usize = x0 + xr;
        proof {
            lemma_fundamental_div_mod(t as int, nx as int);
            lemma_mod_bound(t as int, nx as int);
            assert(yy < ny) by (nonlinear_arith)
                requires
                    t as int == (nx as int) * (yy as int) + (xr as int),
                    0 <= xr < nx,
                    t < total,
                    total == ny * nx,
            ;
            assert(xx < w && xx + dx < w && 0 <= xx + dx && yy + dy < h);
            assert(0 <= (yy as int) * (w as int) && (yy as int) * (w as int) + xx < (w as int) * (
            h as int) && 0 <= ((yy as int) + (dy as int)) * (w as int) && ((yy as int) + (
            dy as int)) * (w as int) + ((xx as int) + (dx as int)) < (w as int) * (h as int))
                by (nonlinear_arith)
                requires
                    0 <= yy < h,
                    0 <= xx < w,
                    0 <= (yy as int) + (dy as int) < h,
                    0 <= (xx as int) + (dx as int) < w,
            ;
            assert((yy as int) * (w as int) + xx < m@.len() && ((yy as int) + (dy as int)) * (
            w as int) + ((xx as int) + (dx as int)) < m@.len());
        }
        let xx2: usize = if dx < 0 {
            xx - 1
        } else if dx > 0 {
            xx + 1
        } else {
            xx
        };
        assert(xx2 as int == xx + dx);
        let i1: usize = yy * w + xx;
        let i2: usize = (yy + dy) * w + xx2;
        let v1: i64 = m[i1];
        let v2: i64 = m[i2];
        proof {
            assert(-(MSCN_LIMIT * MSCN_LIMIT) <= (v1 as int) * (v2 as int) <= MSCN_LIMIT
                * MSCN_LIMIT) by (nonlinear_arith)
                requires
                    -MSCN_LIMIT <= (v1 as int) <= MSCN_LIMIT,
                    -MSCN_LIMIT <= (v2 as int) <= MSCN_LIMIT,
            ;
            let ps = prod_seq(ms, w as int, h as int, dy as int, dx as int);
            assert(ps[t as int] == ms[(yy as int) * (w as int) + xx] * ms[((yy as int) + (
            dy as int)) * (w as int) + ((xx as int) + (dx as int))]);
        }
        out.push(v1 * v2);
        t += 1;
    }
    out
}

/// The five moment sums of a map, in one pass.
fn map_stats(v: &Vec<i64>, bound: i64) -> (r: (i128, i128, i128, i128, i128))
    requires
        v@.len() <= 0x1000_0000,
        0 <= bound <= 0x4000_0000,
        forall|i: int| 0 <= i < v@.len() ==> abs_i(#[trigger] v@[i] as int) <= bound,
    ensures
        r.0 == sum(plane_view(v@), v@.len() as nat),
        r.1 == sum_abs(plane_view(v@), v@.len() as nat),
        r.2 == sum_sq(plane_view(v@), v@.len() as nat),
        r.3 == sum_sq_neg(plane_view(v@), v@.len() as nat),
        r.4 == cnt_neg(plane_view(v@), v@.len() as nat),
{
    let ghost vs = plane_view(v@);
    let n: usize = v.len();
    let mut s: i128 = 0;
    let mut a: i128 = 0;
    let mut q: i128 = 0;
    let mut qn: i128 = 0;
    let mut cn: i128 = 0;
    let mut i: usize = 0;
    while i < n
        invariant
            vs == plane_view(v@),
            n == v@.len(),
            n <= 0x1000_0000,
            0 <= bound <= 0x4000_0000,
            forall|j: int| 0 <= j < v@.len() ==> abs_i(#[trigger] v@[j] as int) <= bound,
            i <= n,
            s == sum(vs, i as nat),
            a == sum_abs(vs, i as nat),
            q == sum_sq(vs, i as nat),
            qn == sum_sq_neg(vs, i as nat),
            cn == cnt_neg(vs, i as nat),
        decreases n - i,
    {
        let x: i64 = v[i];
        proof {
            assert(vs[i as int] == x as int);
            assert(abs_i(v@[i as int] as int) <= bound);
            assert forall|k: int| 0 <= k < i + 1 implies abs_i(#[trigger] vs[k]) <= bound by {
                assert(abs_i(v@[k] as int) <= bound);
            }
            lemma_stats_bounds(vs, i as nat, bound as int);
            lemma_stats_bounds(vs, (i + 1) as nat, bound as int);
            assert(0 <= (x as int) * (x as int) <= (bound as int) * (bound as int))
                by (nonlinear_arith)
                requires
                    abs_i(x as int) <= bound as int,
            ;
            assert(0 <= (i + 1) * (bound as int) <= 0x1000_0000 * 0x4000_0000 && 0 <= (i + 1) * ((
            bound as int) * (bound as int)) <= 0x1000_0000 * (0x4000_0000 * 0x4000_0000) && 0 <= (
            i as int) * (bound as int) <= 0x1000_0000 * 0x4000_0000 && 0 <= (i as int) * ((
            bound as int) * (bound as int)) <= 0x1000_0000 * (0x4000_0000 * 0x4000_0000))
                by (nonlinear_arith)
                requires
                    0 <= i,
                    i + 1 <= 0x1000_0000,
                    0 <= bound <= 0x4000_0000,
            ;
            assert((i + 1) * ((bound as int) * (bound as int)) == (i + 1) * (bound as int) * (
            bound as int) && (i as int) * ((bound as int) * (bound as int)) == (i as int) * (
            bound as int) * (bound as int)) by (nonlinear_arith);
        }
        s = s + x as i128;
        if x < 0 {
            a = a - x as i128;
            qn = qn + (x as i128) * (x as i128);
            cn = cn + 1;
        } else {
            a = a + x as i128;
        }
        q = q + (x as i128) * (x as i128);
        i += 1;
    }
    (s, a, q, qn, cn)
}

/// Floor quotient whose magnitude is already bounded by the caller.
fn bounded_div(a: i128, d: i128, bound: i64) -> (r: i64)
    requires
        1 <= d <= 0x4000_0000_0000_0000_0000_0000_0000_0000,
        -0x4000_0000_0000_0000_0000_0000_0000_0000 <= a
            <= 0x4000_0000_0000_0000_0000_0000_0000_0000,
        0 <= bound,
        abs_i(a as int) <= d * (bound as int),
    ensures
        r == (a as int) / (d as int),
        -bound <= r <= bound,
{
    let q = floor_div_i128(a, d);
    proof {
        assert(-(bound as int) <= q <= bound as int) by (nonlinear_arith)
            requires
                d * q <= a,
                a < d * (q + 1),
                abs_i(a as int) <= d * (bound as int),
                d >= 1,
        ;
    }
    q as i64
}

/// Pushes the four moment features of one shifted-product map.
fn push_pair_feats(m: &Vec<i64>, w: usize, h: usize, dy: usize, dx: i64, out: &mut Vec<i64>)
    requires
        m@.len() == w * h,
        1 <= w,
        1 <= h,
        w * h <= 0x1000_0000,
        forall|i: int| 0 <= i < m@.len() ==> -MSCN_LIMIT <= #[trigger] m@[i] <= MSCN_LIMIT,
        dy <= 1,
        -1 <= dx <= 1,
    ensures
        plane_view(final(out)@) == plane_view(old(out)@) + pair_feats(
            plane_view(m@),
            w as int,
            h as int,
            dy as int,
            dx as int,
        ),
{
    let p: Vec<i64> = prod_plane(m, w, h, dy, dx);
    let ghost ps = plane_view(p@);
    let n: usize = p.len();
    proof {
        assert forall|k: int| 0 <= k < ps.len() implies abs_i(#[trigger] ps[k]) <= MSCN_LIMIT
            * MSCN_LIMIT by {
            assert(ps[k] == p@[k] as int);
        }
        assert(ps =~= prod_seq(plane_view(m@), w as int, h as int, dy as int, dx as int)) by {
            assert forall|k: int| 0 <= k < ps.len() implies ps[k] == prod_seq(
                plane_view(m@),
                w as int,
                h as int,
                dy as int,
                dx as int,
            )[k] by {
                assert(ps[k] == p@[k] as int);
            }
        }
    }
    let (s, a, q, qn, cn) = map_stats(&p, MSCN_LIMIT * MSCN_LIMIT);
    let ghost bb: int = (MSCN_LIMIT * MSCN_LIMIT) as int;
    proof {
        lemma_stats_bounds(ps, n as nat, bb);
        lemma_cs_abs(ps, n as nat);
        assert(0 <= a <= 0x1000_0000 * bb && 0 <= q <= 0x1000_0000 * (bb * bb) && abs_i(s as int)
            <= 0x1000_0000 * bb) by (nonlinear_arith)
            requires
                0 <= a <= (n as int) * bb,
                0 <= q <= (n as int) * (bb * bb),
                -((n as int) * bb) <= s <= (n as int) * bb,
                0 <= n <= 0x1000_0000,
                bb == MSCN_LIMIT * MSCN_LIMIT,
                MSCN_LIMIT == 4096,
        ;
    }
    // Shape proxy.
    let f0: i64 = if q == 0 {
        0
    } else {
        proof {
            assert(0 <= a * a * (FEAT_SCALE as int) <= ((n as int) * q) * (FEAT_SCALE as int)
                && 0 <= a * a) by (nonlinear_arith)
                requires
                    a * a <= (n as int) * q,
                    a >= 0,
                    FEAT_SCALE == 1_000_000,
            ;
            assert(1 <= (n as int) * q <= 0x1000_0000 * (0x1000_0000 * (bb * bb)) && a * a * (
            FEAT_SCALE as int) <= 0x1000_0000 * (0x1000_0000 * (bb * bb)) * (FEAT_SCALE as int))
                by (nonlinear_arith)
                requires
                    1 <= q,
                    0 <= q <= 0x1000_0000 * (bb * bb),
                    a * a * (FEAT_SCALE as int) <= ((n as int) * q) * (FEAT_SCALE as int),
                    0 <= a,
                    1 <= n,
                    n <= 0x1000_0000,
                    bb == MSCN_LIMIT * MSCN_LIMIT,
                    MSCN_LIMIT == 4096,
                    FEAT_SCALE == 1_000_000,
            ;
            assert(n >= 1) by {
                assert(q > 0 && sum_sq(ps, 0nat) == 0);
            }
        }
        bounded_div(a * a * (FEAT_SCALE as i128), (n as i128) * q, FEAT_SCALE)
    };
    out.push(f0);
    // Mean.
    let ghost sc2: int = (MSCN_SCALE * MSCN_SCALE) as int;
    let f1: i64 = if n == 0 {
        0
    } else {
        proof {
            assert(1 <= (n as int) * sc2 <= 0x1000_0000 * sc2 && abs_i(
                ((FEAT_SCALE as int) * (s as int)) as int,
            ) <= ((n as int) * sc2) * 0x2000_0000) by (nonlinear_arith)
                requires
                    abs_i(s as int) <= (n as int) * bb,
                    1 <= n <= 0x1000_0000,
                    sc2 == (MSCN_SCALE * MSCN_SCALE) as int,
                    bb == MSCN_LIMIT * MSCN_LIMIT,
                    MSCN_SCALE == 1024,
                    MSCN_LIMIT == 4096,
                    FEAT_SCALE == 1_000_000,
            ;
        }
        bounded_div((FEAT_SCALE as i128) * s, (n as i128) * ((MSCN_SCALE * MSCN_SCALE) as i128), 0x2000_0000)
    };
    out.push(f1);
    // Left and right mean squares.
    let ghost sc4: int = sc2 * sc2;
    let f2: i64 = if cn == 0 {
        0
    } else {
        proof {
            assert(1 <= cn * sc4 <= 0x1000_0000 * sc4 && 0 <= (FEAT_SCALE as int) * (qn as int)
                <= (cn * sc4) * 0x2000_0000) by (nonlinear_arith)
                requires
                    0 <= qn,
                    qn <= cn * bb * bb,
                    1 <= cn <= n,
                    n <= 0x1000_0000,
                    sc4 == sc2 * sc2,
                    sc2 == (MSCN_SCALE * MSCN_SCALE) as int,
                    bb == MSCN_LIMIT * MSCN_LIMIT,
                    MSCN_SCALE == 1024,
                    MSCN_LIMIT == 4096,
                    FEAT_SCALE == 1_000_000,
            ;
        }
        let sc4e: i128 = ((MSCN_SCALE * MSCN_SCALE) as i128) * ((MSCN_SCALE * MSCN_SCALE)
            as i128);
        proof {
            assert(sc4e == sc4);
            assert(1 <= cn * sc4e <= 0x1000_0000 * sc4) by (nonlinear_arith)
                requires
                    sc4e == sc4,
                    1 <= cn <= 0x1000_0000,
                    sc4 == 1048576 * 1048576,
            ;
        }
        bounded_div((FEAT_SCALE as i128) * qn, cn * sc4e, 0x2000_0000)
    };
    out.push(f2);
    let cp: i128 = (n as i128) - cn;
    let qp: i128 = q - qn;
    let f3: i64 = if cp == 0 {
        0
    } else {
        proof {
            assert(1 <= cp * sc4 <= 0x1000_0000 * sc4 && 0 <= (FEAT_SCALE as int) * (qp as int)
                <= (cp * sc4) * 0x2000_0000) by (nonlinear_arith)
                requires
                    0 <= qp,
                    qp <= cp * bb * bb,
                    1 <= cp <= n,
                    n <= 0x1000_0000,
                    sc4 == sc2 * sc2,
                    sc2 == (MSCN_SCALE * MSCN_SCALE) as int,
                    bb == MSCN_LIMIT * MSCN_LIMIT,
                    MSCN_SCALE == 1024,
                    MSCN_LIMIT == 4096,
                    FEAT_SCALE == 1_000_000,
            ;
        }
        let sc4e: i128 = ((MSCN_SCALE * MSCN_SCALE) as i128) * ((MSCN_SCALE * MSCN_SCALE)
            as i128);
        proof {
            assert(sc4e == sc4);
            assert(1 <= cp * sc4e <= 0x1000_0000 * sc4) by (nonlinear_arith)
                requires
                    sc4e == sc4,
                    1 <= cp <= 0x1000_0000,
                    sc4 == 1048576 * 1048576,
            ;
        }
        bounded_div((FEAT_SCALE as i128) * qp, cp * sc4e, 0x2000_0000)
    };
    out.push(f3);
    proof {
        let pf = pair_feats(plane_view(m@), w as int, h as int, dy as int, dx as int);
        assert(f0 == pf[0] && f1 == pf[1] && f2 == pf[2] && f3 == pf[3]);
        assert(plane_view(final(out)@) =~= plane_view(old(out)@) + pf);
    }
}

/// Pushes the 18 features of one scale.
fn push_scale_feats(s: &Vec<i64>, w: usize, h: usize, out: &mut Vec<i64>)
    requires
        plane_ok(plane_view(s@), w as int, h as int),
    ensures
        plane_view(final(out)@) == plane_view(old(out)@) + scale_feats(
            plane_view(s@),
            w as int,
            h as int,
        ),
{
    let ghost gs = plane_view(s@);
    let m: Vec<i64> = mscn_plane(s, w, h);
    let ghost ms = plane_view(m@);
    proof {
        assert(ms =~= mscn_seq(gs, w as int, h as int)) by {
            assert forall|p: int| 0 <= p < ms.len() implies ms[p] == mscn_seq(
                gs,
                w as int,
                h as int,
            )[p] by {
                assert(ms[p] == m@[p] as int);
            }
        }
        assert forall|k: int| 0 <= k < ms.len() implies abs_i(#[trigger] ms[k]) <= MSCN_LIMIT by {
            assert(ms[k] == m@[k] as int);
        }
    }
    let n: usize = m.len();
    let (s0, a0, q0, qn0, cn0) = map_stats(&m, MSCN_LIMIT);
    proof {
        lemma_stats_bounds(ms, n as nat, MSCN_LIMIT as int);
        lemma_cs_abs(ms, n as nat);
        assert(0 <= a0 <= 0x1000_0000 * (MSCN_LIMIT as int) && 0 <= q0 <= 0x1000_0000 * ((
        MSCN_LIMIT as int) * (MSCN_LIMIT as int))) by (nonlinear_arith)
            requires
                0 <= a0 <= (n as int) * (MSCN_LIMIT as int),
                0 <= q0 <= (n as int) * ((MSCN_LIMIT as int) * (MSCN_LIMIT as int)),
                0 <= n <= 0x1000_0000,
                MSCN_LIMIT == 4096,
        ;
    }
    let f0: i64 = if q0 == 0 {
        0
    } else {
        proof {
            assert(0 <= a0 * a0 * (FEAT_SCALE as int) <= ((n as int) * q0) * (FEAT_SCALE as int))
                by (nonlinear_arith)
                requires
                    a0 * a0 <= (n as int) * q0,
                    a0 >= 0,
                    FEAT_SCALE == 1_000_000,
            ;
            assert(1 <= (n as int) * q0 <= 0x1000_0000 * (0x1000_0000 * ((MSCN_LIMIT as int) * (
            MSCN_LIMIT as int))) && a0 * a0 * (FEAT_SCALE as int) <= 0x1000_0000 * (0x1000_0000 * ((
            MSCN_LIMIT as int) * (MSCN_LIMIT as int))) * (FEAT_SCALE as int)) by (nonlinear_arith)
                requires
                    1 <= q0,
                    q0 <= 0x1000_0000 * ((MSCN_LIMIT as int) * (MSCN_LIMIT as int)),
                    a0 * a0 * (FEAT_SCALE as int) <= ((n as int) * q0) * (FEAT_SCALE as int),
                    0 <= a0,
                    1 <= n,
                    n <= 0x1000_0000,
                    MSCN_LIMIT == 4096,
                    FEAT_SCALE == 1_000_000,
            ;
            assert(n >= 1) by {
                assert(q0 > 0 && sum_sq(ms, 0nat) == 0);
            }
        }
        bounded_div(a0 * a0 * (FEAT_SCALE as i128), (n as i128) * q0, FEAT_SCALE)
    };
    out.push(f0);
    let f1: i64 = if n == 0 {
        0
    } else {
        proof {
            assert(1 <= (n as int) * ((MSCN_SCALE * MSCN_SCALE) as int) && 0 <= (FEAT_SCALE as int)
                * (q0 as int) <= ((n as int) * ((MSCN_SCALE * MSCN_SCALE) as int)) * 0x2000_0000)
                by (nonlinear_arith)
                requires
                    0 <= q0 <= (n as int) * ((MSCN_LIMIT as int) * (MSCN_LIMIT as int)),
                    1 <= n <= 0x1000_0000,
                    MSCN_SCALE == 1024,
                    MSCN_LIMIT == 4096,
                    FEAT_SCALE == 1_000_000,
            ;
        }
        let den1: i128 = (n as i128) * ((MSCN_SCALE as i128) * (MSCN_SCALE as i128));
        bounded_div((FEAT_SCALE as i128) * q0, den1, 0x2000_0000)
    };
    out.push(f1);
    let ghost mid = out@;
    push_pair_feats(&m, w, h, 0, 1, out);
    push_pair_feats(&m, w, h, 1, 0, out);
    push_pair_feats(&m, w, h, 1, 1, out);
    push_pair_feats(&m, w, h, 1, -1, out);
    proof {
        let sf = scale_feats(gs, w as int, h as int);
        assert(n as int == (w as int) * (h as int));
        assert(f0 == sf[0] && f1 == sf[1]);
        assert(plane_view(final(out)@) =~= plane_view(old(out)@) + sf);
    }
}

/// The normalised value of one feature against its range row, clamped into
/// `[-FEAT_SCALE, FEAT_SCALE]` (the fixed-point `[-1, 1]`).
pub open spec fn norm_feat(f: int, lo: int, hi: int) -> int {
    clamp_i(
        -(FEAT_SCALE as int) + (2 * (FEAT_SCALE as int) * (f - lo)) / (hi - lo),
        -(FEAT_SCALE as int),
        FEAT_SCALE as int,
    )
}

/// The 36 normalised features of an image under a range table.
pub open spec fn norm_feats(f: Seq<int>, lo: Seq<i64>, hi: Seq<i64>) -> Seq<int> {
    Seq::new(36, |i: int| norm_feat(f[i], lo[i] as int, hi[i] as int))
}

/// A loaded BRISQUE model: a linear regressor over the 36 normalised
/// features (weights and bias in [`WEIGHT_SCALE`] fixed point) and the
/// feature-range table (36 rows of `lo < hi`, in [`FEAT_SCALE`] units).
#[derive(Debug)]
pub struct BrisqueModel {
    pub weights: Vec<i64>,
    pub bias: i64,
    pub range_lo: Vec<i64>,
    pub range_hi: Vec<i64>,
}

impl BrisqueModel {
    /// Structural soundness of loaded model data.
    pub open spec fn wf(&self) -> bool {
        &&& self.weights.len() == 36
        &&& self.range_lo.len() == 36
        &&& self.range_hi.len() == 36
        &&& -WEIGHT_LIMIT <= self.bias <= WEIGHT_LIMIT
        &&& forall|i: int|
            0 <= i < 36 ==> -WEIGHT_LIMIT <= #[trigger] self.weights[i] <= WEIGHT_LIMIT
        &&& forall|i: int|
            0 <= i < 36 ==> -RANGE_LIMIT <= #[trigger] self.range_lo[i] < self.range_hi[i]
                <= RANGE_LIMIT
    }

    /// Builds a model from already-loaded regressor and range data,
    /// validating the structure.  Fails with `ModelLoad` exactly when a
    /// length is not 36, a magnitude is out of bounds, or a range row is
    /// not strictly increasing.
    pub fn new(weights: Vec<i64>, bias: i64, range_lo: Vec<i64>, range_hi: Vec<i64>) -> (r: Result<
        BrisqueModel,
        QualityError,
    >)
        ensures
            r is Ok <==> (BrisqueModel { weights, bias, range_lo, range_hi }).wf(),
            r matches Ok(m) ==> m == (BrisqueModel { weights, bias, range_lo, range_hi }),
            r matches Err(e) ==> e == QualityError::ModelLoad,
    {
        if weights.len() != 36 || range_lo.len() != 36 || range_hi.len() != 36 {
            return Err(QualityError::ModelLoad);
        }
        if bias < -WEIGHT_LIMIT || bias > WEIGHT_LIMIT {
            return Err(QualityError::ModelLoad);
        }
        let mut i: usize = 0;
        while i < 36
            invariant
                weights.len() == 36,
                range_lo.len() == 36,
                range_hi.len() == 36,
                i <= 36,
                forall|j: int|
                    0 <= j < i ==> -WEIGHT_LIMIT <= #[trigger] weights[j] <= WEIGHT_LIMIT,
                forall|j: int|
                    0 <= j < i ==> -RANGE_LIMIT <= #[trigger] range_lo[j] < range_hi[j]
                        <= RANGE_LIMIT,
            decreases 36 - i,
        {
            if weights[i] < -WEIGHT_LIMIT || weights[i] > WEIGHT_LIMIT {
                return Err(QualityError::ModelLoad);
            }
            if range_lo[i] < -RANGE_LIMIT || range_hi[i] > RANGE_LIMIT || range_lo[i]
                >= range_hi[i] {
                return Err(QualityError::ModelLoad);
            }
            i += 1;
        }
        Ok(BrisqueModel { weights, bias, range_lo, range_hi })
    }
}

/// Numerator of the BRISQUE score of `img` under `model`, over the fixed
/// denominator `FEAT_SCALE * WEIGHT_SCALE`.
pub open spec fn brisque_score_num(img: Image, model: BrisqueModel) -> int {
    (model.bias as int) * (FEAT_SCALE as int) + wsum(
        Seq::new(36, |i: int| model.weights[i] as int),
        norm_feats(brisque_feats(img), model.range_lo@, model.range_hi@),
        36,
    )
}

/// Computes the 36 raw features of a non-empty image: grayscale reduction,
/// MSCN statistics, four shifted-product statistics, then the same at half
/// resolution.  Fails with `InvalidInput` exactly on degenerate images.
pub fn compute_features_of(img: &Image) -> (r: Result<Vec<i64>, QualityError>)
    requires
        img.valid(),
    ensures
        r is Ok <==> !img.is_degenerate(),
        r matches Ok(f) ==> f@.len() == 36 && (forall|i: int|
            0 <= i < 36 ==> #[trigger] f@[i] == brisque_feats(*img)[i]),
        r matches Err(e) ==> e == QualityError::InvalidInput,
{
    if img.degenerate() {
        return Err(QualityError::InvalidInput);
    }
    let g: Vec<i64> = to_gray(img);
    let ghost gs = plane_view(g@);
    proof {
        assert(gs =~= gray_seq(*img)) by {
            assert forall|p: int| 0 <= p < gs.len() implies gs[p] == gray_seq(*img)[p] by {
                assert(gs[p] == g@[p] as int);
            }
        }
    }
    let mut out: Vec<i64> = Vec::new();
    push_scale_feats(&g, img.width, img.height, &mut out);
    let (g2, w2, h2) = half_plane(&g, img.width, img.height);
    proof {
        assert(plane_view(g2@) =~= half_seq(gs, img.width as int, img.height as int)) by {
            assert forall|q: int| 0 <= q < plane_view(g2@).len() implies plane_view(g2@)[q]
                == half_seq(gs, img.width as int, img.height as int)[q] by {
                assert(plane_view(g2@)[q] == g2@[q] as int);
            }
        }
    }
    push_scale_feats(&g2, w2, h2, &mut out);
    proof {
        let bf = brisque_feats(*img);
        assert(plane_view(out@) =~= bf);
        assert forall|i: int| 0 <= i < 36 implies #[trigger] out@[i] == bf[i] by {
            assert(plane_view(out@)[i] == bf[i]);
        }
    }
    Ok(out)
}

/// Instance interface of the BRISQUE metric.
pub trait QualityBRISQUETrait: QualityBase {
    /// The loaded model.
    spec fn model_view(&self) -> BrisqueModel;

    /// Soundness of the stored state: a well-formed model.
    spec fn inv(&self) -> bool;

    /// Computes the BRISQUE score of `img`: the exact rational whose
    /// numerator is the regressor output over the normalised features and
    /// whose denominator is `FEAT_SCALE * WEIGHT_SCALE`.  Fails with
    /// `InvalidInput` exactly on degenerate images; BRISQUE stores no
    /// quality map.
    fn compute(&mut self, img: &Image) -> (r: Result<Ratio, QualityError>)
        requires
            old(self).inv(),
            img.valid(),
        ensures
            *final(self) == *old(self),
            r is Ok <==> !img.is_degenerate(),
            r matches Ok(s) ==> s.num == brisque_score_num(*img, old(self).model_view()) && s.den
                == (FEAT_SCALE as int) * (WEIGHT_SCALE as int),
            r matches Err(e) ==> e == QualityError::InvalidInput,
    ;
}

/// No-reference BRISQUE metric instance: holds the loaded model; each
/// `compute` call is independent of the previous ones.
#[derive(Debug)]
pub struct QualityBRISQUE {
    model: BrisqueModel,
    quality_map: Option<Image>,
}

impl QualityBase for QualityBRISQUE {
    closed spec fn ready(&self) -> bool {
        self.model.wf()
    }

    closed spec fn map_view(&self) -> Option<Image> {
        self.quality_map
    }

    closed spec fn cleared(&self) -> Self {
        QualityBRISQUE { model: self.model, quality_map: None }
    }

    fn get_quality_map(&self) -> (r: &Option<Image>) {
        &self.quality_map
    }

    fn clear(&mut self) {
        self.quality_map = None;
    }

    fn empty(&self) -> (r: bool) {
        !(self.model.weights.len() == 36 && self.model.range_lo.len() == 36
            && self.model.range_hi.len() == 36 && self.model.bias >= -WEIGHT_LIMIT
            && self.model.bias <= WEIGHT_LIMIT && self.check_entries())
    }
}

impl QualityBRISQUETrait for QualityBRISQUE {
    closed spec fn model_view(&self) -> BrisqueModel {
        self.model
    }

    closed spec fn inv(&self) -> bool {
        self.model.wf()
    }

    fn compute(&mut self, img: &Image) -> (r: Result<Ratio, QualityError>) {
        let f: Vec<i64> = match compute_features_of(img) {
            Ok(f) => f,
            Err(e) => {
                return Err(e);
            },
        };
        let ghost nfv = norm_feats(brisque_feats(*img), self.model.range_lo@, self.model.range_hi@);
        let ghost wv = Seq::new(36, |i: int| self.model.weights[i] as int);
        let mut acc: i128 = (self.model.bias as i128) * (FEAT_SCALE as i128);
        let ghost base = acc as int;
        let mut i: usize = 0;
        while i < 36
            invariant
                self.model.wf(),
                f@.len() == 36,
                forall|j: int| 0 <= j < 36 ==> #[trigger] f@[j] == brisque_feats(*img)[j],
                nfv == norm_feats(brisque_feats(*img), self.model.range_lo@, self.model.range_hi@),
                wv == Seq::new(36, |j: int| self.model.weights[j] as int),
                base == (self.model.bias as int) * (FEAT_SCALE as int),
                i <= 36,
                acc == base + wsum(wv, nfv, i as nat),
            decreases 36 - i,
        {
            let lo: i64 = self.model.range_lo[i];
            let hi: i64 = self.model.range_hi[i];
            let fv: i64 = f[i];
            let span: i128 = (hi as i128) - (lo as i128);
            proof {
                assert(abs_i(2 * (FEAT_SCALE as int) * ((fv as int) - (lo as int)))
                    <= 0x4000_0000_0000_0000_0000_0000_0000_0000) by (nonlinear_arith)
                    requires
                        -0x8000_0000_0000_0000 <= (fv as int) <= 0x7fff_ffff_ffff_ffff,
                        -RANGE_LIMIT <= (lo as int) <= RANGE_LIMIT,
                        RANGE_LIMIT == 0x100_0000_0000,
                        FEAT_SCALE == 1_000_000,
                ;
            }
            let scaled: i128 = 2 * (FEAT_SCALE as i128) * ((fv as i128) - (lo as i128));
            let q: i128 = floor_div_i128(scaled, span);
            proof {
                assert(abs_i(q as int) <= abs_i(scaled as int)) by (nonlinear_arith)
                    requires
                        (span as int) * (q as int) <= scaled,
                        (scaled as int) < (span as int) * ((q as int) + 1),
                        span >= 1,
                ;
            }
            let nf: i128 = clamp_i128(
                -(FEAT_SCALE as i128) + q,
                -(FEAT_SCALE as i128),
                FEAT_SCALE as i128,
            );
            proof {
                assert(nfv[i as int] == norm_feat(
                    brisque_feats(*img)[i as int],
                    lo as int,
                    hi as int,
                ));
                assert(nf == nfv[i as int]);
                assert(wv[i as int] == self.model.weights[i as int]);
                lemma_wsum_abs_bound_units(wv, nfv, i as nat);
                assert(abs_i((self.model.weights[i as int] as int) * (nf as int)) <= WEIGHT_LIMIT
                    * (FEAT_SCALE as int) && base + wsum(wv, nfv, (i + 1) as nat) <= WEIGHT_LIMIT
                    * (FEAT_SCALE as int) + 37 * (WEIGHT_LIMIT * (FEAT_SCALE as int)) && base
                    + wsum(wv, nfv, (i + 1) as nat) >= -(WEIGHT_LIMIT * (FEAT_SCALE as int)) - 37
                    * (WEIGHT_LIMIT * (FEAT_SCALE as int))) by (nonlinear_arith)
                    requires
                        -WEIGHT_LIMIT <= (self.model.weights[i as int] as int) <= WEIGHT_LIMIT,
                        -(FEAT_SCALE as int) <= (nf as int) <= FEAT_SCALE,
                        abs_i(wsum(wv, nfv, i as nat)) <= (i as int) * (WEIGHT_LIMIT * (FEAT_SCALE
                            as int)),
                        wsum(wv, nfv, (i + 1) as nat) == wsum(wv, nfv, i as nat) + (
                        self.model.weights[i as int] as int) * (nf as int),
                        abs_i(base) <= WEIGHT_LIMIT * (FEAT_SCALE as int),
                        0 <= i <= 36,
                        WEIGHT_LIMIT == 0x100_0000_0000,
                        FEAT_SCALE == 1_000_000,
                ;
            }
            acc = acc + (self.model.weights[i] as i128) * nf;
            i += 1;
        }
        Ok(Ratio { num: acc, den: (FEAT_SCALE as i128) * (WEIGHT_SCALE as i128) })
    }
}

/// Partial weighted sums of unit-bounded features stay inside
/// `n * WEIGHT_LIMIT * FEAT_SCALE`.
proof fn lemma_wsum_abs_bound_units(w: Seq<int>, s: Seq<int>, n: nat)
    requires
        forall|i: int| 0 <= i < n ==> abs_i(#[trigger] w[i]) <= WEIGHT_LIMIT,
        forall|i: int| 0 <= i < n ==> abs_i(#[trigger] s[i]) <= FEAT_SCALE,
    ensures
        abs_i(wsum(w, s, n)) <= n * (WEIGHT_LIMIT * (FEAT_SCALE as int)),
    decreases n,
{
    if n > 0 {
        lemma_wsum_abs_bound_units(w, s, (n - 1) as nat);
        let m = (n - 1) as nat;
        assert(abs_i(w[n - 1]) <= WEIGHT_LIMIT && abs_i(s[n - 1]) <= FEAT_SCALE);
        assert(abs_i(w[n - 1] * s[n - 1]) <= WEIGHT_LIMIT * (FEAT_SCALE as int))
            by (nonlinear_arith)
            requires
                abs_i(w[n - 1]) <= WEIGHT_LIMIT,
                abs_i(s[n - 1]) <= FEAT_SCALE,
        ;
        assert(n * (WEIGHT_LIMIT * (FEAT_SCALE as int)) == m * (WEIGHT_LIMIT * (FEAT_SCALE as int))
            + WEIGHT_LIMIT * (FEAT_SCALE as int)) by (nonlinear_arith)
            requires
                n == m + 1,
        ;
    }
}

#[allow(non_snake_case)]
impl QualityBRISQUE {
    /// Run-time check of the weight and range rows (used by `empty`).
    fn check_entries(&self) -> (r: bool)
        requires
            self.model.weights.len() == 36,
            self.model.range_lo.len() == 36,
            self.model.range_hi.len() == 36,
        ensures
            r == ((forall|i: int|
                0 <= i < 36 ==> -WEIGHT_LIMIT <= #[trigger] self.model.weights[i] <= WEIGHT_LIMIT)
                && (forall|i: int|
                0 <= i < 36 ==> -RANGE_LIMIT <= #[trigger] self.model.range_lo[i]
                    < self.model.range_hi[i] <= RANGE_LIMIT)),
    {
        let mut i: usize = 0;
        while i < 36
            invariant
                self.model.weights.len() == 36,
                self.model.range_lo.len() == 36,
                self.model.range_hi.len() == 36,
                i <= 36,
                forall|j: int|
                    0 <= j < i ==> -WEIGHT_LIMIT <= #[trigger] self.model.weights[j]
                        <= WEIGHT_LIMIT,
                forall|j: int|
                    0 <= j < i ==> -RANGE_LIMIT <= #[trigger] self.model.range_lo[j]
                        < self.model.range_hi[j] <= RANGE_LIMIT,
            decreases 36 - i,
        {
            if self.model.weights[i] < -WEIGHT_LIMIT || self.model.weights[i] > WEIGHT_LIMIT
                || self.model.range_lo[i] < -RANGE_LIMIT || self.model.range_hi[i] > RANGE_LIMIT
                || self.model.range_lo[i] >= self.model.range_hi[i] {
                return false;
            }
            i += 1;
        }
        true
    }

    /// Borrow of the raw metric state.
    pub fn as_raw_QualityBRISQUE(&self) -> (r: &QualityBRISQUE)
        ensures
            r == self,
    {
        self
    }

    /// Mutable borrow of the raw metric state.
    pub fn as_raw_mut_QualityBRISQUE(&mut self) -> (r: &mut QualityBRISQUE)
        ensures
            *r == *old(self),
            *final(self) == *final(r),
    {
        self
    }

    /// Creates a BRISQUE metric from already-loaded model and range data
    /// (regressor weights, bias, and the two range columns).  Reading and
    /// parsing model files is the caller's concern; this validates the
    /// structure and fails with `ModelLoad` exactly when it is unsound.
    pub fn create_1(weights: Vec<i64>, bias: i64, range_lo: Vec<i64>, range_hi: Vec<i64>) -> (r:
        Result<QualityBRISQUE, QualityError>)
        ensures
            r is Ok <==> (BrisqueModel { weights, bias, range_lo, range_hi }).wf(),
            r matches Ok(m) ==> m.inv() && m.ready() && m.model_view() == (BrisqueModel {
                weights,
                bias,
                range_lo,
                range_hi,
            }) && m.map_view() is None,
            r matches Err(e) ==> e == QualityError::ModelLoad,
    {
        let model = match BrisqueModel::new(weights, bias, range_lo, range_hi) {
            Ok(m) => m,
            Err(e) => {
                return Err(e);
            },
        };
        Ok(QualityBRISQUE { model, quality_map: None })
    }

    /// Static form of the feature extractor: the 36 raw features in
    /// [`FEAT_SCALE`] fixed point, for any non-empty image.
    pub fn compute_features(img: &Image) -> (r: Result<Vec<i64>, QualityError>)
        requires
            img.valid(),
        ensures
            r is Ok <==> !img.is_degenerate(),
            r matches Ok(f) ==> f@.len() == 36 && (forall|i: int|
                0 <= i < 36 ==> #[trigger] f@[i] == brisque_feats(*img)[i]),
            r matches Err(e) ==> e == QualityError::InvalidInput,
    {
        compute_features_of(img)
    }
}

/// The BRISQUE score always lies inside the regressor's own output range:
/// `bias +- sum |weights|`, in score units.  In particular a valid model
/// bounds every score it can ever produce.
pub proof fn lemma_brisque_score_in_model_range(img: Image, model: BrisqueModel)
    requires
        model.wf(),
    ensures
        ({
            let wabs = sum_abs(Seq::new(36, |i: int| model.weights[i] as int), 36);
            (model.bias as int) * (FEAT_SCALE as int) - wabs * (FEAT_SCALE as int)
                <= brisque_score_num(img, model) <= (model.bias as int) * (FEAT_SCALE as int)
                + wabs * (FEAT_SCALE as int)
        }),
{
    let wv = Seq::new(36, |i: int| model.weights[i] as int);
    let nfv = norm_feats(brisque_feats(img), model.range_lo@, model.range_hi@);
    assert forall|i: int| 0 <= i < 36 implies abs_i(#[trigger] nfv[i]) <= FEAT_SCALE as int by {
        assert(nfv[i] == norm_feat(brisque_feats(img)[i], model.range_lo@[i] as int,
        model.range_hi@[i] as int));
    }
    crate::num::lemma_wsum_abs_bound(wv, nfv, 36, FEAT_SCALE as int);
}

/// `clear` keeps the persistent state: the cleared metric holds the same
/// model and the same soundness, only the (always absent) map slot is reset.
pub proof fn lemma_brisque_clear_keeps_model(m: QualityBRISQUE)
    ensures
        m.cleared().model_view() == m.model_view(),
        m.cleared().inv() == m.inv(),
        m.cleared().ready() == m.ready(),
        m.cleared().map_view() is None,
{
}

} // verus!
