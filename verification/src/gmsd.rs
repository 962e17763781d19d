//! Full-reference gradient-magnitude similarity deviation.
//!
//! Both images are run through 3x3 Prewitt-style edge operators with
//! replicated borders; each pixel's gradient magnitude is the floor of the
//! Euclidean norm of the two directional responses.  The per-pixel
//! similarity `(2*g_a*g_b + c) / (g_a^2 + g_b^2 + c)` is kept in
//! [`GMSD_SCALE`] fixed-point units, and the per-channel score is the floor
//! square root of the similarity map's variance, again as an exact rational.
//! Lower scores mean more similar; identical images score exactly zero.

use vstd::prelude::*;
use vstd::arithmetic::div_mod::{
    lemma_fundamental_div_mod,
    lemma_fundamental_div_mod_converse,
    lemma_div_multiples_vanish,
    lemma_div_is_ordered,
    lemma_div_pos_is_pos,
    lemma_mod_bound,
};
use crate::base::QualityBase;
use crate::image::{Image, MAX_SAMPLE, pix_at, lemma_sample_index_bound, lemma_flat_index_bound};
use crate::num::{
    clamp_idx,
    sqrt_floor,
    sum,
    sum_sq,
    abs_i,
    lemma_cs_plain,
    lemma_stats_bounds,
    lemma_sum_const,
    isqrt_u128,
    floor_div_i128,
    clamp_coord,
};
use crate::types::{QualityError, Ratio};

verus! {

/// Stabilising constant of the similarity formula, sized for the integer
/// Prewitt responses of 8-bit images.
pub const GMSD_C: i64 = 1530;

/// Fixed-point unit of the similarity map: a value of `GMSD_SCALE` means a
/// similarity of exactly 1.
pub const GMSD_SCALE: i64 = 1_000_000;

/// Horizontal Prewitt-style response at `(y, x)`, borders replicated:
/// the right column of the 3x3 neighbourhood minus the left column.
pub open spec fn grad_x(img: Image, ch: int, y: int, x: int) -> int {
    let w = img.width as int;
    let h = img.height as int;
    img.px(clamp_idx(y - 1, h), clamp_idx(x + 1, w), ch) + img.px(
        clamp_idx(y, h),
        clamp_idx(x + 1, w),
        ch,
    ) + img.px(clamp_idx(y + 1, h), clamp_idx(x + 1, w), ch) - img.px(
        clamp_idx(y - 1, h),
        clamp_idx(x - 1, w),
        ch,
    ) - img.px(clamp_idx(y, h), clamp_idx(x - 1, w), ch) - img.px(
        clamp_idx(y + 1, h),
        clamp_idx(x - 1, w),
        ch,
    )
}

/// Vertical Prewitt-style response at `(y, x)`, borders replicated:
/// the bottom row of the 3x3 neighbourhood minus the top row.
pub open spec fn grad_y(img: Image, ch: int, y: int, x: int) -> int {
    let w = img.width as int;
    let h = img.height as int;
    img.px(clamp_idx(y + 1, h), clamp_idx(x - 1, w), ch) + img.px(
        clamp_idx(y + 1, h),
        clamp_idx(x, w),
        ch,
    ) + img.px(clamp_idx(y + 1, h), clamp_idx(x + 1, w), ch) - img.px(
        clamp_idx(y - 1, h),
        clamp_idx(x - 1, w),
        ch,
    ) - img.px(clamp_idx(y - 1, h), clamp_idx(x, w), ch) - img.px(
        clamp_idx(y - 1, h),
        clamp_idx(x + 1, w),
        ch,
    )
}

/// Gradient magnitude: floor of the Euclidean norm of the two responses.
pub open spec fn grad_mag(img: Image, ch: int, y: int, x: int) -> int {
    let gx = grad_x(img, ch, y, x);
    let gy = grad_y(img, ch, y, x);
    sqrt_floor((gx * gx + gy * gy) as nat) as int
}

/// Per-pixel gradient-magnitude similarity in [`GMSD_SCALE`] units.
pub open spec fn gmsd_sim(a: Image, b: Image, ch: int, y: int, x: int) -> int {
    let ga = grad_mag(a, ch, y, x);
    let gb = grad_mag(b, ch, y, x);
    ((2 * ga * gb + GMSD_C) * (GMSD_SCALE as int)) / (ga * ga + gb * gb + GMSD_C)
}

/// The similarity map of channel `ch` as a row-major sequence: pixel `p`
/// sits at row `p / width`, column `p % width`.
pub open spec fn sim_seq(a: Image, b: Image, ch: int) -> Seq<int> {
    Seq::new(
        (a.width * a.height) as nat,
        |p: int| gmsd_sim(a, b, ch, p / (a.width as int), p % (a.width as int)),
    )
}

/// Variance numerator of the similarity map over channel `ch`, at the
/// denominator `(pixel_count * GMSD_SCALE)^2`.
pub open spec fn gmsd_var_num(a: Image, b: Image, ch: int) -> int {
    let n = (a.width * a.height) as nat;
    let s = sim_seq(a, b, ch);
    n * sum_sq(s, n) - sum(s, n) * sum(s, n)
}

/// The quality map of a GMSD comparison: input-shaped, each sample the
/// similarity value of its pixel and channel, all inside `[0, GMSD_SCALE]`.
pub open spec fn gmsd_map_ok(a: Image, b: Image, m: Image) -> bool {
    &&& m.wf()
    &&& m.same_shape(a)
    &&& forall|p: int, ch: int|
        0 <= p < a.width * a.height && 0 <= ch < a.channels ==> #[trigger] pix_at(
            m.data@,
            a.channels as int,
            p,
            ch,
        ) == sim_seq(a, b, ch)[p]
    &&& forall|i: int| 0 <= i < m.data.len() ==> 0 <= #[trigger] m.data[i] <= GMSD_SCALE
}

/// The per-channel GMSD scores: always four entries; entry `ch` of a real
/// channel is the exact rational standard deviation of the similarity map
/// (floor square root of the variance numerator over `n * GMSD_SCALE`);
/// unused channels are `0 / 1`.
pub open spec fn gmsd_scores_ok(a: Image, b: Image, s: Seq<Ratio>) -> bool {
    &&& s.len() == 4
    &&& forall|ch: int|
        0 <= ch < a.channels ==> (#[trigger] s[ch]).num == sqrt_floor(
            gmsd_var_num(a, b, ch) as nat,
        ) && s[ch].den == (a.width * a.height) * (GMSD_SCALE as int)
    &&& forall|ch: int| a.channels <= ch < 4 ==> (#[trigger] s[ch]).num == 0 && s[ch].den == 1
}

/// Gradient magnitude at `(y, x)`: floor of the norm of the two Prewitt
/// responses.
fn gradient_mag_at(img: &Image, ch: usize, y: usize, x: usize) -> (g: i64)
    requires
        img.valid(),
        !img.is_degenerate(),
        ch < img.channels,
        y < img.height,
        x < img.width,
    ensures
        g == grad_mag(*img, ch as int, y as int, x as int),
        0 <= g < 0x8000,
{
    let r0: i64 = img.at_clamped(ch, y, x, -1, 1);
    let r1: i64 = img.at_clamped(ch, y, x, 0, 1);
    let r2: i64 = img.at_clamped(ch, y, x, 1, 1);
    let l0: i64 = img.at_clamped(ch, y, x, -1, -1);
    let l1: i64 = img.at_clamped(ch, y, x, 0, -1);
    let l2: i64 = img.at_clamped(ch, y, x, 1, -1);
    let b1: i64 = img.at_clamped(ch, y, x, 1, 0);
    let t1: i64 = img.at_clamped(ch, y, x, -1, 0);
    let gx: i64 = r0 + r1 + r2 - l0 - l1 - l2;
    let gy: i64 = l2 + b1 + r2 - l0 - t1 - r0;
    assert(gx == grad_x(*img, ch as int, y as int, x as int));
    assert(gy == grad_y(*img, ch as int, y as int, x as int));
    proof {
        assert(0 <= (gx as int) * (gx as int) <= 9 * (MAX_SAMPLE * MAX_SAMPLE) && 0 <= (gy as int)
            * (gy as int) <= 9 * (MAX_SAMPLE * MAX_SAMPLE)) by (nonlinear_arith)
            requires
                -(3 * MAX_SAMPLE) <= (gx as int) <= 3 * MAX_SAMPLE,
                -(3 * MAX_SAMPLE) <= (gy as int) <= 3 * MAX_SAMPLE,
        ;
    }
    let sq: i64 = gx * gx + gy * gy;
    let g128: u128 = isqrt_u128(sq as u128);
    proof {
        if g128 >= 0x8000 {
            assert((g128 as int) * (g128 as int) >= 0x8000 * 0x8000) by (nonlinear_arith)
                requires
                    g128 >= 0x8000,
            ;
        }
    }
    g128 as i64
}

/// Per-pixel similarity of two gradient magnitudes, in scale units.
fn sim_value(ga: i64, gb: i64) -> (v: i64)
    requires
        0 <= ga < 0x8000,
        0 <= gb < 0x8000,
    ensures
        v == ((2 * ga * gb + GMSD_C) * (GMSD_SCALE as int)) / (ga * ga + gb * gb + GMSD_C),
        0 <= v <= GMSD_SCALE,
{
    let gai: i128 = ga as i128;
    let gbi: i128 = gb as i128;
    proof {
        assert(0 <= gai * gbi < 0x8000 * 0x8000 && 0 <= gai * gai < 0x8000 * 0x8000 && 0 <= gbi
            * gbi < 0x8000 * 0x8000) by (nonlinear_arith)
            requires
                0 <= gai < 0x8000,
                0 <= gbi < 0x8000,
        ;
    }
    let prod: i128 = gai * gbi;
    let sqa: i128 = gai * gai;
    let sqb: i128 = gbi * gbi;
    let num: i128 = 2 * prod + GMSD_C as i128;
    let den: i128 = sqa + sqb + GMSD_C as i128;
    let arg: i128 = num * (GMSD_SCALE as i128);
    proof {
        assert(0 <= arg <= 0x1_0000_0000 * 0x1000_0000) by (nonlinear_arith)
            requires
                arg == num * (GMSD_SCALE as i128),
                0 <= num <= 0x1_0000_0000,
                GMSD_SCALE == 1_000_000,
        ;
    }
    let v128: i128 = floor_div_i128(arg, den);
    proof {
        lemma_div_pos_is_pos(arg as int, den as int);
        assert(num <= den) by (nonlinear_arith)
            requires
                num == 2 * prod + GMSD_C,
                den == sqa + sqb + GMSD_C,
                prod == gai * gbi,
                sqa == gai * gai,
                sqb == gbi * gbi,
        ;
        assert(arg <= den * (GMSD_SCALE as int)) by (nonlinear_arith)
            requires
                arg == num * (GMSD_SCALE as int),
                num <= den,
                GMSD_SCALE > 0,
        ;
        lemma_div_is_ordered(arg as int, den * (GMSD_SCALE as int), den as int);
        lemma_div_multiples_vanish(GMSD_SCALE as int, den as int);
        assert(den * (GMSD_SCALE as int) / (den as int) == GMSD_SCALE as int);
        assert(num == 2 * (gai as int) * (gbi as int) + GMSD_C) by (nonlinear_arith)
            requires
                num == 2 * prod + GMSD_C,
                prod == gai * gbi,
        ;
        assert(den == (gai as int) * (gai as int) + (gbi as int) * (gbi as int) + GMSD_C);
    }
    v128 as i64
}

/// Shared worker: builds the similarity map and the per-channel scores for
/// a matching, non-degenerate pair.
fn gmsd_core(a: &Image, b: &Image) -> (r: (Vec<Ratio>, Image))
    requires
        a.valid(),
        b.valid(),
        a.same_shape(*b),
        !a.is_degenerate(),
    ensures
        gmsd_scores_ok(*a, *b, r.0@),
        gmsd_map_ok(*a, *b, r.1),
{
    proof {
        assert(a.width * a.height <= a.data.len()) by (nonlinear_arith)
            requires
                a.data.len() == a.width * a.height * a.channels,
                a.channels >= 1,
                a.width >= 0,
                a.height >= 0,
        ;
    }
    let w: usize = a.width;
    let h: usize = a.height;
    let c: usize = a.channels;
    let npx: usize = w * h;
    let mut mdata: Vec<i64> = Vec::new();
    let mut p: usize = 0;
    while p < npx
        invariant
            a.valid(),
            b.valid(),
            a.same_shape(*b),
            !a.is_degenerate(),
            w == a.width,
            h == a.height,
            c == a.channels,
            npx == w * h,
            p <= npx,
            mdata.len() == p * c,
            forall|q: int, cc: int|
                0 <= q < p && 0 <= cc < c ==> #[trigger] pix_at(mdata@, c as int, q, cc) == sim_seq(
                    *a,
                    *b,
                    cc,
                )[q],
            forall|i: int| 0 <= i < mdata.len() ==> 0 <= #[trigger] mdata[i] <= GMSD_SCALE,
        decreases npx - p,
    {
        let y: usize = p / w;
        let x: usize = p % w;
        proof {
            lemma_fundamental_div_mod(p as int, w as int);
            lemma_mod_bound(p as int, w as int);
            assert(y < h) by (nonlinear_arith)
                requires
                    p as int == (w as int) * (y as int) + (x as int),
                    0 <= x < w,
                    p < npx,
                    npx == w * h,
            ;
        }
        let mut ch: usize = 0;
        while ch < c
            invariant
                a.valid(),
                b.valid(),
                a.same_shape(*b),
                !a.is_degenerate(),
                w == a.width,
                h == a.height,
                c == a.channels,
                npx == w * h,
                p < npx,
                y == p as int / w as int,
                x == p as int % w as int,
                y < h,
                x < w,
                ch <= c,
                mdata.len() == p * c + ch,
                forall|q: int, cc: int|
                    0 <= q < p && 0 <= cc < c ==> #[trigger] pix_at(mdata@, c as int, q, cc)
                        == sim_seq(*a, *b, cc)[q],
                forall|cc: int|
                    0 <= cc < ch ==> #[trigger] pix_at(mdata@, c as int, p as int, cc) == sim_seq(
                        *a,
                        *b,
                        cc,
                    )[p as int],
                forall|i: int| 0 <= i < mdata.len() ==> 0 <= #[trigger] mdata[i] <= GMSD_SCALE,
            decreases c - ch,
        {
            let ga: i64 = gradient_mag_at(a, ch, y, x);
            let gb: i64 = gradient_mag_at(b, ch, y, x);
            let v: i64 = sim_value(ga, gb);
            proof {
                assert(sim_seq(*a, *b, ch as int)[p as int] == v);
            }
            let ghost before = mdata@;
            mdata.push(v);
            proof {
                assert forall|q: int, cc: int| 0 <= q < p && 0 <= cc < c implies #[trigger] pix_at(
                    mdata@,
                    c as int,
                    q,
                    cc,
                ) == sim_seq(*a, *b, cc)[q] by {
                    assert(0 <= q * (c as int) + cc < p * c) by (nonlinear_arith)
                        requires
                            0 <= q < p,
                            0 <= cc < c,
                    ;
                    assert(pix_at(mdata@, c as int, q, cc) == pix_at(before, c as int, q, cc));
                }
                assert forall|cc: int| 0 <= cc < ch + 1 implies #[trigger] pix_at(
                    mdata@,
                    c as int,
                    p as int,
                    cc,
                ) == sim_seq(*a, *b, cc)[p as int] by {
                    assert(0 <= (p as int) * (c as int)) by (nonlinear_arith)
                        requires
                            p >= 0,
                            c >= 0,
                    ;
                    if cc < ch {
                        assert(pix_at(mdata@, c as int, p as int, cc) == pix_at(
                            before,
                            c as int,
                            p as int,
                            cc,
                        ));
                    } else {
                        assert(pix_at(mdata@, c as int, p as int, cc) == v);
                    }
                }
            }
            ch += 1;
        }
        proof {
            assert(p * c + c == (p + 1) * c) by (nonlinear_arith);
        }
        p += 1;
    }
    let map = Image { width: w, height: h, channels: c, data: mdata };
    proof {
        assert(map.wf()) by (nonlinear_arith)
            requires
                map.data.len() == (w as int) * (h as int) * (c as int) || map.data.len() == ((w
                    as int) * (h as int)) * (c as int),
                map.width == w,
                map.height == h,
                map.channels == c,
        ;
    }
    // Per-channel standard deviation of the similarity map.
    let mut scores: Vec<Ratio> = Vec::new();
    let mut ch: usize = 0;
    while ch < c
        invariant
            a.valid(),
            b.valid(),
            a.same_shape(*b),
            !a.is_degenerate(),
            w == a.width,
            h == a.height,
            c == a.channels,
            npx == w * h,
            npx <= 0x1000_0000,
            gmsd_map_ok(*a, *b, map),
            map.data.len() == npx * c,
            ch <= c,
            scores.len() == ch,
            forall|k: int|
                0 <= k < ch ==> (#[trigger] scores[k]).num == sqrt_floor(
                    gmsd_var_num(*a, *b, k) as nat,
                ) && scores[k].den == (a.width * a.height) * (GMSD_SCALE as int),
        decreases c - ch,
    {
        let ghost ss = sim_seq(*a, *b, ch as int);
        let mut acc: i128 = 0;
        let mut accsq: i128 = 0;
        let mut p2: usize = 0;
        while p2 < npx
            invariant
                a.valid(),
                b.valid(),
                a.same_shape(*b),
                w == a.width,
                h == a.height,
                c == a.channels,
                npx == w * h,
                npx <= 0x1000_0000,
                gmsd_map_ok(*a, *b, map),
                map.data.len() == npx * c,
                ch < c,
                p2 <= npx,
                ss == sim_seq(*a, *b, ch as int),
                acc == sum(ss, p2 as nat),
                accsq == sum_sq(ss, p2 as nat),
                0 <= acc <= (p2 as int) * (GMSD_SCALE as int),
                0 <= accsq <= (p2 as int) * ((GMSD_SCALE as int) * (GMSD_SCALE as int)),
            decreases npx - p2,
        {
            proof {
                lemma_flat_index_bound(&map, p2 as int, ch as int);
            }
            let idx: usize = p2 * c + ch;
            let v: i64 = map.data[idx];
            proof {
                assert(pix_at(map.data@, c as int, p2 as int, ch as int) == ss[p2 as int]);
                assert(v == ss[p2 as int]);
                assert(0 <= v <= GMSD_SCALE);
                assert(0 <= (v as int) * (v as int) <= (GMSD_SCALE as int) * (GMSD_SCALE as int))
                    by (nonlinear_arith)
                    requires
                        0 <= (v as int) <= (GMSD_SCALE as int),
                ;
                assert((p2 + 1) * (GMSD_SCALE as int) == p2 * (GMSD_SCALE as int) + (GMSD_SCALE
                    as int)) by (nonlinear_arith);
                assert((p2 + 1) * ((GMSD_SCALE as int) * (GMSD_SCALE as int)) == p2 * ((GMSD_SCALE
                    as int) * (GMSD_SCALE as int)) + (GMSD_SCALE as int) * (GMSD_SCALE as int))
                    by (nonlinear_arith);
                assert((p2 as int) * (GMSD_SCALE as int) <= 0x1000_0000 * 0x100000 * 16)
                    by (nonlinear_arith)
                    requires
                        0 <= p2 <= 0x1000_0000,
                        GMSD_SCALE == 1_000_000,
                ;
                assert((p2 as int) * ((GMSD_SCALE as int) * (GMSD_SCALE as int)) <= 0x1000_0000 * (
                0x100000 * 0x100000 * 256)) by (nonlinear_arith)
                    requires
                        0 <= p2 <= 0x1000_0000,
                        GMSD_SCALE == 1_000_000,
                ;
            }
            acc = acc + v as i128;
            accsq = accsq + (v as i128) * (v as i128);
            p2 += 1;
        }
        proof {
            lemma_cs_plain(ss, npx as nat);
            assert(0 <= accsq <= 0x1000_0000 * ((GMSD_SCALE as int) * (GMSD_SCALE as int)))
                by (nonlinear_arith)
                requires
                    0 <= accsq <= (npx as int) * ((GMSD_SCALE as int) * (GMSD_SCALE as int)),
                    0 <= npx <= 0x1000_0000,
            ;
            assert(0 <= (npx as int) * accsq <= 0x1000_0000 * (0x1000_0000 * ((GMSD_SCALE as int)
                * (GMSD_SCALE as int)))) by (nonlinear_arith)
                requires
                    0 <= accsq <= 0x1000_0000 * ((GMSD_SCALE as int) * (GMSD_SCALE as int)),
                    0 <= npx <= 0x1000_0000,
            ;
            assert(acc * acc >= 0) by (nonlinear_arith);
        }
        let vnum: i128 = (npx as i128) * accsq - acc * acc;
        assert(vnum == gmsd_var_num(*a, *b, ch as int));
        assert(vnum >= 0);
        let root: u128 = isqrt_u128(vnum as u128);
        proof {
            if root >= 0x1_0000_0000_0000 {
                assert((root as int) * (root as int) >= 0x1_0000_0000_0000 * 0x1_0000_0000_0000)
                    by (nonlinear_arith)
                    requires
                        root >= 0x1_0000_0000_0000,
                ;
                assert(vnum < 0x1_0000_0000_0000 * 0x1_0000_0000_0000) by (nonlinear_arith)
                    requires
                        0 <= vnum <= 0x1000_0000 * (0x1000_0000 * ((GMSD_SCALE as int)
                            * (GMSD_SCALE as int))),
                        GMSD_SCALE == 1_000_000,
                ;
            }
            assert(0 <= (npx as int) * (GMSD_SCALE as int) <= 0x1000_0000 * 0x100000 * 16)
                by (nonlinear_arith)
                requires
                    0 <= npx <= 0x1000_0000,
                    GMSD_SCALE == 1_000_000,
            ;
        }
        scores.push(Ratio { num: root as i128, den: (npx as i128) * (GMSD_SCALE as i128) });
        ch += 1;
    }
    while scores.len() < 4
        invariant
            scores.len() >= c,
            scores.len() <= 4,
            c == a.channels,
            c <= 4,
            forall|k: int|
                0 <= k < c ==> (#[trigger] scores[k]).num == sqrt_floor(
                    gmsd_var_num(*a, *b, k) as nat,
                ) && scores[k].den == (a.width * a.height) * (GMSD_SCALE as int),
            forall|k: int|
                c <= k < scores.len() ==> (#[trigger] scores[k]).num == 0 && scores[k].den == 1,
        decreases 4 - scores.len(),
    {
        scores.push(Ratio { num: 0, den: 1 });
    }
    (scores, map)
}

/// Instance interface of the GMSD metric.
pub trait QualityGMSDTrait: QualityBase {
    /// The stored reference image.
    spec fn reference_view(&self) -> Image;

    /// Soundness of the stored state: a valid, non-degenerate reference.
    spec fn inv(&self) -> bool;

    /// Computes GMSD between the stored reference and `cmp`, storing the
    /// similarity quality map on success.  Fails exactly when the shapes
    /// disagree, and then leaves the metric unchanged.
    fn compute(&mut self, cmp: &Image) -> (r: Result<Vec<Ratio>, QualityError>)
        requires
            old(self).inv(),
            cmp.valid(),
        ensures
            final(self).inv(),
            final(self).reference_view() == old(self).reference_view(),
            final(self).ready() == old(self).ready(),
            r is Ok <==> old(self).reference_view().same_shape(*cmp),
            r matches Err(e) ==> e == QualityError::DimensionMismatch && final(self).map_view()
                == old(self).map_view(),
            r matches Ok(s) ==> gmsd_scores_ok(old(self).reference_view(), *cmp, s@),
            r is Ok ==> (final(self).map_view() matches Some(m) && gmsd_map_ok(
                old(self).reference_view(),
                *cmp,
                m,
            )),
    ;
}

/// Full-reference GMSD metric instance.  Holds the reference image given at
/// creation and the quality map of the latest comparison.
#[derive(Debug)]
pub struct QualityGMSD {
    reference: Image,
    quality_map: Option<Image>,
}

impl QualityBase for QualityGMSD {
    closed spec fn ready(&self) -> bool {
        !self.reference.is_degenerate()
    }

    closed spec fn map_view(&self) -> Option<Image> {
        self.quality_map
    }

    closed spec fn cleared(&self) -> Self {
        QualityGMSD { reference: self.reference, quality_map: None }
    }

    fn get_quality_map(&self) -> (r: &Option<Image>) {
        &self.quality_map
    }

    fn clear(&mut self) {
        self.quality_map = None;
    }

    fn empty(&self) -> (r: bool) {
        self.reference.degenerate()
    }
}

impl QualityGMSDTrait for QualityGMSD {
    closed spec fn reference_view(&self) -> Image {
        self.reference
    }

    closed spec fn inv(&self) -> bool {
        self.reference.valid() && !self.reference.is_degenerate()
    }

    fn compute(&mut self, cmp: &Image) -> (r: Result<Vec<Ratio>, QualityError>) {
        if !self.reference.shape_eq(cmp) {
            return Err(QualityError::DimensionMismatch);
        }
        let (scores, map) = gmsd_core(&self.reference, cmp);
        self.quality_map = Some(map);
        Ok(scores)
    }
}

#[allow(non_snake_case)]
impl QualityGMSD {
    /// Borrow of the raw metric state.
    pub fn as_raw_QualityGMSD(&self) -> (r: &QualityGMSD)
        ensures
            r == self,
    {
        self
    }

    /// Mutable borrow of the raw metric state.
    pub fn as_raw_mut_QualityGMSD(&mut self) -> (r: &mut QualityGMSD)
        ensures
            *r == *old(self),
            *final(self) == *final(r),
    {
        self
    }

    /// Creates a GMSD metric holding `reference` as its fixed baseline.
    /// Fails exactly when the reference is degenerate (empty).
    pub fn create(reference: Image) -> (r: Result<QualityGMSD, QualityError>)
        requires
            reference.valid(),
        ensures
            r is Ok <==> !reference.is_degenerate(),
            r matches Ok(m) ==> m.inv() && m.ready() && m.reference_view() == reference
                && m.map_view() is None,
            r matches Err(e) ==> e == QualityError::InvalidInput,
    {
        if reference.degenerate() {
            return Err(QualityError::InvalidInput);
        }
        Ok(QualityGMSD { reference, quality_map: None })
    }

    /// One-shot GMSD between `reference` and `cmp`.  On success the
    /// similarity map is written to `quality_map`; on failure the out
    /// parameter is untouched.
    pub fn compute(reference: &Image, cmp: &Image, quality_map: &mut Option<Image>) -> (r: Result<
        Vec<Ratio>,
        QualityError,
    >)
        requires
            reference.valid(),
            cmp.valid(),
        ensures
            r is Ok <==> (!reference.is_degenerate() && reference.same_shape(*cmp)),
            r matches Ok(s) ==> gmsd_scores_ok(*reference, *cmp, s@),
            r is Ok ==> ((*final(quality_map)) matches Some(m) && gmsd_map_ok(*reference, *cmp, m)),
            r is Err ==> *final(quality_map) == *old(quality_map),
            r matches Err(e) ==> (e == QualityError::InvalidInput <==> reference.is_degenerate())
                && (e == QualityError::InvalidInput || e == QualityError::DimensionMismatch),
    {
        if reference.degenerate() {
            return Err(QualityError::InvalidInput);
        }
        if !reference.shape_eq(cmp) {
            return Err(QualityError::DimensionMismatch);
        }
        let (scores, map) = gmsd_core(reference, cmp);
        *quality_map = Some(map);
        Ok(scores)
    }
}

/// An image compared against itself has similarity exactly `GMSD_SCALE` at
/// every pixel.
pub proof fn lemma_gmsd_sim_self(img: Image, ch: int, y: int, x: int)
    ensures
        gmsd_sim(img, img, ch, y, x) == GMSD_SCALE,
{
    let g = grad_mag(img, ch, y, x);
    let den = g * g + g * g + GMSD_C;
    assert(2 * g * g == g * g + g * g) by (nonlinear_arith);
    assert(den > 0) by (nonlinear_arith)
        requires
            den == g * g + g * g + GMSD_C,
            GMSD_C == 1530,
    ;
    lemma_div_multiples_vanish(GMSD_SCALE as int, den);
    assert((den * (GMSD_SCALE as int)) / den == GMSD_SCALE as int);
    assert((2 * g * g + GMSD_C) * (GMSD_SCALE as int) == den * (GMSD_SCALE as int));
}

/// For every image, the GMSD against itself is exactly zero on every
/// channel: the similarity map is constant, so its variance vanishes.
pub proof fn lemma_gmsd_identity(img: Image, s: Seq<Ratio>)
    requires
        gmsd_scores_ok(img, img, s),
    ensures
        forall|ch: int| 0 <= ch < img.channels ==> (#[trigger] s[ch]).num == 0,
{
    let n = (img.width * img.height) as nat;
    assert forall|ch: int| 0 <= ch < img.channels implies (#[trigger] s[ch]).num == 0 by {
        let ss = sim_seq(img, img, ch);
        assert forall|p: int| 0 <= p < n implies #[trigger] ss[p] == GMSD_SCALE as int by {
            lemma_gmsd_sim_self(
                img,
                ch,
                p / (img.width as int),
                p % (img.width as int),
            );
        }
        lemma_sum_const(ss, n, GMSD_SCALE as int);
        assert(gmsd_var_num(img, img, ch) == 0) by (nonlinear_arith)
            requires
                sum(sim_seq(img, img, ch), (img.width * img.height) as nat) == ((img.width
                    * img.height) as nat) * (GMSD_SCALE as int),
                sum_sq(sim_seq(img, img, ch), (img.width * img.height) as nat) == ((img.width
                    * img.height) as nat) * ((GMSD_SCALE as int) * (GMSD_SCALE as int)),
                gmsd_var_num(img, img, ch) == ((img.width * img.height) as nat) * sum_sq(
                    sim_seq(img, img, ch),
                    (img.width * img.height) as nat,
                ) - sum(sim_seq(img, img, ch), (img.width * img.height) as nat) * sum(
                    sim_seq(img, img, ch),
                    (img.width * img.height) as nat,
                ),
        ;
        assert(sqrt_floor(0nat) == 0);
    }
}

/// `clear` keeps the persistent state: the cleared metric has the same
/// reference image and the same soundness, only the map is gone.
pub proof fn lemma_gmsd_clear_keeps_reference(m: QualityGMSD)
    ensures
        m.cleared().reference_view() == m.reference_view(),
        
        m.cleared().inv() == m.inv(),
        m.cleared().ready() == m.ready(),
        m.cleared().map_view() is None,
{
}

} // verus!
