//! Full-reference peak signal-to-noise ratio, derived from MSE.
//!
//! A channel's PSNR in decibels is `10 * log10(max_pixel^2 / mse)`.  The
//! logarithm is irrational, so the score carries the argument of the
//! logarithm as an exact rational instead; rendering to decibels is a
//! caller-side floating-point concern.  A channel with MSE exactly zero has
//! infinite PSNR, represented explicitly.

use vstd::prelude::*;
use crate::base::QualityBase;
use crate::image::Image;
use crate::mse::{mse_core, mse_map_ok, mse_scores_ok, sq_diff_sum, lemma_sq_diff_sum_bound};
use crate::types::{QualityError, Ratio};

verus! {

/// Default maximum per-channel sample value, for 8-bit images.
pub const MAX_PIXEL_VALUE_DEFAULT: u32 = 255;

/// One per-channel PSNR score.
#[derive(Clone, Copy, Debug, PartialEq, Eq, Structural)]
pub enum PsnrValue {
    /// The images agree exactly on this channel: the MSE is zero and the
    /// PSNR is positive infinity.
    Infinite,
    /// The carried ratio is exactly `max_pixel^2 / mse`; the PSNR in
    /// decibels is `10 * log10` of it.
    Finite(Ratio),
}

/// What one PSNR entry must be for channel `ch` of the pair `(a, b)`.
pub open spec fn psnr_value_ok(a: Image, b: Image, max_pixel: u32, ch: int, v: PsnrValue) -> bool {
    let sq = sq_diff_sum(a, b, ch, (a.width * a.height) as nat);
    if sq == 0 {
        v == PsnrValue::Infinite
    } else {
        v matches PsnrValue::Finite(r) && r.num == (max_pixel as int) * (max_pixel as int) * (
        a.width * a.height) && r.den == sq
    }
}

/// The per-channel PSNR scores of a comparison: always four entries; real
/// channels follow [`psnr_value_ok`], unused channels are `Infinite` (their
/// MSE is zero by convention).
pub open spec fn psnr_scores_ok(a: Image, b: Image, max_pixel: u32, s: Seq<PsnrValue>) -> bool {
    &&& s.len() == 4
    &&& forall|ch: int|
        0 <= ch < a.channels ==> psnr_value_ok(a, b, max_pixel, ch, #[trigger] s[ch])
    &&& forall|ch: int| a.channels <= ch < 4 ==> #[trigger] s[ch] == PsnrValue::Infinite
}

/// Shared worker: MSE map and scores, then the per-channel PSNR ratios.
fn psnr_core(a: &Image, b: &Image, max_pixel: u32) -> (r: (Vec<PsnrValue>, Image))
    requires
        a.valid(),
        b.valid(),
        a.same_shape(*b),
        !a.is_degenerate(),
    ensures
        psnr_scores_ok(*a, *b, max_pixel, r.0@),
        mse_map_ok(*a, *b, r.1),
{
    let (mscores, map) = mse_core(a, b);
    let ghost npx = (a.width * a.height) as nat;
    let mut out: Vec<PsnrValue> = Vec::new();
    let mut ch: usize = 0;
    while ch < 4
        invariant
            a.valid(),
            b.valid(),
            a.same_shape(*b),
            !a.is_degenerate(),
            mse_scores_ok(*a, *b, mscores@),
            mscores.len() == 4,
            out.len() == ch,
            ch <= 4,
            npx == (a.width * a.height) as nat,
            forall|k: int|
                0 <= k < ch && k < a.channels ==> psnr_value_ok(
                    *a,
                    *b,
                    max_pixel,
                    k,
                    #[trigger] out[k],
                ),
            forall|k: int|
                a.channels <= k < ch ==> #[trigger] out[k] == PsnrValue::Infinite,
        decreases 4 - ch,
    {
        let v: Ratio = mscores[ch];
        if v.num == 0 {
            out.push(PsnrValue::Infinite);
        } else {
            proof {
                // Unused channels carry 0/1, so this branch is a real channel.
                assert(ch < a.channels);
                lemma_sq_diff_sum_bound(*a, *b, ch as int, npx);
                let mp = max_pixel as int;
                assert(0 <= mp * mp < 0x1_0000_0000_0000_0000) by (nonlinear_arith)
                    requires
                        0 <= mp < 0x1_0000_0000,
                ;
                assert(a.width * a.height <= 0x1000_0000) by (nonlinear_arith)
                    requires
                        a.width * a.height * a.channels <= 0x1000_0000,
                        a.channels >= 1,
                        a.width >= 0,
                        a.height >= 0,
                ;
                assert(0 <= mp * mp * (v.den as int) <= 0x1_0000_0000_0000_0000 * 0x1000_0000)
                    by (nonlinear_arith)
                    requires
                        0 <= mp * mp < 0x1_0000_0000_0000_0000,
                        0 <= (v.den as int) <= 0x1000_0000,
                ;
            }
            let num: i128 = (max_pixel as i128) * (max_pixel as i128) * v.den;
            out.push(PsnrValue::Finite(Ratio { num, den: v.num }));
        }
        ch += 1;
    }
    (out, map)
}

/// Instance interface of the PSNR metric.
pub trait QualityPSNRTrait: QualityBase {
    /// The stored reference image.
    spec fn reference_view(&self) -> Image;

    /// The maximum sample value used in the PSNR numerator.
    spec fn max_pixel(&self) -> u32;

    /// Soundness of the stored state: a valid, non-degenerate reference.
    spec fn inv(&self) -> bool;

    /// Computes PSNR between the stored reference and `cmp`, storing the
    /// squared-difference quality map on success.  Fails exactly when the
    /// shapes disagree, and then leaves the metric unchanged.
    fn compute(&mut self, cmp: &Image) -> (r: Result<Vec<PsnrValue>, QualityError>)
        requires
            old(self).inv(),
            cmp.valid(),
        ensures
            final(self).inv(),
            final(self).reference_view() == old(self).reference_view(),
            final(self).max_pixel() == old(self).max_pixel(),
            final(self).ready() == old(self).ready(),
            r is Ok <==> old(self).reference_view().same_shape(*cmp),
            r matches Err(e) ==> e == QualityError::DimensionMismatch && final(self).map_view()
                == old(self).map_view(),
            r matches Ok(s) ==> psnr_scores_ok(
                old(self).reference_view(),
                *cmp,
                old(self).max_pixel(),
                s@,
            ),
            r is Ok ==> (final(self).map_view() matches Some(m) && mse_map_ok(
                old(self).reference_view(),
                *cmp,
                m,
            )),
    ;

    /// The maximum pixel value used for PSNR computation.
    fn get_max_pixel_value(&self) -> (r: u32)
        ensures
            r == self.max_pixel(),
    ;

    /// Sets the maximum pixel value used for PSNR computation.
    fn set_max_pixel_value(&mut self, val: u32)
        ensures
            final(self).max_pixel() == val,
            final(self).reference_view() == old(self).reference_view(),
            final(self).map_view() == old(self).map_view(),
            final(self).ready() == old(self).ready(),
            final(self).inv() == old(self).inv(),
    ;
}

/// Full-reference PSNR metric instance.  Holds the reference image, the
/// configurable maximum pixel value (default 255), and the quality map of
/// the latest comparison.
#[derive(Debug)]
pub struct QualityPSNR {
    reference: Image,
    max_pixel_value: u32,
    quality_map: Option<Image>,
}

impl QualityBase for QualityPSNR {
    closed spec fn ready(&self) -> bool {
        !self.reference.is_degenerate()
    }

    closed spec fn map_view(&self) -> Option<Image> {
        self.quality_map
    }

    closed spec fn cleared(&self) -> Self {
        QualityPSNR { reference: self.reference, max_pixel_value: self.max_pixel_value, quality_map: None }
    }

    fn get_quality_map(&self) -> (r: &Option<Image>) {
        &self.quality_map
    }

    fn clear(&mut self) {
        self.quality_map = None;
    }

    fn empty(&self) -> (r: bool) {
        self.reference.degenerate()
    }
}

impl QualityPSNRTrait for QualityPSNR {
    closed spec fn reference_view(&self) -> Image {
        self.reference
    }

    closed spec fn max_pixel(&self) -> u32 {
        self.max_pixel_value
    }

    closed spec fn inv(&self) -> bool {
        self.reference.valid() && !self.reference.is_degenerate()
    }

    fn compute(&mut self, cmp: &Image) -> (r: Result<Vec<PsnrValue>, QualityError>) {
        if !self.reference.shape_eq(cmp) {
            return Err(QualityError::DimensionMismatch);
        }
        let (scores, map) = psnr_core(&self.reference, cmp, self.max_pixel_value);
        self.quality_map = Some(map);
        Ok(scores)
    }

    fn get_max_pixel_value(&self) -> (r: u32) {
        self.max_pixel_value
    }

    fn set_max_pixel_value(&mut self, val: u32) {
        self.max_pixel_value = val;
    }
}

#[allow(non_snake_case)]
impl QualityPSNR {
    /// Borrow of the raw metric state.
    pub fn as_raw_QualityPSNR(&self) -> (r: &QualityPSNR)
        ensures
            r == self,
    {
        self
    }

    /// Mutable borrow of the raw metric state.
    pub fn as_raw_mut_QualityPSNR(&mut self) -> (r: &mut QualityPSNR)
        ensures
            *r == *old(self),
            *final(self) == *final(r),
    {
        self
    }

    /// Creates a PSNR metric holding `reference` as its fixed baseline and
    /// `max_pixel_value` (255 for 8-bit images) as the peak sample value.
    /// Fails exactly when the reference is degenerate (empty).
    pub fn create(reference: Image, max_pixel_value: u32) -> (r: Result<QualityPSNR, QualityError>)
        requires
            reference.valid(),
        ensures
            r is Ok <==> !reference.is_degenerate(),
            r matches Ok(m) ==> m.inv() && m.ready() && m.reference_view() == reference
                && m.max_pixel() == max_pixel_value && m.map_view() is None,
            r matches Err(e) ==> e == QualityError::InvalidInput,
    {
        if reference.degenerate() {
            return Err(QualityError::InvalidInput);
        }
        Ok(QualityPSNR { reference, max_pixel_value, quality_map: None })
    }

    /// One-shot PSNR between `reference` and `cmp`.  On success the squared
    /// difference map is written to `quality_map`; on failure the out
    /// parameter is untouched.
    pub fn compute(
        reference: &Image,
        cmp: &Image,
        quality_map: &mut Option<Image>,
        max_pixel_value: u32,
    ) -> (r: Result<Vec<PsnrValue>, QualityError>)
        requires
            reference.valid(),
            cmp.valid(),
        ensures
            r is Ok <==> (!reference.is_degenerate() && reference.same_shape(*cmp)),
            r matches Ok(s) ==> psnr_scores_ok(*reference, *cmp, max_pixel_value, s@),
            r is Ok ==> ((*final(quality_map)) matches Some(m) && mse_map_ok(*reference, *cmp, m)),
            r is Err ==> *final(quality_map) == *old(quality_map),
            r matches Err(e) ==> (e == QualityError::InvalidInput <==> reference.is_degenerate())
                && (e == QualityError::InvalidInput || e == QualityError::DimensionMismatch),
    {
        if reference.degenerate() {
            return Err(QualityError::InvalidInput);
        }
        if !reference.shape_eq(cmp) {
            return Err(QualityError::DimensionMismatch);
        }
        let (scores, map) = psnr_core(reference, cmp, max_pixel_value);
        *quality_map = Some(map);
        Ok(scores)
    }
}

/// PSNR is infinite exactly when the MSE of the same pair is zero on that
/// channel; otherwise it carries exactly `max_pixel^2 * pixel_count` over
/// the squared-difference sum, which is `max_pixel^2 / mse`.
pub proof fn lemma_psnr_infinite_iff_mse_zero(
    a: Image,
    b: Image,
    max_pixel: u32,
    mse_s: Seq<Ratio>,
    psnr_s: Seq<PsnrValue>,
    ch: int,
)
    requires
        mse_scores_ok(a, b, mse_s),
        psnr_scores_ok(a, b, max_pixel, psnr_s),
        0 <= ch < a.channels,
    ensures
        (psnr_s[ch] == PsnrValue::Infinite) <==> (mse_s[ch].num == 0),
        mse_s[ch].num != 0 ==> (psnr_s[ch] matches PsnrValue::Finite(r) && r.num == (
        max_pixel as int) * (max_pixel as int) * (a.width * a.height) && r.den == mse_s[ch].num),
{
    assert(psnr_value_ok(a, b, max_pixel, ch, psnr_s[ch]));
    let sq = sq_diff_sum(a, b, ch, (a.width * a.height) as nat);
    if sq != 0 {
        assert(psnr_s[ch] matches PsnrValue::Finite(r) && r.num == (max_pixel as int) * (
        max_pixel as int) * (a.width * a.height) && r.den == sq);
        assert(psnr_s[ch] != PsnrValue::Infinite);
    }
}

/// `clear` keeps the persistent state: the cleared metric has the same
/// reference image, the same maximum pixel value and the same soundness, only the map is gone.
pub proof fn lemma_psnr_clear_keeps_reference(m: QualityPSNR)
    ensures
        m.cleared().reference_view() == m.reference_view(),
        m.cleared().max_pixel() == m.max_pixel(),
        m.cleared().inv() == m.inv(),
        m.cleared().ready() == m.ready(),
        m.cleared().map_view() is None,
{
}

} // verus!
