//! Full-reference mean-squared-error metric: the per-channel mean of the
//! squared sample differences between a reference and a comparison image.

use vstd::prelude::*;
use crate::base::QualityBase;
use crate::image::{Image, MAX_SAMPLE, lemma_flat_index_bound};
use crate::types::{QualityError, Ratio};

verus! {

/// Sum, over the first `n` pixels, of the squared sample difference between
/// `a` and `b` on channel `ch`.
pub open spec fn sq_diff_sum(a: Image, b: Image, ch: int, n: nat) -> int
    decreases n,
{
    if n == 0 {
        0
    } else {
        let i = (n - 1) * a.channels + ch;
        sq_diff_sum(a, b, ch, (n - 1) as nat) + (a.data[i] - b.data[i]) * (a.data[i] - b.data[i])
    }
}

/// The squared-difference sum is non-negative and grows at most by the
/// largest possible squared difference per pixel.
pub proof fn lemma_sq_diff_sum_bound(a: Image, b: Image, ch: int, n: nat)
    requires
        a.valid(),
        b.valid(),
        a.same_shape(b),
        0 <= ch < a.channels,
        n <= a.width * a.height,
    ensures
        0 <= sq_diff_sum(a, b, ch, n) <= n * (MAX_SAMPLE * MAX_SAMPLE),
    decreases n,
{
    if n > 0 {
        lemma_sq_diff_sum_bound(a, b, ch, (n - 1) as nat);
        let m = (n - 1) as nat;
        lemma_flat_index_bound(&a, m as int, ch);
        let i = m * a.channels + ch;
        assert(0 <= a.data[i as int] <= MAX_SAMPLE);
        assert(0 <= b.data[i as int] <= MAX_SAMPLE);
        let d = a.data[i as int] - b.data[i as int];
        assert(0 <= d * d <= MAX_SAMPLE * MAX_SAMPLE) by (nonlinear_arith)
            requires
                -MAX_SAMPLE <= d <= MAX_SAMPLE,
        ;
        assert(n * (MAX_SAMPLE * MAX_SAMPLE) == m * (MAX_SAMPLE * MAX_SAMPLE) + MAX_SAMPLE
            * MAX_SAMPLE) by (nonlinear_arith)
            requires
                n == m + 1,
        ;
    }
}

/// The quality map of an MSE comparison: same shape as the inputs, and each
/// sample is the squared difference of the corresponding input samples.
pub open spec fn mse_map_ok(a: Image, b: Image, m: Image) -> bool {
    &&& m.wf()
    &&& m.same_shape(a)
    &&& forall|i: int|
        0 <= i < m.data.len() ==> #[trigger] m.data[i] == (a.data[i] - b.data[i]) * (a.data[i]
            - b.data[i])
}

/// The per-channel MSE scores of a comparison: always four entries; entry
/// `ch` is the exact rational `sq_diff_sum / pixel_count` for each real
/// channel, and `0 / 1` for unused channels.
pub open spec fn mse_scores_ok(a: Image, b: Image, s: Seq<Ratio>) -> bool {
    &&& s.len() == 4
    &&& forall|ch: int|
        0 <= ch < a.channels ==> (#[trigger] s[ch]).num == sq_diff_sum(
            a,
            b,
            ch,
            (a.width * a.height) as nat,
        ) && s[ch].den == a.width * a.height
    &&& forall|ch: int| a.channels <= ch < 4 ==> (#[trigger] s[ch]).num == 0 && s[ch].den == 1
}

/// Shared worker: builds the squared-difference map and the per-channel
/// scores for a matching, non-degenerate pair.  PSNR reuses it.
pub(crate) fn mse_core(a: &Image, b: &Image) -> (r: (Vec<Ratio>, Image))
    requires
        a.valid(),
        b.valid(),
        a.same_shape(*b),
        !a.is_degenerate(),
    ensures
        mse_scores_ok(*a, *b, r.0@),
        mse_map_ok(*a, *b, r.1),
{
    let len: usize = a.data.len();
    let mut mdata: Vec<i64> = Vec::new();
    let mut i: usize = 0;
    while i < len
        invariant
            a.valid(),
            b.valid(),
            a.same_shape(*b),
            len == a.data.len(),
            b.data.len() == len,
            mdata.len() == i,
            i <= len,
            forall|j: int|
                0 <= j < i ==> #[trigger] mdata[j] == (a.data[j] - b.data[j]) * (a.data[j]
                    - b.data[j]),
        decreases len - i,
    {
        assert(0 <= a.data[i as int] <= MAX_SAMPLE);
        assert(0 <= b.data[i as int] <= MAX_SAMPLE);
        let d: i64 = a.data[i] - b.data[i];
        proof {
            assert(0 <= (d as int) * (d as int) <= MAX_SAMPLE * MAX_SAMPLE) by (nonlinear_arith)
                requires
                    -MAX_SAMPLE <= (d as int) <= MAX_SAMPLE,
            ;
        }
        mdata.push(d * d);
        i += 1;
    }
    let map = Image { width: a.width, height: a.height, channels: a.channels, data: mdata };
    proof {
        assert(a.width * a.height <= a.data.len()) by (nonlinear_arith)
            requires
                a.data.len() == a.width * a.height * a.channels,
                a.channels >= 1,
                a.width >= 0,
                a.height >= 0,
        ;
    }
    let npx: usize = a.width * a.height;
    let mut scores: Vec<Ratio> = Vec::new();
    let mut ch: usize = 0;
    while ch < a.channels
        invariant
            a.valid(),
            b.valid(),
            a.same_shape(*b),
            !a.is_degenerate(),
            npx == a.width * a.height,
            ch <= a.channels,
            scores.len() == ch,
            forall|k: int|
                0 <= k < ch ==> (#[trigger] scores[k]).num == sq_diff_sum(
                    *a,
                    *b,
                    k,
                    npx as nat,
                ) && scores[k].den == npx,
        decreases a.channels - ch,
    {
        let mut acc: i128 = 0;
        let mut p: usize = 0;
        while p < npx
            invariant
                a.valid(),
                b.valid(),
                a.same_shape(*b),
                npx == a.width * a.height,
                ch < a.channels,
                p <= npx,
                acc == sq_diff_sum(*a, *b, ch as int, p as nat),
            decreases npx - p,
        {
            proof {
                lemma_flat_index_bound(a, p as int, ch as int);
                lemma_sq_diff_sum_bound(*a, *b, ch as int, p as nat);
                lemma_sq_diff_sum_bound(*a, *b, ch as int, (p + 1) as nat);
                assert((p + 1) * (MAX_SAMPLE * MAX_SAMPLE) <= 0x1000_0000 * (MAX_SAMPLE
                    * MAX_SAMPLE)) by (nonlinear_arith)
                    requires
                        p + 1 <= npx <= 0x1000_0000,
                ;
                assert(npx <= 0x1000_0000) by {
                    assert(npx <= a.width * a.height * a.channels) by (nonlinear_arith)
                        requires
                            npx == a.width * a.height,
                            a.channels >= 1,
                    ;
                }
            }
            let idx: usize = p * a.channels + ch;
            assert(0 <= a.data[idx as int] <= MAX_SAMPLE);
            assert(0 <= b.data[idx as int] <= MAX_SAMPLE);
            let d: i64 = a.data[idx] - b.data[idx];
            proof {
                assert(0 <= (d as int) * (d as int) <= MAX_SAMPLE * MAX_SAMPLE)
                    by (nonlinear_arith)
                    requires
                        -MAX_SAMPLE <= (d as int) <= MAX_SAMPLE,
                ;
                assert(sq_diff_sum(*a, *b, ch as int, (p + 1) as nat) == acc + (d as int) * (
                d as int));
            }
            acc = acc + (d as i128) * (d as i128);
            p += 1;
        }
        scores.push(Ratio { num: acc, den: npx as i128 });
        ch += 1;
    }
    while scores.len() < 4
        invariant
            scores.len() >= a.channels,
            scores.len() <= 4,
            a.channels <= 4,
            npx == a.width * a.height,
            forall|k: int|
                0 <= k < a.channels ==> (#[trigger] scores[k]).num == sq_diff_sum(
                    *a,
                    *b,
                    k,
                    npx as nat,
                ) && scores[k].den == npx,
            forall|k: int|
                a.channels <= k < scores.len() ==> (#[trigger] scores[k]).num == 0 && scores[k].den
                    == 1,
        decreases 4 - scores.len(),
    {
        scores.push(Ratio { num: 0, den: 1 });
    }
    (scores, map)
}

/// Instance interface of the MSE metric.
pub trait QualityMSETrait: QualityBase {
    /// The stored reference image.
    spec fn reference_view(&self) -> Image;

    /// Soundness of the stored state: a valid, non-degenerate reference.
    spec fn inv(&self) -> bool;

    /// Computes MSE between the stored reference and `cmp`, storing the
    /// squared-difference quality map on success.  Fails exactly when the
    /// shapes disagree, and then leaves the metric unchanged.
    fn compute(&mut self, cmp: &Image) -> (r: Result<Vec<Ratio>, QualityError>)
        requires
            old(self).inv(),
            cmp.valid(),
        ensures
            final(self).inv(),
            final(self).reference_view() == old(self).reference_view(),
            final(self).ready() == old(self).ready(),
            r is Ok <==> old(self).reference_view().same_shape(*cmp),
            r matches Err(e) ==> e == QualityError::DimensionMismatch && final(self).map_view()
                == old(self).map_view(),
            r matches Ok(s) ==> mse_scores_ok(old(self).reference_view(), *cmp, s@),
            r is Ok ==> (final(self).map_view() matches Some(m) && mse_map_ok(
                old(self).reference_view(),
                *cmp,
                m,
            )),
    ;
}

/// Full-reference mean-squared-error metric instance.  Holds the reference
/// image given at creation and the quality map of the latest comparison.
#[derive(Debug)]
pub struct QualityMSE {
    reference: Image,
    quality_map: Option<Image>,
}

impl QualityBase for QualityMSE {
    closed spec fn ready(&self) -> bool {
        !self.reference.is_degenerate()
    }

    closed spec fn map_view(&self) -> Option<Image> {
        self.quality_map
    }

    closed spec fn cleared(&self) -> Self {
        QualityMSE { reference: self.reference, quality_map: None }
    }

    fn get_quality_map(&self) -> (r: &Option<Image>) {
        &self.quality_map
    }

    fn clear(&mut self) {
        self.quality_map = None;
    }

    fn empty(&self) -> (r: bool) {
        self.reference.degenerate()
    }
}

impl QualityMSETrait for QualityMSE {
    closed spec fn reference_view(&self) -> Image {
        self.reference
    }

    closed spec fn inv(&self) -> bool {
        self.reference.valid() && !self.reference.is_degenerate()
    }

    fn compute(&mut self, cmp: &Image) -> (r: Result<Vec<Ratio>, QualityError>) {
        if !self.reference.shape_eq(cmp) {
            return Err(QualityError::DimensionMismatch);
        }
        let (scores, map) = mse_core(&self.reference, cmp);
        self.quality_map = Some(map);
        Ok(scores)
    }
}

#[allow(non_snake_case)]
impl QualityMSE {
    /// Borrow of the raw metric state.
    pub fn as_raw_QualityMSE(&self) -> (r: &QualityMSE)
        ensures
            r == self,
    {
        self
    }

    /// Mutable borrow of the raw metric state.
    pub fn as_raw_mut_QualityMSE(&mut self) -> (r: &mut QualityMSE)
        ensures
            *r == *old(self),
            *final(self) == *final(r),
    {
        self
    }

    /// Creates an MSE metric holding `reference` as its fixed baseline.
    /// Fails exactly when the reference is degenerate (empty).
    pub fn create(reference: Image) -> (r: Result<QualityMSE, QualityError>)
        requires
            reference.valid(),
        ensures
            r is Ok <==> !reference.is_degenerate(),
            r matches Ok(m) ==> m.inv() && m.ready() && m.reference_view() == reference
                && m.map_view() is None,
            r matches Err(e) ==> e == QualityError::InvalidInput,
    {
        if reference.degenerate() {
            return Err(QualityError::InvalidInput);
        }
        Ok(QualityMSE { reference, quality_map: None })
    }

    /// One-shot MSE between `reference` and `cmp`.  On success the squared
    /// difference map is written to `quality_map`; on failure the out
    /// parameter is untouched.
    pub fn compute(reference: &Image, cmp: &Image, quality_map: &mut Option<Image>) -> (r: Result<
        Vec<Ratio>,
        QualityError,
    >)
        requires
            reference.valid(),
            cmp.valid(),
        ensures
            r is Ok <==> (!reference.is_degenerate() && reference.same_shape(*cmp)),
            r matches Ok(s) ==> mse_scores_ok(*reference, *cmp, s@),
            r is Ok ==> ((*final(quality_map)) matches Some(m) && mse_map_ok(*reference, *cmp, m)),
            r is Err ==> *final(quality_map) == *old(quality_map),
            r matches Err(e) ==> (e == QualityError::InvalidInput <==> reference.is_degenerate())
                && (e == QualityError::InvalidInput || e == QualityError::DimensionMismatch),
    {
        if reference.degenerate() {
            return Err(QualityError::InvalidInput);
        }
        if !reference.shape_eq(cmp) {
            return Err(QualityError::DimensionMismatch);
        }
        let (scores, map) = mse_core(reference, cmp);
        *quality_map = Some(map);
        Ok(scores)
    }
}

/// Comparing an image against itself gives a squared-difference sum of zero.
pub proof fn lemma_sq_diff_sum_self(img: Image, ch: int, n: nat)
    ensures
        sq_diff_sum(img, img, ch, n) == 0,
    decreases n,
{
    if n > 0 {
        lemma_sq_diff_sum_self(img, ch, (n - 1) as nat);
    }
}

/// For every image, the MSE against itself is zero on every channel: any
/// score vector that satisfies the `compute` contract for the pair
/// `(img, img)` carries the exact rational zero in each used entry.
pub proof fn lemma_mse_identity(img: Image, s: Seq<Ratio>)
    requires
        mse_scores_ok(img, img, s),
    ensures
        forall|ch: int| 0 <= ch < img.channels ==> (#[trigger] s[ch]).num == 0,
{
    assert forall|ch: int| 0 <= ch < img.channels implies (#[trigger] s[ch]).num == 0 by {
        lemma_sq_diff_sum_self(img, ch, (img.width * img.height) as nat);
    }
}

/// `clear` keeps the persistent state: the cleared metric has the same
/// reference image and the same soundness, only the map is gone.
pub proof fn lemma_mse_clear_keeps_reference(m: QualityMSE)
    ensures
        m.cleared().reference_view() == m.reference_view(),
        
        m.cleared().inv() == m.inv(),
        m.cleared().ready() == m.ready(),
        m.cleared().map_view() is None,
{
}

} // verus!
