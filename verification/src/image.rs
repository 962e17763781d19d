//! The image buffer all metrics consume: a multi-channel 2-D array of
//! integer samples in row-major, channel-interleaved order.

use vstd::prelude::*;
use crate::types::QualityError;

verus! {

/// Largest sample value a metric input may hold.  Covers 8- to 12-bit
/// images; the bound keeps every internal product inside `i128`.
pub const MAX_SAMPLE: i64 = 4095;

/// Largest total sample count (`width * height * channels`) of a metric
/// input; keeps whole-image sums inside `i128`.
pub const MAX_TOTAL: usize = 0x1000_0000;

/// A multi-channel 2-D buffer.  Sample `(y, x, ch)` is stored at
/// `data[(y * width + x) * channels + ch]`.
///
/// Quality maps reuse this type; their samples may be negative or exceed
/// [`MAX_SAMPLE`], so only [`Image::wf`] holds of them, not [`Image::valid`].
#[derive(Clone, Debug, PartialEq, Eq)]
pub struct Image {
    pub width: usize,
    pub height: usize,
    pub channels: usize,
    pub data: Vec<i64>,
}

impl Image {
    /// Structural well-formedness: the buffer length matches the dimensions.
    pub open spec fn wf(&self) -> bool {
        self.data.len() == self.width * self.height * self.channels
    }

    /// A degenerate image has no pixels or no channels.
    pub open spec fn is_degenerate(&self) -> bool {
        self.width == 0 || self.height == 0 || self.channels == 0
    }

    /// What every metric requires of an input image: well-formed, at most 4
    /// channels, bounded size, and samples in `0 ..= MAX_SAMPLE`.
    /// Degenerate images are allowed here; metrics reject them at run time.
    pub open spec fn valid(&self) -> bool {
        &&& self.wf()
        &&& self.channels <= 4
        &&& self.width * self.height * self.channels <= MAX_TOTAL
        &&& forall|i: int| 0 <= i < self.data.len() ==> 0 <= #[trigger] self.data[i] <= MAX_SAMPLE
    }

    /// The sample at `(y, x, ch)`.
    pub open spec fn px(&self, y: int, x: int, ch: int) -> int {
        self.data[(y * self.width + x) * self.channels + ch] as int
    }

    /// Number of pixels (not samples).
    pub open spec fn pixel_count(&self) -> int {
        self.width * self.height
    }

    /// Two images have the same shape: equal width, height and channel count.
    pub open spec fn same_shape(self, other: Image) -> bool {
        self.width == other.width && self.height == other.height
            && self.channels == other.channels
    }

    /// Run-time test for [`Image::is_degenerate`].
    pub fn degenerate(&self) -> (r: bool)
        ensures
            r == self.is_degenerate(),
    {
        self.width == 0 || self.height == 0 || self.channels == 0
    }

    /// Run-time test for [`Image::same_shape`].
    pub fn shape_eq(&self, other: &Image) -> (r: bool)
        ensures
            r == self.same_shape(*other),
    {
        self.width == other.width && self.height == other.height && self.channels
            == other.channels
    }

    /// Builds an image after checking the dimensions and every sample.
    /// Degenerate (zero-sized) images are representable, so that metrics can
    /// report them; anything structurally unsound is refused here.
    pub fn new(width: usize, height: usize, channels: usize, data: Vec<i64>) -> (r: Result<
        Image,
        QualityError,
    >)
        ensures
            r is Ok <==> {
                &&& channels <= 4
                &&& width * height * channels <= MAX_TOTAL
                &&& data.len() == width * height * channels
                &&& forall|i: int| 0 <= i < data.len() ==> 0 <= #[trigger] data[i] <= MAX_SAMPLE
            },
            r matches Ok(img) ==> {
                &&& img == (Image { width, height, channels, data })
                &&& img.valid()
            },
            r matches Err(e) ==> e == QualityError::InvalidInput,
    {
        if channels > 4 {
            return Err(QualityError::InvalidInput);
        }
        if channels == 0 {
            proof {
                assert(width * height * 0 == 0) by (nonlinear_arith);
            }
            if data.len() == 0 {
                return Ok(Image { width, height, channels, data });
            }
            return Err(QualityError::InvalidInput);
        }
        proof {
            let w = width as int;
            let h = height as int;
            assert(w * h < 0x1_0000_0000_0000_0000 * 0x1_0000_0000_0000_0000) by (nonlinear_arith)
                requires
                    0 <= w < 0x1_0000_0000_0000_0000,
                    0 <= h < 0x1_0000_0000_0000_0000,
            ;
        }
        let wh: u128 = (width as u128) * (height as u128);
        proof {
            assert(width * height <= width * height * channels) by (nonlinear_arith)
                requires
                    channels >= 1,
                    width >= 0,
                    height >= 0,
            ;
        }
        if wh > MAX_TOTAL as u128 {
            return Err(QualityError::InvalidInput);
        }
        proof {
            assert((wh as int) * (channels as int) <= 0x1000_0000 * 4) by (nonlinear_arith)
                requires
                    0 <= (wh as int) <= 0x1000_0000,
                    0 <= (channels as int) <= 4,
            ;
        }
        let total_wide: u128 = wh * (channels as u128);
        if total_wide > MAX_TOTAL as u128 {
            return Err(QualityError::InvalidInput);
        }
        let total: usize = total_wide as usize;
        if data.len() != total {
            return Err(QualityError::InvalidInput);
        }
        let mut i: usize = 0;
        while i < data.len()
            invariant
                forall|j: int| 0 <= j < i ==> 0 <= #[trigger] data[j] <= MAX_SAMPLE,
                i <= data.len(),
            decreases data.len() - i,
        {
            let v: i64 = data[i];
            if v < 0 || v > MAX_SAMPLE {
                return Err(QualityError::InvalidInput);
            }
            i += 1;
        }
        Ok(Image { width, height, channels, data })
    }

    /// Reads the sample at the replicated-border offset `(dy, dx)` from
    /// `(y, x)` on channel `ch`.
    pub fn at_clamped(&self, ch: usize, y: usize, x: usize, dy: i64, dx: i64) -> (v: i64)
        requires
            self.valid(),
            !self.is_degenerate(),
            ch < self.channels,
            y < self.height,
            x < self.width,
            -16 <= dy <= 16,
            -16 <= dx <= 16,
        ensures
            v == self.px(
                crate::num::clamp_idx(y + dy, self.height as int),
                crate::num::clamp_idx(x + dx, self.width as int),
                ch as int,
            ),
            0 <= v <= MAX_SAMPLE,
    {
        proof {
            assert(self.height <= 0x1000_0000 && self.width <= 0x1000_0000) by (nonlinear_arith)
                requires
                    self.width * self.height * self.channels <= 0x1000_0000,
                    self.width >= 1,
                    self.height >= 1,
                    self.channels >= 1,
            ;
        }
        let yy: usize = crate::num::clamp_coord(y, dy, self.height);
        let xx: usize = crate::num::clamp_coord(x, dx, self.width);
        proof {
            lemma_sample_index_bound(self, yy as int, xx as int, ch as int);
        }
        self.at(yy, xx, ch)
    }

    /// Reads the sample at `(y, x, ch)`.
    pub fn at(&self, y: usize, x: usize, ch: usize) -> (r: i64)
        requires
            self.wf(),
            y < self.height,
            x < self.width,
            ch < self.channels,
        ensures
            r as int == self.px(y as int, x as int, ch as int),
    {
        proof {
            lemma_sample_index_bound(self, y as int, x as int, ch as int);
        }
        let p: usize = y * self.width + x;
        let i: usize = p * self.channels + ch;
        self.data[i]
    }
}

/// Channel `ch` of pixel `p` (row-major) in a channel-interleaved buffer
/// with `c` channels.
pub open spec fn pix_at(data: Seq<i64>, c: int, p: int, ch: int) -> int {
    data[p * c + ch] as int
}

/// The flat index of channel `ch` of pixel `p` lies inside the buffer.
pub proof fn lemma_flat_index_bound(img: &Image, p: int, ch: int)
    requires
        img.wf(),
        0 <= p < img.width * img.height,
        0 <= ch < img.channels,
    ensures
        0 <= p * img.channels + ch < img.data.len(),
        img.width * img.height <= img.data.len(),
{
    let c = img.channels as int;
    let t = img.width * img.height;
    assert(0 <= p * c + ch < t * c) by (nonlinear_arith)
        requires
            0 <= p < t,
            0 <= ch < c,
    ;
    assert(t <= t * c) by (nonlinear_arith)
        requires
            c >= 1,
            t >= 0,
    ;
    assert(img.data.len() == t * c) by (nonlinear_arith)
        requires
            img.data.len() == img.width * img.height * img.channels,
            t == img.width * img.height,
            c == img.channels,
    ;
}

/// The flat index of sample `(y, x, ch)` lies inside the buffer.
pub proof fn lemma_sample_index_bound(img: &Image, y: int, x: int, ch: int)
    requires
        img.wf(),
        0 <= y < img.height,
        0 <= x < img.width,
        0 <= ch < img.channels,
    ensures
        0 <= y * img.width + x < img.width * img.height,
        img.width * img.height <= img.data.len(),
        0 <= (y * img.width + x) * img.channels + ch < img.data.len(),
        (y * img.width + x) * img.channels + ch < img.width * img.height * img.channels,
{
    assert(img.width * img.height <= img.width * img.height * img.channels) by (nonlinear_arith)
        requires
            img.channels >= 1,
            img.width >= 0,
            img.height >= 0,
    ;
    let w = img.width as int;
    let h = img.height as int;
    let c = img.channels as int;
    assert(0 <= y * w + x < w * h) by (nonlinear_arith)
        requires
            0 <= y < h,
            0 <= x < w,
    ;
    assert(0 <= (y * w + x) * c + ch < w * h * c) by (nonlinear_arith)
        requires
            0 <= y * w + x < w * h,
            0 <= ch < c,
    ;
}

} // verus!
