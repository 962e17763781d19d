use quality::base::QualityBase;
use quality::brisque::{QualityBRISQUE, QualityBRISQUETrait, FEAT_SCALE, WEIGHT_SCALE};
use quality::gmsd::{QualityGMSD, QualityGMSDTrait, GMSD_SCALE};
use quality::image::Image;
use quality::mse::{QualityMSE, QualityMSETrait};
use quality::psnr::{PsnrValue, QualityPSNR, QualityPSNRTrait, MAX_PIXEL_VALUE_DEFAULT};
use quality::ssim::{QualitySSIM, QualitySSIMTrait};
use quality::types::QualityError;

fn uniform(w: usize, h: usize, c: usize, v: i64) -> Image {
    Image::new(w, h, c, vec![v; w * h * c]).unwrap()
}

fn ramp(w: usize, h: usize) -> Image {
    let mut data = Vec::new();
    for y in 0..h {
        for x in 0..w {
            data.push(((x * 37 + y * 11 + (x * y) % 5) % 256) as i64);
        }
    }
    Image::new(w, h, 1, data).unwrap()
}

#[test]
fn identical_uniform_images_score_perfectly() {
    // A uniform reference compared with an identical copy: MSE zero, PSNR
    // infinite, SSIM exactly one, GMSD exactly zero on every channel.
    let reference = uniform(4, 4, 3, 128);
    let copy = uniform(4, 4, 3, 128);

    let mut mse = QualityMSE::create(uniform(4, 4, 3, 128)).unwrap();
    let scores = mse.compute(&copy).unwrap();
    assert_eq!(scores.len(), 4);
    for ch in 0..3 {
        assert_eq!(scores[ch].num, 0);
        assert_eq!(scores[ch].den, 16);
    }
    assert_eq!(scores[3].num, 0);

    let mut psnr = QualityPSNR::create(uniform(4, 4, 3, 128), MAX_PIXEL_VALUE_DEFAULT).unwrap();
    let ps = psnr.compute(&copy).unwrap();
    for ch in 0..4 {
        assert_eq!(ps[ch], PsnrValue::Infinite);
    }

    let mut ssim = QualitySSIM::create(uniform(4, 4, 3, 128)).unwrap();
    let ss = ssim.compute(&copy).unwrap();
    for ch in 0..3 {
        assert_eq!(ss[ch].num, ss[ch].den);
    }

    let mut gmsd = QualityGMSD::create(reference).unwrap();
    let gs = gmsd.compute(&copy).unwrap();
    for ch in 0..3 {
        assert_eq!(gs[ch].num, 0);
        assert_eq!(gs[ch].den, 16 * GMSD_SCALE as i128);
    }
}

#[test]
fn black_versus_white_mse_and_zero_psnr() {
    // All-zero reference against all-255 comparison, single channel:
    // MSE is exactly 65025 and the PSNR ratio 255^2 / 65025 is exactly 1,
    // whose decibel value is 10 * log10(1) = 0.
    let black = uniform(4, 4, 1, 0);
    let white = uniform(4, 4, 1, 255);
    let mut map = None;
    let scores = QualityMSE::compute(&black, &white, &mut map).unwrap();
    assert_eq!(scores[0].num, 16 * 65025);
    assert_eq!(scores[0].den, 16);
    assert_eq!(scores[0].num, 65025 * scores[0].den);
    let m = map.unwrap();
    assert_eq!(m.width, 4);
    assert_eq!(m.height, 4);
    assert_eq!(m.data[0], 255 * 255);

    let mut pmap = None;
    let ps = QualityPSNR::compute(&black, &white, &mut pmap, 255).unwrap();
    match ps[0] {
        PsnrValue::Finite(r) => {
            assert_eq!(r.num, 255 * 255 * 16);
            assert_eq!(r.den, 16 * 65025);
            assert_eq!(r.num, r.den);
            let db = 10.0 * ((r.num as f64) / (r.den as f64)).log10();
            assert_eq!(db, 0.0);
        }
        PsnrValue::Infinite => panic!("psnr must be finite here"),
    }
}

#[test]
fn quality_map_is_empty_before_any_compute() {
    let reference = uniform(4, 4, 1, 7);
    let mse = QualityMSE::create(reference).unwrap();
    assert!(mse.get_quality_map().is_none());
    let psnr = QualityPSNR::create(uniform(4, 4, 1, 7), 255).unwrap();
    assert!(psnr.get_quality_map().is_none());
    let ssim = QualitySSIM::create(uniform(4, 4, 1, 7)).unwrap();
    assert!(ssim.get_quality_map().is_none());
    let gmsd = QualityGMSD::create(uniform(4, 4, 1, 7)).unwrap();
    assert!(gmsd.get_quality_map().is_none());
}

#[test]
fn clear_drops_the_map_and_keeps_the_reference() {
    let mut mse = QualityMSE::create(uniform(4, 4, 1, 7)).unwrap();
    assert!(!mse.empty());
    let _ = QualityMSETrait::compute(&mut mse, &uniform(4, 4, 1, 9)).unwrap();
    assert!(mse.get_quality_map().is_some());
    mse.clear();
    assert!(mse.get_quality_map().is_none());
    assert!(!mse.empty());
}

#[test]
fn mismatched_shapes_are_rejected() {
    let reference = uniform(4, 4, 1, 7);
    let narrow = uniform(3, 4, 1, 7);
    let two_channel = uniform(4, 4, 2, 7);

    let mut mse = QualityMSE::create(uniform(4, 4, 1, 7)).unwrap();
    assert_eq!(mse.compute(&narrow).unwrap_err(), QualityError::DimensionMismatch);
    assert_eq!(mse.compute(&two_channel).unwrap_err(), QualityError::DimensionMismatch);
    assert!(mse.get_quality_map().is_none());

    let mut psnr = QualityPSNR::create(uniform(4, 4, 1, 7), 255).unwrap();
    assert_eq!(psnr.compute(&narrow).unwrap_err(), QualityError::DimensionMismatch);
    let mut ssim = QualitySSIM::create(uniform(4, 4, 1, 7)).unwrap();
    assert_eq!(ssim.compute(&narrow).unwrap_err(), QualityError::DimensionMismatch);
    let mut gmsd = QualityGMSD::create(uniform(4, 4, 1, 7)).unwrap();
    assert_eq!(gmsd.compute(&narrow).unwrap_err(), QualityError::DimensionMismatch);

    let mut map = None;
    assert_eq!(
        QualityMSE::compute(&reference, &narrow, &mut map).unwrap_err(),
        QualityError::DimensionMismatch
    );
    assert!(map.is_none());
    assert_eq!(
        QualityGMSD::compute(&reference, &narrow, &mut map).unwrap_err(),
        QualityError::DimensionMismatch
    );
    assert_eq!(
        QualitySSIM::compute(&reference, &narrow, &mut map).unwrap_err(),
        QualityError::DimensionMismatch
    );
    assert_eq!(
        QualityPSNR::compute(&reference, &narrow, &mut map, 255).unwrap_err(),
        QualityError::DimensionMismatch
    );
}

#[test]
fn empty_reference_is_rejected() {
    let empty = Image::new(0, 0, 1, vec![]).unwrap();
    let cmp = uniform(4, 4, 1, 7);
    assert_eq!(QualityMSE::create(Image::new(0, 0, 1, vec![]).unwrap()).unwrap_err(),
        QualityError::InvalidInput);
    assert_eq!(QualityPSNR::create(Image::new(0, 0, 1, vec![]).unwrap(), 255).unwrap_err(),
        QualityError::InvalidInput);
    assert_eq!(QualitySSIM::create(Image::new(0, 0, 1, vec![]).unwrap()).unwrap_err(),
        QualityError::InvalidInput);
    assert_eq!(QualityGMSD::create(Image::new(0, 0, 1, vec![]).unwrap()).unwrap_err(),
        QualityError::InvalidInput);
    let mut map = None;
    assert_eq!(QualityMSE::compute(&empty, &cmp, &mut map).unwrap_err(),
        QualityError::InvalidInput);
}

#[test]
fn invalid_buffers_are_rejected_by_the_image_constructor() {
    // Wrong length.
    assert_eq!(Image::new(2, 2, 1, vec![0; 3]).unwrap_err(), QualityError::InvalidInput);
    // Too many channels.
    assert_eq!(Image::new(2, 2, 5, vec![0; 20]).unwrap_err(), QualityError::InvalidInput);
    // A sample out of range.
    assert_eq!(Image::new(2, 1, 1, vec![0, 4096]).unwrap_err(), QualityError::InvalidInput);
    assert_eq!(Image::new(2, 1, 1, vec![0, -1]).unwrap_err(), QualityError::InvalidInput);
}

#[test]
fn mse_map_holds_squared_differences() {
    let a = Image::new(2, 2, 1, vec![10, 20, 30, 40]).unwrap();
    let b = Image::new(2, 2, 1, vec![13, 20, 25, 41]).unwrap();
    let mut map = None;
    let scores = QualityMSE::compute(&a, &b, &mut map).unwrap();
    let m = map.unwrap();
    assert_eq!(m.data, vec![9, 0, 25, 1]);
    assert_eq!(scores[0].num, 35);
    assert_eq!(scores[0].den, 4);
}

#[test]
fn psnr_max_pixel_value_is_configurable() {
    let mut psnr = QualityPSNR::create(uniform(4, 4, 1, 7), 255).unwrap();
    assert_eq!(psnr.get_max_pixel_value(), 255);
    psnr.set_max_pixel_value(1023);
    assert_eq!(psnr.get_max_pixel_value(), 1023);
    let ps = psnr.compute(&uniform(4, 4, 1, 8)).unwrap();
    // MSE is 1, so the ratio is 1023^2 * 16 / 16.
    match ps[0] {
        PsnrValue::Finite(r) => {
            assert_eq!(r.num, 1023 * 1023 * 16);
            assert_eq!(r.den, 16);
        }
        PsnrValue::Infinite => panic!("psnr must be finite here"),
    }
}

#[test]
fn psnr_is_infinite_exactly_when_mse_is_zero() {
    let a = ramp(6, 5);
    let b = ramp(6, 5);
    let mut map = None;
    let ps = QualityPSNR::compute(&a, &b, &mut map, 255).unwrap();
    assert_eq!(ps[0], PsnrValue::Infinite);
    let mut c = ramp(6, 5);
    c = Image::new(6, 5, 1, {
        let mut d = c.data.clone();
        d[0] += 1;
        d
    })
    .unwrap();
    let ps2 = QualityPSNR::compute(&a, &c, &mut map, 255).unwrap();
    assert!(matches!(ps2[0], PsnrValue::Finite(_)));
}

#[test]
fn ssim_and_gmsd_maps_have_the_input_shape() {
    let a = ramp(7, 6);
    let b = uniform(7, 6, 1, 99);
    let mut ssim = QualitySSIM::create(ramp(7, 6)).unwrap();
    let ss = ssim.compute(&b).unwrap();
    let smap = ssim.get_quality_map().as_ref().unwrap();
    assert_eq!((smap.width, smap.height, smap.channels), (7, 6, 1));
    for v in smap.data.iter() {
        assert!(-1_000_000 <= *v && *v <= 1_000_000);
    }
    assert_eq!(ss[0].den, 42 * 1_000_000);

    let mut gmsd = QualityGMSD::create(a).unwrap();
    let gs = gmsd.compute(&b).unwrap();
    let gmap = gmsd.get_quality_map().as_ref().unwrap();
    assert_eq!((gmap.width, gmap.height, gmap.channels), (7, 6, 1));
    for v in gmap.data.iter() {
        assert!(0 <= *v && *v <= GMSD_SCALE);
    }
    assert!(gs[0].num >= 0);
}

#[test]
fn ssim_of_identical_structured_images_is_one() {
    let mut ssim = QualitySSIM::create(ramp(8, 8)).unwrap();
    let ss = ssim.compute(&ramp(8, 8)).unwrap();
    assert_eq!(ss[0].num, ss[0].den);
    let map = ssim.get_quality_map().as_ref().unwrap();
    for v in map.data.iter() {
        assert_eq!(*v, 1_000_000);
    }
}

#[test]
fn gmsd_of_identical_structured_images_is_zero() {
    let mut gmsd = QualityGMSD::create(ramp(8, 8)).unwrap();
    let gs = gmsd.compute(&ramp(8, 8)).unwrap();
    assert_eq!(gs[0].num, 0);
}

#[test]
fn brisque_always_returns_36_features() {
    // Any non-empty image yields exactly 36 features, whatever the size.
    for (w, h, c) in [(1usize, 1usize, 1usize), (3, 2, 1), (8, 8, 3), (5, 9, 4)] {
        let img = uniform(w, h, c, 100);
        let f = QualityBRISQUE::compute_features(&img).unwrap();
        assert_eq!(f.len(), 36);
    }
    let f = QualityBRISQUE::compute_features(&ramp(16, 12)).unwrap();
    assert_eq!(f.len(), 36);
    let empty = Image::new(0, 3, 1, vec![]).unwrap();
    assert_eq!(
        QualityBRISQUE::compute_features(&empty).unwrap_err(),
        QualityError::InvalidInput
    );
}

#[test]
fn brisque_rejects_corrupt_model_data() {
    // Wrong row count.
    assert_eq!(
        QualityBRISQUE::create_1(vec![0; 35], 0, vec![0; 36], vec![1; 36]).unwrap_err(),
        QualityError::ModelLoad
    );
    assert_eq!(
        QualityBRISQUE::create_1(vec![0; 36], 0, vec![0; 12], vec![1; 36]).unwrap_err(),
        QualityError::ModelLoad
    );
    // A range row that is not strictly increasing.
    let mut lo = vec![0i64; 36];
    let hi = vec![1i64; 36];
    lo[17] = 1;
    assert_eq!(
        QualityBRISQUE::create_1(vec![0; 36], 0, lo, hi).unwrap_err(),
        QualityError::ModelLoad
    );
    // An oversized weight.
    let mut w = vec![0i64; 36];
    w[0] = i64::MAX;
    assert_eq!(
        QualityBRISQUE::create_1(w, 0, vec![0; 36], vec![1; 36]).unwrap_err(),
        QualityError::ModelLoad
    );
}

#[test]
fn brisque_score_stays_in_the_regressor_range() {
    // With all weights zero the score is exactly the bias; with weights w
    // the score can move at most sum |w| away from it, because the
    // normalised features are clamped to [-1, 1].
    let bias = 42_000_000i64;  // 42.0 in weight-scale units
    let mut b =
        QualityBRISQUE::create_1(vec![0; 36], bias, vec![-1_000_000; 36], vec![1_000_000; 36])
            .unwrap();
    let s = b.compute(&ramp(12, 10)).unwrap();
    assert_eq!(s.num, bias as i128 * FEAT_SCALE as i128);
    assert_eq!(s.den, FEAT_SCALE as i128 * WEIGHT_SCALE as i128);

    let weights = vec![500_000i64; 36];  // each 0.5
    let wsum: i128 = 36 * 500_000;
    let mut b2 = QualityBRISQUE::create_1(
        weights,
        bias,
        vec![-1_000_000; 36],
        vec![1_000_000; 36],
    )
    .unwrap();
    let s2 = b2.compute(&ramp(12, 10)).unwrap();
    let lo = (bias as i128 - wsum) * FEAT_SCALE as i128;
    let hi = (bias as i128 + wsum) * FEAT_SCALE as i128;
    assert!(lo <= s2.num && s2.num <= hi);
    // A second call on the same image gives the same score: computation is
    // deterministic and the instance is stateless across calls.
    let s3 = b2.compute(&ramp(12, 10)).unwrap();
    assert_eq!(s2, s3);
    assert!(b2.get_quality_map().is_none());
}

#[test]
fn raw_accessors_return_the_same_object() {
    let mut mse = QualityMSE::create(uniform(2, 2, 1, 1)).unwrap();
    let _ = mse.as_raw_QualityMSE();
    let _ = mse.as_raw_mut_QualityMSE();
    let mut psnr = QualityPSNR::create(uniform(2, 2, 1, 1), 255).unwrap();
    let _ = psnr.as_raw_QualityPSNR();
    let _ = psnr.as_raw_mut_QualityPSNR();
    let mut ssim = QualitySSIM::create(uniform(2, 2, 1, 1)).unwrap();
    let _ = ssim.as_raw_QualitySSIM();
    let _ = ssim.as_raw_mut_QualitySSIM();
    let mut gmsd = QualityGMSD::create(uniform(2, 2, 1, 1)).unwrap();
    let _ = gmsd.as_raw_QualityGMSD();
    let _ = gmsd.as_raw_mut_QualityGMSD();
    let mut brisque =
        QualityBRISQUE::create_1(vec![0; 36], 0, vec![0; 36], vec![1; 36]).unwrap();
    let _ = brisque.as_raw_QualityBRISQUE();
    let _ = brisque.as_raw_mut_QualityBRISQUE();
}
