//! Image-quality metrics over exact integer arithmetic.
//!
//! The crate offers one no-reference metric (BRISQUE) and four full-reference
//! metrics (MSE, PSNR, SSIM, GMSD).  A full-reference metric is created from a
//! reference image and then compares further images against it; each
//! `compute` call also stores a per-pixel quality map that can be read back.
//!
//! Pixel samples are integers, scores are exact rationals, and the square
//! roots taken by GMSD and BRISQUE are integer (floor) square roots at a
//! documented fixed-point scale, so every result is reproducible bit for bit
//! and every stated contract is exact.

pub mod base;
pub mod brisque;
pub mod gmsd;
pub mod image;
pub mod mse;
pub mod num;
pub mod psnr;
pub mod ssim;
pub mod types;
