//! Verified core of a gaze-saliency heatmap pipeline.
//!
//! A list of integer fixation coordinates is accumulated into a density
//! raster, smoothed with a separable Gaussian kernel, normalized to the
//! unit interval, mapped through a 33-stop palette with piecewise-linear
//! interpolation, and optionally alpha-composited over a stimulus image.
//!
//! All intensities are exact fixed-point integers: densities and weights
//! carry a denominator of `SCALE`, palette channels a denominator of
//! `PALETTE_DEN`, and blend ratios a denominator of `BLEND_DEN`.

pub mod accumulate;
pub mod blend;
pub mod colormap;
pub mod kernel;
pub mod normalize;
pub mod parse;
pub mod pipeline;
pub mod raster;
pub mod smooth;
