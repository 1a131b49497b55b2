//! The full rendering pipeline: points to colorized saliency raster.
//!
//! Accumulation, smoothing, normalization and colormap lookup composed
//! in order, each stage consuming the previous stage's output. Blending
//! with a stimulus image is a separate, optional last step.

use vstd::prelude::*;

use vstd::arithmetic::div_mod::{
    lemma_div_pos_is_pos, lemma_fundamental_div_mod, lemma_mod_division_less_than_divisor,
    lemma_multiply_divide_lt,
};

use crate::accumulate::{accumulate, accepted_count, count_at, lemma_count_at_le_len};
use crate::colormap::{byte_of, colorize, palette_wf, Rgb};
use crate::kernel::{gaussian_kernel, gauss_weight_spec, kernel_radius, tap_dist, SIGMA_MPX_MAX};
use crate::normalize::{norm_cell, normalize};
use crate::raster::{ColorImage, FixationPoint, SCALE};
use crate::smooth::{smooth, smoothed_cell, SMOOTH_CELL_MAX};

verus! {

/// The density raster the accumulator yields, cell by cell.
pub open spec fn density_grid(pts: Seq<FixationPoint>, w: int, h: int) -> Seq<u64> {
    Seq::new((w * h) as nat, |i: int| count_at(pts, i % w, i / w) as u64)
}

/// The tap-weight vector of the Gaussian kernel for one sigma.
pub open spec fn kernel_seq(sigma_mpx: u64) -> Seq<u64> {
    Seq::new(
        (2 * kernel_radius(sigma_mpx) + 1) as nat,
        |j: int| gauss_weight_spec(tap_dist(j, kernel_radius(sigma_mpx)) as u64, sigma_mpx) as u64,
    )
}

/// The smoothed raster, cell by cell, fixed point over `SCALE`.
pub open spec fn smoothed_grid(pts: Seq<FixationPoint>, w: int, h: int, sigma_mpx: u64) -> Seq<
    u64,
> {
    Seq::new(
        (w * h) as nat,
        |i: int|
            smoothed_cell(density_grid(pts, w, h), w, h, kernel_seq(sigma_mpx), i % w, i / w)
                as u64,
    )
}

/// The normalized raster, cell by cell, in `[0, SCALE]`.
pub open spec fn normalized_grid(pts: Seq<FixationPoint>, w: int, h: int, sigma_mpx: u64) -> Seq<
    u64,
> {
    Seq::new(
        (w * h) as nat,
        |i: int| norm_cell(smoothed_grid(pts, w, h, sigma_mpx), i) as u64,
    )
}

/// A flat grid index names the cell at (i % w, i / w).
proof fn lemma_grid_index(w: int, h: int, i: int)
    requires
        0 < w,
        0 <= i < w * h,
    ensures
        0 <= i % w < w,
        0 <= i / w < h,
        (i / w) * w + (i % w) == i,
{
    lemma_fundamental_div_mod(i, w);
    lemma_mod_division_less_than_divisor(i, w);
    lemma_div_pos_is_pos(i, w);
    lemma_multiply_divide_lt(i, w, h);
    assert(w * (i / w) == (i / w) * w) by (nonlinear_arith);
}

/// Run the whole pipeline: rasterize the fixation points, smooth with
/// the Gaussian kernel sized from `sigma_mpx` (the pixel-space sigma in
/// thousandths of a pixel), normalize by the global maximum, and map
/// through the palette. Returns the colorized image and the count of
/// accepted (in-frame) points.
#[verifier::loop_isolation(false)]
pub fn render(
    points: &Vec<FixationPoint>,
    width: usize,
    height: usize,
    sigma_mpx: u64,
    palette: &Vec<Rgb>,
) -> (r: (ColorImage, usize))
    requires
        width * height <= usize::MAX,
        width <= 100000000,
        height <= 100000000,
        1 <= sigma_mpx <= SIGMA_MPX_MAX,
        points@.len() <= SMOOTH_CELL_MAX,
        palette_wf(palette@),
    ensures
        r.0.wf(),
        r.0.width == width,
        r.0.height == height,
        r.1 == accepted_count(points@, width as int, height as int),
        forall|i: int|
            0 <= i < width * height ==> r.0.bytes@[3 * i] == byte_of(
                palette@,
                normalized_grid(points@, width as int, height as int, sigma_mpx)[i],
                2,
            ) && r.0.bytes@[3 * i + 1] == byte_of(
                palette@,
                normalized_grid(points@, width as int, height as int, sigma_mpx)[i],
                1,
            ) && r.0.bytes@[3 * i + 2] == byte_of(
                palette@,
                normalized_grid(points@, width as int, height as int, sigma_mpx)[i],
                0,
            ),
{
    let ghost wi = width as int;
    let ghost hi = height as int;
    let (dens, accepted) = accumulate(points, width, height);
    proof {
        assert forall|i: int| 0 <= i < dens.cells@.len() implies dens.cells@[i] == density_grid(
            points@,
            wi,
            hi,
        )[i] && #[trigger] dens.cells@[i] <= SMOOTH_CELL_MAX by {
            if wi > 0 {
                lemma_grid_index(wi, hi, i);
                lemma_count_at_le_len(points@, i % wi, i / wi);
            }
        }
        assert(dens.cells@ =~= density_grid(points@, wi, hi));
    }
    let weights = gaussian_kernel(sigma_mpx);
    proof {
        assert(weights@ =~= kernel_seq(sigma_mpx));
        assert((2 * kernel_radius(sigma_mpx) + 1) % 2 == 1);
    }
    let sm = smooth(dens, &weights);
    proof {
        assert forall|i: int| 0 <= i < sm.cells@.len() implies sm.cells@[i] == smoothed_grid(
            points@,
            wi,
            hi,
            sigma_mpx,
        )[i] by {
            if wi > 0 {
                lemma_grid_index(wi, hi, i);
            }
        }
        assert(sm.cells@ =~= smoothed_grid(points@, wi, hi, sigma_mpx));
    }
    let norm = normalize(sm);
    proof {
        assert(norm.cells@ =~= normalized_grid(points@, wi, hi, sigma_mpx));
    }
    let img = colorize(&norm, palette);
    (img, accepted)
}

} // verus!
