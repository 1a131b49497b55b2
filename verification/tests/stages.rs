use saliency_map::accumulate::accumulate;
use saliency_map::blend::{blend, BlendError};
use saliency_map::colormap::{colorize, colorize_value, coolwarm};
use saliency_map::kernel::{gaussian_kernel, kernel_window};
use saliency_map::normalize::{max_cell, normalize};
use saliency_map::raster::{ColorImage, FixationPoint, Raster};
use saliency_map::smooth::smooth;

fn pt(x: i32, y: i32) -> FixationPoint {
    FixationPoint { x, y }
}

fn raster(width: usize, height: usize, cells: Vec<u64>) -> Raster {
    assert_eq!(cells.len(), width * height);
    Raster { width, height, cells }
}

#[test]
fn accumulation_bounds() {
    // N = 6 points, K = 4 strictly inside 8x6
    let points = vec![pt(0, 0), pt(7, 5), pt(7, 5), pt(3, 2), pt(8, 0), pt(-1, 3)];
    let (r, accepted) = accumulate(&points, 8, 6);
    assert_eq!(accepted, 4);
    let total: u64 = r.cells.iter().sum();
    assert_eq!(total, 4);
    assert_eq!(r.cells[0], 1);
    assert_eq!(r.cells[5 * 8 + 7], 2);
    assert_eq!(r.cells[2 * 8 + 3], 1);
}

#[test]
fn skip_scenario() {
    // a 9999,9999 sample against a 1920x1080 raster is not accepted
    let points = vec![pt(100, 100), pt(9999, 9999)];
    let (r, accepted) = accumulate(&points, 1920, 1080);
    assert_eq!(accepted, 1);
    let total: u64 = r.cells.iter().sum();
    assert_eq!(total, 1);
    assert_eq!(r.cells[100 * 1920 + 100], 1);
}

#[test]
fn duplicate_points_each_count() {
    let points = vec![pt(2, 2), pt(2, 2), pt(2, 2)];
    let (r, accepted) = accumulate(&points, 4, 4);
    assert_eq!(accepted, 3);
    assert_eq!(r.cells[2 * 4 + 2], 3);
}

#[test]
fn kernel_window_design_rule() {
    // sigma 2 degrees at 60 px/degree: sigma_px = 120, window = 481
    assert_eq!(kernel_window(120_000), 481);
    // degenerate-small sigma still yields one tap
    assert_eq!(kernel_window(1), 1);
}

#[test]
fn kernel_symmetric_and_peaked() {
    // sigma_px = 2: window 9, radius 4
    let kv = gaussian_kernel(2000);
    assert_eq!(kv.len(), 9);
    assert_eq!(kv[4], 65536); // exp(0) = 1 at the centre
    for d in 0..4 {
        assert_eq!(kv[d], kv[8 - d]);
        assert!(kv[d] < kv[d + 1]);
        assert!(kv[d] > 0);
    }
    // against the real Gaussian, within fixed-point truncation error
    for j in 0..9usize {
        let d = (j as f64) - 4.0;
        let expected = 65536.0 * (-d * d / 8.0).exp();
        let got = kv[j] as f64;
        assert!((got - expected).abs() <= 2.0, "tap {j}: {got} vs {expected}");
    }
}

#[test]
fn kernel_tiny_sigma_single_tap() {
    // sigma_px = 0.375: the design diameter floor(4 * 0.375) + 1 = 2
    // holds only one odd tap, the centre
    let kv = gaussian_kernel(375);
    assert_eq!(kv, vec![65536]);
    // smoothing with a single tap leaves the raster scaled but unmoved
    let points = vec![pt(1, 0), pt(1, 0)];
    let (dens, _) = accumulate(&points, 3, 1);
    let sm = smooth(dens, &kv);
    assert_eq!(sm.cells, vec![0, 2 * 65536, 0]);
}

#[test]
fn smoothing_mass_nonnegative_and_centered() {
    // one point in the middle of a 9x9 raster, sigma_px = 1
    let points = vec![pt(4, 4)];
    let (dens, accepted) = accumulate(&points, 9, 9);
    assert_eq!(accepted, 1);
    let kv = gaussian_kernel(1000);
    assert_eq!(kv.len(), 5);
    let sm = smooth(dens, &kv);
    assert_eq!(sm.width, 9);
    assert_eq!(sm.height, 9);
    let center = sm.cells[4 * 9 + 4];
    for y in 0..9usize {
        for x in 0..9usize {
            let v = sm.cells[y * 9 + x];
            assert!(v <= center);
            // symmetry of the separable kernel
            assert_eq!(v, sm.cells[y * 9 + (8 - x)]);
            assert_eq!(v, sm.cells[(8 - y) * 9 + x]);
        }
    }
    assert!(center > 0);
    // mass is spread, not amplified: total stays near one unit of SCALE
    let total: u64 = sm.cells.iter().sum();
    assert!(total <= 65536);
    assert!(total > 50000);
}

#[test]
fn smoothing_zero_raster_stays_zero() {
    let dens = raster(7, 5, vec![0; 35]);
    let kv = gaussian_kernel(1500);
    let sm = smooth(dens, &kv);
    assert!(sm.cells.iter().all(|&v| v == 0));
}

#[test]
fn normalization_range() {
    let r = raster(3, 1, vec![3, 1, 2]);
    let m = max_cell(&r);
    assert_eq!(m, 3);
    let n = normalize(r);
    assert_eq!(n.cells, vec![65536, 21845, 43690]);
    assert!(n.cells.iter().all(|&v| v <= 65536));
    assert!(n.cells.iter().any(|&v| v == 65536));
}

#[test]
fn degenerate_normalization() {
    let r = raster(4, 2, vec![0; 8]);
    let n = normalize(r);
    assert!(n.cells.iter().all(|&v| v == 0));
}

#[test]
fn colormap_endpoint_exactness() {
    let pal = coolwarm();
    // intensity 0: first stop (0.2298057, 0.298717966, 0.753683153)
    let (b, g, r) = colorize_value(&pal, 0);
    assert_eq!((b, g, r), (192, 76, 58));
    // intensity SCALE: last stop (0.705673158, 0.01555616, 0.150232812)
    let (b, g, r) = colorize_value(&pal, 65536);
    assert_eq!((b, g, r), (38, 3, 179));
}

#[test]
fn colormap_exact_stop_hit() {
    let pal = coolwarm();
    // v = SCALE/2 lands exactly on stop 16, the near-grey middle
    let (b, g, r) = colorize_value(&pal, 32768);
    assert_eq!((b, g, r), (220, 220, 220));
}

#[test]
fn colormap_monotonic_continuity() {
    let pal = coolwarm();
    let mut prev = colorize_value(&pal, 0);
    for v in 1..=4096u64 {
        let cur = colorize_value(&pal, v * 16);
        // 16 fixed-point units cover 1/4096 of the range: each channel
        // may move only a few counts, never jump
        assert!((cur.0 as i32 - prev.0 as i32).abs() <= 2);
        assert!((cur.1 as i32 - prev.1 as i32).abs() <= 2);
        assert!((cur.2 as i32 - prev.2 as i32).abs() <= 2);
        prev = cur;
    }
}

#[test]
fn blend_identity() {
    let img = ColorImage { width: 2, height: 1, bytes: vec![10, 20, 30, 40, 50, 60] };
    let stim = ColorImage { width: 2, height: 1, bytes: vec![200, 190, 180, 170, 160, 150] };
    let full = blend(
        ColorImage { width: 2, height: 1, bytes: img.bytes.clone() },
        &stim,
        1000,
    )
    .unwrap();
    assert_eq!(full.bytes, img.bytes);
    let none = blend(
        ColorImage { width: 2, height: 1, bytes: img.bytes.clone() },
        &stim,
        0,
    )
    .unwrap();
    assert_eq!(none.bytes, stim.bytes);
}

#[test]
fn blend_half_rounds_to_nearest() {
    let img = ColorImage { width: 1, height: 1, bytes: vec![100, 0, 255] };
    let stim = ColorImage { width: 1, height: 1, bytes: vec![200, 1, 255] };
    let out = blend(img, &stim, 500).unwrap();
    // (100*500 + 200*500 + 500) / 1000 = 150; (0+1)/2 rounds half up to 1
    assert_eq!(out.bytes, vec![150, 1, 255]);
}

#[test]
fn blend_dimension_mismatch_is_error() {
    let img = ColorImage { width: 2, height: 1, bytes: vec![0; 6] };
    let stim = ColorImage { width: 1, height: 2, bytes: vec![0; 6] };
    match blend(img, &stim, 500) {
        Err(BlendError::DimensionMismatch) => {}
        _ => panic!("mismatched dimensions must be refused"),
    }
}

#[test]
fn colorize_writes_bgr_pixels() {
    let pal = coolwarm();
    let r = raster(2, 1, vec![0, 65536]);
    let img = colorize(&r, &pal);
    assert_eq!(img.bytes.len(), 6);
    assert_eq!(&img.bytes[0..3], &[192, 76, 58]); // coldest, as B,G,R
    assert_eq!(&img.bytes[3..6], &[38, 3, 179]); // hottest, as B,G,R
}
