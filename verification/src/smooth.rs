//! GaussianSmoother: separable convolution of the density raster.
//!
//! The raster is convolved once along rows and once along columns with
//! the same odd, symmetric tap-weight vector. Cells beyond the raster
//! edge count as constant zero, so density near the border is
//! attenuated rather than wrapped or reflected. Each pass divides by
//! the weight total (a normalized kernel); the row pass first scales by
//! `SCALE`, so the smoothed raster carries fixed-point intensities over
//! `SCALE` and sub-unit densities survive the integer division.

use vstd::prelude::*;

use vstd::arithmetic::div_mod::{
    lemma_div_is_ordered, lemma_div_multiples_vanish, lemma_div_pos_is_pos,
};
use vstd::arithmetic::mul::{
    lemma_mul_by_zero_is_zero, lemma_mul_is_distributive_add_other_way, lemma_mul_nonnegative,
    lemma_mul_upper_bound,
};

use crate::raster::{Raster, SCALE};

verus! {

/// Largest input intensity the smoother accepts per cell.
pub const SMOOTH_CELL_MAX: u64 = 4294967296;

/// Largest tap count the smoother accepts.
pub const SMOOTH_TAPS_MAX: u64 = 16777216;

/// Tap distance of the kernel's centre: taps cover `-radius ..= radius`.
pub open spec fn radius_of(wt: Seq<u64>) -> int {
    (wt.len() - 1) as int / 2
}

/// The intensity of cell (x, y), zero outside the raster.
pub open spec fn cell_at(s: Seq<u64>, w: int, h: int, x: int, y: int) -> u64 {
    if 0 <= x < w && 0 <= y < h {
        s[y * w + x]
    } else {
        0
    }
}

/// Sum of the first `k` tap weights.
pub open spec fn weight_total(wt: Seq<u64>, k: nat) -> int
    decreases k,
{
    if k == 0 {
        0
    } else {
        weight_total(wt, (k - 1) as nat) + wt[k - 1]
    }
}

/// Row pass, first `k` taps: the weighted sum of the cells the kernel
/// reaches from (x, y) along the row.
pub open spec fn hsum(s: Seq<u64>, w: int, h: int, wt: Seq<u64>, x: int, y: int, k: nat) -> int
    decreases k,
{
    if k == 0 {
        0
    } else {
        hsum(s, w, h, wt, x, y, (k - 1) as nat) + wt[k - 1] * cell_at(
            s,
            w,
            h,
            x + (k - 1) - radius_of(wt),
            y,
        )
    }
}

/// One cell after the row pass: the weighted row average, scaled by
/// `SCALE`, truncated; zero outside the raster.
pub open spec fn hcell(s: Seq<u64>, w: int, h: int, wt: Seq<u64>, x: int, y: int) -> int {
    if 0 <= x < w && 0 <= y < h {
        SCALE * hsum(s, w, h, wt, x, y, wt.len()) / weight_total(wt, wt.len())
    } else {
        0
    }
}

/// Column pass, first `k` taps, over the row-pass cells.
pub open spec fn vsum(s: Seq<u64>, w: int, h: int, wt: Seq<u64>, x: int, y: int, k: nat) -> int
    decreases k,
{
    if k == 0 {
        0
    } else {
        vsum(s, w, h, wt, x, y, (k - 1) as nat) + wt[k - 1] * hcell(
            s,
            w,
            h,
            wt,
            x,
            y + (k - 1) - radius_of(wt),
        )
    }
}

/// One fully smoothed cell: the weighted column average of the row-pass
/// cells, truncated; fixed point over `SCALE`.
pub open spec fn smoothed_cell(s: Seq<u64>, w: int, h: int, wt: Seq<u64>, x: int, y: int) -> int {
    vsum(s, w, h, wt, x, y, wt.len()) / weight_total(wt, wt.len())
}

/// Positive weights add up to a positive, bounded total.
pub proof fn lemma_weight_total_bounds(wt: Seq<u64>, k: nat)
    requires
        k <= wt.len(),
        forall|j: int| 0 <= j < wt.len() ==> 1 <= #[trigger] wt[j] <= SCALE,
    ensures
        k <= weight_total(wt, k) <= k * SCALE,
    decreases k,
{
    if k > 0 {
        lemma_weight_total_bounds(wt, (k - 1) as nat);
    }
}

/// The row pass is non-negative and bounded by the weight total times
/// the largest cell.
pub proof fn lemma_hsum_bounds(
    s: Seq<u64>,
    w: int,
    h: int,
    wt: Seq<u64>,
    x: int,
    y: int,
    k: nat,
    cmax: int,
)
    requires
        s.len() == w * h,
        k <= wt.len(),
        0 <= cmax,
        forall|j: int| 0 <= j < wt.len() ==> 1 <= #[trigger] wt[j] <= SCALE,
        forall|i: int| 0 <= i < s.len() ==> #[trigger] s[i] <= cmax,
    ensures
        0 <= hsum(s, w, h, wt, x, y, k) <= weight_total(wt, k) * cmax,
    decreases k,
{
    if k > 0 {
        lemma_hsum_bounds(s, w, h, wt, x, y, (k - 1) as nat, cmax);
        let xx = x + (k - 1) - radius_of(wt);
        let c = cell_at(s, w, h, xx, y);
        if 0 <= xx < w && 0 <= y < h {
            assert(0 <= y * w + xx < w * h) by (nonlinear_arith)
                requires
                    0 <= xx < w && 0 <= y < h,
            ;
        }
        lemma_mul_nonnegative(wt[k - 1] as int, c as int);
        lemma_mul_upper_bound(wt[k - 1] as int, wt[k - 1] as int, c as int, cmax);
        lemma_mul_is_distributive_add_other_way(cmax, weight_total(wt, (k - 1) as nat), wt[k - 1] as int);
    }
}

/// One row-pass cell is non-negative and bounded by `SCALE` times the
/// largest input cell.
pub proof fn lemma_hcell_bounds(s: Seq<u64>, w: int, h: int, wt: Seq<u64>, x: int, y: int, cmax: int)
    requires
        s.len() == w * h,
        1 <= wt.len(),
        0 <= cmax,
        forall|j: int| 0 <= j < wt.len() ==> 1 <= #[trigger] wt[j] <= SCALE,
        forall|i: int| 0 <= i < s.len() ==> #[trigger] s[i] <= cmax,
    ensures
        0 <= hcell(s, w, h, wt, x, y) <= SCALE * cmax,
{
    if 0 <= x < w && 0 <= y < h {
        let hs = hsum(s, w, h, wt, x, y, wt.len());
        let ws = weight_total(wt, wt.len());
        lemma_hsum_bounds(s, w, h, wt, x, y, wt.len(), cmax);
        lemma_weight_total_bounds(wt, wt.len());
        lemma_mul_nonnegative(SCALE as int, hs);
        lemma_div_pos_is_pos(SCALE * hs, ws);
        assert(SCALE * hs <= ws * (SCALE * cmax)) by (nonlinear_arith)
            requires
                hs <= ws * cmax,
        ;
        lemma_div_is_ordered(SCALE * hs, ws * (SCALE * cmax), ws);
        lemma_div_multiples_vanish(SCALE * cmax, ws);
    }
}

/// The column pass is non-negative and bounded by the weight total
/// times the largest row-pass cell.
pub proof fn lemma_vsum_bounds(
    s: Seq<u64>,
    w: int,
    h: int,
    wt: Seq<u64>,
    x: int,
    y: int,
    k: nat,
    cmax: int,
)
    requires
        s.len() == w * h,
        1 <= wt.len(),
        k <= wt.len(),
        0 <= cmax,
        forall|j: int| 0 <= j < wt.len() ==> 1 <= #[trigger] wt[j] <= SCALE,
        forall|i: int| 0 <= i < s.len() ==> #[trigger] s[i] <= cmax,
    ensures
        0 <= vsum(s, w, h, wt, x, y, k) <= weight_total(wt, k) * (SCALE * cmax),
    decreases k,
{
    if k > 0 {
        lemma_vsum_bounds(s, w, h, wt, x, y, (k - 1) as nat, cmax);
        let c = hcell(s, w, h, wt, x, y + (k - 1) - radius_of(wt));
        lemma_hcell_bounds(s, w, h, wt, x, y + (k - 1) - radius_of(wt), cmax);
        lemma_mul_nonnegative(wt[k - 1] as int, c);
        lemma_mul_upper_bound(wt[k - 1] as int, wt[k - 1] as int, c, SCALE * cmax);
        lemma_mul_is_distributive_add_other_way(
            SCALE * cmax,
            weight_total(wt, (k - 1) as nat),
            wt[k - 1] as int,
        );
    }
}

/// Positive weights add up to at least one unit per tap.
proof fn lemma_weight_total_lower(wt: Seq<u64>, k: nat)
    requires
        k <= wt.len(),
        forall|j: int| 0 <= j < wt.len() ==> 1 <= #[trigger] wt[j],
    ensures
        k <= weight_total(wt, k),
    decreases k,
{
    if k > 0 {
        lemma_weight_total_lower(wt, (k - 1) as nat);
    }
}

/// The row pass never sums anything negative.
proof fn lemma_hsum_nonneg(s: Seq<u64>, w: int, h: int, wt: Seq<u64>, x: int, y: int, k: nat)
    requires
        k <= wt.len(),
    ensures
        0 <= hsum(s, w, h, wt, x, y, k),
    decreases k,
{
    if k > 0 {
        lemma_hsum_nonneg(s, w, h, wt, x, y, (k - 1) as nat);
        lemma_mul_nonnegative(
            wt[k - 1] as int,
            cell_at(s, w, h, x + (k - 1) - radius_of(wt), y) as int,
        );
    }
}

/// No row-pass cell is negative.
proof fn lemma_hcell_nonneg(s: Seq<u64>, w: int, h: int, wt: Seq<u64>, x: int, y: int)
    requires
        1 <= wt.len(),
        forall|j: int| 0 <= j < wt.len() ==> 1 <= #[trigger] wt[j],
    ensures
        0 <= hcell(s, w, h, wt, x, y),
{
    if 0 <= x < w && 0 <= y < h {
        lemma_hsum_nonneg(s, w, h, wt, x, y, wt.len());
        lemma_weight_total_lower(wt, wt.len());
        lemma_mul_nonnegative(SCALE as int, hsum(s, w, h, wt, x, y, wt.len()));
        lemma_div_pos_is_pos(
            SCALE * hsum(s, w, h, wt, x, y, wt.len()),
            weight_total(wt, wt.len()),
        );
    }
}

/// The column pass never sums anything negative.
proof fn lemma_vsum_nonneg(s: Seq<u64>, w: int, h: int, wt: Seq<u64>, x: int, y: int, k: nat)
    requires
        1 <= wt.len(),
        k <= wt.len(),
        forall|j: int| 0 <= j < wt.len() ==> 1 <= #[trigger] wt[j],
    ensures
        0 <= vsum(s, w, h, wt, x, y, k),
    decreases k,
{
    if k > 0 {
        lemma_vsum_nonneg(s, w, h, wt, x, y, (k - 1) as nat);
        lemma_hcell_nonneg(s, w, h, wt, x, y + (k - 1) - radius_of(wt));
        lemma_mul_nonnegative(wt[k - 1] as int, hcell(s, w, h, wt, x, y + (k - 1) - radius_of(wt)));
    }
}

/// Smoothing mass non-negativity: with positive tap weights every
/// smoothed cell is non-negative, for every input raster and every
/// coordinate — the weighted sums hold nothing negative.
pub proof fn lemma_smoothed_cell_nonneg(s: Seq<u64>, w: int, h: int, wt: Seq<u64>, x: int, y: int)
    requires
        1 <= wt.len(),
        forall|j: int| 0 <= j < wt.len() ==> 1 <= #[trigger] wt[j],
    ensures
        0 <= smoothed_cell(s, w, h, wt, x, y),
{
    lemma_vsum_nonneg(s, w, h, wt, x, y, wt.len());
    lemma_weight_total_lower(wt, wt.len());
    lemma_div_pos_is_pos(vsum(s, w, h, wt, x, y, wt.len()), weight_total(wt, wt.len()));
}

/// Sum the first `k` tap weights, executable side.
#[verifier::loop_isolation(false)]
fn weight_sum(weights: &Vec<u64>) -> (ws: u64)
    requires
        1 <= weights@.len() <= SMOOTH_TAPS_MAX,
        forall|j: int| 0 <= j < weights@.len() ==> 1 <= #[trigger] weights@[j] <= SCALE,
    ensures
        ws == weight_total(weights@, weights@.len()),
        weights@.len() <= ws <= weights@.len() * SCALE,
{
    let mut ws: u64 = 0;
    let mut k: usize = 0;
    while k < weights.len()
        invariant
            k <= weights@.len(),
            ws == weight_total(weights@, k as nat),
            k <= ws <= k * SCALE,
        decreases weights@.len() - k,
    {
        ws = ws + weights[k];
        k = k + 1;
    }
    ws
}

/// GaussianSmoother: convolve the raster with the tap weights, rows
/// then columns, zero beyond the borders, yielding fixed-point
/// intensities over `SCALE`.
#[verifier::loop_isolation(false)]
pub fn smooth(r: Raster, weights: &Vec<u64>) -> (out: Raster)
    requires
        r.wf(),
        r.width <= 100000000,
        r.height <= 100000000,
        1 <= weights@.len() <= SMOOTH_TAPS_MAX,
        weights@.len() % 2 == 1,
        forall|j: int| 0 <= j < weights@.len() ==> 1 <= #[trigger] weights@[j] <= SCALE,
        forall|i: int| 0 <= i < r.cells@.len() ==> #[trigger] r.cells@[i] <= SMOOTH_CELL_MAX,
    ensures
        out.wf(),
        out.width == r.width,
        out.height == r.height,
        forall|x: int, y: int|
            0 <= x < r.width && 0 <= y < r.height ==> out.cells@[y * r.width + x] == smoothed_cell(
                r.cells@,
                r.width as int,
                r.height as int,
                weights@,
                x,
                y,
            ),
{
    let w = r.width;
    let h = r.height;
    let len = weights.len();
    let radius: usize = (len - 1) / 2;
    let ws = weight_sum(weights);
    let ghost s = r.cells@;
    let ghost wi = w as int;
    let ghost hi = h as int;
    let cmax = SMOOTH_CELL_MAX;

    let mut tmp: Vec<u64> = Vec::new();
    let mut y: usize = 0;
    while y < h
        invariant
            y <= h,
            tmp@.len() == y * w,
            forall|xx: int, yy: int|
                0 <= xx < wi && 0 <= yy < y ==> tmp@[yy * wi + xx] == hcell(s, wi, hi, weights@, xx, yy),
        decreases h - y,
    {
        let mut x: usize = 0;
        while x < w
            invariant
                x <= w,
                y < h,
                tmp@.len() == y * w + x,
                forall|xx: int, yy: int|
                    0 <= xx < wi && 0 <= yy < y ==> tmp@[yy * wi + xx] == hcell(
                        s,
                        wi,
                        hi,
                        weights@,
                        xx,
                        yy,
                    ),
                forall|xx: int| 0 <= xx < x ==> tmp@[y * wi + xx] == hcell(s, wi, hi, weights@, xx, y as int),
            decreases w - x,
        {
            let mut acc: u128 = 0;
            let mut k: usize = 0;
            while k < len
                invariant
                    k <= len,
                    x < w,
                    y < h,
                    acc == hsum(s, wi, hi, weights@, x as int, y as int, k as nat),
                decreases len - k,
            {
                proof {
                    lemma_hsum_bounds(s, wi, hi, weights@, x as int, y as int, k as nat, cmax as int);
                    lemma_hsum_bounds(
                        s,
                        wi,
                        hi,
                        weights@,
                        x as int,
                        y as int,
                        (k + 1) as nat,
                        cmax as int,
                    );
                    lemma_weight_total_bounds(weights@, (k + 1) as nat);
                    lemma_mul_upper_bound(
                        weight_total(weights@, (k + 1) as nat),
                        weights@.len() * SCALE,
                        cmax as int,
                        cmax as int,
                    );
                    lemma_mul_upper_bound(
                        weights@.len() as int,
                        SMOOTH_TAPS_MAX as int,
                        SCALE as int,
                        SCALE as int,
                    );
                }
                if x + k >= radius && x + k - radius < w {
                    let xx = x + k - radius;
                    proof {
                        assert(0 <= y * wi + xx < wi * hi) by (nonlinear_arith)
                            requires
                                0 <= (xx as int) < wi && 0 <= (y as int) < hi,
                        ;
                        lemma_mul_upper_bound(
                            weights@[k as int] as int,
                            SCALE as int,
                            s[y * wi + xx] as int,
                            cmax as int,
                        );
                    }
                    proof {
                        assert(xx as int == x + k - radius_of(weights@));
                        assert(cell_at(s, wi, hi, x + k - radius_of(weights@), y as int) == s[y
                            * wi + xx]);
                    }
                    acc = acc + (weights[k] as u128) * (r.cells[y * w + xx] as u128);
                } else {
                    proof {
                        assert(cell_at(s, wi, hi, x + k - radius_of(weights@), y as int) == 0);
                        lemma_mul_by_zero_is_zero(weights@[k as int] as int);
                        assert(weights@[k as int] * cell_at(
                            s,
                            wi,
                            hi,
                            x + k - radius_of(weights@),
                            y as int,
                        ) == 0);
                    }
                }
                proof {
                    assert(hsum(s, wi, hi, weights@, x as int, y as int, (k + 1) as nat) == hsum(
                        s,
                        wi,
                        hi,
                        weights@,
                        x as int,
                        y as int,
                        k as nat,
                    ) + weights@[k as int] * cell_at(
                        s,
                        wi,
                        hi,
                        x + k - radius_of(weights@),
                        y as int,
                    ));
                    assert(acc == hsum(s, wi, hi, weights@, x as int, y as int, (k + 1) as nat));
                }
                k = k + 1;
            }
            proof {
                lemma_hsum_bounds(s, wi, hi, weights@, x as int, y as int, len as nat, cmax as int);
                lemma_weight_total_bounds(weights@, len as nat);
                let hs = hsum(s, wi, hi, weights@, x as int, y as int, len as nat);
                let wst = weight_total(weights@, len as nat);
                assert(SCALE * hs <= wst * (SCALE * cmax)) by (nonlinear_arith)
                    requires
                        hs <= wst * cmax,
                ;
                lemma_div_is_ordered(SCALE * hs, wst * (SCALE * cmax), wst);
                lemma_div_multiples_vanish(SCALE * cmax as int, wst);
                lemma_mul_upper_bound(wst, weights@.len() * SCALE, SCALE * cmax, SCALE * cmax);
                lemma_mul_upper_bound(
                    weights@.len() as int,
                    SMOOTH_TAPS_MAX as int,
                    SCALE as int,
                    SCALE as int,
                );
            }
            let val: u64 = (((SCALE as u128) * acc) / (ws as u128)) as u64;
            tmp.push(val);
            proof {
                assert(tmp@.len() == y * wi + x + 1);
                assert forall|xx: int| 0 <= xx < x + 1 implies tmp@[y * wi + xx] == hcell(
                    s,
                    wi,
                    hi,
                    weights@,
                    xx,
                    y as int,
                ) by {
                    if xx < x {
                        assert(tmp@[y * wi + xx] == tmp@.drop_last()[y * wi + xx]);
                    }
                }
                assert forall|xx: int, yy: int| 0 <= xx < wi && 0 <= yy < y implies tmp@[yy * wi
                    + xx] == hcell(s, wi, hi, weights@, xx, yy) by {
                    assert(0 <= yy * wi + xx < y * wi) by (nonlinear_arith)
                        requires
                            0 <= xx < wi && 0 <= yy < y as int,
                    ;
                    assert(tmp@[yy * wi + xx] == tmp@.drop_last()[yy * wi + xx]);
                }
            }
            x = x + 1;
        }
        proof {
            assert(y * wi + wi == (y + 1) * wi) by (nonlinear_arith);
            assert forall|xx: int, yy: int| 0 <= xx < wi && 0 <= yy < y + 1 implies tmp@[yy * wi
                + xx] == hcell(s, wi, hi, weights@, xx, yy) by {
                assert(0 <= yy * wi + xx < (y + 1) * wi) by (nonlinear_arith)
                    requires
                        0 <= xx < wi && 0 <= yy < y + 1,
                ;
            }
        }
        y = y + 1;
    }

    let ghost tv = tmp@;
    let mut cells: Vec<u64> = Vec::new();
    let mut y2: usize = 0;
    while y2 < h
        invariant
            y2 <= h,
            tv.len() == wi * hi,
            forall|xx: int, yy: int|
                0 <= xx < wi && 0 <= yy < hi ==> tv[yy * wi + xx] == hcell(s, wi, hi, weights@, xx, yy),
            cells@.len() == y2 * w,
            forall|xx: int, yy: int|
                0 <= xx < wi && 0 <= yy < y2 ==> cells@[yy * wi + xx] == smoothed_cell(
                    s,
                    wi,
                    hi,
                    weights@,
                    xx,
                    yy,
                ),
        decreases h - y2,
    {
        let mut x2: usize = 0;
        while x2 < w
            invariant
                x2 <= w,
                y2 < h,
                cells@.len() == y2 * w + x2,
                forall|xx: int, yy: int|
                    0 <= xx < wi && 0 <= yy < y2 ==> cells@[yy * wi + xx] == smoothed_cell(
                        s,
                        wi,
                        hi,
                        weights@,
                        xx,
                        yy,
                    ),
                forall|xx: int|
                    0 <= xx < x2 ==> cells@[y2 * wi + xx] == smoothed_cell(
                        s,
                        wi,
                        hi,
                        weights@,
                        xx,
                        y2 as int,
                    ),
            decreases w - x2,
        {
            let mut acc: u128 = 0;
            let mut k: usize = 0;
            while k < len
                invariant
                    k <= len,
                    x2 < w,
                    y2 < h,
                    acc == vsum(s, wi, hi, weights@, x2 as int, y2 as int, k as nat),
                decreases len - k,
            {
                proof {
                    lemma_vsum_bounds(s, wi, hi, weights@, x2 as int, y2 as int, k as nat, cmax as int);
                    lemma_vsum_bounds(
                        s,
                        wi,
                        hi,
                        weights@,
                        x2 as int,
                        y2 as int,
                        (k + 1) as nat,
                        cmax as int,
                    );
                    lemma_weight_total_bounds(weights@, (k + 1) as nat);
                    lemma_mul_upper_bound(
                        weight_total(weights@, (k + 1) as nat),
                        weights@.len() * SCALE,
                        SCALE * cmax as int,
                        SCALE * cmax as int,
                    );
                    lemma_mul_upper_bound(
                        weights@.len() as int,
                        SMOOTH_TAPS_MAX as int,
                        SCALE as int,
                        SCALE as int,
                    );
                    lemma_hcell_bounds(
                        s,
                        wi,
                        hi,
                        weights@,
                        x2 as int,
                        y2 + k - radius_of(weights@),
                        cmax as int,
                    );
                }
                if y2 + k >= radius && y2 + k - radius < h {
                    let yy = y2 + k - radius;
                    proof {
                        assert(0 <= yy * wi + x2 < wi * hi) by (nonlinear_arith)
                            requires
                                0 <= (x2 as int) < wi && 0 <= (yy as int) < hi,
                        ;
                        lemma_mul_upper_bound(
                            weights@[k as int] as int,
                            SCALE as int,
                            tv[yy * wi + x2] as int,
                            SCALE * cmax as int,
                        );
                    }
                    acc = acc + (weights[k] as u128) * (tmp[yy * w + x2] as u128);
                } else {
                    proof {
                        assert(hcell(s, wi, hi, weights@, x2 as int, y2 + k - radius_of(weights@))
                            == 0);
                        lemma_mul_by_zero_is_zero(weights@[k as int] as int);
                        assert(weights@[k as int] * hcell(
                            s,
                            wi,
                            hi,
                            weights@,
                            x2 as int,
                            y2 + k - radius_of(weights@),
                        ) == 0);
                    }
                }
                k = k + 1;
            }
            proof {
                lemma_vsum_bounds(s, wi, hi, weights@, x2 as int, y2 as int, len as nat, cmax as int);
                lemma_weight_total_bounds(weights@, len as nat);
                let vs = vsum(s, wi, hi, weights@, x2 as int, y2 as int, len as nat);
                let wst = weight_total(weights@, len as nat);
                lemma_div_is_ordered(vs, wst * (SCALE * cmax), wst);
                lemma_div_multiples_vanish(SCALE * cmax as int, wst);
            }
            let val: u64 = (acc / (ws as u128)) as u64;
            cells.push(val);
            proof {
                assert forall|xx: int| 0 <= xx < x2 + 1 implies cells@[y2 * wi + xx]
                    == smoothed_cell(s, wi, hi, weights@, xx, y2 as int) by {
                    if xx < x2 {
                        assert(cells@[y2 * wi + xx] == cells@.drop_last()[y2 * wi + xx]);
                    }
                }
                assert forall|xx: int, yy: int| 0 <= xx < wi && 0 <= yy < y2 implies cells@[yy * wi
                    + xx] == smoothed_cell(s, wi, hi, weights@, xx, yy) by {
                    assert(0 <= yy * wi + xx < y2 * wi) by (nonlinear_arith)
                        requires
                            0 <= xx < wi && 0 <= yy < y2 as int,
                    ;
                    assert(cells@[yy * wi + xx] == cells@.drop_last()[yy * wi + xx]);
                }
            }
            x2 = x2 + 1;
        }
        proof {
            assert(y2 * wi + wi == (y2 + 1) * wi) by (nonlinear_arith);
            assert forall|xx: int, yy: int| 0 <= xx < wi && 0 <= yy < y2 + 1 implies cells@[yy * wi
                + xx] == smoothed_cell(s, wi, hi, weights@, xx, yy) by {
                assert(0 <= yy * wi + xx < (y2 + 1) * wi) by (nonlinear_arith)
                    requires
                        0 <= xx < wi && 0 <= yy < y2 + 1,
                ;
            }
        }
        y2 = y2 + 1;
    }
    proof {
        assert(hi * wi == wi * hi) by (nonlinear_arith);
    }
    Raster { width: w, height: h, cells }
}

} // verus!
