//! GaussianSmoother's kernel: sizing rule and fixed-point tap weights.
//!
//! The pixel-space standard deviation arrives in thousandths of a pixel
//! (`sigma_mpx`), the product of the visual-angle sigma and the
//! pixel-per-degree ratio. The kernel diameter is the design constant
//! `floor(sigma_px * 4) + 1`, an odd tap count covering two standard
//! deviations on each side of the centre. A tap at distance `d` weighs
//! `SCALE / exp(d^2 / (2 * sigma_px^2))`, the unnormalized Gaussian
//! evaluated by a truncated power series in exact integer arithmetic.

use vstd::prelude::*;

use vstd::arithmetic::div_mod::{
    lemma_div_is_ordered, lemma_div_is_ordered_by_denominator, lemma_div_multiples_vanish,
    lemma_div_non_zero, lemma_fundamental_div_mod,
};
use vstd::arithmetic::mul::{lemma_mul_inequality, lemma_mul_upper_bound};

use crate::raster::SCALE;

verus! {

/// Largest accepted sigma, in thousandths of a pixel (a million pixels).
pub const SIGMA_MPX_MAX: u64 = 1000000000;

/// How many power-series terms the exponential evaluation sums.
pub const EXP_TERMS: u64 = 25;

/// Numerator of the Gaussian exponent `d^2 / (2 * sigma_px^2)` once both
/// sides are brought to thousandths of a pixel.
pub open spec fn gauss_qnum(d: u64) -> int {
    d * d * 1000000
}

/// Denominator of the Gaussian exponent.
pub open spec fn gauss_qden(sigma_mpx: u64) -> int {
    2 * sigma_mpx * sigma_mpx
}

/// Term `k` of the power series of `exp(qnum / qden)`, over `SCALE`,
/// with every quotient truncated: term 0 is `SCALE`, term `k` is the
/// previous term times `qnum / (qden * k)`.
pub open spec fn exp_term(qnum: int, qden: int, k: nat) -> int
    decreases k,
{
    if k == 0 {
        SCALE as int
    } else {
        exp_term(qnum, qden, (k - 1) as nat) * qnum / (qden * k)
    }
}

/// Sum of the first `n` power-series terms.
pub open spec fn exp_sum(qnum: int, qden: int, n: nat) -> int
    decreases n,
{
    if n == 0 {
        0
    } else {
        exp_sum(qnum, qden, (n - 1) as nat) + exp_term(qnum, qden, (n - 1) as nat)
    }
}

/// The weight of a tap at pixel distance `d`: the reciprocal Gaussian
/// `SCALE^2 / (SCALE * exp(d^2 / (2 sigma^2)))`, over `SCALE`.
pub open spec fn gauss_weight_spec(d: u64, sigma_mpx: u64) -> int {
    SCALE * SCALE / exp_sum(gauss_qnum(d), gauss_qden(sigma_mpx), EXP_TERMS as nat)
}

/// Half the kernel's tap count: taps run over distances `-radius ..= radius`.
pub open spec fn kernel_radius(sigma_mpx: u64) -> int {
    (4 * sigma_mpx / 1000) / 2
}

/// Distance of tap `j` from the kernel's centre.
pub open spec fn tap_dist(j: int, radius: int) -> int {
    if j < radius {
        radius - j
    } else {
        j - radius
    }
}

/// The kernel diameter of the design: `floor(sigma_px * 4) + 1` taps.
pub fn kernel_window(sigma_mpx: u64) -> (w: usize)
    requires
        sigma_mpx <= SIGMA_MPX_MAX,
    ensures
        w == 4 * sigma_mpx / 1000 + 1,
{
    (4 * sigma_mpx / 1000 + 1) as usize
}

/// Evaluate one tap weight by the truncated exponential series.
fn gauss_weight(d: u64, sigma_mpx: u64) -> (w: u64)
    requires
        1 <= sigma_mpx <= SIGMA_MPX_MAX,
        d * 1000 <= 2 * sigma_mpx,
    ensures
        w == gauss_weight_spec(d, sigma_mpx),
        1 <= w <= SCALE,
{
    proof {
        assert(d * d * 1000000 <= 4 * sigma_mpx * sigma_mpx) by (nonlinear_arith)
            requires
                d * 1000 <= 2 * sigma_mpx,
        ;
        assert(d * d * 1000000 <= 4000000000000000000) by (nonlinear_arith)
            requires
                d * 1000 <= 2 * sigma_mpx && sigma_mpx <= 1000000000,
        ;
        assert(1 <= 2 * sigma_mpx * sigma_mpx <= 2000000000000000000) by (nonlinear_arith)
            requires
                1 <= sigma_mpx <= 1000000000,
        ;
    }
    let qnum: u64 = d * d * 1000000;
    let qden: u64 = 2 * sigma_mpx * sigma_mpx;
    proof {
        assert(2 * qden == 4 * sigma_mpx * sigma_mpx) by (nonlinear_arith)
            requires
                qden == 2 * sigma_mpx * sigma_mpx,
        ;
        assert(exp_sum(qnum as int, qden as int, 0) == 0);
        assert(exp_term(qnum as int, qden as int, 0) == SCALE);
        assert(exp_sum(qnum as int, qden as int, 1) == SCALE);
    }
    let mut t: u64 = SCALE;
    let mut sum: u64 = SCALE;
    let mut k: u64 = 1;
    while k < EXP_TERMS
        invariant
            1 <= k <= EXP_TERMS,
            1 <= qden,
            qnum <= 2 * qden,
            qnum <= 4000000000000000000,
            qden <= 2000000000000000000,
            qnum == gauss_qnum(d),
            qden == gauss_qden(sigma_mpx),
            t == exp_term(qnum as int, qden as int, (k - 1) as nat),
            sum == exp_sum(qnum as int, qden as int, k as nat),
            t <= 2 * SCALE,
            SCALE <= sum <= (2 * k - 1) * SCALE,
        decreases EXP_TERMS - k,
    {
        proof {
            let ti = t as int;
            let qn = qnum as int;
            let qd = qden as int;
            let ki = k as int;
            assert(1 <= qd * ki) by (nonlinear_arith)
                requires
                    1 <= qd && 1 <= ki,
            ;
            lemma_mul_inequality(qn, 2 * qd, ti);
            assert(qn * ti == ti * qn) by (nonlinear_arith);
            lemma_div_is_ordered(ti * qn, ti * (2 * qd), qd * ki);
            assert(ti * (2 * qd) == (2 * qd) * ti) by (nonlinear_arith);
            lemma_mul_inequality(1, ki, qd);
            assert(ki * qd == qd * ki) by (nonlinear_arith);
            lemma_div_is_ordered_by_denominator((2 * qd) * ti, qd, qd * ki);
            lemma_div_multiples_vanish(2 * ti, qd);
            assert(qd * (2 * ti) == (2 * qd) * ti) by (nonlinear_arith);
            assert(ti * qn / (qd * ki) <= 2 * ti);
            if k >= 2 {
                lemma_mul_inequality(2, ki, qd);
                assert(2 * qd == qd * 2 && ki * qd == qd * ki) by (nonlinear_arith);
                lemma_div_is_ordered_by_denominator((2 * qd) * ti, 2 * qd, qd * ki);
                lemma_div_multiples_vanish(ti, 2 * qd);
                assert((2 * qd) * ti == ti * (2 * qd)) by (nonlinear_arith);
                assert(ti * qn / (qd * ki) <= ti);
            }
            lemma_mul_upper_bound(ti, 2 * SCALE as int, qn, 4000000000000000000);
            lemma_mul_upper_bound(qd, 2000000000000000000, ki, 25);
        }
        let tn128: u128 = (t as u128) * (qnum as u128) / ((qden as u128) * (k as u128));
        let tn: u64 = tn128 as u64;
        proof {
            assert(exp_term(qnum as int, qden as int, k as nat) == exp_term(
                qnum as int,
                qden as int,
                (k - 1) as nat,
            ) * qnum / (qden * k as int));
        }
        sum = sum + tn;
        t = tn;
        k = k + 1;
    }
    proof {
        lemma_div_is_ordered_by_denominator((SCALE * SCALE) as int, SCALE as int, sum as int);
        lemma_div_multiples_vanish(SCALE as int, SCALE as int);
        lemma_div_non_zero((SCALE * SCALE) as int, sum as int);
    }
    let w: u64 = SCALE * SCALE / sum;
    w
}

/// Build the kernel's full tap-weight vector, centre tap in the middle.
///
/// The vector has `2 * kernel_radius + 1` taps (the odd count inside the
/// design diameter); tap `j` weighs the Gaussian at its distance from
/// the centre, so the vector is symmetric and every weight is positive.
#[verifier::loop_isolation(false)]
pub fn gaussian_kernel(sigma_mpx: u64) -> (kv: Vec<u64>)
    requires
        1 <= sigma_mpx <= SIGMA_MPX_MAX,
    ensures
        kv@.len() == 2 * kernel_radius(sigma_mpx) + 1,
        forall|j: int|
            0 <= j < kv@.len() ==> kv@[j] == gauss_weight_spec(
                tap_dist(j, kernel_radius(sigma_mpx)) as u64,
                sigma_mpx,
            ) && 1 <= kv@[j] <= SCALE,
{
    let window = kernel_window(sigma_mpx);
    let radius: usize = (window - 1) / 2;
    proof {
        lemma_fundamental_div_mod(4 * sigma_mpx as int, 1000);
        lemma_fundamental_div_mod(4 * sigma_mpx / 1000 as int, 2);
    }
    let mut kv: Vec<u64> = Vec::new();
    let mut j: usize = 0;
    while j < 2 * radius + 1
        invariant
            radius == kernel_radius(sigma_mpx),
            2 * radius * 1000 <= 4 * sigma_mpx,
            j <= 2 * radius + 1,
            kv@.len() == j,
            forall|i: int|
                0 <= i < j ==> kv@[i] == gauss_weight_spec(
                    tap_dist(i, radius as int) as u64,
                    sigma_mpx,
                ) && 1 <= kv@[i] <= SCALE,
        decreases 2 * radius + 1 - j,
    {
        let d: usize = if j < radius {
            radius - j
        } else {
            j - radius
        };
        let w = gauss_weight(d as u64, sigma_mpx);
        kv.push(w);
        j = j + 1;
    }
    kv
}

} // verus!
