//! Blender: alpha-compositing the colorized raster over a stimulus image.

use vstd::prelude::*;

use vstd::arithmetic::div_mod::{lemma_div_is_ordered, lemma_div_multiples_vanish_fancy};
use vstd::arithmetic::mul::lemma_mul_inequality;

use crate::raster::ColorImage;

verus! {

/// Denominator of a blend ratio: `alpha / BLEND_DEN` is the weight of
/// the colorized raster, the stimulus gets the complement.
pub const BLEND_DEN: u64 = 1000;

/// Why a blend was refused.
#[derive(Clone, Copy, Debug, PartialEq, Eq, Structural)]
pub enum BlendError {
    /// The stimulus image's dimensions differ from the raster's.
    DimensionMismatch,
}

/// One blended channel: the weighted mix of the colorized byte `c` and
/// the stimulus byte `s`, rounded to the nearest byte (half away from
/// zero).
pub open spec fn blend_byte(c: u8, s: u8, alpha: u64) -> int {
    (c * alpha + s * (BLEND_DEN - alpha) + BLEND_DEN / 2) / BLEND_DEN as int
}

/// Mix every channel of the colorized image over the stimulus with
/// weight `alpha / BLEND_DEN`; a dimension mismatch is surfaced as an
/// error before any arithmetic, never resized away.
#[verifier::loop_isolation(false)]
pub fn blend(img: ColorImage, stimulus: &ColorImage, alpha: u64) -> (r: Result<
    ColorImage,
    BlendError,
>)
    requires
        img.wf(),
        stimulus.wf(),
        alpha <= BLEND_DEN,
    ensures
        r is Ok <==> (img.width == stimulus.width && img.height == stimulus.height),
        r matches Ok(out) ==> out.wf() && out.width == img.width && out.height == img.height
            && forall|i: int|
            0 <= i < out.bytes@.len() ==> out.bytes@[i] == blend_byte(
                img.bytes@[i],
                stimulus.bytes@[i],
                alpha,
            ),
        r is Err ==> r matches Err(BlendError::DimensionMismatch),
{
    if img.width != stimulus.width || img.height != stimulus.height {
        return Err(BlendError::DimensionMismatch);
    }
    let n = img.bytes.len();
    let mut bytes: Vec<u8> = Vec::new();
    let mut i: usize = 0;
    while i < n
        invariant
            i <= n,
            stimulus.bytes@.len() == n,
            bytes@.len() == i,
            forall|j: int|
                0 <= j < i ==> bytes@[j] == blend_byte(img.bytes@[j], stimulus.bytes@[j], alpha),
        decreases n - i,
    {
        let c = img.bytes[i] as u64;
        let s = stimulus.bytes[i] as u64;
        proof {
            lemma_mul_inequality(c as int, 255, alpha as int);
            lemma_mul_inequality(s as int, 255, (BLEND_DEN - alpha) as int);
            assert(255 * alpha + 255 * (BLEND_DEN - alpha) == 255 * BLEND_DEN)
                by (nonlinear_arith);
            lemma_div_is_ordered(
                c * alpha + s * (BLEND_DEN - alpha) + BLEND_DEN / 2,
                255 * BLEND_DEN + BLEND_DEN / 2,
                BLEND_DEN as int,
            );
        }
        let num: u64 = c * alpha + s * (BLEND_DEN - alpha) + BLEND_DEN / 2;
        bytes.push((num / BLEND_DEN) as u8);
        i = i + 1;
    }
    Ok(ColorImage { width: img.width, height: img.height, bytes })
}

/// Blend identity: full weight reproduces the colorized byte exactly,
/// zero weight reproduces the stimulus byte exactly.
pub proof fn lemma_blend_identity(c: u8, s: u8)
    ensures
        blend_byte(c, s, BLEND_DEN) == c,
        blend_byte(c, s, 0) == s,
{
    lemma_div_multiples_vanish_fancy(c as int, BLEND_DEN as int / 2, BLEND_DEN as int);
    lemma_div_multiples_vanish_fancy(s as int, BLEND_DEN as int / 2, BLEND_DEN as int);
}

} // verus!
