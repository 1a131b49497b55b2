//! ColormapInterpolator: piecewise-linear lookup in a fixed 33-stop palette.
//!
//! A normalized intensity `v` (fixed point over `SCALE`) is mapped to the
//! continuous palette position `v * 32 / SCALE`; the two neighbouring
//! stops are mixed linearly and each mixed channel is scaled by 255 and
//! truncated to a byte. Channel order is the caller's concern: the pixel
//! writer emits B, G, R while the palette is authored in R, G, B.

use vstd::prelude::*;

use vstd::arithmetic::div_mod::{
    lemma_div_is_ordered, lemma_div_multiples_vanish, lemma_fundamental_div_mod,
    lemma_fundamental_div_mod_converse,
};
use vstd::arithmetic::mul::{lemma_mul_by_zero_is_zero, lemma_mul_inequality};

use crate::raster::{ColorImage, Raster, SCALE};

verus! {

/// Denominator of a palette channel: a stored channel `c` stands for the
/// real intensity `c / PALETTE_DEN`, in the unit interval.
pub const PALETTE_DEN: u64 = 1000000000;

/// Denominator of an interpolated (not yet quantized) channel.
pub const QUANT_DEN: u64 = 65536 * 1000000000;

/// One palette stop, channels as fixed-point fractions of `PALETTE_DEN`.
#[derive(Clone, Copy, Debug, PartialEq, Eq, Structural)]
pub struct Rgb {
    pub r: u64,
    pub g: u64,
    pub b: u64,
}

/// Channel `k` of a stop, in palette order: 0 red, 1 green, 2 blue.
pub open spec fn chan(c: Rgb, k: int) -> u64 {
    if k == 0 {
        c.r
    } else if k == 1 {
        c.g
    } else {
        c.b
    }
}

/// A well-formed palette: exactly 33 stops, channels within their unit.
pub open spec fn palette_wf(p: Seq<Rgb>) -> bool {
    p.len() == 33 && forall|i: int, k: int| 0 <= i < 33 && 0 <= k < 3 ==> chan(p[i], k)
        <= PALETTE_DEN
}

/// Lower neighbouring stop of intensity `v`: floor(v * 32 / SCALE).
pub open spec fn stop_lo(v: u64) -> int {
    v * 32 / SCALE as int
}

/// Fractional position between the two stops, over `SCALE`.
pub open spec fn stop_frac(v: u64) -> int {
    v * 32 % SCALE as int
}

/// Upper neighbouring stop: ceil(v * 32 / SCALE).
pub open spec fn stop_hi(v: u64) -> int {
    if stop_frac(v) == 0 {
        stop_lo(v)
    } else {
        stop_lo(v) + 1
    }
}

/// Linearly interpolated channel `k` at intensity `v`, over `QUANT_DEN`.
pub open spec fn interp_num(p: Seq<Rgb>, v: u64, k: int) -> int {
    chan(p[stop_lo(v)], k) * (SCALE - stop_frac(v)) + chan(p[stop_hi(v)], k) * stop_frac(v)
}

/// The quantized byte of channel `k` at intensity `v`: the interpolated
/// channel scaled by 255 and truncated.
pub open spec fn byte_of(p: Seq<Rgb>, v: u64, k: int) -> int {
    interp_num(p, v, k) * 255 / QUANT_DEN as int
}

/// The neighbouring stops of an in-range intensity index the palette.
pub proof fn lemma_stops_in_range(v: u64)
    requires
        v <= SCALE,
    ensures
        0 <= stop_lo(v) <= 32,
        stop_lo(v) <= stop_hi(v) <= 32,
        0 <= stop_frac(v) < SCALE,
        v == SCALE ==> stop_lo(v) == 32 && stop_frac(v) == 0,
        v == 0 ==> stop_lo(v) == 0 && stop_frac(v) == 0,
{
    lemma_fundamental_div_mod(v * 32, SCALE as int);
}

/// Mix one channel of two stops and quantize it to a byte.
fn interp_channel(c_lo: u64, c_hi: u64, frac: u64) -> (b: u8)
    requires
        c_lo <= PALETTE_DEN,
        c_hi <= PALETTE_DEN,
        frac < SCALE,
    ensures
        b == (c_lo * (SCALE - frac) + c_hi * frac) * 255 / QUANT_DEN as int,
{
    proof {
        lemma_mul_inequality(c_lo as int, PALETTE_DEN as int, (SCALE - frac) as int);
        lemma_mul_inequality(c_hi as int, PALETTE_DEN as int, frac as int);
        assert(PALETTE_DEN * (SCALE - frac) + PALETTE_DEN * frac == PALETTE_DEN * SCALE)
            by (nonlinear_arith);
        let num = (c_lo * (SCALE - frac) + c_hi * frac) as int;
        lemma_div_is_ordered(num * 255, QUANT_DEN * 255, QUANT_DEN as int);
        lemma_div_multiples_vanish(255, QUANT_DEN as int);
    }
    let num: u64 = c_lo * (SCALE - frac) + c_hi * frac;
    ((num * 255) / QUANT_DEN) as u8
}

/// Map one normalized intensity to its B, G, R bytes.
pub fn colorize_value(palette: &Vec<Rgb>, v: u64) -> (bgr: (u8, u8, u8))
    requires
        palette_wf(palette@),
        v <= SCALE,
    ensures
        bgr.0 == byte_of(palette@, v, 2),
        bgr.1 == byte_of(palette@, v, 1),
        bgr.2 == byte_of(palette@, v, 0),
{
    proof {
        lemma_stops_in_range(v);
    }
    let idx: u64 = v * 32;
    let lo: usize = (idx / SCALE) as usize;
    let frac: u64 = idx % SCALE;
    let hi: usize = if frac == 0 {
        lo
    } else {
        lo + 1
    };
    let plo = palette[lo];
    let phi = palette[hi];
    proof {
        assert(chan(palette@[lo as int], 0) <= PALETTE_DEN);
        assert(chan(palette@[lo as int], 1) <= PALETTE_DEN);
        assert(chan(palette@[lo as int], 2) <= PALETTE_DEN);
        assert(chan(palette@[hi as int], 0) <= PALETTE_DEN);
        assert(chan(palette@[hi as int], 1) <= PALETTE_DEN);
        assert(chan(palette@[hi as int], 2) <= PALETTE_DEN);
    }
    let blue = interp_channel(plo.b, phi.b, frac);
    let green = interp_channel(plo.g, phi.g, frac);
    let red = interp_channel(plo.r, phi.r, frac);
    (blue, green, red)
}

/// The palette's 33 stops, exactly: Matplotlib's cool-to-warm table
/// with every channel scaled by `PALETTE_DEN`.
pub open spec fn coolwarm_spec() -> Seq<Rgb> {
    seq![
        Rgb { r: 229805700, g: 298717966, b: 753683153 },
        Rgb { r: 266233880, g: 353094838, b: 801466763 },
        Rgb { r: 303868910, g: 406535296, b: 844958670 },
        Rgb { r: 342804478, g: 458757618, b: 883725899 },
        Rgb { r: 383013340, g: 509419040, b: 917387822 },
        Rgb { r: 424369608, g: 558148092, b: 945619588 },
        Rgb { r: 466667080, g: 604562568, b: 968154911 },
        Rgb { r: 509635204, g: 648280772, b: 984788140 },
        Rgb { r: 552953156, g: 688929332, b: 995375608 },
        Rgb { r: 596262162, g: 726149107, b: 999836203 },
        Rgb { r: 639176211, g: 759599947, b: 998151185 },
        Rgb { r: 681291281, g: 788964712, b: 990363227 },
        Rgb { r: 722193294, g: 813952739, b: 976574709 },
        Rgb { r: 761464949, g: 834302879, b: 956945269 },
        Rgb { r: 798691636, g: 849786142, b: 931688648 },
        Rgb { r: 833466556, g: 860207984, b: 901068838 },
        Rgb { r: 865395197, g: 865410210, b: 865395561 },
        Rgb { r: 897787179, g: 848937047, b: 820880546 },
        Rgb { r: 924127593, g: 827384882, b: 774508472 },
        Rgb { r: 944468518, g: 800927443, b: 726736146 },
        Rgb { r: 958852946, g: 769767752, b: 678007945 },
        Rgb { r: 967328030, g: 734132809, b: 628751763 },
        Rgb { r: 969954137, g: 694266682, b: 579375448 },
        Rgb { r: 966811177, g: 650421156, b: 530263762 },
        Rgb { r: 958003065, g: 602842431, b: 481775914 },
        Rgb { r: 943660866, g: 551750968, b: 434243684 },
        Rgb { r: 923944917, g: 497308560, b: 387970225 },
        Rgb { r: 899046170, g: 439559467, b: 343229596 },
        Rgb { r: 869186849, g: 378313092, b: 300267182 },
        Rgb { r: 834620542, g: 312874446, b: 259301199 },
        Rgb { r: 795631745, g: 241283790, b: 220525627 },
        Rgb { r: 752534934, g: 157246067, b: 184115123 },
        Rgb { r: 705673158, g: 15556160, b: 150232812 },
    ]
}

/// The fixed 33-stop cool-to-warm palette, index 0 the coldest
/// (least dense) color and index 32 the hottest.
pub fn coolwarm() -> (p: Vec<Rgb>)
    ensures
        p@ == coolwarm_spec(),
        palette_wf(p@),
{
    let mut p: Vec<Rgb> = Vec::new();
    push_rgb(&mut p, 229805700, 298717966, 753683153);
    push_rgb(&mut p, 266233880, 353094838, 801466763);
    push_rgb(&mut p, 303868910, 406535296, 844958670);
    push_rgb(&mut p, 342804478, 458757618, 883725899);
    push_rgb(&mut p, 383013340, 509419040, 917387822);
    push_rgb(&mut p, 424369608, 558148092, 945619588);
    push_rgb(&mut p, 466667080, 604562568, 968154911);
    push_rgb(&mut p, 509635204, 648280772, 984788140);
    push_rgb(&mut p, 552953156, 688929332, 995375608);
    push_rgb(&mut p, 596262162, 726149107, 999836203);
    push_rgb(&mut p, 639176211, 759599947, 998151185);
    push_rgb(&mut p, 681291281, 788964712, 990363227);
    push_rgb(&mut p, 722193294, 813952739, 976574709);
    push_rgb(&mut p, 761464949, 834302879, 956945269);
    push_rgb(&mut p, 798691636, 849786142, 931688648);
    push_rgb(&mut p, 833466556, 860207984, 901068838);
    push_rgb(&mut p, 865395197, 865410210, 865395561);
    push_rgb(&mut p, 897787179, 848937047, 820880546);
    push_rgb(&mut p, 924127593, 827384882, 774508472);
    push_rgb(&mut p, 944468518, 800927443, 726736146);
    push_rgb(&mut p, 958852946, 769767752, 678007945);
    push_rgb(&mut p, 967328030, 734132809, 628751763);
    push_rgb(&mut p, 969954137, 694266682, 579375448);
    push_rgb(&mut p, 966811177, 650421156, 530263762);
    push_rgb(&mut p, 958003065, 602842431, 481775914);
    push_rgb(&mut p, 943660866, 551750968, 434243684);
    push_rgb(&mut p, 923944917, 497308560, 387970225);
    push_rgb(&mut p, 899046170, 439559467, 343229596);
    push_rgb(&mut p, 869186849, 378313092, 300267182);
    push_rgb(&mut p, 834620542, 312874446, 259301199);
    push_rgb(&mut p, 795631745, 241283790, 220525627);
    push_rgb(&mut p, 752534934, 157246067, 184115123);
    push_rgb(&mut p, 705673158, 15556160, 150232812);
    proof {
        assert(p@ =~= coolwarm_spec());
    }
    p
}

/// Append one palette stop.
fn push_rgb(p: &mut Vec<Rgb>, r: u64, g: u64, b: u64)
    requires
        r <= PALETTE_DEN,
        g <= PALETTE_DEN,
        b <= PALETTE_DEN,
    ensures
        final(p)@ == old(p)@.push(Rgb { r, g, b }),
{
    p.push(Rgb { r, g, b });
}

/// Map a whole normalized raster through the palette, pixel bytes in
/// B, G, R order.
#[verifier::loop_isolation(false)]
pub fn colorize(r: &Raster, palette: &Vec<Rgb>) -> (img: ColorImage)
    requires
        r.wf(),
        palette_wf(palette@),
        forall|i: int| 0 <= i < r.cells@.len() ==> r.cells@[i] <= SCALE,
    ensures
        img.wf(),
        img.width == r.width,
        img.height == r.height,
        forall|i: int|
            0 <= i < r.cells@.len() ==> img.bytes@[3 * i] == byte_of(palette@, r.cells@[i], 2)
                && img.bytes@[3 * i + 1] == byte_of(palette@, r.cells@[i], 1) && img.bytes@[3 * i
                + 2] == byte_of(palette@, r.cells@[i], 0),
{
    let n = r.cells.len();
    let mut bytes: Vec<u8> = Vec::new();
    let mut i: usize = 0;
    while i < n
        invariant
            i <= n,
            bytes@.len() == 3 * i,
            forall|j: int|
                0 <= j < i ==> bytes@[3 * j] == byte_of(palette@, r.cells@[j], 2) && bytes@[3 * j
                    + 1] == byte_of(palette@, r.cells@[j], 1) && bytes@[3 * j + 2] == byte_of(
                    palette@,
                    r.cells@[j],
                    0,
                ),
        decreases n - i,
    {
        let (b, g, rr) = colorize_value(palette, r.cells[i]);
        bytes.push(b);
        bytes.push(g);
        bytes.push(rr);
        i = i + 1;
    }
    ColorImage { width: r.width, height: r.height, bytes }
}

/// One unit step of intensity moves the interpolated channel by exactly
/// 32 times the difference of the two stops the step lies between.
proof fn lemma_interp_step(p: Seq<Rgb>, k: int, d: int, v: u64)
    requires
        palette_wf(p),
        0 <= k < 3,
        0 <= d,
        1 <= v <= SCALE,
        forall|j: int|
            0 <= j < 32 ==> -d <= chan(p[j + 1], k) - #[trigger] chan(p[j], k) <= d,
    ensures
        -(32 * d) <= interp_num(p, v, k) - interp_num(p, (v - 1) as u64, k) <= 32 * d,
{
    let s = SCALE as int;
    let v0 = (v - 1) as u64;
    let i1 = v0 * 32;
    let i2 = v * 32;
    lemma_fundamental_div_mod(i1 as int, s);
    lemma_stops_in_range(v);
    lemma_stops_in_range(v0);
    let q = stop_lo(v0);
    let r = stop_frac(v0);
    let m = (v0 as int) - 2048 * q;
    assert(r == 32 * m);
    assert(m <= 2047);
    let a = chan(p[q], k) as int;
    let b = chan(p[q + 1], k) as int;
    lemma_mul_by_zero_is_zero(a);
    lemma_mul_by_zero_is_zero(b);
    assert(-d <= b - a <= d);
    if r < s - 32 {
        lemma_fundamental_div_mod_converse(i2 as int, s, q, r + 32);
        assert(interp_num(p, v, k) == a * (s - r - 32) + b * (r + 32));
        if r == 0 {
            assert(interp_num(p, v0, k) == a * s);
        } else {
            assert(interp_num(p, v0, k) == a * (s - r) + b * r);
        }
        assert(a * (s - r - 32) + b * (r + 32) - (a * (s - r) + b * r) == 32 * (b - a))
            by (nonlinear_arith);
        if r == 0 {
            assert(a * (s - r) + b * r == a * s);
        }
        assert(interp_num(p, v, k) - interp_num(p, v0, k) == 32 * (b - a));
    } else {
        assert(r == s - 32);
        lemma_fundamental_div_mod_converse(i2 as int, s, q + 1, 0);
        assert(interp_num(p, v, k) == b * s);
        assert(interp_num(p, v0, k) == a * (s - r) + b * r);
        assert(b * s - (a * 32 + b * (s - 32)) == 32 * (b - a)) by (nonlinear_arith);
        assert(interp_num(p, v, k) - interp_num(p, v0, k) == 32 * (b - a));
    }
    assert(-(32 * d) <= 32 * (b - a) <= 32 * d) by (nonlinear_arith)
        requires
            -d <= b - a <= d,
    ;
}

/// Monotonic continuity: between any two intensities the interpolated
/// channel moves by no more than 32 times the largest adjacent-stop
/// difference `d`, times the intensity gap — no discontinuous jumps.
pub proof fn lemma_colormap_continuity(p: Seq<Rgb>, k: int, d: int, v1: u64, v2: u64)
    requires
        palette_wf(p),
        0 <= k < 3,
        0 <= d,
        v1 <= v2 <= SCALE,
        forall|j: int|
            0 <= j < 32 ==> -d <= chan(p[j + 1], k) - #[trigger] chan(p[j], k) <= d,
    ensures
        -(32 * d * (v2 - v1)) <= interp_num(p, v2, k) - interp_num(p, v1, k) <= 32 * d * (v2 - v1),
    decreases v2 - v1,
{
    if v1 < v2 {
        lemma_colormap_continuity(p, k, d, v1, (v2 - 1) as u64);
        lemma_interp_step(p, k, d, v2);
        assert(32 * d * (v2 - v1) == 32 * d * ((v2 - 1) - v1) + 32 * d) by (nonlinear_arith);
    } else {
        assert(32 * d * (v2 - v1) == 0) by (nonlinear_arith)
            requires
                v1 == v2,
        ;
    }
}

/// Endpoint exactness: intensity 0 reproduces the first palette stop and
/// intensity `SCALE` the last one, before quantization.
pub proof fn lemma_colormap_endpoints(p: Seq<Rgb>, k: int)
    requires
        palette_wf(p),
        0 <= k < 3,
    ensures
        interp_num(p, 0, k) == chan(p[0], k) * SCALE,
        interp_num(p, SCALE as u64, k) == chan(p[32], k) * SCALE,
{
    lemma_stops_in_range(0);
    lemma_stops_in_range(SCALE as u64);
}

} // verus!
