//! Uniform per-channel quantization: how many levels a quality and speed
//! allow, and snapping samples to them.

use vstd::prelude::*;

verus! {

/// What the uniform quantizer is asked for.
#[derive(Debug, Clone, Copy, PartialEq, Eq, Structural)]
pub struct QuantizeSettings {
    pub quality_target: u8,
    pub speed: u8,
    pub dither: bool,
}

/// Levels per color channel: 2 plus 30% of the quality, less 80% of the
/// speed above 1 (each rounded toward zero), kept within 2..=32.
pub open spec fn spec_levels(quality_target: u8, speed: u8) -> u8 {
    let quality_component: int = 2 + quality_target * 30 / 100;
    let speed_penalty: int = if speed == 0 {
        0
    } else {
        (speed - 1) * 8 / 10
    };
    let v = quality_component - speed_penalty;
    if v < 2 {
        2
    } else if v > 32 {
        32
    } else {
        v as u8
    }
}

/// Levels per color channel for a quality and a speed (see [`spec_levels`]).
pub fn levels_from_quality_speed(quality_target: u8, speed: u8) -> (levels: u8)
    ensures
        levels == spec_levels(quality_target, speed),
        2 <= levels <= 32,
{
    let quality_component: i32 = 2 + (quality_target as i32) * 30 / 100;
    let speed_penalty: i32 = if speed == 0 {
        0
    } else {
        ((speed as i32) - 1) * 8 / 10
    };
    let v = quality_component - speed_penalty;
    if v < 2 {
        2
    } else if v > 32 {
        32
    } else {
        v as u8
    }
}

/// The color and alpha level counts for `settings`: alpha gets half the
/// color levels, but never fewer than 4.
pub open spec fn spec_quantize_levels(settings: QuantizeSettings) -> (u8, u8) {
    let rgb = spec_levels(settings.quality_target, settings.speed);
    (rgb, if rgb / 2 > 4 {
        rgb / 2
    } else {
        4
    })
}

/// The color and alpha level counts (see [`spec_quantize_levels`]).
pub fn quantize_levels(settings: QuantizeSettings) -> (r: (u8, u8))
    ensures
        r == spec_quantize_levels(settings),
{
    let rgb = levels_from_quality_speed(settings.quality_target, settings.speed);
    let half = rgb / 2;
    (rgb, if half > 4 {
        half
    } else {
        4
    })
}

/// `v` snapped to the nearest of `levels` evenly spaced values from 0 to
/// 255, both roundings half away from zero; fewer than two levels keep `v`.
pub open spec fn quantized(v: u8, levels: u8) -> u8 {
    if levels <= 1 {
        v
    } else {
        let m = levels - 1;
        let level = (2 * v * m + 255) / 510;
        ((2 * level * 255 + m) / (2 * m)) as u8
    }
}

proof fn lemma_quantized_bound(v: u32, m: u32)
    requires
        1 <= m <= 254,
        v <= 255,
    ensures
        2 * v * m + 255 <= 2 * 255 * 254 + 255,
        (2 * v * m + 255) / 510 <= m,
        2 * ((2 * v * m + 255) / 510) * 255 + m <= 2 * 255 * 254 + 254,
        (2 * ((2 * v * m + 255) / 510) * 255 + m) / (2 * m) <= 255,
{
    assert(2 * v * m <= 2 * 255 * m) by (nonlinear_arith)
        requires
            v <= 255,
    ;
    assert(2 * 255 * m <= 2 * 255 * 254) by (nonlinear_arith)
        requires
            m <= 254,
    ;
    let level = (2 * v * m + 255) / 510;
    assert(level <= m) by (nonlinear_arith)
        requires
            level == (2 * v * m + 255) / 510,
            2 * v * m <= 510 * m,
            m >= 1,
    ;
    assert(2 * level * 255 <= 2 * 255 * 254) by (nonlinear_arith)
        requires
            level <= m,
            m <= 254,
    ;
    assert((2 * level * 255 + m) / (2 * m) <= 255) by (nonlinear_arith)
        requires
            level <= m,
            m >= 1,
    ;
}

/// Law: snapping is idempotent. A snapped value already lies on the level
/// grid, so snapping it again to the same number of levels leaves it as it
/// is; a second undithered pass changes no byte.
pub proof fn lemma_snapping_is_idempotent(v: u8, levels: u8)
    ensures
        quantized(quantized(v, levels), levels) == quantized(v, levels),
{
    if levels > 1 {
        let m: int = levels - 1;
        lemma_quantized_bound(v as u32, m as u32);
        let l: int = (2 * v * m + 255) / 510;
        let out: int = (2 * l * 255 + m) / (2 * m);
        assert(quantized(v, levels) as int == out);
        assert(0 <= l) by (nonlinear_arith)
            requires
                l == (2 * v * m + 255) / 510,
                v >= 0,
                m >= 1,
        ;
        assert(2 * m * out <= 2 * l * 255 + m < 2 * m * out + 2 * m) by (nonlinear_arith)
            requires
                out == (2 * l * 255 + m) / (2 * m),
                m >= 1,
                l >= 0,
        ;
        assert((2 * out * m + 255) / 510 == l) by (nonlinear_arith)
            requires
                2 * m * out <= 2 * l * 255 + m,
                2 * l * 255 + m < 2 * m * out + 2 * m,
                1 <= m <= 254,
                l >= 0,
        ;
    }
}

fn quantize_sample(v: u8, levels: u8) -> (r: u8)
    ensures
        r == quantized(v, levels),
{
    if levels <= 1 {
        return v;
    }
    let m: u32 = (levels - 1) as u32;
    let vv: u32 = v as u32;
    proof {
        lemma_quantized_bound(vv, m);
    }
    let level: u32 = (2 * vv * m + 255) / 510;
    ((2 * level * 255 + m) / (2 * m)) as u8
}

/// The channel levels that sample `i` of an RGBA buffer is snapped to.
pub open spec fn levels_at(i: int, rgb_levels: u8, alpha_levels: u8) -> u8 {
    if i % 4 == 3 {
        alpha_levels
    } else {
        rgb_levels
    }
}

/// Snaps every sample of each whole RGBA pixel to its channel's levels;
/// bytes after the last whole pixel are left as they are.
pub fn quantize_without_dither(pixels: &mut Vec<u8>, rgb_levels: u8, alpha_levels: u8)
    ensures
        final(pixels)@.len() == old(pixels)@.len(),
        forall|i: int|
            0 <= i < old(pixels)@.len() ==> #[trigger] final(pixels)@[i] == if i < old(pixels)@.len() / 4 * 4 {
                quantized(old(pixels)@[i], levels_at(i, rgb_levels, alpha_levels))
            } else {
                old(pixels)@[i]
            },
{
    let ghost orig = pixels@;
    let n = pixels.len() / 4 * 4;
    let mut i: usize = 0;
    while i < n
        invariant
            i <= n,
            n == orig.len() / 4 * 4,
            pixels@.len() == orig.len(),
            forall|j: int|
                0 <= j < orig.len() ==> #[trigger] pixels@[j] == if j < i {
                    quantized(orig[j], levels_at(j, rgb_levels, alpha_levels))
                } else {
                    orig[j]
                },
        decreases n - i,
    {
        let levels = if i % 4 == 3 {
            alpha_levels
        } else {
            rgb_levels
        };
        let q = quantize_sample(pixels[i], levels);
        pixels.set(i, q);
        i = i + 1;
    }
}

} // verus!
