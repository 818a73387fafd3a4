//! The speed presets of the palette quantizer.

use vstd::prelude::*;

verus! {

/// Whether the remapper builds a dither map.
#[derive(Debug, Clone, Copy, PartialEq, Eq, Structural)]
pub enum DitherMapMode {
    Disabled,
    Enabled,
    Always,
}

/// The quantizer settings that a speed from 1 (slow, best) to 11 selects.
///
/// The k-means convergence limit is `2^-kmeans_iteration_limit_shift`.
#[derive(Debug, Clone, Copy, PartialEq, Eq, Structural)]
pub struct SpeedSettings {
    pub raw_speed: u8,
    pub effective_speed: u8,
    pub kmeans_iterations: u16,
    pub kmeans_iteration_limit_shift: u32,
    pub feedback_loop_trials: u16,
    pub max_histogram_entries: u32,
    pub input_posterize_bits: u8,
    pub use_dither_map: DitherMapMode,
    pub use_contrast_maps: bool,
    pub single_threaded_dithering: bool,
    pub force_disable_dither: bool,
}

/// The settings for `raw_speed`; speeds above 10 act as 10, and from
/// speed 10 up dithering is off.
pub open spec fn speed_settings(raw_speed: u8) -> SpeedSettings {
    let s: int = if raw_speed > 10 {
        10
    } else {
        raw_speed as int
    };
    let it: int = if s < 8 {
        8 - s
    } else {
        0
    };
    let dither_map = if s < 3 {
        DitherMapMode::Always
    } else if s <= 6 {
        DitherMapMode::Enabled
    } else {
        DitherMapMode::Disabled
    };
    SpeedSettings {
        raw_speed,
        effective_speed: s as u8,
        kmeans_iterations: (it + it * it / 2) as u16,
        kmeans_iteration_limit_shift: (23 - s) as u32,
        feedback_loop_trials: (if 56 - 9 * s > 0 {
            56 - 9 * s
        } else {
            0
        }) as u16,
        max_histogram_entries: (0x20000 + 0x40000 * (10 - s)) as u32,
        input_posterize_bits: if s >= 8 {
            1u8
        } else {
            0u8
        },
        use_dither_map: dither_map,
        use_contrast_maps: s <= 7 || dither_map != DitherMapMode::Disabled,
        single_threaded_dithering: s == 1,
        force_disable_dither: raw_speed >= 10,
    }
}

impl SpeedSettings {
    pub fn from_speed(raw_speed: u8) -> (r: Self)
        ensures
            r == speed_settings(raw_speed),
    {
        let force_disable_dither = raw_speed >= 10;
        let effective_speed: u8 = if raw_speed < 10 {
            raw_speed
        } else {
            10
        };
        let mut iterations: u16 = if effective_speed < 8 {
            (8 - effective_speed) as u16
        } else {
            0
        };
        assert(iterations * iterations <= 64) by (nonlinear_arith)
            requires
                iterations <= 8,
        ;
        iterations = iterations + iterations * iterations / 2;
        let kmeans_iteration_limit_shift: u32 = 23 - effective_speed as u32;
        let feedback_loop_trials: u16 = if 9 * (effective_speed as u16) < 56 {
            56 - 9 * (effective_speed as u16)
        } else {
            0
        };
        let max_histogram_entries: u32 = 0x20000 + 0x40000 * (10 - effective_speed as u32);
        let input_posterize_bits: u8 = if effective_speed >= 8 {
            1
        } else {
            0
        };
        let mut use_dither_map = if effective_speed <= 6 {
            DitherMapMode::Enabled
        } else {
            DitherMapMode::Disabled
        };
        if effective_speed < 3 && use_dither_map != DitherMapMode::Disabled {
            use_dither_map = DitherMapMode::Always;
        }
        let use_contrast_maps = effective_speed <= 7 || use_dither_map != DitherMapMode::Disabled;
        let single_threaded_dithering = effective_speed == 1;
        SpeedSettings {
            raw_speed,
            effective_speed,
            kmeans_iterations: iterations,
            kmeans_iteration_limit_shift,
            feedback_loop_trials,
            max_histogram_entries,
            input_posterize_bits,
            use_dither_map,
            use_contrast_maps,
            single_threaded_dithering,
            force_disable_dither,
        }
    }
}

} // verus!
