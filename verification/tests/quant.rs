use pngoptim::quant::{levels_from_quality_speed, quantize_levels, quantize_without_dither, QuantizeSettings};

#[test]
fn levels_stay_in_range() {
    for quality in 0..=100 {
        for speed in 1..=11 {
            let levels = levels_from_quality_speed(quality, speed);
            assert!((2..=32).contains(&levels));
        }
    }
}

#[test]
fn levels_formula_examples() {
    assert_eq!(levels_from_quality_speed(80, 4), 24);
    assert_eq!(levels_from_quality_speed(100, 1), 32);
    assert_eq!(levels_from_quality_speed(50, 5), 14);
    assert_eq!(levels_from_quality_speed(0, 11), 2);
    assert_eq!(levels_from_quality_speed(255, 0), 32);
}

#[test]
fn alpha_levels_are_half_but_at_least_four() {
    let s = QuantizeSettings { quality_target: 80, speed: 4, dither: false };
    assert_eq!(quantize_levels(s), (24, 12));
    let s = QuantizeSettings { quality_target: 0, speed: 11, dither: false };
    assert_eq!(quantize_levels(s), (2, 4));
}

#[test]
fn quantize_without_dither_snaps_whole_pixels_only() {
    let mut pixels = vec![120u8, 150, 210, 255, 90, 40, 200, 180, 7];
    quantize_without_dither(&mut pixels, 24, 12);
    assert_eq!(pixels, vec![122, 155, 211, 255, 89, 44, 200, 185, 7]);
}

#[test]
fn two_levels_threshold_at_half() {
    let mut pixels = vec![127u8, 128, 0, 255];
    quantize_without_dither(&mut pixels, 2, 2);
    assert_eq!(pixels, vec![0, 255, 0, 255]);
}

#[test]
fn one_level_keeps_samples() {
    let mut pixels = vec![1u8, 2, 3, 4];
    quantize_without_dither(&mut pixels, 1, 0);
    assert_eq!(pixels, vec![1, 2, 3, 4]);
}

#[test]
fn snapping_twice_changes_nothing() {
    let mut pixels: Vec<u8> = (0..=255u8).collect();
    for levels in [2u8, 5, 17, 32] {
        let mut once = pixels.clone();
        quantize_without_dither(&mut once, levels, 4);
        let mut twice = once.clone();
        quantize_without_dither(&mut twice, levels, 4);
        assert_eq!(once, twice);
    }
    pixels.clear();
}
