use pngoptim::quality::{DitherMapMode, SpeedSettings};

#[test]
fn speed_11_disables_dithering_and_clamps_to_10() {
    let settings = SpeedSettings::from_speed(11);
    assert_eq!(settings.effective_speed, 10);
    assert!(settings.force_disable_dither);
    assert_eq!(settings.input_posterize_bits, 1);
    assert_eq!(settings.use_dither_map, DitherMapMode::Disabled);
}

#[test]
fn speed_4_matches_reference_shape() {
    let settings = SpeedSettings::from_speed(4);
    assert_eq!(settings.effective_speed, 4);
    assert_eq!(settings.kmeans_iterations, 12);
    let limit = 1.0 / f64::from(1u32 << settings.kmeans_iteration_limit_shift);
    assert!((limit - (1.0 / 524_288.0)).abs() < f64::EPSILON);
    assert_eq!(settings.feedback_loop_trials, 20);
    assert_eq!(settings.input_posterize_bits, 0);
    assert_eq!(settings.use_dither_map, DitherMapMode::Enabled);
    assert!(settings.use_contrast_maps);
    assert!(!settings.single_threaded_dithering);
}

#[test]
fn slowest_speeds_always_use_the_dither_map() {
    let s1 = SpeedSettings::from_speed(1);
    assert_eq!(s1.use_dither_map, DitherMapMode::Always);
    assert!(s1.single_threaded_dithering);
    assert_eq!(s1.kmeans_iterations, 7 + 49 / 2);
    assert_eq!(s1.feedback_loop_trials, 47);
    assert_eq!(s1.max_histogram_entries, (1 << 17) + (1 << 18) * 9);
    let s0 = SpeedSettings::from_speed(0);
    assert_eq!(s0.kmeans_iterations, 40);
    assert_eq!(s0.kmeans_iteration_limit_shift, 23);
}

#[test]
fn fast_speeds_skip_kmeans_and_contrast_maps() {
    let s = SpeedSettings::from_speed(8);
    assert_eq!(s.kmeans_iterations, 0);
    assert_eq!(s.feedback_loop_trials, 0);
    assert_eq!(s.use_dither_map, DitherMapMode::Disabled);
    assert!(!s.use_contrast_maps);
    assert!(!s.force_disable_dither);
    let s7 = SpeedSettings::from_speed(7);
    assert!(s7.use_contrast_maps);
    assert_eq!(s7.use_dither_map, DitherMapMode::Disabled);
}

#[test]
fn speed_10_already_disables_dithering() {
    assert!(SpeedSettings::from_speed(10).force_disable_dither);
    assert!(!SpeedSettings::from_speed(9).force_disable_dither);
}
