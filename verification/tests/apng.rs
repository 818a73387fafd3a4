use pngoptim::apng::{
    compose_frames, fold_delays_fit, fold_duplicate_frames, gcd, merge_delays, merge_fits, minimize_frame_rects,
    validate_apng_for_encoding, validate_frame_bounds, ApngDefaultImage, ApngFrame, ApngImage,
    keep_minimized, BlendOp, DisposeOp,
};
use pngoptim::error::AppError;

fn rgba(px: &[[u8; 4]]) -> Vec<u8> {
    px.iter().flat_map(|px| px.iter().copied()).collect()
}

/// Straight-alpha "over" compositing of `src` onto `dst`, rounded to bytes.
fn blend_over(dst: [u8; 4], src: [u8; 4]) -> [u8; 4] {
    let src_a = f32::from(src[3]) / 255.0;
    let dst_a = f32::from(dst[3]) / 255.0;
    let out_a = src_a + dst_a * (1.0 - src_a);
    if out_a <= f32::EPSILON {
        return [0, 0, 0, 0];
    }
    let mut out = [0u8; 4];
    for channel in 0..3 {
        let src_c = f32::from(src[channel]) / 255.0;
        let dst_c = f32::from(dst[channel]) / 255.0;
        let out_c = (src_c * src_a + dst_c * dst_a * (1.0 - src_a)) / out_a;
        out[channel] = (out_c * 255.0).round().clamp(0.0, 255.0) as u8;
    }
    out[3] = (out_a * 255.0).round().clamp(0.0, 255.0) as u8;
    out
}

fn frame(w: u32, h: u32, x: u32, y: u32, num: u16, den: u16, dispose: DisposeOp, blend: BlendOp, px: &[[u8; 4]]) -> ApngFrame {
    ApngFrame {
        width: w,
        height: h,
        x_offset: x,
        y_offset: y,
        delay_num: num,
        delay_den: den,
        dispose_op: dispose,
        blend_op: blend,
        rgba: rgba(px),
    }
}

#[test]
fn compose_frames_respects_blend_and_dispose_previous() {
    let apng = ApngImage {
        width: 2,
        height: 1,
        num_plays: 0,
        default_image: None,
        frames: vec![
            frame(2, 1, 0, 0, 1, 30, DisposeOp::Keep, BlendOp::Source, &[[255, 0, 0, 255], [255, 0, 0, 255]]),
            frame(1, 1, 0, 0, 1, 30, DisposeOp::Previous, BlendOp::Over, &[[0, 0, 255, 128]]),
            frame(1, 1, 1, 0, 1, 30, DisposeOp::Keep, BlendOp::Source, &[[0, 255, 0, 255]]),
        ],
    };

    let composited = compose_frames(&apng, &blend_over).expect("compose");
    assert_eq!(composited.len(), 3);
    assert_eq!(composited[0], rgba(&[[255, 0, 0, 255], [255, 0, 0, 255]]));
    assert_eq!(composited[1], rgba(&[[127, 0, 128, 255], [255, 0, 0, 255]]));
    assert_eq!(composited[2], rgba(&[[255, 0, 0, 255], [0, 255, 0, 255]]));
}

#[test]
fn fold_duplicate_frames_merges_identical_consecutive() {
    let mut apng = ApngImage {
        width: 1,
        height: 1,
        num_plays: 0,
        default_image: None,
        frames: vec![
            frame(1, 1, 0, 0, 1, 10, DisposeOp::Keep, BlendOp::Source, &[[255, 0, 0, 255]]),
            frame(1, 1, 0, 0, 2, 10, DisposeOp::Keep, BlendOp::Source, &[[255, 0, 0, 255]]),
            frame(1, 1, 0, 0, 3, 10, DisposeOp::Keep, BlendOp::Source, &[[0, 255, 0, 255]]),
        ],
    };
    fold_duplicate_frames(&mut apng, &blend_over);
    assert_eq!(apng.frames.len(), 2);
    assert_eq!(apng.frames[0].delay_num, 3);
    assert_eq!(apng.frames[0].delay_den, 10);
    assert_eq!(apng.frames[1].rgba, rgba(&[[0, 255, 0, 255]]));
}

#[test]
fn fold_duplicate_frames_no_duplicates_is_noop() {
    let mut apng = ApngImage {
        width: 1,
        height: 1,
        num_plays: 0,
        default_image: None,
        frames: vec![
            frame(1, 1, 0, 0, 1, 10, DisposeOp::Keep, BlendOp::Source, &[[255, 0, 0, 255]]),
            frame(1, 1, 0, 0, 1, 10, DisposeOp::Keep, BlendOp::Source, &[[0, 255, 0, 255]]),
        ],
    };
    fold_duplicate_frames(&mut apng, &blend_over);
    assert_eq!(apng.frames.len(), 2);
}

#[test]
fn minimize_frame_rects_shrinks_unchanged_regions() {
    let black = [0, 0, 0, 255];
    let mut second = vec![[255, 0, 0, 255]];
    second.extend_from_slice(&[black; 7]);
    second.push([0, 255, 0, 255]);
    let mut first = vec![[255, 0, 0, 255]];
    first.extend_from_slice(&[black; 8]);
    let mut apng = ApngImage {
        width: 3,
        height: 3,
        num_plays: 0,
        default_image: None,
        frames: vec![
            frame(3, 3, 0, 0, 1, 10, DisposeOp::Keep, BlendOp::Source, &first),
            frame(3, 3, 0, 0, 1, 10, DisposeOp::Keep, BlendOp::Source, &second),
        ],
    };

    let composited_before = compose_frames(&apng, &blend_over).expect("compose before");
    minimize_frame_rects(&mut apng, &blend_over);

    assert_eq!(apng.frames[1].width, 1);
    assert_eq!(apng.frames[1].height, 1);
    assert_eq!(apng.frames[1].x_offset, 2);
    assert_eq!(apng.frames[1].y_offset, 2);
    assert_eq!(apng.frames[1].rgba, rgba(&[[0, 255, 0, 255]]));

    let composited_after = compose_frames(&apng, &blend_over).expect("compose after");
    assert_eq!(composited_before, composited_after);
}

#[test]
fn merge_delays_same_denominator() {
    assert_eq!(merge_delays(1, 10, 2, 10), (3, 10));
}

#[test]
fn merge_delays_different_denominator() {
    // 1/10 + 1/20 = 3/20
    assert_eq!(merge_delays(1, 10, 1, 20), (3, 20));
}

#[test]
fn merge_delays_treats_zero_denominator_as_hundredths() {
    assert_eq!(merge_delays(5, 0, 5, 100), (10, 100));
}

#[test]
fn merge_delays_falls_back_to_milliseconds() {
    // 65535/1 + 65535/1 does not fit: 131070 s = 131070000 ms, clamped.
    assert_eq!(merge_delays(65535, 1, 65535, 1), (65535, 1000));
    // 1/65535 + 1/65534 needs a denominator beyond u16: in ms it rounds down to 0.
    assert_eq!(merge_delays(1, 65535, 1, 65534), (0, 1000));
}

#[test]
fn gcd_of_examples() {
    assert_eq!(gcd(12, 18), 6);
    assert_eq!(gcd(7, 0), 7);
    assert_eq!(gcd(0, 9), 9);
    assert_eq!(gcd(17, 5), 1);
}

#[test]
fn minimize_keeps_composition_with_transparent_corner() {
    let mut apng = ApngImage {
        width: 2,
        height: 2,
        num_plays: 0,
        default_image: None,
        frames: vec![
            frame(2, 2, 0, 0, 1, 10, DisposeOp::Keep, BlendOp::Source, &[[0, 0, 0, 0], [1, 2, 3, 255], [4, 5, 6, 255], [7, 8, 9, 255]]),
            frame(1, 1, 1, 1, 1, 10, DisposeOp::Keep, BlendOp::Over, &[[200, 100, 50, 128]]),
            frame(1, 1, 0, 1, 1, 10, DisposeOp::Background, BlendOp::Source, &[[4, 5, 6, 255]]),
        ],
    };
    let before = compose_frames(&apng, &blend_over).expect("compose before");
    minimize_frame_rects(&mut apng, &blend_over);
    let after = compose_frames(&apng, &blend_over).expect("compose after");
    assert_eq!(before, after);
}

#[test]
fn compose_rejects_frame_outside_canvas() {
    let apng = ApngImage {
        width: 2,
        height: 2,
        num_plays: 0,
        default_image: None,
        frames: vec![frame(2, 2, 1, 0, 1, 10, DisposeOp::Keep, BlendOp::Source, &[[0, 0, 0, 0]; 4])],
    };
    assert!(matches!(compose_frames(&apng, &blend_over), Err(AppError::Decode(_))));
}

#[test]
fn compose_rejects_short_frame_data() {
    let apng = ApngImage {
        width: 2,
        height: 2,
        num_plays: 0,
        default_image: None,
        frames: vec![frame(2, 2, 0, 0, 1, 10, DisposeOp::Keep, BlendOp::Source, &[[0, 0, 0, 0]; 3])],
    };
    match compose_frames(&apng, &blend_over) {
        Err(AppError::Encode(m)) => assert_eq!(m, "APNG frame length mismatch: expected=16, actual=12"),
        other => panic!("unexpected {other:?}"),
    }
}

#[test]
fn frame_bounds_messages() {
    match validate_frame_bounds(4, 4, 0, 1, 0, 0) {
        Err(AppError::Decode(m)) => assert_eq!(m, "APNG frame dimensions must be non-zero"),
        other => panic!("unexpected {other:?}"),
    }
    assert!(validate_frame_bounds(4, 4, 2, 2, 2, 2).is_ok());
    assert!(matches!(validate_frame_bounds(4, 4, 2, 2, 3, 0), Err(AppError::Decode(_))));
}

#[test]
fn encoding_checks_report_each_problem() {
    let full = frame(2, 1, 0, 0, 1, 10, DisposeOp::Keep, BlendOp::Source, &[[1, 2, 3, 4], [5, 6, 7, 8]]);
    let partial = frame(1, 1, 1, 0, 1, 10, DisposeOp::Keep, BlendOp::Source, &[[1, 2, 3, 4]]);

    let empty = ApngImage { width: 2, height: 1, num_plays: 0, default_image: None, frames: vec![] };
    match validate_apng_for_encoding(&empty) {
        Err(AppError::Encode(m)) => assert_eq!(m, "APNG encoding requires at least one animation frame"),
        other => panic!("unexpected {other:?}"),
    }

    let uncovered = ApngImage { width: 2, height: 1, num_plays: 0, default_image: None, frames: vec![partial.clone()] };
    match validate_apng_for_encoding(&uncovered) {
        Err(AppError::Encode(m)) => assert_eq!(
            m,
            "first APNG frame must cover the full canvas when no separate default image is present"
        ),
        other => panic!("unexpected {other:?}"),
    }

    let short_default = ApngImage {
        width: 2,
        height: 1,
        num_plays: 0,
        default_image: Some(ApngDefaultImage { rgba: vec![0; 4] }),
        frames: vec![partial.clone()],
    };
    match validate_apng_for_encoding(&short_default) {
        Err(AppError::Encode(m)) => assert_eq!(m, "APNG default image length mismatch: expected=8, actual=4"),
        other => panic!("unexpected {other:?}"),
    }

    let ok = ApngImage {
        width: 2,
        height: 1,
        num_plays: 0,
        default_image: Some(ApngDefaultImage { rgba: vec![0; 8] }),
        frames: vec![partial, full],
    };
    assert!(validate_apng_for_encoding(&ok).is_ok());
}

#[test]
fn fold_keeps_shown_images_when_frames_keep_the_canvas() {
    let red = [255, 0, 0, 255];
    let blue = [0, 0, 255, 255];
    let mut apng = ApngImage {
        width: 2,
        height: 1,
        num_plays: 0,
        default_image: None,
        frames: vec![
            frame(2, 1, 0, 0, 1, 10, DisposeOp::Keep, BlendOp::Source, &[red, red]),
            frame(1, 1, 1, 0, 1, 10, DisposeOp::Keep, BlendOp::Source, &[red]),
            frame(1, 1, 0, 0, 2, 10, DisposeOp::Keep, BlendOp::Source, &[blue]),
            frame(1, 1, 0, 0, 3, 10, DisposeOp::Keep, BlendOp::Over, &[blue]),
            frame(1, 1, 1, 0, 1, 10, DisposeOp::Keep, BlendOp::Over, &[[0, 255, 0, 128]]),
        ],
    };
    let before = compose_frames(&apng, &blend_over).expect("compose before");
    fold_duplicate_frames(&mut apng, &blend_over);
    let after = compose_frames(&apng, &blend_over).expect("compose after");
    assert_eq!(apng.frames.len(), 3);
    assert_eq!(after, vec![before[0].clone(), before[2].clone(), before[4].clone()]);
    assert_eq!((apng.frames[0].delay_num, apng.frames[0].delay_den), (2, 10));
    assert_eq!((apng.frames[1].delay_num, apng.frames[1].delay_den), (5, 10));
}

#[test]
fn merge_fits_follows_the_u32_arithmetic() {
    assert!(merge_fits(1, 10, 2, 10));
    assert!(merge_fits(65535, 1, 65535, 1));
    // 65535/65535 + 65535/65534 needs a numerator beyond u32.
    assert!(!merge_fits(65535, 65535, 65535, 65534));
    // 60000/1 + 1/65535 has a numerator within u32 that does not reduce,
    // and times 1000 it overflows.
    assert!(!merge_fits(60000, 1, 1, 65535));
}

#[test]
fn fold_checks_only_the_merges_it_makes() {
    let red = [255, 0, 0, 255];
    let blue = [0, 0, 255, 255];
    let apng = ApngImage {
        width: 1,
        height: 1,
        num_plays: 0,
        default_image: None,
        frames: vec![
            frame(1, 1, 0, 0, 60000, 1, DisposeOp::Keep, BlendOp::Source, &[red]),
            frame(1, 1, 0, 0, 1, 65535, DisposeOp::Keep, BlendOp::Source, &[blue]),
        ],
    };
    assert!(fold_delays_fit(&apng, &blend_over));
    let mut same = apng.clone();
    same.frames[1].rgba = rgba(&[red]);
    assert!(!fold_delays_fit(&same, &blend_over));
}

#[test]
fn fold_keeps_frames_that_leave_different_canvases() {
    let red = [255u8, 0, 0, 255];
    let original = ApngImage {
        width: 2,
        height: 1,
        num_plays: 0,
        default_image: None,
        frames: vec![
            frame(2, 1, 0, 0, 1, 10, DisposeOp::Background, BlendOp::Source, &[red, red]),
            frame(2, 1, 0, 0, 1, 10, DisposeOp::Keep, BlendOp::Source, &[red, red]),
            frame(1, 1, 1, 0, 1, 10, DisposeOp::Keep, BlendOp::Source, &[[0, 255, 0, 255]]),
        ],
    };
    let before = compose_frames(&original, &blend_over).expect("compose before");
    assert_eq!(before[2], rgba(&[red, [0, 255, 0, 255]]));
    let mut folded = original.clone();
    fold_duplicate_frames(&mut folded, &blend_over);
    assert_eq!(folded.frames.len(), 3);
    assert_eq!(compose_frames(&folded, &blend_over).expect("compose after"), before);

    let mut same_after = original.clone();
    same_after.frames[0].dispose_op = DisposeOp::Keep;
    fold_duplicate_frames(&mut same_after, &blend_over);
    assert_eq!(same_after.frames.len(), 2);
    assert_eq!(same_after.frames[0].delay_num, 2);
}

#[test]
fn minimization_is_rolled_back_when_it_encodes_larger() {
    assert!(keep_minimized(Some(100), Some(120)));
    assert!(keep_minimized(Some(120), Some(120)));
    assert!(!keep_minimized(Some(121), Some(120)));
    assert!(!keep_minimized(None, Some(120)));
    assert!(keep_minimized(Some(5), None));
}

#[test]
fn minimizing_an_unchanged_frame_keeps_an_opaque_canvas() {
    let red = [255u8, 0, 0, 255];
    let mut apng = ApngImage {
        width: 1,
        height: 1,
        num_plays: 0,
        default_image: None,
        frames: vec![
            frame(1, 1, 0, 0, 1, 10, DisposeOp::Keep, BlendOp::Source, &[red]),
            frame(1, 1, 0, 0, 1, 10, DisposeOp::Keep, BlendOp::Source, &[red]),
        ],
    };
    let before = compose_frames(&apng, &blend_over).expect("compose before");
    minimize_frame_rects(&mut apng, &blend_over);
    assert_eq!(apng.frames[1].rgba, rgba(&[red]));
    assert_eq!(compose_frames(&apng, &blend_over).expect("compose after"), before);
}

#[test]
fn minimizing_after_a_clearing_first_frame_keeps_the_images() {
    let red = [255u8, 0, 0, 255];
    let green = [0u8, 255, 0, 255];
    let mut apng = ApngImage {
        width: 2,
        height: 1,
        num_plays: 0,
        default_image: None,
        frames: vec![
            frame(2, 1, 0, 0, 1, 10, DisposeOp::Background, BlendOp::Source, &[red, red]),
            frame(2, 1, 0, 0, 1, 10, DisposeOp::Keep, BlendOp::Source, &[red, green]),
            frame(2, 1, 0, 0, 1, 10, DisposeOp::Previous, BlendOp::Source, &[red, green]),
        ],
    };
    let before = compose_frames(&apng, &blend_over).expect("compose before");
    minimize_frame_rects(&mut apng, &blend_over);
    assert_eq!((apng.frames[1].width, apng.frames[1].x_offset), (2, 0));
    assert_eq!(compose_frames(&apng, &blend_over).expect("compose after"), before);
}
